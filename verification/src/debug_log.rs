//! The debug log: the last lines of a session, and where they are written.
use std::collections::VecDeque;

use vstd::prelude::*;

use crate::app_state;
use crate::app_state::find_base_directory;
use crate::local_path;
use crate::local_path::LocalPath;
use crate::text;
use crate::text::{copy_text, decimal_string, padded_string};

verus! {

/// The number of lines that are kept.
pub const MAX_LINES: usize = 500;

/// The lines that are kept.
#[derive(Debug)]
pub struct Logger {
    pub lines: VecDeque<String>,
}

impl View for Logger {
    type V = Seq<Seq<char>>;

    open spec fn view(&self) -> Seq<Seq<char>> {
        text::strings(self.lines@)
    }
}

/// A line of the log.
pub open spec fn line_text(timestamp: Seq<char>, message: Seq<char>) -> Seq<char> {
    "["@ + timestamp + "] "@ + message
}

/// The lines with one more; the first one goes where there are as many as are kept.
pub open spec fn logged(lines: Seq<Seq<char>>, line: Seq<char>) -> Seq<Seq<char>> {
    if lines.len() == MAX_LINES {
        lines.drop_first().push(line)
    } else {
        lines.push(line)
    }
}

/// The lines once several were logged.
pub open spec fn logged_all(lines: Seq<Seq<char>>, more: Seq<Seq<char>>) -> Seq<Seq<char>>
    decreases more.len(),
{
    if more.len() == 0 {
        lines
    } else {
        logged(logged_all(lines, more.drop_last()), more.last())
    }
}

/// A moment as a text: the seconds since 1970 and the milliseconds of the current one.
pub fn timestamp(seconds: u64, millis: u32) -> (r: String)
    ensures
        r@ == text::decimal(seconds as nat) + "."@ + text::decimal_padded(millis as nat, 3),
{
    let mut r = decimal_string(seconds);
    r.append(".");
    r.append(&padded_string(millis as u64, 3));
    r
}

/// The first line of a session in the log file.
pub fn session_start(timestamp: &str) -> (r: String)
    ensures
        r@ == "=== session start: "@ + timestamp@ + " ==="@,
{
    let mut r = copy_text("=== session start: ");
    r.append(timestamp);
    r.append(" ===");
    r
}

/// An empty log.
pub fn init() -> (r: Logger)
    ensures
        r@ == Seq::<Seq<char>>::empty(),
        r.wf(),
{
    let r = Logger { lines: VecDeque::new() };
    assert(r@ =~= Seq::<Seq<char>>::empty());
    r
}

impl Logger {
    /// No more lines than are kept are there.
    pub open spec fn wf(&self) -> bool {
        self@.len() <= MAX_LINES
    }
}

/// Logs a message, and gives the line that stands for it.
pub fn log(logger: &mut Logger, timestamp: &str, message: &str) -> (line: String)
    ensures
        line@ == line_text(timestamp@, message@),
        final(logger)@ == logged(old(logger)@, line_text(timestamp@, message@)),
        old(logger).wf() ==> final(logger).wf(),
{
    let mut line = copy_text("[");
    line.append(timestamp);
    line.append("] ");
    line.append(message);
    let ghost before = logger@;
    assert(before.len() == logger.lines@.len());
    if logger.lines.len() == MAX_LINES {
        logger.lines.pop_front();
        assert(logger@ =~= before.drop_first());
    }
    let ghost room = logger@;
    logger.lines.push_back(line.clone());
    assert(logger@ =~= room.push(line@));
    line
}

/// The lines that are kept, the oldest first.
pub fn lines(logger: &Logger) -> (r: Vec<String>)
    ensures
        text::strings(r@) == logger@,
{
    let ghost all = logger@;
    let mut r: Vec<String> = Vec::new();
    let mut i: usize = 0;
    assert(text::strings(r@) =~= all.take(0));
    while i < logger.lines.len()
        invariant
            i <= logger.lines@.len(),
            all == logger@,
            text::strings(r@) == all.take(i as int),
        decreases logger.lines@.len() - i,
    {
        let ghost before = text::strings(r@);
        let line = logger.lines[i].clone();
        r.push(line);
        proof {
            assert(all[i as int] == line@);
            assert(text::strings(r@) =~= before.push(line@));
            assert(all.take(i + 1) =~= all.take(i as int).push(all[i as int]));
        }
        i = i + 1;
    }
    assert(all.take(i as int) =~= all);
    r
}

/// The lines that are kept are the last ones of all that were logged, in their order.
pub proof fn lemma_last_lines_are_kept(lines: Seq<Seq<char>>, more: Seq<Seq<char>>)
    requires
        lines.len() <= MAX_LINES,
    ensures
        logged_all(lines, more) == (lines + more).skip(
            if (lines + more).len() > MAX_LINES {
                (lines + more).len() - MAX_LINES
            } else {
                0
            },
        ),
    decreases more.len(),
{
    let all = lines + more;
    if more.len() > 0 {
        let front = more.drop_last();
        lemma_last_lines_are_kept(lines, front);
        let before = logged_all(lines, front);
        assert(all =~= (lines + front).push(more.last()));
        let cut = if all.len() > MAX_LINES {
            all.len() - MAX_LINES
        } else {
            0
        };
        assert(logged(before, more.last()) =~= all.skip(cut));
    } else {
        assert(all =~= lines);
        assert(all.skip(0) =~= all);
    }
}

/// The file that the log is written to, given the state directory and the home directory of the
/// user, as far as they are known.
pub fn log_path(state_home: &Option<LocalPath>, home: &Option<LocalPath>) -> (r: LocalPath)
    ensures
        r@ == local_path::joined_path(
            app_state::base_directory(
                app_state::spelling(*state_home),
                app_state::spelling(*home),
                ".local/state"@,
            ),
            vstd::utf8::encode_utf8("com.columbiafoundry.ZuneTUI/zunetui.log"@),
        ),
{
    find_base_directory(state_home, home, ".local/state").join(
        &LocalPath::from_text("com.columbiafoundry.ZuneTUI/zunetui.log"),
    )
}

/// A line is logged at the end, and the others stay in their order; only where the log is full, the
/// oldest is dropped.
pub proof fn lemma_logged(lines: Seq<Seq<char>>, line: Seq<char>)
    requires
        lines.len() <= MAX_LINES,
    ensures
        ({
            let now = logged(lines, line);
            let dropped: int = if lines.len() == MAX_LINES {
                1
            } else {
                0
            };
            &&& now.len() == lines.len() + 1 - dropped
            &&& now.last() == line
            &&& now.drop_last() == lines.skip(dropped)
        }),
{
    let now = logged(lines, line);
    if lines.len() == MAX_LINES {
        assert(now.drop_last() =~= lines.skip(1));
    } else {
        assert(now.drop_last() =~= lines.skip(0));
    }
}

/// A line shows its time in square brackets, a space and the message.
pub proof fn lemma_line_text(timestamp: Seq<char>, message: Seq<char>)
    ensures
        ({
            let s = line_text(timestamp, message);
            let n = timestamp.len() as int;
            &&& s.len() == n + 3 + message.len()
            &&& s[0] == '['
            &&& s.subrange(1, n + 1) == timestamp
            &&& s[n + 1] == ']'
            &&& s[n + 2] == ' '
            &&& s.skip(n + 3) == message
        }),
{
    reveal_strlit("[");
    reveal_strlit("] ");
    let s = line_text(timestamp, message);
    let n = timestamp.len() as int;
    assert(s.subrange(1, n + 1) =~= timestamp);
    assert(s.skip(n + 3) =~= message);
}

} // verus!

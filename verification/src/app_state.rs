//! The settings that outlive a session: their text form, and reading it back.
use vstd::prelude::*;

use crate::local_path;
use crate::local_path::LocalPath;
use crate::palette::Theme;
use crate::path;
use crate::text;
use crate::text::{
    chars_of, copy_optional, decimal_string, find_char, parse_number, part_of, same_text,
    split_lines, string_of,
    trim_chars,
};

verus! {

/// The name of the application's directory below the configuration and state directories.
pub const CONFIG_DIR: &'static str = "com.columbiafoundry.ZuneTUI";

/// What is kept between sessions.
#[derive(Debug, PartialEq, Eq)]
pub struct PersistedState {
    pub theme: Theme,
    pub active_playlist_id: Option<u32>,
    pub active_playlist_name: Option<String>,
}

/// A `PersistedState` as a mathematical value.
#[verifier::ext_equal]
pub struct StateView {
    pub theme: Theme,
    pub active_playlist_id: Option<u32>,
    pub active_playlist_name: Option<Seq<char>>,
}

impl View for PersistedState {
    type V = StateView;

    open spec fn view(&self) -> StateView {
        StateView {
            theme: self.theme,
            active_playlist_id: self.active_playlist_id,
            active_playlist_name: text::text_of(self.active_playlist_name),
        }
    }
}

impl Clone for PersistedState {
    fn clone(&self) -> (state: Self)
        ensures
            state@ == self@,
    {
        PersistedState {
            theme: self.theme,
            active_playlist_id: self.active_playlist_id,
            active_playlist_name: copy_optional(&self.active_playlist_name),
        }
    }
}

/// The state before anything was set.
pub open spec fn default_state() -> StateView {
    StateView { theme: Theme::TronBlue, active_playlist_id: None, active_playlist_name: None }
}

impl Default for PersistedState {
    fn default() -> (state: Self)
        ensures
            state@ == default_state(),
    {
        PersistedState {
            theme: Theme::TronBlue,
            active_playlist_id: None,
            active_playlist_name: None,
        }
    }
}

/// A text with each backslash doubled and each line feed written as a backslash and an `n`.
pub open spec fn escaped(s: Seq<char>) -> Seq<char>
    decreases s.len(),
{
    if s.len() == 0 {
        s
    } else {
        let rest = escaped(s.drop_first());
        if s[0] == '\\' {
            seq!['\\', '\\'] + rest
        } else if s[0] == '\n' {
            seq!['\\', 'n'] + rest
        } else {
            seq![s[0]] + rest
        }
    }
}

/// A text with doubled backslashes halved, and a backslash with an `n` read as a line feed. A
/// backslash before any other character, or at the end, stands for itself.
pub open spec fn unescaped(s: Seq<char>) -> Seq<char>
    decreases s.len(),
{
    if s.len() == 0 {
        s
    } else if s[0] != '\\' {
        seq![s[0]] + unescaped(s.drop_first())
    } else if s.len() == 1 {
        s
    } else if s[1] == 'n' {
        seq!['\n'] + unescaped(s.skip(2))
    } else if s[1] == '\\' {
        seq!['\\'] + unescaped(s.skip(2))
    } else {
        seq!['\\', s[1]] + unescaped(s.skip(2))
    }
}

/// The name that a value in the state file stands for: none if it is empty.
pub open spec fn unescaped_name(s: Seq<char>) -> Option<Seq<char>> {
    if s.len() == 0 {
        None
    } else {
        Some(unescaped(s))
    }
}

/// The state after one more line of the state file.
pub open spec fn after_line(state: StateView, line: Seq<char>) -> StateView {
    match text::split_at_char(line, '=') {
        None => state,
        Some((key, value)) => if text::trimmed(key) == "theme"@ {
            StateView {
                theme: match Theme::of_key(text::trimmed(value)) {
                    Some(theme) => theme,
                    None => Theme::TronBlue,
                },
                ..state
            }
        } else if text::trimmed(key) == "active_playlist_id"@ {
            StateView {
                active_playlist_id: match text::number_value(text::trimmed(value), 10, u32::MAX as nat) {
                    Some(id) => Some(id as u32),
                    None => None,
                },
                ..state
            }
        } else if text::trimmed(key) == "active_playlist_name"@ {
            StateView { active_playlist_name: unescaped_name(text::trimmed(value)), ..state }
        } else {
            state
        },
    }
}

/// The state after all of the given lines.
pub open spec fn after_lines(lines: Seq<Seq<char>>) -> StateView
    decreases lines.len(),
{
    if lines.len() == 0 {
        default_state()
    } else {
        after_line(after_lines(lines.drop_last()), lines.last())
    }
}

/// The state that the text of a state file describes.
pub open spec fn parsed_state(contents: Seq<char>) -> StateView {
    after_lines(text::lines_of(contents))
}

/// The value that the state file holds for the playlist id.
pub open spec fn id_value(state: StateView) -> Seq<char> {
    match state.active_playlist_id {
        Some(id) => text::decimal(id as nat),
        None => Seq::empty(),
    }
}

/// The value that the state file holds for the playlist name.
pub open spec fn name_value(state: StateView) -> Seq<char> {
    match state.active_playlist_name {
        Some(name) => escaped(name),
        None => Seq::empty(),
    }
}

/// The text of the state file for a state.
pub open spec fn state_text(state: StateView) -> Seq<char> {
    "theme="@ + state.theme.key_text() + "\nactive_playlist_id="@ + id_value(state)
        + "\nactive_playlist_name="@ + name_value(state) + "\n"@
}

/// Escapes a name for the state file.
pub fn escape(value: &str) -> (r: String)
    ensures
        r@ == escaped(value@),
{
    let chars = chars_of(value);
    let mut r = String::new();
    let mut i: usize = 0;
    proof {
        assert(chars@.skip(0) == chars@);
        assert(r@ + escaped(chars@) == escaped(chars@));
    }
    while i < chars.len()
        invariant
            i <= chars@.len(),
            chars@ == value@,
            escaped(chars@) == r@ + escaped(chars@.skip(i as int)),
        decreases chars@.len() - i,
    {
        let ghost rest = chars@.skip(i as int);
        let ghost before = r@;
        let ghost tail = escaped(chars@.skip(i + 1));
        proof {
            assert(rest[0] == chars@[i as int]);
            assert(rest.drop_first() == chars@.skip(i + 1));
        }
        if chars[i] == '\\' {
            r.push('\\');
            r.push('\\');
            assert(before + (seq!['\\', '\\'] + tail) == before.push('\\').push('\\') + tail);
        } else if chars[i] == '\n' {
            r.push('\\');
            r.push('n');
            assert(before + (seq!['\\', 'n'] + tail) == before.push('\\').push('n') + tail);
        } else {
            r.push(chars[i]);
            assert(before + (seq![chars@[i as int]] + tail) == before.push(chars@[i as int]) + tail);
        }
        i = i + 1;
    }
    proof {
        assert(chars@.skip(i as int).len() == 0);
        assert(r@ + escaped(chars@.skip(i as int)) == r@);
    }
    r
}

/// Reads a name from the state file: none if the value is empty.
pub fn unescape(value: &str) -> (r: Option<String>)
    ensures
        text::text_of(r) == unescaped_name(value@),
{
    let chars = chars_of(value);
    if chars.len() == 0 {
        return None;
    }
    let mut r = String::new();
    let mut i: usize = 0;
    proof {
        assert(chars@.skip(0) == chars@);
        assert(r@ + unescaped(chars@) == unescaped(chars@));
    }
    while i < chars.len()
        invariant
            i <= chars@.len(),
            chars@ == value@,
            unescaped(chars@) == r@ + unescaped(chars@.skip(i as int)),
        decreases chars@.len() - i,
    {
        let ghost rest = chars@.skip(i as int);
        let ghost before = r@;
        assert(rest[0] == chars@[i as int]);
        if chars[i] != '\\' {
            r.push(chars[i]);
            proof {
                assert(rest.drop_first() == chars@.skip(i + 1));
                let tail = unescaped(chars@.skip(i + 1));
                assert(before + (seq![rest[0]] + tail) == before.push(rest[0]) + tail);
            }
            i = i + 1;
        } else if i + 1 == chars.len() {
            r.push('\\');
            proof {
                assert(rest == seq!['\\']);
                assert(chars@.skip(i + 1).len() == 0);
                assert(before + rest == before.push('\\') + unescaped(chars@.skip(i + 1)));
            }
            i = i + 1;
        } else {
            let ghost tail = unescaped(chars@.skip(i + 2));
            proof {
                assert(rest[1] == chars@[i + 1]);
                assert(rest.skip(2) == chars@.skip(i + 2));
            }
            let next = chars[i + 1];
            if next == 'n' {
                r.push('\n');
                assert(before + (seq!['\n'] + tail) == before.push('\n') + tail);
            } else if next == '\\' {
                r.push('\\');
                assert(before + (seq!['\\'] + tail) == before.push('\\') + tail);
            } else {
                r.push('\\');
                r.push(next);
                assert(before + (seq!['\\', next] + tail) == before.push('\\').push(next) + tail);
            }
            i = i + 2;
        }
    }
    proof {
        assert(chars@.skip(i as int).len() == 0);
        assert(r@ + unescaped(chars@.skip(i as int)) == r@);
    }
    Some(r)
}

impl PersistedState {
    /// The state that the text of a state file describes.
    pub fn parse(contents: &str) -> (state: Self)
        ensures
            state@ == parsed_state(contents@),
    {
        let lines = split_lines(&chars_of(contents));
        let ghost all = text::lines_of(contents@);
        let mut state = PersistedState::default();
        let mut i: usize = 0;
        assert(all.take(0).len() == 0);
        while i < lines.len()
            invariant
                i <= lines@.len(),
                text::texts(lines@) == all,
                state@ == after_lines(all.take(i as int)),
            decreases lines@.len() - i,
        {
            let line = &lines[i];
            proof {
                assert(all.len() == lines@.len());
                assert(all[i as int] == line@);
                assert(all.take(i + 1).drop_last() == all.take(i as int));
                assert(all.take(i + 1).last() == line@);
            }
            let at = find_char(line, '=');
            if at < line.len() {
                let key = string_of(&trim_chars(&part_of(line, 0, at)));
                let value = trim_chars(&part_of(line, at + 1, line.len()));
                proof {
                    assert(line@.subrange(0, at as int) == line@.take(at as int));
                    assert(line@.subrange(at + 1, line@.len() as int) == line@.skip(at + 1));
                }
                if same_text(&key, "theme") {
                    state.theme = match Theme::from_key(&string_of(&value)) {
                        Some(theme) => theme,
                        None => Theme::TronBlue,
                    };
                } else if same_text(&key, "active_playlist_id") {
                    state.active_playlist_id = parse_number(&value, 10, u32::MAX);
                } else if same_text(&key, "active_playlist_name") {
                    state.active_playlist_name = unescape(&string_of(&value));
                }
            }
            i = i + 1;
        }
        assert(all.take(i as int) == all);
        state
    }

    /// The state that the file describes, or the default where it could not be read.
    pub fn load(contents: Option<&str>) -> (state: Self)
        ensures
            state@ == (match contents {
                Some(text) => parsed_state(text@),
                None => default_state(),
            }),
    {
        match contents {
            Some(text) => PersistedState::parse(text),
            None => PersistedState::default(),
        }
    }

    /// The text of the state file.
    pub fn serialize(&self) -> (r: String)
        ensures
            r@ == state_text(self@),
    {
        let mut r = String::new();
        r.append("theme=");
        r.append(self.theme.key());
        r.append("\nactive_playlist_id=");
        if let Some(id) = self.active_playlist_id {
            r.append(&decimal_string(id as u64));
        }
        r.append("\nactive_playlist_name=");
        if let Some(name) = &self.active_playlist_name {
            r.append(&escape(name));
        }
        r.append("\n");
        assert(r@ == state_text(self@));
        r
    }
}

// ---------------------------------------------------------------------------
// What is written can be read back
// ---------------------------------------------------------------------------

/// Unescaping undoes escaping.
pub proof fn lemma_unescape_escape(s: Seq<char>)
    ensures
        unescaped(escaped(s)) == s,
    decreases s.len(),
{
    if s.len() > 0 {
        let rest = s.drop_first();
        lemma_unescape_escape(rest);
        let e = escaped(s);
        if s[0] == '\\' || s[0] == '\n' {
            assert(e.skip(2) == escaped(rest));
        } else {
            assert(e.drop_first() == escaped(rest));
        }
        assert(s == seq![s[0]] + rest);
    }
}

/// Escaped text holds no line feed.
pub proof fn lemma_escaped_is_one_line(s: Seq<char>)
    ensures
        forall|i: int| 0 <= i < escaped(s).len() ==> escaped(s)[i] != '\n',
    decreases s.len(),
{
    if s.len() > 0 {
        lemma_escaped_is_one_line(s.drop_first());
        let rest = escaped(s.drop_first());
        let e = escaped(s);
        let n = e.len() - rest.len();
        assert forall|i: int| 0 <= i < e.len() implies e[i] != '\n' by {
            if i >= n {
                assert(e[i] == rest[i - n]);
            }
        }
    }
}

/// Escaping works character by character, so the last character is escaped last.
proof fn lemma_escaped_last(s: Seq<char>)
    requires
        s.len() > 0,
    ensures
        escaped(s) == escaped(s.drop_last()) + escaped(seq![s.last()]),
    decreases s.len(),
{
    if s.len() == 1 {
        assert(s == seq![s.last()]);
        assert(s.drop_last().len() == 0);
        assert(escaped(s.drop_last()) + escaped(s) == escaped(s));
    } else {
        let rest = s.drop_first();
        lemma_escaped_last(rest);
        assert(rest.drop_last() == s.drop_last().drop_first());
        assert(rest.last() == s.last());
        assert(escaped(s) == escaped(s.drop_last()) + escaped(seq![s.last()]));
    }
}

/// A name that the state file can hold: it is not empty, and neither its first nor its last
/// character is white space other than a line feed.
pub open spec fn storable_name(name: Seq<char>) -> bool {
    &&& name.len() > 0
    &&& text::white_space(name[0]) ==> name[0] == '\n'
    &&& text::white_space(name.last()) ==> name.last() == '\n'
}

/// The escaped form of a storable name starts and ends with characters that are no white space.
proof fn lemma_escaped_ends(name: Seq<char>)
    requires
        storable_name(name),
    ensures
        escaped(name).len() > 0,
        !text::white_space(escaped(name)[0]),
        !text::white_space(escaped(name).last()),
{
    let last = seq![name.last()];
    assert(last.drop_first().len() == 0);
    let tail = escaped(last);
    assert(escaped(last.drop_first()).len() == 0);
    assert(tail.len() > 0 && !text::white_space(tail.last()));
    lemma_escaped_last(name);
    assert(escaped(name).last() == tail.last());
}

/// Keys and values of the state file hold no surprises: they are their own trimmed forms.
proof fn lemma_fixed_texts(theme: Theme)
    ensures
        text::trimmed("theme"@) == "theme"@,
        text::trimmed("active_playlist_id"@) == "active_playlist_id"@,
        text::trimmed("active_playlist_name"@) == "active_playlist_name"@,
        text::trimmed(theme.key_text()) == theme.key_text(),
        "theme"@ != "active_playlist_id"@,
        "theme"@ != "active_playlist_name"@,
        "active_playlist_id"@ != "active_playlist_name"@,
        forall|i: int| 0 <= i < "theme"@.len() ==> "theme"@[i] != '=' && "theme"@[i] != '\n',
        forall|i: int|
            0 <= i < "active_playlist_id"@.len() ==> "active_playlist_id"@[i] != '='
                && "active_playlist_id"@[i] != '\n',
        forall|i: int|
            0 <= i < "active_playlist_name"@.len() ==> "active_playlist_name"@[i] != '='
                && "active_playlist_name"@[i] != '\n',
        forall|i: int| 0 <= i < theme.key_text().len() ==> theme.key_text()[i] != '\n',
        theme.key_text().len() > 0 && theme.key_text().last() != '\r',
        "theme="@ == "theme"@ + seq!['='],
        "\nactive_playlist_id="@ == seq!['\n'] + "active_playlist_id"@ + seq!['='],
        "\nactive_playlist_name="@ == seq!['\n'] + "active_playlist_name"@ + seq!['='],
        "\n"@ == seq!['\n'],
{
    reveal_strlit("theme");
    reveal_strlit("active_playlist_id");
    reveal_strlit("active_playlist_name");
    reveal_strlit("theme=");
    reveal_strlit("\nactive_playlist_id=");
    reveal_strlit("\nactive_playlist_name=");
    reveal_strlit("\n");
    reveal_strlit("tron-blue");
    reveal_strlit("cherry-red");
    reveal_strlit("orange");
    reveal_strlit("green");
    reveal_strlit("system");
    assert("theme="@ =~= "theme"@ + seq!['=']);
    assert("\nactive_playlist_id="@ =~= seq!['\n'] + "active_playlist_id"@ + seq!['=']);
    assert("\nactive_playlist_name="@ =~= seq!['\n'] + "active_playlist_name"@ + seq!['=']);
    assert("\n"@ =~= seq!['\n']);
    assert("theme"@.len() == 5);
    assert("active_playlist_id"@.len() == 18);
    assert("active_playlist_name"@.len() == 20);
    text::lemma_trimmed_fixed("theme"@);
    text::lemma_trimmed_fixed("active_playlist_id"@);
    text::lemma_trimmed_fixed("active_playlist_name"@);
    text::lemma_trimmed_fixed(theme.key_text());
}

/// One line of the state file.
pub open spec fn state_line(key: Seq<char>, value: Seq<char>) -> Seq<char> {
    key + seq!['='] + value
}

/// A line of the state file splits into its key and its value.
proof fn lemma_state_line(key: Seq<char>, value: Seq<char>)
    requires
        forall|i: int| 0 <= i < key.len() ==> key[i] != '=' && key[i] != '\n',
        forall|i: int| 0 <= i < value.len() ==> value[i] != '\n',
        value.len() > 0 ==> value.last() != '\r',
    ensures
        text::split_at_char(state_line(key, value), '=') == Some((key, value)),
        forall|i: int|
            0 <= i < state_line(key, value).len() ==> state_line(key, value)[i] != '\n',
        text::without_final_cr(state_line(key, value)) == state_line(key, value),
{
    text::lemma_split_behind(key, '=', value);
    let line = state_line(key, value);
    assert(value.len() > 0 ==> line.last() == value.last());
    assert(value.len() == 0 ==> line.last() == '=');
}

/// The values of the state file are single lines that survive trimming.
proof fn lemma_state_values(state: StateView)
    requires
        state.active_playlist_name matches Some(name) ==> storable_name(name),
    ensures
        text::trimmed(id_value(state)) == id_value(state),
        text::trimmed(name_value(state)) == name_value(state),
        forall|i: int| 0 <= i < id_value(state).len() ==> id_value(state)[i] != '\n',
        forall|i: int| 0 <= i < name_value(state).len() ==> name_value(state)[i] != '\n',
        id_value(state).len() > 0 ==> id_value(state).last() != '\r',
        name_value(state).len() > 0 ==> name_value(state).last() != '\r',
        (match text::number_value(id_value(state), 10, u32::MAX as nat) {
            Some(id) => Some(id as u32),
            None => None,
        }) == state.active_playlist_id,
        unescaped_name(name_value(state)) == state.active_playlist_name,
{
    let id = id_value(state);
    let name = name_value(state);
    if let Some(n) = state.active_playlist_id {
        text::lemma_decimal(n as nat);
        text::lemma_number_round_trip(n as nat, u32::MAX as nat);
        assert('0' <= id[0] <= '9' && '0' <= id.last() <= '9');
    }
    if let Some(n) = state.active_playlist_name {
        lemma_unescape_escape(n);
        lemma_escaped_is_one_line(n);
        lemma_escaped_ends(n);
    }
    assert(text::white_space('\r'));
    text::lemma_trimmed_fixed(id);
    text::lemma_trimmed_fixed(name);
}

/// Three lines and their line feeds, put together in two ways.
proof fn lemma_three_lines(
    k1: Seq<char>,
    v1: Seq<char>,
    k2: Seq<char>,
    v2: Seq<char>,
    k3: Seq<char>,
    v3: Seq<char>,
)
    ensures
        (k1 + seq!['=']) + v1 + (seq!['\n'] + k2 + seq!['=']) + v2 + (seq!['\n'] + k3 + seq!['='])
            + v3 + seq!['\n'] == state_line(k1, v1) + seq!['\n'] + (state_line(k2, v2) + seq!['\n']
            + (state_line(k3, v3) + seq!['\n'] + Seq::<char>::empty())),
{
    let l3 = state_line(k3, v3) + seq!['\n'] + Seq::<char>::empty();
    let l2 = state_line(k2, v2) + seq!['\n'] + l3;
    let head1 = (k1 + seq!['=']) + v1;
    let head2 = head1 + (seq!['\n'] + k2 + seq!['=']) + v2;
    assert(head2 =~= state_line(k1, v1) + seq!['\n'] + state_line(k2, v2));
    let head3 = head2 + (seq!['\n'] + k3 + seq!['=']) + v3 + seq!['\n'];
    assert(head3 =~= head2 + seq!['\n'] + l3);
    assert(head2 + seq!['\n'] + l3 =~= state_line(k1, v1) + seq!['\n'] + l2);
}

/// The state file has three lines.
proof fn lemma_state_lines(state: StateView)
    requires
        state.active_playlist_name matches Some(name) ==> storable_name(name),
    ensures
        text::lines_of(state_text(state)) == seq![
            state_line("theme"@, state.theme.key_text()),
            state_line("active_playlist_id"@, id_value(state)),
            state_line("active_playlist_name"@, name_value(state)),
        ],
{
    lemma_fixed_texts(state.theme);
    lemma_state_values(state);
    let l1 = state_line("theme"@, state.theme.key_text());
    let l2 = state_line("active_playlist_id"@, id_value(state));
    let l3 = state_line("active_playlist_name"@, name_value(state));
    lemma_state_line("theme"@, state.theme.key_text());
    lemma_state_line("active_playlist_id"@, id_value(state));
    lemma_state_line("active_playlist_name"@, name_value(state));
    let none = Seq::<char>::empty();
    let t3 = l3 + seq!['\n'] + none;
    let t2 = l2 + seq!['\n'] + t3;
    let t1 = l1 + seq!['\n'] + t2;
    text::lemma_lines_first(l3, none);
    text::lemma_lines_first(l2, t3);
    text::lemma_lines_first(l1, t2);
    assert(text::lines_of(none).len() == 0);
    assert(text::lines_of(t3) =~= seq![l3]);
    assert(text::lines_of(t2) =~= seq![l2, l3]);
    assert(text::lines_of(t1) =~= seq![l1, l2, l3]);
    assert(state_text(state) == t1) by {
        lemma_three_lines(
            "theme"@,
            state.theme.key_text(),
            "active_playlist_id"@,
            id_value(state),
            "active_playlist_name"@,
            name_value(state),
        );
    }
}

/// A state is read back from its own text, provided that its playlist name, if it has one, is
/// storable.
pub proof fn lemma_state_round_trip(state: StateView)
    requires
        state.active_playlist_name matches Some(name) ==> storable_name(name),
    ensures
        parsed_state(state_text(state)) == state,
{
    lemma_fixed_texts(state.theme);
    lemma_state_values(state);
    lemma_state_lines(state);
    state.theme.lemma_key_round_trip(state.theme.key_text());
    lemma_state_line("theme"@, state.theme.key_text());
    lemma_state_line("active_playlist_id"@, id_value(state));
    lemma_state_line("active_playlist_name"@, name_value(state));
    let l1 = state_line("theme"@, state.theme.key_text());
    let l2 = state_line("active_playlist_id"@, id_value(state));
    let l3 = state_line("active_playlist_name"@, name_value(state));
    let lines = seq![l1, l2, l3];
    assert(lines.drop_last() =~= seq![l1, l2]);
    assert(seq![l1, l2].drop_last() =~= seq![l1]);
    assert(seq![l1].drop_last() =~= Seq::<Seq<char>>::empty());
    let s0 = default_state();
    assert(after_lines(Seq::<Seq<char>>::empty()) == s0);
    let s1 = after_line(s0, l1);
    assert(after_lines(seq![l1]) == s1);
    let s2 = after_line(s1, l2);
    assert(after_lines(seq![l1, l2]) == s2);
    let s3 = after_line(s2, l3);
    assert(after_lines(lines) == s3);
}

// ---------------------------------------------------------------------------
// Where the settings are kept
// ---------------------------------------------------------------------------

/// A directory below the home directory, unless another one is given; the current directory where
/// neither is.
pub open spec fn base_directory(
    given: Option<Seq<u8>>,
    home: Option<Seq<u8>>,
    below_home: Seq<char>,
) -> Seq<u8> {
    match (given, home) {
        (Some(p), _) => p,
        (None, Some(h)) => local_path::joined_path(h, vstd::utf8::encode_utf8(below_home)),
        (None, None) => vstd::utf8::encode_utf8("."@),
    }
}

/// The spelling of an optional path.
pub open spec fn spelling(p: Option<LocalPath>) -> Option<Seq<u8>> {
    match p {
        Some(path) => Some(path@),
        None => None,
    }
}

/// A directory below the home directory, unless another one is given.
pub(crate) fn find_base_directory(
    given: &Option<LocalPath>,
    home: &Option<LocalPath>,
    below_home: &str,
) -> (r: LocalPath)
    ensures
        r@ == base_directory(spelling(*given), spelling(*home), below_home@),
{
    match (given, home) {
        (Some(p), _) => p.clone(),
        (None, Some(h)) => h.join(&LocalPath::from_text(below_home)),
        (None, None) => LocalPath::from_text("."),
    }
}

/// The file that the settings are kept in, given the configuration directory and the home
/// directory of the user, as far as they are known.
pub fn state_path(config_home: &Option<LocalPath>, home: &Option<LocalPath>) -> (r: LocalPath)
    ensures
        r@ == local_path::joined_path(
            local_path::joined_path(
                base_directory(spelling(*config_home), spelling(*home), ".config"@),
                vstd::utf8::encode_utf8(CONFIG_DIR@),
            ),
            vstd::utf8::encode_utf8("state"@),
        ),
{
    find_base_directory(config_home, home, ".config").join(&LocalPath::from_text(CONFIG_DIR)).join(
        &LocalPath::from_text("state"),
    )
}

// ---------------------------------------------------------------------------
// What lines of the stored state say
// ---------------------------------------------------------------------------

/// A line is a key, an equals sign and a value, white space around the key and the value left out of
/// account.
pub open spec fn says(line: Seq<char>, key: Seq<char>, value: Seq<char>) -> bool {
    text::split_at_char(line, '=') matches Some((k, v)) && text::trimmed(k) == key && text::trimmed(
        v,
    ) == value
}

/// A line sets the one value that its key names, and leaves the others. A theme that is not known is
/// the first one; a number that cannot be read, or a name that is empty, is none. A line with another
/// key, or with no equals sign, says nothing.
pub proof fn lemma_line_sets_its_value(
    state: StateView,
    line: Seq<char>,
    key: Seq<char>,
    value: Seq<char>,
)
    requires
        says(line, key, value),
    ensures
        ({
            let now = after_line(state, line);
            &&& key == "theme"@ ==> {
                &&& now.active_playlist_id == state.active_playlist_id
                &&& now.active_playlist_name == state.active_playlist_name
                &&& Theme::of_key(value) matches Some(theme) ==> now.theme == theme
                &&& Theme::of_key(value) is None ==> now.theme == Theme::TronBlue
            }
            &&& key == "active_playlist_id"@ ==> {
                &&& now.theme == state.theme
                &&& now.active_playlist_name == state.active_playlist_name
                &&& now.active_playlist_id is Some <==> text::number_value(
                    value,
                    10,
                    0xffff_ffff,
                ) is Some
                &&& now.active_playlist_id matches Some(id) ==> text::number_value(
                    value,
                    10,
                    0xffff_ffff,
                ) == Some(id as nat)
            }
            &&& key == "active_playlist_name"@ ==> {
                &&& now.theme == state.theme
                &&& now.active_playlist_id == state.active_playlist_id
                &&& now.active_playlist_name is None <==> value.len() == 0
                &&& now.active_playlist_name matches Some(name) ==> name == unescaped(value)
            }
            &&& key != "theme"@ && key != "active_playlist_id"@ && key != "active_playlist_name"@
                ==> now == state
        }),
{
    reveal_strlit("theme");
    reveal_strlit("active_playlist_id");
    reveal_strlit("active_playlist_name");
    assert("theme"@.len() == 5);
    assert("active_playlist_id"@.len() == 18);
    assert("active_playlist_name"@.len() == 20);
}

/// A line without an equals sign says nothing.
pub proof fn lemma_line_without_value(state: StateView, line: Seq<char>)
    requires
        !line.contains('='),
    ensures
        after_line(state, line) == state,
{
    text::lemma_index_of_char(line, '=');
}

/// Lines are read in turn, each on top of what those before it said; without lines the state is that
/// of a first start.
pub proof fn lemma_lines_in_turn(lines: Seq<Seq<char>>, line: Seq<char>)
    ensures
        after_lines(lines.push(line)) == after_line(after_lines(lines), line),
        after_lines(Seq::empty()).theme == Theme::TronBlue,
        after_lines(Seq::empty()).active_playlist_id is None,
        after_lines(Seq::empty()).active_playlist_name is None,
{
    assert(lines.push(line).drop_last() =~= lines);
}

/// A directory that is given counts; without one it is the usual one below the home directory, and
/// without a home directory the current one.
pub proof fn lemma_base_directory(
    given: Option<Seq<u8>>,
    home: Option<Seq<u8>>,
    below_home: Seq<char>,
)
    ensures
        given matches Some(p) ==> base_directory(given, home, below_home) == p,
        given is None && home is Some && !path::is_absolute(vstd::utf8::encode_utf8(below_home))
            ==> home->0.is_prefix_of(base_directory(given, home, below_home)) && base_directory(
            given,
            home,
            below_home,
        ).skip(
            base_directory(given, home, below_home).len() - vstd::utf8::encode_utf8(
                below_home,
            ).len(),
        ) == vstd::utf8::encode_utf8(below_home),
        given is None && home is None ==> base_directory(given, home, below_home)
            == vstd::utf8::encode_utf8("."@),
{
    if given is None && home is Some {
        let tail = vstd::utf8::encode_utf8(below_home);
        let all = base_directory(given, home, below_home);
        assert(all.skip(all.len() - tail.len()) =~= tail);
    }
}

/// Escaping treats each character by itself: a backslash is doubled, a line break becomes a backslash
/// and an n, and every other character stays.
pub proof fn lemma_escaped(a: Seq<char>, b: Seq<char>, c: char)
    ensures
        escaped(a + b) == escaped(a) + escaped(b),
        escaped(seq!['\\']) == seq!['\\', '\\'],
        escaped(seq!['\n']) == seq!['\\', 'n'],
        c != '\\' && c != '\n' ==> escaped(seq![c]) == seq![c],
    decreases a.len(),
{
    let none = Seq::<char>::empty();
    assert(escaped(none) == none);
    assert(seq!['\\'].drop_first() =~= none);
    assert(seq!['\n'].drop_first() =~= none);
    assert(seq![c].drop_first() =~= none);
    assert(escaped(seq!['\\']) =~= seq!['\\', '\\']);
    assert(escaped(seq!['\n']) =~= seq!['\\', 'n']);
    if c != '\\' && c != '\n' {
        assert(escaped(seq![c]) =~= seq![c]);
    }
    if a.len() == 0 {
        assert(a + b =~= b);
        assert(escaped(a) + escaped(b) =~= escaped(b));
    } else {
        lemma_escaped(a.drop_first(), b, c);
        assert((a + b).drop_first() =~= a.drop_first() + b);
        assert(escaped(a + b) =~= escaped(a) + escaped(b));
    }
}

/// A backslash before another character than a backslash or an n is kept with it, and so is one at
/// the end; what follows is read by itself.
pub proof fn lemma_unescaped(c: char, rest: Seq<char>)
    ensures
        c != '\\' ==> unescaped(seq![c] + rest) == seq![c] + unescaped(rest),
        unescaped(seq!['\\', 'n'] + rest) == seq!['\n'] + unescaped(rest),
        unescaped(seq!['\\', '\\'] + rest) == seq!['\\'] + unescaped(rest),
        c != 'n' && c != '\\' ==> unescaped(seq!['\\', c] + rest) == seq!['\\', c] + unescaped(
            rest,
        ),
        unescaped(seq!['\\']) == seq!['\\'],
        unescaped(Seq::empty()) == Seq::<char>::empty(),
{
    assert((seq![c] + rest).drop_first() =~= rest);
    assert((seq!['\\', 'n'] + rest).skip(2) =~= rest);
    assert((seq!['\\', '\\'] + rest).skip(2) =~= rest);
    assert((seq!['\\', c] + rest).skip(2) =~= rest);
}

/// What is stored is three lines: the theme's key, the active playlist's id and its escaped name. The
/// id and the name are left empty where there is none.
pub proof fn lemma_stored_text(state: StateView)
    ensures
        ({
            let id = match state.active_playlist_id {
                Some(id) => text::decimal(id as nat),
                None => Seq::empty(),
            };
            let name = match state.active_playlist_name {
                Some(name) => escaped(name),
                None => Seq::empty(),
            };
            state_text(state) == "theme="@ + state.theme.key_text() + "\nactive_playlist_id="@ + id
                + "\nactive_playlist_name="@ + name + "\n"@
        }),
        unescaped_name(Seq::empty()) is None,
        forall|s: Seq<char>|
            s.len() > 0 ==> #[trigger] unescaped_name(s) == Some(unescaped(s)),
{
}

} // verus!

//! What is shown: the status line, the debug panel, and where dialogs are placed.
use vstd::prelude::*;

use crate::device;
use crate::file_screen;
use crate::session::{App, AppView, Connection, ConnectionView, NOT_FOUND_SHORT};
use crate::text;
use crate::text::{chars_of, copy_text, part_of, string_of};

verus! {

// ---------------------------------------------------------------------------
// The status line
// ---------------------------------------------------------------------------

/// How a line is colored.
#[derive(Debug, Clone, Copy, PartialEq, Eq, Structural)]
pub enum Tone {
    Accent,
    Muted,
    Error,
    Success,
}

/// A line of text with its color.
#[derive(Debug)]
pub struct StatusLine {
    pub content: String,
    pub tone: Tone,
}

/// A line of text with its color, as a mathematical value.
#[verifier::ext_equal]
pub struct LineView {
    pub content: Seq<char>,
    pub tone: Tone,
}

impl View for StatusLine {
    type V = LineView;

    open spec fn view(&self) -> LineView {
        LineView { content: self.content@, tone: self.tone }
    }
}

/// What is said of the device.
pub open spec fn line_of_connection(connection: ConnectionView) -> LineView {
    match connection {
        ConnectionView::Loading(message) => LineView { content: message, tone: Tone::Muted },
        ConnectionView::NotFound => LineView { content: NOT_FOUND_SHORT@, tone: Tone::Error },
        ConnectionView::Connected(snapshot) => LineView {
            content: "✓ Connected to Zune — "@ + file_screen::device_name(snapshot),
            tone: Tone::Success,
        },
    }
}

/// What stands at the foot of the screen: the status of the last action, or what is known of the
/// device.
pub open spec fn line_of(a: AppView) -> LineView {
    match a.transfer_status {
        Some(status) => LineView { content: status, tone: Tone::Accent },
        None => line_of_connection(a.connection),
    }
}

/// What is said of the device.
pub fn connection_line(connection: &Connection) -> (r: StatusLine)
    ensures
        r@ == line_of_connection(connection@),
{
    match connection {
        Connection::Loading(message) => StatusLine {
            content: copy_text(message),
            tone: Tone::Muted,
        },
        Connection::NotFound => StatusLine {
            content: copy_text(NOT_FOUND_SHORT),
            tone: Tone::Error,
        },
        Connection::Connected(snapshot) => {
            let mut content = copy_text("✓ Connected to Zune — ");
            if snapshot.info.friendly_name.as_str().is_empty() {
                content.append(&snapshot.info.model);
            } else {
                content.append(&snapshot.info.friendly_name);
            }
            StatusLine { content, tone: Tone::Success }
        },
    }
}

/// What stands at the foot of the screen.
pub fn status_line(app: &App) -> (r: StatusLine)
    ensures
        r@ == line_of(app@),
{
    match &app.transfer_status {
        Some(status) => StatusLine { content: status.clone(), tone: Tone::Accent },
        None => connection_line(&app.connection),
    }
}

// ---------------------------------------------------------------------------
// Areas
// ---------------------------------------------------------------------------

/// A part of the screen.
#[derive(Debug, Clone, Copy, PartialEq, Eq, Structural)]
pub struct Area {
    pub x: u16,
    pub y: u16,
    pub width: u16,
    pub height: u16,
}

/// The largest coordinate that can be held, or a smaller one.
pub open spec fn edge(start: u16, length: u16) -> int {
    if start + length <= u16::MAX {
        start + length
    } else {
        u16::MAX as int
    }
}

/// An area lies in another one.
pub open spec fn lies_within(inner: Area, outer: Area) -> bool {
    &&& outer.x <= inner.x
    &&& outer.y <= inner.y
    &&& inner.x + inner.width <= edge(outer.x, outer.width)
    &&& inner.y + inner.height <= edge(outer.y, outer.height)
}

/// The size of a dialog: what it wants, but no more than the area leaves with a margin of one
/// cell on each side.
pub open spec fn dialog_length(available: u16, wanted: u16) -> u16 {
    let inner = if available >= 2 {
        (available - 2) as u16
    } else {
        0u16
    };
    if inner < wanted {
        inner
    } else {
        wanted
    }
}

/// The width or the height of a dialog.
pub fn dialog_size(available: u16, wanted: u16) -> (r: u16)
    ensures
        r == dialog_length(available, wanted),
{
    let inner: u16 = available.saturating_sub(2);
    if inner < wanted {
        inner
    } else {
        wanted
    }
}

/// How much of a size fits between a start and the edge that a length leads to.
pub open spec fn fitting(start: u16, length: u16, size: u16) -> u16 {
    if size <= edge(start, length) - start {
        size
    } else {
        (edge(start, length) - start) as u16
    }
}

/// Where something of a size starts that is centered between a start and the edge that a length
/// leads to. Where the rest cannot be halved, the cell that is left over comes first.
pub open spec fn middle(start: u16, length: u16, size: u16) -> u16 {
    (start + (edge(start, length) - start - fitting(start, length, size) + 1) / 2) as u16
}

/// `ratatui::layout::Layout::areas` of a horizontal layout with one column of the given width and
/// `Flex::Center`: the rows stay, the column has the width as far as it fits, and it is centered,
/// both of its ends rounded up where they fall between two cells.
#[verifier::external_body]
fn center_columns(area: Area, width: u16) -> (r: Area)
    ensures
        r.x == middle(area.x, area.width, width),
        r.y == area.y,
        r.width == fitting(area.x, area.width, width),
        r.height == area.height,
{
    let outer = ratatui::layout::Rect {
        x: area.x,
        y: area.y,
        width: area.width,
        height: area.height,
    };
    let layout = ratatui::layout::Layout::horizontal([ratatui::layout::Constraint::Length(width)]);
    let [inner] = layout.flex(ratatui::layout::Flex::Center).areas(outer);
    Area { x: inner.x, y: inner.y, width: inner.width, height: inner.height }
}

/// `ratatui::layout::Layout::areas` of a vertical layout with one row of the given height and
/// `Flex::Center`: the columns stay, the row has the height as far as it fits, and it is centered,
/// both of its ends rounded up where they fall between two cells.
#[verifier::external_body]
fn center_rows(area: Area, height: u16) -> (r: Area)
    ensures
        r.x == area.x,
        r.y == middle(area.y, area.height, height),
        r.width == area.width,
        r.height == fitting(area.y, area.height, height),
{
    let outer = ratatui::layout::Rect {
        x: area.x,
        y: area.y,
        width: area.width,
        height: area.height,
    };
    let layout = ratatui::layout::Layout::vertical([ratatui::layout::Constraint::Length(height)]);
    let [inner] = layout.flex(ratatui::layout::Flex::Center).areas(outer);
    Area { x: inner.x, y: inner.y, width: inner.width, height: inner.height }
}

/// The area of a dialog in the middle of another area.
pub open spec fn dialog_area(area: Area, max_width: u16, max_height: u16) -> Area {
    let width = dialog_length(area.width, max_width);
    let height = dialog_length(area.height, max_height);
    Area {
        x: middle(area.x, area.width, width),
        y: middle(area.y, area.height, height),
        width: fitting(area.x, area.width, width),
        height: fitting(area.y, area.height, height),
    }
}

/// A dialog lies in the area that it is centered in, and the room beside it, as the room above and
/// below it, differs by one cell at most.
pub proof fn lemma_dialog_is_centered(area: Area, max_width: u16, max_height: u16)
    ensures
        lies_within(dialog_area(area, max_width, max_height), area),
        ({
            let dialog = dialog_area(area, max_width, max_height);
            let left = dialog.x - area.x;
            let right = edge(area.x, area.width) - (dialog.x + dialog.width);
            let above = dialog.y - area.y;
            let below = edge(area.y, area.height) - (dialog.y + dialog.height);
            &&& right <= left <= right + 1
            &&& below <= above <= below + 1
        }),
{
}

/// The area of a dialog in the middle of another area.
pub fn centered(area: Area, max_width: u16, max_height: u16) -> (r: Area)
    ensures
        r == dialog_area(area, max_width, max_height),
{
    let width: u16 = dialog_size(area.width, max_width);
    let height: u16 = dialog_size(area.height, max_height);
    let columns = center_columns(area, width);
    center_rows(columns, height)
}

/// The width that a message in a frame wants.
pub open spec fn framed_width(length: nat) -> u16 {
    if length + 2 <= u16::MAX {
        (length + 2) as u16
    } else {
        u16::MAX
    }
}

/// The width that a message in a frame wants.
pub fn message_width(message: &str) -> (r: u16)
    ensures
        r == framed_width(message@.len()),
{
    let n: usize = chars_of(message).len();
    if n >= u16::MAX as usize {
        u16::MAX
    } else {
        (n as u16).saturating_add(2)
    }
}

// ---------------------------------------------------------------------------
// The debug panel
// ---------------------------------------------------------------------------

/// The height of the debug panel: a third of the screen, but no less than seven rows where the
/// screen has them.
pub open spec fn panel_height(height: u16) -> u16 {
    let third = height / 3;
    let wanted = if third > 7 {
        third
    } else {
        7u16
    };
    if wanted < height {
        wanted
    } else {
        height
    }
}

/// The debug panel: the last rows of an area.
pub open spec fn panel_of(area: Area) -> Area {
    Area {
        x: area.x,
        y: (edge(area.y, area.height) - panel_height(area.height)) as u16,
        width: area.width,
        height: panel_height(area.height),
    }
}

/// The debug panel.
pub fn debug_panel(area: Area) -> (r: Area)
    ensures
        r == panel_of(area),
        area.x + area.width <= u16::MAX && area.y + area.height <= u16::MAX ==> lies_within(
            r,
            area,
        ),
{
    let third: u16 = area.height / 3;
    let wanted: u16 = if third > 7 {
        third
    } else {
        7
    };
    let height: u16 = if wanted < area.height {
        wanted
    } else {
        area.height
    };
    let bottom: u16 = area.y.saturating_add(area.height);
    Area { x: area.x, y: bottom.saturating_sub(height), width: area.width, height }
}

/// A text cut into pieces of at most `width` characters.
pub open spec fn pieces(s: Seq<char>, width: nat) -> Seq<Seq<char>>
    decreases s.len(),
{
    if width == 0 || s.len() <= width {
        seq![s]
    } else {
        seq![s.take(width as int)] + pieces(s.skip(width as int), width)
    }
}

/// Lines cut into pieces.
pub open spec fn wrapped(lines: Seq<Seq<char>>, width: nat) -> Seq<Seq<char>>
    decreases lines.len(),
{
    if lines.len() == 0 {
        Seq::empty()
    } else {
        wrapped(lines.drop_last(), width) + pieces(lines.last(), width)
    }
}

/// A width that a piece can have.
pub open spec fn usable_width(width: usize) -> nat {
    if width > 0 {
        width as nat
    } else {
        1
    }
}

/// The pieces of a text put together are the text, and none of them is too long.
pub proof fn lemma_pieces(s: Seq<char>, width: nat)
    requires
        width > 0,
    ensures
        text::joined(pieces(s, width), Seq::empty()) == s,
        pieces(s, width).len() > 0,
        forall|i: int| 0 <= i < pieces(s, width).len() ==> (#[trigger] pieces(s, width)[i]).len()
            <= width,
    decreases s.len(),
{
    let all = pieces(s, width);
    if s.len() > width {
        let head = s.take(width as int);
        let rest = pieces(s.skip(width as int), width);
        lemma_pieces(s.skip(width as int), width);
        lemma_joined_front(head, rest);
        assert(head + s.skip(width as int) =~= s);
        assert forall|i: int| 0 <= i < all.len() implies (#[trigger] all[i]).len() <= width by {
            if i > 0 {
                assert(all[i] == rest[i - 1]);
            }
        }
    }
}

proof fn lemma_joined_front(head: Seq<char>, rest: Seq<Seq<char>>)
    requires
        rest.len() > 0,
    ensures
        text::joined(seq![head] + rest, Seq::empty()) == head + text::joined(rest, Seq::empty()),
    decreases rest.len(),
{
    let all = seq![head] + rest;
    assert(all.drop_last() =~= seq![head] + rest.drop_last());
    assert(all.last() == rest.last());
    if rest.len() > 1 {
        lemma_joined_front(head, rest.drop_last());
        let inner = text::joined(rest.drop_last(), Seq::empty());
        assert(head + inner + Seq::<char>::empty() + rest.last() =~= head + (inner + Seq::<
            char,
        >::empty() + rest.last()));
    } else {
        assert(all.drop_last() =~= seq![head]);
        assert(text::joined(all.drop_last(), Seq::empty()) == head);
        assert(head + Seq::<char>::empty() + rest.last() =~= head + rest[0]);
    }
}

/// Lines cut into pieces of at most `width` characters.
pub fn wrap_debug_lines(lines: &Vec<String>, width: usize) -> (r: Vec<String>)
    ensures
        text::strings(r@) == wrapped(text::strings(lines@), usable_width(width)),
{
    let step: usize = if width > 0 {
        width
    } else {
        1
    };
    let ghost all = text::strings(lines@);
    let mut r: Vec<String> = Vec::new();
    let mut i: usize = 0;
    proof {
        assert(all.take(0).len() == 0);
        assert(text::strings(r@) =~= wrapped(all.take(0), step as nat));
    }
    while i < lines.len()
        invariant
            i <= lines@.len(),
            step > 0,
            all == text::strings(lines@),
            text::strings(r@) == wrapped(all.take(i as int), step as nat),
        decreases lines@.len() - i,
    {
        let chars = chars_of(&lines[i]);
        let ghost before = text::strings(r@);
        proof {
            assert(all.take(i + 1).drop_last() =~= all.take(i as int));
            assert(all.take(i + 1).last() == chars@);
        }
        let mut at: usize = 0;
        let total: usize = chars.len();
        proof {
            assert(chars@.skip(0) =~= chars@);
        }
        while total - at > step
            invariant
                at <= total == chars@.len(),
                step > 0,
                before + pieces(chars@, step as nat) == text::strings(r@) + pieces(
                    chars@.skip(at as int),
                    step as nat,
                ),
            decreases total - at,
        {
            let ghost so_far = text::strings(r@);
            let ghost rest = chars@.skip(at as int);
            let piece = string_of(&part_of(&chars, at, at + step));
            r.push(piece);
            proof {
                assert(rest.take(step as int) =~= piece@);
                assert(rest.skip(step as int) =~= chars@.skip(at + step));
                assert(text::strings(r@) =~= so_far.push(piece@));
                let tail = pieces(chars@.skip(at + step), step as nat);
                assert(so_far + (seq![piece@] + tail) =~= so_far.push(piece@) + tail);
            }
            at = at + step;
        }
        let ghost so_far = text::strings(r@);
        let piece = string_of(&part_of(&chars, at, total));
        r.push(piece);
        proof {
            assert(piece@ =~= chars@.skip(at as int));
            assert(text::strings(r@) =~= so_far.push(piece@));
            assert(so_far + seq![piece@] =~= so_far.push(piece@));
        }
        i = i + 1;
    }
    assert(all.take(i as int) =~= all);
    r
}

/// The lines that a panel of `visible` rows shows, `scroll` lines up from the last one.
pub open spec fn window(lines: Seq<Seq<char>>, visible: nat, scroll: nat) -> Seq<Seq<char>> {
    let hidden = if lines.len() > visible {
        (lines.len() - visible) as nat
    } else {
        0
    };
    let up = if scroll < hidden {
        scroll
    } else {
        hidden
    };
    let end = lines.len() - up;
    let start = if end > visible {
        end - visible
    } else {
        0
    };
    lines.subrange(start, end)
}

/// The lines that the debug panel shows.
pub fn debug_window(lines: &Vec<String>, visible: usize, scroll: usize) -> (r: Vec<String>)
    ensures
        text::strings(r@) == window(text::strings(lines@), visible as nat, scroll as nat),
{
    let ghost all = text::strings(lines@);
    let total: usize = lines.len();
    let hidden: usize = if total > visible {
        total - visible
    } else {
        0
    };
    let up: usize = if scroll < hidden {
        scroll
    } else {
        hidden
    };
    let end: usize = total - up;
    let start: usize = if end > visible {
        end - visible
    } else {
        0
    };
    let ghost shown = all.subrange(start as int, end as int);
    let mut r: Vec<String> = Vec::new();
    let mut i: usize = start;
    assert(text::strings(r@) =~= shown.take(0));
    while i < end
        invariant
            start <= i <= end <= lines@.len(),
            all == text::strings(lines@),
            shown == all.subrange(start as int, end as int),
            text::strings(r@) == shown.take(i - start),
        decreases end - i,
    {
        let ghost before = text::strings(r@);
        let line = lines[i].clone();
        r.push(line);
        proof {
            let k = i - start;
            assert(shown[k] == line@);
            assert(text::strings(r@) =~= before.push(line@));
            assert(shown.take(k + 1) =~= shown.take(k).push(shown[k]));
        }
        i = i + 1;
    }
    assert(shown.take(i - start) =~= shown);
    r
}

/// The panel is never longer than asked for, shows as many lines as it can, and shows the last
/// ones where it is not scrolled.
pub proof fn lemma_window(lines: Seq<Seq<char>>, visible: nat, scroll: nat)
    ensures
        window(lines, visible, scroll).len() == if lines.len() < visible {
            lines.len()
        } else {
            visible
        },
        window(lines, visible, 0) == lines.skip(
            if lines.len() > visible {
                lines.len() - visible
            } else {
                0
            },
        ),
{
}

// ---------------------------------------------------------------------------
// What holds of what is shown
// ---------------------------------------------------------------------------

/// What was last said of a transfer comes first; without it, the foot of the screen tells whether
/// there is a device, and under which name.
pub proof fn lemma_status_line(a: AppView)
    ensures
        a.transfer_status matches Some(status) ==> line_of(a).content == status && line_of(a).tone
            == Tone::Accent,
        a.transfer_status is None ==> line_of(a) == line_of_connection(a.connection),
        a.connection matches ConnectionView::Loading(message) ==> line_of_connection(
            a.connection,
        ).content == message && line_of_connection(a.connection).tone == Tone::Muted,
        a.connection is NotFound ==> line_of_connection(a.connection).tone == Tone::Error
            && line_of_connection(a.connection).content == NOT_FOUND_SHORT@,
        a.connection matches ConnectionView::Connected(snapshot) ==> {
            let line = line_of_connection(a.connection);
            let head = "✓ Connected to Zune — "@;
            let name = if snapshot.info.friendly_name.len() > 0 {
                snapshot.info.friendly_name
            } else {
                snapshot.info.model
            };
            &&& line.tone == Tone::Success
            &&& line.content.len() == head.len() + name.len()
            &&& line.content.take(head.len() as int) == head
            &&& line.content.skip(head.len() as int) == name
        },
{
    if let ConnectionView::Connected(snapshot) = a.connection {
        let head = "✓ Connected to Zune — "@;
        let name = file_screen::device_name(snapshot);
        let line = line_of_connection(a.connection);
        assert(line.content.take(head.len() as int) =~= head);
        assert(line.content.skip(head.len() as int) =~= name);
    }
}

/// A dialog is as large as it wants to be, or as large as the screen lets it be with a cell left free
/// on either side.
pub proof fn lemma_dialog_size(area: Area, max_width: u16, max_height: u16)
    requires
        area.x + area.width <= u16::MAX,
        area.y + area.height <= u16::MAX,
    ensures
        ({
            let dialog = dialog_area(area, max_width, max_height);
            &&& max_width + 2 <= area.width ==> dialog.width == max_width
            &&& area.width >= 2 && max_width + 2 > area.width ==> dialog.width + 2 == area.width
            &&& area.width < 2 ==> dialog.width == 0
            &&& max_height + 2 <= area.height ==> dialog.height == max_height
            &&& area.height >= 2 && max_height + 2 > area.height ==> dialog.height + 2
                == area.height
            &&& area.height < 2 ==> dialog.height == 0
        }),
{
}

/// A message in a frame is two cells wider than the message.
pub proof fn lemma_framed_width(length: nat)
    ensures
        length + 2 <= u16::MAX ==> framed_width(length) == length + 2,
        length + 2 > u16::MAX ==> framed_width(length) == u16::MAX,
{
}

/// The debug panel stands at the foot of the screen, as wide as it. It has a third of the rows, but
/// at least seven, and never more than there are.
pub proof fn lemma_panel(area: Area)
    requires
        area.y + area.height <= u16::MAX,
    ensures
        ({
            let panel = panel_of(area);
            &&& panel.x == area.x
            &&& panel.width == area.width
            &&& panel.y + panel.height == area.y + area.height
            &&& area.height >= 21 ==> 3 * panel.height <= area.height < 3 * panel.height + 3
            &&& 7 <= area.height < 21 ==> panel.height == 7
            &&& area.height < 7 ==> panel.height == area.height
        }),
{
}

/// A text is cut into full pieces; only the last may be shorter, and it is empty only where the text
/// is.
pub proof fn lemma_full_pieces(s: Seq<char>, width: nat)
    requires
        width > 0,
    ensures
        forall|i: int|
            0 <= i < pieces(s, width).len() - 1 ==> (#[trigger] pieces(s, width)[i]).len() == width,
        s.len() > 0 ==> pieces(s, width).last().len() > 0,
        pieces(s, width).len() > 0,
    decreases s.len(),
{
    if s.len() > width {
        let rest = pieces(s.skip(width as int), width);
        lemma_full_pieces(s.skip(width as int), width);
        let all = pieces(s, width);
        assert forall|i: int| 0 <= i < all.len() - 1 implies (#[trigger] all[i]).len() == width by {
            if i > 0 {
                assert(all[i] == rest[i - 1]);
            }
        }
        assert(all.last() == rest.last());
    }
}

/// Lines are wrapped one by one, and what comes of them stays in their order.
pub proof fn lemma_wrapped(a: Seq<Seq<char>>, b: Seq<Seq<char>>, width: nat)
    ensures
        wrapped(a + b, width) == wrapped(a, width) + wrapped(b, width),
        a.len() == 1 ==> wrapped(a, width) == pieces(a[0], width),
        a.len() == 0 ==> wrapped(a, width).len() == 0,
    decreases b.len(),
{
    if b.len() == 0 {
        assert(a + b =~= a);
        assert(wrapped(a, width) + wrapped(b, width) =~= wrapped(a, width));
    } else {
        lemma_wrapped(a, b.drop_last(), width);
        assert((a + b).drop_last() =~= a + b.drop_last());
        assert(wrapped(a + b, width) =~= wrapped(a, width) + wrapped(b, width));
    }
    if a.len() == 1 {
        assert(a.drop_last().len() == 0);
        assert(wrapped(a.drop_last(), width) =~= Seq::<Seq<char>>::empty());
        assert(wrapped(a, width) =~= pieces(a[0], width));
    }
}

/// A panel that is scrolled shows the lines that end so many lines before the last one, in their
/// order, and stops at the first line.
pub proof fn lemma_scrolled_window(lines: Seq<Seq<char>>, visible: nat, scroll: nat)
    ensures
        lines.len() <= visible ==> window(lines, visible, scroll) == lines,
        lines.len() > visible && scroll <= lines.len() - visible ==> window(lines, visible, scroll)
            == lines.take(lines.len() - scroll).skip(lines.len() - scroll - visible),
        lines.len() > visible && scroll > lines.len() - visible ==> window(lines, visible, scroll)
            == lines.take(visible as int),
{
    if lines.len() <= visible {
        assert(window(lines, visible, scroll) =~= lines);
    } else if scroll <= lines.len() - visible {
        assert(window(lines, visible, scroll) =~= lines.take(lines.len() - scroll).skip(
            lines.len() - scroll - visible,
        ));
    } else {
        assert(window(lines, visible, scroll) =~= lines.take(visible as int));
    }
}

/// Lines are wrapped at the width of the panel, or at one character where it has none.
pub proof fn lemma_usable_width(width: usize)
    ensures
        width > 0 ==> usable_width(width) == width,
        usable_width(0) == 1,
{
}

} // verus!

//! Color themes and the palette of the running application.
use vstd::prelude::*;

use crate::app_state;
use crate::app_state::find_base_directory;
use crate::local_path;
use crate::local_path::LocalPath;
use crate::text;
use crate::text::{
    chars_of, find_char, parse_number, part_of, same_chars, same_text, split_lines, trim_chars,
};

verus! {

/// A terminal color.
#[derive(Clone, Copy, Debug, PartialEq, Eq, Structural)]
pub enum Color {
    Rgb(u8, u8, u8),
}

/// The colors that the screens are drawn with.
#[derive(Clone, Copy, Debug, PartialEq, Eq, Structural)]
pub struct Palette {
    pub primary: Color,
    pub accent: Color,
    pub muted: Color,
    pub background: Color,
    pub success: Color,
    pub error: Color,
}

/// The themes to choose from.
#[derive(Clone, Copy, Debug, PartialEq, Eq, Structural)]
pub enum Theme {
    TronBlue,
    CherryRed,
    Orange,
    Green,
    System,
}

impl Default for Theme {
    fn default() -> (theme: Self)
        ensures
            theme == Theme::TronBlue,
    {
        Theme::TronBlue
    }
}

impl Theme {
    /// Every theme, in the order in which the settings list them.
    pub const ALL: [Theme; 5] = [
        Theme::TronBlue,
        Theme::CherryRed,
        Theme::Orange,
        Theme::Green,
        Theme::System,
    ];

    /// The theme's name for people.
    pub open spec fn name_text(self) -> Seq<char> {
        match self {
            Theme::TronBlue => "Tron Blue"@,
            Theme::CherryRed => "Cherry Red"@,
            Theme::Orange => "Orange"@,
            Theme::Green => "Green"@,
            Theme::System => "System"@,
        }
    }

    /// The theme's name in the state file.
    pub open spec fn key_text(self) -> Seq<char> {
        match self {
            Theme::TronBlue => "tron-blue"@,
            Theme::CherryRed => "cherry-red"@,
            Theme::Orange => "orange"@,
            Theme::Green => "green"@,
            Theme::System => "system"@,
        }
    }

    /// The theme with a given key.
    pub open spec fn of_key(key: Seq<char>) -> Option<Theme> {
        if key == "tron-blue"@ {
            Some(Theme::TronBlue)
        } else if key == "cherry-red"@ {
            Some(Theme::CherryRed)
        } else if key == "orange"@ {
            Some(Theme::Orange)
        } else if key == "green"@ {
            Some(Theme::Green)
        } else if key == "system"@ {
            Some(Theme::System)
        } else {
            None
        }
    }

    /// The theme's name for people.
    pub fn name(self) -> (r: &'static str)
        ensures
            r@ == self.name_text(),
    {
        match self {
            Theme::TronBlue => "Tron Blue",
            Theme::CherryRed => "Cherry Red",
            Theme::Orange => "Orange",
            Theme::Green => "Green",
            Theme::System => "System",
        }
    }

    /// The theme's name in the state file.
    pub fn key(self) -> (r: &'static str)
        ensures
            r@ == self.key_text(),
    {
        match self {
            Theme::TronBlue => "tron-blue",
            Theme::CherryRed => "cherry-red",
            Theme::Orange => "orange",
            Theme::Green => "green",
            Theme::System => "system",
        }
    }

    /// The theme with a given key, if the key is one.
    pub fn from_key(value: &str) -> (r: Option<Theme>)
        ensures
            r == Theme::of_key(value@),
    {
        let mut i: usize = 0;
        while i < 5
            invariant
                i <= 5,
                i > 0 ==> value@ != "tron-blue"@,
                i > 1 ==> value@ != "cherry-red"@,
                i > 2 ==> value@ != "orange"@,
                i > 3 ==> value@ != "green"@,
                i > 4 ==> value@ != "system"@,
            decreases 5 - i,
        {
            let theme = Theme::ALL[i];
            if same_text(theme.key(), value) {
                return Some(theme);
            }
            i = i + 1;
        }
        None
    }

    /// A theme is found again by its key, and only by its key.
    pub proof fn lemma_key_round_trip(self, key: Seq<char>)
        ensures
            Theme::of_key(self.key_text()) == Some(self),
            Theme::of_key(key) == Some(self) <==> key == self.key_text(),
    {
        reveal_strlit("tron-blue");
        reveal_strlit("cherry-red");
        reveal_strlit("orange");
        reveal_strlit("green");
        reveal_strlit("system");
        assert("tron-blue"@[0] == 't' && "tron-blue"@.len() == 9);
        assert("cherry-red"@[0] == 'c' && "cherry-red"@.len() == 10);
        assert("orange"@[0] == 'o' && "orange"@.len() == 6);
        assert("green"@[0] == 'g' && "green"@.len() == 5);
        assert("system"@[0] == 's' && "system"@.len() == 6);
    }
}

/// The Tron Blue palette, which is also the fallback.
pub open spec fn tron_blue_colors() -> Palette {
    Palette {
        primary: Color::Rgb(63, 210, 255),
        accent: Color::Rgb(0, 140, 210),
        muted: Color::Rgb(110, 145, 160),
        background: Color::Rgb(3, 12, 18),
        success: Color::Rgb(80, 235, 220),
        error: Color::Rgb(255, 105, 125),
    }
}

/// The Tron Blue palette, which is also the fallback.
pub fn tron_blue() -> (r: Palette)
    ensures
        r == tron_blue_colors(),
{
    Palette {
        primary: Color::Rgb(63, 210, 255),
        accent: Color::Rgb(0, 140, 210),
        muted: Color::Rgb(110, 145, 160),
        background: Color::Rgb(3, 12, 18),
        success: Color::Rgb(80, 235, 220),
        error: Color::Rgb(255, 105, 125),
    }
}

/// The Cherry Red palette.
pub open spec fn cherry_red_colors() -> Palette {
    Palette {
        primary: Color::Rgb(255, 92, 112),
        accent: Color::Rgb(205, 35, 65),
        muted: Color::Rgb(155, 105, 115),
        background: Color::Rgb(20, 4, 8),
        success: Color::Rgb(255, 160, 175),
        error: Color::Rgb(255, 205, 70),
    }
}

/// The Cherry Red palette.
pub fn cherry_red() -> (r: Palette)
    ensures
        r == cherry_red_colors(),
{
    Palette {
        primary: Color::Rgb(255, 92, 112),
        accent: Color::Rgb(205, 35, 65),
        muted: Color::Rgb(155, 105, 115),
        background: Color::Rgb(20, 4, 8),
        success: Color::Rgb(255, 160, 175),
        error: Color::Rgb(255, 205, 70),
    }
}

/// The Orange palette.
pub open spec fn orange_colors() -> Palette {
    Palette {
        primary: Color::Rgb(255, 155, 45),
        accent: Color::Rgb(220, 95, 0),
        muted: Color::Rgb(160, 125, 90),
        background: Color::Rgb(20, 9, 2),
        success: Color::Rgb(255, 205, 90),
        error: Color::Rgb(255, 85, 65),
    }
}

/// The Orange palette.
pub fn orange() -> (r: Palette)
    ensures
        r == orange_colors(),
{
    Palette {
        primary: Color::Rgb(255, 155, 45),
        accent: Color::Rgb(220, 95, 0),
        muted: Color::Rgb(160, 125, 90),
        background: Color::Rgb(20, 9, 2),
        success: Color::Rgb(255, 205, 90),
        error: Color::Rgb(255, 85, 65),
    }
}

/// The Green palette.
pub open spec fn green_colors() -> Palette {
    Palette {
        primary: Color::Rgb(60, 230, 125),
        accent: Color::Rgb(0, 160, 75),
        muted: Color::Rgb(95, 150, 115),
        background: Color::Rgb(2, 16, 8),
        success: Color::Rgb(120, 255, 175),
        error: Color::Rgb(255, 100, 115),
    }
}

/// The Green palette.
pub fn green() -> (r: Palette)
    ensures
        r == green_colors(),
{
    Palette {
        primary: Color::Rgb(60, 230, 125),
        accent: Color::Rgb(0, 160, 75),
        muted: Color::Rgb(95, 150, 115),
        background: Color::Rgb(2, 16, 8),
        success: Color::Rgb(120, 255, 175),
        error: Color::Rgb(255, 100, 115),
    }
}

/// The palette that a theme selects, given the system's own palette where there is one.
pub open spec fn selected_palette(theme: Theme, system: Option<Palette>) -> Palette {
    match theme {
        Theme::TronBlue => tron_blue_colors(),
        Theme::CherryRed => cherry_red_colors(),
        Theme::Orange => orange_colors(),
        Theme::Green => green_colors(),
        Theme::System => match system {
            Some(palette) => palette,
            None => tron_blue_colors(),
        },
    }
}

/// The palette in use: the one applied last, or Tron Blue before any was applied.
pub fn palette(current: Option<Palette>) -> (r: Palette)
    ensures
        r == (match current {
            Some(palette) => palette,
            None => tron_blue_colors(),
        }),
{
    match current {
        Some(palette) => palette,
        None => tron_blue(),
    }
}

/// Makes a theme's palette the one in use. `system` is the palette of the system's own theme,
/// where it could be read.
pub fn apply(current: &mut Option<Palette>, theme: Theme, system: Option<Palette>)
    ensures
        *final(current) == Some(selected_palette(theme, system)),
{
    let selected = match theme {
        Theme::TronBlue => tron_blue(),
        Theme::CherryRed => cherry_red(),
        Theme::Orange => orange(),
        Theme::Green => green(),
        Theme::System => match system {
            Some(palette) => palette,
            None => tron_blue(),
        },
    };
    *current = Some(selected);
}

// ---------------------------------------------------------------------------
// The system theme's color file
// ---------------------------------------------------------------------------

/// The color that a text such as `#22E6FF` writes: a `#`, and then three hexadecimal numbers of
/// two characters each. Any other text writes none.
pub open spec fn color_of(value: Seq<char>) -> Option<Color> {
    if value.len() == 7 && value[0] == '#' {
        match (
            text::number_value(value.subrange(1, 3), 16, 255),
            text::number_value(value.subrange(3, 5), 16, 255),
            text::number_value(value.subrange(5, 7), 16, 255),
        ) {
            (Some(red), Some(green), Some(blue)) => Some(
                Color::Rgb(red as u8, green as u8, blue as u8),
            ),
            _ => None,
        }
    } else {
        None
    }
}

/// A quotation mark, double or single.
pub open spec fn is_quote(c: char) -> bool {
    c == '"' || c == '\''
}

/// `s` without the quotation marks at its start.
pub open spec fn unquoted_start(s: Seq<char>) -> Seq<char>
    decreases s.len(),
{
    if s.len() > 0 && is_quote(s[0]) {
        unquoted_start(s.drop_first())
    } else {
        s
    }
}

/// `s` without the quotation marks at its end.
pub open spec fn unquoted_end(s: Seq<char>) -> Seq<char>
    decreases s.len(),
{
    if s.len() > 0 && is_quote(s.last()) {
        unquoted_end(s.drop_last())
    } else {
        s
    }
}

/// The value that the first line for `key` gives it, trimmed and without quotation marks.
pub open spec fn value_in(lines: Seq<Seq<char>>, key: Seq<char>) -> Option<Seq<char>>
    decreases lines.len(),
{
    if lines.len() == 0 {
        None
    } else {
        match text::split_at_char(lines[0], '=') {
            Some((candidate, value)) => if text::trimmed(candidate) == key {
                Some(unquoted_end(unquoted_start(text::trimmed(value))))
            } else {
                value_in(lines.drop_first(), key)
            },
            None => value_in(lines.drop_first(), key),
        }
    }
}

/// The color that a color file gives a key.
pub open spec fn color_of_key(contents: Seq<char>, key: Seq<char>) -> Option<Color> {
    match value_in(text::lines_of(contents), key) {
        Some(value) => color_of(value),
        None => None,
    }
}

/// The color of `first`, or of `second` where `first` has none.
pub open spec fn color_of_either(
    contents: Seq<char>,
    first: Seq<char>,
    second: Seq<char>,
) -> Option<Color> {
    match color_of_key(contents, first) {
        Some(color) => Some(color),
        None => color_of_key(contents, second),
    }
}

/// The palette that a color file describes, if no color is missing.
pub open spec fn palette_of(contents: Seq<char>) -> Option<Palette> {
    match (
        color_of_either(contents, "foreground"@, "accent"@),
        color_of_either(contents, "accent"@, "blue"@),
        color_of_either(contents, "muted"@, "dark_foreground"@),
        color_of_key(contents, "background"@),
        color_of_either(contents, "green"@, "bright_green"@),
        color_of_either(contents, "red"@, "bright_red"@),
    ) {
        (
            Some(primary),
            Some(accent),
            Some(muted),
            Some(background),
            Some(success),
            Some(error),
        ) => Some(Palette { primary, accent, muted, background, success, error }),
        _ => None,
    }
}

/// The color that a text such as `#22E6FF` writes, if it writes one.
pub fn parse_color(value: &str) -> (r: Option<Color>)
    ensures
        r == color_of(value@),
{
    let chars = chars_of(value);
    if chars.len() != 7 || chars[0] != '#' {
        return None;
    }
    let red = parse_number(&part_of(&chars, 1, 3), 16, 255);
    let green = parse_number(&part_of(&chars, 3, 5), 16, 255);
    let blue = parse_number(&part_of(&chars, 5, 7), 16, 255);
    match (red, green, blue) {
        (Some(red), Some(green), Some(blue)) => Some(
            Color::Rgb(red as u8, green as u8, blue as u8),
        ),
        _ => None,
    }
}

/// A text without the quotation marks around it.
fn unquote(s: &[char]) -> (r: Vec<char>)
    ensures
        r@ == unquoted_end(unquoted_start(s@)),
{
    let mut from: usize = 0;
    proof {
        assert(s@.skip(0) == s@);
    }
    while from < s.len() && (s[from] == '"' || s[from] == '\'')
        invariant
            from <= s@.len(),
            unquoted_start(s@) == unquoted_start(s@.skip(from as int)),
        decreases s@.len() - from,
    {
        assert(s@.skip(from as int).drop_first() == s@.skip(from + 1));
        from = from + 1;
    }
    let mut to: usize = s.len();
    proof {
        assert(unquoted_start(s@) == s@.skip(from as int));
        assert(s@.subrange(from as int, to as int) == s@.skip(from as int));
    }
    while to > from && (s[to - 1] == '"' || s[to - 1] == '\'')
        invariant
            from <= to <= s@.len(),
            unquoted_end(s@.skip(from as int)) == unquoted_end(
                s@.subrange(from as int, to as int),
            ),
        decreases to,
    {
        assert(s@.subrange(from as int, to as int).drop_last() == s@.subrange(
            from as int,
            to - 1,
        ));
        to = to - 1;
    }
    part_of(s, from, to)
}

/// The value that a file's first line for `key` gives it.
pub fn value(contents: &str, key: &str) -> (r: Option<String>)
    ensures
        (match r {
            Some(v) => value_in(text::lines_of(contents@), key@) == Some(v@),
            None => value_in(text::lines_of(contents@), key@) is None,
        }),
{
    let lines = split_lines(&chars_of(contents));
    let wanted = chars_of(key);
    let ghost all = text::lines_of(contents@);
    let mut i: usize = 0;
    proof {
        assert(all.skip(0) == all);
    }
    while i < lines.len()
        invariant
            i <= lines@.len(),
            all == text::lines_of(contents@),
            text::texts(lines@) == all,
            wanted@ == key@,
            value_in(all, key@) == value_in(all.skip(i as int), key@),
        decreases lines@.len() - i,
    {
        let line = &lines[i];
        proof {
            assert(all.len() == lines@.len());
            assert(all[i as int] == line@);
            assert(all.skip(i as int)[0] == line@);
            assert(all.skip(i as int).drop_first() == all.skip(i + 1));
        }
        let at = find_char(line, '=');
        if at < line.len() {
            let candidate = trim_chars(&part_of(line, 0, at));
            assert(line@.subrange(0, at as int) == line@.take(at as int));
            if same_chars(&candidate, &wanted) {
                let raw = part_of(line, at + 1, line.len());
                assert(raw@ == line@.skip(at + 1));
                return Some(text::string_of(&unquote(&trim_chars(&raw))));
            }
        }
        i = i + 1;
    }
    None
}

/// The color that a color file gives a key.
fn read_key(contents: &str, key: &str) -> (r: Option<Color>)
    ensures
        r == color_of_key(contents@, key@),
{
    match value(contents, key) {
        Some(v) => parse_color(&v),
        None => None,
    }
}

/// The color of one of two keys.
fn read_either(contents: &str, first: &str, second: &str) -> (r: Option<Color>)
    ensures
        r == color_of_either(contents@, first@, second@),
{
    match read_key(contents, first) {
        Some(color) => Some(color),
        None => read_key(contents, second),
    }
}

/// The palette that the system theme's color file describes, if no color is missing.
pub fn system_palette(contents: &str) -> (r: Option<Palette>)
    ensures
        r == palette_of(contents@),
{
    match (
        read_either(contents, "foreground", "accent"),
        read_either(contents, "accent", "blue"),
        read_either(contents, "muted", "dark_foreground"),
        read_key(contents, "background"),
        read_either(contents, "green", "bright_green"),
        read_either(contents, "red", "bright_red"),
    ) {
        (
            Some(primary),
            Some(accent),
            Some(muted),
            Some(background),
            Some(success),
            Some(error),
        ) => Some(Palette { primary, accent, muted, background, success, error }),
        _ => None,
    }
}

/// The color file of the system theme, given the state directory and the home directory of the
/// user; there is none where neither is known.
pub fn system_palette_path(state_home: &Option<LocalPath>, home: &Option<LocalPath>) -> (r: Option<
    LocalPath,
>)
    ensures
        r is None <==> *state_home is None && *home is None,
        r matches Some(path) ==> path@ == local_path::joined_path(
            app_state::base_directory(
                app_state::spelling(*state_home),
                app_state::spelling(*home),
                ".local/state"@,
            ),
            vstd::utf8::encode_utf8("omarchy/current/theme/colors.toml"@),
        ),
{
    if state_home.is_none() && home.is_none() {
        return None;
    }
    Some(
        find_base_directory(state_home, home, ".local/state").join(
            &LocalPath::from_text("omarchy/current/theme/colors.toml"),
        ),
    )
}

// ---------------------------------------------------------------------------
// What holds of themes and colors
// ---------------------------------------------------------------------------

/// The settings list each theme once, under its own name, and the first start has the first one.
pub proof fn lemma_themes(theme: Theme)
    ensures
        Theme::ALL[0] == Theme::TronBlue && Theme::TronBlue.name_text() == "Tron Blue"@,
        Theme::ALL[1] == Theme::CherryRed && Theme::CherryRed.name_text() == "Cherry Red"@,
        Theme::ALL[2] == Theme::Orange && Theme::Orange.name_text() == "Orange"@,
        Theme::ALL[3] == Theme::Green && Theme::Green.name_text() == "Green"@,
        Theme::ALL[4] == Theme::System && Theme::System.name_text() == "System"@,
        exists|i: int| 0 <= i < 5 && #[trigger] Theme::ALL[i] == theme,
        Theme::TronBlue.key_text() == "tron-blue"@,
        Theme::CherryRed.key_text() == "cherry-red"@,
        Theme::Orange.key_text() == "orange"@,
        Theme::Green.key_text() == "green"@,
        Theme::System.key_text() == "system"@,
{
    match theme {
        Theme::TronBlue => {
            assert(Theme::ALL[0] == theme);
        },
        Theme::CherryRed => {
            assert(Theme::ALL[1] == theme);
        },
        Theme::Orange => {
            assert(Theme::ALL[2] == theme);
        },
        Theme::Green => {
            assert(Theme::ALL[3] == theme);
        },
        Theme::System => {
            assert(Theme::ALL[4] == theme);
        },
    }
}

/// The system's palette counts only for the theme that follows the system; where there is none, that
/// theme looks like Tron Blue. The other themes have colors of their own.
pub proof fn lemma_selected_palette(system: Option<Palette>, other: Option<Palette>)
    ensures
        system matches Some(palette) ==> selected_palette(Theme::System, system) == palette,
        selected_palette(Theme::System, None) == selected_palette(Theme::TronBlue, other),
        forall|theme: Theme|
            theme != Theme::System ==> #[trigger] selected_palette(theme, system)
                == selected_palette(theme, other),
        selected_palette(Theme::TronBlue, system) == (Palette {
            primary: Color::Rgb(0x3f, 0xd2, 0xff),
            accent: Color::Rgb(0x00, 0x8c, 0xd2),
            muted: Color::Rgb(0x6e, 0x91, 0xa0),
            background: Color::Rgb(0x03, 0x0c, 0x12),
            success: Color::Rgb(0x50, 0xeb, 0xdc),
            error: Color::Rgb(0xff, 0x69, 0x7d),
        }),
        selected_palette(Theme::CherryRed, system) == (Palette {
            primary: Color::Rgb(0xff, 0x5c, 0x70),
            accent: Color::Rgb(0xcd, 0x23, 0x41),
            muted: Color::Rgb(0x9b, 0x69, 0x73),
            background: Color::Rgb(0x14, 0x04, 0x08),
            success: Color::Rgb(0xff, 0xa0, 0xaf),
            error: Color::Rgb(0xff, 0xcd, 0x46),
        }),
        selected_palette(Theme::Orange, system) == (Palette {
            primary: Color::Rgb(0xff, 0x9b, 0x2d),
            accent: Color::Rgb(0xdc, 0x5f, 0x00),
            muted: Color::Rgb(0xa0, 0x7d, 0x5a),
            background: Color::Rgb(0x14, 0x09, 0x02),
            success: Color::Rgb(0xff, 0xcd, 0x5a),
            error: Color::Rgb(0xff, 0x55, 0x41),
        }),
        selected_palette(Theme::Green, system) == (Palette {
            primary: Color::Rgb(0x3c, 0xe6, 0x7d),
            accent: Color::Rgb(0x00, 0xa0, 0x4b),
            muted: Color::Rgb(0x5f, 0x96, 0x73),
            background: Color::Rgb(0x02, 0x10, 0x08),
            success: Color::Rgb(0x78, 0xff, 0xaf),
            error: Color::Rgb(0xff, 0x64, 0x73),
        }),
{
}

/// A color is written as a number sign and two hexadecimal digits each for its red, its green and its
/// blue part. A text of another length or without the sign writes none.
pub proof fn lemma_color_of(value: Seq<char>)
    ensures
        value.len() != 7 || value[0] != '#' ==> color_of(value) is None,
        value.len() == 7 && value[0] == '#' && (forall|i: int|
            1 <= i < 7 ==> text::digit_value(#[trigger] value[i], 16) is Some) ==> {
            &&& color_of(value) matches Some(Color::Rgb(red, green, blue)) && red == 16
                * text::digit_value(value[1], 16)->0 + text::digit_value(value[2], 16)->0 && green
                == 16 * text::digit_value(value[3], 16)->0 + text::digit_value(value[4], 16)->0
                && blue == 16 * text::digit_value(value[5], 16)->0 + text::digit_value(
                value[6],
                16,
            )->0
        },
{
    if value.len() == 7 && value[0] == '#' && (forall|i: int|
        1 <= i < 7 ==> text::digit_value(#[trigger] value[i], 16) is Some) {
        lemma_two_digits(value, 1);
        lemma_two_digits(value, 3);
        lemma_two_digits(value, 5);
    }
}

/// Two hexadecimal digits count sixteen times the first and the second.
proof fn lemma_two_digits(value: Seq<char>, i: int)
    requires
        0 <= i,
        i + 2 <= value.len(),
        text::digit_value(value[i], 16) is Some,
        text::digit_value(value[i + 1], 16) is Some,
    ensures
        text::number_value(value.subrange(i, i + 2), 16, 255) == Some(
            (16 * text::digit_value(value[i], 16)->0 + text::digit_value(
                value[i + 1],
                16,
            )->0) as nat,
        ),
{
    let s = value.subrange(i, i + 2);
    assert(s[0] == value[i] && s[1] == value[i + 1]);
    assert(s[0] != '+');
    let front = s.drop_last();
    assert(front.len() == 1 && front[0] == s[0]);
    assert(front.drop_last().len() == 0);
    assert(text::digits_value(front.drop_last(), 16) == Some(0nat));
    assert(text::digits_value(front, 16) == text::digit_value(s[0], 16));
    assert(s.last() == s[1]);
}

/// A line of the color file gives a key its value.
pub open spec fn gives(line: Seq<char>, key: Seq<char>, value: Seq<char>) -> bool {
    text::split_at_char(line, '=') matches Some((candidate, written)) && text::trimmed(candidate)
        == key && text::trimmed(written) == value
}

/// A line of the color file is about a key.
pub open spec fn is_about(line: Seq<char>, key: Seq<char>) -> bool {
    text::split_at_char(line, '=') matches Some((candidate, _)) && text::trimmed(candidate) == key
}

/// The value of a key is what the first line about it gives, without the quotation marks around it;
/// a key that no line is about has none.
pub proof fn lemma_value_in(lines: Seq<Seq<char>>, key: Seq<char>)
    ensures
        (match value_in(lines, key) {
            Some(value) => exists|i: int, written: Seq<char>|
                0 <= i < lines.len() && #[trigger] gives(lines[i], key, written)
                    && is_unquoted(value, written) && forall|j: int|
                    0 <= j < i ==> !is_about(#[trigger] lines[j], key),
            None => forall|j: int| 0 <= j < lines.len() ==> !is_about(#[trigger] lines[j], key),
        }),
    decreases lines.len(),
{
    if lines.len() > 0 {
        if is_about(lines[0], key) {
            let (_, behind) = text::split_at_char(lines[0], '=')->0;
            let written = text::trimmed(behind);
            assert(gives(lines[0], key, written));
            lemma_unquoted(written);
        } else {
            let rest = lines.drop_first();
            lemma_value_in(rest, key);
            if let Some(value) = value_in(rest, key) {
                let (i, written) = choose|i: int, written: Seq<char>|
                    0 <= i < rest.len() && #[trigger] gives(rest[i], key, written) && is_unquoted(
                        value,
                        written,
                    ) && forall|j: int| 0 <= j < i ==> !is_about(#[trigger] rest[j], key);
                assert(gives(lines[i + 1], key, written));
                assert forall|j: int| 0 <= j < i + 1 implies !is_about(
                    #[trigger] lines[j],
                    key,
                ) by {
                    if j > 0 {
                        assert(!is_about(rest[j - 1], key));
                    }
                }
            } else {
                assert forall|j: int| 0 <= j < lines.len() implies !is_about(
                    #[trigger] lines[j],
                    key,
                ) by {
                    if j > 0 {
                        assert(!is_about(rest[j - 1], key));
                    }
                }
            }
        }
    }
}

/// A text is another without the quotation marks around it, single or double and any number.
pub open spec fn is_unquoted(value: Seq<char>, written: Seq<char>) -> bool {
    &&& exists|before: Seq<char>, behind: Seq<char>|
        written == #[trigger] (before + value + behind) && only_quotes(before) && only_quotes(behind)
    &&& value.len() > 0 ==> value[0] != '"' && value[0] != '\'' && value.last() != '"'
        && value.last() != '\''
}

/// A text of quotation marks.
pub open spec fn only_quotes(s: Seq<char>) -> bool {
    forall|i: int| 0 <= i < s.len() ==> #[trigger] s[i] == '"' || s[i] == '\''
}

proof fn lemma_unquoted(written: Seq<char>)
    ensures
        is_unquoted(unquoted_end(unquoted_start(written)), written),
{
    let middle = unquoted_start(written);
    let value = unquoted_end(middle);
    let before = lemma_unquoted_start(written);
    let behind = lemma_unquoted_end(middle);
    assert(written =~= before + value + behind);
    if value.len() > 0 {
        assert(value[0] == middle[0]);
    }
}

proof fn lemma_unquoted_start(s: Seq<char>) -> (before: Seq<char>)
    ensures
        s == before + unquoted_start(s),
        only_quotes(before),
        unquoted_start(s).len() > 0 ==> !is_quote(unquoted_start(s)[0]),
    decreases s.len(),
{
    if s.len() > 0 && is_quote(s[0]) {
        let rest = lemma_unquoted_start(s.drop_first());
        let before = seq![s[0]] + rest;
        assert(s =~= seq![s[0]] + s.drop_first());
        assert(s =~= before + unquoted_start(s.drop_first()));
        before
    } else {
        assert(s =~= Seq::<char>::empty() + s);
        Seq::empty()
    }
}

proof fn lemma_unquoted_end(s: Seq<char>) -> (behind: Seq<char>)
    ensures
        s == unquoted_end(s) + behind,
        only_quotes(behind),
        unquoted_end(s).len() > 0 ==> !is_quote(unquoted_end(s).last()),
    decreases s.len(),
{
    if s.len() > 0 && is_quote(s.last()) {
        let rest = lemma_unquoted_end(s.drop_last());
        let behind = rest.push(s.last());
        assert(s =~= s.drop_last().push(s.last()));
        assert(s =~= unquoted_end(s.drop_last()) + behind);
        behind
    } else {
        assert(s =~= s + Seq::<char>::empty());
        Seq::empty()
    }
}

/// A color stands under the first of two keys that gives one.
pub open spec fn is_color_of(
    color: Option<Color>,
    contents: Seq<char>,
    first: Seq<char>,
    second: Seq<char>,
) -> bool {
    if color_of_key(contents, first) is Some {
        color == color_of_key(contents, first)
    } else {
        color == color_of_key(contents, second)
    }
}

/// The palette of a color file takes each color from its own key, or from another one that stands in
/// for it; there is none where one of the colors is missing.
pub proof fn lemma_palette_of(contents: Seq<char>)
    ensures
        (match palette_of(contents) {
            Some(p) => {
                &&& is_color_of(Some(p.primary), contents, "foreground"@, "accent"@)
                &&& is_color_of(Some(p.accent), contents, "accent"@, "blue"@)
                &&& is_color_of(Some(p.muted), contents, "muted"@, "dark_foreground"@)
                &&& Some(p.background) == color_of_key(contents, "background"@)
                &&& is_color_of(Some(p.success), contents, "green"@, "bright_green"@)
                &&& is_color_of(Some(p.error), contents, "red"@, "bright_red"@)
            },
            None => {
                ||| is_color_of(None, contents, "foreground"@, "accent"@)
                ||| is_color_of(None, contents, "accent"@, "blue"@)
                ||| is_color_of(None, contents, "muted"@, "dark_foreground"@)
                ||| color_of_key(contents, "background"@) is None
                ||| is_color_of(None, contents, "green"@, "bright_green"@)
                ||| is_color_of(None, contents, "red"@, "bright_red"@)
            },
        }),
        forall|key: Seq<char>, value: Seq<char>|
            value_in(text::lines_of(contents), key) == Some(value) ==> #[trigger] color_of_key(
                contents,
                key,
            ) == #[trigger] color_of(value),
        forall|key: Seq<char>|
            value_in(text::lines_of(contents), key) is None ==> #[trigger] color_of_key(
                contents,
                key,
            ) is None,
{
}

} // verus!

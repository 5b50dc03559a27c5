use zunetui::app_state::{escape, state_path, unescape, PersistedState};
use zunetui::local_path::LocalPath;
use zunetui::palette::{
    apply, green, palette, parse_color, system_palette, system_palette_path, tron_blue, value,
    Color, Palette, Theme,
};

#[test]
fn state_round_trips() {
    let state = PersistedState {
        theme: Theme::Green,
        active_playlist_id: Some(42),
        active_playlist_name: Some("Road Trip\\Mix".to_owned()),
    };
    assert_eq!(PersistedState::parse(&state.serialize()), state);
}

#[test]
fn state_with_a_line_break_in_the_name_round_trips() {
    let state = PersistedState {
        theme: Theme::System,
        active_playlist_id: None,
        active_playlist_name: Some("two\nlines\\n".to_owned()),
    };
    assert_eq!(
        state.serialize(),
        "theme=system\nactive_playlist_id=\nactive_playlist_name=two\\nlines\\\\n\n"
    );
    assert_eq!(PersistedState::parse(&state.serialize()), state);
}

#[test]
fn state_parses_leniently() {
    let state = PersistedState::parse(
        "theme = nonsense\nno equals sign\nactive_playlist_id= 7 \nother=1\nactive_playlist_id=x",
    );
    assert_eq!(state, PersistedState::default());
    let state = PersistedState::parse("theme=orange\r\nactive_playlist_id=7\r\n");
    assert_eq!(state.theme, Theme::Orange);
    assert_eq!(state.active_playlist_id, Some(7));
    assert_eq!(state.active_playlist_name, None);
}

#[test]
fn missing_state_file_gives_the_default() {
    assert_eq!(PersistedState::load(None), PersistedState::default());
    assert_eq!(PersistedState::load(Some("theme=green\n")).theme, Theme::Green);
    assert_eq!(PersistedState::default().theme, Theme::TronBlue);
}

#[test]
fn escapes_are_undone() {
    assert_eq!(escape("a\\b\nc"), "a\\\\b\\nc");
    assert_eq!(unescape("a\\\\b\\nc").as_deref(), Some("a\\b\nc"));
    assert_eq!(unescape("\\x\\").as_deref(), Some("\\x\\"));
    assert_eq!(unescape(""), None);
}

#[test]
fn state_file_follows_the_environment() {
    let config = Some(LocalPath::from_text("/etc/xdg"));
    let home = Some(LocalPath::from_text("/home/me"));
    assert_eq!(
        state_path(&config, &home).display(),
        "/etc/xdg/com.columbiafoundry.ZuneTUI/state"
    );
    assert_eq!(
        state_path(&None, &home).display(),
        "/home/me/.config/com.columbiafoundry.ZuneTUI/state"
    );
    assert_eq!(state_path(&None, &None).display(), "./com.columbiafoundry.ZuneTUI/state");
}

#[test]
fn parses_hex_colors() {
    assert_eq!(parse_color("#22E6FF"), Some(Color::Rgb(34, 230, 255)));
    assert_eq!(parse_color("bad"), None);
}

#[test]
fn malformed_colors_are_none() {
    assert_eq!(parse_color("#112233"), Some(Color::Rgb(17, 34, 51)));
    for text in
        ["", "#", "#fff", "112233", "#zz0000", "#1122334", "#11223", "#\u{e9}1122", "#\u{20ac}122"]
    {
        assert_eq!(parse_color(text), None, "{text}");
    }
}

#[test]
fn every_theme_is_found_by_its_key() {
    for theme in Theme::ALL {
        assert_eq!(Theme::from_key(theme.key()), Some(theme));
    }
    assert_eq!(Theme::from_key("Tron Blue"), None);
    assert_eq!(Theme::TronBlue.name(), "Tron Blue");
    assert_eq!(Theme::CherryRed.name(), "Cherry Red");
    assert_eq!(Theme::Orange.name(), "Orange");
    assert_eq!(Theme::Green.name(), "Green");
    assert_eq!(Theme::System.name(), "System");
}

#[test]
fn values_are_read_from_a_theme_file() {
    let contents = "# comment\nname = \"x\"\nbackground = '#010203'\n";
    assert_eq!(value(contents, "background").as_deref(), Some("#010203"));
    assert_eq!(value(contents, "foreground"), None);
}

#[test]
fn the_system_theme_is_read_from_its_color_file() {
    let contents = "foreground = \"#fff\"\naccent = \"#0000A1\"\nmuted = '#000002'\n\
                    background = \"#000003\"\ngreen = \"#000004\"\nbright_red = \"#000005\"\n";
    let blue = |value| Color::Rgb(0, 0, value);
    let expected = Palette {
        primary: blue(0xa1),
        accent: blue(0xa1),
        muted: blue(2),
        background: blue(3),
        success: blue(4),
        error: blue(5),
    };
    assert_eq!(system_palette(contents), Some(expected));
    assert_eq!(system_palette(&contents.replace("#000003", "#3")), None);
}

#[test]
fn system_theme_falls_back() {
    assert_eq!(system_palette("nothing"), None);
    let mut current = None;
    assert_eq!(palette(current), tron_blue());
    apply(&mut current, Theme::Green, None);
    assert_eq!(palette(current), green());
    apply(&mut current, Theme::System, None);
    assert_eq!(palette(current), tron_blue());
}

#[test]
fn the_color_file_is_looked_for_in_the_state_directory() {
    let at = |text| Some(LocalPath::from_text(text));
    let found = |state, home| system_palette_path(&state, &home).map(|path| path.display());
    let below = "omarchy/current/theme/colors.toml";
    assert_eq!(found(at("/s"), at("/h")), Some(format!("/s/{below}")));
    assert_eq!(found(None, at("/h")), Some(format!("/h/.local/state/{below}")));
    assert_eq!(found(None, None), None);
}

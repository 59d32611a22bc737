use simpleterm::color::Color;
use simpleterm::draw::{char_advance, check_flash};
use simpleterm::terminal::{Key, Mode, TermEvent, Terminal, Wait};

const DARK_GREY: Color = Color { r: 160, g: 160, b: 160, a: 1000 };
const GOLD: Color = Color { r: 1000, g: 650, b: 100, a: 1000 };

fn term() -> Terminal {
    Terminal::new("simpleterm test", DARK_GREY, GOLD, "LeagueSpartan-Regular.ttf", 32)
}

fn enter() -> TermEvent {
    TermEvent::KeyPress { key: Key::Enter }
}

/// Drives the typewriter until the session leaves its typing mode.
fn finish_typing(t: &mut Terminal) {
    for _ in 0..10_000 {
        if !matches!(t.mode, Mode::Typing { .. }) {
            return;
        }
        assert!(!t.on_event(&TermEvent::Elapsed { ms: 30 }));
    }
    panic!("the typewriter never finished");
}

#[test]
fn new_session_is_idle() {
    let t = term();
    assert_eq!(t.mode, Mode::Idle);
    assert_eq!(t.message.len(), 0);
    assert_eq!(t.input, "");
    assert!(t.scanlines);
    assert_eq!(t.font, "LeagueSpartan-Regular.ttf");
    assert_eq!(t.window_width, 800);
}

#[test]
fn max_characters_follow_width_and_font() {
    let mut t = term();
    // 800 pixels at font size 32: 800 * 43 / (32 * 20) = 53 characters
    assert_eq!(t.get_max_characters(), 53);
    t.set_width(400);
    assert_eq!(t.get_max_characters(), 26);
    t.set_width(0);
    assert_eq!(t.get_max_characters(), 1);
}

#[test]
fn tell_shows_one_line_and_waits_for_enter() {
    let mut t = term();
    t.tell("hi");
    assert_eq!(t.message, vec!["hi".to_string()]);
    assert_eq!(t.input, "Press Enter to Continue");
    assert_eq!(t.mode, Mode::Typing { line: 0, pos: 0, after: Wait::Continue });
    finish_typing(&mut t);
    assert_eq!(t.mode, Mode::WaitContinue);
    // any other key leaves the wait running; Enter ends the call
    assert!(!t.on_event(&TermEvent::KeyPress { key: Key::Other }));
    assert!(t.on_event(&enter()));
    assert_eq!(t.mode, Mode::Idle);
}

#[test]
fn tell_wraps_to_the_window() {
    let mut t = term();
    t.set_width(100);
    // 100 * 43 / 640 = 6 characters per line
    t.tell("one two three");
    assert_eq!(t.message, vec!["one".to_string(), "two".to_string(), "three".to_string()]);
}

#[test]
fn tell_splits_on_newlines() {
    let mut t = term();
    t.tell("a\nb");
    assert_eq!(t.message, vec!["a".to_string(), "b".to_string()]);
}

#[test]
fn typing_reveals_one_character_per_tick() {
    let mut t = term();
    t.tell("hi");
    assert_eq!(t.typed_lines(), vec!["[]".to_string()]);
    t.on_event(&TermEvent::Elapsed { ms: 30 });
    assert_eq!(t.typed_lines(), vec!["h[]".to_string()]);
    t.on_event(&TermEvent::Elapsed { ms: 30 });
    assert_eq!(t.typed_lines(), vec!["hi[]".to_string()]);
    finish_typing(&mut t);
    assert_eq!(t.typed_lines(), vec!["hi".to_string()]);
}

#[test]
fn typing_walks_every_line_in_order() {
    let mut t = term();
    t.tell("ab\nc");
    assert_eq!(t.message, vec!["ab".to_string(), "c".to_string()]);
    let mut frames: Vec<Vec<String>> = Vec::new();
    while matches!(t.mode, Mode::Typing { .. }) {
        frames.push(t.typed_lines());
        t.on_event(&TermEvent::Elapsed { ms: 30 });
    }
    assert_eq!(
        frames,
        vec![
            vec!["[]".to_string()],
            vec!["a[]".to_string()],
            vec!["ab[]".to_string()],
            vec!["ab".to_string(), "[]".to_string()],
            vec!["ab".to_string(), "c[]".to_string()],
            vec!["ab".to_string(), "c".to_string()],
        ]
    );
    assert_eq!(t.mode, Mode::WaitContinue);
}

#[test]
fn ask_rejects_empty_submission() {
    let mut t = term();
    t.ask("name?");
    assert_eq!(t.input, "");
    finish_typing(&mut t);
    assert_eq!(t.mode, Mode::WaitInput);
    // Enter on an empty buffer does not end the call
    assert!(!t.on_event(&enter()));
    assert_eq!(t.mode, Mode::WaitInput);
    assert!(!t.on_event(&TermEvent::TextInput { text: "Sam".to_string() }));
    assert_eq!(t.input, "Sam");
    assert!(t.on_event(&enter()));
    assert_eq!(t.get_input(), "Sam");
    assert_eq!(t.mode, Mode::Idle);
}

#[test]
fn ask_backspace_edits_the_buffer() {
    let mut t = term();
    t.ask("name?");
    finish_typing(&mut t);
    t.on_event(&TermEvent::TextInput { text: "ab".to_string() });
    t.on_event(&TermEvent::KeyPress { key: Key::Backspace });
    assert_eq!(t.input, "a");
    // backspace on an empty buffer is harmless
    t.on_event(&TermEvent::KeyPress { key: Key::Backspace });
    t.on_event(&TermEvent::KeyPress { key: Key::Backspace });
    assert_eq!(t.input, "");
}

#[test]
fn show_waits_for_the_duration() {
    let mut t = term();
    t.show("Welcome!", 2000);
    finish_typing(&mut t);
    assert_eq!(t.mode, Mode::WaitTimer { duration_ms: 2000 });
    assert!(!t.on_event(&TermEvent::Elapsed { ms: 1999 }));
    assert!(!t.on_event(&enter()));
    assert!(t.on_event(&TermEvent::Elapsed { ms: 2000 }));
    assert_eq!(t.mode, Mode::Idle);
}

#[test]
fn display_art_swaps_the_font_and_restores_it() {
    let mut t = term();
    t.display_art(" / \\\n<   >\n \\ /", 300);
    // art lines are taken as they are, never wrapped
    assert_eq!(t.message, vec![" / \\".to_string(), "<   >".to_string(), " \\ /".to_string()]);
    assert_eq!(t.font, "LeagueMono-Regular.ttf");
    assert_eq!(t.font_size, 10);
    assert_eq!(t.mode, Mode::WaitArt { duration_ms: 300 });
    assert!(!t.on_event(&TermEvent::Elapsed { ms: 100 }));
    assert!(t.on_event(&TermEvent::Elapsed { ms: 300 }));
    assert_eq!(t.font, "LeagueSpartan-Regular.ttf");
    assert_eq!(t.font_size, 32);
    assert_eq!(t.mode, Mode::Idle);
}

#[test]
fn art_font_size_is_tunable() {
    let mut t = term();
    t.art_font_size = 9;
    t.display_art("x", 100);
    assert_eq!(t.font_size, 9);
}

#[test]
fn setters_update_the_session() {
    let mut t = term();
    t.set_colors(GOLD, DARK_GREY);
    assert_eq!(t.bg_color, GOLD);
    assert_eq!(t.fg_color, DARK_GREY);
    t.set_bgc(DARK_GREY);
    assert_eq!(t.bg_color, DARK_GREY);
    t.set_fgc(GOLD);
    assert_eq!(t.fg_color, GOLD);
    t.scan_lines(false);
    assert!(!t.scanlines);
    t.set_font("LeagueMono-Regular.ttf", 24);
    assert_eq!(t.font, "LeagueMono-Regular.ttf");
    assert_eq!(t.font_size, 24);
}

#[test]
fn idle_session_has_nothing_to_wait_for() {
    let mut t = term();
    assert!(t.on_event(&TermEvent::Elapsed { ms: 1 }));
    assert_eq!(t.mode, Mode::Idle);
}

#[test]
fn flash_toggles_each_interval_and_resets() {
    let mut then: u64 = 0;
    assert!(!check_flash(400, &mut then));
    assert_eq!(then, 0);
    assert!(check_flash(600, &mut then));
    assert_eq!(then, 0);
    assert!(check_flash(1100, &mut then));
    assert_eq!(then, 1100);
    assert!(!check_flash(1200, &mut then));
}

#[test]
fn glyph_advances_follow_the_width_classes() {
    assert_eq!(char_advance('i'), 15);
    assert_eq!(char_advance('\''), 15);
    assert_eq!(char_advance('"'), 20);
    assert_eq!(char_advance(' '), 20);
    assert_eq!(char_advance('x'), 24);
    assert_eq!(char_advance('m'), 40);
    assert_eq!(char_advance('a'), 30);
    assert_eq!(char_advance('Z'), 30);
}

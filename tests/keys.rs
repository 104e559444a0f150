use log_viewer::banner::{rule_width, watching_line, BANNER_WIDTH};
use log_viewer::keys::{should_quit, Key};

#[test]
fn q_and_escape_quit() {
    assert!(should_quit(Key::Char('q')));
    assert!(should_quit(Key::Esc));
}

#[test]
fn other_keys_are_ignored() {
    assert!(!should_quit(Key::Char('Q')));
    assert!(!should_quit(Key::Char('x')));
    assert!(!should_quit(Key::Char(' ')));
    assert!(!should_quit(Key::Other));
}

#[test]
fn header_lines() {
    assert_eq!(watching_line("app.log"), "watching 'app.log'");
    assert_eq!(watching_line(""), "watching ''");
    assert_eq!(BANNER_WIDTH, "press 'q' or 'escape' to exit".len());
    assert_eq!(rule_width(18), 29);
    assert_eq!(rule_width(29), 29);
    assert_eq!(rule_width(40), 40);
}

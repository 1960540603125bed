use launcher_core::app_state::{App, AppMode, KeyPress};

#[test]
fn default_state() {
    let app = App::default();
    assert!(app.current_search.is_none());
    assert!(app.matches.is_empty());
    assert!(!app.exit);
    assert_eq!(app.mode, AppMode::Normal);
}

#[test]
fn normal_mode_q_exits() {
    let mut app = App::default();
    app.handle_key_event_mode(KeyPress::Char('q'));
    assert!(app.exit);
    assert_eq!(app.mode, AppMode::Normal);
}

#[test]
fn normal_mode_slash_enters_input() {
    let mut app = App::default();
    app.handle_key_event_mode(KeyPress::Char('/'));
    assert!(!app.exit);
    assert_eq!(app.mode, AppMode::Input);
}

#[test]
fn normal_mode_ignores_other_keys() {
    let mut app = App::default();
    app.handle_key_event_mode(KeyPress::Char('x'));
    app.handle_key_event_mode(KeyPress::Esc);
    app.handle_key_event_mode(KeyPress::Backspace);
    assert!(!app.exit);
    assert_eq!(app.mode, AppMode::Normal);
    assert!(app.current_search.is_none());
}

#[test]
fn typing_builds_the_query() {
    let mut app = App::default();
    app.handle_key_event_mode(KeyPress::Char('/'));
    app.handle_key_event_mode(KeyPress::Char('f'));
    app.handle_key_event_mode(KeyPress::Char('o'));
    app.handle_key_event_mode(KeyPress::Char('x'));
    assert_eq!(app.current_search.as_deref(), Some("fox"));
    assert_eq!(app.mode, AppMode::Input);
}

#[test]
fn backspace_shortens_then_clears() {
    let mut app = App::default();
    app.handle_key_event_mode(KeyPress::Char('/'));
    app.handle_key_event_mode(KeyPress::Char('a'));
    app.handle_key_event_mode(KeyPress::Char('b'));
    app.handle_key_event_mode(KeyPress::Backspace);
    assert_eq!(app.current_search.as_deref(), Some("a"));
    app.handle_key_event_mode(KeyPress::Backspace);
    assert!(app.current_search.is_none());
    // a further backspace on an empty query does nothing
    app.handle_key_event_mode(KeyPress::Backspace);
    assert!(app.current_search.is_none());
}

#[test]
fn escape_returns_to_normal_mode() {
    let mut app = App::default();
    app.handle_key_event_mode(KeyPress::Char('/'));
    app.handle_key_event_mode(KeyPress::Char('a'));
    app.handle_key_event_mode(KeyPress::Esc);
    assert_eq!(app.mode, AppMode::Normal);
    // the query text is kept when leaving input mode
    assert_eq!(app.current_search.as_deref(), Some("a"));
}

#[test]
fn exit_sets_the_flag_only() {
    let mut app = App::default();
    app.handle_key_event_mode(KeyPress::Char('/'));
    app.handle_key_event_mode(KeyPress::Char('z'));
    app.exit();
    assert!(app.exit);
    assert_eq!(app.mode, AppMode::Input);
    assert_eq!(app.current_search.as_deref(), Some("z"));
}

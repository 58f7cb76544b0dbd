use tabview::{App, Key, Mode, ParseError};

fn app() -> App {
    App::new("name  size\nfoo   1\nbar   2\n").unwrap()
}

#[test]
fn new_starts_in_main_mode_with_empty_search() {
    let a = app();
    assert_eq!(a.mode, Mode::Main);
    assert_eq!(a.search, "");
    assert_eq!(a.table.rows.len(), 2);
    assert!(a.is_running());
    assert_eq!(Mode::default(), Mode::Main);
}

#[test]
fn new_without_header_fails() {
    assert_eq!(App::new("\n").err().map(|_| ()), Some(()));
    assert!(matches!(App::new(""), Err(ParseError::NoHeader)));
}

#[test]
fn q_in_main_mode_exits() {
    let mut a = app();
    a.handle_key(Key::Char('q'));
    assert_eq!(a.mode, Mode::Exit);
    assert!(!a.is_running());
    a.handle_key(Key::Char('/'));
    assert_eq!(a.mode, Mode::Exit);
}

#[test]
fn search_edits_pattern_and_filters() {
    let mut a = app();
    a.handle_key(Key::Char('x'));
    assert_eq!(a.search, "");
    a.handle_key(Key::Char('/'));
    assert_eq!(a.mode, Mode::Search);
    a.handle_key(Key::Char('b'));
    a.handle_key(Key::Char('q'));
    assert_eq!(a.search, "bq");
    assert_eq!(a.mode, Mode::Search);
    a.handle_key(Key::Backspace);
    assert_eq!(a.search, "b");
    let kept = a.table.filtered_rows(&a.search);
    assert_eq!(kept.len(), 1);
    assert_eq!(kept[0].cells, vec!["bar", "2"]);
    a.handle_key(Key::Backspace);
    a.handle_key(Key::Backspace);
    assert_eq!(a.search, "");
    a.handle_key(Key::Other);
    assert_eq!(a.mode, Mode::Search);
    a.handle_key(Key::Esc);
    assert_eq!(a.mode, Mode::Main);
    a.handle_key(Key::Backspace);
    assert_eq!(a.mode, Mode::Main);
}

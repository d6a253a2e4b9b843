use plist_oxide::edit::ChangeState;
use plist_oxide::session::Session;
use plist_oxide::value::{Dictionary, Value};

#[test]
fn title_shows_path_and_marker() {
    let mut s = Session::new(None);
    assert_eq!(s.title(), "Untitled.plist");
    s.pass_finished(ChangeState::Unchanged);
    assert_eq!(s.title(), "Untitled.plist");
    s.pass_finished(ChangeState::Changed);
    assert_eq!(s.title(), "Untitled.plist *");
    let s2 = Session::new(Some("/tmp/a.plist".to_string()));
    assert_eq!(s2.title(), "/tmp/a.plist");
}

#[test]
fn parse_error_falls_back_to_empty_dictionary() {
    let mut s = Session::new(Some("broken.plist".to_string()));
    let doc = s.opened(Err("bad file".to_string()));
    assert_eq!(doc, Value::Dictionary(Dictionary::new()));
    assert_eq!(s.error.as_deref(), Some("bad file"));
    assert_eq!(s.path.as_deref(), Some("broken.plist"));
    s.error_acknowledged();
    assert!(s.error.is_none());
    assert!(s.path.is_none());
}

#[test]
fn open_success_keeps_document() {
    let mut s = Session::new(Some("ok.plist".to_string()));
    let doc = s.opened(Ok(Value::Integer(3)));
    assert_eq!(doc, Value::Integer(3));
    assert!(s.error.is_none());
}

#[test]
fn save_error_keeps_unsaved() {
    let mut s = Session::new(Some("x.plist".to_string()));
    s.pass_finished(ChangeState::Removed);
    s.saved(Err("disk full".to_string()));
    assert!(s.unsaved);
    assert_eq!(s.error.as_deref(), Some("disk full"));
    s.error_acknowledged();
    s.saved(Ok(()));
    assert!(!s.unsaved);
    assert!(s.error.is_none());
}

#[test]
fn close_with_unsaved_changes_asks_first() {
    let mut s = Session::new(None);
    assert!(!s.close_requested());
    assert!(!s.closing);
    s.pass_finished(ChangeState::Changed);
    assert!(s.close_requested());
    assert!(s.closing);
    assert!(!s.exit_answered(false));
    assert!(!s.closing);
    assert!(s.close_requested());
    assert!(s.exit_answered(true));
    assert!(s.can_close);
    assert!(!s.close_requested());
}

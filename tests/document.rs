use plist_oxide::click_text_edit::{ClickableTextEdit, EditEvent, State, Validation};
use plist_oxide::edit::{
    add_child, default_value, duplicate, remove, rename, set_type, sort, ChangeState,
};
use plist_oxide::editor::{commit_text, display_text, set_real, toggle_boolean};
use plist_oxide::keys::get_new_key;
use plist_oxide::path::{child_keys, pv};
use plist_oxide::toggle::Toggle;
use plist_oxide::value::{key_less, Dictionary, Value, ValueType};

fn p(segs: &[&str]) -> Vec<String> {
    segs.iter().map(|s| s.to_string()).collect()
}

fn dict(entries: Vec<(&str, Value)>) -> Value {
    let mut d = Dictionary::new();
    for (k, v) in entries {
        d.insert(k.to_string(), v);
    }
    Value::Dictionary(d)
}

fn s(t: &str) -> Value {
    Value::String(t.to_string())
}

fn keys_at(doc: &Value, path: &[String]) -> Vec<String> {
    child_keys(path, doc)
}

#[test]
fn duplicate_key_naming() {
    let mut doc = dict(vec![("A", s("x")), ("A Duplicate", s("y"))]);
    assert_eq!(duplicate(&mut doc, &p(&["A"])), ChangeState::Changed);
    assert_eq!(keys_at(&doc, &[]), p(&["A", "A Duplicate", "A Duplicate Duplicate"]));
    assert_eq!(pv(&p(&["A Duplicate Duplicate"]), &doc), Some(&s("x")));
    assert_eq!(duplicate(&mut doc, &p(&["A"])), ChangeState::Changed);
    let keys = keys_at(&doc, &[]);
    assert_eq!(keys.len(), 4);
    let third = &keys[3];
    assert!(third != "A" && third != "A Duplicate" && third != "A Duplicate Duplicate");
    assert_eq!(third, "A Duplicate Duplicate Duplicate");
}

#[test]
fn new_key_skips_taken_names() {
    // "A Duplicate" is last among the candidates for "A", but the proposal
    // "A Duplicate Duplicate" is taken, so one more suffix is added.
    let Value::Dictionary(d) =
        dict(vec![("A Duplicate Duplicate", s("")), ("A", s("")), ("A Duplicate", s(""))])
    else {
        unreachable!()
    };
    assert_eq!(get_new_key(&d, "A"), "A Duplicate Duplicate Duplicate");
}

#[test]
fn add_child_names() {
    let mut doc = dict(vec![]);
    assert_eq!(add_child(&mut doc, &[]), ChangeState::Changed);
    assert_eq!(add_child(&mut doc, &[]), ChangeState::Changed);
    assert_eq!(keys_at(&doc, &[]), p(&["New Child", "New Child Duplicate"]));
    assert_eq!(pv(&p(&["New Child"]), &doc), Some(&s("")));
}

#[test]
fn add_child_array_and_leaf() {
    let mut doc = dict(vec![("list", Value::Array(vec![Value::Integer(1)])), ("leaf", Value::Boolean(true))]);
    assert_eq!(add_child(&mut doc, &p(&["list"])), ChangeState::Changed);
    assert_eq!(keys_at(&doc, &p(&["list"])), p(&["0", "1"]));
    assert_eq!(pv(&p(&["list", "1"]), &doc), Some(&s("")));
    assert_eq!(add_child(&mut doc, &p(&["leaf"])), ChangeState::Unchanged);
    assert_eq!(add_child(&mut doc, &p(&["missing"])), ChangeState::Unchanged);
}

#[test]
fn rename_to_existing_key_is_rejected() {
    let mut doc = dict(vec![("a", Value::Integer(1)), ("b", Value::Integer(2))]);
    let mut path = p(&["a"]);
    assert_eq!(rename(&mut doc, &mut path, "b".to_string()), ChangeState::Unchanged);
    assert_eq!(path, p(&["a"]));
    assert_eq!(keys_at(&doc, &[]), p(&["a", "b"]));
    assert_eq!(pv(&p(&["a"]), &doc), Some(&Value::Integer(1)));
    assert_eq!(pv(&p(&["b"]), &doc), Some(&Value::Integer(2)));
}

#[test]
fn rename_keeps_position() {
    let mut doc = dict(vec![("a", Value::Integer(1)), ("b", Value::Integer(2)), ("c", Value::Integer(3))]);
    let mut path = p(&["a"]);
    assert_eq!(rename(&mut doc, &mut path, "z".to_string()), ChangeState::Removed);
    assert_eq!(path, p(&["z"]));
    assert_eq!(keys_at(&doc, &[]), p(&["z", "b", "c"]));
    assert_eq!(pv(&p(&["z"]), &doc), Some(&Value::Integer(1)));
}

#[test]
fn rename_in_array_is_refused() {
    let mut doc = Value::Array(vec![Value::Integer(1)]);
    let mut path = p(&["0"]);
    assert_eq!(rename(&mut doc, &mut path, "x".to_string()), ChangeState::Unchanged);
    assert_eq!(path, p(&["0"]));
}

#[test]
fn remove_from_dictionary_moves_last_entry() {
    let mut doc = dict(vec![("a", Value::Integer(1)), ("b", Value::Integer(2)), ("c", Value::Integer(3))]);
    assert_eq!(remove(&mut doc, &p(&["a"])), ChangeState::Removed);
    assert_eq!(keys_at(&doc, &[]), p(&["c", "b"]));
    assert_eq!(remove(&mut doc, &p(&["nope"])), ChangeState::Unchanged);
    assert_eq!(remove(&mut doc, &[]), ChangeState::Unchanged);
}

#[test]
fn remove_from_array_shifts() {
    let mut doc = Value::Array(vec![Value::Integer(1), Value::Integer(2), Value::Integer(3)]);
    assert_eq!(remove(&mut doc, &p(&["0"])), ChangeState::Removed);
    assert_eq!(doc, Value::Array(vec![Value::Integer(2), Value::Integer(3)]));
    assert_eq!(remove(&mut doc, &p(&["5"])), ChangeState::Unchanged);
}

#[test]
fn duplicate_in_array_appends_copy() {
    let mut doc = Value::Array(vec![dict(vec![("k", s("v"))]), Value::Integer(2)]);
    assert_eq!(duplicate(&mut doc, &p(&["0"])), ChangeState::Changed);
    assert_eq!(keys_at(&doc, &[]), p(&["0", "1", "2"]));
    assert_eq!(pv(&p(&["2", "k"]), &doc), Some(&s("v")));
    assert_eq!(duplicate(&mut doc, &[]), ChangeState::Unchanged);
}

#[test]
fn change_dictionary_to_boolean_and_back() {
    let mut doc = dict(vec![(
        "d",
        dict(vec![("x", Value::Integer(1)), ("y", Value::Integer(2)), ("z", Value::Integer(3))]),
    )]);
    assert_eq!(set_type(&mut doc, &p(&["d"]), ValueType::Boolean), ChangeState::Removed);
    assert_eq!(pv(&p(&["d"]), &doc), Some(&Value::Boolean(false)));
    assert_eq!(set_type(&mut doc, &p(&["d"]), ValueType::Dictionary), ChangeState::Removed);
    assert_eq!(pv(&p(&["d"]), &doc), Some(&Value::Dictionary(Dictionary::new())));
    assert!(keys_at(&doc, &p(&["d"])).is_empty());
}

#[test]
fn change_between_leaves_is_changed() {
    let mut doc = dict(vec![("n", Value::Integer(5))]);
    assert_eq!(set_type(&mut doc, &p(&["n"]), ValueType::String), ChangeState::Changed);
    assert_eq!(pv(&p(&["n"]), &doc), Some(&s("")));
    assert_eq!(set_type(&mut doc, &p(&["n"]), ValueType::String), ChangeState::Unchanged);
    assert_eq!(set_type(&mut doc, &p(&["n"]), ValueType::Date), ChangeState::Unchanged);
    assert_eq!(set_type(&mut doc, &p(&["n"]), ValueType::Real), ChangeState::Changed);
    assert_eq!(pv(&p(&["n"]), &doc), Some(&Value::Real(0)));
}

#[test]
fn scalar_root_is_allowed() {
    // The root may take any kind the selector offers, leaves included.
    let mut doc = dict(vec![("a", Value::Integer(1))]);
    assert_eq!(set_type(&mut doc, &[], ValueType::Integer), ChangeState::Removed);
    assert_eq!(doc, Value::Integer(0));
}

#[test]
fn defaults_per_kind() {
    assert_eq!(default_value(ValueType::String), Some(s("")));
    assert_eq!(default_value(ValueType::Integer), Some(Value::Integer(0)));
    assert_eq!(default_value(ValueType::Data), Some(Value::Data(vec![])));
    assert_eq!(default_value(ValueType::Array), Some(Value::Array(vec![])));
    assert_eq!(default_value(ValueType::Date), None);
}

#[test]
fn integer_edit_validation() {
    let mut doc = dict(vec![("n", Value::Integer(42))]);
    let path = p(&["n"]);
    let shown = display_text(pv(&path, &doc).unwrap()).unwrap();
    assert_eq!(shown, "42");
    let field = ClickableTextEdit::from_get_set(Validation::Integer, false);
    let (st, c) = field.step(&shown, None, EditEvent::DoubleClick);
    assert!(c.is_none());
    assert_eq!(st.as_ref().unwrap().edit_string, "42");
    let (st, c) = field.step(&shown, st, EditEvent::Typed("4a2".to_string()));
    assert!(c.is_none());
    assert!(!field.is_valid(&st.as_ref().unwrap().edit_string));
    let (st, c) = field.step(&shown, st, EditEvent::Enter);
    assert!(c.is_none());
    assert_eq!(st.as_ref().unwrap().edit_string, "4a2");
    assert_eq!(pv(&path, &doc), Some(&Value::Integer(42)));
    let (st, c) = field.step(&shown, st, EditEvent::Typed("43".to_string()));
    assert!(c.is_none());
    assert!(field.is_valid(&st.as_ref().unwrap().edit_string));
    let (st, c) = field.step(&shown, st, EditEvent::Enter);
    assert!(st.is_none());
    let text = c.unwrap();
    assert_eq!(text, "43");
    assert_eq!(commit_text(&mut doc, &path, &text), ChangeState::Changed);
    assert_eq!(pv(&path, &doc), Some(&Value::Integer(43)));
}

#[test]
fn integer_text_forms() {
    let mut doc = Value::Integer(-5);
    assert_eq!(display_text(&doc).unwrap(), "-5");
    assert_eq!(commit_text(&mut doc, &[], "+7"), ChangeState::Changed);
    assert_eq!(doc, Value::Integer(7));
    assert_eq!(commit_text(&mut doc, &[], "9223372036854775808"), ChangeState::Unchanged);
    assert_eq!(commit_text(&mut doc, &[], "-9223372036854775808"), ChangeState::Changed);
    assert_eq!(doc, Value::Integer(i64::MIN));
    assert_eq!(commit_text(&mut doc, &[], ""), ChangeState::Unchanged);
}

#[test]
fn byte_blob_round_trip() {
    let mut doc = dict(vec![("b", Value::Data(vec![0xDE, 0xAD]))]);
    let path = p(&["b"]);
    assert_eq!(display_text(pv(&path, &doc).unwrap()).unwrap(), "DEAD");
    let field = ClickableTextEdit::from_get_set(Validation::Hex, false);
    assert!(field.is_valid("DEADBEEF"));
    assert_eq!(commit_text(&mut doc, &path, "DEADBEEF"), ChangeState::Changed);
    assert_eq!(pv(&path, &doc), Some(&Value::Data(vec![0xDE, 0xAD, 0xBE, 0xEF])));
    assert!(!field.is_valid("DEA"));
    assert_eq!(commit_text(&mut doc, &path, "DEA"), ChangeState::Unchanged);
    assert_eq!(pv(&path, &doc), Some(&Value::Data(vec![0xDE, 0xAD, 0xBE, 0xEF])));
    assert!(field.is_valid("0a0B"));
    assert!(!field.is_valid("zz"));
}

#[test]
fn string_edit_commits_verbatim() {
    let mut doc = s("old");
    assert_eq!(display_text(&doc).unwrap(), "old");
    assert_eq!(commit_text(&mut doc, &[], " new text "), ChangeState::Changed);
    assert_eq!(doc, s(" new text "));
}

#[test]
fn real_and_boolean_edits() {
    let mut doc = Value::Array(vec![Value::Real(0), Value::Boolean(false)]);
    let bits = 2.5f64.to_bits();
    assert_eq!(set_real(&mut doc, &p(&["0"]), bits), ChangeState::Changed);
    assert_eq!(pv(&p(&["0"]), &doc), Some(&Value::Real(bits)));
    assert_eq!(set_real(&mut doc, &p(&["1"]), bits), ChangeState::Unchanged);
    assert_eq!(toggle_boolean(&mut doc, &p(&["1"])), ChangeState::Changed);
    assert_eq!(pv(&p(&["1"]), &doc), Some(&Value::Boolean(true)));
    assert_eq!(toggle_boolean(&mut doc, &p(&["0"])), ChangeState::Unchanged);
    assert_eq!(display_text(&Value::Boolean(true)), None);
}

#[test]
fn sort_orders_keys() {
    let mut doc = dict(vec![("Zebra", Value::Integer(1)), ("Alpha", Value::Integer(2)), ("Mike", Value::Integer(3))]);
    assert_eq!(keys_at(&doc, &[]), p(&["Zebra", "Alpha", "Mike"]));
    assert_eq!(sort(&mut doc, &[]), ChangeState::Changed);
    assert_eq!(keys_at(&doc, &[]), p(&["Alpha", "Mike", "Zebra"]));
    assert_eq!(pv(&p(&["Zebra"]), &doc), Some(&Value::Integer(1)));
    let mut arr = Value::Array(vec![]);
    assert_eq!(sort(&mut arr, &[]), ChangeState::Unchanged);
}

#[test]
fn key_order_is_by_character() {
    assert!(key_less("A", "B"));
    assert!(key_less("Ab", "Abc"));
    assert!(!key_less("abc", "abc"));
    assert!(key_less("Zebra", "alpha"));
    assert!(!key_less("b", "a"));
}

#[test]
fn path_resolution() {
    let doc = dict(vec![("a", Value::Array(vec![s("x"), s("y")]))]);
    assert_eq!(pv(&p(&["a", "1"]), &doc), Some(&s("y")));
    assert_eq!(pv(&p(&["a", "+1"]), &doc), Some(&s("y")));
    assert_eq!(pv(&p(&["a", "2"]), &doc), None);
    assert_eq!(pv(&p(&["a", "x"]), &doc), None);
    assert_eq!(pv(&p(&["a", "0", "deeper"]), &doc), None);
    assert_eq!(pv(&p(&["b"]), &doc), None);
    assert!(keys_at(&doc, &p(&["a", "0"])).is_empty());
    assert!(keys_at(&doc, &p(&["zzz"])).is_empty());
    assert_eq!(ValueType::from_val(&p(&["a"]), &doc), ValueType::Array);
    assert!(ValueType::Dictionary.is_expandable());
    assert!(!ValueType::Integer.is_expandable());
}

#[test]
fn key_validation() {
    let field = ClickableTextEdit::from_get_set(
        Validation::Key { current: "a".to_string(), siblings: p(&["a", "b"]) },
        false,
    );
    assert!(field.is_valid("a"));
    assert!(!field.is_valid("b"));
    assert!(field.is_valid("c"));
    assert!(!field.frame);
}

#[test]
fn focus_loss_keeps_invalid_buffer() {
    let field = ClickableTextEdit::from_get_set(Validation::Integer, true);
    let st = Some(State::new("x".to_string()));
    let (st, c) = field.step("1", st, EditEvent::FocusLost);
    assert!(c.is_none());
    assert_eq!(st.unwrap().edit_string, "x");
    let st = Some(State::new("2".to_string()));
    let (st, c) = field.step("1", st, EditEvent::FocusLost);
    assert!(st.is_none() && c.is_none());
    let (st, c) = field.step("1", None, EditEvent::Enter);
    assert!(st.is_none() && c.is_none());
}

#[test]
fn toggle_flips() {
    let mut t = Toggle::new(false);
    t.click();
    assert!(t.on);
    t.click();
    assert!(!t.on);
}

#[test]
fn change_state_order() {
    assert_eq!(ChangeState::Unchanged.bitor(ChangeState::Changed), ChangeState::Changed);
    assert_eq!(ChangeState::Removed.bitor(ChangeState::Changed), ChangeState::Removed);
    let mut c = ChangeState::Changed;
    c.bitor_assign(ChangeState::Unchanged);
    assert_eq!(c, ChangeState::Changed);
    c.bitor_assign(ChangeState::Removed);
    assert_eq!(c, ChangeState::Removed);
}

#[test]
fn copy_is_deep() {
    let v = dict(vec![("a", Value::Array(vec![Value::Data(vec![1, 2]), Value::Date("2024-01-01T00:00:00Z".to_string())]))]);
    let c = v.copy();
    assert_eq!(c, v);
}

#[test]
fn keys_stay_distinct_after_edits() {
    let mut doc = dict(vec![("A", s("1")), ("A Duplicate", s("2")), ("New Child", s("3"))]);
    for _ in 0..3 {
        assert_eq!(add_child(&mut doc, &[]), ChangeState::Changed);
        assert_eq!(duplicate(&mut doc, &p(&["A"])), ChangeState::Changed);
        assert_eq!(duplicate(&mut doc, &p(&["A Duplicate"])), ChangeState::Changed);
    }
    let mut path = p(&["New Child"]);
    assert_eq!(rename(&mut doc, &mut path, "A".to_string()), ChangeState::Unchanged);
    let keys = keys_at(&doc, &[]);
    assert_eq!(keys.len(), 12);
    for i in 0..keys.len() {
        for j in 0..i {
            assert_ne!(keys[i], keys[j]);
        }
    }
}

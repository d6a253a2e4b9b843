use plist_oxide::edit::ChangeState;
use plist_oxide::value::{Dictionary, Value, ValueType};
use plist_oxide::walker::{MenuAction, RowAction, UiState, Walker};

fn p(segs: &[&str]) -> Vec<String> {
    segs.iter().map(|s| s.to_string()).collect()
}

fn dict(entries: Vec<(&str, Value)>) -> Value {
    let mut d = Dictionary::new();
    for (k, v) in entries {
        d.insert(k.to_string(), v);
    }
    Value::Dictionary(d)
}

fn sample() -> Value {
    dict(vec![
        ("a", dict(vec![("b", dict(vec![("c", Value::Integer(1))])), ("e", Value::Integer(3))])),
        ("d", Value::Integer(2)),
    ])
}

/// Runs one pass; `act` gives the actions for each row.
fn pass(
    doc: &mut Value,
    ui: &mut UiState,
    act: &dyn Fn(&[String]) -> Vec<RowAction>,
) -> (Vec<Vec<String>>, Vec<ChangeState>, ChangeState) {
    let mut w = Walker::new();
    let mut rows = vec![];
    let mut outcomes = vec![];
    while let Some(path) = w.next_row() {
        let actions = act(&path);
        rows.push(path);
        outcomes.push(w.finish_row(doc, ui, actions));
    }
    (rows, outcomes, w.outcome())
}

#[test]
fn walk_visits_expanded_rows_in_order() {
    let mut doc = sample();
    let mut ui = UiState::new();
    let (rows, _, out) = pass(&mut doc, &mut ui, &|_| vec![]);
    assert_eq!(rows, vec![p(&[]), p(&["a"]), p(&["d"])]);
    assert_eq!(out, ChangeState::Unchanged);
    ui.set_expanded(&p(&["a"]), true);
    ui.set_expanded(&p(&["a", "b"]), true);
    let (rows, _, _) = pass(&mut doc, &mut ui, &|_| vec![]);
    assert_eq!(
        rows,
        vec![p(&[]), p(&["a"]), p(&["a", "b"]), p(&["a", "b", "c"]), p(&["a", "e"]), p(&["d"])]
    );
}

#[test]
fn collapsed_root_shows_only_root() {
    let mut doc = sample();
    let mut ui = UiState::new();
    assert!(ui.is_expanded(&[]));
    ui.set_expanded(&[], false);
    let (rows, _, _) = pass(&mut doc, &mut ui, &|_| vec![]);
    assert_eq!(rows, vec![p(&[])]);
}

#[test]
fn toggle_action_expands_in_same_pass() {
    let mut doc = sample();
    let mut ui = UiState::new();
    let (rows, outcomes, out) = pass(&mut doc, &mut ui, &|path| {
        if path == ["a".to_string()] { vec![RowAction::Toggle] } else { vec![] }
    });
    assert_eq!(rows, vec![p(&[]), p(&["a"]), p(&["a", "b"]), p(&["a", "e"]), p(&["d"])]);
    assert!(outcomes.iter().all(|o| *o == ChangeState::Unchanged));
    assert_eq!(out, ChangeState::Unchanged);
    assert!(ui.is_expanded(&p(&["a"])));
}

#[test]
fn removed_row_is_not_descended() {
    let mut doc = sample();
    let mut ui = UiState::new();
    ui.set_expanded(&p(&["a"]), true);
    ui.set_expanded(&p(&["a", "b"]), true);
    let (rows, outcomes, out) = pass(&mut doc, &mut ui, &|path| {
        if path == ["a".to_string(), "b".to_string()] {
            vec![RowAction::Menu(MenuAction::Remove)]
        } else {
            vec![]
        }
    });
    assert_eq!(rows, vec![p(&[]), p(&["a"]), p(&["a", "b"]), p(&["d"])]);
    assert!(!rows.contains(&p(&["a", "b", "c"])));
    assert_eq!(outcomes[2], ChangeState::Removed);
    assert_eq!(out, ChangeState::Changed);
    let Value::Dictionary(d) = &doc else { unreachable!() };
    let Some(Value::Dictionary(a)) = d.get("a") else { unreachable!() };
    assert_eq!(a.keys(), p(&["e"]));
}

#[test]
fn actions_after_removal_are_not_applied() {
    let mut doc = sample();
    let mut ui = UiState::new();
    let (_, outcomes, _) = pass(&mut doc, &mut ui, &|path| {
        if path == ["d".to_string()] {
            vec![RowAction::Menu(MenuAction::Remove), RowAction::Menu(MenuAction::Duplicate)]
        } else {
            vec![]
        }
    });
    assert_eq!(outcomes.last(), Some(&ChangeState::Removed));
    let Value::Dictionary(d) = &doc else { unreachable!() };
    assert_eq!(d.keys(), p(&["a"]));
}

#[test]
fn retyping_root_to_leaf_stops_pass() {
    let mut doc = sample();
    let mut ui = UiState::new();
    let (rows, _, out) = pass(&mut doc, &mut ui, &|path| {
        if path.is_empty() { vec![RowAction::Retype(ValueType::Boolean)] } else { vec![] }
    });
    assert_eq!(rows, vec![p(&[])]);
    assert_eq!(out, ChangeState::Removed);
    assert_eq!(doc, Value::Boolean(false));
}

#[test]
fn rename_row_counts_as_removed() {
    let mut doc = sample();
    let mut ui = UiState::new();
    let (rows, outcomes, out) = pass(&mut doc, &mut ui, &|path| {
        if path == ["a".to_string()] { vec![RowAction::Rename("z".to_string())] } else { vec![] }
    });
    assert_eq!(rows, vec![p(&[]), p(&["a"])]);
    assert_eq!(outcomes[1], ChangeState::Removed);
    assert_eq!(out, ChangeState::Changed);
    let Value::Dictionary(d) = &doc else { unreachable!() };
    assert_eq!(d.keys(), p(&["z", "d"]));
}

#[test]
fn edits_mark_pass_changed() {
    let mut doc = sample();
    let mut ui = UiState::new();
    let (_, outcomes, out) = pass(&mut doc, &mut ui, &|path| {
        if path == ["d".to_string()] { vec![RowAction::CommitText("10".to_string())] } else { vec![] }
    });
    assert_eq!(outcomes, vec![ChangeState::Unchanged, ChangeState::Unchanged, ChangeState::Changed]);
    assert_eq!(out, ChangeState::Changed);
    let Value::Dictionary(d) = &doc else { unreachable!() };
    assert_eq!(d.get("d"), Some(&Value::Integer(10)));
}

#[test]
fn add_child_shows_in_same_pass() {
    let mut doc = dict(vec![]);
    let mut ui = UiState::new();
    let (rows, _, out) = pass(&mut doc, &mut ui, &|path| {
        if path.is_empty() { vec![RowAction::Menu(MenuAction::AddChild)] } else { vec![] }
    });
    assert_eq!(rows, vec![p(&[]), p(&["New Child"])]);
    assert_eq!(out, ChangeState::Changed);
}

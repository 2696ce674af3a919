use slate::undo::{Entry, Group, History, CAP};

fn entry(before: Option<&str>, after: Option<&str>) -> Entry {
    Entry {
        calendar_id: "personal".into(),
        file_name: "a.ics".into(),
        before: before.map(ToOwned::to_owned),
        after: after.map(ToOwned::to_owned),
    }
}

#[test]
fn a_new_action_clears_redo() {
    let mut history = History::default();
    history.record(vec![entry(Some("v1"), Some("v2"))]);
    let group = history.pop_undo().unwrap();
    history.shelve(group, true);
    assert_eq!(history.redo_len(), 1);

    history.record(vec![entry(Some("v2"), Some("v3"))]);
    assert!(history.pop_redo().is_none(), "redo must not survive a fork");
}

#[test]
fn a_noop_records_nothing() {
    let mut history = History::default();
    history.record(vec![entry(Some("same"), Some("same"))]);
    assert!(history.pop_undo().is_none());
}

#[test]
fn history_is_capped() {
    let mut history = History::default();
    for i in 0..(CAP + 10) {
        history.record(vec![entry(None, Some(&i.to_string()))]);
    }
    assert_eq!(history.undo_len(), CAP);
}

#[test]
fn undo_then_redo_gives_back_the_same_group() {
    let mut history = History::new();
    history.record(vec![entry(Some("a"), Some("b"))]);
    let g: Group = history.pop_undo().unwrap();
    assert_eq!(g.entries.len(), 1);
    history.shelve(g, true);
    let again = history.pop_redo().unwrap();
    assert_eq!(again.entries[0].after.as_deref(), Some("b"));
    assert!(history.pop_redo().is_none());
}

#[test]
fn a_group_with_one_change_keeps_every_entry() {
    let mut history = History::new();
    history.record(vec![entry(Some("same"), Some("same")), entry(None, Some("new"))]);
    let g = history.pop_undo().unwrap();
    assert_eq!(g.entries.len(), 2);
    assert_eq!(g.entries[1].after.as_deref(), Some("new"));
}

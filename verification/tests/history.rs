use ledalert::history::{EditorHistory, MAX_SNAPSHOTS};

#[test]
fn undo_restores_the_draft_a_record_replaced_and_redo_returns() {
    let mut history = EditorHistory::new(String::from("a"));
    assert!(!history.can_undo());
    assert!(history.record(String::from("b"), None));
    assert!(history.record(String::from("c"), None));
    assert_eq!(history.undo().as_deref(), Some("b"));
    assert_eq!(history.undo().as_deref(), Some("a"));
    assert_eq!(history.undo(), None);
    assert_eq!(history.redo().as_deref(), Some("b"));
    assert_eq!(history.redo().as_deref(), Some("c"));
    assert_eq!(history.redo(), None);
}

#[test]
fn an_equal_draft_changes_nothing_and_keeps_redo() {
    let mut history = EditorHistory::new(String::from("a"));
    history.record(String::from("b"), None);
    history.undo();
    assert!(!history.record(String::from("a"), None));
    assert!(history.can_redo());
    assert!(history.record(String::from("x"), None));
    assert!(!history.can_redo());
}

#[test]
fn a_gesture_is_one_undo_step_and_returning_to_its_start_leaves_none() {
    let mut history = EditorHistory::new(1u32);
    history.record(2, Some(7));
    history.record(3, Some(7));
    history.record(4, Some(7));
    assert_eq!(history.undo(), Some(1));
    assert!(!history.can_undo());
    history.redo();
    history.finish_group();
    history.record(5, Some(8));
    history.record(4, Some(8));
    assert_eq!(history.undo(), Some(1));
}

#[test]
fn the_timeline_keeps_the_most_recent_drafts() {
    let mut history = EditorHistory::new(0u32);
    for draft in 1..=100u32 {
        history.record(draft, None);
    }
    let mut steps = 0;
    while history.undo().is_some() {
        steps += 1;
    }
    assert_eq!(steps, MAX_SNAPSHOTS - 1);
    assert_eq!(history.redo(), Some(101 - MAX_SNAPSHOTS as u32 + 1));
}

#[test]
fn undo_and_redo_give_back_text_drafts() {
    let mut h = EditorHistory::new(String::from("first"));
    assert!(h.record(String::from("second"), None));
    assert_eq!(h.undo(), Some(String::from("first")));
    assert!(h.can_redo());
    assert_eq!(h.redo(), Some(String::from("second")));
    assert_eq!(h.undo(), Some(String::from("first")));
    assert!(!h.record(String::from("first"), Some(3)));
    assert_eq!(h.redo(), Some(String::from("second")));
}

use go_kifu_viewer_lib::pending::PendingOpenPath;

#[test]
fn pending_path_is_taken_once() {
    let mut slot = PendingOpenPath::new();
    assert_eq!(slot.take(), None);
    slot.set(Some("game.sgf".to_string()));
    assert_eq!(slot.take(), Some("game.sgf".to_string()));
    assert_eq!(slot.take(), None);
}

#[test]
fn setting_a_pending_path_overwrites() {
    let mut slot = PendingOpenPath::new();
    slot.set(Some("a.sgf".to_string()));
    slot.set(Some("b.sgf".to_string()));
    assert_eq!(slot.take(), Some("b.sgf".to_string()));
    slot.set(Some("c.sgf".to_string()));
    slot.set(None);
    assert_eq!(slot.take(), None);
}

use persistent_rope::Rope;
use sphinx::buffer::Buffer;
use sphinx::layout::SplitType;
use sphinx::shell::{Action, SphinxBox};

#[test]
fn split_then_close_returns_to_single_leaf() {
    let mut shell = SphinxBox::new();
    assert_eq!(shell.active_pane(), 1);
    assert_eq!(shell.pane_count(), 1);
    let new_id = shell.split_active(SplitType::Vertical).unwrap();
    assert_eq!(new_id, 2);
    assert_eq!(shell.pane_count(), 2);
    assert!(shell.has_pane(1));
    assert!(shell.has_pane(2));
    assert_eq!(shell.active_pane(), 1);
    assert!(shell.set_active(2));
    assert!(shell.close_active());
    assert_eq!(shell.pane_count(), 1);
    assert!(shell.has_pane(1));
    assert!(!shell.has_pane(2));
    assert_eq!(shell.active_pane(), 1);
}

#[test]
fn actions_drive_the_loop() {
    let mut shell = SphinxBox::new();
    assert!(shell.apply_action(Action::DoNothing));
    assert!(!shell.apply_action(Action::ClosePane));
    assert_eq!(shell.pane_count(), 1);

    let mut other = SphinxBox::new();
    other.split_active(SplitType::Horizontal).unwrap();
    assert!(other.apply_action(Action::ClosePane));
    assert_eq!(other.pane_count(), 1);
    assert_eq!(other.active_pane(), 2);
    assert!(!other.apply_action(Action::Exit));
}

#[test]
fn attach_buffer_loads_pane() {
    let mut shell = SphinxBox::new();
    assert_eq!(shell.pane_loaded(1), Some(false));
    let buf = Buffer::new(Rope::from("hello"));
    shell.attach_buffer(1, buf, (0, 0));
    assert_eq!(shell.pane_loaded(1), Some(true));
    assert_eq!(shell.pane_loaded(7), None);
}

#[test]
fn exit_keeps_last_snapshot_inspectable() {
    let mut buf = Buffer::with_history(Rope::from("draft"), 2);
    buf.write(Rope::from("unsaved"));
    let held = buf.read().clone();
    let mut shell = SphinxBox::new();
    shell.attach_buffer(1, buf, (0, 0));
    assert!(!shell.apply_action(Action::Exit));
    assert_eq!(held.to_string(), "unsaved");
}

#[test]
fn split_ids_are_fresh() {
    let mut shell = SphinxBox::new();
    let first = shell.split_active(SplitType::Vertical).unwrap();
    let second = shell.split_active(SplitType::Horizontal).unwrap();
    assert_ne!(first, second);
    assert_ne!(first, 1);
    assert_ne!(second, 1);
    assert_eq!(shell.pane_count(), 3);
}

use observable_key_value_tree::{ExampleValueType, ObservableKVTree};
use observable_key_value_tree::path::{join_path, relative_path, segment_check};

type Tree = ObservableKVTree<ExampleValueType>;

fn ival(v: i32) -> ExampleValueType {
    ExampleValueType::I32(v)
}

#[test]
fn set_then_get_returns_written_value() {
    let mut t = Tree::default();
    t.set_path("a", ival(1));
    t.set_path("a.b.c", ival(-7));
    assert_eq!(t.get_path("a"), ival(1));
    assert_eq!(t.get_path("a.b.c"), ival(-7));
    t.set_path("a.b.c", ival(i32::MAX));
    assert_eq!(t.get_path("a.b.c"), ival(i32::MAX));
}

#[test]
fn intermediate_nodes_read_as_absent() {
    let mut t = Tree::default();
    t.set_path("a.b.c", ival(3));
    assert_eq!(t.get_path("a"), ExampleValueType::Absent);
    assert_eq!(t.get_path("a.b"), ExampleValueType::Absent);
    assert_eq!(t.get_path("a.b.c.d"), ExampleValueType::Absent);
    assert_eq!(t.get_path("b"), ExampleValueType::Absent);
    assert!(t.get_path("x.y").is_none());
}

#[test]
fn empty_segments_are_ordinary_segments() {
    let mut t = Tree::default();
    t.set_path("", ival(1));
    t.set_path("a..b", ival(2));
    assert_eq!(t.get_path(""), ival(1));
    assert_eq!(t.get_path("a..b"), ival(2));
    assert_eq!(t.path_version("a."), 1);
    assert_eq!(t.path_version("a"), 1);
    assert_eq!(t.path_version("a.b"), -1);
}

#[test]
fn propagation_reaches_root_and_resets() {
    let mut t = Tree::default();
    t.set_path("a.b.c", ival(5));
    for p in ["a.b.c", "a.b", "a"] {
        assert!(t.was_path_updated(p));
    }
    assert!(t.was_updated());
    t.reset_update_cycle();
    for p in ["a.b.c", "a.b", "a"] {
        assert!(!t.was_path_updated(p));
    }
    assert!(!t.was_updated());
    assert!(!t.was_path_updated("never.written"));
}

#[test]
fn sibling_write_leaves_other_branch_unmarked() {
    let mut t = Tree::default();
    t.set_path("a.x", ival(1));
    t.set_path("a.y", ival(2));
    t.reset_update_cycle();
    t.set_path("a.y", ival(3));
    assert!(!t.was_path_updated("a.x"));
    assert!(t.was_path_updated("a.y"));
    assert!(t.was_path_updated("a"));
}

#[test]
fn versions_strictly_increase() {
    let mut t = Tree::default();
    assert_eq!(t.path_version("p.q"), -1);
    assert_eq!(t.update_tracker.version(), 0);
    t.set_path("p.q", ival(1));
    assert_eq!(t.path_version("p.q"), 1);
    assert_eq!(t.path_version("p"), 1);
    assert_eq!(t.update_tracker.version(), 1);
    t.set_path("p.q", ival(1));
    assert_eq!(t.path_version("p.q"), 2);
    assert_eq!(t.path_version("p"), 2);
    assert_eq!(t.update_tracker.version(), 2);
    t.set_path("p", ival(9));
    assert_eq!(t.path_version("p.q"), 2);
    assert_eq!(t.path_version("p"), 3);
    assert_eq!(t.update_tracker.version(), 3);
}

#[test]
fn merge_replace_removes_missing_children() {
    let mut t = Tree::default();
    t.set_path("x.keep", ival(1));
    t.set_path("x.drop", ival(2));
    t.set_path("x.drop.deeper", ival(3));
    t.set_path("other", ival(4));

    let mut src = Tree::default();
    src.set_path("x.keep", ival(10));
    src.set_path("x.new.leaf", ival(11));
    let sub = src.get_tree("x").unwrap();

    t.set_tree("x", sub);
    assert_eq!(t.get_path("x.keep"), ival(10));
    assert_eq!(t.get_path("x.new.leaf"), ival(11));
    assert_eq!(t.path_version("x.drop"), -1);
    assert_eq!(t.path_version("x.drop.deeper"), -1);
    assert_eq!(t.get_path("x.drop"), ExampleValueType::Absent);
    assert_eq!(t.get_path("other"), ival(4));
    // An existing node grafted over is notified once more.
    assert_eq!(t.path_version("x.keep"), 2);
    assert_eq!(t.path_version("x.new"), 1);
}

#[test]
fn set_tree_records_and_broadcasts_nothing() {
    let mut t = Tree::default();
    let rx = t.create_update_channel();
    let mut src = Tree::default();
    src.set_path("s.a", ival(1));
    let sub = src.get_tree("s").unwrap();
    t.set_tree("s", sub);
    assert!(rx.try_recv().is_err());
    assert_eq!(t.snapshot_change_accumulator().len(), 0);
}

#[test]
fn get_tree_of_missing_path_is_none() {
    let mut t = Tree::default();
    t.set_path("a.b", ival(1));
    assert!(t.get_tree("a.c").is_none());
    let sub = t.get_tree("a").unwrap();
    assert_eq!(sub.get_path("b"), ival(1));
    assert_eq!(sub.path_version("b"), 1);
    assert_eq!(sub.update_tracker.version(), 1);
    assert_eq!(sub.snapshot_count(), 0);
}

#[test]
fn snapshot_scenario_go_back_and_forth() {
    let mut t = Tree::default();
    t.set_path("p", ival(1));
    let v1 = t.make_snapshot();
    t.set_path("p", ival(2));
    let v2 = t.make_snapshot();
    assert_eq!(v1, 1);
    assert_eq!(v2, 2);
    t.go_to_snapshot_with_version(v1);
    assert_eq!(t.get_path("p"), ival(1));
    assert_eq!(t.update_tracker.corresponding_previous_version(), Some(v1));
    t.go_to_snapshot_with_version(v2);
    assert_eq!(t.get_path("p"), ival(2));
    assert_eq!(t.update_tracker.corresponding_previous_version(), Some(v2));
    assert_eq!(t.snapshot_change_accumulator().len(), 0);
}

#[test]
fn rewind_from_uncheckpointed_position_checkpoints_first() {
    let mut t = Tree::default();
    t.set_path("p", ival(1));
    let v1 = t.make_snapshot();
    t.set_path("p", ival(2));
    t.go_to_snapshot_with_version(v1);
    assert_eq!(t.get_path("p"), ival(1));
    assert_eq!(t.snapshot_count(), 2);
    let v2 = t.snapshot_at(1).version();
    assert_eq!(v2, 2);
    t.go_to_snapshot_with_version(v2);
    assert_eq!(t.get_path("p"), ival(2));
}

#[test]
fn accumulator_keeps_first_old_and_last_new() {
    let mut t = Tree::default();
    t.set_path("p", ival(1));
    t.make_snapshot();
    t.set_path("p", ival(2));
    t.set_path("q", ival(5));
    t.set_path("p", ival(3));
    let acc = t.snapshot_change_accumulator();
    assert_eq!(acc.len(), 2);
    assert_eq!(acc.path_at(0), "p");
    assert_eq!(*acc.old_value_at(0), ival(1));
    assert_eq!(*acc.new_value_at(0), ival(3));
    assert_eq!(acc.path_at(1), "q");
    assert_eq!(*acc.old_value_at(1), ExampleValueType::Absent);
    assert_eq!(*acc.new_value_at(1), ival(5));
    let v = t.make_snapshot();
    assert_eq!(v, 4);
    assert_eq!(t.snapshot_change_accumulator().len(), 0);
    assert_eq!(t.last_snapshot_version(), Some(4));
    assert_eq!(t.snapshot_at(1).len(), 2);
}

#[test]
fn update_snapshot_accumulator_records_without_writing() {
    let mut t = Tree::default();
    t.set_path("p", ival(1));
    t.make_snapshot();
    t.update_snapshot_accumulator("p", ival(8));
    assert_eq!(t.get_path("p"), ival(1));
    let acc = t.snapshot_change_accumulator();
    assert_eq!(*acc.old_value_at(0), ival(1));
    assert_eq!(*acc.new_value_at(0), ival(8));
}

#[test]
fn last_snapshot_version_of_fresh_tree_is_none() {
    let mut t = Tree::default();
    assert_eq!(t.last_snapshot_version(), None);
    t.set_path("a", ival(1));
    t.set_path("b", ival(1));
    assert_eq!(t.make_snapshot(), 2);
    assert_eq!(t.last_snapshot_version(), Some(2));
}

#[test]
fn revert_single_snapshot() {
    let mut t = Tree::default();
    t.set_path("p", ival(1));
    t.make_snapshot();
    t.set_path("p", ival(2));
    t.set_path("q", ival(3));
    let v = t.make_snapshot();
    t.revert_snapshot_version(v);
    assert_eq!(t.get_path("p"), ival(1));
    assert_eq!(t.get_path("q"), ExampleValueType::Absent);
    assert_eq!(t.update_tracker.version(), 5);
}

#[test]
fn apply_and_revert_snapshot_directly() {
    let mut t = Tree::default();
    t.set_path("p", ival(1));
    t.make_snapshot();
    t.set_path("p", ival(2));
    t.make_snapshot();
    let s = t.snapshot_at(1).clone();
    t.revert_snapshot(&s);
    assert_eq!(t.get_path("p"), ival(1));
    t.apply_snapshot(&s);
    assert_eq!(t.get_path("p"), ival(2));
}

#[test]
fn fast_forward_and_rewind_explicitly() {
    let mut t = Tree::default();
    t.set_path("p", ival(1));
    let v1 = t.make_snapshot();
    t.set_path("p", ival(2));
    let v2 = t.make_snapshot();
    t.rewind_to_version(v1);
    assert_eq!(t.get_path("p"), ival(1));
    t.fast_forward_to_version(v2);
    assert_eq!(t.get_path("p"), ival(2));
}

#[test]
fn undo_replay_is_broadcast() {
    let mut t = Tree::default();
    t.set_path("p", ival(1));
    let v1 = t.make_snapshot();
    t.set_path("p", ival(2));
    t.make_snapshot();
    let rx = t.create_update_channel();
    t.go_to_snapshot_with_version(v1);
    let u = rx.try_recv().unwrap();
    assert_eq!(u.path, "p");
    assert_eq!(u.old_value, ival(2));
    assert_eq!(u.value, ival(1));
    assert!(rx.try_recv().is_err());
}

#[test]
fn broadcast_order_within_one_listener() {
    let mut t = Tree::default();
    let rx = t.create_update_channel();
    t.set_path("p", ival(1));
    t.set_path("p", ival(2));
    let first = rx.recv().unwrap();
    let second = rx.recv().unwrap();
    assert_eq!(first.old_value, ExampleValueType::Absent);
    assert_eq!(first.value, ival(1));
    assert_eq!(second.old_value, ival(1));
    assert_eq!(second.value, ival(2));
}

#[test]
fn every_listener_gets_every_update() {
    let mut t = Tree::default();
    let rx1 = t.create_update_channel();
    let rx2 = t.create_update_channel();
    t.set_path("a.b", ival(4));
    assert_eq!(rx1.recv().unwrap().value, ival(4));
    assert_eq!(rx2.recv().unwrap().path, "a.b");
}

#[test]
fn dropped_listener_does_not_break_writes() {
    let mut t = Tree::default();
    let rx = t.create_update_channel();
    drop(rx);
    t.set_path("p", ival(1));
    t.set_path("p", ival(2));
    assert_eq!(t.get_path("p"), ival(2));
}

#[test]
fn set_path_without_notifying_sends_nothing() {
    let mut t = Tree::default();
    let rx = t.create_update_channel();
    t.set_path_without_notifying("p", ival(1));
    assert!(rx.try_recv().is_err());
    assert_eq!(t.get_path("p"), ival(1));
    assert_eq!(t.path_version("p"), 1);
    assert_eq!(t.snapshot_change_accumulator().len(), 1);
}

#[test]
fn clear_resets_everything() {
    let mut t = Tree::default();
    let rx = t.create_update_channel();
    t.set_path("a.b", ival(1));
    t.make_snapshot();
    t.clear();
    assert_eq!(t.get_path("a.b"), ExampleValueType::Absent);
    assert_eq!(t.path_version("a"), -1);
    assert_eq!(t.update_tracker.version(), 0);
    assert!(!t.was_updated());
    assert_eq!(t.snapshot_count(), 0);
    assert_eq!(t.last_snapshot_version(), None);
    let _ = rx.recv().unwrap();
    t.set_path("c", ival(2));
    assert!(rx.try_recv().is_err());
}

#[test]
fn example_value_accessors() {
    assert_eq!(ExampleValueType::from(5).unwrap_i32(), 5);
    assert_eq!(f32::from_bits(ExampleValueType::F32Bits(1.5f32.to_bits()).unwrap_f32_bits()), 1.5);
    assert!(ExampleValueType::default().is_none());
    assert!(!ExampleValueType::I32(0).is_none());
}

#[test]
fn child_names_lists_direct_children_once() {
    let mut t = Tree::default();
    t.set_path("a.b.c", ival(1));
    t.set_path("a.d", ival(2));
    t.set_path("e", ival(3));
    let mut roots = t.child_names(None);
    roots.sort();
    assert_eq!(roots, vec!["a".to_string(), "e".to_string()]);
    let mut under_a = t.child_names(Some("a"));
    under_a.sort();
    assert_eq!(under_a, vec!["b".to_string(), "d".to_string()]);
    assert_eq!(t.child_names(Some("a.b")), vec!["c".to_string()]);
    assert!(t.child_names(Some("a.b.c")).is_empty());
    assert!(t.child_names(Some("missing")).is_empty());
}

#[test]
fn root_value_round_trips_through_subtrees() {
    let base = Tree::with_value(ival(7));
    assert_eq!(base.value(), ival(7));
    assert_eq!(base.update_tracker.version(), 0);
    let mut t = Tree::default();
    t.set_tree("x.y", base);
    assert_eq!(t.get_path("x.y"), ival(7));
    assert_eq!(t.get_tree("x.y").unwrap().value(), ival(7));
    assert_eq!(t.path_version("x"), 1);
    assert_eq!(t.update_tracker.version(), 1);
}

#[test]
fn optional_values_read_as_none_when_absent() {
    let mut t = ObservableKVTree::<Option<i32>>::default();
    assert_eq!(t.get_path("a.b"), None);
    t.set_path("a.b", Some(3));
    assert_eq!(t.get_path("a.b"), Some(3));
    assert_eq!(t.get_path("a"), None);
}

#[test]
fn path_helpers() {
    assert_eq!(relative_path("a.b", "a.b.c.d"), Some("c.d".to_string()));
    assert_eq!(relative_path("a.b", "a.bc"), None);
    assert_eq!(relative_path("a.b", "a.b"), None);
    assert_eq!(relative_path("a", "b.a.c"), None);
    assert_eq!(join_path("a.b", "c"), "a.b.c".to_string());
    assert!(segment_check("abc"));
    assert!(!segment_check("a.c"));
}

#[test]
fn go_to_current_position_records_it() {
    let mut t = Tree::default();
    t.set_path("p", ival(1));
    let v = t.make_snapshot();
    assert_eq!(t.resume_pointer(), None);
    t.go_to_snapshot_with_version(v);
    assert_eq!(t.resume_pointer(), Some(v));
    assert_eq!(t.version(), 1);
    assert_eq!(t.get_path("p"), ival(1));
}

#[test]
fn revert_needs_only_that_checkpoint() {
    let mut t = Tree::default();
    t.set_path("p", ival(1));
    t.set_path("q", ival(2));
    let v = t.make_snapshot();
    t.revert_snapshot_version(v);
    assert_eq!(t.get_path("p"), ExampleValueType::Absent);
    assert_eq!(t.get_path("q"), ExampleValueType::Absent);
    assert_eq!(t.version(), 4);
}

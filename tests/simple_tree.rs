use observable_key_value_tree::{ObservableTree, SimpleUpdateTracker};

type Tree = ObservableTree<i32, SimpleUpdateTracker>;

#[test]
fn lib_it_gets_and_sets_values() {
    let mut data = Tree::default();
    data.set_path("scene.some", 1234);
    assert_eq!(data.get_path("scene.some").unwrap(), 1234);
}

#[test]
fn lib_it_gets_and_sets_deep_values() {
    let mut data = Tree::default();
    data.set_path("scene.some.very.deep.property", 1234);
    assert_eq!(data.get_path("scene.some.very.deep.property").unwrap(), 1234);
}

#[test]
fn lib_it_gets_none_when_not_set() {
    let data = Tree::default();
    assert_eq!(data.get_path("scene.property.that.does.not.exist"), None);
}

#[test]
fn lib_it_changes_value() {
    let mut data = Tree::default();
    data.set_path("scene.some.very.deep.property", 1234);
    data.set_path("scene.some.very.deep.property", 2345);
    assert_eq!(data.get_path("scene.some.very.deep.property").unwrap(), 2345);
}

#[test]
fn lib_it_increments_version_number_on_change() {
    let mut data = Tree::default();

    assert_eq!(data.version(), 0);

    data.set_path("scene.some.very.deep.property", 1234);
    assert_eq!(data.get_path_meta("scene.some.very.deep.property").unwrap().version(), 1);
    assert_eq!(data.get_path_meta("scene.some.very.deep").unwrap().version(), 1);
    assert_eq!(data.get_path_meta("scene.some.very").unwrap().version(), 1);
    assert_eq!(data.get_path_meta("scene.some").unwrap().version(), 1);
    assert_eq!(data.get_path_meta("scene").unwrap().version(), 1);

    assert_eq!(data.version(), 1);

    data.set_path("scene.some.very.deep.property", 2345);
    assert_eq!(data.get_path_meta("scene.some.very.deep.property").unwrap().version(), 2);
    assert_eq!(data.get_path_meta("scene.some.very.deep").unwrap().version(), 2);
    assert_eq!(data.get_path_meta("scene.some.very").unwrap().version(), 2);
    assert_eq!(data.get_path_meta("scene.some").unwrap().version(), 2);
    assert_eq!(data.get_path_meta("scene").unwrap().version(), 2);

    assert_eq!(data.version(), 2);

    data.set_path("scene.some.very.deep.property", 3456);
    assert_eq!(data.get_path_meta("scene.some.very.deep.property").unwrap().version(), 3);
    assert_eq!(data.get_path_meta("scene.some.very.deep").unwrap().version(), 3);
    assert_eq!(data.get_path_meta("scene.some.very").unwrap().version(), 3);
    assert_eq!(data.get_path_meta("scene.some").unwrap().version(), 3);
    assert_eq!(data.get_path_meta("scene").unwrap().version(), 3);

    assert_eq!(data.version(), 3);
}

#[test]
fn lib_it_detects_updates() {
    let mut data = Tree::default();

    data.set_path("scene.some.very.deep.property", 1234);
    assert_eq!(data.get_path_meta("scene.some.very.deep.property").unwrap().update_tracker.was_updated(), true);
    assert_eq!(data.get_path_meta("scene.some.very.deep").unwrap().update_tracker.was_updated(), true);
    assert_eq!(data.get_path_meta("scene.some.very").unwrap().update_tracker.was_updated(), true);
    assert_eq!(data.get_path_meta("scene.some").unwrap().update_tracker.was_updated(), true);
    assert_eq!(data.get_path_meta("scene").unwrap().update_tracker.was_updated(), true);
    assert_eq!(data.update_tracker.was_updated(), true);

    data.reset_update_cycle();
    assert_eq!(data.get_path_meta("scene.some.very.deep.property").unwrap().update_tracker.was_updated(), false);
    assert_eq!(data.get_path_meta("scene.some.very.deep").unwrap().update_tracker.was_updated(), false);
    assert_eq!(data.get_path_meta("scene.some.very").unwrap().update_tracker.was_updated(), false);
    assert_eq!(data.get_path_meta("scene.some").unwrap().update_tracker.was_updated(), false);
    assert_eq!(data.get_path_meta("scene").unwrap().update_tracker.was_updated(), false);
    assert_eq!(data.update_tracker.was_updated(), false);

    data.set_path("scene.some.very.deep.property", 2345);

    assert_eq!(data.get_path_meta("scene.some.very.deep.property").unwrap().update_tracker.was_updated(), true);
    assert_eq!(data.get_path_meta("scene.some.very.deep").unwrap().update_tracker.was_updated(), true);
    assert_eq!(data.get_path_meta("scene.some.very").unwrap().update_tracker.was_updated(), true);
    assert_eq!(data.get_path_meta("scene.some").unwrap().update_tracker.was_updated(), true);
    assert_eq!(data.get_path_meta("scene").unwrap().update_tracker.was_updated(), true);
    assert_eq!(data.update_tracker.was_updated(), true);
}

#[test]
fn simple_tree_missing_below_existing_node_reads_none() {
    let mut data = Tree::default();
    data.set_path("scene.a", 1);
    assert_eq!(data.get_path("scene.b.c"), None);
    assert_eq!(data.get_path("scene"), None);
    assert!(data.get_path_meta("scene.b").is_none());
}

#[test]
fn simple_tree_meta_keeps_subtree_values() {
    let mut data = Tree::default();
    data.set_path("scene.a.b", 5);
    data.set_path("scene.c", 6);
    let meta = data.get_path_meta("scene").unwrap();
    assert_eq!(meta.get_path("a.b"), Some(5));
    assert_eq!(meta.get_path("c"), Some(6));
    assert_eq!(meta.version(), 2);
    assert_eq!(meta.get_path_meta("a").unwrap().version(), 1);
}

#[test]
fn simple_tree_root_tracker_follows_cycles() {
    let mut data = Tree::default();
    assert!(!data.root_tracker().was_updated());
    data.set_path("a", 1);
    assert!(data.root_tracker().was_updated());
    data.reset_update_cycle();
    assert!(!data.root_tracker().was_updated());
    assert!(!data.get_path_meta("a").unwrap().root_tracker().was_updated());
}

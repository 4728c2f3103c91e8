use observable_key_value_tree::{ExampleValueType, ObservableKVTree};

fn f32_value(x: f32) -> ExampleValueType {
    ExampleValueType::F32Bits(x.to_bits())
}

fn as_f32(v: &ExampleValueType) -> f32 {
    f32::from_bits(v.unwrap_f32_bits())
}

#[test]
fn it_gets_and_sets_values() {
    let mut data = ObservableKVTree::<ExampleValueType>::default();
    data.set_path("scene.some", ExampleValueType::I32(1234));
    assert_eq!(data.get_path("scene.some").unwrap_i32(), 1234);
}

#[test]
fn it_gets_and_sets_deep_values() {
    let mut data = ObservableKVTree::<ExampleValueType>::default();
    data.set_path("scene.some.very.deep.property", ExampleValueType::from(1234));
    assert_eq!(data.get_path("scene.some.very.deep.property").unwrap_i32(), 1234);
}

#[test]
fn it_gets_and_sets_subtree() {
    let mut data = ObservableKVTree::<ExampleValueType>::default();
    data.set_path("scene.some.very.deep.property", ExampleValueType::from(1234));

    let scene = data.get_tree("scene").unwrap();
    let mut data2 = ObservableKVTree::<ExampleValueType>::default();
    data.reset_update_cycle();

    let initial_version = data2.path_version("scene");

    data2.set_tree("scene", scene);

    assert!(data2.path_version("scene") > initial_version);
    assert_eq!(data2.get_path("scene.some.very.deep.property").unwrap_i32(), 1234);
    assert_eq!(data2.was_path_updated("scene.some.very.deep.property"), true);
    assert_eq!(data2.was_path_updated("scene.some.very.deep"), true);
    assert_eq!(data2.was_path_updated("scene.some.very"), true);
    assert_eq!(data2.was_path_updated("scene.some"), true);
    assert_eq!(data2.was_path_updated("scene"), true);
}

#[test]
fn it_increments_version() {
    let mut data = ObservableKVTree::<ExampleValueType>::default();
    data.set_path("scene.some.very.deep.property", ExampleValueType::from(1234));
    data.set_path("scene.some.very.deep.property2", ExampleValueType::from(1234));

    let scene = data.get_tree("scene").unwrap();
    let mut data2 = ObservableKVTree::<ExampleValueType>::default();

    assert_eq!(data2.path_version("scene.some.very.deep.property"), -1);
    assert_eq!(data2.path_version("scene.some.very.deep"), -1);
    assert_eq!(data2.path_version("scene.some.very"), -1);
    assert_eq!(data2.path_version("scene.some"), -1);
    assert_eq!(data2.path_version("scene"), -1);

    data2.set_tree("scene", scene);

    // Grafting notifies every installed node exactly once, leaves included,
    // so a grafted node starts at version 1 as a written one does.
    assert_eq!(data2.path_version("scene.some.very.deep.property"), 1);
    assert_eq!(data2.path_version("scene.some.very.deep"), 1);
    assert_eq!(data2.path_version("scene.some.very"), 1);
    assert_eq!(data2.path_version("scene.some"), 1);
    assert_eq!(data2.path_version("scene"), 1);

    assert_eq!(data2.get_path("scene.some.very.deep.property").unwrap_i32(), 1234);

    data2.set_path("scene.some.very.deep", ExampleValueType::I32(5555));

    assert_eq!(data2.path_version("scene.some.very.deep.property"), 1);
    assert_eq!(data2.path_version("scene.some.very.deep"), 2);
    assert_eq!(data2.path_version("scene.some.very"), 2);
    assert_eq!(data2.path_version("scene.some"), 2);
    assert_eq!(data2.path_version("scene"), 2);
}

#[test]
fn it_sends_updates() {
    let mut data = ObservableKVTree::<ExampleValueType>::default();
    data.set_path("scene.some.very.deep.property", ExampleValueType::from(1234));

    let receiver = data.create_update_channel();

    data.set_path("scene.some.very.deep.property", ExampleValueType::from(2345));
    let update = receiver.recv().unwrap();
    assert_eq!(update.path, "scene.some.very.deep.property".to_string());
    assert_eq!(update.old_value.unwrap_i32(), 1234);
    assert_eq!(update.value.unwrap_i32(), 2345);

    data.set_path("scene.some.very.deep.property", ExampleValueType::from(3456));
    let update = receiver.recv().unwrap();
    assert_eq!(update.path, "scene.some.very.deep.property".to_string());
    assert_eq!(update.old_value.unwrap_i32(), 2345);
    assert_eq!(update.value.unwrap_i32(), 3456);
}

#[test]
fn it_gets_none_when_not_set() {
    let data = ObservableKVTree::<ExampleValueType>::default();
    assert_eq!(data.get_path("scene.property.that.does.not.exist").is_none(), true);
}

#[test]
fn it_changes_value() {
    let mut data = ObservableKVTree::<ExampleValueType>::default();
    data.set_path("scene.some.very.deep.property", ExampleValueType::from(1234));
    data.set_path("scene.some.very.deep.property", ExampleValueType::from(2345));
    assert_eq!(data.get_path("scene.some.very.deep.property").unwrap_i32(), 2345);
}

#[test]
fn it_detects_updates() {
    let mut data = ObservableKVTree::<ExampleValueType>::default();

    data.set_path("scene.some.very.deep.property", ExampleValueType::from(1234));
    assert_eq!(data.was_path_updated("scene.some.very.deep.property"), true);
    assert_eq!(data.was_path_updated("scene.some.very.deep"), true);
    assert_eq!(data.was_path_updated("scene.some.very"), true);
    assert_eq!(data.was_path_updated("scene.some"), true);
    assert_eq!(data.was_path_updated("scene"), true);
    assert_eq!(data.update_tracker.was_updated(), true);

    data.reset_update_cycle();
    assert_eq!(data.was_path_updated("scene.some.very.deep.property"), false);
    assert_eq!(data.was_path_updated("scene.some.very.deep"), false);
    assert_eq!(data.was_path_updated("scene.some.very"), false);
    assert_eq!(data.was_path_updated("scene.some"), false);
    assert_eq!(data.was_path_updated("scene"), false);
    assert_eq!(data.update_tracker.was_updated(), false);

    data.set_path("scene.some.very.deep.property", ExampleValueType::from(2345));

    assert_eq!(data.was_path_updated("scene.some.very.deep.property"), true);
    assert_eq!(data.was_path_updated("scene.some.very.deep"), true);
    assert_eq!(data.was_path_updated("scene.some.very"), true);
    assert_eq!(data.was_path_updated("scene.some"), true);
    assert_eq!(data.was_path_updated("scene"), true);
    assert_eq!(data.update_tracker.was_updated(), true);
}

#[test]
fn it_makes_and_reverts_snapshots() {
    let mut data = ObservableKVTree::<ExampleValueType>::default();

    data.set_path("scene.some.deep.property", f32_value(123.4));
    data.make_snapshot();
    data.set_path("scene.some.deep.property", f32_value(100.0));
    let v1 = data.make_snapshot();

    assert_eq!(as_f32(&data.get_path("scene.some.deep.property")), 100.0);
    data.revert_snapshot_version(v1);
    data.set_path("scene.some.deep.property", f32_value(123.4));
}

#[test]
fn goes_to_snapshot_with_version() {
    let mut data = ObservableKVTree::<ExampleValueType>::default();

    data.set_path("scene.some.deep.property", f32_value(123.4));
    let v1 = data.make_snapshot();
    data.set_path("scene.some.deep.property", f32_value(100.0));
    data.make_snapshot();
    data.set_path("scene.some.deep.property", f32_value(101.0));
    data.make_snapshot();
    data.set_path("scene.some.deep.property", f32_value(102.0));
    let v2 = data.make_snapshot();

    data.go_to_snapshot_with_version(v1);
    assert_eq!(as_f32(&data.get_path("scene.some.deep.property")), 123.4);
    data.go_to_snapshot_with_version(v2);
    assert_eq!(as_f32(&data.get_path("scene.some.deep.property")), 102.0);
}

use scene_graph::base::{Base, BaseBuilder, ResourceId};
use scene_graph::handle::Handle;
use scene_graph::lod::{LevelOfDetail, LodGroup};
use scene_graph::node::Node;
use scene_graph::transform::{Matrix4, Transform, Vector3, ONE};

fn group(objects: Vec<Handle>) -> LodGroup {
    LodGroup::new(vec![LevelOfDetail::new(0, 1_000_000, objects)])
}

#[test]
fn the_default_node_is_visible_unbiased_childless_and_lives_on() {
    let base = BaseBuilder::new().build();
    assert!(base.visibility());
    assert_eq!(base.depth_offset_factor(), 0);
    assert_eq!(base.children().len(), 0);
    assert_eq!(base.lifetime(), None);
    assert_eq!(base.name(), "");
    assert_eq!(base.local_transform(), &Transform::identity());
    assert!(base.lod_group().is_none());
    assert!(base.parent().is_none());
    assert!(base.global_visibility());
    assert_eq!(base.global_transform(), Matrix4::identity());
    assert_eq!(base.inv_bind_pose_transform(), Matrix4::identity());
    assert_eq!(base.resource(), None);
    assert!(base.original_handle().is_none());
    assert!(!base.is_resource_instance());
    assert_eq!(Base::default(), base);
}

#[test]
fn the_builder_sets_what_it_is_told() {
    let mut transform = Transform::identity();
    transform.position = Vector3 { x: ONE, y: 0, z: 0 };
    let kids = vec![Handle::new(3, 1), Handle::new(4, 2)];
    let base = BaseBuilder::new()
        .with_name("lamp")
        .with_visibility(false)
        .with_local_transform(transform)
        .with_children(kids.clone())
        .with_lifetime(2_500_000)
        .with_depth_offset(-400_000)
        .with_lod_group(group(vec![Handle::new(9, 1)]))
        .build();
    assert_eq!(base.name(), "lamp");
    assert!(!base.visibility());
    assert_eq!(base.local_transform(), &transform);
    assert_eq!(base.children(), kids.as_slice());
    assert_eq!(base.lifetime(), Some(2_500_000));
    assert_eq!(base.depth_offset_factor(), 400_000);
    assert_eq!(base.lod_group().unwrap().levels.len(), 1);
    assert!(base.parent().is_none());
    assert!(base.global_visibility());
    assert_eq!(base.global_transform(), Matrix4::identity());
}

#[test]
fn the_builder_clamps_the_depth_offset() {
    assert_eq!(BaseBuilder::new().with_depth_offset(7_000_000).build().depth_offset_factor(), 1_000_000);
    assert_eq!(BaseBuilder::new().with_depth_offset(i64::MIN).build().depth_offset_factor(), 1_000_000);
    assert_eq!(BaseBuilder::default().with_depth_offset(0).build().depth_offset_factor(), 0);
}

#[test]
fn build_node_wraps_the_base() {
    let node = BaseBuilder::new().with_name("n").build_node();
    let Node::Base(base) = &node;
    assert_eq!(base.name(), "n");
    assert_eq!(node.base().name(), "n");
}

#[test]
fn setters_change_one_thing_each() {
    let mut base = BaseBuilder::new().with_name("a").build();
    base.set_name("b").set_visibility(false).set_lifetime(10);
    assert_eq!(base.name(), "b");
    assert!(!base.visibility());
    assert_eq!(base.lifetime(), Some(10));
    let mut transform = Transform::identity();
    transform.scale = Vector3 { x: 0, y: ONE, z: ONE };
    base.set_local_transform(transform);
    assert_eq!(base.local_transform(), &transform);
    base.local_transform_mut().position.x = ONE;
    assert_eq!(base.local_transform().position.x, ONE);
    assert_eq!(base.local_transform().scale, transform.scale);
    assert_eq!(base.name(), "b");
    let mut pose = Matrix4::identity();
    pose.cells[12] = ONE;
    base.set_inv_bind_pose_transform(pose);
    assert_eq!(base.inv_bind_pose_transform(), pose);
}

#[test]
fn the_depth_offset_is_the_clamped_magnitude() {
    let mut base = Base::default();
    base.set_depth_offset_factor(-300_000);
    assert_eq!(base.depth_offset_factor(), 300_000);
    base.set_depth_offset_factor(1_500_000);
    assert_eq!(base.depth_offset_factor(), 1_000_000);
    base.set_depth_offset_factor(-1_500_000);
    assert_eq!(base.depth_offset_factor(), 1_000_000);
    base.set_depth_offset_factor(i64::MIN);
    assert_eq!(base.depth_offset_factor(), 1_000_000);
    base.set_depth_offset_factor(0);
    assert_eq!(base.depth_offset_factor(), 0);
}

#[test]
fn set_lod_group_swaps() {
    let mut base = Base::default();
    assert!(base.set_lod_group(group(vec![Handle::new(1, 1)])).is_none());
    let previous = base.set_lod_group(group(vec![Handle::new(2, 1)])).unwrap();
    assert_eq!(previous.levels[0].objects(), &vec![Handle::new(1, 1)]);
    assert_eq!(base.lod_group().unwrap().levels[0].objects(), &vec![Handle::new(2, 1)]);
    base.lod_group_mut().unwrap().levels[0].set_end(500_000);
    assert_eq!(base.lod_group().unwrap().levels[0].end(), 500_000);
    assert!(Base::default().lod_group_mut().is_none());
}

#[test]
fn raw_copy_takes_the_authored_fields_and_resets_the_rest() {
    let mut transform = Transform::identity();
    transform.position = Vector3 { x: 1, y: 2, z: 3 };
    let mut pose = Matrix4::identity();
    pose.cells[13] = 77;
    let mut base = BaseBuilder::new()
        .with_name("bone")
        .with_visibility(false)
        .with_local_transform(transform)
        .with_children(vec![Handle::new(3, 1)])
        .with_lifetime(42)
        .with_depth_offset(500_000)
        .with_lod_group(group(vec![Handle::new(9, 1)]))
        .build();
    base.set_inv_bind_pose_transform(pose);
    let copy = base.raw_copy();
    assert_eq!(copy.name(), "bone");
    assert!(!copy.visibility());
    assert_eq!(copy.local_transform(), &transform);
    assert_eq!(copy.inv_bind_pose_transform(), pose);
    assert_eq!(copy.lifetime(), Some(42));
    assert_eq!(copy.resource(), base.resource());
    assert_eq!(copy.is_resource_instance(), base.is_resource_instance());
    assert!(copy.parent().is_none());
    assert_eq!(copy.children().len(), 0);
    assert!(copy.lod_group().is_none());
    assert_eq!(copy.depth_offset_factor(), 0);
    assert!(copy.original_handle().is_none());
    assert!(copy.global_visibility());
    assert_eq!(copy.global_transform(), Matrix4::identity());
    assert_eq!(ResourceId(5), ResourceId(5));
}

#[test]
fn basis_vectors_come_from_the_global_transform() {
    let base = Base::default();
    assert_eq!(base.global_position(), Vector3 { x: 0, y: 0, z: 0 });
    assert_eq!(base.side_vector(), Vector3 { x: ONE, y: 0, z: 0 });
    assert_eq!(base.up_vector(), Vector3 { x: 0, y: ONE, z: 0 });
    assert_eq!(base.look_vector(), Vector3 { x: 0, y: 0, z: ONE });
}

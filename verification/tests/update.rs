use scene_graph::base::BaseBuilder;
use scene_graph::graph::Graph;
use scene_graph::lod::{LevelOfDetail, LodGroup};
use scene_graph::transform::{Matrix4, Transform, Vector3};

fn translate(parent: Matrix4, local: Transform) -> Matrix4 {
    let mut m = parent;
    let add = |a: u32, b: u32| (f32::from_bits(a) + f32::from_bits(b)).to_bits();
    m.cells[12] = add(parent.cells[12], local.position.x);
    m.cells[13] = add(parent.cells[13], local.position.y);
    m.cells[14] = add(parent.cells[14], local.position.z);
    m
}

fn at(x: f32, y: f32, z: f32) -> Transform {
    let mut t = Transform::identity();
    t.position = Vector3 { x: x.to_bits(), y: y.to_bits(), z: z.to_bits() };
    t
}

#[test]
fn global_visibility_follows_the_ancestors() {
    let mut graph = Graph::new();
    let a = graph.add_node(BaseBuilder::new().with_visibility(false).build_node());
    let b = graph.add_node(BaseBuilder::new().build_node());
    let c = graph.add_node(BaseBuilder::new().build_node());
    let d = graph.add_node(BaseBuilder::new().build_node());
    assert!(graph.link_nodes(b, a));
    assert!(graph.link_nodes(c, b));
    assert_eq!(graph.update(0, translate), 0);
    assert!(graph.get(graph.root()).unwrap().base().global_visibility());
    assert!(!graph.get(a).unwrap().base().global_visibility());
    assert!(!graph.get(b).unwrap().base().global_visibility());
    assert!(!graph.get(c).unwrap().base().global_visibility());
    assert!(graph.get(d).unwrap().base().global_visibility());
    assert!(graph.get(b).unwrap().base().visibility());

    graph.get_mut(a).unwrap().base_mut().set_visibility(true);
    graph.get_mut(b).unwrap().base_mut().set_visibility(false);
    graph.update(0, translate);
    assert!(graph.get(a).unwrap().base().global_visibility());
    assert!(!graph.get(b).unwrap().base().global_visibility());
    assert!(!graph.get(c).unwrap().base().global_visibility());
}

#[test]
fn global_transform_composes_down_the_tree() {
    let mut graph = Graph::new();
    let a = graph.add_node(BaseBuilder::new().with_local_transform(at(1.0, 2.0, 3.0)).build_node());
    let b = graph.add_node(BaseBuilder::new().with_local_transform(at(10.0, 20.0, 30.0)).build_node());
    assert!(graph.link_nodes(b, a));
    graph.update(0, translate);
    let root = graph.root();
    assert_eq!(graph.get(root).unwrap().base().global_transform(), Matrix4::identity());
    let pa = graph.get(a).unwrap().base().global_position();
    assert_eq!((f32::from_bits(pa.x), f32::from_bits(pa.y), f32::from_bits(pa.z)), (1.0, 2.0, 3.0));
    let pb = graph.get(b).unwrap().base().global_position();
    assert_eq!((f32::from_bits(pb.x), f32::from_bits(pb.y), f32::from_bits(pb.z)), (11.0, 22.0, 33.0));
}

#[test]
fn the_global_transform_of_the_root_is_its_local_transform() {
    let mut graph = Graph::new();
    let root = graph.root();
    graph.get_mut(root).unwrap().base_mut().set_local_transform(at(5.0, -1.0, 0.5));
    let a = graph.add_node(BaseBuilder::new().with_local_transform(at(1.0, 1.0, 1.0)).build_node());
    graph.update(0, translate);
    let expected = translate(Matrix4::identity(), at(5.0, -1.0, 0.5));
    assert_eq!(graph.get(root).unwrap().base().global_transform(), expected);
    let p = graph.get(root).unwrap().base().global_position();
    assert_eq!((f32::from_bits(p.x), f32::from_bits(p.y), f32::from_bits(p.z)), (5.0, -1.0, 0.5));
    let q = graph.get(a).unwrap().base().global_position();
    assert_eq!((f32::from_bits(q.x), f32::from_bits(q.y), f32::from_bits(q.z)), (6.0, 0.0, 1.5));
}

#[test]
fn a_lifetime_of_one_second_ends_with_the_tenth_tick_of_a_tenth() {
    let mut graph = Graph::new();
    let a = graph.add_node(BaseBuilder::new().with_lifetime(1_000_000).build_node());
    let child = graph.add_node(BaseBuilder::new().build_node());
    let other = graph.add_node(BaseBuilder::new().build_node());
    assert!(graph.link_nodes(child, a));
    for tick in 1..=9u64 {
        assert_eq!(graph.update(100_000, translate), 0);
        assert_eq!(graph.get(a).unwrap().base().lifetime(), Some(1_000_000 - tick * 100_000));
    }
    assert_eq!(graph.update(100_000, translate), 2);
    assert!(graph.get(a).is_none());
    assert!(graph.get(child).is_none());
    assert!(graph.get(other).is_some());
    assert_eq!(graph.get(graph.root()).unwrap().base().children(), &[other]);
    assert_eq!(graph.node_count(), 2);
}

#[test]
fn a_lifetime_that_overshoots_ends_too() {
    let mut graph = Graph::new();
    let a = graph.add_node(BaseBuilder::new().with_lifetime(250).build_node());
    assert_eq!(graph.update(100, translate), 0);
    assert_eq!(graph.update(100, translate), 0);
    assert_eq!(graph.get(a).unwrap().base().lifetime(), Some(50));
    assert_eq!(graph.update(100, translate), 1);
    assert!(!graph.is_valid_handle(a));
}

#[test]
fn the_root_outlives_its_lifetime() {
    let mut graph = Graph::new();
    let root = graph.root();
    graph.get_mut(root).unwrap().base_mut().set_lifetime(5);
    let a = graph.add_node(BaseBuilder::new().build_node());
    assert_eq!(graph.update(10, translate), 0);
    assert!(graph.is_valid_handle(root));
    assert!(graph.is_valid_handle(a));
    assert_eq!(graph.get(root).unwrap().base().lifetime(), Some(0));
    assert_eq!(graph.update(10, translate), 0);
    assert!(graph.is_valid_handle(a));
}

#[test]
fn lod_selection_shows_one_level_and_hides_the_others() {
    let mut graph = Graph::new();
    let a = graph.add_node(BaseBuilder::new().build_node());
    let b = graph.add_node(BaseBuilder::new().build_node());
    let group = LodGroup::new(vec![
        LevelOfDetail::new(0, 300_000, vec![a]),
        LevelOfDetail::new(300_000, 1_000_000, vec![b]),
    ]);
    let owner = graph.add_node(BaseBuilder::new().with_lod_group(group).build_node());
    let visible = |graph: &Graph, h| graph.get(h).unwrap().base().visibility();

    assert_eq!(graph.apply_lod(owner, 200_000), Some(0));
    assert!(visible(&graph, a));
    assert!(!visible(&graph, b));

    assert_eq!(graph.apply_lod(owner, 300_000), Some(1));
    assert!(!visible(&graph, a));
    assert!(visible(&graph, b));

    assert_eq!(graph.apply_lod(owner, 1_000_000), Some(1));
    assert!(!visible(&graph, a));
    assert!(visible(&graph, b));

    assert_eq!(graph.apply_lod(owner, 1_000_001), None);
    assert!(!visible(&graph, a));
    assert!(visible(&graph, b));
    assert_eq!(graph.apply_lod(a, 200_000), None);

    graph.update(0, translate);
    assert!(!graph.get(a).unwrap().base().global_visibility());
    assert!(graph.get(b).unwrap().base().global_visibility());
}

#[test]
fn an_object_of_the_selected_level_is_shown_though_listed_elsewhere() {
    let mut graph = Graph::new();
    let a = graph.add_node(BaseBuilder::new().with_visibility(false).build_node());
    let b = graph.add_node(BaseBuilder::new().build_node());
    let stale = graph.add_node(BaseBuilder::new().build_node());
    graph.remove_node(stale);
    let group = LodGroup::new(vec![
        LevelOfDetail::new(0, 500_000, vec![a, stale]),
        LevelOfDetail::new(500_000, 1_000_000, vec![a, b]),
    ]);
    let owner = graph.add_node(BaseBuilder::new().with_lod_group(group).build_node());
    assert_eq!(graph.apply_lod(owner, 100_000), Some(0));
    assert!(graph.get(a).unwrap().base().visibility());
    assert!(!graph.get(b).unwrap().base().visibility());
    assert!(graph.get(owner).unwrap().base().visibility());
    assert_eq!(graph.apply_lod(owner, 700_000), Some(1));
    assert!(graph.get(a).unwrap().base().visibility());
    assert!(graph.get(b).unwrap().base().visibility());
}

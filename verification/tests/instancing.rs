use scene_graph::base::{BaseBuilder, ResourceId};
use scene_graph::flatten::RenderItem;
use scene_graph::graph::Graph;
use scene_graph::handle::Handle;
use scene_graph::instancing::Instantiation;
use scene_graph::lod::{LevelOfDetail, LodGroup};
use scene_graph::transform::{Matrix4, Transform, Vector3};

fn model() -> (Graph, Vec<Handle>) {
    let mut graph = Graph::new();
    let mut t = Transform::identity();
    t.position = Vector3 { x: 11, y: 12, z: 13 };
    let body = graph.add_node(
        BaseBuilder::new().with_name("body").with_local_transform(t).with_lifetime(9).build_node(),
    );
    let arm = graph.add_node(BaseBuilder::new().with_name("arm").with_visibility(false).build_node());
    let leg = graph.add_node(
        BaseBuilder::new()
            .with_name("leg")
            .with_depth_offset(5)
            .with_lod_group(LodGroup::new(vec![LevelOfDetail::new(0, 1, vec![body])]))
            .build_node(),
    );
    let hand = graph.add_node(BaseBuilder::new().with_name("hand").build_node());
    graph.link_nodes(arm, body);
    graph.link_nodes(leg, body);
    graph.link_nodes(hand, arm);
    (graph, vec![body, arm, leg, hand])
}

#[test]
fn an_instance_mirrors_the_resource() {
    let (source, parts) = model();
    let (body, arm, leg, hand) = (parts[0], parts[1], parts[2], parts[3]);
    let mut scene = Graph::new();
    let other = scene.add_node(BaseBuilder::new().with_name("other").build_node());
    let resource = ResourceId(42);

    let made = scene.instantiate(&source, resource).unwrap();
    assert_eq!(made.originals, vec![source.root(), body, arm, leg, hand]);
    assert_eq!(made.instances.len(), 5);
    assert_eq!(scene.node_count(), 2 + 5);
    assert_eq!(source.node_count(), 5);

    let top = made.root();
    assert_eq!(top, made.instances[0]);
    assert_eq!(scene.get(scene.root()).unwrap().base().children(), &[other, top]);
    assert_eq!(scene.get(top).unwrap().base().parent(), scene.root());
    assert!(scene.get(top).unwrap().base().is_resource_instance());

    for (i, original) in made.originals.iter().enumerate() {
        let copy = scene.get(made.instances[i]).unwrap().base();
        let was = source.get(*original).unwrap().base();
        assert_eq!(copy.name(), was.name());
        assert_eq!(copy.local_transform(), was.local_transform());
        assert_eq!(copy.visibility(), was.visibility());
        assert_eq!(copy.lifetime(), was.lifetime());
        assert_eq!(copy.resource(), Some(resource));
        assert_eq!(copy.original_handle(), *original);
        assert_eq!(copy.is_resource_instance(), i == 0);
        assert_eq!(copy.depth_offset_factor(), 0);
        assert!(copy.lod_group().is_none());
        let kids: Vec<Handle> = was.children().iter().map(|c| made.instance_of(*c)).collect();
        assert_eq!(copy.children(), kids.as_slice());
        if i > 0 {
            assert_eq!(copy.parent(), made.instance_of(was.parent()));
        }
    }
    assert_eq!(made.instance_of(hand), made.instances[4]);
    assert!(made.instance_of(Handle::new(99, 1)).is_none());
    assert_eq!(source.get(leg).unwrap().base().depth_offset_factor(), 5);
}

#[test]
fn a_resource_can_be_instantiated_twice() {
    let (source, _) = model();
    let mut scene = Graph::new();
    let first = scene.instantiate(&source, ResourceId(1)).unwrap();
    let second = scene.instantiate(&source, ResourceId(1)).unwrap();
    assert_eq!(scene.node_count(), 1 + 5 + 5);
    for h in first.instances.iter() {
        assert!(!second.instances.contains(h));
    }
    assert_eq!(
        scene.get(scene.root()).unwrap().base().children(),
        &[first.root(), second.root()]
    );
    assert_eq!(scene.remove_node(first.root()), 5);
    assert_eq!(scene.node_count(), 6);
    assert!(scene.is_valid_handle(second.instances[4]));
}

#[test]
fn an_empty_instantiation_has_no_root() {
    let made = Instantiation { originals: vec![], instances: vec![] };
    assert!(made.root().is_none());
    assert!(made.instance_of(Handle::new(1, 1)).is_none());
}

#[test]
fn add_child_puts_a_node_under_a_parent() {
    let mut graph = Graph::new();
    let a = graph.add_child(graph.root(), BaseBuilder::new().build_node());
    let b = graph.add_child(a, BaseBuilder::new().with_children(vec![a]).build_node());
    assert_eq!(graph.get(a).unwrap().base().children(), &[b]);
    assert_eq!(graph.get(b).unwrap().base().parent(), a);
    assert_eq!(graph.get(b).unwrap().base().children().len(), 0);
    let none = graph.add_child(Handle::new(9, 9), BaseBuilder::new().build_node());
    assert!(none.is_none());
    assert_eq!(graph.node_count(), 3);
    assert_eq!(graph.slots(), 3);
}

#[test]
fn the_flat_list_tells_of_every_node() {
    let mut graph = Graph::new();
    let a = graph.add_node(BaseBuilder::new().with_visibility(false).with_depth_offset(7).build_node());
    let b = graph.add_node(BaseBuilder::new().build_node());
    graph.link_nodes(b, a);
    let shift = |mut m: Matrix4, t: Transform| {
        m.cells[12] = m.cells[12].wrapping_add(t.scale.x);
        m
    };
    graph.update(0, shift);
    let items = graph.flatten();
    assert_eq!(items.len(), 3);
    assert_eq!(items[0].handle, graph.root());
    assert_eq!(
        items[1],
        RenderItem {
            handle: a,
            global_transform: graph.get(a).unwrap().base().global_transform(),
            global_visibility: false,
            depth_offset: 7,
        }
    );
    assert_eq!(items[2].handle, b);
    assert!(!items[2].global_visibility);
    assert_ne!(items[2].global_transform, items[1].global_transform);
}

#[test]
fn restoring_places_nodes_under_their_handles() {
    let root = Handle::new(3, 2);
    let mut graph = Graph::restore_root(root, BaseBuilder::new().with_name("r").build_node()).unwrap();
    assert_eq!(graph.root(), root);
    assert_eq!(graph.node_count(), 1);
    let a = Handle::new(0, 5);
    assert!(graph.restore_node(a, BaseBuilder::new().build_node(), root));
    assert!(!graph.restore_node(Handle::new(0, 6), BaseBuilder::new().build_node(), root));
    assert!(!graph.restore_node(Handle::new(1, 0), BaseBuilder::new().build_node(), root));
    assert!(!graph.restore_node(Handle::new(1, 1), BaseBuilder::new().build_node(), Handle::new(8, 1)));
    assert!(!graph.restore_node(Handle::new(u32::MAX, 1), BaseBuilder::new().build_node(), root));
    assert_eq!(graph.get(root).unwrap().base().children(), &[a]);
    assert_eq!(graph.get(a).unwrap().base().parent(), root);
    assert!(Graph::restore_root(Handle::none(), BaseBuilder::new().build_node()).is_none());
    let fresh = graph.add_node(BaseBuilder::new().build_node());
    assert!(fresh.index() == 1 || fresh.index() == 2);
    assert!(graph.is_valid_handle(fresh));
    assert_eq!(graph.node_count(), 3);
}

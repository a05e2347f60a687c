use scene_graph::base::BaseBuilder;
use scene_graph::graph::Graph;
use scene_graph::handle::Handle;

#[test]
fn new_graph_holds_only_its_root() {
    let graph = Graph::new();
    assert_eq!(graph.node_count(), 1);
    let root = graph.root();
    assert!(root.is_some());
    assert!(graph.is_valid_handle(root));
    let node = graph.get(root).unwrap();
    assert!(node.base().parent().is_none());
    assert_eq!(node.base().children().len(), 0);
}

#[test]
fn added_nodes_hang_under_the_root() {
    let mut graph = Graph::new();
    let a = graph.add_node(BaseBuilder::new().with_name("a").build_node());
    let b = graph.add_node(BaseBuilder::new().with_name("b").build_node());
    assert_eq!(graph.node_count(), 3);
    let root = graph.root();
    assert_eq!(graph.get(root).unwrap().base().children(), &[a, b]);
    assert_eq!(graph.get(a).unwrap().base().parent(), root);
    assert_eq!(graph.get(b).unwrap().base().name(), "b");
}

#[test]
fn removing_a_node_removes_its_descendants() {
    let mut graph = Graph::new();
    let a = graph.add_node(BaseBuilder::new().build_node());
    let b = graph.add_node(BaseBuilder::new().build_node());
    let c = graph.add_node(BaseBuilder::new().build_node());
    let d = graph.add_node(BaseBuilder::new().build_node());
    assert!(graph.link_nodes(b, a));
    assert!(graph.link_nodes(c, b));
    assert_eq!(graph.traverse(a), vec![a, b, c]);
    assert_eq!(graph.remove_node(a), 3);
    assert!(graph.get(a).is_none());
    assert!(graph.get(b).is_none());
    assert!(graph.get(c).is_none());
    assert!(graph.get(d).is_some());
    assert_eq!(graph.node_count(), 2);
    assert_eq!(graph.get(graph.root()).unwrap().base().children(), &[d]);
    assert_eq!(graph.remove_node(a), 0);
    assert_eq!(graph.remove_node(Handle::none()), 0);
}

#[test]
fn the_root_cannot_be_removed() {
    let mut graph = Graph::new();
    let root = graph.root();
    assert_eq!(graph.remove_node(root), 0);
    assert!(graph.is_valid_handle(root));
}

#[test]
fn a_stale_handle_does_not_alias_a_new_node() {
    let mut graph = Graph::new();
    let a = graph.add_node(BaseBuilder::new().with_name("old").build_node());
    graph.remove_node(a);
    let b = graph.add_node(BaseBuilder::new().with_name("new").build_node());
    assert_eq!(a.index(), b.index());
    assert_ne!(a.generation(), b.generation());
    assert!(graph.get(a).is_none());
    assert_eq!(graph.get(b).unwrap().base().name(), "new");
}

#[test]
fn linking_refuses_circles() {
    let mut graph = Graph::new();
    let root = graph.root();
    let a = graph.add_node(BaseBuilder::new().build_node());
    let b = graph.add_node(BaseBuilder::new().build_node());
    assert!(graph.link_nodes(b, a));
    assert!(!graph.link_nodes(a, b));
    assert!(!graph.link_nodes(a, a));
    assert!(!graph.link_nodes(root, a));
    assert!(!graph.link_nodes(a, Handle::none()));
    assert_eq!(graph.get(b).unwrap().base().parent(), a);
    assert_eq!(graph.get(a).unwrap().base().parent(), root);
    assert!(graph.link_nodes(b, root));
    assert_eq!(graph.get(root).unwrap().base().children(), &[a, b]);
    assert_eq!(graph.get(a).unwrap().base().children().len(), 0);
}

#[test]
fn children_named_by_the_builder_are_adopted() {
    let mut graph = Graph::new();
    let a = graph.add_node(BaseBuilder::new().build_node());
    let b = graph.add_node(BaseBuilder::new().build_node());
    let stale = graph.add_node(BaseBuilder::new().build_node());
    graph.remove_node(stale);
    let p = graph.add_node(BaseBuilder::new().with_children(vec![b, stale, a]).build_node());
    assert_eq!(graph.get(p).unwrap().base().children(), &[b, a]);
    assert_eq!(graph.get(a).unwrap().base().parent(), p);
    assert_eq!(graph.get(b).unwrap().base().parent(), p);
    assert_eq!(graph.get(graph.root()).unwrap().base().children(), &[p]);
}

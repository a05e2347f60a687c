use scene_graph::base::{Base, BaseBuilder};
use scene_graph::graph::Graph;
use scene_graph::handle::Handle;
use scene_graph::lod::{LevelOfDetail, LodGroup};
use scene_graph::node::Node;
use scene_graph::persist::{load_handles, load_optional, save_handles, save_optional};
use scene_graph::stream::{DecodeError, DecodeErrorKind, Key, Token, Value};
use scene_graph::transform::{Matrix4, Transform, Vector3, ONE};

fn h(i: u32) -> Handle {
    Handle::new(i, 1)
}

fn sample_group() -> LodGroup {
    LodGroup::new(vec![
        LevelOfDetail::new(0, 300_000, vec![h(1), h(2)]),
        LevelOfDetail::new(300_000, 1_000_000, vec![h(3)]),
    ])
}

fn sample_base() -> Base {
    let mut transform = Transform::identity();
    transform.position = Vector3 { x: 7, y: 8, z: 9 };
    BaseBuilder::new()
        .with_name("crate \u{1F4E6}")
        .with_visibility(false)
        .with_local_transform(transform)
        .with_children(vec![h(4), h(5)])
        .with_lifetime(123)
        .with_depth_offset(250_000)
        .with_lod_group(sample_group())
        .build()
}

#[test]
fn a_list_of_handles_is_written_with_its_length() {
    let mut out = Vec::new();
    save_handles(&[h(1), Handle::new(2, 7)], Key::Objects, &mut out);
    assert_eq!(
        out,
        vec![
            Token::Enter(Key::Objects),
            Token::Field(Key::Length, Value::U64(2)),
            Token::Field(Key::Item, Value::Handle(h(1))),
            Token::Field(Key::Item, Value::Handle(Handle::new(2, 7))),
            Token::Leave,
        ]
    );
    assert_eq!(load_handles(&out, 0, Key::Objects), Ok((vec![h(1), Handle::new(2, 7)], 5)));
}

#[test]
fn an_optional_number_is_written_behind_a_flag() {
    let mut out = Vec::new();
    save_optional(Some(9), Key::HasLifetime, Key::Lifetime, &mut out);
    save_optional(None, Key::HasLifetime, Key::Lifetime, &mut out);
    assert_eq!(out.len(), 3);
    assert_eq!(load_optional(&out, 0, Key::HasLifetime, Key::Lifetime), Ok((Some(9), 2)));
    assert_eq!(load_optional(&out, 2, Key::HasLifetime, Key::Lifetime), Ok((None, 3)));
}

#[test]
fn a_level_round_trips() {
    let level = LevelOfDetail::new(100_000, 900_000, vec![h(1), h(2)]);
    let mut out = vec![Token::Leave];
    level.save(Key::Item, &mut out);
    out.push(Token::Leave);
    let (read, next) = LevelOfDetail::load(&out, 1, Key::Item).unwrap();
    assert_eq!(read, level);
    assert_eq!(next, out.len() - 1);
}

#[test]
fn a_group_round_trips() {
    let group = sample_group();
    let mut out = Vec::new();
    group.save(Key::LodGroup, &mut out);
    let (read, next) = LodGroup::load(&out, 0, Key::LodGroup).unwrap();
    assert_eq!(read, group);
    assert_eq!(next, out.len());
    let empty = LodGroup::default();
    let mut out = Vec::new();
    empty.save(Key::LodGroup, &mut out);
    assert_eq!(LodGroup::load(&out, 0, Key::LodGroup).unwrap().0, empty);
}

#[test]
fn a_transform_round_trips() {
    let mut t = Transform::identity();
    t.rotation.j = 0xDEAD_BEEF;
    t.scale.z = 42;
    let mut out = Vec::new();
    t.save(Key::Transform, &mut out);
    assert_eq!(out.len(), 12);
    assert_eq!(Transform::load(&out, 0, Key::Transform), Ok(t));
}

#[test]
fn a_base_round_trips_in_what_is_persisted() {
    let mut base = sample_base();
    let mut pose = Matrix4::identity();
    pose.cells[3] = ONE;
    base.set_inv_bind_pose_transform(pose);
    let mut out = Vec::new();
    base.save(Key::Base, &mut out);
    let (read, next) = Base::load(&out, 0, Key::Base).unwrap();
    assert_eq!(next, out.len());
    assert_eq!(read.name(), base.name());
    assert_eq!(read.visibility(), base.visibility());
    assert_eq!(read.local_transform(), base.local_transform());
    assert_eq!(read.children(), base.children());
    assert_eq!(read.parent(), base.parent());
    assert_eq!(read.lifetime(), base.lifetime());
    assert_eq!(read.depth_offset_factor(), base.depth_offset_factor());
    assert_eq!(read.lod_group(), base.lod_group());
    assert_eq!(read.resource(), base.resource());
    assert_eq!(read.original_handle(), base.original_handle());
    assert_eq!(read.is_resource_instance(), base.is_resource_instance());
    assert_eq!(read.inv_bind_pose_transform(), Matrix4::identity());
    assert!(read.global_visibility());
    assert_eq!(read.global_transform(), Matrix4::identity());
}

#[test]
fn a_base_without_group_ends_after_the_depth_offset() {
    let base = BaseBuilder::new().with_name("plain").build();
    let mut out = Vec::new();
    base.save(Key::Base, &mut out);
    assert_eq!(out[out.len() - 2], Token::Field(Key::DepthOffset, Value::I64(0)));
    let (read, _) = Base::load(&out, 0, Key::Base).unwrap();
    assert_eq!(read, base);
}

#[test]
fn a_node_is_written_with_its_kind() {
    let node = sample_base();
    let node = Node::Base(node);
    let mut out = Vec::new();
    node.save(Key::Node, &mut out);
    assert_eq!(out[0], Token::Enter(Key::Node));
    assert_eq!(out[1], Token::Field(Key::Kind, Value::U32(0)));
    let (read, next) = Node::load(&out, 0, Key::Node).unwrap();
    assert_eq!(read, node);
    assert_eq!(next, out.len());
}

#[test]
fn an_unknown_kind_of_node_is_refused() {
    let mut out = Vec::new();
    Node::Base(Base::default()).save(Key::Node, &mut out);
    out[1] = Token::Field(Key::Kind, Value::U32(9));
    assert_eq!(
        Node::load(&out, 0, Key::Node),
        Err(DecodeError { at: 1, kind: DecodeErrorKind::UnknownNodeKind })
    );
}

#[test]
fn damaged_streams_are_refused_where_they_are_damaged() {
    let level = LevelOfDetail::new(0, 1, vec![h(1)]);
    let mut out = Vec::new();
    level.save(Key::Item, &mut out);
    let whole = out.clone();

    assert_eq!(
        LevelOfDetail::load(&out, 0, Key::Objects),
        Err(DecodeError { at: 0, kind: DecodeErrorKind::UnexpectedToken })
    );
    out.truncate(4);
    assert_eq!(
        LevelOfDetail::load(&out, 0, Key::Item),
        Err(DecodeError { at: 4, kind: DecodeErrorKind::UnexpectedEnd })
    );
    let mut out = whole.clone();
    out[1] = Token::Field(Key::Begin, Value::U64(0));
    assert_eq!(
        LevelOfDetail::load(&out, 0, Key::Item),
        Err(DecodeError { at: 1, kind: DecodeErrorKind::UnexpectedToken })
    );
    let mut out = whole.clone();
    out[2] = Token::Field(Key::Begin, Value::I64(0));
    assert_eq!(
        LevelOfDetail::load(&out, 0, Key::Item),
        Err(DecodeError { at: 2, kind: DecodeErrorKind::UnexpectedToken })
    );
    let mut out = whole.clone();
    out[5] = Token::Field(Key::Item, Value::Handle(Handle::none()));
    assert_eq!(
        LevelOfDetail::load(&out, 0, Key::Item),
        Err(DecodeError { at: 3, kind: DecodeErrorKind::InvalidValue })
    );
    let mut out = whole.clone();
    out[4] = Token::Field(Key::Length, Value::U64(2));
    assert_eq!(
        LevelOfDetail::load(&out, 0, Key::Item),
        Err(DecodeError { at: 6, kind: DecodeErrorKind::UnexpectedToken })
    );
    assert_eq!(
        LevelOfDetail::load(&whole, 99, Key::Item),
        Err(DecodeError { at: 99, kind: DecodeErrorKind::UnexpectedEnd })
    );
}

#[test]
fn out_of_range_numbers_are_taken_as_the_setters_take_them() {
    let level = LevelOfDetail::new(0, 1, vec![h(1)]);
    let mut out = Vec::new();
    level.save(Key::Item, &mut out);
    out[1] = Token::Field(Key::Begin, Value::I64(5_000_000));
    out[2] = Token::Field(Key::End, Value::I64(-3));
    let (read, _) = LevelOfDetail::load(&out, 0, Key::Item).unwrap();
    assert_eq!((read.begin(), read.end()), (0, 1_000_000));

    let mut out = Vec::new();
    Base::default().save(Key::Base, &mut out);
    let at = out.len() - 2;
    out[at] = Token::Field(Key::DepthOffset, Value::I64(-2_000_000));
    let (read, _) = Base::load(&out, 0, Key::Base).unwrap();
    assert_eq!(read.depth_offset_factor(), 1_000_000);
}

fn sample_graph() -> (Graph, Vec<Handle>) {
    let mut graph = Graph::new();
    let a = graph.add_node(BaseBuilder::new().with_name("a").with_lifetime(5).build_node());
    let b = graph.add_node(BaseBuilder::new().with_name("b").with_visibility(false).build_node());
    let c = graph.add_node(BaseBuilder::new().with_name("c").build_node());
    let d = graph.add_node(BaseBuilder::new().with_name("d").build_node());
    let gone = graph.add_node(BaseBuilder::new().with_name("gone").build_node());
    let e = graph.add_node(BaseBuilder::new().with_name("e").with_depth_offset(10).build_node());
    graph.link_nodes(c, a);
    graph.link_nodes(d, a);
    graph.link_nodes(e, d);
    graph.remove_node(gone);
    let f = graph.add_node(
        BaseBuilder::new().with_name("f").with_lod_group(LodGroup::new(vec![
            LevelOfDetail::new(0, 500_000, vec![c]),
            LevelOfDetail::new(500_000, 1_000_000, vec![d, e]),
        ])).build_node(),
    );
    graph.link_nodes(f, b);
    (graph, vec![a, b, c, d, e, f])
}

#[test]
fn a_graph_round_trips_with_its_handles() {
    let (graph, handles) = sample_graph();
    let mut out = vec![Token::Leave];
    graph.save(Key::Graph, &mut out);
    out.push(Token::Field(Key::Name, Value::Bool(true)));
    let (read, next) = Graph::load(&out, 1, Key::Graph).unwrap();
    assert_eq!(next, out.len() - 1);
    assert_eq!(read.node_count(), graph.node_count());
    assert_eq!(read.root(), graph.root());
    let mut all = handles.clone();
    all.push(graph.root());
    for h in all {
        let was = graph.get(h).unwrap().base();
        let now = read.get(h).unwrap().base();
        assert_eq!(now.name(), was.name());
        assert_eq!(now.parent(), was.parent());
        assert_eq!(now.children(), was.children());
        assert_eq!(now.visibility(), was.visibility());
        assert_eq!(now.lifetime(), was.lifetime());
        assert_eq!(now.depth_offset_factor(), was.depth_offset_factor());
        assert_eq!(now.lod_group(), was.lod_group());
        assert_eq!(now.local_transform(), was.local_transform());
    }
    assert_eq!(read.traverse(read.root()), graph.traverse(graph.root()));
}

#[test]
fn a_restored_graph_goes_on_working() {
    let (graph, handles) = sample_graph();
    let mut out = Vec::new();
    graph.save(Key::Graph, &mut out);
    let (mut read, _) = Graph::load(&out, 0, Key::Graph).unwrap();
    let n = read.add_node(BaseBuilder::new().with_name("new").build_node());
    assert!(read.is_valid_handle(n));
    assert!(!handles.contains(&n));
    assert_eq!(read.remove_node(handles[0]), 4);
    assert_eq!(read.node_count(), graph.node_count() + 1 - 4);
    let step = |m: Matrix4, _t: Transform| m;
    assert_eq!(read.update(1_000, step), 0);
}

#[test]
fn a_graph_of_no_node_is_refused() {
    let out = vec![
        Token::Enter(Key::Graph),
        Token::Field(Key::Length, Value::U64(0)),
        Token::Leave,
    ];
    assert_eq!(
        Graph::load(&out, 0, Key::Graph).err(),
        Some(DecodeError { at: 2, kind: DecodeErrorKind::InvalidValue })
    );
}

#[test]
fn a_node_under_an_unknown_parent_is_refused() {
    let mut graph = Graph::new();
    let a = graph.add_node(BaseBuilder::new().build_node());
    let mut out = Vec::new();
    graph.save(Key::Graph, &mut out);
    let place = out
        .iter()
        .position(|t| *t == Token::Field(Key::Handle, Value::Handle(a)))
        .unwrap();
    let parent = out[place..]
        .iter()
        .position(|t| matches!(t, Token::Field(Key::Parent, _)))
        .unwrap();
    out[place + parent] = Token::Field(Key::Parent, Value::Handle(Handle::new(77, 1)));
    assert_eq!(
        Graph::load(&out, 0, Key::Graph).err(),
        Some(DecodeError { at: place, kind: DecodeErrorKind::InvalidValue })
    );
}

#[test]
fn two_nodes_under_one_index_are_refused() {
    let mut graph = Graph::new();
    let a = graph.add_node(BaseBuilder::new().build_node());
    let b = graph.add_node(BaseBuilder::new().build_node());
    let mut out = Vec::new();
    graph.save(Key::Graph, &mut out);
    let place = out
        .iter()
        .position(|t| *t == Token::Field(Key::Handle, Value::Handle(b)))
        .unwrap();
    out[place] = Token::Field(Key::Handle, Value::Handle(Handle::new(a.index(), 5)));
    assert_eq!(
        Graph::load(&out, 0, Key::Graph).err(),
        Some(DecodeError { at: place, kind: DecodeErrorKind::InvalidValue })
    );
    out[place] = Token::Field(Key::Handle, Value::Handle(Handle::none()));
    assert_eq!(
        Graph::load(&out, 0, Key::Graph).err(),
        Some(DecodeError { at: place, kind: DecodeErrorKind::InvalidValue })
    );
}

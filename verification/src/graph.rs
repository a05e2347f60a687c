//! The scene graph: the arena of nodes and the tree that their links form.

use crate::base::{Base, BaseView};
use crate::handle::Handle;
use crate::hierarchy::GraphView;
use crate::node::Node;
use crate::pool::HandlePool;
use crate::removal::{without, without_is_exact};
use crate::ticking::{aged, kept, kept_push};
use crate::transform::{Matrix4, Transform};
use crate::traversal::placed_before;
use vstd::prelude::*;

verus! {

/// A scene graph. It owns its nodes, keeps them in a rooted tree, and gives
/// each a handle that stays valid until the node is removed.
pub struct Graph {
    pool: HandlePool<Node>,
    root: Handle,
}

impl View for Graph {
    type V = GraphView;

    closed spec fn view(&self) -> GraphView {
        GraphView { nodes: self.pool@.map_values(|node: Node| node.spec_base()@), root: self.root }
    }
}

impl GraphView {
    /// Whether the state of every node is well formed.
    pub open spec fn nodes_wf(self) -> bool {
        forall|h: Handle| #![trigger self.nodes[h]] self.contains(h) ==> self.nodes[h].wf()
    }

    /// The graph after the state of node `h` was replaced by `state`.
    pub open spec fn after_edit(self, h: Handle, state: BaseView) -> GraphView {
        GraphView { nodes: self.nodes.insert(h, state), root: self.root }
    }

    /// Whether `state` is well formed and names the same parent and children
    /// as node `h` does.
    pub open spec fn keeps_links(self, h: Handle, state: BaseView) -> bool {
        &&& state.wf()
        &&& state.parent == self.nodes[h].parent
        &&& state.children == self.nodes[h].children
    }

    /// Replacing the state of a node by a well-formed one with the same links
    /// keeps the tree a tree and every node's state well formed.
    pub proof fn edit_keeps_tree(self, h: Handle, state: BaseView)
        requires
            self.is_tree(),
            self.nodes_wf(),
            self.contains(h),
            self.keeps_links(h, state),
        ensures
            self.after_edit(h, state).is_tree(),
            self.after_edit(h, state).nodes_wf(),
    {
        let after = self.after_edit(h, state);
        assert(after.nodes.dom() =~= self.nodes.dom());
        assert(self.same_links(after));
        self.same_links_same_tree(after);
        assert forall|x: Handle| #![trigger after.nodes[x]] after.contains(
            x,
        ) implies after.nodes[x].wf() by {
            if x != h {
                assert(self.nodes[x].wf());
            }
        }
    }

    /// The place of the level that the group of node `h` selects for
    /// `distance`, if `h` is a node with a group and a level of it holds the
    /// distance.
    pub open spec fn lod_choice(self, h: Handle, distance: int) -> Option<int> {
        if self.contains(h) && self.nodes[h].lod_group is Some {
            self.nodes[h].lod_group->0.selected(distance)
        } else {
            None
        }
    }

    /// The graph after a node of state `base` was added under handle `h`, as
    /// the last child of `parent` and without children of its own.
    pub open spec fn after_add_under(self, h: Handle, base: BaseView, parent: Handle) -> GraphView {
        GraphView {
            nodes: self.nodes.insert(
                parent,
                BaseView { children: self.children_of(parent).push(h), ..self.nodes[parent] },
            ).insert(h, BaseView { parent, children: Seq::<Handle>::empty(), ..base }),
            root: self.root,
        }
    }

    /// The graph after a node of state `base` was added under handle `h`, as
    /// the last child of the root and without children of its own.
    pub open spec fn after_add(self, h: Handle, base: BaseView) -> GraphView {
        self.after_add_under(h, base, self.root)
    }

    /// The graph that holds nothing but a root of state `base` under handle
    /// `h`.
    pub open spec fn lone_root(h: Handle, base: BaseView) -> GraphView {
        GraphView {
            nodes: Map::<Handle, BaseView>::empty().insert(
                h,
                BaseView { parent: Handle::spec_none(), children: Seq::<Handle>::empty(), ..base },
            ),
            root: h,
        }
    }

    /// Whether a node can be put under the handle `h` in a graph that was
    /// built by such puts alone: `h` is of a generation an arena gives out,
    /// its index is in range, and no node has a handle of the same index.
    pub open spec fn can_place(self, h: Handle) -> bool {
        &&& h.generation >= 1
        &&& h.index < u32::MAX
        &&& forall|x: Handle| self.contains(x) ==> x.index != h.index
    }

    /// Whether the handles of the nodes are as an arena gives them out: each
    /// of a generation from one on and with an index in range, and no two
    /// with the same index.
    pub open spec fn arena_like(self) -> bool {
        &&& forall|a: Handle|
            #![trigger self.contains(a)]
            self.contains(a) ==> a.generation >= 1 && a.index < u32::MAX
        &&& forall|a: Handle, b: Handle|
            #![trigger self.contains(a), self.contains(b)]
            self.contains(a) && self.contains(b) && a.index == b.index ==> a == b
    }

    /// A graph of a root alone is a tree.
    pub proof fn lone_root_is_tree(h: Handle, base: BaseView)
        requires
            h.spec_is_some(),
        ensures
            GraphView::lone_root(h, base).is_tree(),
            base.wf() ==> GraphView::lone_root(h, base).nodes_wf(),
    {
        let v = GraphView::lone_root(h, base);
        assert(v.nodes.dom() =~= set![h]);
        let depth = Map::<Handle, nat>::empty().insert(h, 0nat);
        assert(v.ranked_by(depth));
        assert(v.nodes[h].children.len() == 0);
        assert(v.links_ok());
    }

    /// Adding a node under a new handle keeps the tree a tree.
    pub proof fn add_keeps_tree(self, h: Handle, base: BaseView, parent: Handle)
        requires
            self.is_tree(),
            !self.contains(h),
            self.contains(parent),
            h.spec_is_some(),
        ensures
            self.after_add_under(h, base, parent).is_tree(),
            self.nodes_wf() && base.wf() ==> self.after_add_under(h, base, parent).nodes_wf(),
            self.after_add_under(h, base, parent).nodes.dom() == self.nodes.dom().insert(h),
    {
        let after = self.after_add_under(h, base, parent);
        let depth = self.depth();
        self.depth_is_rank();
        let depth_after = depth.insert(h, depth[parent] + 1);
        assert(after.nodes.dom() =~= self.nodes.dom().insert(h));
        assert(after.links_ok()) by {
            assert forall|x: Handle| #![trigger after.nodes[x]] after.contains(x) && x
                != after.root implies after.is_child(after.parent_of(x), x) by {
                if x == h {
                    assert(after.children_of(parent).last() == h);
                } else {
                    assert(self.is_child(self.parent_of(x), x));
                    let p = self.parent_of(x);
                    let i = choose|i: int|
                        0 <= i < self.children_of(p).len() && self.children_of(p)[i] == x;
                    assert(after.children_of(p)[i] == x);
                }
            }
            assert forall|x: Handle, c: Handle| #![trigger after.is_child(x, c)] after.is_child(
                x,
                c,
            ) implies after.contains(c) && after.parent_of(c) == x by {
                if x == h {
                } else if c == h {
                    let i = choose|i: int|
                        0 <= i < after.children_of(x).len() && after.children_of(x)[i] == c;
                    if x != parent {
                        assert(self.is_child(x, c));
                    } else if i < self.children_of(x).len() {
                        assert(self.children_of(x)[i] == c);
                        assert(self.is_child(x, c));
                    }
                } else {
                    let i = choose|i: int|
                        0 <= i < after.children_of(x).len() && after.children_of(x)[i] == c;
                    assert(self.children_of(x)[i] == c);
                    assert(self.is_child(x, c));
                }
            }
            assert forall|x: Handle| #![trigger after.nodes[x]] after.contains(
                x,
            ) implies after.children_of(x).no_duplicates() by {
                if x == parent {
                    assert(self.nodes[x].children.no_duplicates());
                    assert forall|i: int, j: int|
                        0 <= i < after.children_of(x).len() && 0 <= j < after.children_of(x).len()
                            && i != j implies after.children_of(x)[i] != after.children_of(
                        x,
                    )[j] by {
                        if i == self.children_of(x).len() {
                            assert(self.is_child(x, self.children_of(x)[j]));
                        } else if j == self.children_of(x).len() {
                            assert(self.is_child(x, self.children_of(x)[i]));
                        }
                    }
                } else if x != h {
                    assert(self.nodes[x].children.no_duplicates());
                }
            }
        }
        assert(after.ranked_by(depth_after)) by {
            assert forall|x: Handle| #![trigger depth_after[x]] after.contains(x) && x
                != after.root implies depth_after[x] == depth_after[after.parent_of(x)] + 1 by {
                if x != h {
                    assert(depth[x] == depth[self.parent_of(x)] + 1);
                    assert(self.is_child(self.parent_of(x), x));
                }
            }
        }
        if self.nodes_wf() && base.wf() {
            assert forall|x: Handle| #![trigger after.nodes[x]] after.contains(
                x,
            ) implies after.nodes[x].wf() by {
                if x != h {
                    assert(self.nodes[x].wf());
                }
            }
        }
    }
}

impl Graph {
    /// Whether the arena under the graph is in order.
    pub closed spec fn arena_wf(&self) -> bool {
        self.pool.wf()
    }

    /// The invariant of the graph: its nodes form a rooted tree and each
    /// node's state is well formed. `new` establishes it and every method
    /// keeps it.
    pub open spec fn wf(&self) -> bool {
        &&& self.arena_wf()
        &&& self@.is_tree()
        &&& self@.nodes_wf()
    }

    /// Whether one more node can be added.
    pub closed spec fn spec_has_room(&self) -> bool {
        self.pool.spec_has_room()
    }

    /// The number of slots of the arena, vacant or not. It never goes down,
    /// and goes up by at most one with each node added.
    pub closed spec fn slot_count(&self) -> nat {
        self.pool.slot_count()
    }

    /// While fewer slots exist than a handle's index can tell apart, there is
    /// room.
    pub proof fn room_below_limit(&self)
        requires
            self.slot_count() < u32::MAX,
        ensures
            self.spec_has_room(),
    {
        self.pool.room_below_limit();
    }

    /// Whether the arena under the graph is as new: nothing was removed from
    /// it.
    pub closed spec fn is_pristine(&self) -> bool {
        self.pool.is_pristine()
    }

    /// The index of the handle of a node is the place of a slot.
    pub proof fn index_is_a_slot(&self, h: Handle)
        requires
            self.wf(),
            self@.contains(h),
        ensures
            h.index < self.slot_count(),
    {
        assert(self.pool@.contains_key(h));
        self.pool.valid_handles_differ_by_index(h, h);
    }

    /// The handles of the nodes are as an arena gives them out.
    pub proof fn handles_are_arena_like(&self)
        requires
            self.wf(),
        ensures
            self@.arena_like(),
    {
        let v = self@;
        assert forall|a: Handle| #![trigger v.contains(a)] v.contains(a) implies a.generation >= 1
            && a.index < u32::MAX by {
            assert(self.pool@.contains_key(a));
            self.pool.valid_handles_differ_by_index(a, a);
        }
        assert forall|a: Handle, b: Handle|
            #![trigger v.contains(a), v.contains(b)]
            v.contains(a) && v.contains(b) && a.index == b.index implies a == b by {
            assert(self.pool@.contains_key(a));
            assert(self.pool@.contains_key(b));
            self.pool.valid_handles_differ_by_index(a, b);
        }
    }

    /// The state of the node of `h` is that of a node that exists: the
    /// lengths of its lists are machine-sized numbers.
    pub proof fn node_lengths_are_bounded(&self, h: Handle)
        requires
            self@.contains(h),
        ensures
            self@.nodes[h].children.len() <= usize::MAX,
            self@.nodes[h].lod_group matches Some(group) ==> {
                &&& group.levels.len() <= usize::MAX
                &&& forall|i: int|
                    0 <= i < group.levels.len() ==> (#[trigger] group.levels[i]).objects.len()
                        <= usize::MAX
            },
    {
        self.pool@[h].spec_base().lengths_are_bounded();
    }

    /// Whether `h` can never be the handle of a node again. The handle of a
    /// node that was removed is stale, and a stale handle stays stale.
    pub closed spec fn is_stale(&self, h: Handle) -> bool {
        self.pool.is_stale(h)
    }

    /// A stale handle is the handle of no node.
    pub proof fn stale_is_invalid(&self, h: Handle)
        requires
            self.wf(),
            self.is_stale(h),
        ensures
            !self@.contains(h),
    {
        self.pool.stale_is_invalid(h);
    }

    /// A graph that holds a root and nothing else. The root is a plain node
    /// in its default state.
    pub fn new() -> (graph: Self)
        ensures
            graph.wf(),
            graph.spec_has_room(),
            graph.slot_count() <= 1,
            graph@.nodes.dom() == set![graph@.root],
            graph@.nodes[graph@.root].is_default(),
    {
        let mut pool: HandlePool<Node> = HandlePool::new();
        let root_node = Node::Base(Base::default());
        let root = pool.insert(root_node);
        let graph = Graph { pool, root };
        proof {
            graph.pool.room_below_limit();
            assert(graph@.nodes.dom() =~= set![root]);
            let depth = Map::<Handle, nat>::empty().insert(root, 0nat);
            assert(graph@.ranked_by(depth));
            assert(graph@.root == root);
            assert(graph@.nodes[root].children.len() == 0);
            assert(graph@.links_ok());
        }
        graph
    }

    /// A graph that holds nothing but `node` as its root, under the handle
    /// `h`: the first step of restoring a graph with the handles it had. What
    /// the node's state lists as parent and children is dropped. There is no
    /// graph where `h` is not a handle that an arena gives out.
    pub fn restore_root(h: Handle, node: Node) -> (r: Option<Self>)
        requires
            node.spec_base().wf(),
        ensures
            r is Some <==> h.generation >= 1 && h.index < u32::MAX,
            r matches Some(graph) ==> graph.wf() && graph.is_pristine() && graph@
                == GraphView::lone_root(h, node.spec_base()@),
    {
        let ghost given = node.spec_base()@;
        let mut pool: HandlePool<Node> = HandlePool::new();
        if !pool.is_placeable(h) {
            return None;
        }
        let mut node = node;
        node.base_mut().set_parent(Handle::none());
        let _ = node.base_mut().take_children();
        match pool.insert_at(h, node) {
            Ok(_) => {},
            Err(_) => {},
        }
        let graph = Graph { pool, root: h };
        proof {
            assert(graph@.nodes =~= GraphView::lone_root(h, given).nodes);
            GraphView::lone_root_is_tree(h, given);
        }
        Some(graph)
    }

    /// Puts `node` into the graph under the handle `h`, as the last child of
    /// `parent` and without children of its own: one step of restoring a
    /// graph with the handles it had. It says whether it did. It does not,
    /// and changes nothing, where `parent` is not a node or `h` cannot be
    /// placed.
    pub fn restore_node(&mut self, h: Handle, node: Node, parent: Handle) -> (placed: bool)
        requires
            old(self).wf(),
            old(self).is_pristine(),
            node.spec_base().wf(),
        ensures
            final(self).wf(),
            final(self).is_pristine(),
            placed == (old(self)@.contains(parent) && old(self)@.can_place(h)),
            placed ==> final(self)@ == old(self)@.after_add_under(h, node.spec_base()@, parent),
            !placed ==> final(self)@ == old(self)@,
    {
        let ghost before = self@;
        let ghost given = node.spec_base()@;
        proof {
            assert(self.pool.can_place(h) == before.can_place(h)) by {
                assert forall|x: Handle| self.pool@.contains_key(x) == before.contains(x) by {}
                if self.pool.can_place(h) {
                    assert forall|x: Handle| before.contains(x) implies x.index != h.index by {
                        assert(self.pool@.contains_key(x));
                    }
                }
                if before.can_place(h) {
                    assert forall|x: Handle| self.pool@.contains_key(x) implies x.index
                        != h.index by {
                        assert(before.contains(x));
                    }
                }
            }
        }
        if !self.pool.is_valid_handle(parent) || !self.pool.is_placeable(h) {
            return false;
        }
        let mut node = node;
        node.base_mut().set_parent(parent);
        let _ = node.base_mut().take_children();
        match self.pool.insert_at(h, node) {
            Ok(_) => {},
            Err(_) => {},
        }
        match self.pool.get_mut(parent) {
            Some(parent_node) => {
                parent_node.base_mut().push_child(h);
            },
            None => {},
        }
        proof {
            assert(self@.nodes =~= before.after_add_under(h, given, parent).nodes);
            before.add_keeps_tree(h, given, parent);
        }
        true
    }

    /// Whether one more node can be added.
    #[verifier::when_used_as_spec(spec_has_room)]
    pub fn has_room(&self) -> (r: bool)
        requires
            self.wf(),
        ensures
            r == self.spec_has_room(),
    {
        self.pool.has_room()
    }

    /// The number of slots of the arena, vacant or not.
    pub fn slots(&self) -> (r: usize)
        requires
            self.wf(),
        ensures
            r == self.slot_count(),
            r <= u32::MAX,
    {
        self.pool.slots()
    }

    /// The handle of the root.
    pub fn root(&self) -> (r: Handle)
        ensures
            r == self@.root,
    {
        self.root
    }

    /// The number of nodes.
    pub fn node_count(&self) -> (r: usize)
        requires
            self.wf(),
        ensures
            r == self@.nodes.dom().len(),
    {
        assert(self@.nodes.dom() =~= self.pool@.dom());
        self.pool.len()
    }

    /// Whether `h` is the handle of a node of the graph.
    pub fn is_valid_handle(&self, h: Handle) -> (r: bool)
        requires
            self.wf(),
        ensures
            r == self@.contains(h),
    {
        self.pool.is_valid_handle(h)
    }

    /// The node of `h`, if `h` is valid.
    pub fn get(&self, h: Handle) -> (r: Option<&Node>)
        requires
            self.wf(),
        ensures
            r is Some <==> self@.contains(h),
            r matches Some(node) ==> node.spec_base()@ == self@.nodes[h],
    {
        self.pool.get(h)
    }

    /// The node of `h`, open to change, if `h` is valid. What is written
    /// through the reference replaces the state of the node. The graph stays
    /// well formed where the new state is well formed and names the same
    /// parent and children as the old: the links belong to the graph, and are
    /// changed by `link_nodes` and `remove_node` only.
    pub fn get_mut(&mut self, h: Handle) -> (r: Option<&mut Node>)
        requires
            old(self).wf(),
        ensures
            r is Some <==> old(self)@.contains(h),
            r matches Some(node) ==> {
                let state = final(node).spec_base()@;
                &&& node.spec_base()@ == old(self)@.nodes[h]
                &&& final(self)@ == old(self)@.after_edit(h, state)
                &&& old(self)@.keeps_links(h, state) ==> final(self).wf()
            },
            r is None ==> final(self)@ == old(self)@ && final(self).wf(),
            final(self).arena_wf(),
            final(self).slot_count() == old(self).slot_count(),
            final(self).spec_has_room() == old(self).spec_has_room(),
            forall|x: Handle| old(self).is_stale(x) == final(self).is_stale(x),
    {
        let ghost before = *self;
        proof {
            assert forall|after: Graph, node: Node|
                #![trigger after@, node.spec_base()]
                after.pool@ == before.pool@.insert(h, node) && after.root == before.root
                    && before@.contains(h) && after.pool.wf() implies after@
                == before@.after_edit(h, node.spec_base()@) && (before@.keeps_links(
                h,
                node.spec_base()@,
            ) ==> after.wf()) by {
                assert(after@.nodes =~= before@.nodes.insert(h, node.spec_base()@));
                if before@.keeps_links(h, node.spec_base()@) {
                    before@.edit_keeps_tree(h, node.spec_base()@);
                }
            }
        }
        self.pool.get_mut(h)
    }

    /// Adds `node` to the graph as the last child of `parent` and returns its
    /// handle; adds nothing, and returns the none handle, where `parent` is
    /// not valid. The node comes without children: what its state lists as
    /// parent and children is dropped.
    pub fn add_child(&mut self, parent: Handle, node: Node) -> (h: Handle)
        requires
            old(self).wf(),
            old(self).spec_has_room(),
            node.spec_base().wf(),
        ensures
            final(self).wf(),
            !old(self)@.contains(h),
            old(self)@.contains(parent) ==> h.spec_is_some() && !old(self).is_stale(h)
                && final(self)@ == old(self)@.after_add_under(h, node.spec_base()@, parent),
            !old(self)@.contains(parent) ==> h.spec_is_none() && final(self)@ == old(self)@,
            old(self).slot_count() <= final(self).slot_count() <= old(self).slot_count() + 1,
            forall|x: Handle| old(self).is_stale(x) ==> final(self).is_stale(x),
    {
        let ghost before = self@;
        let ghost given = node.spec_base()@;
        if !self.pool.is_valid_handle(parent) {
            proof {
                assert(!self.pool@.contains_key(Handle::spec_none())) by {
                    if self.pool@.contains_key(Handle::spec_none()) {
                        self.pool.valid_is_some(Handle::spec_none());
                    }
                }
            }
            return Handle::none();
        }
        let mut node = node;
        node.base_mut().set_parent(parent);
        let _ = node.base_mut().take_children();
        let h = self.pool.insert(node);
        match self.pool.get_mut(parent) {
            Some(parent_node) => {
                parent_node.base_mut().push_child(h);
            },
            None => {},
        }
        proof {
            assert(self@.nodes =~= before.after_add_under(h, given, parent).nodes);
            before.add_keeps_tree(h, given, parent);
        }
        h
    }

    /// Adds `node` to the graph as the last child of the root and returns its
    /// handle. What the node's state lists as parent is dropped. The handles
    /// it lists as children are taken as a request: each, in order, is moved
    /// under the new node where `link_nodes` would move it, and is left where
    /// it is otherwise.
    pub fn add_node(&mut self, node: Node) -> (h: Handle)
        requires
            old(self).wf(),
            old(self).spec_has_room(),
            node.spec_base().wf(),
        ensures
            final(self).wf(),
            !old(self)@.contains(h),
            !old(self).is_stale(h),
            h.spec_is_some(),
            final(self)@ == old(self)@.after_add(h, node.spec_base()@).after_links(
                node.spec_base()@.children,
                h,
            ),
            final(self)@.nodes.dom() == old(self)@.nodes.dom().insert(h),
            old(self).slot_count() <= final(self).slot_count() <= old(self).slot_count() + 1,
            forall|x: Handle| old(self).is_stale(x) ==> final(self).is_stale(x),
    {
        let ghost before = self@;
        let ghost start = *self;
        let ghost given = node.spec_base()@;
        let mut node = node;
        let children: Vec<Handle> = node.base_mut().take_children();
        let ghost stripped = node.spec_base()@;
        let root: Handle = self.root;
        let h = self.add_child(root, node);
        proof {
            assert(before.after_add_under(h, stripped, root) == before.after_add(h, given));
            before.add_keeps_tree(h, given, root);
        }
        let ghost added = self@;
        let ghost target = added.after_links(children@, h);
        let mut i: usize = 0;
        proof {
            assert(children@.skip(0) =~= children@);
        }
        while i < children.len()
            invariant
                i <= children.len(),
                self.wf(),
                self@.after_links(children@.skip(i as int), h) == target,
                self@.nodes.dom() == added.nodes.dom(),
                start.slot_count() <= self.slot_count() <= start.slot_count() + 1,
                forall|x: Handle| start.is_stale(x) ==> self.is_stale(x),
            decreases children.len() - i,
        {
            proof {
                let rest = children@.skip(i as int);
                assert(rest[0] == children@[i as int]);
                assert(rest.drop_first() =~= children@.skip(i + 1));
                if self@.linkable(children@[i as int], h) {
                    self@.link_keeps_tree(children@[i as int], h);
                }
            }
            let _ = self.link_nodes(children[i], h);
            i = i + 1;
        }
        proof {
            assert(children@.skip(children@.len() as int) =~= Seq::<Handle>::empty());
        }
        h
    }

    /// Moves `child`, with all its descendants, under `parent`, as its last
    /// child, and says whether it did. It does not where either handle is not
    /// valid, where `child` is the root, or where `parent` is `child` or one
    /// of its descendants: then nothing changes.
    pub fn link_nodes(&mut self, child: Handle, parent: Handle) -> (linked: bool)
        requires
            old(self).wf(),
        ensures
            final(self).wf(),
            linked == old(self)@.linkable(child, parent),
            linked ==> final(self)@ == old(self)@.after_link(child, parent),
            !linked ==> final(self)@ == old(self)@,
            final(self).slot_count() == old(self).slot_count(),
            final(self).spec_has_room() == old(self).spec_has_room(),
            forall|x: Handle| old(self).is_stale(x) == final(self).is_stale(x),
    {
        let ghost before = self@;
        if child == self.root || !self.pool.is_valid_handle(child) || !self.pool.is_valid_handle(
            parent,
        ) {
            return false;
        }
        let mut cur: Handle = parent;
        while cur != child && cur != self.root
            invariant
                self.wf(),
                self@ == before,
                before.contains(cur),
                before.reaches(child, parent) == before.reaches(child, cur),
            decreases before.depth()[cur],
        {
            proof {
                before.reaches_steps_up(child, cur);
                before.parent_is_node(cur);
                before.depth_is_rank();
            }
            cur = match self.pool.get(cur) {
                Some(node) => node.base().parent(),
                None => self.root,
            };
        }
        if cur == child {
            proof {
                before.reaches_itself(child);
            }
            return false;
        }
        proof {
            if before.reaches(child, before.root) {
                before.root_has_no_ancestor(child);
            }
            before.subtree_is_below(child);
            assert(before.nodes[before.parent_of(child)].children.no_duplicates());
        }
        let from: Handle = match self.pool.get(child) {
            Some(node) => node.base().parent(),
            None => self.root,
        };
        self.unlist_child(from, child);
        let ghost unlisted = self@.nodes;
        proof {
            assert(unlisted == before.unlisted(child));
            assert(unlisted.contains_key(parent));
        }
        match self.pool.get_mut(parent) {
            Some(node) => {
                node.base_mut().push_child(child);
            },
            None => {},
        }
        let ghost listed = self@.nodes;
        proof {
            assert(listed =~= unlisted.insert(
                parent,
                BaseView { children: unlisted[parent].children.push(child), ..unlisted[parent] },
            ));
        }
        match self.pool.get_mut(child) {
            Some(node) => {
                node.base_mut().set_parent(parent);
            },
            None => {},
        }
        proof {
            assert(self@.nodes =~= listed.insert(child, BaseView { parent, ..listed[child] }));
            assert(self@.nodes =~= before.after_link(child, parent).nodes);
            before.link_keeps_tree(child, parent);
        }
        true
    }

    /// Lists the node `from` and all its descendants level by level: `from`
    /// first, every other node after its parent, each once, and the children
    /// of a node side by side in the order in which the node lists them. For
    /// the root this lists every node of the graph. Nothing is listed where
    /// `from` is not valid.
    pub fn traverse(&self, from: Handle) -> (order: Vec<Handle>)
        requires
            self.wf(),
        ensures
            self@.contains(from) ==> self@.is_level_order(from, order@),
            !self@.contains(from) ==> order@.len() == 0,
    {
        let mut order: Vec<Handle> = Vec::new();
        if !self.pool.is_valid_handle(from) {
            return order;
        }
        order.push(from);
        let mut done: usize = 0;
        proof {
            self@.walk_starts(from);
            assert(order@ =~= seq![from]);
        }
        while done < order.len()
            invariant
                self.wf(),
                self@.contains(from),
                self@.walk_inv(from, order@, done as int),
            decreases self@.nodes.dom().len() - done,
        {
            proof {
                self@.walk_steps(from, order@, done as int);
            }
            let ghost listed = order@;
            let top: Handle = order[done];
            match self.pool.get(top) {
                Some(node) => {
                    let children = node.base().children();
                    let mut i: usize = 0;
                    proof {
                        assert(children@.take(0) =~= Seq::<Handle>::empty());
                        assert(order@ =~= listed + children@.take(0));
                    }
                    while i < children.len()
                        invariant
                            i <= children.len(),
                            children@ == self@.children_of(top),
                            order@ == listed + children@.take(i as int),
                        decreases children.len() - i,
                    {
                        order.push(children[i]);
                        assert(children@.take(i as int).push(children@[i as int])
                            =~= children@.take(i + 1));
                        assert(order@ =~= listed + children@.take(i + 1));
                        i = i + 1;
                    }
                    assert(children@.take(i as int) =~= children@);
                },
                None => {},
            }
            done = done + 1;
        }
        proof {
            self@.walk_ends(from, order@);
        }
        order
    }

    /// Takes `child` out of the list of children of `parent`. Nothing else
    /// changes; the link of `child` to its parent stays.
    fn unlist_child(&mut self, parent: Handle, child: Handle)
        requires
            old(self).pool.wf(),
            old(self)@.contains(parent),
            old(self)@.children_of(parent).no_duplicates(),
            old(self)@.children_of(parent).contains(child),
        ensures
            final(self).pool.wf(),
            final(self).root == old(self).root,
            final(self)@.nodes == old(self)@.nodes.insert(
                parent,
                BaseView {
                    children: without(old(self)@.children_of(parent), child),
                    ..old(self)@.nodes[parent]
                },
            ),
            final(self).slot_count() == old(self).slot_count(),
            final(self).spec_has_room() == old(self).spec_has_room(),
            forall|x: Handle| old(self).is_stale(x) == final(self).is_stale(x),
    {
        let ghost before = self@;
        let ghost list = before.children_of(parent);
        let mut place: usize = 0;
        match self.pool.get(parent) {
            Some(node) => {
                let children = node.base().children();
                while place < children.len() && children[place] != child
                    invariant
                        place <= children.len(),
                        children@ == list,
                        list.contains(child),
                        forall|j: int| 0 <= j < place ==> list[j] != child,
                    decreases children.len() - place,
                {
                    place = place + 1;
                }
            },
            None => {},
        }
        proof {
            without_is_exact(list, child, place as int);
        }
        match self.pool.get_mut(parent) {
            Some(node) => {
                node.base_mut().remove_child_at(place);
            },
            None => {},
        }
        proof {
            assert(self@.nodes =~= before.nodes.insert(
                parent,
                BaseView { children: without(list, child), ..before.nodes[parent] },
            ));
        }
    }

    /// Removes node `h` with all its descendants and returns how many nodes
    /// went. Their handles are stale from then on. The root cannot be
    /// removed: for the root, as for a handle that is not valid, nothing
    /// changes.
    #[verifier::rlimit(40)]
    pub fn remove_node(&mut self, h: Handle) -> (removed: usize)
        requires
            old(self).wf(),
        ensures
            final(self).wf(),
            old(self)@.removable(h) ==> final(self)@ == old(self)@.after_remove(h) && removed
                == old(self)@.subtree(h).len() && removed > 0,
            !old(self)@.removable(h) ==> final(self)@ == old(self)@ && removed == 0,
            forall|n: Handle|
                old(self)@.removable(h) && #[trigger] old(self)@.reaches(h, n) ==> !final(self)@.contains(n)
                    && final(self).is_stale(n),
            forall|x: Handle| old(self).is_stale(x) ==> final(self).is_stale(x),
            final(self).slot_count() == old(self).slot_count(),
            old(self).spec_has_room() ==> final(self).spec_has_room(),
    {
        let ghost before = self@;
        if h == self.root || !self.pool.is_valid_handle(h) {
            return 0;
        }
        let order: Vec<Handle> = self.traverse(h);
        let parent: Handle = match self.pool.get(h) {
            Some(node) => node.base().parent(),
            None => Handle::none(),
        };
        proof {
            before.subtree_is_below(h);
            assert(before.nodes[parent].children.no_duplicates());
        }
        self.unlist_child(parent, h);
        let ghost mid = *self;
        proof {
            assert forall|x: Handle| #[trigger] order@.contains(x) implies mid.pool@.contains_key(
                x,
            ) by {
                assert(before.reaches(h, x));
                assert(mid@.nodes.contains_key(x));
            }
        }
        let mut i: usize = 0;
        while i < order.len()
            invariant
                i <= order.len(),
                self.pool.wf(),
                self.root == mid.root,
                before.is_top_down(h, order@),
                forall|x: Handle| #[trigger] order@.contains(x) ==> mid.pool@.contains_key(x),
                self.pool@ =~= mid.pool@.remove_keys(
                    Set::new(|x: Handle| placed_before(order@, x, i as int)),
                ),
                forall|j: int| 0 <= j < i ==> self.pool.is_stale(#[trigger] order@[j]),
                forall|x: Handle| mid.pool.is_stale(x) ==> self.pool.is_stale(x),
                self.pool.slot_count() == mid.pool.slot_count(),
                mid.pool.spec_has_room() ==> self.pool.spec_has_room(),
            decreases order.len() - i,
        {
            let ghost pool_before = self.pool;
            let target: Handle = order[i];
            proof {
                assert(order@.contains(target));
                assert(!placed_before(order@, target, i as int)) by {
                    if placed_before(order@, target, i as int) {
                        let j = choose|j: int|
                            0 <= j < i && j < order@.len() && order@[j] == target;
                        assert(order@[j] == order@[i as int]);
                    }
                }
                assert(pool_before@.contains_key(target));
            }
            let _ = self.pool.remove(target);
            proof {
                assert forall|x: Handle| placed_before(order@, x, i + 1) <==> placed_before(
                    order@,
                    x,
                    i as int,
                ) || x == target by {
                    if placed_before(order@, x, i + 1) {
                        let j = choose|j: int|
                            0 <= j < i + 1 && j < order@.len() && order@[j] == x;
                        if j < i {
                            assert(placed_before(order@, x, i as int));
                        }
                    }
                    if placed_before(order@, x, i as int) {
                        let j = choose|j: int| 0 <= j < i && j < order@.len() && order@[j] == x;
                        assert(0 <= j < i + 1);
                    }
                    if x == target {
                        assert(order@[i as int] == x);
                    }
                }
                assert(self.pool@ =~= mid.pool@.remove_keys(
                    Set::new(|x: Handle| placed_before(order@, x, i + 1)),
                ));
            }
            i = i + 1;
        }
        proof {
            let gone = Set::new(|x: Handle| placed_before(order@, x, order@.len() as int));
            assert(gone =~= before.subtree(h)) by {
                assert forall|x: Handle| gone.contains(x) <==> before.subtree(h).contains(x) by {
                    if gone.contains(x) {
                        let j = choose|j: int|
                            0 <= j < order@.len() && j < order@.len() && order@[j] == x;
                        assert(order@.contains(x));
                    }
                    if before.reaches(h, x) {
                        assert(order@.contains(x));
                    }
                }
            }
            assert(self@.nodes =~= before.after_remove(h).nodes);
            before.remove_keeps_tree(h);
            order@.unique_seq_to_set();
            assert(order@.to_set() =~= before.subtree(h));
            assert forall|n: Handle| #[trigger] before.reaches(h, n) implies self.is_stale(n)
                && !self@.contains(n) by {
                assert(order@.contains(n));
                let j = choose|j: int| 0 <= j < order@.len() && order@[j] == n;
                assert(self.pool.is_stale(order@[j]));
            }
        }
        order.len()
    }

    /// The first pass of an update: from the top down, settles the cached
    /// global state of every node, runs down its lifetime, and marks it with a
    /// lifetime of zero where it is doomed. No link changes.
    #[verifier::rlimit(40)]
    fn settle_all<F: Fn(Matrix4, Transform) -> Matrix4>(
        &mut self,
        order: &Vec<Handle>,
        dt: u64,
        compose: &F,
    )
        requires
            old(self).wf(),
            old(self)@.is_top_down(old(self)@.root, order@),
            forall|m: Matrix4, t: Transform| call_requires(*compose, (m, t)),
        ensures
            final(self).pool.wf(),
            final(self)@.same_links(old(self)@),
            old(self)@.same_links(final(self)@),
            forall|h: Handle|
                #![trigger final(self)@.nodes[h]]
                old(self)@.contains(h) ==> final(self)@.ticked_from(old(self)@, h, dt, *compose),
            final(self).slot_count() == old(self).slot_count(),
            final(self).spec_has_room() == old(self).spec_has_room(),
            forall|x: Handle| old(self).is_stale(x) == final(self).is_stale(x),
    {
        let ghost before = self@;
        let ghost start = *self;
        proof {
            before.top_down_from_root_is_all(order@);
        }
        let mut i: usize = 0;
        while i < order.len()
            invariant
                i <= order.len(),
                self.pool.wf(),
                before.is_tree(),
                before.is_top_down(before.root, order@),
                forall|x: Handle| #[trigger] order@.contains(x) <==> before.contains(x),
                forall|m: Matrix4, t: Transform| call_requires(*compose, (m, t)),
                self@.same_links(before),
                before.same_links(self@),
                forall|x: Handle|
                    #![trigger self@.nodes[x]]
                    before.contains(x) ==> self@.nodes[x] == (BaseView {
                        global_visibility: self@.nodes[x].global_visibility,
                        global_transform: self@.nodes[x].global_transform,
                        lifetime: self@.nodes[x].lifetime,
                        ..before.nodes[x]
                    }),
                forall|j: int|
                    i <= j < order@.len() ==> self@.nodes[#[trigger] order@[j]]
                        == before.nodes[order@[j]],
                forall|j: int|
                    0 <= j < i ==> self@.ticked_from(before, #[trigger] order@[j], dt, *compose),
                self.slot_count() == start.slot_count(),
                self.spec_has_room() == start.spec_has_room(),
                forall|x: Handle| start.is_stale(x) == self.is_stale(x),
            decreases order.len() - i,
        {
            let ghost cur = self@;
            let h: Handle = order[i];
            proof {
                assert(order@.contains(h));
                assert(cur.nodes[h] == before.nodes[h]);
                before.doom_descends(h, dt);
                if i > 0 {
                    assert(h != before.root) by {
                        if h == before.root {
                            assert(order@[0] == order@[i as int]);
                        }
                    }
                    before.parent_is_node(h);
                } else {
                    assert(h == before.root);
                }
            }
            let is_root: bool = h == self.root;
            let mut visibility: bool = true;
            let mut local: Transform = Transform::identity();
            let mut lifetime: Option<u64> = None;
            let mut parent: Handle = Handle::none();
            match self.pool.get(h) {
                Some(node) => {
                    let base = node.base();
                    visibility = base.visibility();
                    local = *base.local_transform();
                    lifetime = base.lifetime();
                    parent = base.parent();
                },
                None => {},
            }
            let mut parent_visible: bool = true;
            let mut parent_transform: Matrix4 = Matrix4::identity();
            let mut parent_doomed: bool = false;
            if !is_root {
                proof {
                    assert(placed_before(order@, before.parent_of(order@[i as int]), i as int));
                    let j = choose|j: int|
                        0 <= j < i && j < order@.len() && order@[j] == before.parent_of(h);
                    assert(cur.ticked_from(before, order@[j], dt, *compose));
                }
                match self.pool.get(parent) {
                    Some(node) => {
                        let base = node.base();
                        parent_visible = base.global_visibility();
                        parent_transform = base.global_transform();
                        parent_doomed = parent != self.root && match base.lifetime() {
                            Some(left) => left == 0,
                            None => false,
                        };
                    },
                    None => {},
                }
            }
            let global_transform: Matrix4 = compose(parent_transform, local);
            let remaining: Option<u64> = if parent_doomed {
                Some(0)
            } else {
                match lifetime {
                    Some(left) => Some(
                        if left > dt {
                            left - dt
                        } else {
                            0
                        },
                    ),
                    None => None,
                }
            };
            match self.pool.get_mut(h) {
                Some(node) => {
                    node.base_mut().settle(visibility && parent_visible, global_transform, remaining);
                },
                None => {},
            }
            proof {
                let now = self@;
                assert(now.nodes =~= cur.nodes.insert(
                    h,
                    BaseView {
                        global_visibility: visibility && parent_visible,
                        global_transform,
                        lifetime: remaining,
                        ..cur.nodes[h]
                    },
                ));
                assert(now.nodes.dom() =~= before.nodes.dom());
                assert(now.ticked_from(before, h, dt, *compose));
                assert forall|j: int| 0 <= j < i + 1 implies now.ticked_from(
                    before,
                    #[trigger] order@[j],
                    dt,
                    *compose,
                ) by {
                    if j < i {
                        let x = order@[j];
                        assert(cur.ticked_from(before, x, dt, *compose));
                        assert(x != h);
                        assert(order@.contains(x));
                        if x != before.root {
                            assert(j != 0);
                            assert(placed_before(order@, before.parent_of(order@[j]), j));
                            let k = choose|k: int|
                                0 <= k < j && k < order@.len() && order@[k] == before.parent_of(x);
                            assert(order@[k] != order@[i as int]);
                            assert(now.nodes[before.parent_of(x)] == cur.nodes[before.parent_of(
                                x,
                            )]);
                        }
                    }
                }
                assert forall|j: int| i + 1 <= j < order@.len() implies now.nodes[#[trigger] order@[j]]
                    == before.nodes[order@[j]] by {
                    assert(order@[j] != order@[i as int]);
                }
            }
            i = i + 1;
        }
        proof {
            assert forall|x: Handle| #![trigger self@.nodes[x]] before.contains(
                x,
            ) implies self@.ticked_from(before, x, dt, *compose) by {
                assert(order@.contains(x));
                let j = choose|j: int| 0 <= j < order@.len() && order@[j] == x;
                assert(self@.ticked_from(before, order@[j], dt, *compose));
            }
        }
    }

    /// The second pass of an update: takes out of the arena every node that
    /// the first pass marked. `gone` is the set of the marked nodes.
    #[verifier::rlimit(40)]
    fn sweep(&mut self, order: &Vec<Handle>, Ghost(gone): Ghost<Set<Handle>>)
        requires
            old(self).pool.wf(),
            order@.no_duplicates(),
            forall|x: Handle| #[trigger] order@.contains(x) <==> old(self)@.contains(x),
            forall|x: Handle|
                #![trigger old(self)@.nodes[x]]
                old(self)@.contains(x) ==> (gone.contains(x) <==> x != old(self)@.root && old(
                    self,
                )@.nodes[x].lifetime == Some(0u64)),
        ensures
            final(self).pool.wf(),
            final(self)@.root == old(self)@.root,
            final(self)@.nodes == old(self)@.nodes.remove_keys(gone),
            forall|x: Handle|
                old(self)@.contains(x) && gone.contains(x) ==> #[trigger] final(self).is_stale(x),
            forall|x: Handle| old(self).is_stale(x) ==> final(self).is_stale(x),
            final(self).slot_count() == old(self).slot_count(),
            old(self).spec_has_room() ==> final(self).spec_has_room(),
    {
        let ghost mid = *self;
        let mut i: usize = 0;
        while i < order.len()
            invariant
                i <= order.len(),
                self.pool.wf(),
                self.root == mid.root,
                order@.no_duplicates(),
                forall|x: Handle| #[trigger] order@.contains(x) <==> mid@.contains(x),
                forall|x: Handle|
                    #![trigger mid@.nodes[x]]
                    mid@.contains(x) ==> (gone.contains(x) <==> x != mid@.root
                        && mid@.nodes[x].lifetime == Some(0u64)),
                self.pool@ =~= mid.pool@.remove_keys(
                    Set::new(|x: Handle| placed_before(order@, x, i as int) && gone.contains(x)),
                ),
                forall|j: int|
                    0 <= j < i && gone.contains(order@[j]) ==> self.pool.is_stale(
                        #[trigger] order@[j],
                    ),
                forall|x: Handle| mid.pool.is_stale(x) ==> self.pool.is_stale(x),
                self.pool.slot_count() == mid.pool.slot_count(),
                mid.pool.spec_has_room() ==> self.pool.spec_has_room(),
            decreases order.len() - i,
        {
            let h: Handle = order[i];
            proof {
                assert(order@.contains(h));
                assert(mid@.nodes.contains_key(h));
                assert(!placed_before(order@, h, i as int)) by {
                    if placed_before(order@, h, i as int) {
                        let j = choose|j: int| 0 <= j < i && j < order@.len() && order@[j] == h;
                        assert(order@[j] == order@[i as int]);
                    }
                }
                assert(self.pool@.contains_key(h));
                assert(self.pool@[h] == mid.pool@[h]);
            }
            let marked: bool = h != self.root && match self.pool.get(h) {
                Some(node) => match node.base().lifetime() {
                    Some(left) => left == 0,
                    None => false,
                },
                None => false,
            };
            proof {
                assert(mid@.nodes[h].lifetime == mid.pool@[h].spec_base()@.lifetime);
                assert(marked == gone.contains(h));
            }
            if marked {
                let _ = self.pool.remove(h);
            }
            proof {
                assert forall|x: Handle| placed_before(order@, x, i + 1) <==> placed_before(
                    order@,
                    x,
                    i as int,
                ) || x == h by {
                    if placed_before(order@, x, i + 1) {
                        let j = choose|j: int|
                            0 <= j < i + 1 && j < order@.len() && order@[j] == x;
                        if j < i {
                            assert(placed_before(order@, x, i as int));
                        }
                    }
                    if placed_before(order@, x, i as int) {
                        let j = choose|j: int| 0 <= j < i && j < order@.len() && order@[j] == x;
                        assert(0 <= j < i + 1);
                    }
                    if x == h {
                        assert(order@[i as int] == x);
                    }
                }
                assert(self.pool@ =~= mid.pool@.remove_keys(
                    Set::new(|x: Handle| placed_before(order@, x, i + 1) && gone.contains(x)),
                ));
            }
            i = i + 1;
        }
        proof {
            assert forall|x: Handle| mid@.contains(x) implies placed_before(
                order@,
                x,
                order@.len() as int,
            ) by {
                assert(order@.contains(x));
                let j = choose|j: int| 0 <= j < order@.len() && order@[j] == x;
                assert(0 <= j < order@.len() && j < order@.len() && order@[j] == x);
            }
            let swept = Set::new(
                |x: Handle| placed_before(order@, x, order@.len() as int) && gone.contains(x),
            );
            assert forall|x: Handle| self@.nodes.contains_key(x) <==> mid@.nodes.remove_keys(
                gone,
            ).contains_key(x) by {
                assert(self@.nodes.contains_key(x) == self.pool@.contains_key(x));
                assert(mid@.nodes.contains_key(x) == mid.pool@.contains_key(x));
                if mid@.contains(x) {
                    assert(swept.contains(x) == gone.contains(x));
                }
            }
            assert forall|x: Handle| self@.nodes.contains_key(x) implies self@.nodes[x]
                == mid@.nodes.remove_keys(gone)[x] by {
                assert(self.pool@[x] == mid.pool@[x]);
            }
            assert(self@.nodes =~= mid@.nodes.remove_keys(gone));
            assert forall|x: Handle| mid@.contains(x) && gone.contains(x) implies #[trigger] self.is_stale(
                x,
            ) by {
                assert(order@.contains(x));
                let j = choose|j: int| 0 <= j < order@.len() && order@[j] == x;
                assert(self.pool.is_stale(order@[j]));
            }
        }
    }

    /// The last pass of an update: takes the nodes that went out of every
    /// list of children. `gone` is the set of the nodes that went, `mid` the
    /// graph before they went.
    #[verifier::rlimit(40)]
    fn relist(
        &mut self,
        order: &Vec<Handle>,
        Ghost(mid): Ghost<GraphView>,
        Ghost(gone): Ghost<Set<Handle>>,
    )
        requires
            old(self).pool.wf(),
            order@.no_duplicates(),
            forall|x: Handle| #[trigger] order@.contains(x) <==> mid.contains(x),
            old(self)@.root == mid.root,
            old(self)@.nodes == mid.nodes.remove_keys(gone),
            forall|x: Handle, c: Handle| #[trigger] mid.is_child(x, c) ==> mid.contains(c),
        ensures
            final(self).pool.wf(),
            final(self)@ == mid.pruned(gone),
            final(self).slot_count() == old(self).slot_count(),
            final(self).spec_has_room() == old(self).spec_has_room(),
            forall|x: Handle| old(self).is_stale(x) == final(self).is_stale(x),
    {
        let ghost start = *self;
        let mut i: usize = 0;
        while i < order.len()
            invariant
                i <= order.len(),
                self.pool.wf(),
                self.root == mid.root,
                order@.no_duplicates(),
                forall|x: Handle| #[trigger] order@.contains(x) <==> mid.contains(x),
                forall|x: Handle, c: Handle| #[trigger] mid.is_child(x, c) ==> mid.contains(c),
                self@.nodes.dom() == mid.nodes.remove_keys(gone).dom(),
                forall|x: Handle|
                    #![trigger self@.nodes[x]]
                    self@.contains(x) ==> self@.nodes[x] == (BaseView {
                        children: self@.nodes[x].children,
                        ..mid.nodes[x]
                    }),
                forall|j: int|
                    0 <= j < i && self@.contains(order@[j]) ==> self@.nodes[#[trigger] order@[j]].children
                        == kept(mid.nodes[order@[j]].children, gone),
                forall|j: int|
                    i <= j < order@.len() && self@.contains(order@[j]) ==> self@.nodes[#[trigger] order@[j]]
                        == mid.nodes[order@[j]],
                self.slot_count() == start.slot_count(),
                self.spec_has_room() == start.spec_has_room(),
                forall|x: Handle| start.is_stale(x) == self.is_stale(x),
            decreases order.len() - i,
        {
            let ghost cur = self@;
            let h: Handle = order[i];
            proof {
                assert(order@.contains(h));
            }
            let mut stays: bool = false;
            let mut listed: Vec<Handle> = Vec::new();
            match self.pool.get(h) {
                Some(node) => {
                    stays = true;
                    let children = node.base().children();
                    let mut k: usize = 0;
                    proof {
                        assert(children@.take(0) =~= Seq::<Handle>::empty());
                    }
                    while k < children.len()
                        invariant
                            k <= children.len(),
                            self.pool.wf(),
                            self@ == cur,
                            cur.contains(h),
                            children@ == mid.nodes[h].children,
                            mid.contains(h),
                            forall|x: Handle, c: Handle|
                                #[trigger] mid.is_child(x, c) ==> mid.contains(c),
                            cur.nodes.dom() == mid.nodes.remove_keys(gone).dom(),
                            listed@ == kept(children@.take(k as int), gone),
                        decreases children.len() - k,
                    {
                        let c: Handle = children[k];
                        proof {
                            assert(mid.is_child(h, c));
                            assert(cur.contains(c) <==> !gone.contains(c));
                            kept_push(children@.take(k as int), c, gone);
                            assert(children@.take(k as int).push(c) =~= children@.take(k + 1));
                        }
                        if self.pool.is_valid_handle(c) {
                            listed.push(c);
                        }
                        k = k + 1;
                    }
                    proof {
                        assert(children@.take(children@.len() as int) =~= children@);
                    }
                },
                None => {},
            }
            if stays {
                match self.pool.get_mut(h) {
                    Some(node) => {
                        node.base_mut().set_children(listed);
                    },
                    None => {},
                }
            }
            proof {
                let now = self@;
                assert(order@.contains(h));
                if stays {
                    assert(now.nodes =~= cur.nodes.insert(
                        h,
                        BaseView { children: kept(mid.nodes[h].children, gone), ..cur.nodes[h] },
                    ));
                } else {
                    assert(now.nodes =~= cur.nodes);
                }
                assert forall|j: int| 0 <= j < i + 1 && now.contains(order@[j]) implies now.nodes[
                #[trigger] order@[j]].children == kept(mid.nodes[order@[j]].children, gone) by {
                    if j < i {
                        assert(order@[j] != order@[i as int]);
                    }
                }
                assert forall|j: int| i + 1 <= j < order@.len() && now.contains(
                    order@[j],
                ) implies now.nodes[#[trigger] order@[j]] == mid.nodes[order@[j]] by {
                    assert(order@[j] != order@[i as int]);
                }
            }
            i = i + 1;
        }
        proof {
            let after = mid.pruned(gone);
            assert forall|x: Handle| after.nodes.contains_key(x) implies #[trigger] self@.nodes[x]
                == after.nodes[x] by {
                assert(order@.contains(x));
                let j = choose|j: int| 0 <= j < order@.len() && order@[j] == x;
                assert(self@.nodes[order@[j]].children == kept(mid.nodes[order@[j]].children, gone));
            }
            assert(self@.nodes =~= after.nodes);
        }
    }

    /// Advances the graph by `dt` microseconds: one pass from the top down,
    /// in which every node is treated after its parent, and then the removal
    /// of the nodes whose time is over. It returns how many nodes went.
    ///
    /// In the pass each node gets its global transform, which is what
    /// `compose` makes of the parent's global transform and the node's own
    /// local transform (of the identity and the local transform for the
    /// root), and its global visibility, which is its own visibility and its
    /// parent's global visibility. A lifetime runs down by `dt`. A node other
    /// than the root whose lifetime runs out goes, and its descendants with
    /// it; their handles are stale from then on.
    pub fn update<F: Fn(Matrix4, Transform) -> Matrix4>(&mut self, dt: u64, compose: F) -> (removed:
        usize)
        requires
            old(self).wf(),
            forall|m: Matrix4, t: Transform| call_requires(compose, (m, t)),
        ensures
            final(self).wf(),
            final(self)@.updated_from(old(self)@, dt, compose),
            removed == old(self)@.nodes.dom().len() - final(self)@.nodes.dom().len(),
            forall|h: Handle|
                #![trigger final(self).is_stale(h)]
                old(self)@.doomed(h, dt) ==> final(self).is_stale(h),
            forall|x: Handle| old(self).is_stale(x) ==> final(self).is_stale(x),
            final(self).slot_count() == old(self).slot_count(),
            old(self).spec_has_room() ==> final(self).spec_has_room(),
    {
        let ghost before = self@;
        let ghost gone = before.doomed_set(dt);
        let count: usize = self.node_count();
        let root: Handle = self.root;
        let order: Vec<Handle> = self.traverse(root);
        proof {
            before.top_down_from_root_is_all(order@);
        }
        self.settle_all(&order, dt, &compose);
        let ghost mid = self@;
        proof {
            before.same_links_same_tree(mid);
            assert forall|x: Handle| #![trigger mid.nodes[x]] mid.contains(x) implies (gone.contains(
                x,
            ) <==> x != mid.root && mid.nodes[x].lifetime == Some(0u64)) by {
                assert(mid.ticked_from(before, x, dt, compose));
            }
        }
        self.sweep(&order, Ghost(gone));
        self.relist(&order, Ghost(mid), Ghost(gone));
        proof {
            before.doomed_is_prunable(dt);
            assert(mid.prunable(gone)) by {
                assert forall|h: Handle| #![trigger gone.contains(h)] mid.contains(h) && h
                    != mid.root && gone.contains(mid.parent_of(h)) implies gone.contains(h) by {
                    assert(mid.nodes[h].parent == before.nodes[h].parent);
                }
            }
            assert(mid.nodes_wf()) by {
                assert forall|x: Handle| #![trigger mid.nodes[x]] mid.contains(
                    x,
                ) implies mid.nodes[x].wf() by {
                    assert(mid.ticked_from(before, x, dt, compose));
                    assert(before.nodes[x].wf());
                }
            }
            mid.prune_keeps_tree(gone);
            let after = self@;
            assert(after.updated_from(before, dt, compose)) by {
                assert forall|h: Handle| #![trigger after.nodes[h]] after.contains(h) implies {
                    &&& after.nodes[h] == BaseView {
                        global_visibility: after.nodes[h].global_visibility,
                        global_transform: after.nodes[h].global_transform,
                        lifetime: aged(before.nodes[h].lifetime, dt),
                        children: kept(before.nodes[h].children, before.doomed_set(dt)),
                        ..before.nodes[h]
                    }
                    &&& after.visibility_settled(h)
                    &&& after.transform_settled(h, compose)
                } by {
                    assert(mid.ticked_from(before, h, dt, compose));
                    assert(mid.nodes[h].children == before.nodes[h].children);
                    if h != before.root {
                        let p = before.parent_of(h);
                        before.parent_is_node(h);
                        before.doom_descends(h, dt);
                        assert(!gone.contains(p));
                        assert(after.contains(p));
                        assert(mid.ticked_from(before, p, dt, compose));
                    }
                }
            }
            assert(after.nodes.dom().subset_of(before.nodes.dom()));
            vstd::set_lib::lemma_len_subset(after.nodes.dom(), before.nodes.dom());
            assert forall|h: Handle| #![trigger self.is_stale(h)] before.doomed(
                h,
                dt,
            ) implies self.is_stale(h) by {
                let a = choose|a: Handle| before.expires(a, dt) && before.reaches(a, h);
                assert(before.contains(h));
                assert(gone.contains(h));
            }
        }
        count - self.node_count()
    }

    /// Sets the visibility of each of `targets` that is a node to `visible`.
    fn set_visibility_of(&mut self, targets: &Vec<Handle>, visible: bool)
        requires
            old(self).wf(),
        ensures
            final(self).wf(),
            final(self)@ == old(self)@.with_visibility(
                Set::new(|x: Handle| targets@.contains(x)),
                visible,
            ),
            final(self).slot_count() == old(self).slot_count(),
            final(self).spec_has_room() == old(self).spec_has_room(),
            forall|x: Handle| old(self).is_stale(x) == final(self).is_stale(x),
    {
        let ghost before = self@;
        let ghost start = *self;
        let mut i: usize = 0;
        proof {
            before.visibility_keeps_tree(
                Set::new(|x: Handle| placed_before(targets@, x, 0)),
                visible,
            );
            assert(self@.nodes =~= before.with_visibility(
                Set::new(|x: Handle| placed_before(targets@, x, 0)),
                visible,
            ).nodes);
        }
        while i < targets.len()
            invariant
                i <= targets.len(),
                self.wf(),
                before.is_tree(),
                before.nodes_wf(),
                self@ == before.with_visibility(
                    Set::new(|x: Handle| placed_before(targets@, x, i as int)),
                    visible,
                ),
                self.slot_count() == start.slot_count(),
                self.spec_has_room() == start.spec_has_room(),
                forall|x: Handle| start.is_stale(x) == self.is_stale(x),
            decreases targets.len() - i,
        {
            let ghost cur = self@;
            let h: Handle = targets[i];
            match self.pool.get_mut(h) {
                Some(node) => {
                    let _ = node.base_mut().set_visibility(visible);
                },
                None => {},
            }
            proof {
                let next = Set::new(|x: Handle| placed_before(targets@, x, i + 1));
                assert forall|x: Handle| placed_before(targets@, x, i + 1) <==> placed_before(
                    targets@,
                    x,
                    i as int,
                ) || x == h by {
                    if placed_before(targets@, x, i + 1) {
                        let j = choose|j: int|
                            0 <= j < i + 1 && j < targets@.len() && targets@[j] == x;
                        if j < i {
                            assert(placed_before(targets@, x, i as int));
                        }
                    }
                    if placed_before(targets@, x, i as int) {
                        let j = choose|j: int|
                            0 <= j < i && j < targets@.len() && targets@[j] == x;
                        assert(0 <= j < i + 1);
                    }
                    if x == h {
                        assert(targets@[i as int] == x);
                    }
                }
                before.visibility_keeps_tree(next, visible);
                if cur.contains(h) {
                    assert(self@.nodes =~= cur.nodes.insert(
                        h,
                        BaseView { visibility: visible, ..cur.nodes[h] },
                    ));
                } else {
                    assert(self@.nodes =~= cur.nodes);
                }
                assert forall|x: Handle| self@.nodes.contains_key(x) implies self@.nodes[x]
                    == before.with_visibility(next, visible).nodes[x] by {
                    assert(next.contains(x) == (placed_before(targets@, x, i as int) || x == h));
                }
                assert(self@.nodes =~= before.with_visibility(next, visible).nodes);
            }
            i = i + 1;
        }
        proof {
            let all = Set::new(|x: Handle| placed_before(targets@, x, targets@.len() as int));
            assert(all =~= Set::new(|x: Handle| targets@.contains(x))) by {
                assert forall|x: Handle| all.contains(x) <==> targets@.contains(x) by {
                    if all.contains(x) {
                        let j = choose|j: int|
                            0 <= j < targets@.len() && j < targets@.len() && targets@[j] == x;
                        assert(targets@[j] == x);
                    }
                    if targets@.contains(x) {
                        let j = choose|j: int| 0 <= j < targets@.len() && targets@[j] == x;
                        assert(0 <= j < targets@.len() && j < targets@.len() && targets@[j] == x);
                    }
                }
            }
        }
    }

    /// Applies the level-of-detail group of `node` for the normalized camera
    /// distance `distance`, and returns the place of the selected level. The
    /// objects of the selected level are shown and the objects of the other
    /// levels of the group are hidden, by their own visibility; the global
    /// visibility follows in the next update. Nothing is selected, and
    /// nothing changes, where `node` is not valid or has no group, or where no
    /// level of the group holds the distance.
    pub fn apply_lod(&mut self, node: Handle, distance: i64) -> (selected: Option<usize>)
        requires
            old(self).wf(),
        ensures
            final(self).wf(),
            match old(self)@.lod_choice(node, distance as int) {
                Some(s) => selected == Some(s as usize) && final(self)@ == old(self)@.after_lod(
                    old(self)@.nodes[node].lod_group->0,
                    s,
                ),
                None => selected is None && final(self)@ == old(self)@,
            },
            final(self).slot_count() == old(self).slot_count(),
            final(self).spec_has_room() == old(self).spec_has_room(),
            forall|x: Handle| old(self).is_stale(x) == final(self).is_stale(x),
    {
        let ghost before = self@;
        let mut selected: Option<usize> = None;
        let mut to_hide: Vec<Handle> = Vec::new();
        let mut to_show: Vec<Handle> = Vec::new();
        match self.pool.get(node) {
            Some(owner) => {
                match owner.base().lod_group() {
                    Some(group) => {
                        selected = group.select(distance);
                        match selected {
                            Some(s) => {
                                to_hide = group.objects_except(s);
                                to_show = group.objects_at(s);
                            },
                            None => {},
                        }
                    },
                    None => {},
                }
            },
            None => {},
        }
        match selected {
            Some(s) => {
                let ghost group = before.nodes[node].lod_group->0;
                proof {
                    assert(Set::new(|x: Handle| to_hide@.contains(x)) =~= group.hidden(s as int));
                    assert(Set::new(|x: Handle| to_show@.contains(x)) =~= group.shown(s as int));
                }
                self.set_visibility_of(&to_hide, false);
                self.set_visibility_of(&to_show, true);
            },
            None => {},
        }
        selected
    }
}

} // verus!

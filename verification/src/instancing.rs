//! Instancing: copying the graph of a resource into a scene.
//!
//! A resource, such as a model, holds a graph of its own. To instantiate it is
//! to copy that graph, node by node, under the root of the scene. Every copy
//! remembers the resource and, as its original, the node it mirrors; the copy
//! of the root of the resource is marked as the root of the instance. The
//! graph of the resource is read only.

use crate::base::{BaseView, ResourceId};
use crate::graph::Graph;
use crate::handle::Handle;
use crate::hierarchy::GraphView;
use crate::node::Node;
use crate::transform::Matrix4;
use crate::restore::listed;
use crate::traversal::placed_before;
use vstd::prelude::*;

verus! {

/// The state with which the copy of a node of a resource starts: what
/// `raw_copy` takes from the node, and the record of where the copy comes
/// from. `original` is the handle of the node in the graph of the resource.
pub open spec fn instance_state(
    template: BaseView,
    resource: ResourceId,
    original: Handle,
    is_root: bool,
) -> BaseView {
    BaseView {
        name: template.name,
        local_transform: template.local_transform,
        visibility: template.visibility,
        global_visibility: true,
        parent: Handle::spec_none(),
        children: Seq::<Handle>::empty(),
        global_transform: Matrix4::spec_identity(),
        inv_bind_pose_transform: template.inv_bind_pose_transform,
        resource: Some(resource),
        original,
        is_resource_instance: is_root,
        lifetime: template.lifetime,
        depth_offset: 0,
        lod_group: None,
    }
}

impl GraphView {
    /// The node under which the copy of the node at place `i` of `order` is
    /// put: the root of the scene for the first, and for any other the copy
    /// of its parent.
    pub open spec fn graft_parent(
        self,
        source: GraphView,
        order: Seq<Handle>,
        instances: Seq<Handle>,
        i: int,
    ) -> Handle {
        if i == 0 {
            self.root
        } else {
            instances[order.index_of(source.parent_of(order[i]))]
        }
    }

    /// The scene after the first `k` nodes of `order`, a level order of the
    /// graph `source` of a resource, were copied into it: the copy of the
    /// node at place `i` stands under the handle `instances[i]`, as the last
    /// child of the node that `graft_parent` names.
    pub open spec fn grafted(
        self,
        source: GraphView,
        order: Seq<Handle>,
        instances: Seq<Handle>,
        resource: ResourceId,
        k: nat,
    ) -> GraphView
        decreases k,
    {
        if k == 0 {
            self
        } else {
            let i = k - 1;
            self.grafted(source, order, instances, resource, i as nat).after_add_under(
                instances[i],
                instance_state(source.nodes[order[i]], resource, order[i], i == 0),
                self.graft_parent(source, order, instances, i),
            )
        }
    }

    /// What was a node of the scene before copies were put into it is one
    /// after.
    pub proof fn graft_keeps(
        self,
        source: GraphView,
        order: Seq<Handle>,
        instances: Seq<Handle>,
        resource: ResourceId,
        k: nat,
        x: Handle,
    )
        requires
            self.contains(x),
        ensures
            self.grafted(source, order, instances, resource, k).contains(x),
        decreases k,
    {
        if k > 0 {
            self.graft_keeps(source, order, instances, resource, (k - 1) as nat, x);
        }
    }

    /// What the first `k` copies make of a scene depends on the handles of
    /// these copies only.
    pub proof fn grafted_needs_first(
        self,
        source: GraphView,
        order: Seq<Handle>,
        a: Seq<Handle>,
        b: Seq<Handle>,
        resource: ResourceId,
        k: nat,
    )
        requires
            source.is_tree(),
            source.is_level_order(source.root, order),
            k <= order.len(),
            k <= a.len(),
            k <= b.len(),
            forall|i: int| 0 <= i < k ==> a[i] == b[i],
        ensures
            self.grafted(source, order, a, resource, k) == self.grafted(
                source,
                order,
                b,
                resource,
                k,
            ),
        decreases k,
    {
        if k > 0 {
            let i = k - 1;
            self.grafted_needs_first(source, order, a, b, resource, i as nat);
            if i > 0 {
                let j = source.place_among_brothers(order, i);
                source.place_in_order(order, j);
            }
        }
    }
}

impl GraphView {
    /// The copy of the node `x` of the resource: the instance at the place at
    /// which `x` stands in `order`.
    pub open spec fn copy_of(order: Seq<Handle>, instances: Seq<Handle>, x: Handle) -> Handle {
        instances[order.index_of(x)]
    }

    /// The state of the copy of the node at place `i` of `order` after the
    /// first `k` nodes were copied: the state it started with, under its
    /// parent, and with the copies of those of the node's children that were
    /// copied, in their order.
    pub open spec fn copy_state(
        self,
        source: GraphView,
        order: Seq<Handle>,
        instances: Seq<Handle>,
        resource: ResourceId,
        k: int,
        i: int,
    ) -> BaseView {
        BaseView {
            parent: self.graft_parent(source, order, instances, i),
            children: source.children_of(order[i]).take(
                listed(source.start_of(order, i), source.children_of(order[i]).len() as int, k),
            ).map_values(|c: Handle| GraphView::copy_of(order, instances, c)),
            ..instance_state(source.nodes[order[i]], resource, order[i], i == 0)
        }
    }

    /// The scene after the first `k` nodes were copied, node by node: what
    /// was a node of the scene is as it was, but that the root lists the copy
    /// of the root of the resource as its last child; and the copies are as
    /// `copy_state` says.
    pub open spec fn with_copies(
        self,
        source: GraphView,
        order: Seq<Handle>,
        instances: Seq<Handle>,
        resource: ResourceId,
        k: int,
    ) -> GraphView {
        GraphView {
            nodes: Map::new(
                |x: Handle| self.contains(x) || placed_before(instances, x, k),
                |x: Handle|
                    if self.contains(x) {
                        if x == self.root && k > 0 {
                            BaseView {
                                children: self.children_of(x).push(instances[0]),
                                ..self.nodes[x]
                            }
                        } else {
                            self.nodes[x]
                        }
                    } else {
                        self.copy_state(
                            source,
                            order,
                            instances,
                            resource,
                            k,
                            instances.index_of(x),
                        )
                    },
            ),
            root: self.root,
        }
    }

    /// The law of instancing. Copying the nodes of a resource one by one
    /// under the copies of their parents gives a copy of the whole: every
    /// copy starts with the state of its original in what `raw_copy` takes
    /// of it, stands under the copy of the original's parent, and lists the
    /// copies of the original's children in the original's order. The scene
    /// is changed in nothing else but that its root lists the copy of the
    /// root of the resource as its last child.
    #[verifier::rlimit(40)]
    pub proof fn grafted_is_a_copy(
        self,
        source: GraphView,
        order: Seq<Handle>,
        instances: Seq<Handle>,
        resource: ResourceId,
        k: int,
    )
        requires
            self.contains(self.root),
            source.is_tree(),
            source.is_level_order(source.root, order),
            instances.len() == order.len(),
            instances.no_duplicates(),
            forall|i: int| 0 <= i < instances.len() ==> !self.contains(#[trigger] instances[i]),
            0 <= k <= order.len(),
        ensures
            self.grafted(source, order, instances, resource, k as nat) == self.with_copies(
                source,
                order,
                instances,
                resource,
                k,
            ),
        decreases k,
    {
        let now = self.with_copies(source, order, instances, resource, k);
        if k == 0 {
            assert(now.nodes =~= self.nodes) by {
                assert forall|x: Handle| !placed_before(instances, x, 0) by {}
            }
        } else {
            let i = k - 1;
            self.grafted_is_a_copy(source, order, instances, resource, i);
            let was = self.with_copies(source, order, instances, resource, i);
            let h = instances[i];
            let o = order[i];
            let parent = self.graft_parent(source, order, instances, i);
            let state = instance_state(source.nodes[o], resource, o, i == 0);
            let added = was.after_add_under(h, state, parent);
            source.place_in_order(order, i);
            assert(instances.index_of(h) == i) by {
                assert(instances.contains(h));
                let j = instances.index_of(h);
                assert(instances[j] == instances[i]);
            }
            assert forall|x: Handle| placed_before(instances, x, k) <==> placed_before(
                instances,
                x,
                i,
            ) || x == h by {
                if placed_before(instances, x, k) {
                    let j = choose|j: int| 0 <= j < k && j < instances.len() && instances[j] == x;
                    if j < i {
                        assert(placed_before(instances, x, i));
                    }
                }
                if placed_before(instances, x, i) {
                    let j = choose|j: int| 0 <= j < i && j < instances.len() && instances[j] == x;
                    assert(0 <= j < k);
                }
            }
            assert forall|x: Handle| placed_before(instances, x, k) implies instances.index_of(x)
                < k && instances[instances.index_of(x)] == x && !self.contains(x) by {
                let j = choose|j: int| 0 <= j < k && j < instances.len() && instances[j] == x;
                assert(instances.contains(x));
                let w = instances.index_of(x);
                assert(instances[w] == instances[j]);
            }
            let image = |c: Handle| GraphView::copy_of(order, instances, c);
            if i == 0 {
                assert forall|x: Handle| added.nodes.contains_key(x) implies added.nodes[x]
                    == now.nodes[x] by {
                    if x == h {
                        assert(source.children_of(o).take(0).map_values(image) =~= Seq::<
                            Handle,
                        >::empty());
                    }
                }
                assert(added.nodes =~= now.nodes);
            } else {
                let j = source.place_among_brothers(order, i);
                source.place_in_order(order, j);
                let start = source.start_of(order, j);
                let list = source.children_of(order[j]);
                let t = i - start;
                assert(parent == instances[j]);
                assert(instances.index_of(parent) == j) by {
                    assert(instances.contains(parent));
                    let w = instances.index_of(parent);
                    assert(instances[w] == instances[j]);
                }
                assert(image(list[t]) == h);
                assert forall|x: Handle| added.nodes.contains_key(x) implies added.nodes[x]
                    == now.nodes[x] by {
                    if x == h {
                        assert(source.children_of(o).take(0).map_values(image) =~= Seq::<
                            Handle,
                        >::empty());
                    } else if x == parent {
                        assert(list.take(t).map_values(image).push(image(list[t]))
                            =~= list.take(t + 1).map_values(image));
                    } else if !self.contains(x) {
                        let w = instances.index_of(x);
                        source.place_in_order(order, w);
                        let from = source.start_of(order, w);
                        let len = source.children_of(order[w]).len() as int;
                        if from <= i < from + len {
                            source.rows_are_apart(order, w, i);
                            assert(order[w] == order[j]);
                        }
                    }
                }
                assert(added.nodes =~= now.nodes);
            }
        }
    }
}

/// The copies that an instantiation made: `instances[i]` is the copy of the
/// node `originals[i]` of the resource. The originals stand level by level,
/// the root of the resource first.
#[derive(Debug, PartialEq, Eq)]
pub struct Instantiation {
    pub originals: Vec<Handle>,
    pub instances: Vec<Handle>,
}

impl Instantiation {
    /// The copy of the root of the resource; none where nothing was copied.
    pub fn root(&self) -> (r: Handle)
        ensures
            r == if self.instances@.len() > 0 {
                self.instances@[0]
            } else {
                Handle::spec_none()
            },
    {
        if self.instances.len() > 0 {
            self.instances[0]
        } else {
            Handle::none()
        }
    }

    /// The copy of the node `original` of the resource: the instance at the
    /// first place at which `original` stands among the originals. None
    /// where it stands at none.
    pub fn instance_of(&self, original: Handle) -> (r: Handle)
        requires
            self.originals@.len() == self.instances@.len(),
        ensures
            self.originals@.contains(original) ==> exists|i: int|
                0 <= i < self.originals@.len() && self.originals@[i] == original && r
                    == self.instances@[i] && !placed_before(self.originals@, original, i),
            !self.originals@.contains(original) ==> r.spec_is_none(),
    {
        let mut i: usize = 0;
        while i < self.originals.len()
            invariant
                i <= self.originals.len(),
                self.originals@.len() == self.instances@.len(),
                forall|j: int| 0 <= j < i ==> self.originals@[j] != original,
            decreases self.originals.len() - i,
        {
            if self.originals[i] == original {
                proof {
                    assert(!placed_before(self.originals@, original, i as int)) by {
                        if placed_before(self.originals@, original, i as int) {
                            let j = choose|j: int|
                                0 <= j < i && j < self.originals@.len() && self.originals@[j]
                                    == original;
                            assert(self.originals@[j] != original);
                        }
                    }
                }
                return self.instances[i];
            }
            i = i + 1;
        }
        Handle::none()
    }
}

impl Graph {
    /// Copies the graph `source` of the resource `resource` into this scene,
    /// under its root, and returns the copies with their originals. Every
    /// copy starts with the state that `instance_state` gives it. The copy of
    /// a node is a child of the copy of the node's parent, and brothers stay
    /// in their order. `source` is not changed. Nothing is copied, and
    /// nothing is returned, where the arena of the scene has not the room
    /// for as many nodes as `source` has.
    #[verifier::rlimit(40)]
    pub fn instantiate(&mut self, source: &Graph, resource: ResourceId) -> (r: Option<
        Instantiation,
    >)
        requires
            old(self).wf(),
            source.wf(),
        ensures
            final(self).wf(),
            r is None <==> old(self).slot_count() + source@.nodes.dom().len() >= u32::MAX,
            r is None ==> final(self)@ == old(self)@,
            r matches Some(made) ==> {
                &&& source@.is_level_order(source@.root, made.originals@)
                &&& made.instances@.len() == made.originals@.len()
                &&& made.instances@.no_duplicates()
                &&& forall|i: int|
                    0 <= i < made.instances@.len() ==> !old(self)@.contains(
                        #[trigger] made.instances@[i],
                    ) && final(self)@.contains(made.instances@[i])
                &&& final(self)@ == old(self)@.grafted(
                    source@,
                    made.originals@,
                    made.instances@,
                    resource,
                    made.originals@.len(),
                )
            },
            forall|x: Handle| old(self).is_stale(x) ==> final(self).is_stale(x),
    {
        let ghost before = self@;
        let ghost start = *self;
        let ghost src = source@;
        let order: Vec<Handle> = source.traverse(source.root());
        proof {
            src.top_down_from_root_is_all(order@);
        }
        let count: usize = order.len();
        let used: usize = self.slots();
        if count >= u32::MAX as usize - used {
            return None;
        }
        let width: usize = source.slots();
        let mut places: Vec<usize> = Vec::new();
        while places.len() < width
            invariant
                places@.len() <= width,
            decreases width - places@.len(),
        {
            places.push(0);
        }
        let mut instances: Vec<Handle> = Vec::new();
        let mut k: usize = 0;
        while k < count
            invariant
                k <= count,
                count == order@.len(),
                self.wf(),
                source.wf(),
                src == source@,
                src.is_level_order(src.root, order@),
                forall|x: Handle| #[trigger] order@.contains(x) <==> src.contains(x),
                instances@.len() == k,
                places@.len() == width,
                width == source.slot_count(),
                forall|i: int| 0 <= i < k ==> places@[order@[i].index as int] == i,
                forall|i: int|
                    0 <= i < k ==> !before.contains(#[trigger] instances@[i]) && self@.contains(
                        instances@[i],
                    ),
                instances@.no_duplicates(),
                self@.root == before.root,
                self@.contains(before.root),
                self@ == before.grafted(src, order@, instances@, resource, k as nat),
                self.slot_count() <= start.slot_count() + k,
                start.slot_count() + count < u32::MAX,
                forall|x: Handle| start.is_stale(x) ==> self.is_stale(x),
            decreases count - k,
        {
            let ghost cur = self@;
            let ghost made = instances@;
            let o: Handle = order[k];
            let is_root: bool = k == 0;
            proof {
                assert(order@.contains(o));
                source.index_is_a_slot(o);
                src.place_in_order(order@, k as int);
                self.room_below_limit();
            }
            let mut parent: Handle = self.root();
            if !is_root {
                match source.get(o) {
                    Some(node) => {
                        let above: Handle = node.base().parent();
                        proof {
                            let j = src.place_among_brothers(order@, k as int);
                            src.place_in_order(order@, j);
                            source.index_is_a_slot(above);
                            assert(order@.index_of(above) == j);
                        }
                        parent = instances[places[above.index as usize]];
                    },
                    None => {},
                }
            }
            let mut copy = match source.get(o) {
                Some(node) => node.base().raw_copy(),
                None => crate::base::BaseBuilder::new().build(),
            };
            copy.set_origin(Some(resource), o, is_root);
            proof {
                assert(copy@ == instance_state(src.nodes[o], resource, o, is_root));
                assert(parent == before.graft_parent(src, order@, made, k as int));
            }
            let h: Handle = self.add_child(parent, Node::Base(copy));
            instances.push(h);
            let ghost placed = places@;
            places.set(o.index as usize, k);
            proof {
                let grown = instances@;
                before.grafted_needs_first(src, order@, made, grown, resource, k as nat);
                assert(grown[k as int] == h);
                assert(before.graft_parent(src, order@, grown, k as int) == parent) by {
                    if k > 0 {
                        let j = src.place_among_brothers(order@, k as int);
                        src.place_in_order(order@, j);
                    }
                }
                cur.add_keeps_tree(h, instance_state(src.nodes[o], resource, o, is_root), parent);
                source.handles_are_arena_like();
                assert forall|i: int| 0 <= i < k + 1 implies places@[order@[i].index as int]
                    == i by {
                    if i < k {
                        assert(order@.contains(order@[i]));
                        assert(src.contains(order@[i]) && src.contains(o));
                        assert(order@[i] != order@[k as int]);
                        assert(order@[i].index != o.index);
                        source.index_is_a_slot(order@[i]);
                        assert(placed[order@[i].index as int] == i);
                        assert(places@[order@[i].index as int] == placed[order@[i].index as int]);
                    }
                }
                assert(grown.no_duplicates()) by {
                    assert forall|a: int, b: int|
                        0 <= a < grown.len() && 0 <= b < grown.len() && a != b implies grown[a]
                        != grown[b] by {
                        if a == k {
                            assert(cur.contains(made[b]));
                        } else if b == k {
                            assert(cur.contains(made[a]));
                        } else {
                            assert(made[a] != made[b]);
                        }
                    }
                }
                assert forall|i: int| 0 <= i < k + 1 implies !before.contains(
                    #[trigger] grown[i],
                ) && self@.contains(grown[i]) by {
                    if i < k {
                        assert(self@.contains(made[i]));
                    } else {
                        assert(!before.contains(h)) by {
                            if before.contains(h) {
                                before.graft_keeps(src, order@, made, resource, k as nat, h);
                            }
                        }
                    }
                }
            }
            k = k + 1;
        }
        Some(Instantiation { originals: order, instances })
    }

}

} // verus!

//! What one update of the graph computes: lifetimes that run down, the nodes
//! that go with them, and the cached global state of those that stay.

use crate::base::BaseView;
use crate::handle::Handle;
use crate::hierarchy::GraphView;
use crate::transform::{Matrix4, Transform};
use vstd::prelude::*;

verus! {

/// A lifetime after `dt` microseconds have passed: what is left of it, and
/// zero where nothing is left. A node without lifetime stays so.
pub open spec fn aged(lifetime: Option<u64>, dt: u64) -> Option<u64> {
    match lifetime {
        Some(t) => Some(
            if t > dt {
                (t - dt) as u64
            } else {
                0u64
            },
        ),
        None => None,
    }
}

/// Whether a lifetime runs out within `dt` microseconds.
pub open spec fn runs_out(lifetime: Option<u64>, dt: u64) -> bool {
    lifetime matches Some(t) && t <= dt
}

/// The entries of `list` that are not in `gone`, in their order.
pub open spec fn kept(list: Seq<Handle>, gone: Set<Handle>) -> Seq<Handle>
    decreases list.len(),
{
    if list.len() == 0 {
        list
    } else if gone.contains(list.last()) {
        kept(list.drop_last(), gone)
    } else {
        kept(list.drop_last(), gone).push(list.last())
    }
}

/// Keeping from a list with one more entry keeps that entry or not, after what
/// was kept before.
pub proof fn kept_push(list: Seq<Handle>, x: Handle, gone: Set<Handle>)
    ensures
        kept(list.push(x), gone) == if gone.contains(x) {
            kept(list, gone)
        } else {
            kept(list, gone).push(x)
        },
{
    assert(list.push(x).drop_last() =~= list);
}

/// What is kept is what was listed and is not gone.
pub proof fn kept_members(list: Seq<Handle>, gone: Set<Handle>)
    ensures
        forall|x: Handle| #[trigger]
            kept(list, gone).contains(x) <==> list.contains(x) && !gone.contains(x),
        kept(list, gone).len() <= list.len(),
    decreases list.len(),
{
    if list.len() > 0 {
        let front = list.drop_last();
        let last = list.last();
        kept_members(front, gone);
        let out = kept(list, gone);
        let sub = kept(front, gone);
        assert forall|x: Handle| #[trigger] out.contains(x) <==> list.contains(x)
            && !gone.contains(x) by {
            if out.contains(x) {
                let i = choose|i: int| 0 <= i < out.len() && out[i] == x;
                if i < sub.len() {
                    assert(sub[i] == x);
                    assert(sub.contains(x));
                    let j = choose|j: int| 0 <= j < front.len() && front[j] == x;
                    assert(list[j] == x);
                } else {
                    assert(x == last);
                    assert(list[list.len() - 1] == x);
                }
            }
            if list.contains(x) && !gone.contains(x) {
                let j = choose|j: int| 0 <= j < list.len() && list[j] == x;
                if j < front.len() {
                    assert(front[j] == x);
                    assert(sub.contains(x));
                    let i = choose|i: int| 0 <= i < sub.len() && sub[i] == x;
                    assert(out[i] == x);
                } else {
                    assert(out[out.len() - 1] == x);
                }
            }
        }
    }
}

/// What is kept of a list without repetition is without repetition.
pub proof fn kept_distinct(list: Seq<Handle>, gone: Set<Handle>)
    requires
        list.no_duplicates(),
    ensures
        kept(list, gone).no_duplicates(),
    decreases list.len(),
{
    if list.len() > 0 {
        let front = list.drop_last();
        let last = list.last();
        kept_distinct(front, gone);
        kept_members(front, gone);
        let sub = kept(front, gone);
        if !gone.contains(last) {
            assert(!sub.contains(last)) by {
                if front.contains(last) {
                    let j = choose|j: int| 0 <= j < front.len() && front[j] == last;
                    assert(list[j] == list[list.len() - 1]);
                }
            }
            assert forall|i: int, j: int| 0 <= i < sub.len() + 1 && 0 <= j < sub.len() + 1 && i
                != j implies sub.push(last)[i] != sub.push(last)[j] by {
                if i == sub.len() {
                    assert(sub.contains(sub[j]));
                } else if j == sub.len() {
                    assert(sub.contains(sub[i]));
                }
            }
        }
    }
}

impl GraphView {
    /// Whether the lifetime of node `h` runs out within `dt` microseconds. The
    /// lifetime of the root never does: the root stays.
    pub open spec fn expires(self, h: Handle, dt: u64) -> bool {
        self.contains(h) && h != self.root && runs_out(self.nodes[h].lifetime, dt)
    }

    /// Whether node `h` goes in an update by `dt` microseconds: its own
    /// lifetime runs out, or that of one of its ancestors.
    pub open spec fn doomed(self, h: Handle, dt: u64) -> bool {
        exists|a: Handle| self.expires(a, dt) && self.reaches(a, h)
    }

    /// The nodes that go in an update by `dt` microseconds.
    pub open spec fn doomed_set(self, dt: u64) -> Set<Handle> {
        Set::new(|h: Handle| self.doomed(h, dt))
    }

    /// Whether the global visibility of node `h` is what it has to be: the
    /// node is globally visible exactly when it is visible itself and its
    /// parent is globally visible. Above the root all counts as visible.
    pub open spec fn visibility_settled(self, h: Handle) -> bool {
        self.nodes[h].global_visibility == (self.nodes[h].visibility && (h == self.root
            || self.nodes[self.parent_of(h)].global_visibility))
    }

    /// Whether the global transform of node `h` is what `compose` makes of
    /// the global transform of its parent and its own local transform. Above
    /// the root the identity stands in for a parent's transform.
    pub open spec fn transform_settled<F: Fn(Matrix4, Transform) -> Matrix4>(
        self,
        h: Handle,
        compose: F,
    ) -> bool {
        call_ensures(
            compose,
            (
                if h == self.root {
                    Matrix4::spec_identity()
                } else {
                    self.nodes[self.parent_of(h)].global_transform
                },
                self.nodes[h].local_transform,
            ),
            self.nodes[h].global_transform,
        )
    }

    /// Whether node `h` is, in this graph, what the first pass of an update
    /// by `dt` microseconds makes of what it was in `before`: its cached
    /// global state is settled, its lifetime has run down, and it is marked
    /// by a lifetime of zero exactly when it is doomed. Nothing else differs.
    pub open spec fn ticked_from<F: Fn(Matrix4, Transform) -> Matrix4>(
        self,
        before: GraphView,
        h: Handle,
        dt: u64,
        compose: F,
    ) -> bool {
        let was = before.nodes[h];
        let now = self.nodes[h];
        &&& now == BaseView {
            global_visibility: now.global_visibility,
            global_transform: now.global_transform,
            lifetime: now.lifetime,
            ..was
        }
        &&& self.visibility_settled(h)
        &&& self.transform_settled(h, compose)
        &&& (h != self.root && now.lifetime == Some(0u64)) <==> before.doomed(h, dt)
        &&& !before.doomed(h, dt) ==> now.lifetime == aged(was.lifetime, dt)
    }

    /// Whether this graph is what an update by `dt` microseconds makes of
    /// `before`. The nodes that stay are those that are not doomed. Of each of
    /// them the lifetime has run down by `dt`, the list of children has lost
    /// the doomed ones, and the cached global state is settled: the global
    /// visibility by the rule of `visibility_settled`, the global transform as
    /// `compose` gave it. All else is as it was.
    pub open spec fn updated_from<F: Fn(Matrix4, Transform) -> Matrix4>(
        self,
        before: GraphView,
        dt: u64,
        compose: F,
    ) -> bool {
        &&& self.root == before.root
        &&& forall|h: Handle|
            #![trigger self.nodes[h]]
            self.contains(h) <==> before.contains(h) && !before.doomed(h, dt)
        &&& forall|h: Handle|
            #![trigger self.nodes[h]]
            self.contains(h) ==> {
                &&& self.nodes[h] == BaseView {
                    global_visibility: self.nodes[h].global_visibility,
                    global_transform: self.nodes[h].global_transform,
                    lifetime: aged(before.nodes[h].lifetime, dt),
                    children: kept(before.nodes[h].children, before.doomed_set(dt)),
                    ..before.nodes[h]
                }
                &&& self.visibility_settled(h)
                &&& self.transform_settled(h, compose)
            }
    }

    /// Whether the two graphs have the same nodes, linked in the same way.
    pub open spec fn same_links(self, other: GraphView) -> bool {
        &&& self.root == other.root
        &&& self.nodes.dom() == other.nodes.dom()
        &&& forall|h: Handle|
            #![trigger other.nodes[h]]
            self.contains(h) ==> self.nodes[h].parent == other.nodes[h].parent
                && self.nodes[h].children == other.nodes[h].children
    }

    /// The graph without the nodes in `gone`: they are no nodes any more, and
    /// no list of children holds them.
    pub open spec fn pruned(self, gone: Set<Handle>) -> GraphView {
        GraphView {
            nodes: Map::new(
                |h: Handle| self.contains(h) && !gone.contains(h),
                |h: Handle|
                    BaseView { children: kept(self.children_of(h), gone), ..self.nodes[h] },
            ),
            root: self.root,
        }
    }

    /// Whether `gone` can be pruned: it spares the root, and with a node it
    /// holds the node's children.
    pub open spec fn prunable(self, gone: Set<Handle>) -> bool {
        &&& !gone.contains(self.root)
        &&& forall|h: Handle|
            #![trigger gone.contains(h)]
            self.contains(h) && h != self.root && gone.contains(self.parent_of(h))
                ==> gone.contains(h)
    }

    /// The root is not doomed. Any other node is doomed exactly when its own
    /// lifetime runs out or its parent is doomed.
    pub proof fn doom_descends(self, h: Handle, dt: u64)
        requires
            self.is_tree(),
            self.contains(h),
        ensures
            h == self.root ==> !self.doomed(h, dt),
            h != self.root ==> (self.doomed(h, dt) <==> self.expires(h, dt) || self.doomed(
                self.parent_of(h),
                dt,
            )),
    {
        if self.doomed(h, dt) {
            let a = choose|a: Handle| self.expires(a, dt) && self.reaches(a, h);
            if h == self.root {
                self.root_has_no_ancestor(a);
            } else if a != h {
                self.reaches_via_parent(a, h);
            }
        }
        if h != self.root {
            if self.expires(h, dt) {
                self.reaches_itself(h);
            }
            if self.doomed(self.parent_of(h), dt) {
                let a = choose|a: Handle| self.expires(a, dt) && self.reaches(a, self.parent_of(h));
                self.reaches_through_parent(a, h);
            }
        }
    }

    /// The doomed nodes can be pruned.
    pub proof fn doomed_is_prunable(self, dt: u64)
        requires
            self.is_tree(),
        ensures
            self.prunable(self.doomed_set(dt)),
    {
        let gone = self.doomed_set(dt);
        self.doom_descends(self.root, dt);
        assert forall|h: Handle| #![trigger gone.contains(h)] self.contains(h) && h != self.root
            && gone.contains(self.parent_of(h)) implies gone.contains(h) by {
            self.doom_descends(h, dt);
        }
    }

    /// Graphs with the same links are trees together.
    pub proof fn same_links_same_tree(self, other: GraphView)
        requires
            self.is_tree(),
            self.same_links(other),
        ensures
            other.is_tree(),
            other.ranked_by(self.depth()),
    {
        self.depth_is_rank();
        let depth = self.depth();
        assert forall|h: Handle, c: Handle| other.is_child(h, c) == self.is_child(h, c) by {
            if other.contains(h) {
                assert(self.nodes[h].children == other.nodes[h].children);
            }
        }
        assert forall|h: Handle| #![trigger other.nodes[h]] other.contains(h) && h
            != other.root implies other.is_child(other.parent_of(h), h) by {
            assert(self.is_child(self.parent_of(h), h));
        }
        assert forall|h: Handle, c: Handle| #![trigger other.is_child(h, c)] other.is_child(
            h,
            c,
        ) implies other.contains(c) && other.parent_of(c) == h by {
            assert(self.is_child(h, c));
        }
        assert forall|h: Handle| #![trigger other.nodes[h]] other.contains(
            h,
        ) implies other.children_of(h).no_duplicates() by {
            assert(self.nodes[h].children.no_duplicates());
        }
        assert(other.parent_of(other.root) == self.parent_of(self.root));
        assert(other.ranked_by(depth)) by {
            assert forall|h: Handle| #![trigger depth[h]] other.contains(h) && h
                != other.root implies depth[h] == depth[other.parent_of(h)] + 1 by {
                assert(other.nodes[h].parent == self.nodes[h].parent);
            }
        }
    }

    /// Pruning keeps the tree a tree and keeps every node's state well formed.
    pub proof fn prune_keeps_tree(self, gone: Set<Handle>)
        requires
            self.is_tree(),
            self.prunable(gone),
        ensures
            self.pruned(gone).is_tree(),
            self.nodes_wf() ==> self.pruned(gone).nodes_wf(),
    {
        let after = self.pruned(gone);
        let depth = self.depth();
        self.depth_is_rank();
        assert(after.nodes.dom().subset_of(self.nodes.dom()));
        vstd::set_lib::lemma_len_subset(after.nodes.dom(), self.nodes.dom());
        assert forall|x: Handle| #![trigger after.nodes[x]] after.contains(x) && x
            != after.root implies after.is_child(after.parent_of(x), x) by {
            let q = self.parent_of(x);
            self.parent_is_node(x);
            assert(!gone.contains(x));
            assert(!gone.contains(q));
            kept_members(self.children_of(q), gone);
            assert(kept(self.children_of(q), gone).contains(x));
        }
        assert forall|x: Handle, c: Handle| #![trigger after.is_child(x, c)] after.is_child(
            x,
            c,
        ) implies after.contains(c) && after.parent_of(c) == x by {
            kept_members(self.children_of(x), gone);
            assert(kept(self.children_of(x), gone).contains(c));
            assert(self.is_child(x, c));
        }
        assert forall|x: Handle| #![trigger after.nodes[x]] after.contains(
            x,
        ) implies after.children_of(x).no_duplicates() by {
            assert(self.nodes[x].children.no_duplicates());
            kept_distinct(self.children_of(x), gone);
        }
        assert(after.ranked_by(depth)) by {
            assert forall|x: Handle| #![trigger depth[x]] after.contains(x) && x
                != after.root implies depth[x] == depth[after.parent_of(x)] + 1 by {
                assert(after.parent_of(x) == self.parent_of(x));
            }
        }
        if self.nodes_wf() {
            assert forall|x: Handle| #![trigger after.nodes[x]] after.contains(
                x,
            ) implies after.nodes[x].wf() by {
                assert(self.nodes[x].wf());
            }
        }
    }
}

} // verus!

//! What moving a node under another parent does to a tree.

use crate::base::BaseView;
use crate::handle::Handle;
use crate::hierarchy::GraphView;
use crate::removal::{without, without_is_exact};
use vstd::prelude::*;

verus! {

impl GraphView {
    /// Whether `child` can be made a child of `parent`: both are nodes,
    /// `child` is not the root, and `parent` is neither `child` nor one of its
    /// descendants, so that the move closes no circle.
    pub open spec fn linkable(self, child: Handle, parent: Handle) -> bool {
        &&& self.contains(child)
        &&& self.contains(parent)
        &&& child != self.root
        &&& !self.reaches(child, parent)
    }

    /// The nodes after `child` was taken out of the list of its parent.
    pub open spec fn unlisted(self, child: Handle) -> Map<Handle, BaseView> {
        let from = self.parent_of(child);
        self.nodes.insert(
            from,
            BaseView { children: without(self.children_of(from), child), ..self.nodes[from] },
        )
    }

    /// The graph after `child` was moved under `parent`: the former parent no
    /// longer lists it, `parent` lists it last, and its parent link points to
    /// `parent`. Its descendants move with it.
    pub open spec fn after_link(self, child: Handle, parent: Handle) -> GraphView {
        let unlisted = self.unlisted(child);
        let listed = unlisted.insert(
            parent,
            BaseView { children: unlisted[parent].children.push(child), ..unlisted[parent] },
        );
        GraphView {
            nodes: listed.insert(child, BaseView { parent, ..listed[child] }),
            root: self.root,
        }
    }

    /// The graph after each of `children`, in order, was moved under `parent`
    /// where it could be, and left where it was otherwise.
    pub open spec fn after_links(self, children: Seq<Handle>, parent: Handle) -> GraphView
        decreases children.len(),
    {
        if children.len() == 0 {
            self
        } else {
            let next = if self.linkable(children[0], parent) {
                self.after_link(children[0], parent)
            } else {
                self
            };
            next.after_links(children.drop_first(), parent)
        }
    }

    /// While climbing from a node that is not `a`, `a` is above the node
    /// exactly when it is at or above the node's parent.
    pub proof fn reaches_steps_up(self, a: Handle, h: Handle)
        requires
            self.is_tree(),
            self.contains(h),
            h != a,
        ensures
            self.reaches(a, h) <==> h != self.root && self.reaches(a, self.parent_of(h)),
    {
        if self.reaches(a, h) {
            self.reaches_via_parent(a, h);
        }
        if h != self.root && self.reaches(a, self.parent_of(h)) {
            self.reaches_through_parent(a, h);
        }
    }

    /// Moving a node under a parent outside its own subtree keeps the tree a
    /// tree and keeps every node's state well formed.
    #[verifier::rlimit(40)]
    pub proof fn link_keeps_tree(self, child: Handle, parent: Handle)
        requires
            self.is_tree(),
            self.linkable(child, parent),
        ensures
            self.after_link(child, parent).is_tree(),
            self.after_link(child, parent).nodes.dom() == self.nodes.dom(),
            self.nodes_wf() ==> self.after_link(child, parent).nodes_wf(),
    {
        let after = self.after_link(child, parent);
        let from = self.parent_of(child);
        let list = self.children_of(from);
        let depth = self.depth();
        self.depth_is_rank();
        self.subtree_is_below(child);
        self.reaches_itself(child);
        assert(parent != child);
        assert(self.nodes[from].children.no_duplicates());
        assert(self.nodes[parent].children.no_duplicates());
        without_is_exact(list, child, list.index_of(child));
        let shorter = without(list, child);
        let unlisted = self.unlisted(child);
        let target = unlisted[parent].children;
        assert(after.nodes.dom() =~= self.nodes.dom());
        assert(after.children_of(parent) == target.push(child));
        assert(from != parent ==> after.children_of(from) == shorter);
        assert(from != parent ==> target == self.children_of(parent));
        assert(from == parent ==> target == shorter);
        assert(!target.contains(child)) by {
            if from != parent && target.contains(child) {
                assert(self.is_child(parent, child));
            }
        }
        assert forall|x: Handle| #[trigger] target.push(child).contains(x) <==> target.contains(x)
            || x == child by {
            if target.push(child).contains(x) {
                let i = choose|i: int|
                    0 <= i < target.push(child).len() && target.push(child)[i] == x;
                if i < target.len() {
                    assert(target[i] == x);
                }
            }
            if target.contains(x) {
                let i = choose|i: int| 0 <= i < target.len() && target[i] == x;
                assert(target.push(child)[i] == x);
            }
            if x == child {
                assert(target.push(child)[target.len() as int] == x);
            }
        }
        assert(target.no_duplicates());
        assert(target.push(child).no_duplicates()) by {
            assert forall|i: int, j: int| 0 <= i < target.len() + 1 && 0 <= j < target.len() + 1
                && i != j implies target.push(child)[i] != target.push(child)[j] by {
                if i == target.len() {
                    assert(target.contains(target[j]));
                } else if j == target.len() {
                    assert(target.contains(target[i]));
                }
            }
        }
        assert(after.links_ok()) by {
            assert forall|x: Handle| #![trigger after.nodes[x]] after.contains(x) && x
                != after.root implies after.is_child(after.parent_of(x), x) by {
                if x != child {
                    self.parent_is_node(x);
                    let q = self.parent_of(x);
                    assert(after.parent_of(x) == q);
                    if q == parent {
                        assert(target.contains(x));
                    } else if q == from {
                        assert(shorter.contains(x));
                    }
                }
            }
            assert forall|x: Handle, c: Handle| #![trigger after.is_child(x, c)] after.is_child(
                x,
                c,
            ) implies after.contains(c) && after.parent_of(c) == x by {
                if x == parent {
                    if c != child {
                        assert(target.contains(c));
                        assert(self.is_child(x, c));
                    }
                } else if x == from {
                    assert(shorter.contains(c));
                    assert(self.is_child(x, c));
                } else {
                    assert(self.is_child(x, c));
                }
            }
            assert forall|x: Handle| #![trigger after.nodes[x]] after.contains(
                x,
            ) implies after.children_of(x).no_duplicates() by {
                assert(self.nodes[x].children.no_duplicates());
            }
        }
        let delta: int = depth[parent] + 1 - depth[child];
        let moved = Map::<Handle, nat>::new(
            |x: Handle| true,
            |x: Handle|
                if self.reaches(child, x) {
                    (depth[x] + delta) as nat
                } else {
                    depth[x]
                },
        );
        assert(after.ranked_by(moved)) by {
            assert forall|x: Handle| #![trigger moved[x]] after.contains(x) && x
                != after.root implies moved[x] == moved[after.parent_of(x)] + 1 by {
                if x == child {
                } else {
                    let q = self.parent_of(x);
                    self.parent_is_node(x);
                    self.reaches_steps_up(child, x);
                    if self.reaches(child, x) {
                        self.ancestor_is_higher(child, x);
                        self.ancestor_is_higher(child, q);
                    }
                }
            }
        }
        if self.nodes_wf() {
            assert forall|x: Handle| #![trigger after.nodes[x]] after.contains(
                x,
            ) implies after.nodes[x].wf() by {
                assert(self.nodes[x].wf());
                assert(self.nodes[from].wf());
                assert(self.nodes[parent].wf());
            }
        }
    }
}

} // verus!

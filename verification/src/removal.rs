//! What removing a subtree does to a tree.

use crate::base::BaseView;
use crate::handle::Handle;
use crate::hierarchy::GraphView;
use vstd::prelude::*;

verus! {

/// The list without `c`: where `c` is listed, its first entry is taken out and
/// the others keep their order.
pub open spec fn without(list: Seq<Handle>, c: Handle) -> Seq<Handle> {
    if list.contains(c) {
        list.remove(list.index_of(c))
    } else {
        list
    }
}

/// In a list without repetition, taking out the entry at the place of `c`
/// takes out `c` and nothing else, and leaves no repetition.
pub proof fn without_is_exact(list: Seq<Handle>, c: Handle, i: int)
    requires
        list.no_duplicates(),
        0 <= i < list.len(),
        list[i] == c,
    ensures
        list.remove(i) == without(list, c),
        without(list, c).no_duplicates(),
        without(list, c).len() == list.len() - 1,
        forall|x: Handle| #[trigger] without(list, c).contains(x) <==> list.contains(x) && x != c,
{
    let k = list.index_of(c);
    assert(list.contains(c));
    assert(k == i);
    let shorter = list.remove(i);
    list.remove_ensures(i);
    assert forall|x: Handle| #[trigger] shorter.contains(x) <==> list.contains(x) && x != c by {
        if shorter.contains(x) {
            let j = choose|j: int| 0 <= j < shorter.len() && shorter[j] == x;
            if j < i {
                assert(list[j] == x);
            } else {
                assert(list[j + 1] == x);
            }
        }
        if list.contains(x) && x != c {
            let j = choose|j: int| 0 <= j < list.len() && list[j] == x;
            if j < i {
                assert(shorter[j] == x);
            } else {
                assert(shorter[j - 1] == x);
            }
        }
    }
    assert forall|a: int, b: int| 0 <= a < shorter.len() && 0 <= b < shorter.len() && a
        != b implies shorter[a] != shorter[b] by {
        let a0 = if a < i {
            a
        } else {
            a + 1
        };
        let b0 = if b < i {
            b
        } else {
            b + 1
        };
        assert(shorter[a] == list[a0]);
        assert(shorter[b] == list[b0]);
    }
}

impl GraphView {
    /// Whether `h` can be removed: it is a node, and not the root.
    pub open spec fn removable(self, h: Handle) -> bool {
        self.contains(h) && h != self.root
    }

    /// The graph after node `h` was removed with all its descendants: they
    /// are gone, and the parent of `h` no longer lists it. All else is as it
    /// was.
    pub open spec fn after_remove(self, h: Handle) -> GraphView {
        let p = self.parent_of(h);
        GraphView {
            nodes: self.nodes.insert(
                p,
                BaseView { children: without(self.children_of(p), h), ..self.nodes[p] },
            ).remove_keys(self.subtree(h)),
            root: self.root,
        }
    }

    /// Neither the root nor the parent of `h` is in the subtree of `h`.
    pub proof fn subtree_is_below(self, h: Handle)
        requires
            self.is_tree(),
            self.removable(h),
        ensures
            !self.reaches(h, self.root),
            !self.reaches(h, self.parent_of(h)),
            self.is_child(self.parent_of(h), h),
            self.reaches(h, h),
    {
        self.parent_is_node(h);
        self.child_is_reached(self.parent_of(h), h);
        if self.reaches(h, self.root) {
            self.root_has_no_ancestor(h);
        }
        if self.reaches(h, self.parent_of(h)) {
            self.reaches_is_antisymmetric(h, self.parent_of(h));
        }
    }

    /// Removing a subtree keeps the tree a tree, keeps every node's state well
    /// formed, and leaves the links of the nodes that stay as they were, but
    /// for the one entry in the list of the parent.
    pub proof fn remove_keeps_tree(self, h: Handle)
        requires
            self.is_tree(),
            self.removable(h),
        ensures
            self.after_remove(h).is_tree(),
            self.after_remove(h).ranked_by(self.depth()),
            self.nodes_wf() ==> self.after_remove(h).nodes_wf(),
            forall|x: Handle|
                #![trigger self.after_remove(h).nodes[x]]
                self.after_remove(h).contains(x) <==> self.contains(x) && !self.reaches(h, x),
            forall|x: Handle|
                #![trigger self.after_remove(h).nodes[x]]
                self.after_remove(h).contains(x) && x != self.parent_of(h) ==> self.after_remove(
                    h,
                ).nodes[x] == self.nodes[x],
    {
        let after = self.after_remove(h);
        let p = self.parent_of(h);
        let list = self.children_of(p);
        self.subtree_is_below(h);
        self.depth_is_rank();
        let k = list.index_of(h);
        assert(self.nodes[p].children.no_duplicates());
        without_is_exact(list, h, k);
        assert(after.nodes.dom().subset_of(self.nodes.dom()));
        vstd::set_lib::lemma_len_subset(after.nodes.dom(), self.nodes.dom());
        assert(after.contains(p));
        assert(after.children_of(p) == without(list, h));
        assert forall|x: Handle| #![trigger after.nodes[x]] after.contains(x) && x
            != after.root implies after.is_child(after.parent_of(x), x) by {
            let q = self.parent_of(x);
            self.parent_is_node(x);
            if self.reaches(h, q) {
                self.reaches_through_parent(h, x);
            }
            assert(after.contains(q));
            if q == p {
                assert(without(list, h).contains(x));
            }
        }
        assert forall|x: Handle, c: Handle| #![trigger after.is_child(x, c)] after.is_child(
            x,
            c,
        ) implies after.contains(c) && after.parent_of(c) == x by {
            if x == p {
                assert(without(list, h).contains(c));
            }
            assert(self.is_child(x, c));
            if self.reaches(h, c) {
                if c != h {
                    self.reaches_via_parent(h, c);
                }
            }
        }
        assert forall|x: Handle| #![trigger after.nodes[x]] after.contains(
            x,
        ) implies after.children_of(x).no_duplicates() by {
            assert(self.nodes[x].children.no_duplicates());
        }
        assert(after.ranked_by(self.depth())) by {
            assert forall|x: Handle| #![trigger self.depth()[x]] after.contains(x) && x
                != after.root implies self.depth()[x] == self.depth()[after.parent_of(x)] + 1 by {
                assert(after.parent_of(x) == self.parent_of(x));
            }
        }
        if self.nodes_wf() {
            assert forall|x: Handle| #![trigger after.nodes[x]] after.contains(
                x,
            ) implies after.nodes[x].wf() by {
                assert(self.nodes[x].wf());
            }
        }
    }
}

} // verus!

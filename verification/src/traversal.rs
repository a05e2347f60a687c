//! Top-down orders of a subtree, and the invariant of the walk that produces
//! one.
//!
//! The walk goes level by level: it visits a node, puts the children of the
//! node at the end of the row in the order in which the node lists them, and
//! goes on with the next node of the row.

use crate::handle::Handle;
use crate::hierarchy::GraphView;
use vstd::prelude::*;

verus! {

/// Whether `x` stands in `order` before place `i`.
pub open spec fn placed_before(order: Seq<Handle>, x: Handle, i: int) -> bool {
    exists|j: int| 0 <= j < i && j < order.len() && order[j] == x
}

/// Whether `list` stands in `order` from place `start` on, entry by entry.
pub open spec fn block_at(order: Seq<Handle>, start: int, list: Seq<Handle>) -> bool {
    &&& 0 <= start
    &&& start + list.len() <= order.len()
    &&& forall|k: int| 0 <= k < list.len() ==> order[start + k] == #[trigger] list[k]
}

impl GraphView {
    /// Whether `order` lists the node `from` and all its descendants, each
    /// once, `from` first, and every other one after its parent.
    pub open spec fn is_top_down(self, from: Handle, order: Seq<Handle>) -> bool {
        &&& order.no_duplicates()
        &&& forall|x: Handle| #[trigger] order.contains(x) <==> self.reaches(from, x)
        &&& order.len() > 0
        &&& order[0] == from
        &&& forall|i: int|
            0 < i < order.len() ==> placed_before(order, self.parent_of(#[trigger] order[i]), i)
    }

    /// Whether the children of the node at place `i` of `order` stand in
    /// `order` somewhere after place `i`, side by side and in the order in
    /// which the node lists them.
    pub open spec fn children_stand_together(self, order: Seq<Handle>, i: int) -> bool {
        exists|start: int| i < start && block_at(order, start, self.children_of(order[i]))
    }

    /// Whether `order` is a top-down order in which the children of every
    /// node stand side by side, in the order in which the node lists them.
    pub open spec fn is_level_order(self, from: Handle, order: Seq<Handle>) -> bool {
        &&& self.is_top_down(from, order)
        &&& forall|i: int| 0 <= i < order.len() ==> #[trigger] self.children_stand_together(order, i)
    }

    /// Whether `n` is one of the nodes of `order` from place `done` on, or a
    /// descendant of one.
    pub open spec fn covered(self, order: Seq<Handle>, done: int, n: Handle) -> bool {
        exists|i: int| done <= i < order.len() && self.reaches(#[trigger] order[i], n)
    }

    /// The invariant of the walk from `from`: the first `done` nodes of
    /// `order` were visited, the others wait. No node is listed twice; all
    /// are `from` or descendants of it; the parent of each, but for `from`,
    /// was visited and stands before it; the children of each visited node
    /// stand together; and what is not listed yet is below a node that waits.
    pub open spec fn walk_inv(self, from: Handle, order: Seq<Handle>, done: int) -> bool {
        &&& 0 <= done <= order.len()
        &&& order.len() > 0
        &&& order[0] == from
        &&& order.no_duplicates()
        &&& forall|x: Handle| #[trigger] order.contains(x) ==> self.reaches(from, x)
        &&& forall|i: int|
            0 < i < order.len() ==> placed_before(order, self.parent_of(#[trigger] order[i]), i)
                && placed_before(order, self.parent_of(order[i]), done)
        &&& forall|i: int| 0 <= i < done ==> #[trigger] self.children_stand_together(order, i)
        &&& forall|n: Handle|
            #[trigger] self.reaches(from, n) ==> order.contains(n) || self.covered(order, done, n)
    }

    /// The walk starts with `from` waiting.
    pub proof fn walk_starts(self, from: Handle)
        requires
            self.is_tree(),
            self.contains(from),
        ensures
            self.walk_inv(from, seq![from], 0),
    {
        let order = seq![from];
        self.reaches_itself(from);
        assert(order[0] == from);
        assert forall|n: Handle| #[trigger] self.reaches(from, n) implies order.contains(n)
            || self.covered(order, 0, n) by {
            if n == from {
                assert(order.contains(n));
            } else {
                assert(self.reaches(order[0], n));
            }
        }
    }

    /// A list of nodes without repetition is no longer than there are nodes.
    pub proof fn distinct_nodes_are_few(self, list: Seq<Handle>)
        requires
            self.nodes.dom().finite(),
            list.no_duplicates(),
            forall|x: Handle| #[trigger] list.contains(x) ==> self.contains(x),
        ensures
            list.len() <= self.nodes.dom().len(),
    {
        list.unique_seq_to_set();
        assert(list.to_set().subset_of(self.nodes.dom())) by {
            assert forall|x: Handle| list.to_set().contains(x) implies self.nodes.dom().contains(
                x,
            ) by {
                assert(list.contains(x));
            }
        }
        vstd::set_lib::lemma_len_subset(list.to_set(), self.nodes.dom());
    }

    /// One step of the walk: the first node that waits is visited, and its
    /// children are put at the end of the row.
    #[verifier::rlimit(40)]
    pub proof fn walk_steps(self, from: Handle, order: Seq<Handle>, done: int)
        requires
            self.is_tree(),
            self.walk_inv(from, order, done),
            done < order.len(),
        ensures
            self.contains(order[done]),
            self.walk_inv(from, order + self.children_of(order[done]), done + 1),
            done < self.nodes.dom().len(),
    {
        let top = order[done];
        let kids = self.children_of(top);
        let order2 = order + kids;
        assert(order.contains(top));
        assert(self.reaches(from, top));
        assert(self.nodes[top].children.no_duplicates());

        assert forall|x: Handle| #[trigger] order2.contains(x) <==> order.contains(x)
            || self.is_child(top, x) by {
            if order2.contains(x) {
                let i = choose|i: int| 0 <= i < order2.len() && order2[i] == x;
                if i < order.len() {
                    assert(order[i] == x);
                } else {
                    assert(kids[i - order.len()] == x);
                }
            }
            if order.contains(x) {
                let i = choose|i: int| 0 <= i < order.len() && order[i] == x;
                assert(order2[i] == x);
            }
            if self.is_child(top, x) {
                let i = choose|i: int| 0 <= i < kids.len() && kids[i] == x;
                assert(order2[order.len() + i] == x);
            }
        }

        // A child of `top` is not listed yet.
        assert forall|c: Handle| self.is_child(top, c) implies !order.contains(c) && c != from
            && self.reaches(from, c) by {
            self.child_is_reached(top, c);
            if c == from {
                self.reaches_is_antisymmetric(top, c);
            }
            self.reaches_is_transitive(from, top, c);
            if order.contains(c) {
                let i = choose|i: int| 0 <= i < order.len() && order[i] == c;
                assert(i != 0);
                assert(placed_before(order, self.parent_of(order[i]), done));
                let j = choose|j: int| 0 <= j < done && j < order.len() && order[j] == top;
                assert(order[j] == order[done]);
            }
        }

        assert(order2.no_duplicates()) by {
            assert forall|i: int, j: int| 0 <= i < order2.len() && 0 <= j < order2.len() && i
                != j implies order2[i] != order2[j] by {
                if i < order.len() && j < order.len() {
                    assert(order[i] != order[j]);
                } else if i >= order.len() && j >= order.len() {
                    assert(kids[i - order.len()] != kids[j - order.len()]);
                } else if i < order.len() {
                    assert(order.contains(order[i]));
                    assert(self.is_child(top, kids[j - order.len()]));
                } else {
                    assert(order.contains(order[j]));
                    assert(self.is_child(top, kids[i - order.len()]));
                }
            }
        }
        assert forall|i: int| 0 < i < order2.len() implies placed_before(
            order2,
            self.parent_of(#[trigger] order2[i]),
            i,
        ) && placed_before(order2, self.parent_of(order2[i]), done + 1) by {
            if i < order.len() {
                let p = self.parent_of(order[i]);
                assert(placed_before(order, p, i) && placed_before(order, p, done));
                let j = choose|j: int| 0 <= j < i && j < order.len() && order[j] == p;
                assert(order2[j] == p);
                let k = choose|k: int| 0 <= k < done && k < order.len() && order[k] == p;
                assert(order2[k] == p);
            } else {
                let c = kids[i - order.len()];
                assert(self.is_child(top, c));
                assert(order2[done] == top);
            }
        }
        assert forall|i: int| 0 <= i < done + 1 implies #[trigger] self.children_stand_together(
            order2,
            i,
        ) by {
            if i < done {
                assert(self.children_stand_together(order, i));
                let start = choose|start: int|
                    i < start && block_at(order, start, self.children_of(order[i]));
                let list = self.children_of(order[i]);
                assert(order2[i] == order[i]);
                assert forall|k: int| 0 <= k < list.len() implies order2[start + k]
                    == #[trigger] list[k] by {
                    assert(order[start + k] == list[k]);
                }
                assert(block_at(order2, start, list));
            } else {
                assert(order2[i] == top);
                assert forall|k: int| 0 <= k < kids.len() implies order2[order.len() as int + k]
                    == #[trigger] kids[k] by {}
                assert(block_at(order2, order.len() as int, kids));
            }
        }
        assert forall|n: Handle| #[trigger] self.reaches(from, n) implies order2.contains(n)
            || self.covered(order2, done + 1, n) by {
            if !order.contains(n) {
                let i = choose|i: int| done <= i < order.len() && self.reaches(#[trigger] order[i], n);
                if i == done {
                    let c = self.descends_through_child(top, n);
                    let k = choose|k: int| 0 <= k < kids.len() && kids[k] == c;
                    assert(self.reaches(order2[order.len() + k], n));
                } else {
                    assert(self.reaches(order2[i], n));
                }
            }
        }
        assert(order2[0] == from);
        assert forall|x: Handle| #[trigger] order2.contains(x) implies self.contains(x) by {}
        self.distinct_nodes_are_few(order2);
    }

    /// When no node waits any more, the row is a level order.
    pub proof fn walk_ends(self, from: Handle, order: Seq<Handle>)
        requires
            self.is_tree(),
            self.contains(from),
            self.walk_inv(from, order, order.len() as int),
        ensures
            self.is_level_order(from, order),
    {
        assert forall|x: Handle| self.reaches(from, x) implies #[trigger] order.contains(x) by {
            assert(!self.covered(order, order.len() as int, x));
        }
    }

    /// A top-down order of the whole tree lists every node.
    pub proof fn top_down_from_root_is_all(self, order: Seq<Handle>)
        requires
            self.is_tree(),
            self.is_top_down(self.root, order),
        ensures
            forall|x: Handle| #[trigger] order.contains(x) <==> self.contains(x),
            order.len() == self.nodes.dom().len(),
    {
        assert forall|x: Handle| #[trigger] order.contains(x) <==> self.contains(x) by {
            if self.contains(x) {
                self.root_reaches_all(x);
            }
        }
        order.unique_seq_to_set();
        assert(order.to_set() =~= self.nodes.dom());
    }
}

} // verus!

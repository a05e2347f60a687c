//! The mathematics of the node hierarchy.
//!
//! A `GraphView` is what a graph holds, as a mathematical value: a finite map
//! from the valid handles to the state of their nodes, and the handle of the
//! root. This module says when such a value is a rooted tree, what "ancestor"
//! means in it, and proves what the graph's algorithms rest on.

use crate::base::BaseView;
use crate::handle::Handle;
use vstd::prelude::*;

verus! {

/// What a graph holds.
pub struct GraphView {
    /// The state of each node, by handle.
    pub nodes: Map<Handle, BaseView>,
    /// The handle of the root.
    pub root: Handle,
}

impl GraphView {
    /// Whether `h` is the handle of a node.
    pub open spec fn contains(self, h: Handle) -> bool {
        self.nodes.contains_key(h)
    }

    /// The parent link of node `h`.
    pub open spec fn parent_of(self, h: Handle) -> Handle {
        self.nodes[h].parent
    }

    /// The children of node `h`, in order.
    pub open spec fn children_of(self, h: Handle) -> Seq<Handle> {
        self.nodes[h].children
    }

    /// Whether `c` is listed among the children of node `h`.
    pub open spec fn is_child(self, h: Handle, c: Handle) -> bool {
        self.contains(h) && self.children_of(h).contains(c)
    }

    /// The links are mutually consistent: the root is a node without parent;
    /// every other node has a parent that lists it; every listed child is a
    /// node whose parent link points back; no child is listed twice. There are
    /// finitely many nodes, and the none handle is not among them.
    pub open spec fn links_ok(self) -> bool {
        &&& self.nodes.dom().finite()
        &&& !self.contains(Handle::spec_none())
        &&& self.contains(self.root)
        &&& self.parent_of(self.root) == Handle::spec_none()
        &&& forall|h: Handle|
            #![trigger self.nodes[h]]
            self.contains(h) && h != self.root ==> self.is_child(self.parent_of(h), h)
        &&& forall|h: Handle, c: Handle|
            #![trigger self.is_child(h, c)]
            self.is_child(h, c) ==> self.contains(c) && self.parent_of(c) == h
        &&& forall|h: Handle|
            #![trigger self.nodes[h]]
            self.contains(h) ==> self.children_of(h).no_duplicates()
    }

    /// Whether `depth` gives every node its distance from the root: zero for
    /// the root, and one more than its parent's for any other node.
    pub open spec fn ranked_by(self, depth: Map<Handle, nat>) -> bool {
        &&& depth[self.root] == 0
        &&& forall|h: Handle|
            #![trigger depth[h]]
            self.contains(h) && h != self.root ==> depth[h] == depth[self.parent_of(h)] + 1
    }

    /// Whether the nodes form a rooted tree: the links are consistent and
    /// every node has a distance from the root, so that no chain of parent
    /// links runs in a circle.
    pub open spec fn is_tree(self) -> bool {
        &&& self.links_ok()
        &&& exists|depth: Map<Handle, nat>| self.ranked_by(depth)
    }

    /// The distance of each node from the root, in a tree.
    pub open spec fn depth(self) -> Map<Handle, nat> {
        choose|depth: Map<Handle, nat>| self.ranked_by(depth)
    }

    /// Whether `a` is met on the way from `h` towards the root within `steps`
    /// parent links.
    pub open spec fn climbs(self, h: Handle, a: Handle, steps: nat) -> bool
        decreases steps,
    {
        h == a || (steps > 0 && self.contains(h) && h != self.root && self.climbs(
            self.parent_of(h),
            a,
            (steps - 1) as nat,
        ))
    }

    /// Whether node `h` is `a` or a descendant of `a`: `a` lies on the way
    /// from `h` to the root.
    pub open spec fn reaches(self, a: Handle, h: Handle) -> bool {
        self.contains(h) && self.climbs(h, a, self.depth()[h])
    }

    /// The node `a` together with all its descendants.
    pub open spec fn subtree(self, a: Handle) -> Set<Handle> {
        Set::new(|h: Handle| self.reaches(a, h))
    }

    /// In a tree, the chosen depths are distances from the root.
    pub proof fn depth_is_rank(self)
        requires
            self.is_tree(),
        ensures
            self.ranked_by(self.depth()),
    {
    }

    /// The parent of a node other than the root is a node.
    pub proof fn parent_is_node(self, h: Handle)
        requires
            self.links_ok(),
            self.contains(h),
            h != self.root,
        ensures
            self.contains(self.parent_of(h)),
            self.is_child(self.parent_of(h), h),
    {
        // Names the term that the quantifiers of `links_ok` wait for.
        assert(self.nodes[h] == self.nodes[h]);
    }

    /// Every node is its own descendant-or-self.
    pub proof fn reaches_itself(self, h: Handle)
        requires
            self.contains(h),
        ensures
            self.reaches(h, h),
    {
    }

    /// What is reached from a node's parent is reached from the node.
    pub proof fn reaches_through_parent(self, a: Handle, h: Handle)
        requires
            self.is_tree(),
            self.contains(h),
            h != self.root,
            self.reaches(a, self.parent_of(h)),
        ensures
            self.reaches(a, h),
    {
        self.depth_is_rank();
        self.parent_is_node(h);
    }

    /// A proper descendant of `a` has a parent that is `a` or a descendant of
    /// `a`; and it is not the root.
    pub proof fn reaches_via_parent(self, a: Handle, h: Handle)
        requires
            self.is_tree(),
            self.reaches(a, h),
            h != a,
        ensures
            h != self.root,
            self.contains(self.parent_of(h)),
            self.reaches(a, self.parent_of(h)),
    {
        self.depth_is_rank();
        if h != self.root {
            self.parent_is_node(h);
        }
    }

    /// An ancestor is no deeper than its descendant.
    pub proof fn ancestor_is_higher(self, a: Handle, h: Handle)
        requires
            self.is_tree(),
            self.reaches(a, h),
        ensures
            self.depth()[a] <= self.depth()[h],
            a != h ==> self.depth()[a] < self.depth()[h],
        decreases self.depth()[h],
    {
        if h != a {
            self.depth_is_rank();
            self.reaches_via_parent(a, h);
            self.ancestor_is_higher(a, self.parent_of(h));
        }
    }

    /// Every node is the root or a descendant of it.
    pub proof fn root_reaches_all(self, h: Handle)
        requires
            self.is_tree(),
            self.contains(h),
        ensures
            self.reaches(self.root, h),
        decreases self.depth()[h],
    {
        if h != self.root {
            self.depth_is_rank();
            self.parent_is_node(h);
            self.root_reaches_all(self.parent_of(h));
            self.reaches_through_parent(self.root, h);
        }
    }

    /// Only the root reaches the root.
    pub proof fn root_has_no_ancestor(self, a: Handle)
        requires
            self.is_tree(),
            self.reaches(a, self.root),
        ensures
            a == self.root,
    {
    }

    /// A descendant of a descendant is a descendant.
    pub proof fn reaches_is_transitive(self, a: Handle, b: Handle, c: Handle)
        requires
            self.is_tree(),
            self.reaches(a, b),
            self.reaches(b, c),
        ensures
            self.reaches(a, c),
        decreases self.depth()[c],
    {
        if c != b {
            self.depth_is_rank();
            self.reaches_via_parent(b, c);
            self.reaches_is_transitive(a, b, self.parent_of(c));
            self.reaches_through_parent(a, c);
        }
    }

    /// Two nodes that reach each other are one node.
    pub proof fn reaches_is_antisymmetric(self, a: Handle, b: Handle)
        requires
            self.is_tree(),
            self.reaches(a, b),
            self.reaches(b, a),
        ensures
            a == b,
    {
        self.ancestor_is_higher(a, b);
        self.ancestor_is_higher(b, a);
    }

    /// A listed child is reached from its parent, and is a different node.
    pub proof fn child_is_reached(self, h: Handle, c: Handle)
        requires
            self.is_tree(),
            self.is_child(h, c),
        ensures
            self.contains(c),
            c != self.root,
            c != h,
            self.parent_of(c) == h,
            self.reaches(h, c),
            self.depth()[c] == self.depth()[h] + 1,
    {
        self.depth_is_rank();
        self.reaches_itself(h);
        assert(self.contains(c) && self.parent_of(c) == h);
        if c == self.root {
            assert(self.parent_of(c) == Handle::spec_none());
        }
        self.reaches_through_parent(h, c);
    }

    /// A proper descendant of `a` is a child of `a` or a descendant of one.
    pub proof fn descends_through_child(self, a: Handle, h: Handle) -> (c: Handle)
        requires
            self.is_tree(),
            self.reaches(a, h),
            h != a,
        ensures
            self.is_child(a, c),
            self.reaches(c, h),
        decreases self.depth()[h],
    {
        self.depth_is_rank();
        self.reaches_via_parent(a, h);
        let p = self.parent_of(h);
        if p == a {
            self.parent_is_node(h);
            self.reaches_itself(h);
            h
        } else {
            let c = self.descends_through_child(a, p);
            self.reaches_through_parent(c, h);
            c
        }
    }
}

} // verus!

//! What applying a level-of-detail group does to the visibility of nodes.

use crate::base::BaseView;
use crate::handle::Handle;
use crate::hierarchy::GraphView;
use crate::lod::LodGroupView;
use vstd::prelude::*;

verus! {

impl LodGroupView {
    /// The objects of the level at place `s`.
    pub open spec fn shown(self, s: int) -> Set<Handle> {
        Set::new(|x: Handle| self.levels[s].objects.contains(x))
    }

    /// The objects of all levels but the one at place `s`.
    pub open spec fn hidden(self, s: int) -> Set<Handle> {
        Set::new(|x: Handle| self.listed_elsewhere(s, self.levels.len() as int, x))
    }
}

impl GraphView {
    /// The graph after the visibility of the nodes in `targets` was set to
    /// `visible`. Nothing else differs.
    pub open spec fn with_visibility(self, targets: Set<Handle>, visible: bool) -> GraphView {
        GraphView {
            nodes: Map::new(
                |h: Handle| self.contains(h),
                |h: Handle|
                    if targets.contains(h) {
                        BaseView { visibility: visible, ..self.nodes[h] }
                    } else {
                        self.nodes[h]
                    },
            ),
            root: self.root,
        }
    }

    /// The graph after the level at place `s` of `group` was selected: the
    /// objects of the other levels are hidden, then the objects of the
    /// selected level are shown. An object listed in both is shown. Handles
    /// that are not valid are passed over.
    pub open spec fn after_lod(self, group: LodGroupView, s: int) -> GraphView {
        self.with_visibility(group.hidden(s), false).with_visibility(group.shown(s), true)
    }

    /// Setting visibilities keeps the tree a tree and every node's state well
    /// formed.
    pub proof fn visibility_keeps_tree(self, targets: Set<Handle>, visible: bool)
        requires
            self.is_tree(),
        ensures
            self.with_visibility(targets, visible).is_tree(),
            self.nodes_wf() ==> self.with_visibility(targets, visible).nodes_wf(),
            self.with_visibility(targets, visible).nodes.dom() == self.nodes.dom(),
    {
        let after = self.with_visibility(targets, visible);
        assert(after.nodes.dom() =~= self.nodes.dom());
        assert(self.same_links(after));
        self.same_links_same_tree(after);
        if self.nodes_wf() {
            assert forall|x: Handle| #![trigger after.nodes[x]] after.contains(
                x,
            ) implies after.nodes[x].wf() by {
                assert(self.nodes[x].wf());
            }
        }
    }
}

} // verus!

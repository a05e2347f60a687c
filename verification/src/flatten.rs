//! The flat list of nodes that a renderer draws from.

use crate::graph::Graph;
use crate::handle::Handle;
use crate::hierarchy::GraphView;
use crate::transform::Matrix4;
use vstd::prelude::*;

verus! {

/// What a renderer needs to know of one node.
#[derive(Clone, Copy, Debug, PartialEq, Eq)]
pub struct RenderItem {
    /// The handle of the node.
    pub handle: Handle,
    /// The placement of the node in the space of the scene.
    pub global_transform: Matrix4,
    /// Whether the node is to be drawn at all.
    pub global_visibility: bool,
    /// The bias of the render depth, in millionths.
    pub depth_offset: i64,
}

impl GraphView {
    /// Whether `item` tells of node `h` what the graph holds of it.
    pub open spec fn tells_of(self, item: RenderItem, h: Handle) -> bool {
        &&& item.handle == h
        &&& item.global_transform == self.nodes[h].global_transform
        &&& item.global_visibility == self.nodes[h].global_visibility
        &&& item.depth_offset as int == self.nodes[h].depth_offset
    }

    /// Whether `items` tells of every node of the graph once, level by
    /// level.
    pub open spec fn is_flattened_to(self, items: Seq<RenderItem>) -> bool {
        &&& items.len() == self.nodes.dom().len()
        &&& self.is_level_order(self.root, items.map_values(|item: RenderItem| item.handle))
        &&& forall|i: int| 0 <= i < items.len() ==> self.tells_of(#[trigger] items[i], items[i].handle)
    }
}

impl Graph {
    /// Lists, for every node of the graph, its handle with its global
    /// transform, its global visibility and its depth offset: the root first,
    /// every other node after its parent. The global state is that of the
    /// last update.
    pub fn flatten(&self) -> (items: Vec<RenderItem>)
        requires
            self.wf(),
        ensures
            self@.is_flattened_to(items@),
    {
        let order: Vec<Handle> = self.traverse(self.root());
        let mut items: Vec<RenderItem> = Vec::new();
        let mut i: usize = 0;
        proof {
            self@.top_down_from_root_is_all(order@);
        }
        while i < order.len()
            invariant
                i <= order.len(),
                self.wf(),
                items@.len() == i,
                forall|x: Handle| #[trigger] order@.contains(x) <==> self@.contains(x),
                forall|j: int|
                    0 <= j < i ==> (#[trigger] items@[j]).handle == order@[j] && self@.tells_of(
                        items@[j],
                        order@[j],
                    ),
            decreases order.len() - i,
        {
            let h: Handle = order[i];
            proof {
                assert(order@.contains(h));
            }
            match self.get(h) {
                Some(node) => {
                    let base = node.base();
                    items.push(
                        RenderItem {
                            handle: h,
                            global_transform: base.global_transform(),
                            global_visibility: base.global_visibility(),
                            depth_offset: base.depth_offset_factor(),
                        },
                    );
                },
                None => {},
            }
            i = i + 1;
        }
        proof {
            assert(items@.map_values(|item: RenderItem| item.handle) =~= order@);
        }
        items
    }
}

} // verus!

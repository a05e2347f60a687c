//! The law of persistence: a graph that is written and read back is the graph
//! it was, in all that is persisted.

use crate::base::BaseView;
use crate::graph::Graph;
use crate::handle::Handle;
use crate::hierarchy::GraphView;
use crate::persist::{middle_tokens, node_parts, node_round_trip, node_tokens};
use crate::snapshot::{
    graph_at, graph_tokens, record_at, record_tokens, records_at, records_tokens,
};
use crate::stream::{DecodeError, Key, TokenView, ValueView};
use crate::traversal::{block_at, placed_before};
use vstd::prelude::*;

verus! {

/// How many of `len` entries that stand in a row from place `start` on stand
/// before place `k`.
pub open spec fn listed(start: int, len: int, k: int) -> int {
    if k <= start {
        0
    } else if k >= start + len {
        len
    } else {
        k - start
    }
}

impl GraphView {
    /// What is persisted of the graph: of every node, what is persisted of
    /// its state.
    pub open spec fn persisted(self) -> GraphView {
        GraphView { nodes: self.nodes.map_values(|base: BaseView| base.persisted()), root: self.root }
    }

    /// Whether the lengths of all lists of all nodes can be written.
    pub open spec fn all_fit(self) -> bool {
        forall|h: Handle| #![trigger self.nodes[h]] self.contains(h) ==> self.nodes[h].fits()
    }

    /// The place in `order` from which on the children of the node at place
    /// `i` stand.
    pub open spec fn start_of(self, order: Seq<Handle>, i: int) -> int {
        choose|start: int| i < start && block_at(order, start, self.children_of(order[i]))
    }

    /// What is persisted of the state of node `x`, with no more children
    /// than stand in `order` before place `k`.
    pub open spec fn state_upto(self, order: Seq<Handle>, k: int, x: Handle) -> BaseView {
        BaseView {
            children: self.children_of(x).take(
                listed(
                    self.start_of(order, order.index_of(x)),
                    self.children_of(x).len() as int,
                    k,
                ),
            ),
            ..self.nodes[x].persisted()
        }
    }

    /// The graph of the first `k` nodes of `order`, as far as it is
    /// persisted.
    pub open spec fn upto(self, order: Seq<Handle>, k: int) -> GraphView {
        GraphView {
            nodes: Map::new(
                |x: Handle| placed_before(order, x, k),
                |x: Handle| self.state_upto(order, k, x),
            ),
            root: self.root,
        }
    }

    /// In a level order, the place of a node is the place where it stands,
    /// and its children stand from a later place on.
    pub proof fn place_in_order(self, order: Seq<Handle>, i: int)
        requires
            self.is_tree(),
            self.is_level_order(self.root, order),
            0 <= i < order.len(),
        ensures
            order.index_of(order[i]) == i,
            i < self.start_of(order, i),
            block_at(order, self.start_of(order, i), self.children_of(order[i])),
            self.contains(order[i]),
            i > 0 ==> order[i] != self.root,
    {
        let x = order[i];
        assert(order.contains(x));
        let j = order.index_of(x);
        assert(order[j] == order[i]);
        assert(self.children_stand_together(order, i));
        if i > 0 {
            assert(order[0] == self.root);
        }
    }

    /// In a level order, a node other than the first stands in the row of
    /// the children of its parent, and its parent stands before it.
    pub proof fn place_among_brothers(self, order: Seq<Handle>, k: int) -> (j: int)
        requires
            self.is_tree(),
            self.is_level_order(self.root, order),
            0 < k < order.len(),
        ensures
            0 <= j < k,
            order[j] == self.parent_of(order[k]),
            self.start_of(order, j) <= k < self.start_of(order, j) + self.children_of(
                order[j],
            ).len(),
            self.children_of(order[j])[k - self.start_of(order, j)] == order[k],
    {
        let c = order[k];
        let p = self.parent_of(c);
        self.place_in_order(order, k);
        assert(placed_before(order, self.parent_of(order[k]), k));
        let j = choose|j: int| 0 <= j < k && j < order.len() && order[j] == p;
        self.place_in_order(order, j);
        self.parent_is_node(c);
        let list = self.children_of(p);
        let t = choose|t: int| 0 <= t < list.len() && list[t] == c;
        let start = self.start_of(order, j);
        assert(order[start + t] == list[t]);
        assert(order[start + t] == order[k]);
        j
    }

    /// In a level order, the row of the children of a node holds no node
    /// that is not its child.
    pub proof fn rows_are_apart(self, order: Seq<Handle>, i: int, k: int)
        requires
            self.is_tree(),
            self.is_level_order(self.root, order),
            0 <= i < order.len(),
            0 <= k < order.len(),
            self.start_of(order, i) <= k < self.start_of(order, i) + self.children_of(
                order[i],
            ).len(),
        ensures
            k > 0,
            self.parent_of(order[k]) == order[i],
    {
        self.place_in_order(order, i);
        let list = self.children_of(order[i]);
        let start = self.start_of(order, i);
        let t = k - start;
        assert(order[start + t] == list[t]);
        assert(self.is_child(order[i], list[t]));
    }

    /// The graph of the first node alone is the root alone.
    pub proof fn upto_one(self, order: Seq<Handle>)
        requires
            self.is_tree(),
            self.is_level_order(self.root, order),
        ensures
            self.upto(order, 1) == GraphView::lone_root(
                self.root,
                self.nodes[self.root].persisted(),
            ),
    {
        let one = self.upto(order, 1);
        let lone = GraphView::lone_root(self.root, self.nodes[self.root].persisted());
        self.place_in_order(order, 0);
        assert(placed_before(order, self.root, 1)) by {
            assert(order[0] == self.root);
        }
        assert forall|x: Handle| one.nodes.contains_key(x) <==> lone.nodes.contains_key(x) by {
            if placed_before(order, x, 1) {
                let j = choose|j: int| 0 <= j < 1 && j < order.len() && order[j] == x;
                assert(j == 0);
            }
        }
        assert(self.children_of(self.root).take(0) =~= Seq::<Handle>::empty());
        assert(one.nodes[self.root] == lone.nodes[self.root]);
        assert(one.nodes =~= lone.nodes);
    }

    /// The graph of the first `k + 1` nodes is the graph of the first `k`
    /// with the next node added under its parent; and the next node can be
    /// added so.
    #[verifier::rlimit(40)]
    pub proof fn upto_next(self, order: Seq<Handle>, k: int)
        requires
            self.is_tree(),
            self.arena_like(),
            self.is_level_order(self.root, order),
            0 < k < order.len(),
        ensures
            self.upto(order, k).contains(self.parent_of(order[k])),
            self.upto(order, k).can_place(order[k]),
            self.upto(order, k).after_add_under(
                order[k],
                self.nodes[order[k]].persisted(),
                self.parent_of(order[k]),
            ) == self.upto(order, k + 1),
    {
        let c = order[k];
        let p = self.parent_of(c);
        let now = self.upto(order, k);
        let next = self.upto(order, k + 1);
        let added = now.after_add_under(c, self.nodes[c].persisted(), p);
        let j = self.place_among_brothers(order, k);
        self.place_in_order(order, k);
        self.place_in_order(order, j);
        let start = self.start_of(order, j);
        let list = self.children_of(p);
        let t = k - start;

        assert(placed_before(order, p, k));
        assert(!placed_before(order, c, k)) by {
            if placed_before(order, c, k) {
                let i = choose|i: int| 0 <= i < k && i < order.len() && order[i] == c;
                assert(order[i] == order[k]);
            }
        }
        assert(now.can_place(c)) by {
            assert(self.contains(c));
            assert forall|x: Handle| now.contains(x) implies x.index != c.index by {
                let i = choose|i: int| 0 <= i < k && i < order.len() && order[i] == x;
                self.place_in_order(order, i);
                assert(self.contains(x) && self.contains(c));
            }
        }
        assert forall|x: Handle| placed_before(order, x, k + 1) <==> placed_before(order, x, k)
            || x == c by {
            if placed_before(order, x, k + 1) {
                let i = choose|i: int| 0 <= i < k + 1 && i < order.len() && order[i] == x;
                if i < k {
                    assert(placed_before(order, x, k));
                }
            }
            if placed_before(order, x, k) {
                let i = choose|i: int| 0 <= i < k && i < order.len() && order[i] == x;
                assert(0 <= i < k + 1);
            }
        }
        assert forall|x: Handle| added.nodes.contains_key(x) implies added.nodes[x]
            == next.nodes[x] by {
            if x == c {
                assert(self.children_of(c).take(0) =~= Seq::<Handle>::empty());
            } else if x == p {
                assert(list.take(t).push(list[t]) =~= list.take(t + 1));
            } else {
                let i = choose|i: int| 0 <= i < k && i < order.len() && order[i] == x;
                self.place_in_order(order, i);
                let from = self.start_of(order, i);
                let len = self.children_of(x).len() as int;
                if from <= k < from + len {
                    self.rows_are_apart(order, i, k);
                }
            }
        }
        assert(added.nodes =~= next.nodes);
    }

    /// The graph of all nodes of a level order is what is persisted of the
    /// graph.
    pub proof fn upto_all(self, order: Seq<Handle>)
        requires
            self.is_tree(),
            self.is_level_order(self.root, order),
        ensures
            self.upto(order, order.len() as int) == self.persisted(),
    {
        let all = self.upto(order, order.len() as int);
        let whole = self.persisted();
        self.top_down_from_root_is_all(order);
        assert forall|x: Handle| all.nodes.contains_key(x) <==> whole.nodes.contains_key(x) by {
            if placed_before(order, x, order.len() as int) {
                let i = choose|i: int| 0 <= i < order.len() && i < order.len() && order[i] == x;
                assert(order.contains(x));
            }
            if self.contains(x) {
                assert(order.contains(x));
                let i = choose|i: int| 0 <= i < order.len() && order[i] == x;
                assert(0 <= i < order.len() && i < order.len() && order[i] == x);
            }
        }
        assert forall|x: Handle| all.nodes.contains_key(x) implies all.nodes[x]
            == whole.nodes[x] by {
            let i = choose|i: int| 0 <= i < order.len() && i < order.len() && order[i] == x;
            self.place_in_order(order, i);
            let list = self.children_of(x);
            assert(list.take(list.len() as int) =~= list);
        }
        assert(all.nodes =~= whole.nodes);
    }
}

/// The tokens of one more node stand after the tokens of the nodes before
/// it.
pub proof fn records_tokens_grow(v: GraphView, order: Seq<Handle>, k: int)
    requires
        0 <= k < order.len(),
    ensures
        records_tokens(v, order.take(k + 1)) == records_tokens(v, order.take(k)) + record_tokens(
            order[k],
            v.nodes[order[k]],
        ),
{
    let upto = order.take(k + 1);
    assert(upto.drop_last() =~= order.take(k));
    assert(upto.last() == order[k]);
}

/// Reading one node that was written gives back its handle and what is
/// persisted of its state.
pub proof fn record_round_trip(
    before: Seq<TokenView>,
    h: Handle,
    base: BaseView,
    after: Seq<TokenView>,
)
    requires
        base.wf(),
        base.fits(),
    ensures
        record_at(before + record_tokens(h, base) + after, before.len() as int) == Ok::<
            (Handle, BaseView, int),
            DecodeError,
        >((h, base.persisted(), (before.len() + record_tokens(h, base).len()) as int)),
{
    let head = seq![TokenView::Field(Key::Handle, ValueView::Handle(h))];
    let body = node_tokens(base, Key::Node);
    let tail = Seq::<TokenView>::empty();
    let s = before + record_tokens(h, base) + after;
    assert(s =~= (before + head) + body + after);
    assert(s =~= before + head + (body + after));
    node_round_trip(before + head, base, Key::Node, after);
    middle_tokens(before, head, body + after);
    assert(s[before.len() as int + 0] == head[0]);
}

/// Reading the first `k` nodes of a graph that was written in a level order
/// gives the graph of these nodes.
#[verifier::rlimit(40)]
pub proof fn records_round_trip(
    before: Seq<TokenView>,
    v: GraphView,
    order: Seq<Handle>,
    k: int,
    after: Seq<TokenView>,
)
    requires
        v.is_tree(),
        v.nodes_wf(),
        v.all_fit(),
        v.arena_like(),
        v.is_level_order(v.root, order),
        1 <= k <= order.len(),
    ensures
        records_at(
            before + records_tokens(v, order.take(k)) + after,
            before.len() as int,
            k as nat,
        ) == Ok::<(GraphView, int), DecodeError>(
            (v.upto(order, k), (before.len() + records_tokens(v, order.take(k)).len()) as int),
        ),
    decreases k,
{
    let s = before + records_tokens(v, order.take(k)) + after;
    let c = order[k - 1];
    let record = record_tokens(c, v.nodes[c]);
    let earlier = records_tokens(v, order.take(k - 1));
    records_tokens_grow(v, order, k - 1);
    v.place_in_order(order, k - 1);
    assert(v.nodes[c].wf() && v.nodes[c].fits());
    assert(s =~= (before + earlier) + record + after);
    record_round_trip(before + earlier, c, v.nodes[c], after);
    if k == 1 {
        assert(order.take(0) =~= Seq::<Handle>::empty());
        assert(earlier =~= Seq::<TokenView>::empty());
        assert(before + earlier =~= before);
        v.upto_one(order);
        assert(c == v.root);
    } else {
        assert(s =~= before + earlier + (record + after));
        records_round_trip(before, v, order, k - 1, record + after);
        v.upto_next(order, k - 1);
        assert((k - 1) as nat > 0);
    }
}

/// Reading a graph that was written gives back what is persisted of it: the
/// same nodes under the same handles, each with what is persisted of its
/// state, linked in the same way, the children of each node in the same
/// order.
pub proof fn graph_round_trip(
    before: Seq<TokenView>,
    v: GraphView,
    order: Seq<Handle>,
    key: Key,
    after: Seq<TokenView>,
)
    requires
        v.is_tree(),
        v.nodes_wf(),
        v.all_fit(),
        v.arena_like(),
        v.is_level_order(v.root, order),
        order.len() <= u64::MAX,
    ensures
        graph_at(before + graph_tokens(v, order, key) + after, before.len() as int, key) == Ok::<
            (GraphView, int),
            DecodeError,
        >((v.persisted(), (before.len() + graph_tokens(v, order, key).len()) as int)),
{
    let head = seq![
        TokenView::Enter(key),
        TokenView::Field(Key::Length, ValueView::U64(order.len() as u64)),
    ];
    let body = records_tokens(v, order);
    let tail = seq![TokenView::Leave];
    let s = before + graph_tokens(v, order, key) + after;
    node_parts(before, head, body, tail, after);
    assert(order.take(order.len() as int) =~= order);
    records_round_trip(before + head, v, order, order.len() as int, tail + after);
    v.upto_all(order);
    middle_tokens(before, head, body + tail + after);
    assert(s[before.len() as int + 0] == head[0]);
    assert(s[before.len() as int + 1] == head[1]);
    middle_tokens(before + head, body, tail + after);
    assert(s[((before + head).len() + body.len()) as int + 0] == (tail + after)[0]);
}

/// The law of persistence. What `save` writes of a well-formed graph, `load`
/// reads back as a graph with the same nodes under the same handles, linked
/// in the same way, the children of each node in the same order, and with
/// the same state of each node in all that an author sets. Only the cached
/// global state and the bind poses, which are not persisted, start anew.
///
/// `order` is the order in which `save` wrote the nodes; `before` and `after`
/// are what the stream holds before and after the graph.
pub proof fn load_undoes_save(
    graph: Graph,
    order: Seq<Handle>,
    key: Key,
    before: Seq<TokenView>,
    after: Seq<TokenView>,
)
    requires
        graph.wf(),
        graph@.is_level_order(graph@.root, order),
    ensures
        graph_at(before + graph_tokens(graph@, order, key) + after, before.len() as int, key)
            == Ok::<(GraphView, int), DecodeError>(
            (graph@.persisted(), (before.len() + graph_tokens(graph@, order, key).len()) as int),
        ),
        graph@.persisted().root == graph@.root,
        graph@.persisted().nodes.dom() == graph@.nodes.dom(),
        forall|h: Handle|
            #![trigger graph@.persisted().nodes[h]]
            graph@.contains(h) ==> {
                &&& graph@.persisted().nodes[h].same_authored_state(graph@.nodes[h])
                &&& graph@.persisted().nodes[h].parent == graph@.nodes[h].parent
                &&& graph@.persisted().nodes[h].children == graph@.nodes[h].children
            },
{
    let v = graph@;
    graph.handles_are_arena_like();
    assert(v.all_fit()) by {
        assert forall|h: Handle| #![trigger v.nodes[h]] v.contains(h) implies v.nodes[h].fits() by {
            graph.node_lengths_are_bounded(h);
        }
    }
    v.top_down_from_root_is_all(order);
    assert(order.len() <= u64::MAX) by {
        assert(order.contains(order[0]));
        graph.node_lengths_are_bounded(v.root);
        order_is_bounded(graph, order);
    }
    graph_round_trip(before, v, order, key, after);
    assert(v.persisted().nodes.dom() =~= v.nodes.dom());
}

/// A graph has no more nodes than handles can tell apart.
pub proof fn order_is_bounded(graph: Graph, order: Seq<Handle>)
    requires
        graph.wf(),
        graph@.is_top_down(graph@.root, order),
    ensures
        order.len() <= u32::MAX,
{
    let v = graph@;
    graph.handles_are_arena_like();
    v.top_down_from_root_is_all(order);
    let indices = order.map_values(|h: Handle| h.index as int);
    assert(indices.no_duplicates()) by {
        assert forall|i: int, j: int| 0 <= i < indices.len() && 0 <= j < indices.len() && i
            != j implies indices[i] != indices[j] by {
            assert(order.contains(order[i]));
            assert(order.contains(order[j]));
            assert(v.contains(order[i]) && v.contains(order[j]));
        }
    }
    indices.unique_seq_to_set();
    let range = vstd::set_lib::set_int_range(0, u32::MAX as int);
    vstd::set_lib::lemma_int_range(0, u32::MAX as int);
    assert(indices.to_set().subset_of(range)) by {
        assert forall|x: int| indices.to_set().contains(x) implies range.contains(x) by {
            let i = choose|i: int| 0 <= i < indices.len() && indices[i] == x;
            assert(order.contains(order[i]));
            assert(v.contains(order[i]));
        }
    }
    vstd::set_lib::lemma_len_subset(indices.to_set(), range);
}

} // verus!

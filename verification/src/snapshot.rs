//! Writing a whole graph to a stream and restoring it.
//!
//! The nodes are written level by level, the root first, each with its handle.
//! Restoring puts every node back under the handle it had, as the last child
//! of the parent it names. Since a node is written after its parent and
//! brothers are written in the order in which their parent lists them, the
//! restored graph lists the children of every node in the order they had. The
//! lists of children in the stream are not needed for that and are not used.

use crate::base::BaseView;
use crate::graph::Graph;
use crate::handle::Handle;
use crate::hierarchy::GraphView;
use crate::node::Node;
use crate::persist::{node_at, node_tokens};
use crate::stream::{
    content, enter_at, failure, handle_at, leave_at, put, read_enter, read_handle, read_leave,
    read_u64, u64_at, DecodeError, DecodeErrorKind, Key, Token, TokenView, Value, ValueView,
};
use vstd::prelude::*;

verus! {

/// The tokens of one node of a graph: its handle, then the node.
pub open spec fn record_tokens(h: Handle, base: BaseView) -> Seq<TokenView> {
    seq![TokenView::Field(Key::Handle, ValueView::Handle(h))] + node_tokens(base, Key::Node)
}

/// The tokens of the nodes of `order`, one after the other.
pub open spec fn records_tokens(v: GraphView, order: Seq<Handle>) -> Seq<TokenView>
    decreases order.len(),
{
    if order.len() == 0 {
        Seq::empty()
    } else {
        records_tokens(v, order.drop_last()) + record_tokens(order.last(), v.nodes[order.last()])
    }
}

/// The tokens of a graph in a region of name `key`, with its nodes in the
/// order `order`: the number of nodes, then the nodes.
pub open spec fn graph_tokens(v: GraphView, order: Seq<Handle>, key: Key) -> Seq<TokenView> {
    seq![
        TokenView::Enter(key),
        TokenView::Field(Key::Length, ValueView::U64(order.len() as u64)),
    ] + records_tokens(v, order) + seq![TokenView::Leave]
}

/// What reading one node of a graph at place `at` gives: its handle, its
/// state, and the place after it.
pub open spec fn record_at(s: Seq<TokenView>, at: int) -> Result<
    (Handle, BaseView, int),
    DecodeError,
> {
    match handle_at(s, at, Key::Handle) {
        Err(e) => Err(e),
        Ok(h) => match node_at(s, at + 1, Key::Node) {
            Err(e) => Err(e),
            Ok((base, next)) => Ok((h, base, next)),
        },
    }
}

/// What reading the first `count` nodes of a graph from place `at` on gives:
/// the graph of these nodes, and the place after the last. The first node is
/// the root. Every other one becomes the last child of the node it names as
/// its parent, which has to be among the nodes before it. A handle that
/// cannot be placed makes the stream invalid, and so does a graph of no node.
pub open spec fn records_at(s: Seq<TokenView>, at: int, count: nat) -> Result<
    (GraphView, int),
    DecodeError,
>
    decreases count,
{
    if count == 0 {
        Err(failure(at, DecodeErrorKind::InvalidValue))
    } else if count == 1 {
        match record_at(s, at) {
            Err(e) => Err(e),
            Ok((h, base, next)) => if h.generation >= 1 && h.index < u32::MAX {
                Ok((GraphView::lone_root(h, base), next))
            } else {
                Err(failure(at, DecodeErrorKind::InvalidValue))
            },
        }
    } else {
        match records_at(s, at, (count - 1) as nat) {
            Err(e) => Err(e),
            Ok((v, next)) => match record_at(s, next) {
                Err(e) => Err(e),
                Ok((h, base, after)) => if v.contains(base.parent) && v.can_place(h) {
                    Ok((v.after_add_under(h, base, base.parent), after))
                } else {
                    Err(failure(next, DecodeErrorKind::InvalidValue))
                },
            },
        }
    }
}

/// What reading a graph in a region of name `key` at place `at` gives: the
/// graph, and the place after the region.
pub open spec fn graph_at(s: Seq<TokenView>, at: int, key: Key) -> Result<
    (GraphView, int),
    DecodeError,
> {
    match enter_at(s, at, key) {
        Err(e) => Err(e),
        Ok(_) => match u64_at(s, at + 1, Key::Length) {
            Err(e) => Err(e),
            Ok(count) => match records_at(s, at + 2, count as nat) {
                Err(e) => Err(e),
                Ok((v, next)) => match leave_at(s, next) {
                    Err(e) => Err(e),
                    Ok(_) => Ok((v, next + 1)),
                },
            },
        },
    }
}

/// Where reading the first `read` nodes fails, reading more fails in the same
/// way.
pub proof fn records_fail_early(s: Seq<TokenView>, at: int, read: nat, count: nat, e: DecodeError)
    requires
        read <= count,
        read >= 1,
        records_at(s, at, read) == Err::<(GraphView, int), DecodeError>(e),
    ensures
        records_at(s, at, count) == Err::<(GraphView, int), DecodeError>(e),
    decreases count,
{
    if count > read {
        records_fail_early(s, at, read, (count - 1) as nat, e);
    }
}

impl Graph {
    /// Writes the graph in a region of name `key`: its nodes level by level,
    /// the root first, each with its handle. The cached global state and the
    /// bind poses are not written.
    pub fn save(&self, key: Key, out: &mut Vec<Token>)
        requires
            self.wf(),
        ensures
            exists|order: Seq<Handle>|
                self@.is_level_order(self@.root, order) && #[trigger] graph_tokens(
                    self@,
                    order,
                    key,
                ) == content(final(out)@).skip(content(old(out)@).len() as int),
            content(final(out)@).take(content(old(out)@).len() as int) == content(old(out)@),
    {
        let ghost start = content(out@);
        let order: Vec<Handle> = self.traverse(self.root());
        put(out, Token::Enter(key));
        put(out, Token::Field(Key::Length, Value::U64(order.len() as u64)));
        let ghost head = content(out@);
        let mut i: usize = 0;
        proof {
            assert(order@.take(0) =~= Seq::<Handle>::empty());
            assert(content(out@) =~= head + records_tokens(self@, order@.take(0)));
        }
        while i < order.len()
            invariant
                i <= order.len(),
                self.wf(),
                self@.is_level_order(self@.root, order@),
                content(out@) == head + records_tokens(self@, order@.take(i as int)),
            decreases order.len() - i,
        {
            let h: Handle = order[i];
            proof {
                assert(order@.contains(h));
            }
            put(out, Token::Field(Key::Handle, Value::Handle(h)));
            match self.get(h) {
                Some(node) => {
                    node.save(Key::Node, out);
                },
                None => {},
            }
            proof {
                let upto = order@.take(i + 1);
                assert(upto.drop_last() =~= order@.take(i as int));
                assert(upto.last() == h);
                assert(content(out@) =~= head + records_tokens(self@, upto));
            }
            i = i + 1;
        }
        put(out, Token::Leave);
        proof {
            assert(order@.take(order@.len() as int) =~= order@);
            let written = graph_tokens(self@, order@, key);
            assert(content(out@) =~= start + written);
            assert(content(out@).skip(start.len() as int) =~= written);
            assert(content(out@).take(start.len() as int) =~= start);
        }
    }

    /// Reads a graph in a region of name `key` at place `at`, and returns it
    /// with the place after the region. Every node is under the handle it was
    /// written with.
    pub fn load(tokens: &Vec<Token>, at: usize, key: Key) -> (r: Result<(Self, usize), DecodeError>)
        ensures
            match r {
                Ok((graph, next)) => graph_at(content(tokens@), at as int, key) == Ok::<
                    (GraphView, int),
                    DecodeError,
                >((graph@, next as int)) && at < next <= tokens@.len() && graph.wf(),
                Err(e) => graph_at(content(tokens@), at as int, key) == Err::<
                    (GraphView, int),
                    DecodeError,
                >(e),
            },
    {
        let ghost s = content(tokens@);
        let total: usize = tokens.len();
        match read_enter(tokens, at, key) {
            Err(e) => {
                return Err(e);
            },
            Ok(_) => {},
        }
        let count: u64 = match read_u64(tokens, at + 1, Key::Length) {
            Err(e) => {
                return Err(e);
            },
            Ok(count) => count,
        };
        if count == 0 {
            return Err(DecodeError { at: at + 2, kind: DecodeErrorKind::InvalidValue });
        }
        let first: usize = at + 2;
        let root: Handle = match read_handle(tokens, first, Key::Handle) {
            Err(e) => {
                proof {
                    records_fail_early(s, first as int, 1, count as nat, e);
                }
                return Err(e);
            },
            Ok(h) => h,
        };
        let (root_node, after_root) = match Node::load(tokens, first + 1, Key::Node) {
            Err(e) => {
                proof {
                    records_fail_early(s, first as int, 1, count as nat, e);
                }
                return Err(e);
            },
            Ok(read) => read,
        };
        let mut graph: Graph = match Graph::restore_root(root, root_node) {
            None => {
                let e = DecodeError { at: first, kind: DecodeErrorKind::InvalidValue };
                proof {
                    records_fail_early(s, first as int, 1, count as nat, e);
                }
                return Err(e);
            },
            Some(graph) => graph,
        };
        let mut i: u64 = 1;
        let mut next: usize = after_root;
        while i < count
            invariant
                1 <= i <= count,
                s == content(tokens@),
                total == tokens@.len(),
                first == at + 2,
                first < next <= tokens@.len(),
                enter_at(s, at as int, key) is Ok,
                u64_at(s, at + 1, Key::Length) == Ok::<u64, DecodeError>(count),
                records_at(s, first as int, i as nat) == Ok::<(GraphView, int), DecodeError>(
                    (graph@, next as int),
                ),
                graph.wf(),
                graph.is_pristine(),
            decreases count - i,
        {
            let h: Handle = match read_handle(tokens, next, Key::Handle) {
                Err(e) => {
                    proof {
                        records_fail_early(s, first as int, (i + 1) as nat, count as nat, e);
                    }
                    return Err(e);
                },
                Ok(h) => h,
            };
            let (node, after) = match Node::load(tokens, next + 1, Key::Node) {
                Err(e) => {
                    proof {
                        records_fail_early(s, first as int, (i + 1) as nat, count as nat, e);
                    }
                    return Err(e);
                },
                Ok(read) => read,
            };
            let parent: Handle = node.base().parent();
            if !graph.restore_node(h, node, parent) {
                let e = DecodeError { at: next, kind: DecodeErrorKind::InvalidValue };
                proof {
                    records_fail_early(s, first as int, (i + 1) as nat, count as nat, e);
                }
                return Err(e);
            }
            next = after;
            i = i + 1;
        }
        match read_leave(tokens, next) {
            Err(e) => Err(e),
            Ok(_) => Ok((graph, next + 1)),
        }
    }
}

} // verus!

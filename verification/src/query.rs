//! Occlusion queries.
//!
//! An occlusion query asks the graphics device whether any sample of a draw
//! passed the depth test. The draw of a node's geometry is bracketed by
//! `begin` and `end`; some time later the device has the answer. This module
//! keeps the life cycle of one query and the last answer known. It issues no
//! device call itself: `begin` and `end` return the command for the caller to
//! issue, and the caller hands what it polled to `update_occlusion_result`.

use crate::handle::Handle;
use vstd::prelude::*;

verus! {

/// Where a query stands in its life cycle.
#[derive(Clone, Copy, Debug, PartialEq, Eq, Structural)]
pub enum QueryState {
    /// Made, and not begun yet.
    Created,
    /// Begun: draws issued now count towards the answer.
    Began,
    /// Ended: the device is working on the answer.
    Ended,
    /// The answer of the last bracket has been taken.
    ResultAvailable,
}

/// A command for the graphics device.
#[derive(Clone, Copy, Debug, PartialEq, Eq, Structural)]
pub enum QueryCommand {
    /// Begin the conservative any-samples-passed query of this name.
    Begin { id: u32 },
    /// End the conservative any-samples-passed query that is running.
    End,
}

/// An occlusion query bound to a node.
#[derive(Clone, Copy, Debug, PartialEq, Eq)]
pub struct Query {
    node: Handle,
    id: u32,
    was_occluded: bool,
    state: QueryState,
}

/// What a query holds.
pub struct QueryView {
    /// The node whose geometry the query is about.
    pub node: Handle,
    /// The name the graphics device gave to the query.
    pub id: u32,
    /// The last answer taken: whether the node was hidden.
    pub was_occluded: bool,
    /// The place in the life cycle.
    pub state: QueryState,
}

impl View for Query {
    type V = QueryView;

    closed spec fn view(&self) -> QueryView {
        QueryView {
            node: self.node,
            id: self.id,
            was_occluded: self.was_occluded,
            state: self.state,
        }
    }
}

/// Whether a count of passed samples means that the geometry was hidden: it
/// was, exactly when no sample passed.
pub open spec fn hidden(samples_passed: u32) -> bool {
    samples_passed == 0
}

impl Query {
    /// A query for `node` under the name `id`, which the caller has had from
    /// the graphics device. No answer is known yet, which counts as "not
    /// hidden".
    pub fn new(node: Handle, id: u32) -> (query: Self)
        ensures
            query@ == (QueryView { node, id, was_occluded: false, state: QueryState::Created }),
    {
        Query { node, id, was_occluded: false, state: QueryState::Created }
    }

    /// The node whose geometry the query is about.
    pub fn node(&self) -> (r: Handle)
        ensures
            r == self@.node,
    {
        self.node
    }

    /// The name the graphics device gave to the query.
    pub fn id(&self) -> (r: u32)
        ensures
            r == self@.id,
    {
        self.id
    }

    /// The place of the query in its life cycle.
    pub fn state(&self) -> (r: QueryState)
        ensures
            r == self@.state,
    {
        self.state
    }

    /// Begins a bracket and returns the command to issue. A query that is
    /// running cannot be begun again before it is ended.
    pub fn begin(&mut self) -> (command: QueryCommand)
        requires
            old(self)@.state != QueryState::Began,
        ensures
            final(self)@ == (QueryView { state: QueryState::Began, ..old(self)@ }),
            command == (QueryCommand::Begin { id: old(self)@.id }),
    {
        self.state = QueryState::Began;
        QueryCommand::Begin { id: self.id }
    }

    /// Ends the running bracket and returns the command to issue.
    pub fn end(&mut self) -> (command: QueryCommand)
        requires
            old(self)@.state == QueryState::Began,
        ensures
            final(self)@ == (QueryView { state: QueryState::Ended, ..old(self)@ }),
            command == QueryCommand::End,
    {
        self.state = QueryState::Ended;
        QueryCommand::End
    }

    /// Takes what the caller polled from the device after `end`: the count of
    /// samples that passed, or nothing while the device is not ready. With a
    /// count, the answer is "hidden" exactly when the count is zero; it is
    /// remembered and returned. With nothing, the remembered answer is returned
    /// and nothing changes.
    pub fn update_occlusion_result(&mut self, polled: Option<u32>) -> (is_occluded: bool)
        requires
            old(self)@.state == QueryState::Ended || old(self)@.state
                == QueryState::ResultAvailable,
        ensures
            polled matches Some(samples_passed) ==> is_occluded == hidden(samples_passed)
                && final(self)@ == (QueryView {
                was_occluded: is_occluded,
                state: QueryState::ResultAvailable,
                ..old(self)@
            }),
            polled is None ==> is_occluded == old(self)@.was_occluded && final(self)@ == old(self)@,
    {
        match polled {
            Some(samples_passed) => {
                let is_occluded: bool = samples_passed == 0;
                self.was_occluded = is_occluded;
                self.state = QueryState::ResultAvailable;
                is_occluded
            },
            None => self.was_occluded,
        }
    }

    /// The last answer taken; "not hidden" before the first.
    pub fn was_occluded(&self) -> (r: bool)
        ensures
            r == self@.was_occluded,
    {
        self.was_occluded
    }
}

} // verus!

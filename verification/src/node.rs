//! The kinds of node.

use crate::base::Base;
use vstd::prelude::*;

verus! {

/// A node of a scene. Every kind of node holds the common state, a `Base`;
/// the plain kind holds nothing more.
#[derive(Debug, PartialEq, Eq)]
pub enum Node {
    /// A node that only groups and places other nodes.
    Base(Base),
}

impl Node {
    /// The common state of the node, as a specification value.
    pub open spec fn spec_base(&self) -> Base {
        match *self {
            Node::Base(base) => base,
        }
    }

    /// The common state of the node.
    pub fn base(&self) -> (r: &Base)
        ensures
            *r == self.spec_base(),
    {
        match self {
            Node::Base(base) => base,
        }
    }

    /// The common state of the node, open to change.
    pub fn base_mut(&mut self) -> (r: &mut Base)
        ensures
            *r == old(self).spec_base(),
            *final(self) == Node::Base(*final(r)),
    {
        match self {
            Node::Base(base) => base,
        }
    }
}

} // verus!

//! A connection between two endpoints, as the controller records it.

use vstd::prelude::*;

verus! {

/// A connection from `src` to `dst`.
#[derive(Debug, PartialEq, Eq, Hash)]
pub struct Connection {
    pub src: String,
    pub dst: String,
}

impl Connection {
    pub open spec fn view(&self) -> (Seq<char>, Seq<char>) {
        (self.src@, self.dst@)
    }

    /// The connection from `src` to `dst`.
    pub fn new(src: String, dst: String) -> (res: Connection)
        ensures
            res.src == src,
            res.dst == dst,
    {
        Connection { src, dst }
    }

    /// Whether both endpoints are the same as `other`'s.
    pub fn same_as(&self, other: &Connection) -> (res: bool)
        ensures
            res == (self@ == other@),
    {
        self.src == other.src && self.dst == other.dst
    }
}

} // verus!

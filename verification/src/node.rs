//! The nodes of a search.
use vstd::prelude::*;
use crate::solver::Vec2;

verus! {

/// One board reached by a search, with its cost and its estimate. A node is
/// never changed once it is made.
#[derive(Debug, Clone)]
pub struct Node {
    /// The tiles in row-major order.
    pub state: Vec<u32>,
    /// Where the node that this one was made from stands in the store of
    /// the search that made it; nothing for the first node.
    pub father: Option<usize>,
    /// The cell of the blank.
    pub blank: Vec2,
    /// Moves made from the first node to this one.
    pub g: u64,
    /// Estimate of the moves from this node to the goal.
    pub h: u64,
    /// `g + h`.
    pub f: u128,
}

/// A copy of a board.
pub fn copy_tiles(tiles: &[u32]) -> (res: Vec<u32>)
    ensures
        res@ == tiles@,
{
    let mut res: Vec<u32> = Vec::with_capacity(tiles.len());
    let mut i: usize = 0;
    while i < tiles.len()
        invariant
            i <= tiles.len(),
            res@ == tiles@.take(i as int),
        decreases tiles.len() - i,
    {
        res.push(tiles[i]);
        i += 1;
        assert(res@ =~= tiles@.take(i as int));
    }
    assert(tiles@.take(tiles.len() as int) =~= tiles@);
    res
}

/// Whether two boards hold the same tiles.
pub fn same_tiles(a: &Vec<u32>, b: &Vec<u32>) -> (same: bool)
    ensures
        same == (a@ == b@),
{
    if a.len() != b.len() {
        return false;
    }
    let mut i: usize = 0;
    while i < a.len()
        invariant
            a.len() == b.len(),
            i <= a.len(),
            forall|k: int| 0 <= k < i ==> a@[k] == b@[k],
        decreases a.len() - i,
    {
        if a[i] != b[i] {
            return false;
        }
        i += 1;
    }
    assert(a@ =~= b@);
    true
}

impl PartialEq for Node {
    /// Two nodes are equal when their boards are.
    fn eq(&self, other: &Node) -> (same: bool) {
        same_tiles(&self.state, &other.state)
    }
}

impl Eq for Node {}

impl vstd::std_specs::cmp::PartialEqSpecImpl for Node {
    open spec fn obeys_eq_spec() -> bool {
        true
    }

    open spec fn eq_spec(&self, other: &Node) -> bool {
        self.state@ == other.state@
    }
}

impl Node {
    /// Two nodes are the same when their boards are; cost, estimate, blank
    /// and father do not count.
    pub fn same_state(&self, other: &Node) -> (same: bool)
        ensures
            same == (self.state@ == other.state@),
    {
        same_tiles(&self.state, &other.state)
    }

    /// Whether this node leaves the frontier before `other`: the one with
    /// the lower `f` goes first.
    pub fn before(&self, other: &Node) -> (first: bool)
        ensures
            first == (self.f < other.f),
    {
        self.f < other.f
    }
}

} // verus!

use vstd::prelude::*;
use crate::blockchain::Chain;

verus! {

/// A participant that holds a chain and only watches it.
pub struct Node {
    chain: Chain,
}

impl Node {
    pub closed spec fn chain(&self) -> Chain {
        self.chain
    }

    pub fn new(chain: Chain) -> (r: Self)
        ensures
            r.chain() == chain,
    {
        Node { chain }
    }

    /// The chain that the node watches.
    pub fn get_chain(&self) -> (r: &Chain)
        ensures
            *r == self.chain(),
    {
        &self.chain
    }
}

} // verus!

//! A single peg: a stack of rings, bottom first.

use crate::laws::lemma_starting_stack_ordered;
use crate::model::{starting_stack, strictly_decreasing};
use vstd::prelude::*;

verus! {

/// One peg of the puzzle. `rings[0]` is the bottom ring, the last element
/// is the top ring. A larger number is a larger ring.
#[derive(Clone, Debug)]
pub struct Tower {
    pub rings: Vec<u32>,
}

impl View for Tower {
    type V = Seq<u32>;

    open spec fn view(&self) -> Seq<u32> {
        self.rings@
    }
}

impl PartialEq for Tower {
    /// Two pegs are equal when they hold the same rings in the same order.
    fn eq(&self, other: &Tower) -> (same: bool) {
        if self.rings.len() != other.rings.len() {
            return false;
        }
        let mut i: usize = 0;
        while i < self.rings.len()
            invariant
                i <= self.rings.len(),
                self.rings.len() == other.rings.len(),
                forall|j: int| 0 <= j < i ==> self.rings[j] == other.rings[j],
            decreases self.rings.len() - i,
        {
            if self.rings[i] != other.rings[i] {
                return false;
            }
            i += 1;
        }
        assert(self@ =~= other@);
        true
    }
}

impl vstd::std_specs::cmp::PartialEqSpecImpl for Tower {
    open spec fn obeys_eq_spec() -> bool {
        true
    }

    open spec fn eq_spec(&self, other: &Tower) -> bool {
        self@ == other@
    }
}

impl Tower {
    /// Puts `val` on top of the peg. The size of the ring is not compared
    /// with what is already there.
    pub fn push(&mut self, val: u32)
        ensures
            final(self)@ == old(self)@.push(val),
    {
        self.rings.push(val)
    }

    /// Takes the top ring off the peg.
    pub fn pop(&mut self) -> (val: u32)
        requires
            old(self)@.len() > 0,
        ensures
            val == old(self)@.last(),
            final(self)@ == old(self)@.drop_last(),
    {
        let val = self.rings.pop();
        val.expect("Tried to move rings from an empty peg.")
    }
}

/// Builds the full stack a game starts with: the rings `num_rings - 1`
/// down to `1`, largest at the bottom.
pub fn get_starting_stack(num_rings: u32) -> (stack: Tower)
    ensures
        stack@ == starting_stack(num_rings as nat),
        strictly_decreasing(stack@),
{
    let mut rings: Vec<u32> = Vec::new();
    let mut ring: u32 = num_rings;
    while ring > 1
        invariant
            1 <= ring <= num_rings || num_rings == 0 && ring == 0,
            rings@.len() == num_rings - ring,
            forall|i: int| 0 <= i < rings@.len() ==> rings@[i] == num_rings - 1 - i,
        decreases ring,
    {
        ring = ring - 1;
        rings.push(ring);
    }
    proof {
        assert(rings@ =~= starting_stack(num_rings as nat));
        lemma_starting_stack_ordered(num_rings as nat);
    }
    Tower { rings }
}

} // verus!

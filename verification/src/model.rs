//! The mathematical model of the puzzle: peg contents as sequences of
//! sequences, single-ring moves, and the optimal sequence of moves.

use vstd::multiset::Multiset;
use vstd::prelude::*;

verus! {

/// A single-ring move: the top ring of peg `from` goes on top of peg `to`.
pub struct Move {
    pub from: int,
    pub to: int,
}

/// The pegs after the top ring of peg `from` has been put on peg `to`.
/// The ring is taken off first, so a move from a peg onto itself leaves
/// the pegs as they were.
pub open spec fn move_ring(pegs: Seq<Seq<u32>>, from: int, to: int) -> Seq<Seq<u32>> {
    let lifted = pegs.update(from, pegs[from].drop_last());
    lifted.update(to, lifted[to].push(pegs[from].last()))
}

/// The pegs after `moves` have been made on `pegs`, first to last.
pub open spec fn play(pegs: Seq<Seq<u32>>, moves: Seq<Move>) -> Seq<Seq<u32>>
    decreases moves.len(),
{
    if moves.len() == 0 {
        pegs
    } else {
        move_ring(play(pegs, moves.drop_last()), moves.last().from, moves.last().to)
    }
}

/// The classic sequence of moves that carries the top `n` rings of peg
/// `from` to peg `to`, with peg `via` as the resting place: carry `n - 1`
/// rings out of the way, move the ring below them, carry the `n - 1` rings
/// on top of it.
pub open spec fn hanoi_moves(n: nat, from: int, to: int, via: int) -> Seq<Move>
    decreases n,
{
    if n == 0 {
        Seq::empty()
    } else {
        hanoi_moves((n - 1) as nat, from, via, to).push(Move { from, to }) + hanoi_moves(
            (n - 1) as nat,
            via,
            to,
            from,
        )
    }
}

/// Whether peg `p` is neither the starting nor the ending peg.
pub open spec fn is_spare(p: int, starting: int, ending: int) -> bool {
    p != starting && p != ending
}

/// The first peg that is neither the starting nor the ending peg. Two pegs
/// are named, so it is one of the first three.
pub open spec fn spare_peg(starting: int, ending: int) -> int {
    if starting != 0 && ending != 0 {
        0
    } else if starting != 1 && ending != 1 {
        1
    } else {
        2
    }
}

/// The rings `num_rings - 1` down to `1`, largest at the bottom: the full
/// stack a game starts with. For `num_rings` of 0 or 1 it is empty.
pub open spec fn starting_stack(num_rings: nat) -> Seq<u32> {
    if num_rings == 0 {
        Seq::empty()
    } else {
        Seq::new((num_rings - 1) as nat, |i: int| (num_rings - 1 - i) as u32)
    }
}

/// The pegs after the top `n` rings of peg `from` have been set on top of
/// peg `to` in the order they had, for two different pegs.
pub open spec fn tower_moved(pegs: Seq<Seq<u32>>, n: nat, from: int, to: int) -> Seq<Seq<u32>> {
    let kept = pegs[from].len() - n;
    pegs.update(from, pegs[from].take(kept)).update(to, pegs[to] + pegs[from].skip(kept))
}

/// The height of peg `p` after the moves for `n` rings from `from` to
/// `to`, given its height `h` before: `n` rings leave `from` and `n`
/// rings reach `to`.
pub open spec fn height_after(h: int, p: int, n: nat, from: int, to: int) -> int {
    h - (if p == from { n as int } else { 0 }) + (if p == to { n as int } else { 0 })
}

/// Every ring of the stack lies on a larger one: sizes strictly decrease
/// from the bottom to the top.
pub open spec fn strictly_decreasing(stack: Seq<u32>) -> bool {
    forall|i: int, j: int| 0 <= i < j < stack.len() ==> stack[i] > stack[j]
}

/// Every peg is strictly decreasing from bottom to top.
pub open spec fn all_ordered(pegs: Seq<Seq<u32>>) -> bool {
    forall|p: int| 0 <= p < pegs.len() ==> strictly_decreasing(#[trigger] pegs[p])
}

/// Every ring of `stack` is larger than every ring of `rings`, so that
/// `rings` may be set down on `stack`.
pub open spec fn carries(stack: Seq<u32>, rings: Seq<u32>) -> bool {
    forall|i: int, j: int| 0 <= i < stack.len() && 0 <= j < rings.len() ==> stack[i] > rings[j]
}

/// The rules allow the top ring of peg `from` to be put on peg `to`: they
/// are two pegs of the puzzle, there is a ring to take, and it is smaller
/// than the ring it comes to lie on.
pub open spec fn may_move(pegs: Seq<Seq<u32>>, from: int, to: int) -> bool {
    &&& 0 <= from < pegs.len()
    &&& 0 <= to < pegs.len()
    &&& from != to
    &&& pegs[from].len() > 0
    &&& pegs[to].len() > 0 ==> pegs[to].last() > pegs[from].last()
}

/// The rules allow the top `n` rings of peg `from` to be carried to peg
/// `to` by way of peg `via`: the three are different pegs of the puzzle,
/// every peg is strictly decreasing, and every ring on `to` and on `via`
/// is larger than each of the rings to be carried.
pub open spec fn ready_to_carry(pegs: Seq<Seq<u32>>, n: nat, from: int, to: int, via: int) -> bool {
    &&& 0 <= from < pegs.len()
    &&& 0 <= to < pegs.len()
    &&& 0 <= via < pegs.len()
    &&& from != to
    &&& from != via
    &&& to != via
    &&& pegs[from].len() >= n
    &&& all_ordered(pegs)
    &&& carries(pegs[to], pegs[from].skip(pegs[from].len() - n))
    &&& carries(pegs[via], pegs[from].skip(pegs[from].len() - n))
}

/// All rings on all pegs, with multiplicity.
pub open spec fn rings_of(pegs: Seq<Seq<u32>>) -> Multiset<u32>
    decreases pegs.len(),
{
    if pegs.len() == 0 {
        Multiset::empty()
    } else {
        rings_of(pegs.drop_last()).add(pegs.last().to_multiset())
    }
}

} // verus!

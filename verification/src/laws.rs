//! What holds of the optimal sequence of moves, whatever the pegs hold.

use crate::model::{
    all_ordered, carries, hanoi_moves, height_after, is_spare, may_move, move_ring, play,
    ready_to_carry, rings_of, spare_peg, starting_stack, strictly_decreasing, tower_moved, Move,
};
use vstd::arithmetic::power2::{lemma2_to64, lemma_pow2_unfold, pow2};
use vstd::prelude::*;

verus! {

/// Playing `first` and then `rest` is playing the two in one go.
pub proof fn lemma_play_concat(pegs: Seq<Seq<u32>>, first: Seq<Move>, rest: Seq<Move>)
    ensures
        play(pegs, first + rest) == play(play(pegs, first), rest),
    decreases rest.len(),
{
    if rest.len() == 0 {
        assert(first + rest =~= first);
    } else {
        assert((first + rest).drop_last() =~= first + rest.drop_last());
        lemma_play_concat(pegs, first, rest.drop_last());
    }
}

/// Playing the moves for `n` rings is playing the moves for `n - 1` rings
/// onto the spare peg, moving one ring, and playing the moves for `n - 1`
/// rings from the spare peg.
pub proof fn lemma_play_hanoi_unfold(pegs: Seq<Seq<u32>>, n: nat, from: int, to: int, via: int)
    requires
        n > 0,
    ensures
        play(pegs, hanoi_moves(n, from, to, via)) == play(
            move_ring(play(pegs, hanoi_moves((n - 1) as nat, from, via, to)), from, to),
            hanoi_moves((n - 1) as nat, via, to, from),
        ),
{
    let out = hanoi_moves((n - 1) as nat, from, via, to);
    let back = hanoi_moves((n - 1) as nat, via, to, from);
    let m = Move { from, to };
    assert(out.push(m).drop_last() =~= out);
    lemma_play_concat(pegs, out.push(m), back);
}

/// The optimal sequence for `n` rings has `2^n - 1` moves.
pub proof fn lemma_move_count(n: nat, from: int, to: int, via: int)
    ensures
        hanoi_moves(n, from, to, via).len() == pow2(n) - 1,
    decreases n,
{
    if n == 0 {
        lemma2_to64();
    } else {
        lemma_move_count((n - 1) as nat, from, via, to);
        lemma_move_count((n - 1) as nat, via, to, from);
        lemma_pow2_unfold(n);
    }
}

/// The moves for `n` rings keep the number of pegs, take `n` rings from
/// the starting peg and bring `n` rings to the ending peg. This holds also
/// where two or three of the pegs named are the same peg.
pub proof fn lemma_heights(pegs: Seq<Seq<u32>>, n: nat, from: int, to: int, via: int)
    requires
        0 <= from < pegs.len(),
        0 <= to < pegs.len(),
        0 <= via < pegs.len(),
        pegs[from].len() >= n,
    ensures
        play(pegs, hanoi_moves(n, from, to, via)).len() == pegs.len(),
        forall|p: int|
            0 <= p < pegs.len() ==> (#[trigger] play(pegs, hanoi_moves(n, from, to, via))[p]).len()
                == height_after(pegs[p].len() as int, p, n, from, to),
    decreases n,
{
    if n > 0 {
        let less = (n - 1) as nat;
        let aside = play(pegs, hanoi_moves(less, from, via, to));
        let moved = move_ring(aside, from, to);
        lemma_heights(pegs, less, from, via, to);
        assert(aside[from].len() >= 1);
        assert(moved[via].len() >= less);
        lemma_heights(moved, less, via, to, from);
        lemma_play_hanoi_unfold(pegs, n, from, to, via);
        let done = play(moved, hanoi_moves(less, via, to, from));
        assert forall|p: int| 0 <= p < pegs.len() implies (#[trigger] done[p]).len()
            == height_after(pegs[p].len() as int, p, n, from, to) by {
            assert(aside[p].len() == height_after(pegs[p].len() as int, p, less, from, via));
            assert(done[p].len() == height_after(moved[p].len() as int, p, less, via, to));
        }
    }
}

/// With three different pegs, the moves for `n` rings set the top `n`
/// rings of the starting peg on the ending peg, in the order they had, and
/// leave every other peg as it was.
pub proof fn lemma_tower_arrives(pegs: Seq<Seq<u32>>, n: nat, from: int, to: int, via: int)
    requires
        0 <= from < pegs.len(),
        0 <= to < pegs.len(),
        0 <= via < pegs.len(),
        from != to,
        from != via,
        to != via,
        pegs[from].len() >= n,
    ensures
        play(pegs, hanoi_moves(n, from, to, via)) == tower_moved(pegs, n, from, to),
    decreases n,
{
    if n == 0 {
        assert(tower_moved(pegs, n, from, to) =~~= pegs);
    } else {
        let less = (n - 1) as nat;
        let aside = play(pegs, hanoi_moves(less, from, via, to));
        let moved = move_ring(aside, from, to);
        lemma_tower_arrives(pegs, less, from, via, to);
        lemma_tower_arrives(moved, less, via, to, from);
        lemma_play_hanoi_unfold(pegs, n, from, to, via);
        assert(tower_moved(moved, less, via, to) =~~= tower_moved(pegs, n, from, to));
    }
}

/// The state after the first `k` moves for `n` rings is either a state on
/// the way of the `n - 1` rings to the spare peg, or a state on their way
/// back from it, after the ring below them has been moved.
pub proof fn lemma_play_hanoi_prefix(
    pegs: Seq<Seq<u32>>,
    n: nat,
    from: int,
    to: int,
    via: int,
    k: nat,
)
    requires
        n > 0,
        k <= hanoi_moves(n, from, to, via).len(),
    ensures
        ({
            let out = hanoi_moves((n - 1) as nat, from, via, to);
            let back = hanoi_moves((n - 1) as nat, via, to, from);
            let so_far = play(pegs, hanoi_moves(n, from, to, via).take(k as int));
            if k <= out.len() {
                so_far == play(pegs, out.take(k as int))
            } else {
                &&& k - out.len() - 1 <= back.len()
                &&& so_far == play(
                    move_ring(play(pegs, out), from, to),
                    back.take(k - out.len() - 1),
                )
            }
        }),
{
    let out = hanoi_moves((n - 1) as nat, from, via, to);
    let back = hanoi_moves((n - 1) as nat, via, to, from);
    let m = Move { from, to };
    let moves = hanoi_moves(n, from, to, via);
    if k <= out.len() {
        assert(moves.take(k as int) =~= out.take(k as int));
    } else {
        let rest = back.take(k - out.len() - 1);
        assert(moves.take(k as int) =~= out.push(m) + rest);
        assert(out.push(m).drop_last() =~= out);
        lemma_play_concat(pegs, out.push(m), rest);
    }
}

/// Putting another stack in the place of peg `p` changes the rings of the
/// puzzle by the difference of the two stacks.
pub proof fn lemma_rings_of_update(pegs: Seq<Seq<u32>>, p: int, stack: Seq<u32>)
    requires
        0 <= p < pegs.len(),
    ensures
        rings_of(pegs.update(p, stack)).add(pegs[p].to_multiset()) == rings_of(pegs).add(
            stack.to_multiset(),
        ),
    decreases pegs.len(),
{
    let changed = pegs.update(p, stack);
    let below = rings_of(pegs.drop_last());
    assert(rings_of(pegs) == below.add(pegs.last().to_multiset()));
    assert(rings_of(changed) == rings_of(changed.drop_last()).add(changed.last().to_multiset()));
    if p == pegs.len() - 1 {
        assert(changed.drop_last() =~= pegs.drop_last());
        assert(below.add(stack.to_multiset()).add(pegs[p].to_multiset()) =~= below.add(
            pegs[p].to_multiset(),
        ).add(stack.to_multiset()));
    } else {
        assert(changed.drop_last() =~= pegs.drop_last().update(p, stack));
        lemma_rings_of_update(pegs.drop_last(), p, stack);
        let last = pegs.last().to_multiset();
        let below_changed = rings_of(changed.drop_last());
        assert(below_changed.add(last).add(pegs[p].to_multiset()) =~= below_changed.add(
            pegs[p].to_multiset(),
        ).add(last));
        assert(below.add(stack.to_multiset()).add(last) =~= below.add(last).add(
            stack.to_multiset(),
        ));
    }
}

/// A single-ring move neither makes nor loses a ring.
pub proof fn lemma_move_keeps_rings(pegs: Seq<Seq<u32>>, from: int, to: int)
    requires
        0 <= from < pegs.len(),
        0 <= to < pegs.len(),
        pegs[from].len() > 0,
    ensures
        rings_of(move_ring(pegs, from, to)) == rings_of(pegs),
{
    broadcast use vstd::seq_lib::to_multiset_build;

    let ring = pegs[from].last();
    let lifted = pegs.update(from, pegs[from].drop_last());
    assert(pegs[from] =~= pegs[from].drop_last().push(ring));
    lemma_rings_of_update(pegs, from, pegs[from].drop_last());
    lemma_rings_of_update(lifted, to, lifted[to].push(ring));
    let after = move_ring(pegs, from, to);
    assert forall|v: u32| rings_of(after).count(v) == rings_of(pegs).count(v) by {
        let taken = rings_of(lifted).add(pegs[from].to_multiset());
        let given = rings_of(after).add(lifted[to].to_multiset());
        assert(taken.count(v) == rings_of(pegs).add(pegs[from].drop_last().to_multiset()).count(v));
        assert(given.count(v) == rings_of(lifted).add(lifted[to].push(ring).to_multiset()).count(
            v,
        ));
    }
    assert(rings_of(after) =~= rings_of(pegs));
}

/// Conservation: after any number `k` of the moves for `n` rings the pegs
/// hold, taken together, the rings they held at the start. This holds also
/// where two or three of the pegs named are the same peg.
pub proof fn lemma_rings_conserved(
    pegs: Seq<Seq<u32>>,
    n: nat,
    from: int,
    to: int,
    via: int,
    k: nat,
)
    requires
        0 <= from < pegs.len(),
        0 <= to < pegs.len(),
        0 <= via < pegs.len(),
        pegs[from].len() >= n,
        k <= hanoi_moves(n, from, to, via).len(),
    ensures
        rings_of(play(pegs, hanoi_moves(n, from, to, via).take(k as int))) == rings_of(pegs),
    decreases n,
{
    if n > 0 {
        let less = (n - 1) as nat;
        let out = hanoi_moves(less, from, via, to);
        let back = hanoi_moves(less, via, to, from);
        lemma_play_hanoi_prefix(pegs, n, from, to, via, k);
        if k <= out.len() {
            lemma_rings_conserved(pegs, less, from, via, to, k);
        } else {
            let aside = play(pegs, out);
            let moved = move_ring(aside, from, to);
            assert(out.take(out.len() as int) =~= out);
            lemma_rings_conserved(pegs, less, from, via, to, out.len());
            lemma_heights(pegs, less, from, via, to);
            assert(aside[from].len() >= 1);
            lemma_move_keeps_rings(aside, from, to);
            assert(moved[via].len() >= less);
            lemma_rings_conserved(moved, less, via, to, from, (k - out.len() - 1) as nat);
        }
    }
}

/// A move that the rules allow leaves every peg strictly decreasing.
pub proof fn lemma_move_keeps_order(pegs: Seq<Seq<u32>>, from: int, to: int)
    requires
        all_ordered(pegs),
        may_move(pegs, from, to),
    ensures
        all_ordered(move_ring(pegs, from, to)),
{
    let after = move_ring(pegs, from, to);
    assert forall|p: int| 0 <= p < after.len() implies strictly_decreasing(#[trigger] after[p]) by {
        assert(strictly_decreasing(pegs[p]));
    }
}

/// Half way through the moves for `n` rings, when `n - 1` rings rest on
/// the spare peg, the rules allow what follows: the move of the ring that
/// lay below them, and the way of the `n - 1` rings from the spare peg on
/// top of it.
pub proof fn lemma_ready_half_way(pegs: Seq<Seq<u32>>, n: nat, from: int, to: int, via: int)
    requires
        n > 0,
        ready_to_carry(pegs, n, from, to, via),
    ensures
        ready_to_carry(pegs, (n - 1) as nat, from, via, to),
        ({
            let aside = play(pegs, hanoi_moves((n - 1) as nat, from, via, to));
            &&& all_ordered(aside)
            &&& may_move(aside, from, to)
            &&& ready_to_carry(move_ring(aside, from, to), (n - 1) as nat, via, to, from)
        }),
    decreases n, 0int,
{
    let less = (n - 1) as nat;
    let out = hanoi_moves(less, from, via, to);
    let stack = pegs[from];
    let height = stack.len() as int;
    let carried = stack.skip(height - n);
    let above = stack.skip(height - less);
    let aside = play(pegs, out);
    let moved = move_ring(aside, from, to);
    assert(strictly_decreasing(stack));
    assert forall|j: int| 0 <= j < above.len() implies above[j] == carried[j + 1] by {}
    assert(ready_to_carry(pegs, less, from, via, to));
    assert(out.take(out.len() as int) =~= out);
    lemma_pegs_stay_ordered(pegs, less, from, via, to, out.len());
    lemma_tower_arrives(pegs, less, from, via, to);
    assert(aside[from].last() == carried[0]);
    lemma_move_keeps_order(aside, from, to);
    assert(moved[via].skip(moved[via].len() - less) =~= above);
    assert(carries(moved[to], above)) by {
        assert forall|i: int, j: int|
            0 <= i < moved[to].len() && 0 <= j < above.len() implies moved[to][i] > above[j] by {
            assert(above[j] == carried[j + 1]);
        }
    }
}

/// Ordering: where the rules allow the `n` rings to be carried, every peg
/// is strictly decreasing after any number `k` of the moves for `n` rings.
pub proof fn lemma_pegs_stay_ordered(
    pegs: Seq<Seq<u32>>,
    n: nat,
    from: int,
    to: int,
    via: int,
    k: nat,
)
    requires
        ready_to_carry(pegs, n, from, to, via),
        k <= hanoi_moves(n, from, to, via).len(),
    ensures
        all_ordered(play(pegs, hanoi_moves(n, from, to, via).take(k as int))),
    decreases n, 1int,
{
    if n == 0 {
        assert(hanoi_moves(n, from, to, via).take(k as int) =~= Seq::<Move>::empty());
    } else {
        let less = (n - 1) as nat;
        let out = hanoi_moves(less, from, via, to);
        lemma_ready_half_way(pegs, n, from, to, via);
        lemma_play_hanoi_prefix(pegs, n, from, to, via, k);
        if k <= out.len() {
            lemma_pegs_stay_ordered(pegs, less, from, via, to, k);
        } else {
            let moved = move_ring(play(pegs, out), from, to);
            lemma_pegs_stay_ordered(moved, less, via, to, from, (k - out.len() - 1) as nat);
        }
    }
}

/// Every move is one that the rules allow: where they allow the `n` rings
/// to be carried, move number `k` of the moves for `n` rings takes a ring
/// from a peg that has one and puts it on an empty peg or on a larger
/// ring.
pub proof fn lemma_every_move_allowed(
    pegs: Seq<Seq<u32>>,
    n: nat,
    from: int,
    to: int,
    via: int,
    k: nat,
)
    requires
        ready_to_carry(pegs, n, from, to, via),
        k < hanoi_moves(n, from, to, via).len(),
    ensures
        may_move(
            play(pegs, hanoi_moves(n, from, to, via).take(k as int)),
            hanoi_moves(n, from, to, via)[k as int].from,
            hanoi_moves(n, from, to, via)[k as int].to,
        ),
    decreases n,
{
    if n > 0 {
        let less = (n - 1) as nat;
        let out = hanoi_moves(less, from, via, to);
        lemma_ready_half_way(pegs, n, from, to, via);
        lemma_play_hanoi_prefix(pegs, n, from, to, via, k);
        if k < out.len() {
            lemma_every_move_allowed(pegs, less, from, via, to, k);
        } else if k == out.len() {
            assert(out.take(k as int) =~= out);
        } else {
            let moved = move_ring(play(pegs, out), from, to);
            lemma_every_move_allowed(moved, less, via, to, from, (k - out.len() - 1) as nat);
        }
    }
}

/// The spare peg is the first peg that is neither the starting nor the
/// ending peg.
pub proof fn lemma_spare_peg_is_first(starting: int, ending: int)
    ensures
        0 <= spare_peg(starting, ending) <= 2,
        is_spare(spare_peg(starting, ending), starting, ending),
        forall|p: int| 0 <= p < spare_peg(starting, ending) ==> !is_spare(p, starting, ending),
{
}

/// The stack a game starts with is strictly decreasing from bottom to
/// top: it has `num_rings - 1` rings, and ring `i` from the bottom is
/// `num_rings - 1 - i`.
pub proof fn lemma_starting_stack_ordered(num_rings: nat)
    requires
        num_rings <= u32::MAX,
    ensures
        strictly_decreasing(starting_stack(num_rings)),
        num_rings > 0 ==> starting_stack(num_rings).len() == num_rings - 1,
        forall|i: int|
            0 <= i < starting_stack(num_rings).len() ==> starting_stack(num_rings)[i] == num_rings
                - 1 - i,
{
}

} // verus!

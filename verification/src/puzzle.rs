//! The puzzle: a row of pegs, the peg to empty, the peg to fill, and a
//! count of the single-ring moves made so far.

use crate::laws::{
    lemma_heights, lemma_move_count, lemma_move_keeps_order, lemma_move_keeps_rings,
    lemma_pegs_stay_ordered, lemma_play_hanoi_unfold, lemma_rings_conserved,
    lemma_spare_peg_is_first, lemma_starting_stack_ordered, lemma_tower_arrives,
};
use crate::model::{
    all_ordered, hanoi_moves, is_spare, may_move, move_ring, play, ready_to_carry, rings_of,
    spare_peg, starting_stack, tower_moved,
};
use crate::tower::{get_starting_stack, Tower};
use vstd::arithmetic::power2::{lemma2_to64, lemma_pow2_strictly_increases, lemma_pow2_unfold, pow2};
use vstd::prelude::*;

verus! {

/// Why a puzzle cannot be solved as it is set up.
#[derive(PartialEq, Eq, Structural, Clone, Copy, Debug)]
pub enum ConfigurationError {
    /// There are fewer than three pegs.
    TooFewTowers,
    /// There are three pegs or more, and each of them is the starting or
    /// the ending peg.
    NoAuxiliary,
}

impl ConfigurationError {
    /// What `message` says of the error.
    pub open spec fn message_text(self) -> Seq<char> {
        match self {
            ConfigurationError::TooFewTowers => "This configuration is impossible to solve."@,
            ConfigurationError::NoAuxiliary => "Auxiliary tower couldn't be found."@,
        }
    }

    /// The error in words.
    pub fn message(&self) -> (text: String)
        ensures
            text@ == self.message_text(),
    {
        match self {
            ConfigurationError::TooFewTowers => {
                "This configuration is impossible to solve.".to_owned()
            },
            ConfigurationError::NoAuxiliary => "Auxiliary tower couldn't be found.".to_owned(),
        }
    }
}

/// The puzzle. Only three of the pegs take part in a solution: the
/// starting peg, the ending peg and the first peg that is neither.
#[derive(Clone, Debug)]
pub struct TowerOfHanoi {
    pub towers: Vec<Tower>,
    pub starting_tower: usize,
    pub ending_tower: usize,
    pub num_moves: u64,
}

impl View for TowerOfHanoi {
    type V = Seq<Seq<u32>>;

    /// The contents of the pegs, each bottom first.
    open spec fn view(&self) -> Seq<Seq<u32>> {
        Seq::new(self.towers@.len(), |i: int| self.towers@[i]@)
    }
}

impl PartialEq for TowerOfHanoi {
    /// Two puzzles are equal when their pegs hold the same rings in the
    /// same order and they agree on the starting peg, the ending peg and
    /// the number of moves.
    fn eq(&self, other: &TowerOfHanoi) -> (same: bool) {
        if self.starting_tower != other.starting_tower || self.ending_tower != other.ending_tower
            || self.num_moves != other.num_moves || self.towers.len() != other.towers.len() {
            assert(self.towers.len() != other.towers.len() ==> self@.len() != other@.len());
            return false;
        }
        let mut i: usize = 0;
        while i < self.towers.len()
            invariant
                i <= self.towers.len(),
                self.towers.len() == other.towers.len(),
                forall|j: int| 0 <= j < i ==> self@[j] == other@[j],
            decreases self.towers.len() - i,
        {
            if self.towers[i] != other.towers[i] {
                assert(self@[i as int] != other@[i as int]);
                return false;
            }
            i += 1;
        }
        assert(self@ =~= other@);
        true
    }
}

impl vstd::std_specs::cmp::PartialEqSpecImpl for TowerOfHanoi {
    open spec fn obeys_eq_spec() -> bool {
        true
    }

    open spec fn eq_spec(&self, other: &TowerOfHanoi) -> bool {
        &&& self@ == other@
        &&& self.starting_tower == other.starting_tower
        &&& self.ending_tower == other.ending_tower
        &&& self.num_moves == other.num_moves
    }
}

impl TowerOfHanoi {
    /// The number of rings on the starting peg.
    pub open spec fn rings_to_carry(&self) -> nat {
        self@[self.starting_tower as int].len()
    }

    /// Moves the top ring of one peg onto another and counts the move.
    /// Sizes are not compared: the caller answers for the order of the
    /// rings.
    pub fn move_top_peg(&mut self, starting_tower: usize, ending_tower: usize)
        requires
            starting_tower < old(self).towers.len(),
            ending_tower < old(self).towers.len(),
            old(self)@[starting_tower as int].len() > 0,
            old(self).num_moves < u64::MAX,
        ensures
            final(self)@ == move_ring(old(self)@, starting_tower as int, ending_tower as int),
            final(self).num_moves == old(self).num_moves + 1,
            final(self).starting_tower == old(self).starting_tower,
            final(self).ending_tower == old(self).ending_tower,
            rings_of(final(self)@) == rings_of(old(self)@),
            all_ordered(old(self)@) && may_move(
                old(self)@,
                starting_tower as int,
                ending_tower as int,
            ) ==> all_ordered(final(self)@),
    {
        let ring = self.towers[starting_tower].pop();
        self.towers[ending_tower].push(ring);
        self.num_moves += 1;
        proof {
            let from = starting_tower as int;
            let to = ending_tower as int;
            assert(self@ =~= move_ring(old(self)@, from, to));
            lemma_move_keeps_rings(old(self)@, from, to);
            if all_ordered(old(self)@) && may_move(old(self)@, from, to) {
                lemma_move_keeps_order(old(self)@, from, to);
            }
        }
    }

    /// Solves the puzzle: carries every ring of the starting peg to the
    /// ending peg.
    ///
    /// With fewer than three pegs nothing is touched and the error says so.
    /// Otherwise the moves are those of `solve` for the whole starting peg,
    /// with the first spare peg as the resting place; where the starting
    /// and the ending peg differ, the starting peg ends up empty and its
    /// rings lie on the ending peg in the order they had.
    pub fn move_tower(&mut self) -> (solved: Result<String, ConfigurationError>)
        requires
            old(self).towers.len() >= 3 ==> {
                &&& old(self).starting_tower < old(self).towers.len()
                &&& old(self).rings_to_carry() > 0 ==> {
                    &&& old(self).ending_tower < old(self).towers.len()
                    &&& old(self).num_moves + pow2(old(self).rings_to_carry()) - 1 <= u64::MAX
                }
            },
        ensures
            final(self).starting_tower == old(self).starting_tower,
            final(self).ending_tower == old(self).ending_tower,
            old(self).towers.len() < 3 ==> {
                &&& solved == Err::<String, ConfigurationError>(ConfigurationError::TooFewTowers)
                &&& *final(self) == *old(self)
            },
            old(self).towers.len() >= 3 ==> {
                &&& solved matches Ok(text) && text@ == "Solved."@
                &&& final(self)@ == play(
                    old(self)@,
                    hanoi_moves(
                        old(self).rings_to_carry(),
                        old(self).starting_tower as int,
                        old(self).ending_tower as int,
                        spare_peg(old(self).starting_tower as int, old(self).ending_tower as int),
                    ),
                )
                &&& final(self).num_moves == old(self).num_moves + pow2(old(self).rings_to_carry())
                    - 1
                &&& rings_of(final(self)@) == rings_of(old(self)@)
                &&& old(self).rings_to_carry() == 0 ==> final(self)@ == old(self)@
            },
            old(self).towers.len() >= 3 && old(self).starting_tower != old(self).ending_tower
                && old(self).ending_tower < old(self).towers.len() ==> final(self)@ == old(
                self,
            )@.update(old(self).starting_tower as int, Seq::empty()).update(
                old(self).ending_tower as int,
                old(self)@[old(self).ending_tower as int] + old(self)@[old(
                    self,
                ).starting_tower as int],
            ),
            old(self).towers.len() >= 3 && ready_to_carry(
                old(self)@,
                old(self).rings_to_carry(),
                old(self).starting_tower as int,
                old(self).ending_tower as int,
                spare_peg(old(self).starting_tower as int, old(self).ending_tower as int),
            ) ==> all_ordered(final(self)@),
    {
        let auxiliary = self.find_auxiliary()?;
        let n = self.towers[self.starting_tower].rings.len();
        let starting_tower = self.starting_tower;
        let ending_tower = self.ending_tower;
        self.solve(n, starting_tower, ending_tower, auxiliary);
        proof {
            let from = starting_tower as int;
            let to = ending_tower as int;
            let before = old(self)@;
            if from != to && to < before.len() {
                let after = before.update(from, Seq::empty()).update(to, before[to] + before[from]);
                if n > 0 {
                    assert(tower_moved(before, n as nat, from, to) =~~= after);
                } else {
                    assert(before =~~= after);
                }
            }
        }
        Ok("Solved.".to_owned())
    }

    /// Finds the resting place for the solver: the first peg that is
    /// neither the starting nor the ending peg.
    ///
    /// With three pegs or more there is always one, also where the starting
    /// and the ending peg are the same, so the second error is never
    /// returned: it stands for a search that found nothing.
    pub fn find_auxiliary(&self) -> (found: Result<usize, ConfigurationError>)
        ensures
            self.towers.len() < 3 ==> found == Err::<usize, ConfigurationError>(
                ConfigurationError::TooFewTowers,
            ),
            self.towers.len() >= 3 ==> found == Ok::<usize, ConfigurationError>(
                spare_peg(self.starting_tower as int, self.ending_tower as int) as usize,
            ),
            found matches Ok(i) ==> {
                &&& i < self.towers.len()
                &&& is_spare(i as int, self.starting_tower as int, self.ending_tower as int)
                &&& forall|j: int|
                    0 <= j < i ==> !is_spare(
                        j,
                        self.starting_tower as int,
                        self.ending_tower as int,
                    )
            },
            found == Err::<usize, ConfigurationError>(ConfigurationError::NoAuxiliary) <==> {
                &&& self.towers.len() >= 3
                &&& forall|j: int|
                    0 <= j < self.towers.len() ==> !is_spare(
                        j,
                        self.starting_tower as int,
                        self.ending_tower as int,
                    )
            },
    {
        if self.towers.len() < 3 {
            return Err(ConfigurationError::TooFewTowers);
        }
        for i in 0..self.towers.len()
            invariant
                self.towers.len() >= 3,
                forall|j: int|
                    0 <= j < i ==> !is_spare(
                        j,
                        self.starting_tower as int,
                        self.ending_tower as int,
                    ),
        {
            if i != self.starting_tower && i != self.ending_tower {
                proof {
                    lemma_spare_peg_is_first(self.starting_tower as int, self.ending_tower as int);
                    assert(is_spare(i as int, self.starting_tower as int, self.ending_tower as int));
                }
                return Ok(i);
            }
        }
        proof {
            lemma_spare_peg_is_first(self.starting_tower as int, self.ending_tower as int);
        }
        Err(ConfigurationError::NoAuxiliary)
    }

    /// Carries the top `n` rings of `starting_tower` to `ending_tower`, one
    /// ring at a time, with `auxiliary_tower` as the resting place.
    ///
    /// The pegs named need not differ: the moves are made all the same, and
    /// the first clause says which. Where they differ, the rings arrive in
    /// the order they had.
    ///
    /// The calls nest `n` deep, so the call stack bounds the number of rings
    /// long before the counter does.
    pub fn solve(
        &mut self,
        n: usize,
        starting_tower: usize,
        ending_tower: usize,
        auxiliary_tower: usize,
    )
        requires
            n > 0 ==> {
                &&& starting_tower < old(self).towers.len()
                &&& ending_tower < old(self).towers.len()
                &&& auxiliary_tower < old(self).towers.len()
                &&& old(self)@[starting_tower as int].len() >= n
                &&& old(self).num_moves + pow2(n as nat) - 1 <= u64::MAX
            },
        ensures
            final(self)@ == play(
                old(self)@,
                hanoi_moves(
                    n as nat,
                    starting_tower as int,
                    ending_tower as int,
                    auxiliary_tower as int,
                ),
            ),
            final(self).num_moves == old(self).num_moves + hanoi_moves(
                n as nat,
                starting_tower as int,
                ending_tower as int,
                auxiliary_tower as int,
            ).len(),
            final(self).num_moves == old(self).num_moves + pow2(n as nat) - 1,
            final(self).starting_tower == old(self).starting_tower,
            final(self).ending_tower == old(self).ending_tower,
            rings_of(final(self)@) == rings_of(old(self)@),
            n == 0 ==> final(self)@ == old(self)@,
            n > 0 && starting_tower != ending_tower && starting_tower != auxiliary_tower
                && ending_tower != auxiliary_tower ==> final(self)@ == tower_moved(
                old(self)@,
                n as nat,
                starting_tower as int,
                ending_tower as int,
            ),
            ready_to_carry(
                old(self)@,
                n as nat,
                starting_tower as int,
                ending_tower as int,
                auxiliary_tower as int,
            ) ==> all_ordered(final(self)@),
        decreases n,
    {
        let ghost from = starting_tower as int;
        let ghost to = ending_tower as int;
        let ghost via = auxiliary_tower as int;
        let ghost moves = hanoi_moves(n as nat, from, to, via);
        proof {
            lemma_move_count(n as nat, from, to, via);
        }
        if n == 0 {
            return ;
        }
        proof {
            lemma_pow2_unfold(n as nat);
            lemma_heights(old(self)@, (n - 1) as nat, from, via, to);
        }
        self.solve(n - 1, starting_tower, auxiliary_tower, ending_tower);
        self.move_top_peg(starting_tower, ending_tower);
        proof {
            lemma_heights(self@, (n - 1) as nat, via, to, from);
        }
        self.solve(n - 1, auxiliary_tower, ending_tower, starting_tower);
        proof {
            lemma_play_hanoi_unfold(old(self)@, n as nat, from, to, via);
            assert(moves.take(moves.len() as int) =~= moves);
            lemma_rings_conserved(old(self)@, n as nat, from, to, via, moves.len());
            if from != to && from != via && to != via {
                lemma_tower_arrives(old(self)@, n as nat, from, to, via);
            }
            if ready_to_carry(old(self)@, n as nat, from, to, via) {
                lemma_pegs_stay_ordered(old(self)@, n as nat, from, to, via, moves.len());
            }
        }
    }
}

/// Sets up the game on three pegs, with the full stack for `num_rings` on
/// the first peg, and solves it onto the third.
///
/// The full stack has `num_rings - 1` rings, so the game takes
/// `2^(num_rings - 1) - 1` moves; for `num_rings` of 0 or 1 there is no
/// ring and no move.
pub fn solve_game(num_rings: u32) -> (game: TowerOfHanoi)
    requires
        num_rings <= 65,
    ensures
        game@ == seq![Seq::<u32>::empty(), Seq::<u32>::empty(), starting_stack(num_rings as nat)],
        game.starting_tower == 0,
        game.ending_tower == 2,
        game.num_moves == pow2(starting_stack(num_rings as nat).len()) - 1,
        all_ordered(game@),
{
    let full_tower = get_starting_stack(num_rings);
    let mut game = TowerOfHanoi {
        towers: vec![full_tower, Tower { rings: Vec::new() }, Tower { rings: Vec::new() }],
        starting_tower: 0,
        ending_tower: 2,
        num_moves: 0,
    };
    proof {
        lemma2_to64();
        let height = starting_stack(num_rings as nat).len();
        if height < 64 {
            lemma_pow2_strictly_increases(height, 64);
        }
        lemma_starting_stack_ordered(num_rings as nat);
    }
    let solved = game.move_tower();
    assert(solved is Ok);
    assert(game@ =~~= seq![
        Seq::<u32>::empty(),
        Seq::<u32>::empty(),
        starting_stack(num_rings as nat),
    ]);
    game
}

} // verus!

//! The game simulator: a turn loop that repeatedly picks a guess, grades it
//! against a fixed hidden solution, and narrows the candidate set to the
//! bucket matching the grade, until exactly one candidate remains.
//!
//! Turn convention: the first guess is turn 1, and the reported length is
//! the number of update steps taken until a single candidate remains, plus
//! one for the guess that names it.

use vstd::prelude::*;

use crate::buckets::{bucket, bucket_spec, lemma_bucket_membership, lemma_bucket_no_duplicates};
use crate::grading::grade_spec;
use crate::minimax::{lemma_bucket_le_worst, lemma_min_worst_below_len, sm_word, sm_word_spec};
use crate::words::{banks_good, WordBank, WordId};

verus! {

/// The hardwired opening guess: the minimax guess for the full solution set
/// of the standard game, precomputed offline by brute force so that every
/// simulation can skip the expensive first selection.
pub const START_GUESS_WORD: WordId = 113;

/// A candidate set: duplicate-free solution-bank ids, all in range.
pub open spec fn valid_candidates(left: Seq<WordId>, sb: Seq<Seq<u8>>) -> bool {
    &&& left.no_duplicates()
    &&& forall|k: int| 0 <= k < left.len() ==> #[trigger] left[k] < sb.len()
}

/// The candidate set holding every solution-bank id in order.
pub open spec fn all_ids(n: nat) -> Seq<WordId> {
    Seq::new(n, |i: int| i as WordId)
}

/// Ids `0 .. n`, the full candidate set at game start.
pub fn full_candidates(n: usize) -> (r: Vec<WordId>)
    ensures
        r@ == all_ids(n as nat),
{
    let mut r: Vec<WordId> = Vec::new();
    let mut i: usize = 0;
    while i < n
        invariant
            0 <= i <= n,
            r@.len() == i,
            forall|k: int| 0 <= k < i ==> r@[k] == k as WordId,
        decreases n - i,
    {
        r.push(i);
        i += 1;
    }
    proof {
        assert(r@ =~= all_ids(n as nat));
    }
    r
}

fn copy_ids(v: &Vec<WordId>) -> (r: Vec<WordId>)
    ensures
        r@ == v@,
{
    let mut r: Vec<WordId> = Vec::new();
    let mut i: usize = 0;
    while i < v.len()
        invariant
            0 <= i <= v@.len(),
            r@ == v@.take(i as int),
        decreases v@.len() - i,
    {
        r.push(v[i]);
        proof {
            assert(v@.take(i + 1) =~= v@.take(i as int).push(v@[i as int]));
        }
        i += 1;
    }
    proof {
        assert(v@.take(v@.len() as int) =~= v@);
    }
    r
}

/// A standard game with one word held constant as the hidden solution.
pub struct FixedWordle<'a> {
    /// Candidate solutions not yet eliminated.
    pub left: Vec<WordId>,
    /// The hidden solution to be guessed.
    pub solution: WordId,
    /// The bank of all possible solution words.
    pub sbank: &'a WordBank,
    /// The bank of all words accepted as guesses.
    pub gbank: &'a WordBank,
    /// Whether `START_GUESS_WORD` is still to be used as the next guess.
    pub hard_code_turn: bool,
}

impl<'a> FixedWordle<'a> {
    /// Game-state well-formedness: good banks, a valid candidate set, and
    /// the hidden solution still among the candidates.
    pub open spec fn wf(&self) -> bool {
        &&& banks_good(self.gbank@, self.sbank@)
        &&& self.solution < self.sbank@.len()
        &&& valid_candidates(self.left@, self.sbank@)
        &&& self.left@.contains(self.solution)
        &&& (self.hard_code_turn ==> START_GUESS_WORD < self.gbank@.len())
    }

    /// The guess the next `update` will play: the hardwired opener while it
    /// is pending, else the minimax selection over the candidates.
    pub open spec fn next_guess_spec(&self) -> int {
        if self.hard_code_turn {
            START_GUESS_WORD as int
        } else {
            sm_word_spec(self.left@, self.gbank@, self.sbank@)
        }
    }

    /// Builds a game from an explicit state.
    pub fn with_state(
        solution: WordId,
        left: Vec<WordId>,
        sbank: &'a WordBank,
        gbank: &'a WordBank,
        hard_code_turn: bool,
    ) -> (game: Self)
        ensures
            game.left@ == left@,
            game.solution == solution,
            game.sbank == sbank,
            game.gbank == gbank,
            game.hard_code_turn == hard_code_turn,
    {
        Self { left, solution, sbank, gbank, hard_code_turn }
    }

    /// Picks this turn's guess: the pending hardwired opener, or the
    /// minimax guess for the current candidates; consumes the opener flag.
    pub fn guess(&mut self) -> (g: WordId)
        requires
            old(self).wf(),
        ensures
            g as int == old(self).next_guess_spec(),
            g < old(self).gbank@.len(),
            final(self).left@ == old(self).left@,
            final(self).solution == old(self).solution,
            final(self).sbank == old(self).sbank,
            final(self).gbank == old(self).gbank,
            final(self).hard_code_turn == false,
            final(self).wf(),
    {
        proof {
            let k = choose|k: int| 0 <= k < self.left@.len() && self.left@[k] == self.solution;
            assert(self.left@.len() >= 1);
        }
        if self.hard_code_turn {
            self.hard_code_turn = false;
            START_GUESS_WORD
        } else {
            sm_word(&self.left, self.gbank, self.sbank)
        }
    }

    /// The hidden solution this game is played against; it does not depend
    /// on the guess.
    pub fn solution(&mut self, _guess: WordId) -> (s: WordId)
        ensures
            s == old(self).solution,
            *final(self) == *old(self),
    {
        self.solution
    }

    /// Plays one turn: grades this turn's guess against the hidden solution
    /// and replaces the candidates with the matching bucket. Returns the
    /// remaining candidates, or `None` once a single candidate is left.
    pub fn update(&mut self) -> (r: Option<Vec<WordId>>)
        requires
            old(self).wf(),
        ensures
            final(self).wf(),
            final(self).solution == old(self).solution,
            final(self).sbank == old(self).sbank,
            final(self).gbank == old(self).gbank,
            final(self).hard_code_turn == false,
            final(self).left@ == bucket_spec(
                old(self).next_guess_spec(),
                old(self).solution as int,
                old(self).left@,
                old(self).gbank@,
                old(self).sbank@,
            ),
            final(self).left@.len() <= old(self).left@.len(),
            (r is None) <==> final(self).left@.len() == 1,
            r matches Some(b) ==> b@ == final(self).left@,
            (!old(self).hard_code_turn && old(self).left@.len() >= 2) ==> final(self).left@.len()
                < old(self).left@.len(),
    {
        let ghost pre = *self;
        let w = self.guess();
        let s = self.solution(w);
        let b = bucket(w, s, &self.left, self.gbank, self.sbank);
        self.left = b;
        proof {
            let g = pre.next_guess_spec();
            let target = grade_spec(pre.gbank@[g], pre.sbank@[pre.solution as int]);
            lemma_bucket_membership(g, target, pre.left@, pre.gbank@, pre.sbank@);
            lemma_bucket_no_duplicates(g, target, pre.left@, pre.gbank@, pre.sbank@);
            assert(self.left@.contains(pre.solution));
            assert forall|k: int| 0 <= k < self.left@.len() implies #[trigger] self.left@[k]
                < self.sbank@.len() by {
                assert(pre.left@.contains(self.left@[k]));
                let t = choose|t: int| 0 <= t < pre.left@.len() && pre.left@[t] == self.left@[k];
            }
            if !pre.hard_code_turn && pre.left@.len() >= 2 {
                lemma_min_worst_below_len(pre.left@, pre.gbank@, pre.sbank@);
                let k = choose|k: int|
                    0 <= k < pre.left@.len() && pre.left@[k] == pre.solution;
                lemma_bucket_le_worst(g, pre.left@, pre.gbank@, pre.sbank@, k);
            }
        }
        if self.left.len() == 1 {
            None
        } else {
            Some(copy_ids(&self.left))
        }
    }
}

/// The number of turns a game takes, computed over the model with a fuel
/// bound on the recursion: `None` when the fuel runs out before the game
/// ends. One narrowing step costs one turn; isolating the last candidate
/// yields two (the narrowing guess and the guess that names the solution).
pub open spec fn sim_len_fuel(
    left: Seq<WordId>,
    solution: WordId,
    gb: Seq<Seq<u8>>,
    sb: Seq<Seq<u8>>,
    opener_pending: bool,
    fuel: nat,
) -> Option<nat>
    decreases fuel,
{
    if fuel == 0 {
        None
    } else {
        let g = if opener_pending {
            START_GUESS_WORD as int
        } else {
            sm_word_spec(left, gb, sb)
        };
        let nl = bucket_spec(g, solution as int, left, gb, sb);
        if nl.len() == 1 {
            Some(2)
        } else {
            match sim_len_fuel(nl, solution, gb, sb, false, (fuel - 1) as nat) {
                Some(k) => Some((k + 1) as nat),
                None => None,
            }
        }
    }
}

/// The length of a full game against `solution`, starting from the whole
/// solution bank with the opener pending. The fuel bound of one step per
/// candidate plus the opener is shown sufficient whenever the banks are
/// good.
pub open spec fn game_len_spec(solution: WordId, gb: Seq<Seq<u8>>, sb: Seq<Seq<u8>>) -> nat {
    match sim_len_fuel(all_ids(sb.len()), solution, gb, sb, true, sb.len() + 1) {
        Some(k) => k,
        None => 0,
    }
}

/// The turns still to be played from a candidate set with the opener
/// already consumed.
pub open spec fn rest_len(left: Seq<WordId>, solution: WordId, gb: Seq<Seq<u8>>, sb: Seq<Seq<u8>>)
    -> nat {
    match sim_len_fuel(left, solution, gb, sb, false, left.len()) {
        Some(k) => k,
        None => 0,
    }
}

/// Once the game length is defined at some fuel, more fuel returns the same
/// length.
proof fn lemma_sim_fuel_mono(
    left: Seq<WordId>,
    solution: WordId,
    gb: Seq<Seq<u8>>,
    sb: Seq<Seq<u8>>,
    opener_pending: bool,
    f1: nat,
    f2: nat,
)
    requires
        f1 <= f2,
        sim_len_fuel(left, solution, gb, sb, opener_pending, f1) is Some,
    ensures
        sim_len_fuel(left, solution, gb, sb, opener_pending, f2) == sim_len_fuel(
            left,
            solution,
            gb,
            sb,
            opener_pending,
            f1,
        ),
    decreases f1,
{
    let g = if opener_pending {
        START_GUESS_WORD as int
    } else {
        sm_word_spec(left, gb, sb)
    };
    let nl = bucket_spec(g, solution as int, left, gb, sb);
    if nl.len() != 1 {
        lemma_sim_fuel_mono(nl, solution, gb, sb, false, (f1 - 1) as nat, (f2 - 1) as nat);
    }
}

/// With the opener consumed, a game from a valid candidate set that still
/// holds the solution finishes within one step per candidate: the fuel
/// `left.len()` suffices, and the length lies between 2 and one more than
/// the number of candidates.
proof fn lemma_sim_len_defined(
    left: Seq<WordId>,
    solution: WordId,
    gb: Seq<Seq<u8>>,
    sb: Seq<Seq<u8>>,
    fuel: nat,
)
    requires
        banks_good(gb, sb),
        solution < sb.len(),
        valid_candidates(left, sb),
        left.contains(solution),
        fuel >= left.len(),
    ensures
        match sim_len_fuel(left, solution, gb, sb, false, fuel) {
            Some(k) => 2 <= k <= left.len() + 1,
            None => false,
        },
    decreases left.len(),
{
    let g = sm_word_spec(left, gb, sb);
    let target = grade_spec(gb[g], sb[solution as int]);
    let nl = bucket_spec(g, solution as int, left, gb, sb);
    lemma_bucket_membership(g, target, left, gb, sb);
    lemma_bucket_no_duplicates(g, target, left, gb, sb);
    assert(nl.contains(solution));
    assert(nl.len() >= 1);
    assert(valid_candidates(nl, sb)) by {
        assert forall|k: int| 0 <= k < nl.len() implies #[trigger] nl[k] < sb.len() by {
            assert(left.contains(nl[k]));
            let t = choose|t: int| 0 <= t < left.len() && left[t] == nl[k];
        }
    }
    if left.len() >= 2 {
        lemma_min_worst_below_len(left, gb, sb);
        let k = choose|k: int| 0 <= k < left.len() && left[k] == solution;
        lemma_bucket_le_worst(g, left, gb, sb, k);
        assert(nl.len() < left.len());
    }
    if nl.len() != 1 {
        lemma_sim_len_defined(nl, solution, gb, sb, (fuel - 1) as nat);
    }
}

/// One narrowing step from a candidate set of at least two: the remaining
/// length is 2 when the minimax bucket isolates the solution, else one more
/// than the remaining length from that bucket.
proof fn lemma_rest_len_step(left: Seq<WordId>, solution: WordId, gb: Seq<Seq<u8>>, sb: Seq<
    Seq<u8>,
>)
    requires
        banks_good(gb, sb),
        solution < sb.len(),
        valid_candidates(left, sb),
        left.contains(solution),
        left.len() >= 2,
    ensures
        ({
            let nl = bucket_spec(sm_word_spec(left, gb, sb), solution as int, left, gb, sb);
            &&& (nl.len() == 1 ==> rest_len(left, solution, gb, sb) == 2)
            &&& (nl.len() != 1 ==> rest_len(left, solution, gb, sb) == rest_len(
                nl,
                solution,
                gb,
                sb,
            ) + 1)
        }),
{
    let g = sm_word_spec(left, gb, sb);
    let target = grade_spec(gb[g], sb[solution as int]);
    let nl = bucket_spec(g, solution as int, left, gb, sb);
    lemma_bucket_membership(g, target, left, gb, sb);
    lemma_bucket_no_duplicates(g, target, left, gb, sb);
    assert(valid_candidates(nl, sb)) by {
        assert forall|k: int| 0 <= k < nl.len() implies #[trigger] nl[k] < sb.len() by {
            assert(left.contains(nl[k]));
            let t = choose|t: int| 0 <= t < left.len() && left[t] == nl[k];
        }
    }
    if nl.len() != 1 {
        assert(nl.contains(solution));
        lemma_min_worst_below_len(left, gb, sb);
        let k = choose|k: int| 0 <= k < left.len() && left[k] == solution;
        lemma_bucket_le_worst(g, left, gb, sb, k);
        lemma_sim_len_defined(nl, solution, gb, sb, nl.len());
        lemma_sim_fuel_mono(nl, solution, gb, sb, false, nl.len(), (left.len() - 1) as nat);
    }
}

/// The opening step from the full candidate set: the game length is 2 when
/// the opener isolates the solution, else one more than the remaining
/// length from the opener's bucket.
proof fn lemma_game_len_start(solution: WordId, gb: Seq<Seq<u8>>, sb: Seq<Seq<u8>>)
    requires
        banks_good(gb, sb),
        solution < sb.len(),
        sb.len() <= usize::MAX,
    ensures
        ({
            let left0 = all_ids(sb.len());
            let nl = bucket_spec(START_GUESS_WORD as int, solution as int, left0, gb, sb);
            &&& (nl.len() == 1 ==> game_len_spec(solution, gb, sb) == 2)
            &&& (nl.len() != 1 ==> game_len_spec(solution, gb, sb) == rest_len(
                nl,
                solution,
                gb,
                sb,
            ) + 1)
        }),
{
    let left0 = all_ids(sb.len());
    lemma_all_ids_valid(solution, sb);
    let target = grade_spec(gb[START_GUESS_WORD as int], sb[solution as int]);
    let nl = bucket_spec(START_GUESS_WORD as int, solution as int, left0, gb, sb);
    lemma_bucket_membership(START_GUESS_WORD as int, target, left0, gb, sb);
    lemma_bucket_no_duplicates(START_GUESS_WORD as int, target, left0, gb, sb);
    assert(valid_candidates(nl, sb)) by {
        assert forall|k: int| 0 <= k < nl.len() implies #[trigger] nl[k] < sb.len() by {
            assert(left0.contains(nl[k]));
            let t = choose|t: int| 0 <= t < left0.len() && left0[t] == nl[k];
        }
    }
    if nl.len() != 1 {
        assert(nl.contains(solution));
        lemma_sim_len_defined(nl, solution, gb, sb, nl.len());
        lemma_sim_fuel_mono(nl, solution, gb, sb, false, nl.len(), sb.len());
    }
}

/// The full candidate set is valid and holds the solution.
proof fn lemma_all_ids_valid(solution: WordId, sb: Seq<Seq<u8>>)
    requires
        solution < sb.len(),
        sb.len() <= usize::MAX,
    ensures
        valid_candidates(all_ids(sb.len()), sb),
        all_ids(sb.len()).contains(solution),
{
    let left0 = all_ids(sb.len());
    assert(left0[solution as int] == solution);
    assert forall|i: int, j: int| 0 <= i < j < left0.len() implies left0[i] != left0[j] by {
        assert(left0[i] == i as WordId);
        assert(left0[j] == j as WordId);
    }
}

/// Simulation termination and length (law): a game against any solution of
/// the bank, simulated with the greedy minimax strategy from the full
/// candidate set, ends, and it takes `game_len_spec` turns — between 2 and
/// one more than the number of possible solutions.
pub fn sim_game_with_solution(solution: WordId, gbank: &WordBank, sbank: &WordBank) -> (turns: u16)
    requires
        banks_good(gbank@, sbank@),
        solution < sbank@.len(),
        START_GUESS_WORD < gbank@.len(),
        sbank@.len() < 65535,
    ensures
        turns as nat == game_len_spec(solution, gbank@, sbank@),
        2 <= turns <= sbank@.len() + 1,
{
    let n = sbank.len();
    let left0 = full_candidates(n);
    proof {
        lemma_all_ids_valid(solution, sbank@);
        lemma_game_len_start(solution, gbank@, sbank@);
    }
    let mut game = FixedWordle::with_state(solution, left0, sbank, gbank, true);
    let mut cur_turn: u16 = 1;
    let mut cur_game_bkt = game.update();
    while cur_game_bkt.is_some()
        invariant
            game.wf(),
            game.hard_code_turn == false,
            game.solution == solution,
            game.gbank == gbank,
            game.sbank == sbank,
            n == sbank@.len(),
            n < 65535,
            1 <= cur_turn,
            (cur_game_bkt is Some) <==> game.left@.len() != 1,
            cur_game_bkt is Some ==> {
                &&& game.left@.len() >= 2
                &&& game_len_spec(solution, gbank@, sbank@) == cur_turn + rest_len(
                    game.left@,
                    solution,
                    gbank@,
                    sbank@,
                )
                &&& cur_turn + game.left@.len() <= n + 1
            },
            cur_game_bkt is None ==> game_len_spec(solution, gbank@, sbank@) == cur_turn + 1
                && cur_turn <= n,
        decreases game.left@.len(),
    {
        proof {
            lemma_rest_len_step(game.left@, solution, gbank@, sbank@);
        }
        cur_game_bkt = game.update();
        cur_turn = cur_turn + 1;
    }
    cur_turn + 1
}

} // verus!

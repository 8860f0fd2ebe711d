//! Batch analyses over the whole solution bank: the best opening guess for
//! the full candidate set, and the worst-case game length across every
//! possible hidden solution.
//!
//! The per-solution simulations share nothing but the read-only banks, so
//! they run in parallel; the maximum reduction is order-independent, and the
//! result is pinned to a function of the two banks alone.

use rayon::iter::{IntoParallelIterator, ParallelIterator};

use vstd::prelude::*;

use crate::game::{all_ids, full_candidates, game_len_spec, sim_game_with_solution,
    START_GUESS_WORD};
use crate::minimax::{sm_word, sm_word_spec, worst_case_spec};
use crate::words::{banks_good, WordBank, WordId};

verus! {

/// The largest game length over the first `n` solutions of the bank.
pub open spec fn max_len_upto(gb: Seq<Seq<u8>>, sb: Seq<Seq<u8>>, n: int) -> nat
    decreases n,
{
    if n <= 0 {
        0
    } else {
        let v = game_len_spec((n - 1) as WordId, gb, sb);
        let rest = max_len_upto(gb, sb, n - 1);
        if v > rest {
            v
        } else {
            rest
        }
    }
}

/// The worst-case game length: the largest `game_len_spec` over every
/// solution of the bank.
pub open spec fn max_game_len_spec(gb: Seq<Seq<u8>>, sb: Seq<Seq<u8>>) -> nat {
    max_len_upto(gb, sb, sb.len() as int)
}

/// The running maximum bounds every prefix member and is attained by one.
proof fn lemma_max_upto_props(gb: Seq<Seq<u8>>, sb: Seq<Seq<u8>>, n: int)
    requires
        1 <= n <= usize::MAX,
    ensures
        forall|k: WordId| k < n ==> #[trigger] game_len_spec(k, gb, sb) <= max_len_upto(gb, sb, n),
        exists|k: WordId| k < n && #[trigger] game_len_spec(k, gb, sb) == max_len_upto(gb, sb, n),
    decreases n,
{
    if n == 1 {
        assert(game_len_spec(0 as WordId, gb, sb) == max_len_upto(gb, sb, 1));
    } else {
        lemma_max_upto_props(gb, sb, n - 1);
        let v = game_len_spec((n - 1) as WordId, gb, sb);
        let rest = max_len_upto(gb, sb, n - 1);
        if v > rest {
            assert(game_len_spec((n - 1) as WordId, gb, sb) == max_len_upto(gb, sb, n));
        } else {
            let k0 = choose|k: WordId| k < n - 1 && #[trigger] game_len_spec(k, gb, sb) == rest;
            assert(game_len_spec(k0, gb, sb) == max_len_upto(gb, sb, n));
        }
    }
}

/// Best opening guess: the minimax selection when every solution of the
/// bank is still a candidate.
pub fn best_opener(gbank: &WordBank, sbank: &WordBank) -> (g: WordId)
    requires
        gbank@.len() >= 1,
        sbank@.len() >= 1,
    ensures
        g as int == sm_word_spec(all_ids(sbank@.len()), gbank@, sbank@),
        g < gbank@.len(),
        forall|h: int|
            0 <= h < gbank@.len() ==> worst_case_spec(g as int, all_ids(sbank@.len()), gbank@,
                sbank@) <= #[trigger] worst_case_spec(h, all_ids(sbank@.len()), gbank@, sbank@),
{
    let n = sbank.len();
    let left = full_candidates(n);
    proof {
        assert forall|k: int| 0 <= k < all_ids(sbank@.len()).len() implies #[trigger] all_ids(
            sbank@.len(),
        )[k] < sbank@.len() by {
            assert(all_ids(sbank@.len())[k] == k as WordId);
        }
    }
    sm_word(&left, gbank, sbank)
}

/// Relies on rayon: `map` applies the closure to every id of the range and
/// `max` reduces with `Ord::max`, so the result is the largest value the
/// closure returns, and `None` only for an empty range. Which id attains
/// the maximum does not matter, only the value. The closure only calls the
/// verified `sim_game_with_solution`, whose contract equates each value
/// with `game_len_spec`.
#[verifier::external_body]
fn par_max_game_length(gbank: &WordBank, sbank: &WordBank) -> (r: Option<u16>)
    requires
        banks_good(gbank@, sbank@),
        START_GUESS_WORD < gbank@.len(),
        sbank@.len() < 65535,
    ensures
        r is Some,
        r matches Some(m) ==> {
            &&& forall|k: WordId|
                k < sbank@.len() ==> #[trigger] game_len_spec(k, gbank@, sbank@) <= m
            &&& exists|k: WordId| k < sbank@.len() && #[trigger] game_len_spec(k, gbank@, sbank@)
                == m
        },
{
    (0..sbank.len()).into_par_iter().map(|sol| sim_game_with_solution(sol, gbank, sbank)).max()
}

/// The worst-case game length of the greedy minimax strategy over every
/// possible hidden solution.
///
/// Idempotent reduction order (law), stated in the contract: the result
/// equals `max_game_len_spec`, a function of the two banks alone, so it
/// does not depend on how the parallel simulations are split or reduced.
pub fn maximum_game_length(gbank: &WordBank, sbank: &WordBank) -> (m: u16)
    requires
        banks_good(gbank@, sbank@),
        START_GUESS_WORD < gbank@.len(),
        sbank@.len() < 65535,
    ensures
        m as nat == max_game_len_spec(gbank@, sbank@),
        forall|k: WordId| k < sbank@.len() ==> #[trigger] game_len_spec(k, gbank@, sbank@) <= m,
        exists|k: WordId| k < sbank@.len() && #[trigger] game_len_spec(k, gbank@, sbank@) == m,
{
    match par_max_game_length(gbank, sbank) {
        Some(m) => {
            proof {
                lemma_max_upto_props(gbank@, sbank@, sbank@.len() as int);
                let k0 = choose|k: WordId|
                    k < sbank@.len() && #[trigger] game_len_spec(k, gbank@, sbank@) == m;
                let k1 = choose|k: WordId|
                    k < sbank@.len() && #[trigger] game_len_spec(k, gbank@, sbank@)
                        == max_game_len_spec(gbank@, sbank@);
                assert(m <= max_game_len_spec(gbank@, sbank@));
                assert(max_game_len_spec(gbank@, sbank@) <= m);
            }
            m
        },
        None => vstd::pervasive::unreached(),
    }
}

} // verus!

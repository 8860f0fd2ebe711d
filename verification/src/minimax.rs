//! The minimax guess selector: scans the whole guess bank and picks the
//! guess whose worst-case bucket over the candidate set is smallest, ties
//! going to the lowest guess id.
//!
//! The scan over guesses runs in parallel; the reduction prefers the earlier
//! guess on equal worst-case sizes, so the parallel result equals the
//! sequential first-minimum scan.

use rayon::iter::{IntoParallelIterator, ParallelIterator};

use vstd::prelude::*;

use crate::buckets::{bucket, bucket_spec, lemma_bucket_all_green_small, lemma_bucket_smaller};
use crate::grading::{all_green, grade_spec, lemma_grade_self};
use crate::words::{banks_good, word_in, WordBank, WordId};

verus! {

/// The largest bucket size guess `guess` can leave over the first `n`
/// members of `left` taken as the hidden solution.
pub open spec fn worst_upto(
    guess: int,
    left: Seq<WordId>,
    gb: Seq<Seq<u8>>,
    sb: Seq<Seq<u8>>,
    n: int,
) -> nat
    decreases n,
{
    if n <= 0 {
        0
    } else {
        let b = bucket_spec(guess, left[n - 1] as int, left, gb, sb).len();
        let rest = worst_upto(guess, left, gb, sb, n - 1);
        if b > rest {
            b
        } else {
            rest
        }
    }
}

/// The worst case of a guess: the largest bucket it can leave when any
/// member of `left` is the hidden solution.
pub open spec fn worst_case_spec(guess: int, left: Seq<WordId>, gb: Seq<Seq<u8>>, sb: Seq<Seq<u8>>)
    -> nat {
    worst_upto(guess, left, gb, sb, left.len() as int)
}

/// The first guess id among `0 .. n` whose worst case is minimal.
pub open spec fn best_guess_upto(left: Seq<WordId>, gb: Seq<Seq<u8>>, sb: Seq<Seq<u8>>, n: int)
    -> int
    decreases n,
{
    if n <= 1 {
        0
    } else {
        let prev = best_guess_upto(left, gb, sb, n - 1);
        if worst_case_spec(n - 1, left, gb, sb) < worst_case_spec(prev, left, gb, sb) {
            n - 1
        } else {
            prev
        }
    }
}

/// The guess the minimax selector returns: the first guess of the bank with
/// the smallest worst-case bucket over `left`.
pub open spec fn sm_word_spec(left: Seq<WordId>, gb: Seq<Seq<u8>>, sb: Seq<Seq<u8>>) -> int {
    best_guess_upto(left, gb, sb, gb.len() as int)
}

/// Largest bucket size induced by `guess` across every candidate of `left`
/// taken as the hidden solution.
pub fn worst_case(guess: WordId, left: &Vec<WordId>, gbank: &WordBank, sbank: &WordBank) -> (w:
    usize)
    requires
        guess < gbank@.len(),
        left@.len() >= 1,
        forall|k: int| 0 <= k < left@.len() ==> #[trigger] left@[k] < sbank@.len(),
    ensures
        w == worst_case_spec(guess as int, left@, gbank@, sbank@),
{
    let mut w: usize = 0;
    let mut k: usize = 0;
    while k < left.len()
        invariant
            0 <= k <= left@.len(),
            guess < gbank@.len(),
            forall|t: int| 0 <= t < left@.len() ==> #[trigger] left@[t] < sbank@.len(),
            w == worst_upto(guess as int, left@, gbank@, sbank@, k as int),
        decreases left@.len() - k,
    {
        let b = bucket(guess, left[k], left, gbank, sbank);
        let size = b.len();
        if size > w {
            w = size;
        }
        k += 1;
    }
    w
}

/// The worst case of a guess bounds the bucket size it leaves for any
/// candidate taken as the hidden solution.
pub proof fn lemma_bucket_le_worst(
    guess: int,
    left: Seq<WordId>,
    gb: Seq<Seq<u8>>,
    sb: Seq<Seq<u8>>,
    k: int,
)
    requires
        0 <= k < left.len(),
    ensures
        bucket_spec(guess, left[k] as int, left, gb, sb).len() <= worst_case_spec(
            guess,
            left,
            gb,
            sb,
        ),
{
    lemma_bucket_le_worst_upto(guess, left, gb, sb, k, left.len() as int);
}

proof fn lemma_bucket_le_worst_upto(
    guess: int,
    left: Seq<WordId>,
    gb: Seq<Seq<u8>>,
    sb: Seq<Seq<u8>>,
    k: int,
    n: int,
)
    requires
        0 <= k < n <= left.len(),
    ensures
        bucket_spec(guess, left[k] as int, left, gb, sb).len() <= worst_upto(guess, left, gb, sb, n),
    decreases n,
{
    if k < n - 1 {
        lemma_bucket_le_worst_upto(guess, left, gb, sb, k, n - 1);
    }
}

/// A pointwise bound on bucket sizes bounds the worst case.
proof fn lemma_worst_upto_bounded(
    guess: int,
    left: Seq<WordId>,
    gb: Seq<Seq<u8>>,
    sb: Seq<Seq<u8>>,
    n: int,
    bound: nat,
)
    requires
        n <= left.len(),
        forall|k: int|
            0 <= k < left.len() ==> bucket_spec(guess, #[trigger] left[k] as int, left, gb, sb).len()
                <= bound,
    ensures
        worst_upto(guess, left, gb, sb, n) <= bound,
    decreases n,
{
    if n > 0 {
        lemma_worst_upto_bounded(guess, left, gb, sb, n - 1, bound);
    }
}

/// The first minimum over `0 .. n` is below `n`, minimal there, and strictly
/// better than every earlier guess.
proof fn lemma_best_guess_props(left: Seq<WordId>, gb: Seq<Seq<u8>>, sb: Seq<Seq<u8>>, n: int)
    requires
        n >= 1,
    ensures
        0 <= best_guess_upto(left, gb, sb, n) < n,
        forall|h: int|
            0 <= h < n ==> worst_case_spec(best_guess_upto(left, gb, sb, n), left, gb, sb)
                <= #[trigger] worst_case_spec(h, left, gb, sb),
        forall|h: int|
            0 <= h < best_guess_upto(left, gb, sb, n) ==> #[trigger] worst_case_spec(h, left, gb, sb)
                > worst_case_spec(best_guess_upto(left, gb, sb, n), left, gb, sb),
    decreases n,
{
    if n > 1 {
        lemma_best_guess_props(left, gb, sb, n - 1);
    }
}

/// Any guess that is minimal and is strictly better than every earlier guess
/// is exactly the first minimum of the bank.
proof fn lemma_first_min_unique(left: Seq<WordId>, gb: Seq<Seq<u8>>, sb: Seq<Seq<u8>>, g: WordId)
    requires
        gb.len() >= 1,
        g < gb.len(),
        forall|h: int|
            0 <= h < gb.len() ==> worst_case_spec(g as int, left, gb, sb) <= worst_case_spec(
                h,
                left,
                gb,
                sb,
            ),
        forall|h: int|
            0 <= h < g ==> worst_case_spec(h, left, gb, sb) > worst_case_spec(
                g as int,
                left,
                gb,
                sb,
            ),
    ensures
        g as int == sm_word_spec(left, gb, sb),
{
    lemma_best_guess_props(left, gb, sb, gb.len() as int);
    let b = sm_word_spec(left, gb, sb);
    if (g as int) < b {
        assert(worst_case_spec(g as int, left, gb, sb) > worst_case_spec(b, left, gb, sb));
        assert(worst_case_spec(g as int, left, gb, sb) <= worst_case_spec(b, left, gb, sb));
    }
    if b < g as int {
        assert(worst_case_spec(b, left, gb, sb) > worst_case_spec(g as int, left, gb, sb));
        assert(worst_case_spec(b, left, gb, sb) <= worst_case_spec(g as int, left, gb, sb));
    }
}

/// Relies on rayon: `(0..gbank.len()).into_par_iter().min_by_key(f)` returns
/// the first element of the range attaining the minimal key, or `None` for
/// an empty range. rayon's `min_by_key` reduces pairs with an operator that
/// keeps the left operand unless the right key is strictly smaller, and its
/// reduction tree combines contiguous splits of the range in index order, so
/// on ties the earliest index wins. The closure only calls the verified
/// `worst_case`, whose contract equates the key with `worst_case_spec`.
#[verifier::external_body]
fn par_min_worst_guess(left: &Vec<WordId>, gbank: &WordBank, sbank: &WordBank) -> (r: Option<
    WordId,
>)
    requires
        gbank@.len() >= 1,
        left@.len() >= 1,
        forall|k: int| 0 <= k < left@.len() ==> #[trigger] left@[k] < sbank@.len(),
    ensures
        r is Some,
        r matches Some(g) ==> {
            &&& g < gbank@.len()
            &&& forall|h: int|
                0 <= h < gbank@.len() ==> worst_case_spec(g as int, left@, gbank@, sbank@)
                    <= worst_case_spec(h, left@, gbank@, sbank@)
            &&& forall|h: int|
                0 <= h < g ==> worst_case_spec(h, left@, gbank@, sbank@) > worst_case_spec(
                    g as int,
                    left@,
                    gbank@,
                    sbank@,
                )
        },
{
    (0..gbank.len()).into_par_iter().min_by_key(|&guess| worst_case(guess, left, gbank, sbank))
}

/// Finds the guess of the guess bank whose largest possible bucket over the
/// candidate set is smallest; ties break to the first such guess in
/// guess-bank order.
///
/// Minimax optimality (law), stated in the contract: no guess of the bank
/// produces a smaller worst-case bucket than the returned one.
pub fn sm_word(left: &Vec<WordId>, gbank: &WordBank, sbank: &WordBank) -> (g: WordId)
    requires
        left@.len() >= 1,
        gbank@.len() >= 1,
        forall|k: int| 0 <= k < left@.len() ==> #[trigger] left@[k] < sbank@.len(),
    ensures
        g as int == sm_word_spec(left@, gbank@, sbank@),
        g < gbank@.len(),
        forall|h: int|
            0 <= h < gbank@.len() ==> worst_case_spec(g as int, left@, gbank@, sbank@)
                <= worst_case_spec(h, left@, gbank@, sbank@),
        forall|h: int|
            0 <= h < g ==> worst_case_spec(h, left@, gbank@, sbank@) > worst_case_spec(
                g as int,
                left@,
                gbank@,
                sbank@,
            ),
{
    match par_min_worst_guess(left, gbank, sbank) {
        Some(g) => {
            proof {
                lemma_first_min_unique(left@, gbank@, sbank@, g);
            }
            g
        },
        None => vstd::pervasive::unreached(),
    }
}

/// Progress: when at least two candidates with pairwise-distinct words
/// remain and some candidate's word can be played as a guess, the selected
/// guess is certain to rule at least one candidate out.
pub proof fn lemma_min_worst_below_len(left: Seq<WordId>, gb: Seq<Seq<u8>>, sb: Seq<Seq<u8>>)
    requires
        banks_good(gb, sb),
        left.len() >= 2,
        left.no_duplicates(),
        forall|k: int| 0 <= k < left.len() ==> #[trigger] left[k] < sb.len(),
    ensures
        worst_case_spec(sm_word_spec(left, gb, sb), left, gb, sb) <= left.len() - 1,
{
    let c = left[0];
    assert(left.contains(c));
    assert(word_in(gb, sb[c as int]));
    let g0 = choose|g: int| 0 <= g < gb.len() && gb[g] == sb[c as int];
    assert forall|k: int| 0 <= k < left.len() implies bucket_spec(
        g0,
        #[trigger] left[k] as int,
        left,
        gb,
        sb,
    ).len() <= left.len() - 1 by {
        let target = grade_spec(gb[g0], sb[left[k] as int]);
        lemma_grade_self(gb[g0]);
        if target == all_green() {
            lemma_bucket_all_green_small(g0, left, gb, sb);
        } else {
            assert(grade_spec(gb[g0], sb[c as int]) == all_green());
            lemma_bucket_smaller(g0, target, left, gb, sb, c);
        }
    }
    lemma_worst_upto_bounded(g0, left, gb, sb, left.len() as int, (left.len() - 1) as nat);
    lemma_best_guess_props(left, gb, sb, gb.len() as int);
    assert(worst_case_spec(sm_word_spec(left, gb, sb), left, gb, sb) <= worst_case_spec(
        g0,
        left,
        gb,
        sb,
    ));
}

} // verus!

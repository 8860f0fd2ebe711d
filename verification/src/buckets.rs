//! The bucket partitioner: groups a candidate set by feedback-pattern
//! equivalence for a fixed guess.
//!
//! For a guess `g` and a reference solution `r`, the bucket is the
//! subsequence of the candidate set whose members would produce the same
//! grade against `g` as `r` does. Buckets for the distinct grades of one
//! guess partition the candidate set.

use vstd::prelude::*;

use crate::grading::{all_green, grade_spec, solution_compare, Mark};
use crate::words::{distinct_words, wf_bank, WordBank, WordId};

verus! {

/// The members of `left` whose grade against guess word number `guess`
/// equals `target`, in the order of `left`.
pub open spec fn bucket_of_grade(
    guess: int,
    target: Seq<Mark>,
    left: Seq<WordId>,
    gb: Seq<Seq<u8>>,
    sb: Seq<Seq<u8>>,
) -> Seq<WordId>
    decreases left.len(),
{
    if left.len() == 0 {
        Seq::empty()
    } else {
        let rest = bucket_of_grade(guess, target, left.drop_last(), gb, sb);
        if grade_spec(gb[guess], sb[left.last() as int]) == target {
            rest.push(left.last())
        } else {
            rest
        }
    }
}

/// The bucket of the candidate set `left` for guess `guess` and reference
/// solution `solution`: all candidates grading like the reference.
pub open spec fn bucket_spec(
    guess: int,
    solution: int,
    left: Seq<WordId>,
    gb: Seq<Seq<u8>>,
    sb: Seq<Seq<u8>>,
) -> Seq<WordId> {
    bucket_of_grade(guess, grade_spec(gb[guess], sb[solution]), left, gb, sb)
}

/// Creates the bucket for a given guess and reference solution over the
/// candidate set `left` of solution-bank ids.
pub fn bucket(
    guess: WordId,
    solution: WordId,
    left: &Vec<WordId>,
    gbank: &WordBank,
    sbank: &WordBank,
) -> (bkt: Vec<WordId>)
    requires
        guess < gbank@.len(),
        solution < sbank@.len(),
        forall|k: int| 0 <= k < left@.len() ==> #[trigger] left@[k] < sbank@.len(),
    ensures
        bkt@ == bucket_spec(guess as int, solution as int, left@, gbank@, sbank@),
{
    let guess_mark = solution_compare(guess, solution, gbank, sbank);
    let ghost target = grade_spec(gbank@[guess as int], sbank@[solution as int]);
    let mut bkt: Vec<WordId> = Vec::new();
    let mut k: usize = 0;
    while k < left.len()
        invariant
            0 <= k <= left@.len(),
            guess < gbank@.len(),
            solution < sbank@.len(),
            forall|t: int| 0 <= t < left@.len() ==> #[trigger] left@[t] < sbank@.len(),
            guess_mark@ == target,
            target == grade_spec(gbank@[guess as int], sbank@[solution as int]),
            bkt@ == bucket_of_grade(guess as int, target, left@.take(k as int), gbank@, sbank@),
        decreases left@.len() - k,
    {
        let word = left[k];
        let wmark = solution_compare(guess, word, gbank, sbank);
        if wmark == guess_mark {
            bkt.push(word);
        }
        proof {
            assert(left@.take(k + 1).drop_last() =~= left@.take(k as int));
            assert(left@.take(k + 1).last() == left@[k as int]);
        }
        k += 1;
    }
    proof {
        assert(left@.take(left@.len() as int) =~= left@);
    }
    bkt
}

/// Bucket membership characterized position by position: every member comes
/// from the candidate set and grades like the target, and every candidate
/// grading like the target is a member.
pub proof fn lemma_bucket_membership(
    guess: int,
    target: Seq<Mark>,
    left: Seq<WordId>,
    gb: Seq<Seq<u8>>,
    sb: Seq<Seq<u8>>,
)
    ensures
        bucket_of_grade(guess, target, left, gb, sb).len() <= left.len(),
        forall|i: int|
            0 <= i < bucket_of_grade(guess, target, left, gb, sb).len() ==> {
                let c = #[trigger] bucket_of_grade(guess, target, left, gb, sb)[i];
                left.contains(c) && grade_spec(gb[guess], sb[c as int]) == target
            },
        forall|c: WordId|
            left.contains(c) && grade_spec(gb[guess], sb[c as int]) == target
                ==> #[trigger] bucket_of_grade(guess, target, left, gb, sb).contains(c),
    decreases left.len(),
{
    let b = bucket_of_grade(guess, target, left, gb, sb);
    if left.len() > 0 {
        lemma_bucket_membership(guess, target, left.drop_last(), gb, sb);
        let rest = bucket_of_grade(guess, target, left.drop_last(), gb, sb);
        assert forall|i: int| 0 <= i < b.len() implies {
            let c = #[trigger] b[i];
            left.contains(c) && grade_spec(gb[guess], sb[c as int]) == target
        } by {
            if i < rest.len() {
                let c = rest[i];
                let j = choose|j: int| 0 <= j < left.drop_last().len() && left.drop_last()[j] == c;
                assert(left[j] == c);
            } else {
                assert(left[left.len() - 1] == b[i]);
            }
        }
        assert forall|c: WordId|
            left.contains(c) && grade_spec(gb[guess], sb[c as int]) == target implies #[trigger] b
            .contains(c) by {
            let j = choose|j: int| 0 <= j < left.len() && left[j] == c;
            if j < left.len() - 1 {
                assert(left.drop_last()[j] == c);
                assert(rest.contains(c));
                let i = choose|i: int| 0 <= i < rest.len() && rest[i] == c;
                assert(b[i] == c);
            } else {
                if grade_spec(gb[guess], sb[left.last() as int]) == target {
                    assert(b[b.len() - 1] == c);
                } else {
                    assert(false);
                }
            }
        }
    }
}

/// A bucket of a duplicate-free candidate set is itself duplicate-free.
pub proof fn lemma_bucket_no_duplicates(
    guess: int,
    target: Seq<Mark>,
    left: Seq<WordId>,
    gb: Seq<Seq<u8>>,
    sb: Seq<Seq<u8>>,
)
    requires
        left.no_duplicates(),
    ensures
        bucket_of_grade(guess, target, left, gb, sb).no_duplicates(),
    decreases left.len(),
{
    if left.len() > 0 {
        assert(left.drop_last().no_duplicates());
        lemma_bucket_no_duplicates(guess, target, left.drop_last(), gb, sb);
        let rest = bucket_of_grade(guess, target, left.drop_last(), gb, sb);
        if grade_spec(gb[guess], sb[left.last() as int]) == target {
            lemma_bucket_membership(guess, target, left.drop_last(), gb, sb);
            assert forall|i: int| 0 <= i < rest.len() implies rest[i] != left.last() by {
                let c = rest[i];
                let j = choose|j: int| 0 <= j < left.drop_last().len() && left.drop_last()[j] == c;
                assert(left[j] == c);
            }
        }
    }
}

/// When some candidate fails to grade like the target, the bucket is
/// strictly smaller than the candidate set.
pub proof fn lemma_bucket_smaller(
    guess: int,
    target: Seq<Mark>,
    left: Seq<WordId>,
    gb: Seq<Seq<u8>>,
    sb: Seq<Seq<u8>>,
    c: WordId,
)
    requires
        left.contains(c),
        grade_spec(gb[guess], sb[c as int]) != target,
    ensures
        bucket_of_grade(guess, target, left, gb, sb).len() < left.len(),
    decreases left.len(),
{
    lemma_bucket_membership(guess, target, left, gb, sb);
    if left.len() > 0 {
        if left.last() == c {
            lemma_bucket_membership(guess, target, left.drop_last(), gb, sb);
            assert(bucket_of_grade(guess, target, left, gb, sb) == bucket_of_grade(
                guess,
                target,
                left.drop_last(),
                gb,
                sb,
            ));
        } else {
            let j = choose|j: int| 0 <= j < left.len() && left[j] == c;
            assert(left.drop_last()[j] == c);
            lemma_bucket_smaller(guess, target, left.drop_last(), gb, sb, c);
        }
    }
}

/// All members of the all-`Green` bucket carry the guess word itself, so in
/// a duplicate-free candidate set over pairwise-distinct solution words that
/// bucket has at most one member.
pub proof fn lemma_bucket_all_green_small(
    guess: int,
    left: Seq<WordId>,
    gb: Seq<Seq<u8>>,
    sb: Seq<Seq<u8>>,
)
    requires
        wf_bank(gb),
        wf_bank(sb),
        0 <= guess < gb.len(),
        distinct_words(sb),
        left.no_duplicates(),
        forall|k: int| 0 <= k < left.len() ==> #[trigger] left[k] < sb.len(),
    ensures
        bucket_of_grade(guess, all_green(), left, gb, sb).len() <= 1,
{
    let b = bucket_of_grade(guess, all_green(), left, gb, sb);
    lemma_bucket_membership(guess, all_green(), left, gb, sb);
    lemma_bucket_no_duplicates(guess, all_green(), left, gb, sb);
    if b.len() >= 2 {
        let c0 = b[0];
        let c1 = b[1];
        assert(left.contains(c0) && left.contains(c1));
        crate::grading::lemma_all_green_iff_eq(gb[guess], sb[c0 as int]);
        crate::grading::lemma_all_green_iff_eq(gb[guess], sb[c1 as int]);
        assert(sb[c0 as int] == sb[c1 as int]);
        assert(c0 != c1);
        assert(false);
    }
}

/// Partition soundness (law): for a fixed guess, the bucket of a reference
/// solution is drawn from the candidate set; the reference is in its own
/// bucket whenever it is a candidate; every candidate lies in the bucket of
/// its own grade; and two buckets either coincide or are disjoint, so each
/// candidate belongs to exactly one grade class.
pub proof fn lemma_partition_soundness(
    guess: int,
    solution: WordId,
    left: Seq<WordId>,
    gb: Seq<Seq<u8>>,
    sb: Seq<Seq<u8>>,
)
    requires
        0 <= guess < gb.len(),
        solution < sb.len(),
        forall|k: int| 0 <= k < left.len() ==> #[trigger] left[k] < sb.len(),
    ensures
        forall|i: int|
            0 <= i < bucket_spec(guess, solution as int, left, gb, sb).len() ==> left.contains(
                #[trigger] bucket_spec(guess, solution as int, left, gb, sb)[i],
            ),
        left.contains(solution) ==> bucket_spec(guess, solution as int, left, gb, sb).contains(
            solution,
        ),
        forall|c: WordId| #[trigger]
            left.contains(c) ==> bucket_spec(guess, c as int, left, gb, sb).contains(c),
        forall|r1: int, r2: int|
            #![trigger bucket_spec(guess, r1, left, gb, sb), bucket_spec(guess, r2, left, gb, sb)]
            (exists|c: WordId|
                bucket_spec(guess, r1, left, gb, sb).contains(c) && bucket_spec(
                    guess,
                    r2,
                    left,
                    gb,
                    sb,
                ).contains(c)) ==> bucket_spec(guess, r1, left, gb, sb) == bucket_spec(
                guess,
                r2,
                left,
                gb,
                sb,
            ),
{
    lemma_bucket_membership(guess, grade_spec(gb[guess], sb[solution as int]), left, gb, sb);
    assert forall|c: WordId| #[trigger]
        left.contains(c) implies bucket_spec(guess, c as int, left, gb, sb).contains(c) by {
        lemma_bucket_membership(guess, grade_spec(gb[guess], sb[c as int]), left, gb, sb);
    }
    assert forall|r1: int, r2: int|
        (exists|c: WordId|
            bucket_spec(guess, r1, left, gb, sb).contains(c) && bucket_spec(
                guess,
                r2,
                left,
                gb,
                sb,
            ).contains(c)) implies bucket_spec(guess, r1, left, gb, sb) == bucket_spec(
        guess,
        r2,
        left,
        gb,
        sb,
    ) by {
        let c = choose|c: WordId|
            bucket_spec(guess, r1, left, gb, sb).contains(c) && bucket_spec(
                guess,
                r2,
                left,
                gb,
                sb,
            ).contains(c);
        lemma_bucket_membership(guess, grade_spec(gb[guess], sb[r1]), left, gb, sb);
        lemma_bucket_membership(guess, grade_spec(gb[guess], sb[r2]), left, gb, sb);
        let i1 = choose|i: int|
            0 <= i < bucket_spec(guess, r1, left, gb, sb).len() && bucket_spec(
                guess,
                r1,
                left,
                gb,
                sb,
            )[i] == c;
        let i2 = choose|i: int|
            0 <= i < bucket_spec(guess, r2, left, gb, sb).len() && bucket_spec(
                guess,
                r2,
                left,
                gb,
                sb,
            )[i] == c;
        assert(grade_spec(gb[guess], sb[c as int]) == grade_spec(gb[guess], sb[r1]));
        assert(grade_spec(gb[guess], sb[c as int]) == grade_spec(gb[guess], sb[r2]));
    }
}

} // verus!

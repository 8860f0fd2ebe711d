//! The grading engine: compares a guess word to a solution word and yields a
//! five-position feedback pattern.
//!
//! Grading runs in two passes. The correctness pass marks every position
//! where the guess letter equals the solution letter as `Green`. The presence
//! pass then walks the solution letters left to right and, for each letter
//! not already matched in place, claims the first still-`Grey` position of
//! the guess holding that letter, marking it `Yellow`. A guess letter is
//! claimed at most once, so a letter never earns more `Yellow` marks than it
//! has unaccounted occurrences in the solution.

use vstd::prelude::*;

use crate::words::{WordBank, WordId};

verus! {

/// Feedback for a single letter position: `Grey` (absent), `Yellow`
/// (present elsewhere) or `Green` (correct).
#[derive(Clone, Copy, Debug, PartialEq, Eq, Structural)]
pub enum Mark {
    Grey,
    Yellow,
    Green,
}

impl Default for Mark {
    fn default() -> (r: Self)
        ensures
            r == Mark::Grey,
    {
        Mark::Grey
    }
}

/// The feedback pattern for one (guess, solution) pair: one mark per letter.
pub struct Grade {
    pub marks: [Mark; 5],
}

impl View for Grade {
    type V = Seq<Mark>;

    open spec fn view(&self) -> Seq<Mark> {
        self.marks@
    }
}

impl PartialEq for Grade {
    fn eq(&self, other: &Self) -> (r: bool) {
        let mut i: usize = 0;
        while i < 5
            invariant
                0 <= i <= 5,
                forall|k: int| 0 <= k < i ==> self.marks@[k] == other.marks@[k],
            decreases 5 - i,
        {
            if self.marks[i] != other.marks[i] {
                return false;
            }
            i += 1;
        }
        proof {
            assert(self.marks@ =~= other.marks@);
        }
        true
    }
}

impl vstd::std_specs::cmp::PartialEqSpecImpl for Grade {
    open spec fn obeys_eq_spec() -> bool {
        true
    }

    open spec fn eq_spec(&self, other: &Self) -> bool {
        self.marks@ == other.marks@
    }
}

/// The all-`Green` pattern: the grade a word receives against itself.
pub open spec fn all_green() -> Seq<Mark> {
    Seq::new(5, |i: int| Mark::Green)
}

/// Correctness pass: `Green` wherever guess and solution agree, else `Grey`.
pub open spec fn correctness_pass(g: Seq<u8>, s: Seq<u8>) -> Seq<Mark> {
    Seq::new(5, |i: int| if g[i] == s[i] { Mark::Green } else { Mark::Grey })
}

/// The first position `j' >= j` of the guess that still carries `Grey` and
/// holds the letter `c`; `r.len()` when there is none.
pub open spec fn first_grey_match(r: Seq<Mark>, g: Seq<u8>, c: u8, j: int) -> int
    decreases r.len() - j,
{
    if j < 0 || j >= r.len() {
        r.len() as int
    } else if r[j] == Mark::Grey && g[j] == c {
        j
    } else {
        first_grey_match(r, g, c, j + 1)
    }
}

/// Presence pass, resumed at solution position `i`: for each solution letter
/// whose own position is not `Green`, the first unclaimed (`Grey`) guess
/// position holding that letter turns `Yellow`.
pub open spec fn presence_pass_from(r: Seq<Mark>, g: Seq<u8>, s: Seq<u8>, i: int) -> Seq<Mark>
    decreases s.len() - i,
{
    if i < 0 || i >= s.len() {
        r
    } else {
        let r2 = if r[i] == Mark::Green {
            r
        } else {
            let j = first_grey_match(r, g, s[i], 0);
            if j < r.len() {
                r.update(j, Mark::Yellow)
            } else {
                r
            }
        };
        presence_pass_from(r2, g, s, i + 1)
    }
}

/// The full grade of guess word `g` against solution word `s`.
pub open spec fn grade_spec(g: Seq<u8>, s: Seq<u8>) -> Seq<Mark> {
    presence_pass_from(correctness_pass(g, s), g, s, 0)
}

/// Compares the solution word to the guess word and returns the grade.
/// Both ids must be valid for their banks.
pub fn solution_compare(guess: WordId, solution: WordId, gbank: &WordBank, sbank: &WordBank) -> (r:
    Grade)
    requires
        guess < gbank@.len(),
        solution < sbank@.len(),
    ensures
        r@ == grade_spec(gbank@[guess as int], sbank@[solution as int]),
{
    let g = gbank.word(guess);
    let s = sbank.word(solution);
    let mut r: [Mark; 5] = [Mark::Grey; 5];
    let mut i: usize = 0;
    while i < 5
        invariant
            0 <= i <= 5,
            g@.len() == 5,
            s@.len() == 5,
            forall|k: int| 0 <= k < i ==> r@[k] == correctness_pass(g@, s@)[k],
            forall|k: int| i <= k < 5 ==> r@[k] == Mark::Grey,
        decreases 5 - i,
    {
        if g[i] == s[i] {
            r[i] = Mark::Green;
        }
        i += 1;
    }
    proof {
        assert(r@ =~= correctness_pass(g@, s@));
    }
    let mut i: usize = 0;
    while i < 5
        invariant
            0 <= i <= 5,
            g@.len() == 5,
            s@.len() == 5,
            presence_pass_from(r@, g@, s@, i as int) == grade_spec(g@, s@),
        decreases 5 - i,
    {
        if r[i] != Mark::Green {
            let c = s[i];
            let mut j: usize = 0;
            let mut hit: usize = 5;
            while j < 5
                invariant
                    0 <= j <= 5,
                    g@.len() == 5,
                    r@.len() == 5,
                    hit == 5 || (hit < j && r@[hit as int] == Mark::Grey && g@[hit as int] == c),
                    hit == 5 ==> forall|k: int| 0 <= k < j ==> !(r@[k] == Mark::Grey && g@[k] == c),
                    hit < 5 ==> forall|k: int| 0 <= k < hit ==> !(r@[k] == Mark::Grey && g@[k] == c),
                decreases 5 - j,
            {
                if hit == 5 && r[j] == Mark::Grey && g[j] == c {
                    hit = j;
                }
                j += 1;
            }
            proof {
                lemma_first_grey_match_skip(r@, g@, c, hit as int);
            }
            if hit < 5 {
                r[hit] = Mark::Yellow;
            }
        }
        i += 1;
    }
    Grade { marks: r }
}

/// If no position before `j` is a `Grey` match for `c`, the search from the
/// start lands exactly where the search from `j` lands.
proof fn lemma_first_grey_match_skip(r: Seq<Mark>, g: Seq<u8>, c: u8, j: int)
    requires
        0 <= j <= r.len(),
        forall|k: int| 0 <= k < j ==> !(r[k] == Mark::Grey && g[k] == c),
    ensures
        first_grey_match(r, g, c, 0) == first_grey_match(r, g, c, j),
    decreases j,
{
    if j > 0 {
        lemma_first_grey_match_skip(r, g, c, j - 1);
    }
}

/// The search result is in range, and when it hits, it names a `Grey`
/// position of the guess holding the letter.
proof fn lemma_first_grey_match_found(r: Seq<Mark>, g: Seq<u8>, c: u8, j: int)
    requires
        0 <= j <= r.len(),
    ensures
        j <= first_grey_match(r, g, c, j) <= r.len(),
        first_grey_match(r, g, c, j) < r.len() ==> {
            let f = first_grey_match(r, g, c, j);
            r[f] == Mark::Grey && g[f] == c
        },
    decreases r.len() - j,
{
    if j < r.len() && !(r[j] == Mark::Grey && g[j] == c) {
        lemma_first_grey_match_found(r, g, c, j + 1);
    }
}

/// The presence pass keeps the length of the pattern, and it turns positions
/// `Yellow` only: a position is `Green` afterwards exactly when it was
/// `Green` before.
proof fn lemma_presence_pass_greens(r: Seq<Mark>, g: Seq<u8>, s: Seq<u8>, i: int)
    ensures
        presence_pass_from(r, g, s, i).len() == r.len(),
        forall|k: int|
            0 <= k < r.len() ==> ((#[trigger] presence_pass_from(r, g, s, i)[k] == Mark::Green)
                <==> r[k] == Mark::Green),
    decreases s.len() - i,
{
    if 0 <= i < s.len() {
        if r[i] == Mark::Green {
            lemma_presence_pass_greens(r, g, s, i + 1);
        } else {
            let j = first_grey_match(r, g, s[i], 0);
            lemma_first_grey_match_found(r, g, s[i], 0);
            if j < r.len() {
                lemma_presence_pass_greens(r.update(j, Mark::Yellow), g, s, i + 1);
            } else {
                lemma_presence_pass_greens(r, g, s, i + 1);
            }
        }
    }
}

/// A pattern that is already all `Green` is left unchanged by the presence
/// pass: no solution letter remains to claim a position.
proof fn lemma_presence_pass_all_green(r: Seq<Mark>, g: Seq<u8>, s: Seq<u8>, i: int)
    requires
        forall|k: int| 0 <= k < r.len() ==> r[k] == Mark::Green,
        s.len() <= r.len(),
    ensures
        presence_pass_from(r, g, s, i) == r,
    decreases s.len() - i,
{
    if 0 <= i < s.len() {
        lemma_presence_pass_all_green(r, g, s, i + 1);
    }
}

/// A position of the grade is `Green` exactly when guess and solution agree
/// there; the grade always has five marks.
pub proof fn lemma_grade_green_iff(g: Seq<u8>, s: Seq<u8>)
    requires
        g.len() == 5,
        s.len() == 5,
    ensures
        grade_spec(g, s).len() == 5,
        forall|k: int|
            0 <= k < 5 ==> ((#[trigger] grade_spec(g, s)[k] == Mark::Green) <==> g[k] == s[k]),
{
    lemma_presence_pass_greens(correctness_pass(g, s), g, s, 0);
}

/// Self-consistency (law): a word graded against itself is marked correct in
/// every position.
pub proof fn lemma_grade_self(w: Seq<u8>)
    requires
        w.len() == 5,
    ensures
        grade_spec(w, w) == all_green(),
{
    assert(correctness_pass(w, w) =~= all_green());
    lemma_presence_pass_all_green(all_green(), w, w, 0);
}

/// A grade is all `Green` exactly when guess and solution are the same word.
pub proof fn lemma_all_green_iff_eq(g: Seq<u8>, s: Seq<u8>)
    requires
        g.len() == 5,
        s.len() == 5,
    ensures
        (grade_spec(g, s) == all_green()) <==> (g == s),
{
    lemma_grade_green_iff(g, s);
    if grade_spec(g, s) == all_green() {
        assert forall|k: int| 0 <= k < 5 implies g[k] == s[k] by {
            assert(grade_spec(g, s)[k] == all_green()[k]);
        }
        assert(g =~= s);
    }
    if g == s {
        lemma_grade_self(s);
    }
}

/// Grading determinism (law): the grade is a pure function of the guess word
/// and the solution word; any two grades computed for the same pair agree.
pub proof fn lemma_grading_deterministic(r1: Grade, r2: Grade, g: Seq<u8>, s: Seq<u8>)
    requires
        r1@ == grade_spec(g, s),
        r2@ == grade_spec(g, s),
    ensures
        r1@ == r2@,
{
}

/// Self-consistency stated over a single bank used in both roles: grading a
/// bank word against itself yields the all-correct pattern.
pub proof fn lemma_self_consistency(bank: Seq<Seq<u8>>, w: int)
    requires
        crate::words::wf_bank(bank),
        0 <= w < bank.len(),
    ensures
        grade_spec(bank[w], bank[w]) == all_green(),
{
    lemma_grade_self(bank[w]);
}

} // verus!

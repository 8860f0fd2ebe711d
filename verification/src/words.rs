//! Word banks: ordered, immutable sequences of five-letter words.
//!
//! A word is held as its five bytes; a `WordId` is an index into one of the
//! two banks (the guess bank or the solution bank).

use vstd::prelude::*;

verus! {

/// Index of a word within one of the two word banks.
pub type WordId = usize;

/// Every word of a bank, seen as a byte sequence, has exactly five bytes.
pub open spec fn wf_bank(b: Seq<Seq<u8>>) -> bool {
    forall|i: int| 0 <= i < b.len() ==> (#[trigger] b[i]).len() == 5
}

/// All words of the bank are pairwise distinct.
pub open spec fn distinct_words(b: Seq<Seq<u8>>) -> bool {
    forall|i: int, j: int| #![trigger b[i], b[j]] 0 <= i < j < b.len() ==> b[i] != b[j]
}

/// The word `w` occurs somewhere in the bank `gb`.
pub open spec fn word_in(gb: Seq<Seq<u8>>, w: Seq<u8>) -> bool {
    exists|g: int| 0 <= g < gb.len() && gb[g] == w
}

/// Every word of `sb` also occurs somewhere in `gb`.
pub open spec fn covers(gb: Seq<Seq<u8>>, sb: Seq<Seq<u8>>) -> bool {
    forall|i: int| 0 <= i < sb.len() ==> word_in(gb, #[trigger] sb[i])
}

/// The conditions under which a simulated game is guaranteed to terminate:
/// both banks are non-empty and well formed, the solution words are pairwise
/// distinct, and every solution word may also be played as a guess.
pub open spec fn banks_good(gb: Seq<Seq<u8>>, sb: Seq<Seq<u8>>) -> bool {
    &&& wf_bank(gb)
    &&& wf_bank(sb)
    &&& gb.len() >= 1
    &&& sb.len() >= 1
    &&& distinct_words(sb)
    &&& covers(gb, sb)
}

/// An ordered bank of five-letter words. The order is significant: it defines
/// the `WordId` numbering.
pub struct WordBank {
    words: Vec<Vec<u8>>,
}

impl View for WordBank {
    type V = Seq<Seq<u8>>;

    closed spec fn view(&self) -> Seq<Seq<u8>> {
        self.words@.map_values(|w: Vec<u8>| w@)
    }
}

impl WordBank {
    /// Invariant: a bank only ever holds five-byte words.
    #[verifier::type_invariant]
    pub open spec fn inv(self) -> bool {
        wf_bank(self@)
    }

    /// Builds a bank from raw words; rejects the input when any word does not
    /// have exactly five bytes.
    pub fn new(words: Vec<Vec<u8>>) -> (r: Option<WordBank>)
        ensures
            match r {
                Some(b) => {
                    &&& b@.len() == words@.len()
                    &&& forall|i: int| 0 <= i < words@.len() ==> b@[i] == (#[trigger] words@[i])@
                    &&& wf_bank(b@)
                },
                None => exists|i: int| 0 <= i < words@.len() && (#[trigger] words@[i])@.len() != 5,
            },
    {
        let mut i: usize = 0;
        while i < words.len()
            invariant
                0 <= i <= words@.len(),
                forall|k: int| 0 <= k < i ==> (#[trigger] words@[k])@.len() == 5,
            decreases words@.len() - i,
        {
            if words[i].len() != 5 {
                return None;
            }
            i += 1;
        }
        let bank = WordBank { words };
        Some(bank)
    }

    /// Number of words in the bank.
    pub fn len(&self) -> (n: usize)
        ensures
            n == self@.len(),
    {
        self.words.len()
    }

    /// The word with the given id, as its five bytes.
    pub fn word(&self, w: WordId) -> (r: &Vec<u8>)
        requires
            w < self@.len(),
        ensures
            r@ == self@[w as int],
            r@.len() == 5,
    {
        proof {
            use_type_invariant(self);
            assert(self@[w as int].len() == 5);
        }
        &self.words[w]
    }
}

/// Two byte sequences are equal exactly when the comparison returns true.
pub fn bytes_equal(a: &Vec<u8>, b: &Vec<u8>) -> (r: bool)
    ensures
        r == (a@ == b@),
{
    if a.len() != b.len() {
        return false;
    }
    let mut i: usize = 0;
    while i < a.len()
        invariant
            0 <= i <= a@.len(),
            a@.len() == b@.len(),
            forall|k: int| 0 <= k < i ==> a@[k] == b@[k],
        decreases a@.len() - i,
    {
        if a[i] != b[i] {
            return false;
        }
        i += 1;
    }
    proof {
        assert(a@ =~= b@);
    }
    true
}

/// Decides `banks_good` for two banks: both non-empty, solution words
/// pairwise distinct, and every solution word present in the guess bank.
pub fn check_banks(gbank: &WordBank, sbank: &WordBank) -> (ok: bool)
    ensures
        ok == banks_good(gbank@, sbank@),
{
    proof {
        use_type_invariant(gbank);
        use_type_invariant(sbank);
    }
    if gbank.len() == 0 || sbank.len() == 0 {
        return false;
    }
    let n = sbank.len();
    let mut i: usize = 0;
    while i < n
        invariant
            0 <= i <= n,
            n == sbank@.len(),
            gbank@.len() >= 1,
            wf_bank(gbank@),
            wf_bank(sbank@),
            forall|p: int, q: int|
                #![trigger sbank@[p], sbank@[q]]
                0 <= p < q < i ==> sbank@[p] != sbank@[q],
            forall|p: int| 0 <= p < i ==> word_in(gbank@, #[trigger] sbank@[p]),
        decreases n - i,
    {
        let mut j: usize = 0;
        while j < i
            invariant
                0 <= j <= i < n,
                n == sbank@.len(),
                wf_bank(sbank@),
                forall|q: int| 0 <= q < j ==> #[trigger] sbank@[q] != sbank@[i as int],
            decreases i - j,
        {
            if bytes_equal(sbank.word(j), sbank.word(i)) {
                return false;
            }
            j += 1;
        }
        let mut g: usize = 0;
        let mut found = false;
        while g < gbank.len()
            invariant
                0 <= g <= gbank@.len(),
                i < n == sbank@.len(),
                wf_bank(gbank@),
                wf_bank(sbank@),
                found ==> word_in(gbank@, sbank@[i as int]),
                !found ==> forall|h: int| 0 <= h < g ==> #[trigger] gbank@[h] != sbank@[i as int],
            decreases gbank@.len() - g,
        {
            if bytes_equal(gbank.word(g), sbank.word(i)) {
                found = true;
            }
            g += 1;
        }
        if !found {
            proof {
                assert(!word_in(gbank@, sbank@[i as int])) by {
                    if word_in(gbank@, sbank@[i as int]) {
                        let h = choose|h: int|
                            0 <= h < gbank@.len() && gbank@[h] == sbank@[i as int];
                        assert(gbank@[h] != sbank@[i as int]);
                    }
                }
                assert(!covers(gbank@, sbank@));
            }
            return false;
        }
        i += 1;
    }
    proof {
        assert(covers(gbank@, sbank@)) by {
            assert forall|p: int| 0 <= p < sbank@.len() implies word_in(
                gbank@,
                #[trigger] sbank@[p],
            ) by {
                assert(0 <= p < i);
            }
        }
        assert(distinct_words(sbank@));
    }
    true
}

} // verus!

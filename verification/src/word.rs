//! Words: five symbols, compared symbol by symbol.
use vstd::prelude::*;

verus! {

/// Number of symbols in every word.
pub const WORD_LENGTH: usize = 5;

/// The alphabet of the puzzle: the lowercase letters `a` to `z`.
pub open spec fn is_letter(b: u8) -> bool {
    97 <= b <= 122
}

/// Tells whether a symbol is one of the letters `a` to `z`.
pub fn letter(b: u8) -> (r: bool)
    ensures
        r == is_letter(b),
{
    97 <= b && b <= 122
}

/// A guess or a dictionary entry.
#[derive(Clone, Copy, Debug, Eq, Hash)]
pub struct Word(pub [u8; WORD_LENGTH]);

impl View for Word {
    type V = Seq<u8>;

    open spec fn view(&self) -> Seq<u8> {
        self.0@
    }
}

impl PartialEq for Word {
    fn eq(&self, other: &Self) -> (r: bool) {
        let r = self.0[0] == other.0[0] && self.0[1] == other.0[1] && self.0[2] == other.0[2]
            && self.0[3] == other.0[3] && self.0[4] == other.0[4];
        proof {
            if r {
                assert(self.0 =~= other.0);
            }
        }
        r
    }
}

impl vstd::std_specs::cmp::PartialEqSpecImpl for Word {
    open spec fn obeys_eq_spec() -> bool {
        true
    }

    open spec fn eq_spec(&self, other: &Self) -> bool {
        *self == *other
    }
}

impl Word {
    /// Every symbol of the word is a letter of the alphabet.
    pub open spec fn is_alphabetic(self) -> bool {
        forall|i: int| 0 <= i < 5 ==> is_letter(#[trigger] self@[i])
    }

    /// The symbol `b` occurs somewhere in the word.
    pub open spec fn has(self, b: u8) -> bool {
        self@.contains(b)
    }

    /// The symbol at position `i`.
    pub fn symbol(&self, i: usize) -> (b: u8)
        requires
            i < 5,
        ensures
            b == self@[i as int],
    {
        self.0[i]
    }

    /// Tells whether the symbol `b` occurs somewhere in the word.
    pub fn contains(&self, b: u8) -> (r: bool)
        ensures
            r == self.has(b),
    {
        let r = self.0[0] == b || self.0[1] == b || self.0[2] == b || self.0[3] == b || self.0[4]
            == b;
        proof {
            if r {
                let i = if self@[0] == b {
                    0int
                } else if self@[1] == b {
                    1
                } else if self@[2] == b {
                    2
                } else if self@[3] == b {
                    3
                } else {
                    4
                };
                assert(self@[i] == b);
            }
        }
        r
    }
}

/// Two words with the same symbols are the same word.
pub proof fn lemma_word_ext(a: Word, b: Word)
    requires
        a@ == b@,
    ensures
        a == b,
{
    assert(a.0 =~= b.0);
}

} // verus!

//! One row of feedback: a guessed word and a mark for each of its positions.
use vstd::prelude::*;
use crate::word::Word;

verus! {

/// What the puzzle says of one position of a guess.
#[derive(Clone, Copy, Debug, PartialEq, Eq, Structural, Hash)]
pub enum CharMatch {
    /// Correct: the hidden word has this symbol here.
    Green,
    /// Present: the hidden word has this symbol, but not here.
    Yellow,
    /// Absent: the hidden word does not have this symbol.
    Gray,
}

/// A guessed word with the mark of each position.
#[derive(Clone, Copy, Debug, Eq, Hash)]
pub struct WordMatch {
    pub cm: [CharMatch; 5],
    pub word: Word,
}

impl PartialEq for WordMatch {
    fn eq(&self, other: &Self) -> (r: bool) {
        let r = self.word == other.word && self.cm[0] == other.cm[0] && self.cm[1] == other.cm[1]
            && self.cm[2] == other.cm[2] && self.cm[3] == other.cm[3] && self.cm[4] == other.cm[4];
        proof {
            if r {
                assert(self.cm =~= other.cm);
            }
        }
        r
    }
}

impl vstd::std_specs::cmp::PartialEqSpecImpl for WordMatch {
    open spec fn obeys_eq_spec() -> bool {
        true
    }

    open spec fn eq_spec(&self, other: &Self) -> bool {
        *self == *other
    }
}

/// The mark that guessing `guess` draws at position `i` when `target` is the
/// hidden word: Green where the two agree, else Yellow where the guessed
/// symbol occurs anywhere in the target, else Gray. Repeated letters get no
/// second pass.
pub open spec fn mark_for(guess: Word, target: Word, i: int) -> CharMatch {
    if guess@[i] == target@[i] {
        CharMatch::Green
    } else if target.has(guess@[i]) {
        CharMatch::Yellow
    } else {
        CharMatch::Gray
    }
}

/// The whole row that guessing `guess` draws when `target` is the hidden word.
pub open spec fn feedback(guess: Word, target: Word) -> WordMatch {
    WordMatch {
        cm: [
            mark_for(guess, target, 0),
            mark_for(guess, target, 1),
            mark_for(guess, target, 2),
            mark_for(guess, target, 3),
            mark_for(guess, target, 4),
        ],
        word: guess,
    }
}

impl WordMatch {
    /// Every position is marked Green.
    pub open spec fn all_green(self) -> bool {
        forall|i: int| 0 <= i < 5 ==> #[trigger] self.cm@[i] == CharMatch::Green
    }

    /// The mark at position `i` is consistent with `target` being the hidden
    /// word: Green wants the guessed symbol there, Gray wants it nowhere in
    /// the target, Yellow wants it elsewhere in the target and not there.
    pub open spec fn mark_holds(self, i: int, target: Word) -> bool {
        let g = self.word@[i];
        match self.cm@[i] {
            CharMatch::Green => target@[i] == g,
            CharMatch::Gray => !target.has(g),
            CharMatch::Yellow => target@[i] != g && exists|j: int|
                0 <= j < 5 && j != i && #[trigger] target@[j] == g,
        }
    }

    /// `target` could have drawn this row: every mark holds of it.
    pub open spec fn spec_matches(self, target: Word) -> bool {
        forall|i: int| 0 <= i < 5 ==> #[trigger] self.mark_holds(i, target)
    }

    /// Tells whether the row marks every position Green.
    pub fn is_win(&self) -> (r: bool)
        ensures
            r == self.all_green(),
    {
        let mut i: usize = 0;
        while i < 5
            invariant
                i <= 5,
                forall|k: int| 0 <= k < i ==> #[trigger] self.cm@[k] == CharMatch::Green,
            decreases 5 - i,
        {
            if self.cm[i] != CharMatch::Green {
                return false;
            }
            i += 1;
        }
        true
    }

    /// Tells whether `target` could have drawn this row.
    pub fn matches(&self, target: Word) -> (r: bool)
        ensures
            r == self.spec_matches(target),
    {
        let mut i: usize = 0;
        while i < 5
            invariant
                i <= 5,
                forall|k: int| 0 <= k < i ==> #[trigger] self.mark_holds(k, target),
            decreases 5 - i,
        {
            let g = self.word.symbol(i);
            let ok = match self.cm[i] {
                CharMatch::Green => g == target.symbol(i),
                CharMatch::Gray => !target.contains(g),
                CharMatch::Yellow => g != target.symbol(i) && target.contains(g),
            };
            proof {
                if self.cm@[i as int] == CharMatch::Yellow && g != target@[i as int] && target.has(
                    g,
                ) {
                    let j = choose|j: int| 0 <= j < target@.len() && target@[j] == g;
                    assert(0 <= j < 5 && j != i && target@[j] == g);
                }
            }
            if !ok {
                assert(!self.mark_holds(i as int, target));
                return false;
            }
            i += 1;
        }
        true
    }
}

/// The row that guessing `word` draws when `target` is the hidden word.
pub fn word_match(word: Word, target: Word) -> (r: WordMatch)
    ensures
        r == feedback(word, target),
{
    let mut result = [CharMatch::Gray; 5];
    let mut i: usize = 0;
    while i < 5
        invariant
            i <= 5,
            forall|k: int| 0 <= k < i ==> #[trigger] result@[k] == mark_for(word, target, k),
        decreases 5 - i,
    {
        let wc = word.symbol(i);
        result[i] = if wc == target.symbol(i) {
            CharMatch::Green
        } else if target.contains(wc) {
            CharMatch::Yellow
        } else {
            CharMatch::Gray
        };
        i += 1;
    }
    let r = WordMatch { cm: result, word };
    assert(r.cm =~= feedback(word, target).cm);
    r
}

/// A target is consistent with a row exactly when guessing the row's word
/// against that target draws the very same row.
pub proof fn lemma_matches_iff_same_feedback(row: WordMatch, target: Word)
    ensures
        row.spec_matches(target) <==> feedback(row.word, target) == row,
{
    let f = feedback(row.word, target);
    assert forall|i: int| 0 <= i < 5 implies (#[trigger] row.mark_holds(i, target) <==> f.cm@[i]
        == row.cm@[i]) by {
        let g = row.word@[i];
        if target@[i] != g && target.has(g) {
            let j = choose|j: int| 0 <= j < target@.len() && target@[j] == g;
            assert(0 <= j < 5 && j != i && target@[j] == g);
        }
    }
    if row.spec_matches(target) {
        assert forall|i: int| 0 <= i < 5 implies f.cm@[i] == row.cm@[i] by {
            assert(row.mark_holds(i, target));
        }
        assert(f.cm =~= row.cm);
    }
    if f == row {
        assert forall|i: int| 0 <= i < 5 implies #[trigger] row.mark_holds(i, target) by {
            assert(f.cm@[i] == row.cm@[i]);
        }
    }
}

} // verus!

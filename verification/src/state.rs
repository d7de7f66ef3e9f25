//! What the feedback seen so far says about the hidden word.
use vstd::prelude::*;
use crate::word::{is_letter, Word};

verus! {

/// What is known of one position of the hidden word.
#[derive(Debug, PartialEq, Eq)]
pub enum CharInfo {
    /// The position holds exactly this symbol.
    Is(u8),
    /// The position holds none of these symbols.
    Not(Vec<u8>),
}

/// The mathematical content of a [`CharInfo`].
pub enum CharInfoView {
    Is(u8),
    Not(Seq<u8>),
}

impl View for CharInfo {
    type V = CharInfoView;

    open spec fn view(&self) -> CharInfoView {
        match self {
            CharInfo::Is(b) => CharInfoView::Is(*b),
            CharInfo::Not(v) => CharInfoView::Not(v@),
        }
    }
}

impl CharInfoView {
    /// The symbol `b` may stand at a position with this knowledge.
    pub open spec fn admits(self, b: u8) -> bool {
        match self {
            CharInfoView::Is(x) => x == b,
            CharInfoView::Not(not) => !not.contains(b),
        }
    }

    /// Every symbol recorded for the position is a letter of the alphabet.
    pub open spec fn is_alphabetic(self) -> bool {
        match self {
            CharInfoView::Is(x) => is_letter(x),
            CharInfoView::Not(not) => forall|k: int| 0 <= k < not.len() ==> is_letter(#[trigger] not[k]),
        }
    }

    /// The same constraint, whatever the order and repetition of a deny list.
    pub open spec fn same_constraint(self, other: CharInfoView) -> bool {
        match (self, other) {
            (CharInfoView::Is(x), CharInfoView::Is(y)) => x == y,
            (CharInfoView::Not(s), CharInfoView::Not(t)) => s.to_set() == t.to_set(),
            _ => false,
        }
    }
}

/// The accumulated knowledge: one [`CharInfo`] per position, the symbols
/// known to be absent from the whole word, and the symbols known to occur
/// at a position not yet known.
#[derive(Debug, PartialEq, Eq)]
pub struct MatchState {
    pub chars: [CharInfo; 5],
    pub nowhere: Vec<u8>,
    pub somewhere: Vec<u8>,
}

/// The mathematical content of a [`MatchState`].
pub struct Knowledge {
    pub chars: Seq<CharInfoView>,
    pub nowhere: Seq<u8>,
    pub somewhere: Seq<u8>,
}

impl View for MatchState {
    type V = Knowledge;

    open spec fn view(&self) -> Knowledge {
        Knowledge {
            chars: Seq::new(5, |i: int| self.chars@[i]@),
            nowhere: self.nowhere@,
            somewhere: self.somewhere@,
        }
    }
}

impl Knowledge {
    /// No information: every position open, both lists empty.
    pub open spec fn empty() -> Knowledge {
        Knowledge {
            chars: Seq::new(5, |i: int| CharInfoView::Not(Seq::empty())),
            nowhere: Seq::empty(),
            somewhere: Seq::empty(),
        }
    }

    /// There is one entry for each of the five positions.
    pub open spec fn well_formed(self) -> bool {
        self.chars.len() == 5
    }

    /// Position `i` of `word` is allowed: its symbol is admitted there and is
    /// not known to be absent.
    pub open spec fn position_allows(self, i: int, word: Word) -> bool {
        self.chars[i].admits(word@[i]) && !self.nowhere.contains(word@[i])
    }

    /// `word` is consistent with the knowledge: every position is allowed,
    /// and every symbol known to occur somewhere does occur in the word.
    pub open spec fn spec_matches(self, word: Word) -> bool {
        &&& forall|i: int| 0 <= i < 5 ==> #[trigger] self.position_allows(i, word)
        &&& forall|k: int| 0 <= k < self.somewhere.len() ==> word.has(#[trigger] self.somewhere[k])
    }

    /// Some position is known to hold the symbol `b`.
    pub open spec fn pins(self, b: u8) -> bool {
        exists|i: int| 0 <= i < self.chars.len() && #[trigger] self.chars[i] == CharInfoView::Is(b)
    }

    /// Some position other than `i` is known to hold the symbol `b`.
    pub open spec fn pins_elsewhere(self, b: u8, i: int) -> bool {
        exists|j: int|
            0 <= j < self.chars.len() && j != i && #[trigger] self.chars[j] == CharInfoView::Is(b)
    }

    /// Every symbol recorded anywhere is a letter of the alphabet.
    pub open spec fn is_alphabetic(self) -> bool {
        &&& forall|i: int| 0 <= i < self.chars.len() ==> (#[trigger] self.chars[i]).is_alphabetic()
        &&& forall|k: int| 0 <= k < self.nowhere.len() ==> is_letter(#[trigger] self.nowhere[k])
        &&& forall|k: int| 0 <= k < self.somewhere.len() ==> is_letter(#[trigger] self.somewhere[k])
    }

    /// The two hold the same constraints, whatever the order and repetition
    /// within their lists.
    pub open spec fn same_constraints(self, other: Knowledge) -> bool {
        &&& self.chars.len() == other.chars.len()
        &&& forall|i: int|
            0 <= i < self.chars.len() ==> (#[trigger] self.chars[i]).same_constraint(other.chars[i])
        &&& self.nowhere.to_set() == other.nowhere.to_set()
        &&& self.somewhere.to_set() == other.somewhere.to_set()
    }
}

/// Tells whether the list `v` holds the symbol `b`.
pub fn list_has(v: &Vec<u8>, b: u8) -> (r: bool)
    ensures
        r == v@.contains(b),
{
    let mut i: usize = 0;
    while i < v.len()
        invariant
            i <= v.len(),
            forall|k: int| 0 <= k < i ==> v@[k] != b,
        decreases v.len() - i,
    {
        if v[i] == b {
            return true;
        }
        i += 1;
    }
    false
}

/// A copy of the list `v`.
pub fn list_copy(v: &Vec<u8>) -> (r: Vec<u8>)
    ensures
        r@ == v@,
{
    let mut r: Vec<u8> = Vec::new();
    let mut i: usize = 0;
    while i < v.len()
        invariant
            i <= v.len(),
            r@ == v@.take(i as int),
        decreases v.len() - i,
    {
        r.push(v[i]);
        i += 1;
    }
    r
}

impl Clone for CharInfo {
    fn clone(&self) -> (r: Self)
        ensures
            r@ == self@,
    {
        match self {
            CharInfo::Is(b) => CharInfo::Is(*b),
            CharInfo::Not(v) => CharInfo::Not(list_copy(v)),
        }
    }
}

impl Clone for MatchState {
    fn clone(&self) -> (r: Self)
        ensures
            r@ == self@,
    {
        let r = MatchState {
            chars: [
                self.chars[0].clone(),
                self.chars[1].clone(),
                self.chars[2].clone(),
                self.chars[3].clone(),
                self.chars[4].clone(),
            ],
            nowhere: list_copy(&self.nowhere),
            somewhere: list_copy(&self.somewhere),
        };
        assert(r@.chars =~= self@.chars);
        r
    }
}

impl CharInfo {
    /// Tells whether the symbol `b` may stand at a position with this
    /// knowledge.
    pub fn admits(&self, b: u8) -> (r: bool)
        ensures
            r == self@.admits(b),
    {
        match self {
            CharInfo::Is(is) => *is == b,
            CharInfo::Not(not) => !list_has(not, b),
        }
    }
}

impl MatchState {
    /// The state that knows nothing.
    pub fn empty() -> (r: Self)
        ensures
            r@ == Knowledge::empty(),
    {
        let r = MatchState {
            chars: [
                CharInfo::Not(Vec::new()),
                CharInfo::Not(Vec::new()),
                CharInfo::Not(Vec::new()),
                CharInfo::Not(Vec::new()),
                CharInfo::Not(Vec::new()),
            ],
            nowhere: Vec::new(),
            somewhere: Vec::new(),
        };
        assert(r@.chars =~= Knowledge::empty().chars);
        r
    }

    /// Tells whether `word` is consistent with the knowledge.
    pub fn matches(&self, word: Word) -> (r: bool)
        ensures
            r == self@.spec_matches(word),
    {
        let mut i: usize = 0;
        while i < 5
            invariant
                i <= 5,
                forall|k: int| 0 <= k < i ==> #[trigger] self@.position_allows(k, word),
            decreases 5 - i,
        {
            let b = word.symbol(i);
            if !self.chars[i].admits(b) || list_has(&self.nowhere, b) {
                assert(!self@.position_allows(i as int, word));
                return false;
            }
            i += 1;
        }
        let mut k: usize = 0;
        while k < self.somewhere.len()
            invariant
                k <= self.somewhere.len(),
                forall|j: int| 0 <= j < k ==> word.has(#[trigger] self@.somewhere[j]),
            decreases self.somewhere.len() - k,
        {
            if !word.contains(self.somewhere[k]) {
                assert(!word.has(self@.somewhere[k as int]));
                return false;
            }
            k += 1;
        }
        true
    }
}

/// The empty state has its five positions, records no symbol, and matches
/// every word.
pub proof fn lemma_empty_state()
    ensures
        Knowledge::empty().well_formed(),
        Knowledge::empty().is_alphabetic(),
        forall|word: Word| #[trigger] Knowledge::empty().spec_matches(word),
{
    let k = Knowledge::empty();
    assert forall|word: Word| #[trigger] k.spec_matches(word) by {
        assert forall|i: int| 0 <= i < 5 implies #[trigger] k.position_allows(i, word) by {}
    }
}

/// Whether a word matches depends on the constraints alone: two states that
/// deny, require and pin the same symbols match the same words, in whatever
/// order their lists were filled.
pub proof fn lemma_matches_ignores_order(a: Knowledge, b: Knowledge, word: Word)
    requires
        a.well_formed(),
        a.same_constraints(b),
    ensures
        a.spec_matches(word) == b.spec_matches(word),
{
    if a.spec_matches(word) {
        lemma_same_constraints_one_way(a, b, word);
    }
    assert(b.same_constraints(a)) by {
        assert forall|i: int| 0 <= i < b.chars.len() implies (#[trigger] b.chars[i]).same_constraint(
            a.chars[i],
        ) by {
            assert(a.chars[i].same_constraint(b.chars[i]));
        }
    }
    if b.spec_matches(word) {
        lemma_same_constraints_one_way(b, a, word);
    }
}

proof fn lemma_same_constraints_one_way(a: Knowledge, b: Knowledge, word: Word)
    requires
        a.chars.len() == 5,
        a.same_constraints(b),
        a.spec_matches(word),
    ensures
        b.spec_matches(word),
{
    assert forall|i: int| 0 <= i < 5 implies #[trigger] b.position_allows(i, word) by {
        assert(a.position_allows(i, word));
        assert(a.chars[i].same_constraint(b.chars[i]));
        let x = word@[i];
        assert(a.nowhere.to_set().contains(x) == b.nowhere.to_set().contains(x));
        match (a.chars[i], b.chars[i]) {
            (CharInfoView::Not(s), CharInfoView::Not(t)) => {
                assert(s.to_set().contains(x) == t.to_set().contains(x));
            },
            _ => {},
        }
    }
    assert forall|k: int| 0 <= k < b.somewhere.len() implies word.has(
        #[trigger] b.somewhere[k],
    ) by {
        let x = b.somewhere[k];
        assert(b.somewhere.contains(x));
        assert(b.somewhere.to_set().contains(x));
        assert(a.somewhere.to_set().contains(x));
        assert(a.somewhere.contains(x));
        let j = choose|j: int| 0 <= j < a.somewhere.len() && a.somewhere[j] == x;
        assert(word.has(a.somewhere[j]));
    }
}

} // verus!

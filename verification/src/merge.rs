//! Folding one row of feedback into the accumulated knowledge.
use vstd::prelude::*;
use crate::feedback::{feedback, mark_for, CharMatch, WordMatch};
use crate::state::{list_has, CharInfo, CharInfoView, Knowledge, MatchState};
use crate::word::{is_letter, Word};

verus! {

/// The list `s` with every occurrence of `b` taken out, the rest in order.
pub open spec fn without(s: Seq<u8>, b: u8) -> Seq<u8> {
    s.filter(|x: u8| x != b)
}

/// The list `s`, with `b` appended unless it is already there.
pub open spec fn with_new(s: Seq<u8>, b: u8) -> Seq<u8> {
    if s.contains(b) {
        s
    } else {
        s.push(b)
    }
}

impl CharInfoView {
    /// The same position, with `b` added to its deny list; a position whose
    /// symbol is known stays as it is.
    pub open spec fn deny(self, b: u8) -> CharInfoView {
        match self {
            CharInfoView::Is(x) => CharInfoView::Is(x),
            CharInfoView::Not(not) => CharInfoView::Not(not.push(b)),
        }
    }
}

impl Knowledge {
    /// The knowledge after the mark of position `i`, where `g` was guessed.
    ///
    /// Green pins `g` at `i` and takes it out of both lists. Yellow denies
    /// `g` at `i` and records that it occurs somewhere. Gray, where `g` is
    /// already known to occur somewhere or is pinned at another position,
    /// speaks of position `i` only: it denies `g` there and leaves both
    /// lists as they are. In every other case Gray records `g` as absent
    /// from the whole word. To deny a symbol at a pinned position changes
    /// nothing: a pinned position stays pinned.
    pub open spec fn merge_mark(self, i: int, g: u8, mark: CharMatch) -> Knowledge {
        match mark {
            CharMatch::Green => Knowledge {
                chars: self.chars.update(i, CharInfoView::Is(g)),
                nowhere: without(self.nowhere, g),
                somewhere: without(self.somewhere, g),
            },
            CharMatch::Yellow => Knowledge {
                chars: self.chars.update(i, self.chars[i].deny(g)),
                nowhere: self.nowhere,
                somewhere: with_new(self.somewhere, g),
            },
            CharMatch::Gray => if self.somewhere.contains(g) || self.pins_elsewhere(g, i) {
                Knowledge {
                    chars: self.chars.update(i, self.chars[i].deny(g)),
                    nowhere: self.nowhere,
                    somewhere: self.somewhere,
                }
            } else {
                Knowledge {
                    chars: self.chars,
                    nowhere: with_new(self.nowhere, g),
                    somewhere: self.somewhere,
                }
            },
        }
    }

    /// The knowledge after the marks of the first `n` positions of `row`,
    /// taken in order.
    pub open spec fn merge_upto(self, row: WordMatch, n: nat) -> Knowledge
        decreases n,
    {
        if n == 0 {
            self
        } else {
            self.merge_upto(row, (n - 1) as nat).merge_mark(
                n - 1,
                row.word@[n - 1],
                row.cm@[n - 1],
            )
        }
    }

    /// The knowledge after the whole of `row`.
    pub open spec fn merge(self, row: WordMatch) -> Knowledge {
        self.merge_upto(row, 5)
    }

    /// Each Green mark of `row` names a symbol that the knowledge still
    /// allows at that position.
    pub open spec fn allows_greens(self, row: WordMatch) -> bool {
        forall|i: int|
            0 <= i < 5 && #[trigger] row.cm@[i] == CharMatch::Green ==> self.position_allows(
                i,
                row.word,
            )
    }

    /// No word at all is consistent with the knowledge.
    pub open spec fn matches_nothing(self) -> bool {
        forall|w: Word| !self.spec_matches(w)
    }
}

impl WordMatch {
    /// Every position is marked Gray.
    pub open spec fn all_gray(self) -> bool {
        forall|i: int| 0 <= i < 5 ==> #[trigger] self.cm@[i] == CharMatch::Gray
    }
}

/// A state together with one row of feedback about the same hidden word.
pub struct MatchComb<'a, 'b> {
    pub state: &'a MatchState,
    pub wm: &'b WordMatch,
}

/// Taking `b` out of a list with one more element at its end.
pub proof fn lemma_without_push(s: Seq<u8>, x: u8, b: u8)
    ensures
        without(s.push(x), b) == if x == b {
            without(s, b)
        } else {
            without(s, b).push(x)
        },
{
    reveal(Seq::filter);
    assert(s.push(x).drop_last() =~= s);
}

/// What is left of a list once `b` is taken out is what it held besides `b`.
pub proof fn lemma_without_contains(s: Seq<u8>, b: u8, x: u8)
    ensures
        without(s, b).contains(x) <==> s.contains(x) && x != b,
    decreases s.len(),
{
    reveal(Seq::filter);
    if s.len() == 0 {
    } else {
        let t = s.drop_last();
        lemma_without_contains(t, b, x);
        assert(s =~= t.push(s.last()));
        lemma_without_push(t, s.last(), b);
        let w = without(t, b);
        if s.last() != b {
            assert(w.push(s.last()).last() == s.last());
            if w.contains(x) {
                let j = choose|j: int| 0 <= j < w.len() && w[j] == x;
                assert(w.push(s.last())[j] == x);
            }
            if without(s, b).contains(x) {
                let j = choose|j: int| 0 <= j < without(s, b).len() && without(s, b)[j] == x;
                if j < w.len() {
                    assert(w[j] == x);
                }
            }
        }
        if s.contains(x) {
            let j = choose|j: int| 0 <= j < s.len() && s[j] == x;
            if j < t.len() {
                assert(t[j] == x);
            }
        }
        if t.contains(x) {
            let j = choose|j: int| 0 <= j < t.len() && t[j] == x;
            assert(s[j] == x);
        }
    }
}

/// Takes every occurrence of `b` out of `v`, keeping the rest in order.
pub fn list_remove(v: &mut Vec<u8>, b: u8)
    ensures
        final(v)@ == without(old(v)@, b),
{
    let mut out: Vec<u8> = Vec::new();
    let mut i: usize = 0;
    proof {
        reveal(Seq::filter);
    }
    while i < v.len()
        invariant
            i <= v.len(),
            out@ == without(v@.take(i as int), b),
        decreases v.len() - i,
    {
        proof {
            lemma_without_push(v@.take(i as int), v@[i as int], b);
            assert(v@.take(i + 1) =~= v@.take(i as int).push(v@[i as int]));
        }
        if v[i] != b {
            out.push(v[i]);
        }
        i += 1;
    }
    assert(v@.take(v.len() as int) =~= v@);
    *v = out;
}

/// Appends `b` to `v` unless it is already there.
pub fn list_add(v: &mut Vec<u8>, b: u8)
    ensures
        final(v)@ == with_new(old(v)@, b),
{
    if !list_has(v, b) {
        v.push(b);
    }
}

impl CharInfo {
    /// Adds `b` to the deny list of an open position; leaves a known
    /// position as it is.
    pub fn deny(&mut self, b: u8)
        ensures
            final(self)@ == old(self)@.deny(b),
    {
        match self {
            CharInfo::Not(n) => {
                n.push(b);
            },
            CharInfo::Is(_) => {},
        }
    }

}

impl MatchState {
    /// Tells whether some position other than `i` is known to hold the
    /// symbol `b`.
    pub fn pins_elsewhere(&self, b: u8, i: usize) -> (r: bool)
        ensures
            r == self@.pins_elsewhere(b, i as int),
    {
        let mut j: usize = 0;
        while j < 5
            invariant
                j <= 5,
                forall|k: int|
                    0 <= k < j && k != i ==> #[trigger] self@.chars[k] != CharInfoView::Is(b),
            decreases 5 - j,
        {
            let hit = match &self.chars[j] {
                CharInfo::Is(c) => j != i && *c == b,
                CharInfo::Not(_) => false,
            };
            if hit {
                assert(self@.chars[j as int] == CharInfoView::Is(b));
                return true;
            }
            j += 1;
        }
        false
    }

    /// Folds the mark of position `i`, where `g` was guessed, into the state.
    pub fn merge_mark(&mut self, i: usize, g: u8, mark: CharMatch)
        requires
            i < 5,
        ensures
            final(self)@ == old(self)@.merge_mark(i as int, g, mark),
    {
        match mark {
            CharMatch::Green => {
                self.chars[i] = CharInfo::Is(g);
                list_remove(&mut self.somewhere, g);
                list_remove(&mut self.nowhere, g);
            },
            CharMatch::Yellow => {
                self.chars[i].deny(g);
                list_add(&mut self.somewhere, g);
            },
            CharMatch::Gray => {
                if list_has(&self.somewhere, g) || self.pins_elsewhere(g, i) {
                    self.chars[i].deny(g);
                } else {
                    list_add(&mut self.nowhere, g);
                }
            },
        }
        assert(self@.chars =~= old(self)@.merge_mark(i as int, g, mark).chars);
    }
}

impl<'a, 'b> MatchComb<'a, 'b> {
    /// Tells whether `target` is consistent with both the state and the row.
    pub fn matches(&self, target: Word) -> (r: bool)
        ensures
            r == (self.state@.spec_matches(target) && self.wm.spec_matches(target)),
    {
        self.state.matches(target) && self.wm.matches(target)
    }

    /// The state after the row: a new state, the old one untouched.
    pub fn merge(&self) -> (r: MatchState)
        ensures
            r@ == self.state@.merge(*self.wm),
    {
        let mut state = self.state.clone();
        let mut i: usize = 0;
        while i < 5
            invariant
                i <= 5,
                state@ == self.state@.merge_upto(*self.wm, i as nat),
            decreases 5 - i,
        {
            let ch = self.wm.word.symbol(i);
            state.merge_mark(i, ch, self.wm.cm[i]);
            i += 1;
        }
        state
    }
}

impl WordMatch {
    /// Some position before `n` is marked Green and guesses the symbol `x`.
    pub open spec fn green_before(self, n: int, x: u8) -> bool {
        exists|j: int| 0 <= j < n && #[trigger] self.cm@[j] == CharMatch::Green && self.word@[j] == x
    }
}

impl Knowledge {
    /// What the marks of the first `n` positions of `row` leave of `self`:
    /// a Green position is pinned to its guess, every other position admits
    /// no more than before, and a symbol leaves a list only where a Green
    /// mark guessed it.
    pub open spec fn narrowed_upto(self, from: Knowledge, row: WordMatch, n: int) -> bool {
        &&& self.chars.len() == 5
        &&& forall|i: int|
            0 <= i < n && #[trigger] row.cm@[i] == CharMatch::Green ==> self.chars[i]
                == CharInfoView::Is(row.word@[i])
        &&& forall|i: int, b: u8|
            0 <= i < 5 && !(i < n && row.cm@[i] == CharMatch::Green) && (
            #[trigger] self.chars[i].admits(b)) ==> from.chars[i].admits(b)
        &&& forall|x: u8| #[trigger]
            from.nowhere.contains(x) ==> self.nowhere.contains(x) || row.green_before(n, x)
        &&& forall|x: u8| #[trigger]
            from.somewhere.contains(x) ==> self.somewhere.contains(x) || row.green_before(n, x)
    }
}

/// A list with `b` added holds what it held, and `b`.
pub proof fn lemma_with_new_keeps(s: Seq<u8>, b: u8, x: u8)
    ensures
        with_new(s, b).contains(x) <==> s.contains(x) || x == b,
{
    if !s.contains(b) {
        let t = s.push(b);
        assert(t[s.len() as int] == b);
        if s.contains(x) {
            let j = choose|j: int| 0 <= j < s.len() && s[j] == x;
            assert(t[j] == x);
        }
        if t.contains(x) {
            let j = choose|j: int| 0 <= j < t.len() && t[j] == x;
            if j < s.len() {
                assert(s[j] == x);
            }
        }
    }
}

proof fn lemma_narrowed_prefix(s: Knowledge, row: WordMatch, n: nat)
    requires
        s.well_formed(),
        n <= 5,
    ensures
        s.merge_upto(row, n).narrowed_upto(s, row, n as int),
    decreases n,
{
    if n == 0 {
    } else {
        let m = (n - 1) as nat;
        let p = s.merge_upto(row, m);
        let g = row.word@[n - 1];
        let mark = row.cm@[n - 1];
        let k = p.merge_mark(n - 1, g, mark);
        lemma_narrowed_prefix(s, row, m);
        assert(k == s.merge_upto(row, n));
        assert forall|i: int|
            0 <= i < n && #[trigger] row.cm@[i] == CharMatch::Green implies k.chars[i]
            == CharInfoView::Is(row.word@[i]) by {
            if i < m {
                assert(p.chars[i] == CharInfoView::Is(row.word@[i]));
            }
        }
        assert forall|i: int, b: u8|
            0 <= i < 5 && !(i < n && row.cm@[i] == CharMatch::Green) && (#[trigger] k.chars[i].admits(
                b,
            )) implies s.chars[i].admits(b) by {
            if i == n - 1 {
                assert(p.chars[i].deny(g).admits(b) ==> p.chars[i].admits(b)) by {
                    match p.chars[i] {
                        CharInfoView::Not(not) => {
                            if not.contains(b) {
                                let j = choose|j: int| 0 <= j < not.len() && not[j] == b;
                                assert(not.push(g)[j] == b);
                            }
                        },
                        _ => {},
                    }
                }
                assert(p.chars[i].admits(b));
            } else {
                assert(p.chars[i].admits(b));
            }
        }
        assert forall|x: u8| #[trigger] s.nowhere.contains(x) implies k.nowhere.contains(x)
            || row.green_before(n as int, x) by {
            lemma_without_contains(p.nowhere, g, x);
            lemma_with_new_keeps(p.nowhere, g, x);
            if row.green_before(m as int, x) {
                let j = choose|j: int|
                    0 <= j < m && #[trigger] row.cm@[j] == CharMatch::Green && row.word@[j] == x;
                assert(row.cm@[j] == CharMatch::Green && row.word@[j] == x);
            } else if mark == CharMatch::Green && x == g {
                assert(row.cm@[n - 1] == CharMatch::Green && row.word@[n - 1] == x);
            }
        }
        assert forall|x: u8| #[trigger] s.somewhere.contains(x) implies k.somewhere.contains(x)
            || row.green_before(n as int, x) by {
            lemma_without_contains(p.somewhere, g, x);
            lemma_with_new_keeps(p.somewhere, g, x);
            if row.green_before(m as int, x) {
                let j = choose|j: int|
                    0 <= j < m && #[trigger] row.cm@[j] == CharMatch::Green && row.word@[j] == x;
                assert(row.cm@[j] == CharMatch::Green && row.word@[j] == x);
            } else if mark == CharMatch::Green && x == g {
                assert(row.cm@[n - 1] == CharMatch::Green && row.word@[n - 1] == x);
            }
        }
    }
}

proof fn lemma_merge_narrows_word(s: Knowledge, row: WordMatch, w: Word)
    requires
        s.well_formed(),
        s.allows_greens(row),
        s.merge(row).spec_matches(w),
    ensures
        s.spec_matches(w),
{
    let f = s.merge(row);
    lemma_narrowed_prefix(s, row, 5);
    assert forall|i: int| 0 <= i < 5 implies #[trigger] s.position_allows(i, w) by {
        assert(f.position_allows(i, w));
        if row.cm@[i] == CharMatch::Green {
            assert(f.chars[i] == CharInfoView::Is(row.word@[i]));
            assert(s.position_allows(i, row.word));
        } else {
            assert(f.chars[i].admits(w@[i]));
            assert(s.chars[i].admits(w@[i]));
            if s.nowhere.contains(w@[i]) {
                assert(row.green_before(5, w@[i]));
                let j = choose|j: int|
                    0 <= j < 5 && #[trigger] row.cm@[j] == CharMatch::Green && row.word@[j] == w@[i];
                assert(s.position_allows(j, row.word));
            }
        }
    }
    assert forall|k: int| 0 <= k < s.somewhere.len() implies w.has(#[trigger] s.somewhere[k]) by {
        let x = s.somewhere[k];
        assert(s.somewhere.contains(x));
        if f.somewhere.contains(x) {
            let j = choose|j: int| 0 <= j < f.somewhere.len() && f.somewhere[j] == x;
            assert(w.has(f.somewhere[j]));
        } else {
            assert(row.green_before(5, x));
            let j = choose|j: int|
                0 <= j < 5 && #[trigger] row.cm@[j] == CharMatch::Green && row.word@[j] == x;
            assert(f.chars[j] == CharInfoView::Is(x));
            assert(f.position_allows(j, w));
            assert(w@[j] == x);
        }
    }
}

/// Knowledge only narrows: every word consistent with the state after a row
/// was consistent with the state before it. This holds wherever each Green
/// mark of the row names a symbol that the state still allowed at its
/// position, and, for want of any word, wherever the state after the row
/// matches nothing.
pub proof fn lemma_merge_narrows(s: Knowledge, row: WordMatch)
    requires
        s.well_formed(),
        s.allows_greens(row) || s.merge(row).matches_nothing(),
    ensures
        forall|w: Word| #[trigger] s.merge(row).spec_matches(w) ==> s.spec_matches(w),
{
    assert forall|w: Word| #[trigger] s.merge(row).spec_matches(w) implies s.spec_matches(w) by {
        if s.allows_greens(row) {
            lemma_merge_narrows_word(s, row, w);
        }
    }
}

/// Where a Green mark of the row names a symbol that the state had ruled out
/// at its position, no word consistent with the state after the row was
/// consistent with the state before it.
pub proof fn lemma_merge_overrules(s: Knowledge, row: WordMatch, w: Word)
    requires
        s.well_formed(),
        !s.allows_greens(row),
        s.merge(row).spec_matches(w),
    ensures
        !s.spec_matches(w),
{
    let f = s.merge(row);
    lemma_narrowed_prefix(s, row, 5);
    let i = choose|i: int|
        0 <= i < 5 && #[trigger] row.cm@[i] == CharMatch::Green && !s.position_allows(i, row.word);
    assert(f.chars[i] == CharInfoView::Is(row.word@[i]));
    assert(f.position_allows(i, w));
    assert(!s.position_allows(i, w));
}

proof fn lemma_prefix_well_formed(s: Knowledge, row: WordMatch, n: nat)
    requires
        s.well_formed(),
        n <= 5,
    ensures
        s.merge_upto(row, n).well_formed(),
        s.is_alphabetic() && row.word.is_alphabetic() ==> s.merge_upto(row, n).is_alphabetic(),
    decreases n,
{
    if n > 0 {
        let m = (n - 1) as nat;
        let p = s.merge_upto(row, m);
        let g = row.word@[n - 1];
        let k = p.merge_mark(n - 1, g, row.cm@[n - 1]);
        lemma_prefix_well_formed(s, row, m);
        assert(k == s.merge_upto(row, n));
        if s.is_alphabetic() && row.word.is_alphabetic() {
            assert forall|j: int| 0 <= j < k.nowhere.len() implies is_letter(
                #[trigger] k.nowhere[j],
            ) by {
                let x = k.nowhere[j];
                assert(k.nowhere.contains(x));
                lemma_without_contains(p.nowhere, g, x);
                lemma_with_new_keeps(p.nowhere, g, x);
                if p.nowhere.contains(x) {
                    let t = choose|t: int| 0 <= t < p.nowhere.len() && p.nowhere[t] == x;
                    assert(is_letter(p.nowhere[t]));
                }
            }
            assert forall|j: int| 0 <= j < k.somewhere.len() implies is_letter(
                #[trigger] k.somewhere[j],
            ) by {
                let x = k.somewhere[j];
                assert(k.somewhere.contains(x));
                lemma_without_contains(p.somewhere, g, x);
                lemma_with_new_keeps(p.somewhere, g, x);
                if p.somewhere.contains(x) {
                    let t = choose|t: int| 0 <= t < p.somewhere.len() && p.somewhere[t] == x;
                    assert(is_letter(p.somewhere[t]));
                }
            }
            assert forall|i: int| 0 <= i < k.chars.len() implies (#[trigger] k.chars[i]).is_alphabetic() by {
                assert(p.chars[i].is_alphabetic());
            }
        }
    }
}

/// Merging keeps one entry per position, and keeps every recorded symbol
/// within the alphabet when the row's word is within it.
pub proof fn lemma_merge_well_formed(s: Knowledge, row: WordMatch)
    requires
        s.well_formed(),
    ensures
        s.merge(row).well_formed(),
        s.is_alphabetic() && row.word.is_alphabetic() ==> s.merge(row).is_alphabetic(),
{
    lemma_prefix_well_formed(s, row, 5);
}

proof fn lemma_all_gray_first(row: WordMatch, n: nat)
    requires
        row.all_gray(),
        n <= 5,
    ensures
        ({
            let k = Knowledge::empty().merge_upto(row, n);
            &&& k.chars == Knowledge::empty().chars
            &&& k.somewhere == Seq::<u8>::empty()
            &&& forall|j: int| 0 <= j < n ==> k.nowhere.contains(#[trigger] row.word@[j])
        }),
    decreases n,
{
    if n > 0 {
        let m = (n - 1) as nat;
        let p = Knowledge::empty().merge_upto(row, m);
        let g = row.word@[n - 1];
        lemma_all_gray_first(row, m);
        assert(row.cm@[n - 1] == CharMatch::Gray);
        assert(!p.pins_elsewhere(g, n - 1));
        let k = p.merge_mark(n - 1, g, CharMatch::Gray);
        assert(k == Knowledge::empty().merge_upto(row, n));
        assert forall|j: int| 0 <= j < n implies k.nowhere.contains(#[trigger] row.word@[j]) by {
            lemma_with_new_keeps(p.nowhere, g, row.word@[j]);
        }
    }
}

proof fn lemma_all_gray_again(k: Knowledge, row: WordMatch, n: nat)
    requires
        row.all_gray(),
        n <= 5,
        k.chars == Knowledge::empty().chars,
        k.somewhere == Seq::<u8>::empty(),
        forall|j: int| 0 <= j < 5 ==> k.nowhere.contains(#[trigger] row.word@[j]),
    ensures
        k.merge_upto(row, n) == k,
    decreases n,
{
    if n > 0 {
        lemma_all_gray_again(k, row, (n - 1) as nat);
        assert(row.cm@[n - 1] == CharMatch::Gray);
        assert(!k.pins_elsewhere(row.word@[n - 1], n - 1));
        assert(k.nowhere.contains(row.word@[n - 1]));
    }
}

/// Merging a row that marks every position Gray into the empty state, and
/// then merging the same row again, gives the state that one merge gives.
pub proof fn lemma_all_gray_idempotent(row: WordMatch)
    requires
        row.all_gray(),
    ensures
        Knowledge::empty().merge(row).merge(row) == Knowledge::empty().merge(row),
{
    lemma_all_gray_first(row, 5);
    lemma_all_gray_again(Knowledge::empty().merge(row), row, 5);
}

proof fn lemma_mark_keeps_target(p: Knowledge, i: int, guess: Word, target: Word)
    requires
        p.well_formed(),
        0 <= i < 5,
        p.spec_matches(target),
    ensures
        p.merge_mark(i, guess@[i], mark_for(guess, target, i)).spec_matches(target),
        p.merge_mark(i, guess@[i], mark_for(guess, target, i)).well_formed(),
{
    let g = guess@[i];
    let k = p.merge_mark(i, g, mark_for(guess, target, i));
    assert forall|j: int| 0 <= j < 5 implies #[trigger] k.position_allows(j, target) by {
        assert(p.position_allows(j, target));
        let x = target@[j];
        lemma_without_contains(p.nowhere, g, x);
        lemma_with_new_keeps(p.nowhere, g, x);
        if x == g {
            assert(target.has(g));
        }
        if j == i {
            match p.chars[i] {
                CharInfoView::Not(not) => {
                    if not.push(g).contains(x) {
                        let t = choose|t: int| 0 <= t < not.push(g).len() && not.push(g)[t] == x;
                        if t < not.len() {
                            assert(not[t] == x);
                        }
                    }
                },
                _ => {},
            }
        }
    }
    assert forall|t: int| 0 <= t < k.somewhere.len() implies target.has(#[trigger] k.somewhere[t]) by {
        let x = k.somewhere[t];
        assert(k.somewhere.contains(x));
        lemma_without_contains(p.somewhere, g, x);
        lemma_with_new_keeps(p.somewhere, g, x);
        if p.somewhere.contains(x) {
            let u = choose|u: int| 0 <= u < p.somewhere.len() && p.somewhere[u] == x;
            assert(target.has(p.somewhere[u]));
        }
    }
}

proof fn lemma_prefix_keeps_target(s: Knowledge, guess: Word, target: Word, n: nat)
    requires
        s.well_formed(),
        s.spec_matches(target),
        n <= 5,
    ensures
        s.merge_upto(feedback(guess, target), n).spec_matches(target),
        s.merge_upto(feedback(guess, target), n).well_formed(),
    decreases n,
{
    if n > 0 {
        let row = feedback(guess, target);
        lemma_prefix_keeps_target(s, guess, target, (n - 1) as nat);
        lemma_mark_keeps_target(s.merge_upto(row, (n - 1) as nat), n - 1, guess, target);
        assert(row.cm@[n - 1] == mark_for(guess, target, n - 1));
    }
}

/// Truthful feedback never rules out the hidden word: where the state is
/// consistent with `target`, so is the state after the row that guessing
/// `guess` draws from `target`.
pub proof fn lemma_merge_keeps_target(s: Knowledge, guess: Word, target: Word)
    requires
        s.well_formed(),
        s.spec_matches(target),
    ensures
        s.merge(feedback(guess, target)).spec_matches(target),
{
    lemma_prefix_keeps_target(s, guess, target, 5);
}

/// Truthful feedback is never overruled: where the state is consistent with
/// `target`, each Green mark of the row that `target` draws names a symbol
/// that the state allows at its position, so that merging the row only
/// narrows.
pub proof fn lemma_truthful_feedback_is_allowed(s: Knowledge, guess: Word, target: Word)
    requires
        s.well_formed(),
        s.spec_matches(target),
    ensures
        s.allows_greens(feedback(guess, target)),
{
    let row = feedback(guess, target);
    assert forall|i: int| 0 <= i < 5 && #[trigger] row.cm@[i] == CharMatch::Green implies s.position_allows(
        i,
        row.word,
    ) by {
        assert(row.cm@[i] == mark_for(guess, target, i));
        assert(s.position_allows(i, target));
    }
}

/// A state that some word is consistent with is coherent: no symbol is both
/// known to occur and known to be absent, and no pinned symbol is known to
/// be absent.
pub proof fn lemma_satisfiable_is_coherent(s: Knowledge, word: Word)
    requires
        s.well_formed(),
        s.spec_matches(word),
    ensures
        forall|x: u8| !(#[trigger] s.somewhere.contains(x) && s.nowhere.contains(x)),
        forall|x: u8| #[trigger] s.pins(x) ==> !s.nowhere.contains(x),
{
    assert forall|x: u8| !(#[trigger] s.somewhere.contains(x) && s.nowhere.contains(x)) by {
        if s.somewhere.contains(x) && s.nowhere.contains(x) {
            let t = choose|t: int| 0 <= t < s.somewhere.len() && s.somewhere[t] == x;
            assert(word.has(s.somewhere[t]));
            let j = choose|j: int| 0 <= j < word@.len() && word@[j] == x;
            assert(s.position_allows(j, word));
        }
    }
    assert forall|x: u8| #[trigger] s.pins(x) implies !s.nowhere.contains(x) by {
        let i = choose|i: int|
            0 <= i < s.chars.len() && #[trigger] s.chars[i] == CharInfoView::Is(x);
        assert(s.position_allows(i, word));
    }
}

proof fn lemma_prefix_stays_pinned(s: Knowledge, row: WordMatch, n: nat, i: int)
    requires
        s.well_formed(),
        n <= 5,
        0 <= i < 5,
        s.chars[i] is Is,
    ensures
        s.merge_upto(row, n).chars[i] is Is,
        s.merge_upto(row, n).well_formed(),
    decreases n,
{
    if n > 0 {
        lemma_prefix_stays_pinned(s, row, (n - 1) as nat, i);
    }
}

/// A position, once pinned, stays pinned: merging never turns a known
/// position back into an open one.
pub proof fn lemma_pinned_stays_pinned(s: Knowledge, row: WordMatch, i: int)
    requires
        s.well_formed(),
        0 <= i < 5,
        s.chars[i] is Is,
    ensures
        s.merge(row).chars[i] is Is,
{
    lemma_prefix_stays_pinned(s, row, 5, i);
}

impl Knowledge {
    /// No pinned symbol is recorded as absent from the whole word.
    pub open spec fn pins_are_present(self) -> bool {
        forall|x: u8| #[trigger] self.pins(x) ==> !self.nowhere.contains(x)
    }

    /// Some Gray mark of `row` names the very symbol that is pinned at its
    /// own position.
    pub open spec fn gray_on_own_pin(self, row: WordMatch) -> bool {
        exists|i: int|
            0 <= i < 5 && #[trigger] row.cm@[i] == CharMatch::Gray && self.chars[i]
                == CharInfoView::Is(row.word@[i])
    }
}

proof fn lemma_prefix_keeps_pins_present(s: Knowledge, row: WordMatch, n: nat)
    requires
        s.well_formed(),
        s.pins_are_present(),
        !s.gray_on_own_pin(row),
        n <= 5,
    ensures
        s.merge_upto(row, n).well_formed(),
        s.merge_upto(row, n).pins_are_present(),
        forall|i: int| n <= i < 5 ==> #[trigger] s.merge_upto(row, n).chars[i] == s.chars[i],
    decreases n,
{
    if n > 0 {
        let m = (n - 1) as nat;
        let p = s.merge_upto(row, m);
        let g = row.word@[n - 1];
        let mark = row.cm@[n - 1];
        let k = p.merge_mark(n - 1, g, mark);
        lemma_prefix_keeps_pins_present(s, row, m);
        assert(k == s.merge_upto(row, n));
        assert(p.chars[n - 1] == s.chars[n - 1]);
        if mark == CharMatch::Gray {
            assert(row.cm@[n - 1] == CharMatch::Gray);
            assert(s.chars[n - 1] != CharInfoView::Is(g));
        }
        assert forall|x: u8| #[trigger] k.pins(x) implies !k.nowhere.contains(x) by {
            let i = choose|i: int|
                0 <= i < k.chars.len() && #[trigger] k.chars[i] == CharInfoView::Is(x);
            lemma_without_contains(p.nowhere, g, x);
            lemma_with_new_keeps(p.nowhere, g, x);
            if p.chars[i] == CharInfoView::Is(x) {
                assert(p.pins(x));
                if x == g && i != n - 1 {
                    assert(p.pins_elsewhere(g, n - 1));
                }
            }
        }
    }
}

/// Merging keeps pinned symbols out of the list of absent symbols, unless a
/// Gray mark of the row names the very symbol that is pinned at its own
/// position.
pub proof fn lemma_merge_keeps_pins_present(s: Knowledge, row: WordMatch)
    requires
        s.well_formed(),
        s.pins_are_present(),
        !s.gray_on_own_pin(row),
    ensures
        s.merge(row).pins_are_present(),
{
    lemma_prefix_keeps_pins_present(s, row, 5);
}

} // verus!

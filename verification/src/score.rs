//! Scoring guesses: how the words that survive the knowledge split by the
//! feedback that a guess would draw from each of them.
use vstd::prelude::*;
use crate::feedback::{feedback, lemma_matches_iff_same_feedback, word_match, CharMatch, WordMatch};
use crate::merge::MatchComb;
use crate::state::{Knowledge, MatchState};
use crate::word::{lemma_word_ext, Word};

verus! {

/// The test "is consistent with the knowledge `k`".
pub open spec fn survives(k: Knowledge) -> spec_fn(Word) -> bool {
    |w: Word| k.spec_matches(w)
}

/// The test "is consistent with `k` and draws `row` when `guess` is guessed".
pub open spec fn draws(k: Knowledge, guess: Word, row: WordMatch) -> spec_fn(Word) -> bool {
    |w: Word| k.spec_matches(w) && feedback(guess, w) == row
}

/// The test "is consistent with both `k` and `row`".
pub open spec fn fits(k: Knowledge, row: WordMatch) -> spec_fn(Word) -> bool {
    |w: Word| k.spec_matches(w) && row.spec_matches(w)
}

/// The words of `words` that are consistent with the knowledge, in order.
pub open spec fn survivors(k: Knowledge, words: Seq<Word>) -> Seq<Word> {
    words.filter(survives(k))
}

/// One outcome of a guess: a feedback row, the number of survivors that
/// draw it, and the number of survivors consistent with it.
#[derive(Clone, Copy, Debug, PartialEq, Eq)]
pub struct Outcome {
    pub row: WordMatch,
    pub count: usize,
    pub remaining: usize,
}

/// A guess with the outcomes that the survivors give it.
#[derive(Debug, PartialEq, Eq)]
pub struct GuessTally {
    pub word: Word,
    pub outcomes: Vec<Outcome>,
}

/// What scoring a list of guesses gives: the tally of each guess, or the
/// word that is certain to be the answer.
#[derive(Debug, PartialEq, Eq)]
pub enum ScoreResult {
    Tallies(Vec<GuessTally>),
    Win(Word),
}

/// The place in `s` of the first element that passes the test `p`, or the
/// length of `s` where none does.
pub open spec fn first_passing<A>(s: Seq<A>, p: spec_fn(A) -> bool) -> int
    decreases s.len(),
{
    if s.len() == 0 {
        0
    } else if first_passing(s.drop_last(), p) < s.len() - 1 {
        first_passing(s.drop_last(), p)
    } else if p(s.last()) {
        s.len() - 1
    } else {
        s.len() as int
    }
}

/// The sum of the counts of the outcomes.
pub open spec fn total_count(outcomes: Seq<Outcome>) -> int
    decreases outcomes.len(),
{
    if outcomes.len() == 0 {
        0
    } else {
        total_count(outcomes.drop_last()) + outcomes.last().count
    }
}

/// `outcomes` counts how the survivors among `words` split by the row that
/// `guess` draws from them: one outcome for each row that some survivor
/// draws, no row twice, in the order in which the rows are first drawn,
/// each with the number of survivors that draw it. The counts add up to the
/// number of survivors.
pub open spec fn is_count(outcomes: Seq<Outcome>, k: Knowledge, guess: Word, words: Seq<Word>) -> bool {
    &&& forall|a: int|
        0 <= a < outcomes.len() ==> {
            &&& (#[trigger] outcomes[a]).row.word == guess
            &&& outcomes[a].count == words.filter(draws(k, guess, outcomes[a].row)).len()
            &&& outcomes[a].count >= 1
        }
    &&& forall|a: int, b: int|
        0 <= a < b < outcomes.len() ==> (#[trigger] outcomes[a]).row != (#[trigger] outcomes[b]).row
    &&& forall|a: int, b: int|
        0 <= a < b < outcomes.len() ==> first_passing(
            words,
            draws(k, guess, (#[trigger] outcomes[a]).row),
        ) < first_passing(words, draws(k, guess, (#[trigger] outcomes[b]).row))
    &&& forall|j: int|
        0 <= j < words.len() && k.spec_matches(#[trigger] words[j]) ==> has_row(
            outcomes,
            feedback(guess, words[j]),
        )
    &&& total_count(outcomes) == survivors(k, words).len()
}

/// `outcomes` is the tally of `guess`: the count of the survivors by the row
/// they draw, and with each row the number of survivors consistent with it.
pub open spec fn is_tally(outcomes: Seq<Outcome>, k: Knowledge, guess: Word, words: Seq<Word>) -> bool {
    &&& is_count(outcomes, k, guess, words)
    &&& forall|a: int|
        0 <= a < outcomes.len() ==> (#[trigger] outcomes[a]).remaining == words.filter(
            fits(k, outcomes[a].row),
        ).len()
}

/// Some outcome of the list is for the row `row`.
pub open spec fn has_row(outcomes: Seq<Outcome>, row: WordMatch) -> bool {
    exists|a: int| 0 <= a < outcomes.len() && (#[trigger] outcomes[a]).row == row
}

/// Some outcome of the list holds all `all` survivors and marks every
/// position Green.
pub open spec fn has_win(outcomes: Seq<Outcome>, all: int) -> bool {
    exists|a: int|
        0 <= a < outcomes.len() && (#[trigger] outcomes[a]).count == all
            && outcomes[a].row.all_green()
}

/// Guessing `guess` settles the puzzle: some word survives, and every word
/// that survives is `guess`.
pub open spec fn wins(k: Knowledge, guess: Word, words: Seq<Word>) -> bool {
    &&& survivors(k, words).len() > 0
    &&& forall|j: int| 0 <= j < words.len() && k.spec_matches(#[trigger] words[j]) ==> words[j] == guess
}

/// Filtering a list with one more element at its end.
pub proof fn lemma_filter_push<A>(s: Seq<A>, x: A, p: spec_fn(A) -> bool)
    ensures
        s.push(x).filter(p) == if p(x) {
            s.filter(p).push(x)
        } else {
            s.filter(p)
        },
{
    reveal(Seq::filter);
    assert(s.push(x).drop_last() =~= s);
}

/// Two tests that agree on every element of a list keep the same elements.
pub proof fn lemma_filter_same<A>(s: Seq<A>, p: spec_fn(A) -> bool, q: spec_fn(A) -> bool)
    requires
        forall|i: int| 0 <= i < s.len() ==> p(#[trigger] s[i]) == q(s[i]),
    ensures
        s.filter(p) == s.filter(q),
    decreases s.len(),
{
    reveal(Seq::filter);
    if s.len() > 0 {
        let t = s.drop_last();
        assert forall|i: int| 0 <= i < t.len() implies p(#[trigger] t[i]) == q(t[i]) by {
            assert(t[i] == s[i]);
        }
        lemma_filter_same(t, p, q);
        assert(p(s[s.len() - 1]) == q(s[s.len() - 1]));
    }
}

/// Where a stronger test keeps as many elements of a list as a weaker one,
/// every element that passes the weaker test passes the stronger.
pub proof fn lemma_filter_full<A>(s: Seq<A>, p: spec_fn(A) -> bool, q: spec_fn(A) -> bool)
    requires
        forall|i: int| 0 <= i < s.len() && q(#[trigger] s[i]) ==> p(s[i]),
        s.filter(q).len() == s.filter(p).len(),
    ensures
        forall|i: int| 0 <= i < s.len() && p(#[trigger] s[i]) ==> q(s[i]),
    decreases s.len(),
{
    reveal(Seq::filter);
    if s.len() > 0 {
        let t = s.drop_last();
        assert forall|i: int| 0 <= i < t.len() && q(#[trigger] t[i]) implies p(t[i]) by {
            assert(t[i] == s[i]);
        }
        assert(q(s[s.len() - 1]) ==> p(s[s.len() - 1]));
        lemma_filter_weaker(t, p, q);
        lemma_filter_full(t, p, q);
        assert forall|i: int| 0 <= i < s.len() && p(#[trigger] s[i]) implies q(s[i]) by {
            if i < t.len() {
                assert(t[i] == s[i]);
            }
        }
    }
}

/// A stronger test keeps no more elements than a weaker one.
pub proof fn lemma_filter_weaker<A>(s: Seq<A>, p: spec_fn(A) -> bool, q: spec_fn(A) -> bool)
    requires
        forall|i: int| 0 <= i < s.len() && q(#[trigger] s[i]) ==> p(s[i]),
    ensures
        s.filter(q).len() <= s.filter(p).len(),
    decreases s.len(),
{
    reveal(Seq::filter);
    if s.len() > 0 {
        let t = s.drop_last();
        assert forall|i: int| 0 <= i < t.len() && q(#[trigger] t[i]) implies p(t[i]) by {
            assert(t[i] == s[i]);
        }
        assert(q(s[s.len() - 1]) ==> p(s[s.len() - 1]));
        lemma_filter_weaker(t, p, q);
    }
}

/// A test keeps an element of a list exactly when some element passes it.
pub proof fn lemma_filter_nonempty<A>(s: Seq<A>, p: spec_fn(A) -> bool)
    ensures
        s.filter(p).len() > 0 <==> exists|i: int| 0 <= i < s.len() && p(#[trigger] s[i]),
    decreases s.len(),
{
    reveal(Seq::filter);
    if s.len() > 0 {
        let t = s.drop_last();
        lemma_filter_nonempty(t, p);
        if t.filter(p).len() > 0 {
            let i = choose|i: int| 0 <= i < t.len() && p(#[trigger] t[i]);
            assert(p(s[i]));
        }
        if exists|i: int| 0 <= i < s.len() && p(#[trigger] s[i]) {
            let i = choose|i: int| 0 <= i < s.len() && p(#[trigger] s[i]);
            if i < t.len() {
                assert(p(t[i]));
            }
        }
    }
}

/// The survivors consistent with a row are those that draw it: the count
/// kept for the one is the count kept for the other.
pub proof fn lemma_fits_is_draws(k: Knowledge, row: WordMatch, words: Seq<Word>)
    ensures
        words.filter(fits(k, row)) == words.filter(draws(k, row.word, row)),
{
    assert forall|i: int| 0 <= i < words.len() implies fits(k, row)(#[trigger] words[i]) == draws(
        k,
        row.word,
        row,
    )(words[i]) by {
        lemma_matches_iff_same_feedback(row, words[i]);
    }
    lemma_filter_same(words, fits(k, row), draws(k, row.word, row));
}

/// The number of words of `words` that pass the matcher of state and row.
pub fn count_fitting(state: &MatchState, row: &WordMatch, words: &[Word]) -> (n: usize)
    ensures
        n == words@.filter(fits(state@, *row)).len(),
{
    let mc = MatchComb { state, wm: row };
    let mut n: usize = 0;
    let mut i: usize = 0;
    assert(words@.take(0).filter(fits(state@, *row)).len() == 0) by {
        reveal(Seq::filter);
    }
    while i < words.len()
        invariant
            i <= words.len(),
            n <= i,
            n == words@.take(i as int).filter(fits(state@, *row)).len(),
            mc.state == state,
            mc.wm == row,
        decreases words.len() - i,
    {
        proof {
            lemma_filter_push(words@.take(i as int), words@[i as int], fits(state@, *row));
            assert(words@.take(i + 1) =~= words@.take(i as int).push(words@[i as int]));
        }
        if mc.matches(words[i]) {
            n += 1;
        }
        i += 1;
    }
    assert(words@.take(words.len() as int) =~= words@);
    n
}

/// The number of words of `words` that are consistent with the state.
pub fn count_matching(state: &MatchState, words: &[Word]) -> (n: usize)
    ensures
        n == survivors(state@, words@).len(),
{
    let mut n: usize = 0;
    let mut i: usize = 0;
    assert(survivors(state@, words@.take(0)).len() == 0) by {
        reveal(Seq::filter);
    }
    while i < words.len()
        invariant
            i <= words.len(),
            n <= i,
            n == survivors(state@, words@.take(i as int)).len(),
        decreases words.len() - i,
    {
        proof {
            lemma_filter_push(words@.take(i as int), words@[i as int], survives(state@));
            assert(words@.take(i + 1) =~= words@.take(i as int).push(words@[i as int]));
        }
        if state.matches(words[i]) {
            n += 1;
        }
        i += 1;
    }
    assert(words@.take(words.len() as int) =~= words@);
    n
}

/// The words of `words` that are consistent with the state, in order.
pub fn matching_words(state: &MatchState, words: &[Word]) -> (out: Vec<Word>)
    ensures
        out@ == survivors(state@, words@),
{
    let mut out: Vec<Word> = Vec::new();
    let mut i: usize = 0;
    assert(survivors(state@, words@.take(0)) =~= out@) by {
        reveal(Seq::filter);
    }
    while i < words.len()
        invariant
            i <= words.len(),
            out@ == survivors(state@, words@.take(i as int)),
        decreases words.len() - i,
    {
        proof {
            lemma_filter_push(words@.take(i as int), words@[i as int], survives(state@));
            assert(words@.take(i + 1) =~= words@.take(i as int).push(words@[i as int]));
        }
        if state.matches(words[i]) {
            out.push(words[i]);
        }
        i += 1;
    }
    assert(words@.take(words.len() as int) =~= words@);
    out
}

/// The place of the outcome for `row`, if there is one.
fn find_row(outcomes: &Vec<Outcome>, row: &WordMatch) -> (r: Option<usize>)
    ensures
        match r {
            Some(a) => a < outcomes.len() && outcomes@[a as int].row == *row,
            None => !has_row(outcomes@, *row),
        },
{
    let mut a: usize = 0;
    while a < outcomes.len()
        invariant
            a <= outcomes.len(),
            forall|x: int| 0 <= x < a ==> (#[trigger] outcomes@[x]).row != *row,
        decreases outcomes.len() - a,
    {
        if outcomes[a].row == *row {
            return Some(a);
        }
        a += 1;
    }
    None
}

/// The first passing element of a list with one more element at its end.
pub proof fn lemma_first_passing_push<A>(s: Seq<A>, x: A, p: spec_fn(A) -> bool)
    ensures
        0 <= first_passing(s, p) <= s.len(),
        (first_passing(s, p) < s.len()) == (s.filter(p).len() > 0),
        first_passing(s.push(x), p) == if first_passing(s, p) < s.len() {
            first_passing(s, p)
        } else if p(x) {
            s.len() as int
        } else {
            s.len() as int + 1
        },
    decreases s.len(),
{
    reveal(Seq::filter);
    assert(s.push(x).drop_last() =~= s);
    if s.len() > 0 {
        lemma_first_passing_push(s.drop_last(), s.last(), p);
        assert(s.drop_last().push(s.last()) =~= s);
    }
}

/// The total of a list of outcomes with one more outcome at its end.
pub proof fn lemma_total_push(outcomes: Seq<Outcome>, x: Outcome)
    ensures
        total_count(outcomes.push(x)) == total_count(outcomes) + x.count,
{
    assert(outcomes.push(x).drop_last() =~= outcomes);
}

/// The total of a list of outcomes after one of them is replaced.
pub proof fn lemma_total_update(outcomes: Seq<Outcome>, a: int, x: Outcome)
    requires
        0 <= a < outcomes.len(),
    ensures
        total_count(outcomes.update(a, x)) == total_count(outcomes) - outcomes[a].count + x.count,
    decreases outcomes.len(),
{
    let after = outcomes.update(a, x);
    if a == outcomes.len() - 1 {
        assert(after.drop_last() =~= outcomes.drop_last());
    } else {
        lemma_total_update(outcomes.drop_last(), a, x);
        assert(after.drop_last() =~= outcomes.drop_last().update(a, x));
    }
}

/// Two lists of outcomes with the same counts have the same total.
pub proof fn lemma_total_same(a: Seq<Outcome>, b: Seq<Outcome>)
    requires
        a.len() == b.len(),
        forall|i: int| 0 <= i < a.len() ==> (#[trigger] a[i]).count == b[i].count,
    ensures
        total_count(a) == total_count(b),
    decreases a.len(),
{
    if a.len() > 0 {
        assert forall|i: int| 0 <= i < a.drop_last().len() implies (#[trigger] a.drop_last()[i]).count
            == b.drop_last()[i].count by {
            assert(a[i].count == b[i].count);
        }
        lemma_total_same(a.drop_last(), b.drop_last());
        assert(a[a.len() - 1].count == b[a.len() - 1].count);
    }
}

/// One more word for the tally: a survivor adds one to the outcome of the
/// row it draws, or starts that outcome.
proof fn lemma_count_step(
    before: Seq<Outcome>,
    after: Seq<Outcome>,
    k: Knowledge,
    guess: Word,
    words: Seq<Word>,
    target: Word,
)
    requires
        is_count(before, k, guess, words),
        !k.spec_matches(target) ==> after == before,
        k.spec_matches(target) && has_row(before, feedback(guess, target)) ==> exists|a: int|
            0 <= a < before.len() && (#[trigger] before[a]).row == feedback(guess, target) && after
                == before.update(
                a,
                Outcome { row: before[a].row, count: (before[a].count + 1) as usize, remaining: 0 },
            ) && before[a].count + 1 <= usize::MAX,
        k.spec_matches(target) && !has_row(before, feedback(guess, target)) ==> after
            == before.push(Outcome { row: feedback(guess, target), count: 1, remaining: 0 }),
    ensures
        is_count(after, k, guess, words.push(target)),
{
    let row = feedback(guess, target);
    let more = words.push(target);
    assert forall|r: WordMatch| #![auto] more.filter(draws(k, guess, r)).len() == words.filter(
        draws(k, guess, r),
    ).len() + if k.spec_matches(target) && row == r {
        1int
    } else {
        0int
    } by {
        lemma_filter_push(words, target, draws(k, guess, r));
    }
    assert forall|j: int| 0 <= j < words.len() implies more[j] == words[j] by {}
    assert forall|r: WordMatch|
        #![auto]
        {
            &&& (first_passing(words, draws(k, guess, r)) < words.len()) == (words.filter(
                draws(k, guess, r),
            ).len() > 0)
            &&& first_passing(more, draws(k, guess, r)) == if first_passing(
                words,
                draws(k, guess, r),
            ) < words.len() {
                first_passing(words, draws(k, guess, r))
            } else if k.spec_matches(target) && row == r {
                words.len() as int
            } else {
                words.len() as int + 1
            }
        } by {
        lemma_first_passing_push(words, target, draws(k, guess, r));
    }
    lemma_filter_push(words, target, survives(k));
    if !k.spec_matches(target) {
        assert(is_count(after, k, guess, more)) by {
            assert forall|j: int|
                0 <= j < more.len() && k.spec_matches(#[trigger] more[j]) implies has_row(
                after,
                feedback(guess, more[j]),
            ) by {
                assert(more[j] == words[j]);
            }
        }
    } else if has_row(before, row) {
        let a = choose|a: int|
            0 <= a < before.len() && (#[trigger] before[a]).row == feedback(guess, target) && after
                == before.update(
                a,
                Outcome { row: before[a].row, count: (before[a].count + 1) as usize, remaining: 0 },
            ) && before[a].count + 1 <= usize::MAX;
        assert forall|x: int| 0 <= x < after.len() implies (#[trigger] after[x]).row == before[x].row by {}
        lemma_total_update(
            before,
            a,
            Outcome { row: before[a].row, count: (before[a].count + 1) as usize, remaining: 0 },
        );
        assert forall|x: int, y: int| 0 <= x < y < after.len() implies first_passing(
            more,
            draws(k, guess, (#[trigger] after[x]).row),
        ) < first_passing(more, draws(k, guess, (#[trigger] after[y]).row)) by {
            assert(before[x].count >= 1 && before[y].count >= 1);
            assert(first_passing(words, draws(k, guess, before[x].row)) < first_passing(
                words,
                draws(k, guess, before[y].row),
            ));
        }
        assert forall|x: int| 0 <= x < after.len() implies {
            &&& (#[trigger] after[x]).row.word == guess
            &&& after[x].count == more.filter(draws(k, guess, after[x].row)).len()
            &&& after[x].count >= 1
        } by {
            assert(before[x].row.word == guess);
            if x != a {
                assert(before[a].row != before[x].row);
            }
        }
        assert forall|x: int, y: int| 0 <= x < y < after.len() implies (#[trigger] after[x]).row != (
        #[trigger] after[y]).row by {
            assert(before[x].row != before[y].row);
        }
        assert forall|j: int|
            0 <= j < more.len() && k.spec_matches(#[trigger] more[j]) implies has_row(
            after,
            feedback(guess, more[j]),
        ) by {
            if j < words.len() {
                assert(more[j] == words[j]);
                let x = choose|x: int|
                    0 <= x < before.len() && (#[trigger] before[x]).row == feedback(guess, words[j]);
                assert(after[x].row == feedback(guess, more[j]));
            } else {
                assert(after[a].row == feedback(guess, more[j]));
            }
        }
    } else {
        let n = before.len() as int;
        lemma_total_push(before, Outcome { row: feedback(guess, target), count: 1, remaining: 0 });
        assert(words.filter(draws(k, guess, row)).len() == 0) by {
            lemma_filter_nonempty(words, draws(k, guess, row));
            if exists|i: int| 0 <= i < words.len() && draws(k, guess, row)(#[trigger] words[i]) {
                let i = choose|i: int| 0 <= i < words.len() && draws(k, guess, row)(#[trigger] words[i]);
                assert(k.spec_matches(words[i]));
                assert(has_row(before, feedback(guess, words[i])));
            }
        }
        assert forall|x: int| 0 <= x < after.len() implies {
            &&& (#[trigger] after[x]).row.word == guess
            &&& after[x].count == more.filter(draws(k, guess, after[x].row)).len()
            &&& after[x].count >= 1
        } by {
            if x < n {
                assert(after[x] == before[x]);
                assert(before[x].row.word == guess);
            }
        }
        assert forall|x: int, y: int| 0 <= x < y < after.len() implies (#[trigger] after[x]).row != (
        #[trigger] after[y]).row by {
            assert(after[x] == before[x]);
            if y < n {
                assert(after[y] == before[y]);
            }
        }
        assert forall|x: int, y: int| 0 <= x < y < after.len() implies first_passing(
            more,
            draws(k, guess, (#[trigger] after[x]).row),
        ) < first_passing(more, draws(k, guess, (#[trigger] after[y]).row)) by {
            assert(after[x] == before[x]);
            assert(before[x].count >= 1);
            if y < n {
                assert(after[y] == before[y]);
                assert(before[y].count >= 1);
                assert(first_passing(words, draws(k, guess, before[x].row)) < first_passing(
                    words,
                    draws(k, guess, before[y].row),
                ));
            }
        }
        assert forall|j: int|
            0 <= j < more.len() && k.spec_matches(#[trigger] more[j]) implies has_row(
            after,
            feedback(guess, more[j]),
        ) by {
            if j < words.len() {
                assert(more[j] == words[j]);
                let x = choose|x: int|
                    0 <= x < before.len() && (#[trigger] before[x]).row == feedback(guess, words[j]);
                assert(after[x].row == feedback(guess, more[j]));
            } else {
                assert(after[n].row == feedback(guess, more[j]));
            }
        }
    }
}

/// The outcomes of one guess: for each row that some surviving word draws,
/// how many survivors draw it and how many are consistent with it.
pub fn tally_guess(state: &MatchState, guess: Word, words: &[Word]) -> (outcomes: Vec<Outcome>)
    ensures
        is_tally(outcomes@, state@, guess, words@),
{
    let mut counted: Vec<Outcome> = Vec::new();
    let mut i: usize = 0;
    while i < words.len()
        invariant
            i <= words.len(),
            is_count(counted@, state@, guess, words@.take(i as int)),
        decreases words.len() - i,
    {
        let ghost before = counted@;
        let target = words[i];
        if state.matches(target) {
            let row = word_match(guess, target);
            match find_row(&counted, &row) {
                Some(a) => {
                    let o = counted[a];
                    proof {
                        words@.take(i as int).lemma_filter_len(draws(state@, guess, o.row));
                    }
                    counted.set(a, Outcome { row: o.row, count: o.count + 1, remaining: 0 });
                },
                None => {
                    counted.push(Outcome { row, count: 1, remaining: 0 });
                },
            }
        }
        proof {
            lemma_count_step(before, counted@, state@, guess, words@.take(i as int), target);
            assert(words@.take(i + 1) =~= words@.take(i as int).push(target));
        }
        i += 1;
    }
    assert(words@.take(words.len() as int) =~= words@);
    let mut outcomes: Vec<Outcome> = Vec::new();
    let mut a: usize = 0;
    while a < counted.len()
        invariant
            a <= counted.len(),
            outcomes@.len() == a,
            forall|x: int|
                0 <= x < a ==> {
                    &&& (#[trigger] outcomes@[x]).row == counted@[x].row
                    &&& outcomes@[x].count == counted@[x].count
                    &&& outcomes@[x].remaining == words@.filter(fits(state@, counted@[x].row)).len()
                },
        decreases counted.len() - a,
    {
        let o = counted[a];
        let remaining = count_fitting(state, &o.row, words);
        outcomes.push(Outcome { row: o.row, count: o.count, remaining });
        a += 1;
    }
    proof {
        let k = state@;
        assert forall|x: int| 0 <= x < outcomes@.len() implies {
            &&& (#[trigger] outcomes@[x]).row.word == guess
            &&& outcomes@[x].count == words@.filter(draws(k, guess, outcomes@[x].row)).len()
            &&& outcomes@[x].count >= 1
        } by {
            assert(counted@[x].row.word == guess);
        }
        assert forall|x: int, y: int| 0 <= x < y < outcomes@.len() implies (
        #[trigger] outcomes@[x]).row != (#[trigger] outcomes@[y]).row by {
            assert(counted@[x].row != counted@[y].row);
        }
        assert forall|x: int, y: int| 0 <= x < y < outcomes@.len() implies first_passing(
            words@,
            draws(k, guess, (#[trigger] outcomes@[x]).row),
        ) < first_passing(words@, draws(k, guess, (#[trigger] outcomes@[y]).row)) by {
            assert(first_passing(words@, draws(k, guess, counted@[x].row)) < first_passing(
                words@,
                draws(k, guess, counted@[y].row),
            ));
        }
        lemma_total_same(outcomes@, counted@);
        assert forall|j: int|
            0 <= j < words@.len() && k.spec_matches(#[trigger] words@[j]) implies has_row(
            outcomes@,
            feedback(guess, words@[j]),
        ) by {
            let x = choose|x: int|
                0 <= x < counted@.len() && (#[trigger] counted@[x]).row == feedback(guess, words@[j]);
            assert(outcomes@[x].row == feedback(guess, words@[j]));
        }
    }
    outcomes
}

/// In a tally, the survivors consistent with a row are as many as those that
/// draw it, at least one and at most all of them: what the bounds on the
/// expected information of a guess rest on.
pub proof fn lemma_tally_bounds(outcomes: Seq<Outcome>, k: Knowledge, guess: Word, words: Seq<Word>)
    requires
        is_tally(outcomes, k, guess, words),
    ensures
        forall|a: int|
            0 <= a < outcomes.len() ==> {
                &&& (#[trigger] outcomes[a]).remaining == outcomes[a].count
                &&& 1 <= outcomes[a].count <= survivors(k, words).len()
            },
        total_count(outcomes) == survivors(k, words).len(),
{
    assert forall|a: int| 0 <= a < outcomes.len() implies {
        &&& (#[trigger] outcomes[a]).remaining == outcomes[a].count
        &&& 1 <= outcomes[a].count <= survivors(k, words).len()
    } by {
        let row = outcomes[a].row;
        lemma_fits_is_draws(k, row, words);
        lemma_filter_weaker(words, survives(k), draws(k, guess, row));
    }
}

/// A row that marks every position Green is drawn only by the guessed word
/// itself, and the guessed word draws such a row.
pub proof fn lemma_all_green_is_equal(guess: Word, target: Word)
    ensures
        feedback(guess, target).all_green() <==> guess == target,
{
    let f = feedback(guess, target);
    if f.all_green() {
        assert forall|i: int| 0 <= i < 5 implies guess@[i] == target@[i] by {
            assert(f.cm@[i] == CharMatch::Green);
        }
        assert(guess@ =~= target@);
        lemma_word_ext(guess, target);
    }
}

/// In the tally of a guess, an outcome that holds every survivor and marks
/// every position Green is there exactly when the guess settles the puzzle.
pub proof fn lemma_win_outcome(outcomes: Seq<Outcome>, k: Knowledge, guess: Word, words: Seq<Word>)
    requires
        is_tally(outcomes, k, guess, words),
    ensures
        has_win(outcomes, survivors(k, words).len() as int) <==> wins(k, guess, words),
{
    let all = survivors(k, words).len() as int;
    if has_win(outcomes, all) {
        let a = choose|a: int|
            0 <= a < outcomes.len() && (#[trigger] outcomes[a]).count == all
                && outcomes[a].row.all_green();
        let row = outcomes[a].row;
        lemma_filter_full(words, survives(k), draws(k, guess, row));
        assert forall|j: int| 0 <= j < words.len() && k.spec_matches(#[trigger] words[j]) implies words[j]
            == guess by {
            assert(survives(k)(words[j]));
            assert(draws(k, guess, row)(words[j]));
            lemma_all_green_is_equal(guess, words[j]);
        }
    }
    if wins(k, guess, words) {
        lemma_filter_nonempty(words, survives(k));
        let j = choose|j: int| 0 <= j < words.len() && survives(k)(#[trigger] words[j]);
        assert(k.spec_matches(words[j]));
        let row = feedback(guess, guess);
        assert(has_row(outcomes, feedback(guess, words[j])));
        let a = choose|a: int| 0 <= a < outcomes.len() && (#[trigger] outcomes[a]).row == row;
        lemma_all_green_is_equal(guess, guess);
        assert forall|i: int| 0 <= i < words.len() implies draws(k, guess, row)(#[trigger] words[i])
            == survives(k)(words[i]) by {
            if k.spec_matches(words[i]) {
                assert(words[i] == guess);
            }
        }
        lemma_filter_same(words, draws(k, guess, row), survives(k));
        assert(outcomes[a].count == all && outcomes[a].row.all_green());
    }
}

/// Tells whether some outcome holds all `all` survivors under an all-Green
/// row.
fn find_win(outcomes: &Vec<Outcome>, all: usize) -> (r: bool)
    ensures
        r == has_win(outcomes@, all as int),
{
    let mut a: usize = 0;
    while a < outcomes.len()
        invariant
            a <= outcomes.len(),
            forall|x: int|
                0 <= x < a ==> !((#[trigger] outcomes@[x]).count == all
                    && outcomes@[x].row.all_green()),
        decreases outcomes.len() - a,
    {
        if outcomes[a].count == all && outcomes[a].row.is_win() {
            return true;
        }
        a += 1;
    }
    false
}

/// Scores the guesses of `search` against the words of `words` that are
/// consistent with the state.
///
/// The result is the win signal for the first guess that settles the
/// puzzle, if there is one; otherwise the tally of every guess, in the
/// order of `search`.
pub fn tally_scores(state: &MatchState, search: &[Word], words: &[Word]) -> (r: ScoreResult)
    ensures
        match r {
            ScoreResult::Win(w) => exists|g: int|
                0 <= g < search@.len() && #[trigger] search@[g] == w && wins(state@, w, words@)
                    && forall|h: int| 0 <= h < g ==> !wins(state@, #[trigger] search@[h], words@),
            ScoreResult::Tallies(scores) => {
                &&& scores@.len() == search@.len()
                &&& forall|g: int|
                    0 <= g < search@.len() ==> {
                        &&& !wins(state@, #[trigger] search@[g], words@)
                        &&& scores@[g].word == search@[g]
                        &&& is_tally(scores@[g].outcomes@, state@, search@[g], words@)
                    }
            },
        },
{
    let all = count_matching(state, words);
    let mut scores: Vec<GuessTally> = Vec::new();
    let mut wi: usize = 0;
    while wi < search.len()
        invariant
            wi <= search.len(),
            all == survivors(state@, words@).len(),
            scores@.len() == wi,
            forall|g: int|
                0 <= g < wi ==> {
                    &&& !wins(state@, #[trigger] search@[g], words@)
                    &&& scores@[g].word == search@[g]
                    &&& is_tally(scores@[g].outcomes@, state@, search@[g], words@)
                },
        decreases search.len() - wi,
    {
        let word = search[wi];
        let outcomes = tally_guess(state, word, words);
        proof {
            lemma_win_outcome(outcomes@, state@, word, words@);
        }
        if find_win(&outcomes, all) {
            assert(search@[wi as int] == word);
            return ScoreResult::Win(word);
        }
        scores.push(GuessTally { word, outcomes });
        wi += 1;
    }
    ScoreResult::Tallies(scores)
}

/// Where exactly one word of the dictionary is consistent with the
/// knowledge, guessing that word settles the puzzle, and no other guess
/// does: scoring a list that holds it gives the win signal with that word.
pub proof fn lemma_single_survivor_wins(k: Knowledge, words: Seq<Word>, answer: Word)
    requires
        survivors(k, words) == seq![answer],
    ensures
        wins(k, answer, words),
        forall|w: Word| #[trigger] wins(k, w, words) ==> w == answer,
{
    assert forall|j: int| 0 <= j < words.len() && k.spec_matches(#[trigger] words[j]) implies words[j]
        == answer by {
        assert(survives(k)(words[j]));
        words.lemma_filter_contains(survives(k), j);
        let x = choose|x: int| 0 <= x < seq![answer].len() && seq![answer][x] == words[j];
    }
    lemma_filter_nonempty(words, survives(k));
    let j = choose|j: int| 0 <= j < words.len() && survives(k)(#[trigger] words[j]);
    assert(k.spec_matches(words[j]));
}

} // verus!

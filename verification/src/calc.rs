//! Around a scoring run: the word lists, the shards that the guesses are
//! split into, how the shards' results combine, and what is listed.
use vstd::prelude::*;
use crate::chars::ParseError;
use crate::row_text::{parse_lines, parse_words};
use crate::score::{matching_words, survivors, GuessTally, ScoreResult};
use crate::state::MatchState;
use crate::word::Word;

verus! {

/// How many of the best guesses a report shows.
pub const SHOWN_GUESSES: usize = 25;

/// Up to how many surviving words a report lists them.
pub const LISTED_ANSWERS: usize = 10;

/// The two word lists: the full dictionary, and the words that can be the
/// answer.
#[derive(Debug, PartialEq, Eq)]
pub struct Dictionaries {
    pub words: Vec<Word>,
    pub valid: Vec<Word>,
}

/// The word lists that two texts hold: the dictionary must hold a word; an
/// empty list of answers stands for the whole dictionary.
pub open spec fn parse_dictionaries(words: Seq<char>, valid: Seq<char>) -> Result<
    (Seq<Word>, Seq<Word>),
    ParseError,
> {
    match parse_lines(words, 0) {
        None => Err(ParseError::Words),
        Some(ws) => if ws.len() == 0 {
            Err(ParseError::NoWords)
        } else {
            match parse_lines(valid, 0) {
                None => Err(ParseError::Words),
                Some(vs) => if vs.len() == 0 {
                    Ok((ws, ws))
                } else {
                    Ok((ws, vs))
                },
            }
        },
    }
}

/// A copy of a word list.
pub fn copy_words(words: &[Word]) -> (r: Vec<Word>)
    ensures
        r@ == words@,
{
    let mut r: Vec<Word> = Vec::new();
    let mut i: usize = 0;
    while i < words.len()
        invariant
            i <= words.len(),
            r@ == words@.take(i as int),
        decreases words.len() - i,
    {
        r.push(words[i]);
        i += 1;
    }
    r
}

/// Reads the two word lists.
pub fn load_dictionaries(words: &str, valid: &str) -> (r: Result<Dictionaries, ParseError>)
    ensures
        match r {
            Ok(d) => parse_dictionaries(words@, valid@) == Ok::<(Seq<Word>, Seq<Word>), ParseError>(
                (d.words@, d.valid@),
            ),
            Err(e) => parse_dictionaries(words@, valid@) == Err::<(Seq<Word>, Seq<Word>), ParseError>(
                e,
            ),
        },
{
    let ws = match parse_words(words) {
        Ok(ws) => ws,
        Err(e) => {
            return Err(e);
        },
    };
    if ws.len() == 0 {
        return Err(ParseError::NoWords);
    }
    let vs = match parse_words(valid) {
        Ok(vs) => vs,
        Err(e) => {
            return Err(e);
        },
    };
    if vs.len() == 0 {
        let vs = copy_words(&ws);
        Ok(Dictionaries { words: ws, valid: vs })
    } else {
        Ok(Dictionaries { words: ws, valid: vs })
    }
}

/// How many entries of a ranking of `n` guesses a report shows.
pub fn shown_guesses(n: usize) -> (r: usize)
    ensures
        r == if n <= SHOWN_GUESSES {
            n
        } else {
            SHOWN_GUESSES
        },
{
    if n <= SHOWN_GUESSES {
        n
    } else {
        SHOWN_GUESSES
    }
}

/// The surviving words, where they are few enough to be listed.
pub fn answers_to_list(state: &MatchState, valid: &[Word]) -> (r: Option<Vec<Word>>)
    ensures
        match r {
            Some(list) => list@ == survivors(state@, valid@) && list@.len() <= LISTED_ANSWERS,
            None => survivors(state@, valid@).len() > LISTED_ANSWERS,
        },
{
    let list = matching_words(state, valid);
    if list.len() <= LISTED_ANSWERS {
        Some(list)
    } else {
        None
    }
}

/// The word of the last win signal among the results, if there is one.
pub open spec fn last_win(results: Seq<ScoreResult>) -> Option<Word>
    decreases results.len(),
{
    if results.len() == 0 {
        None
    } else {
        match results.last() {
            ScoreResult::Win(w) => Some(w),
            ScoreResult::Tallies(_) => last_win(results.drop_last()),
        }
    }
}

/// The tallies of all the results, one shard after the other.
pub open spec fn all_tallies(results: Seq<ScoreResult>) -> Seq<GuessTally>
    decreases results.len(),
{
    if results.len() == 0 {
        Seq::empty()
    } else {
        all_tallies(results.drop_last()) + match results.last() {
            ScoreResult::Win(_) => Seq::empty(),
            ScoreResult::Tallies(scores) => scores@,
        }
    }
}

/// Combines the results of the shards: a win signal from any shard is the
/// result of the run; without one, the tallies follow one another in the
/// order of the shards.
pub fn combine_shards(results: Vec<ScoreResult>) -> (r: ScoreResult)
    ensures
        match r {
            ScoreResult::Win(w) => last_win(results@) == Some(w),
            ScoreResult::Tallies(scores) => last_win(results@) is None && scores@ == all_tallies(
                results@,
            ),
        },
{
    let mut rest = results;
    let mut win: Option<Word> = None;
    let mut scores: Vec<GuessTally> = Vec::new();
    while rest.len() > 0
        invariant
            last_win(results@) == if win is Some {
                win
            } else {
                last_win(rest@)
            },
            all_tallies(results@) == all_tallies(rest@) + scores@,
        decreases rest.len(),
    {
        let ghost before = rest@;
        let ghost tail = scores@;
        match rest.pop() {
            Some(ScoreResult::Win(w)) => {
                if win.is_none() {
                    win = Some(w);
                }
                assert(all_tallies(before) =~= all_tallies(rest@));
            },
            Some(ScoreResult::Tallies(mut v)) => {
                let ghost head = v@;
                v.append(&mut scores);
                scores = v;
                assert(before.drop_last() == rest@);
                assert(all_tallies(before) + tail =~= all_tallies(rest@) + (head + tail));
            },
            None => {},
        }
    }
    match win {
        Some(w) => ScoreResult::Win(w),
        None => {
            assert(all_tallies(rest@) + scores@ =~= scores@);
            ScoreResult::Tallies(scores)
        },
    }
}

/// Where the first shard starts: the shards have `len / threads` guesses
/// each, and the last one takes what is left over as well.
pub open spec fn shard_start(len: int, threads: int, index: int) -> int {
    (len / threads) * index
}

/// Where a shard ends.
pub open spec fn shard_end(len: int, threads: int, index: int) -> int {
    if index + 1 == threads {
        len
    } else {
        (len / threads) * (index + 1)
    }
}

/// The part of a list of `len` guesses that worker `index` of `threads`
/// scores, as the indices where it starts and ends.
pub fn shard_range(len: usize, threads: usize, index: usize) -> (r: (usize, usize))
    requires
        index < threads,
    ensures
        r.0 == shard_start(len as int, threads as int, index as int),
        r.1 == shard_end(len as int, threads as int, index as int),
        r.0 <= r.1 <= len,
{
    let n = len / threads;
    proof {
        lemma_shard_bounds(len as int, threads as int, index as int);
        lemma_shard_bounds(len as int, threads as int, index as int + 1);
    }
    let start = n * index;
    let end = if index + 1 == threads {
        len
    } else {
        n * (index + 1)
    };
    (start, end)
}

proof fn lemma_shard_bounds(len: int, threads: int, index: int)
    requires
        0 <= len,
        0 <= index <= threads,
        0 < threads,
    ensures
        0 <= (len / threads) * index <= len,
        index < threads ==> (len / threads) * index <= (len / threads) * (index + 1),
{
    let n = len / threads;
    assert(0 <= n && n * threads <= len) by (nonlinear_arith)
        requires
            n == len / threads,
            0 <= len,
            0 < threads,
    ;
    assert(0 <= n * index <= n * threads) by (nonlinear_arith)
        requires
            0 <= n,
            0 <= index <= threads,
    ;
    assert(n * index <= n * (index + 1)) by (nonlinear_arith)
        requires
            0 <= n,
    ;
}

/// The shards follow one another without gap or overlap, from the first
/// guess to the last.
pub proof fn lemma_shards_cover(len: int, threads: int, index: int)
    requires
        0 <= len,
        0 <= index < threads,
    ensures
        shard_start(len, threads, 0) == 0,
        0 <= shard_start(len, threads, index) <= shard_end(len, threads, index) <= len,
        index + 1 < threads ==> shard_end(len, threads, index) == shard_start(
            len,
            threads,
            index + 1,
        ),
        index + 1 == threads ==> shard_end(len, threads, index) == len,
{
    lemma_shard_bounds(len, threads, index);
    lemma_shard_bounds(len, threads, index + 1);
}

} // verus!

//! Words and feedback rows as text.
//!
//! A feedback row is five tokens of three characters with one space between
//! each two: `{x}` marks `x` Gray, `[x]` marks it Yellow, and `x` between
//! any other two characters marks it Green. A word list holds one word of
//! five letters on each line.
use vstd::prelude::*;
use crate::chars::{
    blank, chars_of, find, find_char, is_blank, is_letter_char, lemma_find_is_first, letter_of,
    push_char, symbol_char, trim, trim_chars, ParseError,
};
use crate::feedback::{CharMatch, WordMatch};
use crate::word::{is_letter, Word};

verus! {

impl Word {
    /// The word as text: the character of each symbol.
    pub open spec fn text(self) -> Seq<char> {
        Seq::new(5, |i: int| symbol_char(self@[i]))
    }

    /// The word as text.
    pub fn to_text(&self) -> (s: String)
        ensures
            s@ == self.text(),
    {
        let mut s = String::new();
        let mut i: usize = 0;
        while i < 5
            invariant
                i <= 5,
                s@ == self.text().take(i as int),
            decreases 5 - i,
        {
            push_char(&mut s, self.0[i] as char);
            assert(s@ =~= self.text().take(i + 1));
            i += 1;
        }
        assert(self.text().take(5) =~= self.text());
        s
    }
}

/// Token `k` of a feedback text is well formed: a letter in the middle, no
/// white space around it, and a bracket or brace is closed by its partner.
pub open spec fn token_ok(u: Seq<char>, k: int) -> bool {
    let open = u[4 * k];
    let close = u[4 * k + 2];
    &&& is_letter_char(u[4 * k + 1])
    &&& !is_blank(open)
    &&& !is_blank(close)
    &&& open == '[' ==> close == ']'
    &&& open == '{' ==> close == '}'
}

/// The mark that token `k` gives.
pub open spec fn token_mark(u: Seq<char>, k: int) -> CharMatch {
    if u[4 * k] == '[' {
        CharMatch::Yellow
    } else if u[4 * k] == '{' {
        CharMatch::Gray
    } else {
        CharMatch::Green
    }
}

/// The text is five well-formed tokens with one space between each two.
pub open spec fn is_row_text(u: Seq<char>) -> bool {
    &&& u.len() == 19
    &&& forall|k: int| 0 <= k < 4 ==> #[trigger] u[4 * k + 3] == ' '
    &&& forall|k: int| 0 <= k < 5 ==> #[trigger] token_ok(u, k)
}

/// The row that a well-formed feedback text holds.
pub open spec fn row_of(u: Seq<char>) -> WordMatch {
    WordMatch {
        cm: [
            token_mark(u, 0),
            token_mark(u, 1),
            token_mark(u, 2),
            token_mark(u, 3),
            token_mark(u, 4),
        ],
        word: Word([u[1] as u8, u[5] as u8, u[9] as u8, u[13] as u8, u[17] as u8]),
    }
}

/// The row that a text holds once the white space around it is dropped.
pub open spec fn parse_row(t: Seq<char>) -> Result<WordMatch, ParseError> {
    if is_row_text(trim(t)) {
        Ok(row_of(trim(t)))
    } else {
        Err(ParseError::Row)
    }
}

/// The word that a line holds, if it is five letters.
pub open spec fn word_of(line: Seq<char>) -> Option<Word> {
    if line.len() == 5 && forall|i: int| 0 <= i < 5 ==> is_letter_char(#[trigger] line[i]) {
        Some(Word([line[0] as u8, line[1] as u8, line[2] as u8, line[3] as u8, line[4] as u8]))
    } else {
        None
    }
}

/// The line that starts at `from`: it ends before the next line feed, or
/// before the carriage return in front of that line feed, or at the end of
/// the text.
pub open spec fn line_at(t: Seq<char>, from: int) -> Seq<char> {
    let e = find(t, '\n', from);
    if e < t.len() && from < e && t[e - 1] == '\r' {
        t.subrange(from, e - 1)
    } else {
        t.subrange(from, e)
    }
}

/// The words on the lines of `t` from `from` on, if every such line holds a
/// word. A line feed at the very end starts no further line.
pub open spec fn parse_lines(t: Seq<char>, from: int) -> Option<Seq<Word>>
    decreases t.len() + 1 - from,
    when 0 <= from
{
    if from >= t.len() {
        Some(Seq::empty())
    } else {
        proof {
            lemma_find_is_first(t, '\n', from);
        }
        match (word_of(line_at(t, from)), parse_lines(t, find(t, '\n', from) + 1)) {
            (Some(w), Some(rest)) => Some(seq![w] + rest),
            _ => None,
        }
    }
}

impl WordMatch {
    /// Reads a feedback row from its text, white space around it dropped.
    pub fn deserialize(input: &str) -> (r: Result<WordMatch, ParseError>)
        ensures
            r == parse_row(input@),
    {
        WordMatch::from_chars(&chars_of(input))
    }

    /// Reads a feedback row from the characters of its text.
    pub fn from_chars(t: &Vec<char>) -> (r: Result<WordMatch, ParseError>)
        ensures
            r == parse_row(t@),
    {
        let u = trim_chars(t);
        if u.len() != 19 {
            return Err(ParseError::Row);
        }
        let mut new = WordMatch { cm: [CharMatch::Gray; 5], word: Word([0; 5]) };
        let mut k: usize = 0;
        while k < 5
            invariant
                k <= 5,
                u@ == trim(t@),
                u@.len() == 19,
                forall|j: int| 0 <= j < k && j < 4 ==> #[trigger] u@[4 * j + 3] == ' ',
                forall|j: int| 0 <= j < k ==> #[trigger] token_ok(u@, j),
                forall|j: int| 0 <= j < k ==> new.cm@[j] == token_mark(u@, j),
                forall|j: int| 0 <= j < k ==> new.word@[j] == u@[4 * j + 1] as u8,
            decreases 5 - k,
        {
            let open = u[4 * k];
            let close = u[4 * k + 2];
            let c = match letter_of(u[4 * k + 1]) {
                Some(c) => c,
                None => {
                    assert(!token_ok(u@, k as int));
                    return Err(ParseError::Row);
                },
            };
            if blank(open) || blank(close) || (open == '[' && close != ']') || (open == '{'
                && close != '}') {
                assert(!token_ok(u@, k as int));
                return Err(ParseError::Row);
            }
            if k < 4 && u[4 * k + 3] != ' ' {
                assert(!(u@[4 * (k as int) + 3] == ' '));
                return Err(ParseError::Row);
            }
            let ghost before = new.word@;
            new.word.0[k] = c;
            assert(new.word@ == before.update(k as int, c));
            new.cm[k] = if open == '[' {
                CharMatch::Yellow
            } else if open == '{' {
                CharMatch::Gray
            } else {
                CharMatch::Green
            };
            k += 1;
        }
        proof {
            let want = row_of(u@);
            assert(new.cm =~= want.cm);
            assert(new.word@[0] == u@[1] as u8);
            assert(new.word@[1] == u@[5] as u8);
            assert(new.word@[2] == u@[9] as u8);
            assert(new.word@[3] == u@[13] as u8);
            assert(new.word@[4] == u@[17] as u8);
            assert(new.word.0 =~= want.word.0);
        }
        Ok(new)
    }
}

/// Reads a word list: one word of five letters on each line.
pub fn parse_words(input: &str) -> (r: Result<Vec<Word>, ParseError>)
    ensures
        match r {
            Ok(words) => parse_lines(input@, 0) == Some(words@),
            Err(e) => e == ParseError::Words && parse_lines(input@, 0) is None,
        },
{
    let t = chars_of(input);
    let n = t.len();
    let mut words: Vec<Word> = Vec::new();
    let mut i: usize = 0;
    while i < n
        invariant
            i <= n,
            n == t@.len(),
            t@ == input@,
            parse_lines(t@, 0) == match parse_lines(t@, i as int) {
                Some(rest) => Some(words@ + rest),
                None => None,
            },
        decreases n - i,
    {
        let e = find_char(&t, '\n', i);
        let end = if e < n && i < e && t[e - 1] == '\r' {
            e - 1
        } else {
            e
        };
        let ghost line = line_at(t@, i as int);
        assert(line == t@.subrange(i as int, end as int));
        if end - i != 5 {
            return Err(ParseError::Words);
        }
        let mut w = Word([0; 5]);
        let mut j: usize = 0;
        assert(word_of(line) is None ==> parse_lines(input@, 0) is None);
        while j < 5
            invariant
                j <= 5,
                word_of(line) is None ==> parse_lines(input@, 0) is None,
                i + 5 == end <= n,
                n == t@.len(),
                line == t@.subrange(i as int, end as int),
                forall|x: int| 0 <= x < j ==> is_letter_char(#[trigger] line[x]),
                forall|x: int| 0 <= x < j ==> w@[x] == line[x] as u8,
            decreases 5 - j,
        {
            match letter_of(t[i + j]) {
                Some(c) => {
                    let ghost before = w@;
                    w.0[j] = c;
                    assert(w@ == before.update(j as int, c));
                    assert(line[j as int] == t@[i + j]);
                },
                None => {
                    assert(!is_letter_char(line[j as int]));
                    return Err(ParseError::Words);
                },
            }
            j += 1;
        }
        proof {
            let want = word_of(line)->0;
            assert(w@[0] == line[0] as u8 && w@[1] == line[1] as u8 && w@[2] == line[2] as u8);
            assert(w@[3] == line[3] as u8 && w@[4] == line[4] as u8);
            assert(w.0 =~= want.0);
            let rest = parse_lines(t@, e + 1);
            if rest is Some {
                assert(words@.push(w) + rest->0 =~= words@ + (seq![w] + rest->0));
            }
        }
        words.push(w);
        if e < n {
            i = e + 1;
        } else {
            i = n;
        }
    }
    assert(words@ + Seq::<Word>::empty() =~= words@);
    Ok(words)
}

/// The text of a word over the alphabet reads back as that word.
pub proof fn lemma_word_round_trip(w: Word)
    requires
        w.is_alphabetic(),
    ensures
        word_of(w.text()) == Some(w),
{
    let line = w.text();
    assert forall|i: int| 0 <= i < 5 implies is_letter_char(#[trigger] line[i]) by {
        assert(is_letter(w@[i]));
    }
    let got = word_of(line)->0;
    assert(got.0 =~= w.0) by {
        assert(is_letter(w@[0]) && is_letter(w@[1]));
        assert(is_letter(w@[2]) && is_letter(w@[3]));
        assert(is_letter(w@[4]));
    }
}

/// A line that reads as a word reads as a word over the alphabet.
pub proof fn lemma_word_of_is_alphabetic(line: Seq<char>)
    requires
        word_of(line) is Some,
    ensures
        word_of(line)->0.is_alphabetic(),
        word_of(line)->0.text() == line,
{
    let w = word_of(line)->0;
    assert forall|i: int| 0 <= i < 5 implies is_letter(#[trigger] w@[i]) by {
        assert(is_letter_char(line[i]));
    }
    assert forall|i: int| 0 <= i < 5 implies w.text()[i] == line[i] by {
        assert(is_letter_char(line[i]));
    }
    assert(w.text() =~= line);
}

/// A text that reads as a feedback row gives a row whose word is over the
/// alphabet.
pub proof fn lemma_row_is_alphabetic(t: Seq<char>)
    requires
        parse_row(t) is Ok,
    ensures
        parse_row(t)->Ok_0.word.is_alphabetic(),
{
    let u = trim(t);
    let w = row_of(u).word;
    assert forall|i: int| 0 <= i < 5 implies is_letter(#[trigger] w@[i]) by {
        assert(token_ok(u, i));
    }
}

} // verus!

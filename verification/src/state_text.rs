//! The one-line text of a state: `{a b}[c d](e [f,g] [] [h] i)`.
//!
//! Between the braces stand the symbols known to be absent, between the
//! brackets those known to occur somewhere, each list separated by spaces.
//! Between the parentheses stand five position descriptors separated by
//! spaces: a bare symbol for a known position, or `[a,b,c]` for the symbols
//! that an open position denies.
use vstd::prelude::*;
use crate::chars::{
    chars_of, find, find_char, is_letter_char, lemma_find, lemma_find_is_first, letter_of,
    list_of, list_text, parse_list, push_char, push_list, read_list, slice_of, symbol_char,
    ParseError,
};
use crate::feedback::WordMatch;
use crate::merge::lemma_merge_well_formed;
use crate::state::{lemma_empty_state, CharInfo, CharInfoView, Knowledge, MatchState};
use crate::word::is_letter;

verus! {

impl CharInfoView {
    /// The descriptor of one position.
    pub open spec fn text(self) -> Seq<char> {
        match self {
            CharInfoView::Is(b) => seq![symbol_char(b)],
            CharInfoView::Not(not) => seq!['['] + list_text(not, ',') + seq![']'],
        }
    }
}

/// The five descriptors, separated by spaces.
pub open spec fn positions_text(chars: Seq<CharInfoView>) -> Seq<char> {
    chars[0].text() + seq![' '] + chars[1].text() + seq![' '] + chars[2].text() + seq![' ']
        + chars[3].text() + seq![' '] + chars[4].text()
}

impl Knowledge {
    /// The text of the state.
    pub open spec fn text(self) -> Seq<char> {
        seq!['{'] + list_text(self.nowhere, ' ') + seq!['}', '['] + list_text(self.somewhere, ' ')
            + seq![']', '('] + positions_text(self.chars) + seq![')']
    }
}

/// The position that a descriptor describes, if it is one.
pub open spec fn parse_position(d: Seq<char>) -> Option<CharInfoView> {
    if d.len() == 1 && is_letter_char(d[0]) {
        Some(CharInfoView::Is(d[0] as u8))
    } else if d.len() >= 2 && d[0] == '[' && d.last() == ']' {
        match parse_list(d.subrange(1, d.len() - 1), ',') {
            Some(not) => Some(CharInfoView::Not(not)),
            None => None,
        }
    } else {
        None
    }
}

/// The descriptor that starts at `from` and ends before the next space.
pub open spec fn descriptor_at(f: Seq<char>, from: int) -> Seq<char> {
    f.subrange(from, find(f, ' ', from))
}

/// The five positions that a text describes, if it is five descriptors with
/// one space between each two.
pub open spec fn parse_positions(f: Seq<char>) -> Option<Seq<CharInfoView>> {
    let e0 = find(f, ' ', 0);
    let e1 = find(f, ' ', e0 + 1);
    let e2 = find(f, ' ', e1 + 1);
    let e3 = find(f, ' ', e2 + 1);
    let e4 = find(f, ' ', e3 + 1);
    let pos0 = parse_position(descriptor_at(f, 0));
    let pos1 = parse_position(descriptor_at(f, e0 + 1));
    let pos2 = parse_position(descriptor_at(f, e1 + 1));
    let pos3 = parse_position(descriptor_at(f, e2 + 1));
    let pos4 = parse_position(descriptor_at(f, e3 + 1));
    if e3 < f.len() && e4 == f.len() && pos0 is Some && pos1 is Some && pos2 is Some && pos3 is Some
        && pos4 is Some {
        Some(seq![pos0->0, pos1->0, pos2->0, pos3->0, pos4->0])
    } else {
        None
    }
}

/// The text has the frame of a state text: `{`, a first `}` followed by `[`,
/// a first `]` after that followed by `(`, and `)` as its last character.
pub open spec fn has_frame(t: Seq<char>) -> bool {
    let a = find(t, '}', 0);
    let b = find(t, ']', a + 2);
    &&& t[0] == '{'
    &&& a + 1 < t.len()
    &&& t[a + 1] == '['
    &&& b + 2 < t.len()
    &&& t[b + 1] == '('
    &&& t.last() == ')'
}

/// The state that a text holds, or the field at which reading it fails. The
/// empty text holds the empty state.
pub open spec fn parse_state(t: Seq<char>) -> Result<Knowledge, ParseError> {
    let a = find(t, '}', 0);
    let b = find(t, ']', a + 2);
    if t.len() == 0 {
        Ok(Knowledge::empty())
    } else if !has_frame(t) {
        Err(ParseError::Frame)
    } else {
        match parse_list(t.subrange(1, a), ' ') {
            None => Err(ParseError::Nowhere),
            Some(nowhere) => match parse_list(t.subrange(a + 2, b), ' ') {
                None => Err(ParseError::Somewhere),
                Some(somewhere) => match parse_positions(t.subrange(b + 2, t.len() - 1)) {
                    None => Err(ParseError::Positions),
                    Some(chars) => Ok(Knowledge { chars, nowhere, somewhere }),
                },
            },
        }
    }
}

/// Appends the descriptor of one position.
fn push_position(out: &mut String, c: &CharInfo)
    ensures
        final(out)@ == old(out)@ + c@.text(),
{
    match c {
        CharInfo::Is(is) => {
            push_char(out, *is as char);
            assert(out@ =~= old(out)@ + c@.text());
        },
        CharInfo::Not(not) => {
            push_char(out, '[');
            push_list(out, not, ',');
            push_char(out, ']');
            assert(out@ =~= old(out)@ + c@.text());
        },
    }
}

/// Reads the descriptor of one position.
fn read_position(d: &Vec<char>) -> (r: Option<CharInfo>)
    ensures
        match r {
            Some(c) => parse_position(d@) == Some(c@),
            None => parse_position(d@) is None,
        },
{
    if d.len() == 1 {
        match letter_of(d[0]) {
            Some(b) => Some(CharInfo::Is(b)),
            None => None,
        }
    } else if d.len() >= 2 && d[0] == '[' && d[d.len() - 1] == ']' {
        let inner = slice_of(d, 1, d.len() - 1);
        match read_list(&inner, ',') {
            Some(not) => Some(CharInfo::Not(not)),
            None => None,
        }
    } else {
        None
    }
}

/// Reads the descriptor that starts at `from`, and tells where it ends.
fn read_descriptor(f: &Vec<char>, from: usize) -> (r: (Option<CharInfo>, usize))
    requires
        from <= f.len(),
    ensures
        r.1 == find(f@, ' ', from as int),
        from <= r.1 <= f.len(),
        match r.0 {
            Some(c) => parse_position(descriptor_at(f@, from as int)) == Some(c@),
            None => parse_position(descriptor_at(f@, from as int)) is None,
        },
{
    let end = find_char(f, ' ', from);
    let d = slice_of(f, from, end);
    (read_position(&d), end)
}

/// Reads five descriptors with one space between each two.
fn read_positions(f: &Vec<char>) -> (r: Option<[CharInfo; 5]>)
    ensures
        match r {
            Some(chars) => parse_positions(f@) == Some(Seq::new(5, |i: int| chars@[i]@)),
            None => parse_positions(f@) is None,
        },
{
    let (pos0, e0) = read_descriptor(f, 0);
    if e0 >= f.len() {
        proof {
            lemma_find_stays_at_end(f@, e0 + 1);
        }
        return None;
    }
    let (pos1, e1) = read_descriptor(f, e0 + 1);
    if e1 >= f.len() {
        proof {
            lemma_find_stays_at_end(f@, e1 + 1);
        }
        return None;
    }
    let (pos2, e2) = read_descriptor(f, e1 + 1);
    if e2 >= f.len() {
        proof {
            lemma_find_stays_at_end(f@, e2 + 1);
        }
        return None;
    }
    let (pos3, e3) = read_descriptor(f, e2 + 1);
    if e3 >= f.len() {
        return None;
    }
    let (pos4, e4) = read_descriptor(f, e3 + 1);
    if e4 < f.len() {
        return None;
    }
    match (pos0, pos1, pos2, pos3, pos4) {
        (Some(c0), Some(c1), Some(c2), Some(c3), Some(c4)) => {
            let chars = [c0, c1, c2, c3, c4];
            assert(Seq::new(5, |i: int| chars@[i]@) =~= parse_positions(f@)->0);
            Some(chars)
        },
        _ => None,
    }
}

/// Past the end of the text `find` stays at the end.
proof fn lemma_find_stays_at_end(f: Seq<char>, from: int)
    requires
        from >= f.len(),
    ensures
        find(f, ' ', from) == f.len(),
        find(f, ' ', f.len() as int + 1) == f.len(),
{
}

impl MatchState {
    /// The text of the state.
    pub fn serialize(&self) -> (buffer: String)
        ensures
            buffer@ == self@.text(),
    {
        let mut buffer = String::new();
        push_char(&mut buffer, '{');
        push_list(&mut buffer, &self.nowhere, ' ');
        push_char(&mut buffer, '}');
        push_char(&mut buffer, '[');
        push_list(&mut buffer, &self.somewhere, ' ');
        push_char(&mut buffer, ']');
        push_char(&mut buffer, '(');
        let ghost head = buffer@;
        push_position(&mut buffer, &self.chars[0]);
        push_char(&mut buffer, ' ');
        push_position(&mut buffer, &self.chars[1]);
        push_char(&mut buffer, ' ');
        push_position(&mut buffer, &self.chars[2]);
        push_char(&mut buffer, ' ');
        push_position(&mut buffer, &self.chars[3]);
        push_char(&mut buffer, ' ');
        push_position(&mut buffer, &self.chars[4]);
        assert(buffer@ =~= head + positions_text(self@.chars));
        push_char(&mut buffer, ')');
        assert(buffer@ =~= self@.text());
        buffer
    }

    /// Reads a state from its text. The empty text gives the empty state;
    /// any other text must be the full form, and where it is not, the error
    /// names the first field that cannot be read.
    pub fn deserialize(input: &str) -> (r: Result<MatchState, ParseError>)
        ensures
            match r {
                Ok(state) => parse_state(input@) == Ok::<Knowledge, ParseError>(state@),
                Err(e) => parse_state(input@) == Err::<Knowledge, ParseError>(e),
            },
    {
        MatchState::from_chars(&chars_of(input))
    }

    /// Reads a state from the characters of its text.
    pub fn from_chars(t: &Vec<char>) -> (r: Result<MatchState, ParseError>)
        ensures
            match r {
                Ok(state) => parse_state(t@) == Ok::<Knowledge, ParseError>(state@),
                Err(e) => parse_state(t@) == Err::<Knowledge, ParseError>(e),
            },
    {
        let n = t.len();
        if n == 0 {
            return Ok(MatchState::empty());
        }
        let a = find_char(t, '}', 0);
        if t[0] != '{' || a >= n - 1 || t[a + 1] != '[' {
            return Err(ParseError::Frame);
        }
        proof {
            lemma_find_is_first(t@, '}', 0);
        }
        let b = find_char(t, ']', a + 2);
        if b >= n - 2 || t[b + 1] != '(' || t[n - 1] != ')' {
            return Err(ParseError::Frame);
        }
        let nowhere = match read_list(&slice_of(t, 1, a), ' ') {
            Some(v) => v,
            None => {
                return Err(ParseError::Nowhere);
            },
        };
        let somewhere = match read_list(&slice_of(t, a + 2, b), ' ') {
            Some(v) => v,
            None => {
                return Err(ParseError::Somewhere);
            },
        };
        let chars = match read_positions(&slice_of(t, b + 2, n - 1)) {
            Some(c) => c,
            None => {
                return Err(ParseError::Positions);
            },
        };
        let state = MatchState { chars, nowhere, somewhere };
        assert(state@.chars =~= parse_positions(t@.subrange(b + 2, n - 1))->0);
        Ok(state)
    }
}

/// The text of a list of letters reads back as that list, and holds nothing
/// but letters and the separator.
pub proof fn lemma_list_round_trip(s: Seq<u8>, sep: char)
    requires
        forall|k: int| 0 <= k < s.len() ==> is_letter(#[trigger] s[k]),
    ensures
        parse_list(list_text(s, sep), sep) == Some(s),
        forall|i: int|
            0 <= i < list_text(s, sep).len() ==> is_letter_char(#[trigger] list_text(s, sep)[i])
                || list_text(s, sep)[i] == sep,
{
    let t = list_text(s, sep);
    assert forall|i: int| 0 <= i < t.len() implies if i % 2 == 0 {
        is_letter_char(#[trigger] t[i])
    } else {
        t[i] == sep
    } by {
        if i % 2 == 0 {
            assert(is_letter(s[i / 2]));
        }
    }
    assert(list_of(t) =~= s) by {
        assert forall|k: int| 0 <= k < s.len() implies t[2 * k] as u8 == s[k] by {
            assert(is_letter(s[k]));
            assert((2 * k) / 2 == k);
        }
    }
}

/// The descriptor of a position over the alphabet reads back as that
/// position, and holds no space.
pub proof fn lemma_position_round_trip(p: CharInfoView)
    requires
        p.is_alphabetic(),
    ensures
        parse_position(p.text()) == Some(p),
        p.text().len() >= 1,
        forall|i: int| 0 <= i < p.text().len() ==> #[trigger] p.text()[i] != ' ',
{
    match p {
        CharInfoView::Is(b) => {},
        CharInfoView::Not(not) => {
            lemma_list_round_trip(not, ',');
            let d = p.text();
            let inner = list_text(not, ',');
            assert(d.subrange(1, d.len() - 1) =~= inner);
            assert forall|i: int| 0 <= i < d.len() implies #[trigger] d[i] != ' ' by {
                if 1 <= i < d.len() - 1 {
                    assert(d[i] == inner[i - 1]);
                }
            }
        },
    }
}

/// Where the descriptor `d` stands in `f` at `from`, followed by a space or
/// by the end, it is the descriptor that is read there.
proof fn lemma_descriptor(f: Seq<char>, from: int, d: Seq<char>)
    requires
        0 <= from,
        from + d.len() <= f.len(),
        f.subrange(from, from + d.len()) == d,
        forall|i: int| 0 <= i < d.len() ==> #[trigger] d[i] != ' ',
        from + d.len() < f.len() ==> f[from + d.len()] == ' ',
    ensures
        find(f, ' ', from) == from + d.len(),
        descriptor_at(f, from) == d,
{
    assert forall|j: int| from <= j < from + d.len() implies f[j] != ' ' by {
        assert(f[j] == d[j - from]);
    }
    lemma_find(f, ' ', from, from + d.len());
}

/// Five descriptors over the alphabet, with a space between each two, read
/// back as the five positions.
pub proof fn lemma_positions_round_trip(chars: Seq<CharInfoView>)
    requires
        chars.len() == 5,
        forall|i: int| 0 <= i < 5 ==> (#[trigger] chars[i]).is_alphabetic(),
    ensures
        parse_positions(positions_text(chars)) == Some(chars),
{
    let f = positions_text(chars);
    let d0 = chars[0].text();
    let d1 = chars[1].text();
    let d2 = chars[2].text();
    let d3 = chars[3].text();
    let d4 = chars[4].text();
    lemma_position_round_trip(chars[0]);
    lemma_position_round_trip(chars[1]);
    lemma_position_round_trip(chars[2]);
    lemma_position_round_trip(chars[3]);
    lemma_position_round_trip(chars[4]);
    let s1: int = d0.len() as int + 1;
    let s2: int = s1 + d1.len() + 1;
    let s3: int = s2 + d2.len() + 1;
    let s4: int = s3 + d3.len() + 1;
    assert(f.len() == s4 + d4.len());
    assert(f.subrange(0, d0.len() as int) =~= d0);
    assert(f.subrange(s1, s1 + d1.len()) =~= d1);
    assert(f.subrange(s2, s2 + d2.len()) =~= d2);
    assert(f.subrange(s3, s3 + d3.len()) =~= d3);
    assert(f.subrange(s4, s4 + d4.len()) =~= d4);
    assert(f[s1 - 1] == ' ');
    assert(f[s2 - 1] == ' ');
    assert(f[s3 - 1] == ' ');
    assert(f[s4 - 1] == ' ');
    lemma_descriptor(f, 0, d0);
    lemma_descriptor(f, s1, d1);
    lemma_descriptor(f, s2, d2);
    lemma_descriptor(f, s3, d3);
    lemma_descriptor(f, s4, d4);
    assert(parse_positions(f)->0 =~= chars);
}

proof fn lemma_alphabetic_round_trip(k: Knowledge)
    requires
        k.well_formed(),
        k.is_alphabetic(),
    ensures
        parse_state(k.text()) == Ok::<Knowledge, ParseError>(k),
{
    let t = k.text();
    let n = list_text(k.nowhere, ' ');
    let s = list_text(k.somewhere, ' ');
    let p = positions_text(k.chars);
    lemma_list_round_trip(k.nowhere, ' ');
    lemma_list_round_trip(k.somewhere, ' ');
    lemma_positions_round_trip(k.chars);
    let a: int = 1 + n.len() as int;
    let b: int = a + 2 + s.len();
    assert(t.len() == b + 2 + p.len() + 1);
    assert(t[0] == '{');
    assert(t[a] == '}');
    assert(t[a + 1] == '[');
    assert(t[b] == ']');
    assert(t[b + 1] == '(');
    assert(t.last() == ')');
    assert forall|j: int| 0 <= j < a implies t[j] != '}' by {
        if j >= 1 {
            assert(t[j] == n[j - 1]);
        }
    }
    lemma_find(t, '}', 0, a);
    assert forall|j: int| a + 2 <= j < b implies t[j] != ']' by {
        assert(t[j] == s[j - a - 2]);
    }
    lemma_find(t, ']', a + 2, b);
    lemma_position_round_trip(k.chars[0]);
    assert(p.len() >= 1);
    assert(t.subrange(1, a) =~= n);
    assert(t.subrange(a + 2, b) =~= s);
    assert(t.subrange(b + 2, t.len() - 1) =~= p);
    assert(has_frame(t));
}

/// A text that reads as a list is the text of the list it reads as, and
/// that list is over the alphabet.
pub proof fn lemma_list_text_exact(t: Seq<char>, sep: char)
    requires
        parse_list(t, sep) is Some,
    ensures
        list_text(parse_list(t, sep)->0, sep) == t,
        forall|k: int|
            0 <= k < parse_list(t, sep)->0.len() ==> is_letter(
                #[trigger] parse_list(t, sep)->0[k],
            ),
{
    let s = parse_list(t, sep)->0;
    assert forall|k: int| 0 <= k < s.len() implies is_letter(#[trigger] s[k]) by {
        assert(is_letter_char(t[2 * k]));
    }
    assert forall|i: int| 0 <= i < t.len() implies list_text(s, sep)[i] == t[i] by {
        if i % 2 == 0 {
            assert(is_letter_char(t[i]));
            assert(2 * (i / 2) == i);
        }
    }
    assert(list_text(s, sep) =~= t);
}

/// A descriptor that reads as a position is the text of that position.
pub proof fn lemma_position_text_exact(d: Seq<char>)
    requires
        parse_position(d) is Some,
    ensures
        parse_position(d)->0.text() == d,
        parse_position(d)->0.is_alphabetic(),
{
    if d.len() == 1 && is_letter_char(d[0]) {
        assert(parse_position(d)->0.text() =~= d);
    } else {
        let inner = d.subrange(1, d.len() - 1);
        lemma_list_text_exact(inner, ',');
        assert(parse_position(d)->0.text() =~= d);
    }
}

/// A text that reads as five positions is the text of those positions.
pub proof fn lemma_positions_text_exact(f: Seq<char>)
    requires
        parse_positions(f) is Some,
    ensures
        positions_text(parse_positions(f)->0) == f,
        parse_positions(f)->0.len() == 5,
        forall|i: int| 0 <= i < 5 ==> (#[trigger] parse_positions(f)->0[i]).is_alphabetic(),
{
    let e0 = find(f, ' ', 0);
    lemma_find_is_first(f, ' ', 0);
    let e1 = find(f, ' ', e0 + 1);
    lemma_find_is_first(f, ' ', e0 + 1);
    let e2 = find(f, ' ', e1 + 1);
    lemma_find_is_first(f, ' ', e1 + 1);
    let e3 = find(f, ' ', e2 + 1);
    lemma_find_is_first(f, ' ', e2 + 1);
    lemma_find_is_first(f, ' ', e3 + 1);
    lemma_position_text_exact(descriptor_at(f, 0));
    lemma_position_text_exact(descriptor_at(f, e0 + 1));
    lemma_position_text_exact(descriptor_at(f, e1 + 1));
    lemma_position_text_exact(descriptor_at(f, e2 + 1));
    lemma_position_text_exact(descriptor_at(f, e3 + 1));
    assert(positions_text(parse_positions(f)->0) =~= f);
}

/// A text that reads as a state is the empty text or the text of the state
/// it reads as; that state has its five positions and is over the alphabet.
pub proof fn lemma_state_text_exact(t: Seq<char>)
    requires
        parse_state(t) is Ok,
    ensures
        t.len() > 0 ==> parse_state(t)->Ok_0.text() == t,
        parse_state(t)->Ok_0.well_formed(),
        parse_state(t)->Ok_0.is_alphabetic(),
{
    if t.len() > 0 {
        let k = parse_state(t)->Ok_0;
        let a = find(t, '}', 0);
        let b = find(t, ']', a + 2);
        lemma_find_is_first(t, '}', 0);
        lemma_find_is_first(t, ']', a + 2);
        lemma_list_text_exact(t.subrange(1, a), ' ');
        lemma_list_text_exact(t.subrange(a + 2, b), ' ');
        lemma_positions_text_exact(t.subrange(b + 2, t.len() - 1));
        assert(k.text() =~= t);
    }
}

/// Round trip: the text of a state reads back as that state exactly when
/// the state is over the alphabet. Every state reached from the empty state
/// by merging rows whose words are over the alphabet is such a state.
pub proof fn lemma_state_round_trip(k: Knowledge)
    requires
        k.well_formed(),
    ensures
        parse_state(k.text()) == Ok::<Knowledge, ParseError>(k) <==> k.is_alphabetic(),
{
    if k.is_alphabetic() {
        lemma_alphabetic_round_trip(k);
    }
    if parse_state(k.text()) == Ok::<Knowledge, ParseError>(k) {
        lemma_state_text_exact(k.text());
    }
}

impl Knowledge {
    /// The knowledge after the rows of `rows`, merged one after the other.
    pub open spec fn merge_all(self, rows: Seq<WordMatch>) -> Knowledge
        decreases rows.len(),
    {
        if rows.len() == 0 {
            self
        } else {
            self.merge_all(rows.drop_last()).merge(rows.last())
        }
    }
}

/// Round trip of every state that is reached from the empty state by
/// merging: where the words of the rows are over the alphabet, the text of
/// the state reads back as the state.
pub proof fn lemma_reached_round_trip(rows: Seq<WordMatch>)
    requires
        forall|i: int| 0 <= i < rows.len() ==> (#[trigger] rows[i]).word.is_alphabetic(),
    ensures
        Knowledge::empty().merge_all(rows).well_formed(),
        Knowledge::empty().merge_all(rows).is_alphabetic(),
        parse_state(Knowledge::empty().merge_all(rows).text()) == Ok::<Knowledge, ParseError>(
            Knowledge::empty().merge_all(rows),
        ),
    decreases rows.len(),
{
    let empty = Knowledge::empty();
    if rows.len() == 0 {
        lemma_empty_state();
    } else {
        let before = rows.drop_last();
        assert forall|i: int| 0 <= i < before.len() implies (#[trigger] before[i]).word.is_alphabetic() by {
            assert(rows[i].word.is_alphabetic());
        }
        lemma_reached_round_trip(before);
        assert(rows[rows.len() - 1].word.is_alphabetic());
        lemma_merge_well_formed(empty.merge_all(before), rows.last());
    }
    lemma_state_round_trip(empty.merge_all(rows));
}

} // verus!

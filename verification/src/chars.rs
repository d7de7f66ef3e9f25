//! Text as a sequence of characters: the pieces that the encodings share.
use vstd::prelude::*;
use crate::word::is_letter;

verus! {

/// Why a text was refused.
#[derive(Clone, Copy, Debug, PartialEq, Eq, Structural)]
pub enum ParseError {
    /// A state text lacks its frame `{..}[..](..)`.
    Frame,
    /// The list between `{` and `}` is not a list of letters.
    Nowhere,
    /// The list between `[` and `]` is not a list of letters.
    Somewhere,
    /// The part between `(` and `)` is not five position descriptors.
    Positions,
    /// A feedback text is not five tokens of three characters.
    Row,
    /// A line of a word list is not a word of five letters.
    Words,
    /// A word list holds no word.
    NoWords,
    /// An exchange text lacks the `;` between state and feedback.
    Exchange,
}

/// The character that stands for a symbol in text.
pub open spec fn symbol_char(b: u8) -> char {
    b as char
}

/// The character is one of the letters `a` to `z`.
pub open spec fn is_letter_char(c: char) -> bool {
    'a' <= c <= 'z'
}

/// White space, as `str::trim` understands it: the characters with the
/// Unicode property White_Space.
pub open spec fn is_blank(c: char) -> bool {
    let u = c as u32;
    ||| 0x09 <= u <= 0x0d
    ||| u == 0x20
    ||| u == 0x85
    ||| u == 0xa0
    ||| u == 0x1680
    ||| 0x2000 <= u <= 0x200a
    ||| u == 0x2028
    ||| u == 0x2029
    ||| u == 0x202f
    ||| u == 0x205f
    ||| u == 0x3000
}

/// The first index at or after `from` where `c` stands in `t`, or the length
/// of `t` where it stands nowhere from there on.
pub open spec fn find(t: Seq<char>, c: char, from: int) -> int
    decreases t.len() - from,
{
    if from >= t.len() {
        t.len() as int
    } else if t[from] == c {
        from
    } else {
        find(t, c, from + 1)
    }
}

/// The first index at or after `from` that holds no white space, or the
/// length of `t`.
pub open spec fn skip_blank(t: Seq<char>, from: int) -> int
    decreases t.len() - from,
{
    if 0 <= from < t.len() && is_blank(t[from]) {
        skip_blank(t, from + 1)
    } else {
        from
    }
}

/// The end of `t` once trailing white space before `to` is dropped.
pub open spec fn drop_blank(t: Seq<char>, to: int) -> int
    decreases to,
{
    if 0 < to <= t.len() && is_blank(t[to - 1]) {
        drop_blank(t, to - 1)
    } else {
        to
    }
}

/// The text without leading and trailing white space.
pub open spec fn trim(t: Seq<char>) -> Seq<char> {
    let a = skip_blank(t, 0);
    let b = drop_blank(t, t.len() as int);
    if a < b {
        t.subrange(a, b)
    } else {
        Seq::empty()
    }
}

/// The text of a list of symbols: one character each, `sep` between them.
pub open spec fn list_text(syms: Seq<u8>, sep: char) -> Seq<char> {
    Seq::new(
        if syms.len() == 0 {
            0nat
        } else {
            (2 * syms.len() - 1) as nat
        },
        |i: int|
            if i % 2 == 0 {
                symbol_char(syms[i / 2])
            } else {
                sep
            },
    )
}

/// The text is a list of letters with `sep` between them, or empty.
pub open spec fn is_list(t: Seq<char>, sep: char) -> bool {
    t.len() == 0 || (t.len() % 2 == 1 && forall|i: int|
        0 <= i < t.len() ==> if i % 2 == 0 {
            is_letter_char(#[trigger] t[i])
        } else {
            t[i] == sep
        })
}

/// The symbols of a list text: those of its even positions.
pub open spec fn list_of(t: Seq<char>) -> Seq<u8> {
    Seq::new(((t.len() + 1) / 2) as nat, |k: int| t[2 * k] as u8)
}

/// The list that a text holds, if it is the text of a list of letters.
pub open spec fn parse_list(t: Seq<char>, sep: char) -> Option<Seq<u8>> {
    if is_list(t, sep) {
        Some(list_of(t))
    } else {
        None
    }
}

/// `String::push` of std: the string afterwards is the string before with
/// the one character appended.
#[verifier::external_body]
pub(crate) fn push_char(s: &mut String, c: char)
    ensures
        final(s)@ == old(s)@.push(c),
{
    s.push(c)
}

/// The characters of a string.
pub fn chars_of(s: &str) -> (v: Vec<char>)
    ensures
        v@ == s@,
{
    let mut v: Vec<char> = Vec::new();
    for c in it: s.chars()
        invariant
            v@ == it.seq().take(it.index() as int),
            it.seq() == s@,
    {
        v.push(c);
    }
    v
}

/// Tells whether a character is a letter `a` to `z`, and which symbol it is.
pub fn letter_of(c: char) -> (r: Option<u8>)
    ensures
        r == if is_letter_char(c) {
            Some(c as u8)
        } else {
            None::<u8>
        },
        r matches Some(b) ==> is_letter(b) && symbol_char(b) == c,
{
    if 'a' <= c && c <= 'z' {
        Some(c as u8)
    } else {
        None
    }
}

/// Tells whether a character is white space.
pub fn blank(c: char) -> (r: bool)
    ensures
        r == is_blank(c),
{
    let u = c as u32;
    (0x09 <= u && u <= 0x0d) || u == 0x20 || u == 0x85 || u == 0xa0 || u == 0x1680 || (0x2000 <= u
        && u <= 0x200a) || u == 0x2028 || u == 0x2029 || u == 0x202f || u == 0x205f || u == 0x3000
}

/// Where `c` stands at `i` and nowhere between `from` and `i`, or `i` is the
/// end, `find` from `from` gives `i`.
pub proof fn lemma_find(t: Seq<char>, c: char, from: int, i: int)
    requires
        0 <= from <= i <= t.len(),
        forall|j: int| from <= j < i ==> t[j] != c,
        i < t.len() ==> t[i] == c,
    ensures
        find(t, c, from) == i,
    decreases i - from,
{
    if from < i {
        lemma_find(t, c, from + 1, i);
    }
}

/// What `find` gives lies between `from` and the end; nothing before it is
/// `c`, and `c` stands there unless it is the end.
pub proof fn lemma_find_is_first(t: Seq<char>, c: char, from: int)
    requires
        0 <= from <= t.len(),
    ensures
        from <= find(t, c, from) <= t.len(),
        forall|j: int| from <= j < find(t, c, from) ==> t[j] != c,
        find(t, c, from) < t.len() ==> t[find(t, c, from)] == c,
    decreases t.len() - from,
{
    if from < t.len() && t[from] != c {
        lemma_find_is_first(t, c, from + 1);
    }
}

/// The first index at or after `from` where `c` stands, or the length.
pub fn find_char(t: &Vec<char>, c: char, from: usize) -> (i: usize)
    requires
        from <= t.len(),
    ensures
        i == find(t@, c, from as int),
        from <= i <= t.len(),
{
    let mut i: usize = from;
    while i < t.len() && t[i] != c
        invariant
            from <= i <= t.len(),
            forall|j: int| from <= j < i ==> t@[j] != c,
        decreases t.len() - i,
    {
        i += 1;
    }
    proof {
        lemma_find(t@, c, from as int, i as int);
    }
    i
}

/// The characters of `t` from `from` up to `to`.
pub fn slice_of(t: &Vec<char>, from: usize, to: usize) -> (r: Vec<char>)
    requires
        from <= to <= t.len(),
    ensures
        r@ == t@.subrange(from as int, to as int),
{
    let mut r: Vec<char> = Vec::new();
    let mut i: usize = from;
    while i < to
        invariant
            from <= i <= to <= t.len(),
            r@ == t@.subrange(from as int, i as int),
        decreases to - i,
    {
        r.push(t[i]);
        proof {
            assert(t@.subrange(from as int, i + 1) =~= t@.subrange(from as int, i as int).push(
                t@[i as int],
            ));
        }
        i += 1;
    }
    r
}

/// The text without leading and trailing white space.
pub fn trim_chars(t: &Vec<char>) -> (r: Vec<char>)
    ensures
        r@ == trim(t@),
{
    let mut a: usize = 0;
    while a < t.len() && blank(t[a])
        invariant
            a <= t.len(),
            skip_blank(t@, 0) == skip_blank(t@, a as int),
        decreases t.len() - a,
    {
        a += 1;
    }
    let mut b: usize = t.len();
    while b > 0 && blank(t[b - 1])
        invariant
            b <= t.len(),
            drop_blank(t@, t@.len() as int) == drop_blank(t@, b as int),
        decreases b,
    {
        b -= 1;
    }
    if a < b {
        slice_of(t, a, b)
    } else {
        Vec::new()
    }
}

/// Reads a list of letters with `sep` between them.
pub fn read_list(t: &Vec<char>, sep: char) -> (r: Option<Vec<u8>>)
    ensures
        match r {
            Some(v) => parse_list(t@, sep) == Some(v@),
            None => parse_list(t@, sep) is None,
        },
{
    let mut out: Vec<u8> = Vec::new();
    if t.len() == 0 {
        assert(list_of(t@) =~= out@);
        return Some(out);
    }
    if t.len() % 2 == 0 {
        return None;
    }
    let n: usize = t.len() / 2 + 1;
    let mut k: usize = 0;
    while k < n
        invariant
            k <= n,
            n == t.len() / 2 + 1,
            t.len() % 2 == 1,
            forall|j: int|
                0 <= j < 2 * k && j < t.len() ==> if j % 2 == 0 {
                    is_letter_char(#[trigger] t@[j])
                } else {
                    t@[j] == sep
                },
            out@.len() == k,
            forall|j: int| 0 <= j < out@.len() ==> out@[j] == #[trigger] t@[2 * j] as u8,
        decreases n - k,
    {
        let i: usize = 2 * k;
        match letter_of(t[i]) {
            Some(b) => {
                out.push(b);
            },
            None => {
                return None;
            },
        }
        if i + 1 < t.len() && t[i + 1] != sep {
            assert(!(t@[i + 1] == sep));
            return None;
        }
        k += 1;
    }
    assert(out@ =~= list_of(t@));
    Some(out)
}

/// Appends the text of a list of symbols.
pub(crate) fn push_list(out: &mut String, v: &Vec<u8>, sep: char)
    ensures
        final(out)@ == old(out)@ + list_text(v@, sep),
{
    let mut i: usize = 0;
    assert(out@ =~= old(out)@ + list_text(v@.take(0), sep));
    while i < v.len()
        invariant
            i <= v.len(),
            out@ == old(out)@ + list_text(v@.take(i as int), sep),
        decreases v.len() - i,
    {
        let ghost before = out@;
        if i > 0 {
            push_char(out, sep);
        }
        push_char(out, v[i] as char);
        proof {
            let a = list_text(v@.take(i as int), sep);
            let b = list_text(v@.take(i + 1), sep);
            if i > 0 {
                assert(b =~= a.push(sep).push(symbol_char(v@[i as int])));
            } else {
                assert(b =~= a.push(symbol_char(v@[i as int])));
            }
            assert(out@ =~= old(out)@ + b);
        }
        i += 1;
    }
    assert(v@.take(v.len() as int) =~= v@);
}

} // verus!

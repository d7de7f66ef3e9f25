use wordle_solver::chars::{
    blank, chars_of, find_char, letter_of, read_list, slice_of, trim_chars, ParseError,
};
use wordle_solver::feedback::{word_match, CharMatch, WordMatch};
use wordle_solver::merge::MatchComb;
use wordle_solver::row_text::parse_words;
use wordle_solver::state::{CharInfo, MatchState};
use wordle_solver::word::Word;

const G: CharMatch = CharMatch::Green;
const Y: CharMatch = CharMatch::Yellow;
const X: CharMatch = CharMatch::Gray;

fn w(s: &str) -> Word {
    let b = s.as_bytes();
    Word([b[0], b[1], b[2], b[3], b[4]])
}

fn open() -> CharInfo {
    CharInfo::Not(vec![])
}

fn sample() -> MatchState {
    MatchState {
        chars: [
            CharInfo::Is(b'b'),
            CharInfo::Not(vec![b'a', b'c']),
            open(),
            CharInfo::Not(vec![b'a']),
            CharInfo::Is(b'e'),
        ],
        nowhere: vec![b'x', b'y'],
        somewhere: vec![b'a'],
    }
}

#[test]
fn empty_state_serializes_to_the_bare_frame() {
    assert_eq!(MatchState::empty().serialize(), "{}[]([] [] [] [] [])");
}

#[test]
fn bare_frame_deserializes_to_the_empty_state() {
    assert_eq!(MatchState::deserialize("{}[]([] [] [] [] [])"), Ok(MatchState::empty()));
}

#[test]
fn empty_text_deserializes_to_the_empty_state() {
    assert_eq!(MatchState::deserialize(""), Ok(MatchState::empty()));
}

#[test]
fn serialize_writes_lists_and_descriptors() {
    assert_eq!(sample().serialize(), "{x y}[a](b [a,c] [] [a] e)");
}

#[test]
fn deserialize_reads_lists_and_descriptors() {
    assert_eq!(MatchState::deserialize("{x y}[a](b [a,c] [] [a] e)"), Ok(sample()));
}

#[test]
fn serialize_writes_a_symbol_as_its_character() {
    let s = MatchState {
        chars: [CharInfo::Is(b'Q'), open(), open(), open(), CharInfo::Not(vec![b'7', 0xe9])],
        nowhere: vec![b'!'],
        somewhere: vec![],
    };
    assert_eq!(s.serialize(), "{!}[](Q [] [] [] [7,\u{e9}])");
}

#[test]
fn round_trip_of_states_reached_by_merging() {
    let words = ["apple", "apply", "ample", "maple", "pleat", "eagle", "llama", "hello", "crane"];
    for target in words {
        let mut state = MatchState::empty();
        for guess in words {
            let row = word_match(w(guess), w(target));
            state = MatchComb { state: &state, wm: &row }.merge();
            let text = state.serialize();
            assert_eq!(MatchState::deserialize(&text), Ok(state.clone()));
        }
    }
}

#[test]
fn round_trip_fails_outside_the_alphabet() {
    let mut state = MatchState::empty();
    state.merge_mark(0, b' ', X);
    let text = state.serialize();
    assert_eq!(text, "{ }[]([] [] [] [] [])");
    assert_eq!(MatchState::deserialize(&text), Err(ParseError::Nowhere));
}

#[test]
fn deserialize_refuses_a_broken_frame() {
    for text in [
        "x",
        "{",
        "{}",
        "{}[",
        "{}[]",
        "{}[](",
        "[]{}([] [] [] [] [])",
        "{}[]([] [] [] [] []",
        "{}[]([] [] [] [] []) ",
        " {}[]([] [] [] [] [])",
        "{}[]([] [] [] [] [])\n",
        "{} []([] [] [] [] [])",
        "{}[] ([] [] [] [] [])",
        "{a}b}[]([] [] [] [] [])",
    ] {
        assert_eq!(MatchState::deserialize(text), Err(ParseError::Frame), "{:?}", text);
    }
}

#[test]
fn deserialize_refuses_a_bad_nowhere_list() {
    for text in [
        "{{}[]([] [] [] [] [])",
        "{ }[]([] [] [] [] [])",
        "{a }[]([] [] [] [] [])",
        "{ a}[]([] [] [] [] [])",
        "{ab}[]([] [] [] [] [])",
        "{a,b}[]([] [] [] [] [])",
        "{a  b}[]([] [] [] [] [])",
        "{A}[]([] [] [] [] [])",
        "{a 1}[]([] [] [] [] [])",
        "{\u{e9}}[]([] [] [] [] [])",
    ] {
        assert_eq!(MatchState::deserialize(text), Err(ParseError::Nowhere), "{:?}", text);
    }
}

#[test]
fn deserialize_refuses_a_bad_somewhere_list() {
    for text in [
        "{a}[b,c]([] [] [] [] [])",
        "{a}[bc]([] [] [] [] [])",
        "{a}[ ]([] [] [] [] [])",
        "{}[B]([] [] [] [] [])",
        "{}[[]([] [] [] [] [])",
    ] {
        assert_eq!(MatchState::deserialize(text), Err(ParseError::Somewhere), "{:?}", text);
    }
}

#[test]
fn deserialize_refuses_bad_positions() {
    for text in [
        "{}[]()",
        "{}[]([] [] [] [])",
        "{}[]([] [] [] [] [] [])",
        "{}[]([] [] []  [] [])",
        "{}[]( [] [] [] [] [])",
        "{}[]([] [] [] [] [] )",
        "{}[]([] [] [] [] ab)",
        "{}[]([] [] [] [] A)",
        "{}[]([] [] [] [] [a b])",
        "{}[]([] [] [] [] [a,])",
        "{}[]([] [] [] [] [,a])",
        "{}[]([] [] [] [] [a)",
        "{}[]([] [] [] [] a])",
        "{}[]([] [] [] [] [[a]])",
        "{}[]([] [] [] [] )",
        "{}[](a)",
        "{}[]())",
    ] {
        assert_eq!(MatchState::deserialize(text), Err(ParseError::Positions), "{:?}", text);
    }
}

#[test]
fn deserialize_names_the_first_field_that_fails() {
    assert_eq!(MatchState::deserialize("{A}[B](C)"), Err(ParseError::Nowhere));
    assert_eq!(MatchState::deserialize("{a}[B](C)"), Err(ParseError::Somewhere));
    assert_eq!(MatchState::deserialize("{a}[b](C)"), Err(ParseError::Positions));
    assert_eq!(MatchState::deserialize("{A}[B](C"), Err(ParseError::Frame));
}

#[test]
fn row_text_gives_marks_and_symbols() {
    assert_eq!(
        WordMatch::deserialize("{a} [b] (c) {d} [e]"),
        Ok(WordMatch { cm: [X, Y, G, X, Y], word: w("abcde") })
    );
    assert_eq!(
        WordMatch::deserialize("-c- -r- -a- -n- -e-"),
        Ok(WordMatch { cm: [G, G, G, G, G], word: w("crane") })
    );
    assert_eq!(
        WordMatch::deserialize("xcx ]r[ }a{ .n! (e]"),
        Ok(WordMatch { cm: [G, G, G, G, G], word: w("crane") })
    );
}

#[test]
fn row_text_may_stand_in_white_space() {
    let want = Ok(WordMatch { cm: [X, Y, G, X, Y], word: w("abcde") });
    assert_eq!(WordMatch::deserialize("  {a} [b] (c) {d} [e]\n"), want);
    assert_eq!(WordMatch::deserialize("\t{a} [b] (c) {d} [e]\r\n"), want);
    assert_eq!(WordMatch::deserialize("\u{a0}{a} [b] (c) {d} [e]\u{2003}\u{3000}"), want);
}

#[test]
fn row_text_is_refused_when_malformed() {
    for text in [
        "",
        "   ",
        "{a} [b] (c) {d}",
        "{a} [b] (c) {d} [e] {f}",
        "{a} [b] (c) {d} [e",
        "{a} [b] (c) {d}  [e]",
        "{a}  [b] (c) {d} [e]",
        "{a} [b] (c) {d} [e}",
        "{a] [b] (c) {d} [e]",
        "{A} [b] (c) {d} [e]",
        "{a} [b] (1) {d} [e]",
        "{a} [b] c {d} [e]",
        "{a} [b] \tc\t {d} [e]",
        "{a},[b],(c),{d},[e]",
        "a b c d e",
        "{\u{e9}} [b] (c) {d} [e]",
    ] {
        assert_eq!(WordMatch::deserialize(text), Err(ParseError::Row), "{:?}", text);
    }
}

#[test]
fn word_list_has_one_word_per_line() {
    assert_eq!(parse_words("apple\napply\nample\n"), Ok(vec![w("apple"), w("apply"), w("ample")]));
    assert_eq!(parse_words("apple\napply\nample"), Ok(vec![w("apple"), w("apply"), w("ample")]));
    assert_eq!(parse_words("apple\r\napply\r\n"), Ok(vec![w("apple"), w("apply")]));
    assert_eq!(parse_words("apple"), Ok(vec![w("apple")]));
    assert_eq!(parse_words(""), Ok(vec![]));
}

#[test]
fn word_list_is_refused_when_a_line_is_no_word() {
    for text in [
        "\n",
        "apple\n\napply\n",
        "apple\n\n",
        "appl\n",
        "apples\n",
        "Apple\n",
        "apple \n",
        "apple\r",
        "apple\r\r\n",
        "app1e\n",
        "appl\u{e9}\n",
        "apple\napply\nampl",
    ] {
        assert_eq!(parse_words(text), Err(ParseError::Words), "{:?}", text);
    }
}

#[test]
fn word_text_is_its_five_characters() {
    assert_eq!(w("apple").to_text(), "apple");
    assert_eq!(Word([b'A', b'-', b'z', b'0', 0xe9]).to_text(), "A-z0\u{e9}");
}

#[test]
fn text_helpers_work_on_characters() {
    let t = chars_of("a{b}c\u{e9}");
    assert_eq!(t, vec!['a', '{', 'b', '}', 'c', '\u{e9}']);
    assert_eq!(find_char(&t, '}', 0), 3);
    assert_eq!(find_char(&t, 'a', 1), 6);
    assert_eq!(find_char(&t, 'c', 4), 4);
    assert_eq!(slice_of(&t, 1, 4), vec!['{', 'b', '}']);
    assert_eq!(letter_of('q'), Some(b'q'));
    assert_eq!(letter_of('Q'), None);
    assert_eq!(letter_of('\u{e9}'), None);
    assert!(blank(' ') && blank('\n') && blank('\u{b}') && blank('\u{85}') && blank('\u{2009}'));
    assert!(!blank('a') && !blank('\u{200b}') && !blank('\u{8}') && !blank('\u{1c}'));
    assert_eq!(trim_chars(&chars_of(" \t a b \n")), vec!['a', ' ', 'b']);
    assert_eq!(trim_chars(&chars_of(" \n ")), Vec::<char>::new());
    assert_eq!(read_list(&chars_of("a b c"), ' '), Some(vec![b'a', b'b', b'c']));
    assert_eq!(read_list(&chars_of(""), ','), Some(vec![]));
    assert_eq!(read_list(&chars_of("a,b"), ' '), None);
}

#[test]
fn blank_agrees_with_the_white_space_of_std() {
    let mut u: u32 = 0;
    while u < 0x11_0000 {
        if let Some(c) = char::from_u32(u) {
            assert_eq!(blank(c), c.is_whitespace(), "{:x}", u);
        }
        u += 1;
    }
}

#[test]
fn trim_agrees_with_the_trim_of_std() {
    for text in ["", " ", "a", " a", "a ", "\n a b \t", "\u{a0}x\u{3000}", " \u{200b} ", "\r\n"] {
        let got: String = trim_chars(&chars_of(text)).into_iter().collect();
        assert_eq!(got, text.trim());
    }
}

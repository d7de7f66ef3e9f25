use wordle_solver::feedback::{word_match, CharMatch, WordMatch};
use wordle_solver::word::{letter, Word};

const G: CharMatch = CharMatch::Green;
const Y: CharMatch = CharMatch::Yellow;
const X: CharMatch = CharMatch::Gray;

fn w(s: &str) -> Word {
    let b = s.as_bytes();
    Word([b[0], b[1], b[2], b[3], b[4]])
}

#[test]
fn feedback_of_apple_against_apply() {
    let row = word_match(w("apple"), w("apply"));
    assert_eq!(row, WordMatch { cm: [G, G, G, G, X], word: w("apple") });
}

#[test]
fn feedback_marks_each_position_on_its_own() {
    let row = word_match(w("crane"), w("react"));
    assert_eq!(row.cm, [Y, Y, G, X, Y]);
    assert_eq!(row.word, w("crane"));
}

#[test]
fn feedback_gives_repeated_letters_no_second_pass() {
    let row = word_match(w("llama"), w("hello"));
    assert_eq!(row.cm, [Y, Y, X, X, X]);
    let row = word_match(w("eerie"), w("crepe"));
    assert_eq!(row.cm, [Y, Y, Y, X, G]);
}

#[test]
fn feedback_of_a_word_against_itself_is_a_win() {
    let row = word_match(w("ample"), w("ample"));
    assert_eq!(row.cm, [G, G, G, G, G]);
    assert!(row.is_win());
}

#[test]
fn is_win_needs_every_position_green() {
    assert!(!WordMatch { cm: [G, G, G, G, Y], word: w("apple") }.is_win());
    assert!(!WordMatch { cm: [X, G, G, G, G], word: w("apple") }.is_win());
    assert!(WordMatch { cm: [G, G, G, G, G], word: w("apple") }.is_win());
}

#[test]
fn row_matches_green_only_at_the_position() {
    let row = WordMatch { cm: [G, X, X, X, X], word: w("abcde") };
    assert!(row.matches(w("axxxx")));
    assert!(!row.matches(w("xaxxx")));
}

#[test]
fn row_matches_gray_only_without_the_symbol() {
    let row = WordMatch { cm: [X, X, X, X, X], word: w("abcde") };
    assert!(row.matches(w("xyzxy")));
    assert!(!row.matches(w("xyzxa")));
    assert!(!row.matches(w("exxxx")));
}

#[test]
fn row_matches_yellow_elsewhere_and_not_there() {
    let row = WordMatch { cm: [Y, X, X, X, X], word: w("abcde") };
    assert!(row.matches(w("xaxxx")));
    assert!(row.matches(w("xxxxa")));
    assert!(!row.matches(w("xxxxx")));
    assert!(!row.matches(w("axxxx")));
    assert!(!row.matches(w("axxxa")));
}

#[test]
fn row_matches_exactly_the_targets_that_draw_it() {
    let words = ["apple", "apply", "ample", "maple", "pleat", "eagle", "llama", "hello", "zzzzz"];
    for g in words {
        for shown in words {
            let row = word_match(w(g), w(shown));
            for t in words {
                assert_eq!(row.matches(w(t)), word_match(w(g), w(t)) == row);
            }
        }
    }
}

#[test]
fn words_compare_symbol_by_symbol() {
    assert_eq!(w("apple"), Word(*b"apple"));
    assert_ne!(w("apple"), w("apply"));
    assert_eq!(w("apple").symbol(4), b'e');
    assert!(w("apple").contains(b'l'));
    assert!(!w("apple").contains(b'y'));
}

#[test]
fn letters_are_a_to_z() {
    assert!(letter(b'a'));
    assert!(letter(b'z'));
    assert!(!letter(b'`'));
    assert!(!letter(b'{'));
    assert!(!letter(b'A'));
    assert!(!letter(b' '));
}

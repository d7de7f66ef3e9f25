use wordle_solver::feedback::{word_match, CharMatch, WordMatch};
use wordle_solver::merge::{list_add, list_remove, MatchComb};
use wordle_solver::state::{CharInfo, MatchState};
use wordle_solver::word::Word;

const G: CharMatch = CharMatch::Green;
const Y: CharMatch = CharMatch::Yellow;
const X: CharMatch = CharMatch::Gray;

fn w(s: &str) -> Word {
    let b = s.as_bytes();
    Word([b[0], b[1], b[2], b[3], b[4]])
}

fn open() -> CharInfo {
    CharInfo::Not(vec![])
}

fn merged(state: &MatchState, wm: &WordMatch) -> MatchState {
    MatchComb { state, wm }.merge()
}

#[test]
fn correct_mark_pins_the_position() {
    let mut s = MatchState::empty();
    s.merge_mark(0, b'a', G);
    assert_eq!(s.chars, [CharInfo::Is(b'a'), open(), open(), open(), open()]);
    assert_eq!(s.nowhere, Vec::<u8>::new());
    assert_eq!(s.somewhere, Vec::<u8>::new());
}

#[test]
fn correct_mark_takes_the_symbol_out_of_both_lists() {
    let mut s = MatchState {
        chars: [open(), CharInfo::Not(vec![b'a']), open(), open(), open()],
        nowhere: vec![b'x', b'a', b'y', b'a'],
        somewhere: vec![b'a', b'b'],
    };
    s.merge_mark(2, b'a', G);
    assert_eq!(s.chars, [open(), CharInfo::Not(vec![b'a']), CharInfo::Is(b'a'), open(), open()]);
    assert_eq!(s.nowhere, vec![b'x', b'y']);
    assert_eq!(s.somewhere, vec![b'b']);
}

#[test]
fn present_mark_denies_the_position_and_records_the_symbol() {
    let mut s = MatchState::empty();
    s.merge_mark(1, b'p', Y);
    assert_eq!(s.chars, [open(), CharInfo::Not(vec![b'p']), open(), open(), open()]);
    assert_eq!(s.somewhere, vec![b'p']);
    s.merge_mark(3, b'p', Y);
    assert_eq!(s.somewhere, vec![b'p']);
    assert_eq!(
        s.chars,
        [open(), CharInfo::Not(vec![b'p']), open(), CharInfo::Not(vec![b'p']), open()]
    );
    assert_eq!(s.nowhere, Vec::<u8>::new());
}

#[test]
fn present_mark_leaves_a_pinned_position() {
    let mut s = MatchState::empty();
    s.merge_mark(0, b'a', G);
    s.merge_mark(0, b'b', Y);
    assert_eq!(s.chars[0], CharInfo::Is(b'a'));
    assert_eq!(s.somewhere, vec![b'b']);
}

#[test]
fn absent_mark_of_an_unknown_symbol_rules_it_out() {
    let mut s = MatchState::empty();
    s.merge_mark(4, b'e', X);
    assert_eq!(s.nowhere, vec![b'e']);
    assert_eq!(s.chars, [open(), open(), open(), open(), open()]);
    s.merge_mark(2, b'e', X);
    assert_eq!(s.nowhere, vec![b'e']);
    assert_eq!(s.somewhere, Vec::<u8>::new());
}

#[test]
fn absent_mark_of_a_symbol_known_somewhere_is_for_the_position() {
    let mut s = MatchState::empty();
    s.merge_mark(0, b'l', Y);
    s.merge_mark(1, b'l', X);
    assert_eq!(s.nowhere, Vec::<u8>::new());
    assert_eq!(s.somewhere, vec![b'l']);
    assert_eq!(
        s.chars,
        [CharInfo::Not(vec![b'l']), CharInfo::Not(vec![b'l']), open(), open(), open()]
    );
}

#[test]
fn absent_mark_of_a_pinned_symbol_is_for_the_position() {
    let mut s = MatchState::empty();
    s.merge_mark(2, b'l', G);
    s.merge_mark(0, b'l', X);
    assert_eq!(s.nowhere, Vec::<u8>::new());
    assert_eq!(s.chars, [CharInfo::Not(vec![b'l']), open(), CharInfo::Is(b'l'), open(), open()]);
}

#[test]
fn absent_mark_at_a_pinned_position_of_a_symbol_pinned_elsewhere_changes_nothing() {
    let mut s = MatchState::empty();
    s.merge_mark(0, b'a', G);
    s.merge_mark(1, b'b', G);
    let before = s.clone();
    s.merge_mark(1, b'a', X);
    assert_eq!(s, before);
    assert_eq!(s.nowhere, Vec::<u8>::new());
    assert_eq!(s.chars, [CharInfo::Is(b'a'), CharInfo::Is(b'b'), open(), open(), open()]);
}

#[test]
fn absent_mark_at_a_pinned_position_of_a_symbol_known_somewhere_changes_nothing() {
    let mut s = MatchState::empty();
    s.merge_mark(1, b'b', G);
    s.merge_mark(3, b'a', Y);
    let before = s.clone();
    s.merge_mark(1, b'a', X);
    assert_eq!(s, before);
    assert_eq!(s.nowhere, Vec::<u8>::new());
    assert_eq!(s.somewhere, vec![b'a']);
}

#[test]
fn absent_mark_on_the_symbol_pinned_at_its_own_position_rules_it_out() {
    let mut s = MatchState::empty();
    s.merge_mark(0, b'a', G);
    s.merge_mark(0, b'a', X);
    assert_eq!(s.nowhere, vec![b'a']);
    assert_eq!(s.chars, [CharInfo::Is(b'a'), open(), open(), open(), open()]);
    let mut s = MatchState::empty();
    s.merge_mark(0, b'a', G);
    s.merge_mark(2, b'a', G);
    s.merge_mark(0, b'a', X);
    assert_eq!(s.nowhere, Vec::<u8>::new());
}

#[test]
fn absent_mark_at_a_pinned_position_of_an_unknown_symbol_rules_it_out() {
    let mut s = MatchState::empty();
    s.merge_mark(1, b'b', G);
    s.merge_mark(1, b'a', X);
    assert_eq!(s.nowhere, vec![b'a']);
    assert_eq!(s.chars, [open(), CharInfo::Is(b'b'), open(), open(), open()]);
}

#[test]
fn all_absent_row_over_two_pins_keeps_the_pinned_symbol_out_of_nowhere() {
    let state = MatchState::deserialize("{}[](a b [] [] [])").unwrap();
    let row = WordMatch { cm: [X, X, X, X, X], word: w("cadef") };
    let next = merged(&state, &row);
    assert_eq!(next.serialize(), "{c d e f}[](a b [] [] [])");
    assert_eq!(
        next,
        MatchState {
            chars: [CharInfo::Is(b'a'), CharInfo::Is(b'b'), open(), open(), open()],
            nowhere: vec![b'c', b'd', b'e', b'f'],
            somewhere: vec![],
        }
    );
}

#[test]
fn merge_keeps_pinned_symbols_out_of_nowhere() {
    let words = ["apple", "apply", "ample", "maple", "pleat", "eagle", "llama", "hello", "crane"];
    for target in words {
        let mut state = MatchState::empty();
        for guess in words {
            let row = word_match(w(guess), w(target));
            state = merged(&state, &row);
            for c in &state.chars {
                if let CharInfo::Is(x) = c {
                    assert!(!state.nowhere.contains(x));
                }
            }
            for x in &state.somewhere {
                assert!(!state.nowhere.contains(x));
            }
        }
    }
}

#[test]
fn merge_folds_the_row_position_by_position() {
    let row = WordMatch { cm: [Y, X, G, X, Y], word: w("crane") };
    let s = merged(&MatchState::empty(), &row);
    assert_eq!(
        s,
        MatchState {
            chars: [
                CharInfo::Not(vec![b'c']),
                open(),
                CharInfo::Is(b'a'),
                open(),
                CharInfo::Not(vec![b'e']),
            ],
            nowhere: vec![b'r', b'n'],
            somewhere: vec![b'c', b'e'],
        }
    );
}

#[test]
fn merge_sees_the_marks_before_it_in_the_same_row() {
    let row = WordMatch { cm: [Y, X, G, X, X], word: w("lllxl") };
    let s = merged(&MatchState::empty(), &row);
    assert_eq!(
        s,
        MatchState {
            chars: [
                CharInfo::Not(vec![b'l']),
                CharInfo::Not(vec![b'l']),
                CharInfo::Is(b'l'),
                open(),
                CharInfo::Not(vec![b'l']),
            ],
            nowhere: vec![b'x'],
            somewhere: vec![],
        }
    );
}

#[test]
fn merge_leaves_its_input_untouched() {
    let before = merged(&MatchState::empty(), &WordMatch { cm: [Y, X, G, X, Y], word: w("crane") });
    let copy = before.clone();
    let row = WordMatch { cm: [G, G, X, Y, X], word: w("ocean") };
    let after = merged(&before, &row);
    assert_eq!(before, copy);
    assert_ne!(after, before);
}

#[test]
fn merging_an_all_absent_row_twice_changes_nothing_more() {
    for word in ["crane", "llama", "zzzzz", "eerie"] {
        let row = WordMatch { cm: [X, X, X, X, X], word: w(word) };
        let once = merged(&MatchState::empty(), &row);
        let twice = merged(&once, &row);
        assert_eq!(twice, once);
    }
    let once = merged(&MatchState::empty(), &WordMatch { cm: [X, X, X, X, X], word: w("llama") });
    assert_eq!(once.nowhere, vec![b'l', b'a', b'm']);
}

#[test]
fn merge_only_narrows_the_matching_words() {
    let words = ["apple", "apply", "ample", "maple", "pleat", "eagle", "llama", "hello", "crane"];
    for target in words {
        let mut state = MatchState::empty();
        for guess in words {
            let row = word_match(w(guess), w(target));
            let next = merged(&state, &row);
            for t in words {
                if next.matches(w(t)) {
                    assert!(state.matches(w(t)));
                }
            }
            assert!(next.matches(w(target)));
            state = next;
        }
    }
}

#[test]
fn merge_widens_where_a_correct_mark_contradicts_the_state() {
    let mut state = MatchState::empty();
    state.merge_mark(0, b'a', G);
    let row = WordMatch { cm: [G, Y, Y, Y, Y], word: w("maple") };
    let next = merged(&state, &row);
    assert!(next.matches(w("mplea")));
    assert!(!state.matches(w("mplea")));
}

#[test]
fn comb_matches_needs_both_state_and_row() {
    let mut state = MatchState::empty();
    state.merge_mark(0, b'a', G);
    let row = WordMatch { cm: [G, G, G, G, X], word: w("apple") };
    let comb = MatchComb { state: &state, wm: &row };
    assert!(comb.matches(w("apply")));
    assert!(!comb.matches(w("apple")));
    let other = MatchState { chars: [open(), open(), open(), open(), open()], nowhere: vec![b'y'], somewhere: vec![] };
    assert!(!MatchComb { state: &other, wm: &row }.matches(w("apply")));
}

#[test]
fn pins_elsewhere_leaves_the_position_itself_out() {
    let mut state = MatchState::empty();
    assert!(!state.pins_elsewhere(b'a', 0));
    state.merge_mark(3, b'a', G);
    assert!(state.pins_elsewhere(b'a', 0));
    assert!(state.pins_elsewhere(b'a', 4));
    assert!(!state.pins_elsewhere(b'a', 3));
    assert!(!state.pins_elsewhere(b'b', 0));
    state.merge_mark(1, b'a', G);
    assert!(state.pins_elsewhere(b'a', 3));
}

#[test]
fn list_remove_and_add_keep_the_order() {
    let mut v = vec![b'a', b'b', b'a', b'c'];
    list_remove(&mut v, b'a');
    assert_eq!(v, vec![b'b', b'c']);
    list_add(&mut v, b'a');
    assert_eq!(v, vec![b'b', b'c', b'a']);
    list_add(&mut v, b'c');
    assert_eq!(v, vec![b'b', b'c', b'a']);
    let mut d = CharInfo::Not(vec![b'x']);
    d.deny(b'y');
    assert_eq!(d, CharInfo::Not(vec![b'x', b'y']));
}

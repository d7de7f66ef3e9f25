use wordle_solver::state::{list_copy, list_has, CharInfo, MatchState};
use wordle_solver::word::Word;

fn w(s: &str) -> Word {
    let b = s.as_bytes();
    Word([b[0], b[1], b[2], b[3], b[4]])
}

fn open() -> CharInfo {
    CharInfo::Not(vec![])
}

#[test]
fn empty_state_has_no_information() {
    let s = MatchState::empty();
    assert_eq!(s.nowhere, Vec::<u8>::new());
    assert_eq!(s.somewhere, Vec::<u8>::new());
    assert_eq!(s.chars, [open(), open(), open(), open(), open()]);
}

#[test]
fn empty_state_matches_every_word() {
    let s = MatchState::empty();
    assert!(s.matches(w("apple")));
    assert!(s.matches(w("zzzzz")));
    assert!(s.matches(Word([0, 255, 32, 7, 200])));
}

#[test]
fn pinned_position_wants_its_symbol() {
    let s = MatchState {
        chars: [CharInfo::Is(b'a'), open(), open(), open(), open()],
        nowhere: vec![],
        somewhere: vec![],
    };
    assert!(s.matches(w("apple")));
    assert!(!s.matches(w("maple")));
}

#[test]
fn denied_symbol_is_refused_at_its_position_only() {
    let s = MatchState {
        chars: [open(), CharInfo::Not(vec![b'p', b'l']), open(), open(), open()],
        nowhere: vec![],
        somewhere: vec![],
    };
    assert!(!s.matches(w("apple")));
    assert!(!s.matches(w("alpha")));
    assert!(s.matches(w("maple")));
    assert!(s.matches(w("pleat")) == false);
    assert!(s.matches(w("repel")));
}

#[test]
fn nowhere_symbol_is_refused_everywhere() {
    let s = MatchState {
        chars: [open(), open(), open(), open(), open()],
        nowhere: vec![b'e'],
        somewhere: vec![],
    };
    assert!(!s.matches(w("apple")));
    assert!(!s.matches(w("eagle")));
    assert!(s.matches(w("apply")));
}

#[test]
fn somewhere_symbol_must_occur() {
    let s = MatchState {
        chars: [open(), open(), open(), open(), open()],
        nowhere: vec![],
        somewhere: vec![b'y', b'a'],
    };
    assert!(s.matches(w("apply")));
    assert!(!s.matches(w("apple")));
    assert!(!s.matches(w("jolly")));
}

#[test]
fn matching_ignores_the_order_of_the_lists() {
    let a = MatchState {
        chars: [CharInfo::Not(vec![b'a', b'b']), open(), open(), open(), CharInfo::Is(b'e')],
        nowhere: vec![b'x', b'y', b'z'],
        somewhere: vec![b'p', b'l'],
    };
    let b = MatchState {
        chars: [CharInfo::Not(vec![b'b', b'a', b'b']), open(), open(), open(), CharInfo::Is(b'e')],
        nowhere: vec![b'z', b'x', b'y', b'x'],
        somewhere: vec![b'l', b'p'],
    };
    for t in ["apple", "maple", "ample", "lapse", "pulse", "plaza", "bugle", "pixel"] {
        assert_eq!(a.matches(w(t)), b.matches(w(t)));
    }
    assert!(a.matches(w("maple")));
    assert!(!a.matches(w("apple")));
}

#[test]
fn clone_keeps_every_field() {
    let a = MatchState {
        chars: [CharInfo::Not(vec![b'a', b'b']), open(), CharInfo::Is(b'q'), open(), open()],
        nowhere: vec![b'x'],
        somewhere: vec![b'p', b'l'],
    };
    assert_eq!(a.clone(), a);
}

#[test]
fn position_admits_what_it_does_not_deny() {
    assert!(CharInfo::Is(b'a').admits(b'a'));
    assert!(!CharInfo::Is(b'a').admits(b'b'));
    assert!(CharInfo::Not(vec![b'a']).admits(b'b'));
    assert!(!CharInfo::Not(vec![b'a']).admits(b'a'));
    assert!(open().admits(b'a'));
}

#[test]
fn list_helpers_find_and_copy() {
    let v = vec![b'a', b'c', b'a'];
    assert!(list_has(&v, b'c'));
    assert!(!list_has(&v, b'b'));
    assert_eq!(list_copy(&v), v);
}

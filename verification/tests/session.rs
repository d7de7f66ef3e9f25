use wordle_solver::chars::ParseError;
use wordle_solver::session::{merge_exchange, read_choice, Action, Choice, Mode, Session};
use wordle_solver::state::{CharInfo, MatchState};

fn open() -> CharInfo {
    CharInfo::Not(vec![])
}

#[test]
fn choice_is_a_single_character() {
    assert_eq!(read_choice("a\n"), Choice::AddInfo);
    assert_eq!(read_choice("v\n"), Choice::View);
    assert_eq!(read_choice("  c \r\n"), Choice::Calc);
    assert_eq!(read_choice("r"), Choice::Reset);
    assert_eq!(read_choice("q\n"), Choice::Quit);
    assert_eq!(read_choice("x\n"), Choice::Quit);
    assert_eq!(read_choice("A\n"), Choice::Quit);
    assert_eq!(read_choice("\u{e9}\n"), Choice::Quit);
    assert_eq!(read_choice("\n"), Choice::Retry);
    assert_eq!(read_choice(""), Choice::Retry);
    assert_eq!(read_choice("ab\n"), Choice::Retry);
    assert_eq!(read_choice("a b\n"), Choice::Retry);
}

#[test]
fn new_session_knows_nothing() {
    let s = Session::new();
    assert_eq!(s.state, MatchState::empty());
    assert_eq!(s.mode, Mode::Menu);
}

#[test]
fn session_takes_a_row_after_the_choice_a() {
    let mut s = Session::new();
    assert_eq!(s.step("a\n"), Ok(Action::AskInfo));
    assert_eq!(s.mode, Mode::Info);
    assert_eq!(s.state, MatchState::empty());
    assert_eq!(s.step("{c} {r} (a) {n} [e]\n"), Ok(Action::ShowMenu));
    assert_eq!(s.mode, Mode::Menu);
    assert_eq!(
        s.state,
        MatchState {
            chars: [open(), open(), CharInfo::Is(b'a'), open(), CharInfo::Not(vec![b'e'])],
            nowhere: vec![b'c', b'r', b'n'],
            somewhere: vec![b'e'],
        }
    );
}

#[test]
fn session_keeps_its_state_on_view_calc_and_retry() {
    let mut s = Session::new();
    s.step("a").unwrap();
    s.step("{c} {r} (a) {n} [e]").unwrap();
    let before = s.state.clone();
    assert_eq!(s.step("v\n"), Ok(Action::ShowState));
    assert_eq!(s.step("c\n"), Ok(Action::RunCalc));
    assert_eq!(s.step("\n"), Ok(Action::ShowMenu));
    assert_eq!(s.step("ab\n"), Ok(Action::ShowMenu));
    assert_eq!(s.step("q\n"), Ok(Action::Stop));
    assert_eq!(s.state, before);
    assert_eq!(s.mode, Mode::Menu);
}

#[test]
fn session_forgets_on_reset() {
    let mut s = Session::new();
    s.step("a").unwrap();
    s.step("{c} {r} (a) {n} [e]").unwrap();
    assert_eq!(s.step("r\n"), Ok(Action::ShowReset));
    assert_eq!(s.state, MatchState::empty());
    assert_eq!(s.mode, Mode::Menu);
}

#[test]
fn session_refuses_a_bad_row_and_stays() {
    let mut s = Session::new();
    s.step("a").unwrap();
    assert_eq!(s.step("nonsense\n"), Err(ParseError::Row));
    assert_eq!(s.mode, Mode::Info);
    assert_eq!(s.state, MatchState::empty());
}

#[test]
fn exchange_merges_the_row_into_the_state() {
    assert_eq!(
        merge_exchange("{}[]([] [] [] [] []);{c} {r} (a) {n} [e]"),
        Ok("{c r n}[e]([] [] a [] [e])".to_string())
    );
    assert_eq!(
        merge_exchange(" {c r n}[e]([] [] a [] [e]) ; (e) [a] {g} {l} {e}\n"),
        Ok("{c r n g l}[a](e [a] a [] [e,e])".to_string())
    );
    assert_eq!(
        merge_exchange(";{c} {r} (a) {n} [e]\n"),
        Ok("{c r n}[e]([] [] a [] [e])".to_string())
    );
}

#[test]
fn exchange_is_refused_when_malformed() {
    assert_eq!(merge_exchange("{}[]([] [] [] [] [])"), Err(ParseError::Exchange));
    assert_eq!(merge_exchange(""), Err(ParseError::Exchange));
    assert_eq!(merge_exchange("{}[]([] [] [] []);{c} {r} (a) {n} [e]"), Err(ParseError::Positions));
    assert_eq!(merge_exchange("{}[]([] [] [] [] []);{c} {r} (a) {n}"), Err(ParseError::Row));
    assert_eq!(merge_exchange("{;}[]([] [] [] [] []);x"), Err(ParseError::Frame));
    assert_eq!(merge_exchange("{A}[]([] [] [] [] []);x"), Err(ParseError::Nowhere));
    assert_eq!(merge_exchange("{}[]([] [] [] [] []);a;b"), Err(ParseError::Row));
}

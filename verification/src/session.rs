//! The decisions of a session: what a line of input asks for, and what the
//! session does next.
use vstd::prelude::*;
use crate::chars::{chars_of, find, find_char, slice_of, trim, trim_chars, ParseError};
use crate::feedback::WordMatch;
use crate::merge::MatchComb;
use crate::row_text::parse_row;
use crate::state::{Knowledge, MatchState};
use crate::state_text::parse_state;

verus! {

/// What a line typed at the menu asks for.
#[derive(Clone, Copy, Debug, PartialEq, Eq, Structural)]
pub enum Choice {
    /// `a`: a row of feedback follows.
    AddInfo,
    /// `v`: show the state.
    View,
    /// `c`: score the guesses.
    Calc,
    /// `r`: forget everything.
    Reset,
    /// Any other single character: leave.
    Quit,
    /// Not a single character: show the menu again.
    Retry,
}

/// What the session waits for.
#[derive(Clone, Copy, Debug, PartialEq, Eq, Structural)]
pub enum Mode {
    /// A choice from the menu.
    Menu,
    /// A row of feedback.
    Info,
}

/// What the caller is to do after a line was taken.
#[derive(Clone, Copy, Debug, PartialEq, Eq, Structural)]
pub enum Action {
    /// Show the menu and read a choice.
    ShowMenu,
    /// Ask for a row of feedback and read it.
    AskInfo,
    /// Show the text of the state, then the menu.
    ShowState,
    /// Score the guesses against the state, then show the menu.
    RunCalc,
    /// Say that the state was reset, then show the menu.
    ShowReset,
    /// Stop.
    Stop,
}

/// A session: the knowledge gathered, and what is awaited.
#[derive(Debug, PartialEq, Eq)]
pub struct Session {
    pub state: MatchState,
    pub mode: Mode,
}

/// The choice that a line makes: the line without the white space around
/// it must be a single character.
pub open spec fn choice_of(line: Seq<char>) -> Choice {
    let t = trim(line);
    if t.len() != 1 {
        Choice::Retry
    } else if t[0] == 'a' {
        Choice::AddInfo
    } else if t[0] == 'v' {
        Choice::View
    } else if t[0] == 'c' {
        Choice::Calc
    } else if t[0] == 'r' {
        Choice::Reset
    } else {
        Choice::Quit
    }
}

/// What a session in mode `mode` with knowledge `k` does on `line`: the new
/// knowledge, the new mode and the action, or the error where a row of
/// feedback cannot be read.
pub open spec fn step_of(k: Knowledge, mode: Mode, line: Seq<char>) -> Result<
    (Knowledge, Mode, Action),
    ParseError,
> {
    match mode {
        Mode::Info => match parse_row(line) {
            Ok(row) => Ok((k.merge(row), Mode::Menu, Action::ShowMenu)),
            Err(e) => Err(e),
        },
        Mode::Menu => match choice_of(line) {
            Choice::AddInfo => Ok((k, Mode::Info, Action::AskInfo)),
            Choice::View => Ok((k, Mode::Menu, Action::ShowState)),
            Choice::Calc => Ok((k, Mode::Menu, Action::RunCalc)),
            Choice::Reset => Ok((Knowledge::empty(), Mode::Menu, Action::ShowReset)),
            Choice::Quit => Ok((k, Mode::Menu, Action::Stop)),
            Choice::Retry => Ok((k, Mode::Menu, Action::ShowMenu)),
        },
    }
}

/// The text that an exchange text asks for: the state before the first `;`
/// and the row after it, each without the white space around it, give the
/// text of the state after the row.
pub open spec fn exchange_of(t: Seq<char>) -> Result<Seq<char>, ParseError> {
    let at = find(t, ';', 0);
    if at >= t.len() {
        Err(ParseError::Exchange)
    } else {
        match parse_state(trim(t.subrange(0, at))) {
            Err(e) => Err(e),
            Ok(k) => match parse_row(t.subrange(at + 1, t.len() as int)) {
                Err(e) => Err(e),
                Ok(row) => Ok(k.merge(row).text()),
            },
        }
    }
}

/// Reads the choice that a line typed at the menu makes.
pub fn read_choice(line: &str) -> (r: Choice)
    ensures
        r == choice_of(line@),
{
    let t = trim_chars(&chars_of(line));
    if t.len() != 1 {
        Choice::Retry
    } else if t[0] == 'a' {
        Choice::AddInfo
    } else if t[0] == 'v' {
        Choice::View
    } else if t[0] == 'c' {
        Choice::Calc
    } else if t[0] == 'r' {
        Choice::Reset
    } else {
        Choice::Quit
    }
}

impl Session {
    /// A session that knows nothing and shows its menu.
    pub fn new() -> (r: Session)
        ensures
            r.state@ == Knowledge::empty(),
            r.mode == Mode::Menu,
    {
        Session { state: MatchState::empty(), mode: Mode::Menu }
    }

    /// Takes one line of input. Where a row of feedback cannot be read the
    /// session stays as it was.
    pub fn step(&mut self, line: &str) -> (r: Result<Action, ParseError>)
        ensures
            match r {
                Ok(action) => step_of(old(self).state@, old(self).mode, line@) == Ok::<
                    (Knowledge, Mode, Action),
                    ParseError,
                >((final(self).state@, final(self).mode, action)),
                Err(e) => step_of(old(self).state@, old(self).mode, line@) == Err::<
                    (Knowledge, Mode, Action),
                    ParseError,
                >(e) && final(self).state@ == old(self).state@ && final(self).mode == old(self).mode,
            },
    {
        match self.mode {
            Mode::Info => match WordMatch::deserialize(line) {
                Ok(wm) => {
                    let next = MatchComb { state: &self.state, wm: &wm }.merge();
                    self.state = next;
                    self.mode = Mode::Menu;
                    Ok(Action::ShowMenu)
                },
                Err(e) => Err(e),
            },
            Mode::Menu => match read_choice(line) {
                Choice::AddInfo => {
                    self.mode = Mode::Info;
                    Ok(Action::AskInfo)
                },
                Choice::View => Ok(Action::ShowState),
                Choice::Calc => Ok(Action::RunCalc),
                Choice::Reset => {
                    self.state = MatchState::empty();
                    Ok(Action::ShowReset)
                },
                Choice::Quit => Ok(Action::Stop),
                Choice::Retry => Ok(Action::ShowMenu),
            },
        }
    }
}

/// Answers an exchange text `<state>;<row>` with the text of the state
/// after the row.
pub fn merge_exchange(input: &str) -> (r: Result<String, ParseError>)
    ensures
        match r {
            Ok(text) => exchange_of(input@) == Ok::<Seq<char>, ParseError>(text@),
            Err(e) => exchange_of(input@) == Err::<Seq<char>, ParseError>(e),
        },
{
    let t = chars_of(input);
    let at = find_char(&t, ';', 0);
    if at >= t.len() {
        return Err(ParseError::Exchange);
    }
    let state = match MatchState::from_chars(&trim_chars(&slice_of(&t, 0, at))) {
        Ok(state) => state,
        Err(e) => {
            return Err(e);
        },
    };
    let wm = match WordMatch::from_chars(&slice_of(&t, at + 1, t.len())) {
        Ok(wm) => wm,
        Err(e) => {
            return Err(e);
        },
    };
    let merged = MatchComb { state: &state, wm: &wm }.merge();
    Ok(merged.serialize())
}

} // verus!

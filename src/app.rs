//! The viewer's state machine: a mode, a search pattern and a table. The
//! terminal loop outside feeds it key presses and draws what it holds.

use crate::table::{parse_spec, ParseError, Table};
use vstd::prelude::*;

verus! {

/// What key presses do: browse the table, edit the search, or stop.
#[derive(Debug, Clone, Copy, PartialEq, Eq, Structural)]
pub enum Mode {
    Main,
    Search,
    Exit,
}

impl Default for Mode {
    fn default() -> (m: Mode)
        ensures
            m == Mode::Main,
    {
        Mode::Main
    }
}

/// A key press, as far as the viewer tells keys apart.
#[derive(Debug, Clone, Copy, PartialEq, Eq, Structural)]
pub enum Key {
    Char(char),
    Backspace,
    Esc,
    Other,
}

/// The mode after `key` is pressed in `mode`: `q` stops and `/` starts a
/// search from the main mode; escape leaves a search.
pub open spec fn next_mode(mode: Mode, key: Key) -> Mode {
    match mode {
        Mode::Main => match key {
            Key::Char('q') => Mode::Exit,
            Key::Char('/') => Mode::Search,
            _ => Mode::Main,
        },
        Mode::Search => match key {
            Key::Esc => Mode::Main,
            _ => Mode::Search,
        },
        Mode::Exit => Mode::Exit,
    }
}

/// The search pattern after `key` is pressed in `mode`: while searching, a
/// character is appended and backspace removes the last one, if any.
pub open spec fn next_search(mode: Mode, key: Key, search: Seq<char>) -> Seq<char> {
    match mode {
        Mode::Search => match key {
            Key::Char(c) => search.push(c),
            Key::Backspace => if search.len() > 0 {
                search.drop_last()
            } else {
                search
            },
            _ => search,
        },
        _ => search,
    }
}

/// Relies on `String::push`: appends the character at the end.
#[verifier::external_body]
fn push_char(s: &mut String, c: char)
    ensures
        final(s)@ == old(s)@.push(c),
{
    s.push(c);
}

/// Relies on `String::pop`: removes and returns the last character, or
/// returns `None` and leaves an empty string as it is.
#[verifier::external_body]
fn pop_char(s: &mut String) -> (r: Option<char>)
    ensures
        old(s)@.len() == 0 ==> r is None && final(s)@ == old(s)@,
        old(s)@.len() > 0 ==> r == Some(old(s)@.last()) && final(s)@ == old(s)@.drop_last(),
{
    s.pop()
}

/// The viewer's state.
pub struct App {
    pub mode: Mode,
    pub table: Table,
    pub search: String,
}

impl App {
    /// Parses `input` and starts in the main mode with an empty search.
    pub fn new(input: &str) -> (r: Result<App, ParseError>)
        ensures
            r is Err <==> parse_spec(input@) is None,
            r matches Err(e) ==> e == ParseError::NoHeader,
            r matches Ok(a) ==> a.mode == Mode::Main && a.search@.len() == 0 && parse_spec(
                input@,
            ) == Some(a.table@),
    {
        match Table::parse(input) {
            Ok(table) => Ok(App { mode: Mode::Main, table, search: String::new() }),
            Err(e) => Err(e),
        }
    }

    /// Whether the viewer still runs, that is, no exit was asked for.
    pub fn is_running(&self) -> (r: bool)
        ensures
            r == (self.mode != Mode::Exit),
    {
        self.mode != Mode::Exit
    }

    fn main_mode(&mut self)
        ensures
            final(self).mode == Mode::Main,
            final(self).search == old(self).search,
            final(self).table == old(self).table,
    {
        self.mode = Mode::Main;
    }

    fn search_mode(&mut self)
        ensures
            final(self).mode == Mode::Search,
            final(self).search == old(self).search,
            final(self).table == old(self).table,
    {
        self.mode = Mode::Search;
    }

    fn exit(&mut self)
        ensures
            final(self).mode == Mode::Exit,
            final(self).search == old(self).search,
            final(self).table == old(self).table,
    {
        self.mode = Mode::Exit;
    }

    fn update_search(&mut self, key: Key)
        ensures
            final(self).search@ == next_search(Mode::Search, key, old(self).search@),
            final(self).mode == old(self).mode,
            final(self).table == old(self).table,
    {
        match key {
            Key::Char(c) => push_char(&mut self.search, c),
            Key::Backspace => {
                pop_char(&mut self.search);
            },
            _ => {},
        }
    }

    /// Applies one key press: the mode and the search pattern move as
    /// `next_mode` and `next_search` say; the table stays as it is.
    pub fn handle_key(&mut self, key: Key)
        ensures
            final(self).mode == next_mode(old(self).mode, key),
            final(self).search@ == next_search(old(self).mode, key, old(self).search@),
            final(self).table == old(self).table,
    {
        match self.mode {
            Mode::Main => match key {
                Key::Char('q') => self.exit(),
                Key::Char('/') => self.search_mode(),
                _ => {},
            },
            Mode::Search => match key {
                Key::Char(_) | Key::Backspace => self.update_search(key),
                Key::Esc => self.main_mode(),
                _ => {},
            },
            Mode::Exit => {},
        }
    }
}

} // verus!

//! Interactive state of the launcher: the live query string, the current
//! match list, the input mode and the exit flag, with one pure transition per
//! key event. The embedding application polls the terminal, feeds each key
//! press through these transitions, and re-runs the ranking engine whenever
//! the query changes.

use vstd::prelude::*;

use crate::ranking::{candidate_scores, filter_and_rank, spec_rank};

verus! {

/// Relies on `String::push`: appends the given character to the end of the
/// string.
pub assume_specification[ String::push ](s: &mut String, ch: char)
    ensures
        final(s)@ == old(s)@.push(ch),
;

/// Input focus of the application: typing into the search field, or normal
/// key handling.
#[derive(Clone, Copy, Debug, PartialEq, Eq, Structural)]
pub enum AppMode {
    Input,
    Normal,
}

impl Default for AppMode {
    fn default() -> (r: Self)
        ensures
            r == AppMode::Normal,
    {
        AppMode::Normal
    }
}

/// A key press, reduced to what the state transitions read.
#[derive(Clone, Copy, Debug, PartialEq, Eq, Structural)]
pub enum KeyPress {
    Char(char),
    Esc,
    Backspace,
    Other,
}

/// The launcher's interactive state.
#[derive(Debug)]
pub struct App {
    /// The live query, `None` while nothing has been typed.
    pub current_search: Option<String>,
    /// The most recent ranked matches: display text and score.
    pub matches: Vec<(String, i64)>,
    /// Set when the user asked to leave.
    pub exit: bool,
    /// Current input focus.
    pub mode: AppMode,
}

/// Specification-level image of an [`App`].
pub ghost struct AppModel {
    pub current_search: Option<Seq<char>>,
    pub matches: Seq<(Seq<char>, i64)>,
    pub exit: bool,
    pub mode: AppMode,
}

impl View for App {
    type V = AppModel;

    open spec fn view(&self) -> AppModel {
        AppModel {
            current_search: match self.current_search {
                Some(ref s) => Some(s@),
                None => None,
            },
            matches: self.matches@.map_values(|p: (String, i64)| (p.0@, p.1)),
            exit: self.exit,
            mode: self.mode,
        }
    }
}

/// Effect of one key press in normal mode: `q` asks to exit, `/` moves focus
/// to the search field, anything else changes nothing.
pub open spec fn step_normal(a: AppModel, key: KeyPress) -> AppModel {
    match key {
        KeyPress::Char(c) => if c == 'q' {
            AppModel { exit: true, ..a }
        } else if c == '/' {
            AppModel { mode: AppMode::Input, ..a }
        } else {
            a
        },
        _ => a,
    }
}

/// Effect of one key press in input mode: escape returns to normal mode, a
/// character is appended to the query (opening it if empty), backspace drops
/// the last character and clears the query when it was the only one.
pub open spec fn step_input(a: AppModel, key: KeyPress) -> AppModel {
    match key {
        KeyPress::Esc => AppModel { mode: AppMode::Normal, ..a },
        KeyPress::Char(c) => AppModel {
            current_search: match a.current_search {
                Some(s) => Some(s.push(c)),
                None => Some(seq![c]),
            },
            ..a
        },
        KeyPress::Backspace => AppModel {
            current_search: match a.current_search {
                Some(s) => if s.len() > 1 {
                    Some(s.drop_last())
                } else {
                    None
                },
                None => None,
            },
            ..a
        },
        KeyPress::Other => a,
    }
}

/// Effect of one key press, dispatched on the current mode.
pub open spec fn step_key(a: AppModel, key: KeyPress) -> AppModel {
    match a.mode {
        AppMode::Normal => step_normal(a, key),
        AppMode::Input => step_input(a, key),
    }
}

impl Default for App {
    fn default() -> (r: Self)
        ensures
            r@.current_search is None,
            r@.matches == Seq::<(Seq<char>, i64)>::empty(),
            r@.exit == false,
            r@.mode == AppMode::Normal,
    {
        let a = App { current_search: None, matches: Vec::new(), exit: false, mode: AppMode::Normal };
        proof {
            assert(a@.matches =~= Seq::<(Seq<char>, i64)>::empty());
        }
        a
    }
}

impl App {
    /// Ask the application to leave its event loop.
    pub fn exit(&mut self)
        ensures
            final(self)@ == (AppModel { exit: true, ..old(self)@ }),
    {
        self.exit = true;
    }

    /// Handle one key press in normal mode.
    pub fn handle_normal_key_event(&mut self, key: KeyPress)
        ensures
            final(self)@ == step_normal(old(self)@, key),
    {
        match key {
            KeyPress::Char(c) => {
                if c == 'q' {
                    self.exit();
                } else if c == '/' {
                    self.mode = AppMode::Input;
                }
            },
            _ => {},
        }
    }

    /// Handle one key press in input mode.
    pub fn handle_input_key_event(&mut self, key: KeyPress)
        ensures
            final(self)@ == step_input(old(self)@, key),
    {
        match key {
            KeyPress::Esc => {
                self.mode = AppMode::Normal;
            },
            KeyPress::Char(c) => {
                let prev = take_search(&mut self.current_search);
                match prev {
                    Some(mut s) => {
                        s.push(c);
                        self.current_search = Some(s);
                    },
                    None => {
                        let mut s = String::new();
                        s.push(c);
                        proof {
                            assert(s@ =~= seq![c]);
                        }
                        self.current_search = Some(s);
                    },
                }
            },
            KeyPress::Backspace => {
                let prev = take_search(&mut self.current_search);
                match prev {
                    Some(s) => {
                        let n = s.as_str().unicode_len();
                        if n > 1 {
                            let shorter = s.as_str().substring_char(0, n - 1).to_owned();
                            proof {
                                assert(shorter@ =~= s@.drop_last());
                            }
                            self.current_search = Some(shorter);
                        } else {
                            self.current_search = None;
                        }
                    },
                    None => {},
                }
            },
            KeyPress::Other => {},
        }
    }

    /// Handle one key press, dispatching on the current mode.
    pub fn handle_key_event_mode(&mut self, key: KeyPress)
        ensures
            final(self)@ == step_key(old(self)@, key),
    {
        match self.mode {
            AppMode::Normal => self.handle_normal_key_event(key),
            AppMode::Input => self.handle_input_key_event(key),
        }
    }

    /// Rank `items` against `query`: the matching items with their scores,
    /// highest score first, ties in input order, non-matching items dropped.
    pub fn fuzzy_filter(items: &Vec<String>, query: &str) -> (r: Vec<(String, i64)>)
        ensures
            ({
                let ranked = spec_rank(
                    candidate_scores(items@.map_values(|c: String| c@), query@),
                );
                &&& r@.len() == ranked.len()
                &&& forall|k: int|
                    0 <= k < r@.len() ==> (#[trigger] r@[k]).1 == ranked[k].1 && r@[k].0@
                        == items@[ranked[k].0 as int]@
            }),
    {
        let ranked = filter_and_rank(items, query);
        let mut out: Vec<(String, i64)> = Vec::new();
        let mut i: usize = 0;
        while i < ranked.len()
            invariant
                0 <= i <= ranked@.len(),
                ranked@ == spec_rank(candidate_scores(items@.map_values(|c: String| c@), query@)),
                forall|k: int|
                    0 <= k < ranked@.len() ==> (#[trigger] ranked@[k]).0 < items@.len(),
                out@.len() == i,
                forall|k: int|
                    0 <= k < i ==> (#[trigger] out@[k]).1 == ranked@[k].1 && out@[k].0@
                        == items@[ranked@[k].0 as int]@,
            decreases ranked@.len() - i,
        {
            let (idx, score) = ranked[i];
            out.push((items[idx].clone(), score));
            i = i + 1;
        }
        out
    }
}

/// Move the query string out of the option, leaving `None`.
fn take_search(o: &mut Option<String>) -> (r: Option<String>)
    ensures
        r == *old(o),
        *final(o) is None,
{
    let mut prev: Option<String> = None;
    core::mem::swap(&mut prev, o);
    prev
}

} // verus!

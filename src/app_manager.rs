//! The state behind the terminal interface: the two input fields, the words
//! shown, and the panel selection; and what each panel displays.

use crate::panels::{Direction, PanelGraph, PanelKind, PanelRef};
use crate::pattern::{is_valid_regex, regex_compiles};
use crate::text::{is_whitespace, pop_char, push_char, white_space};
use vstd::prelude::*;
use vstd::string::{StrSliceExecFns, StringExecFns};

verus! {

/// A search request: the query letters and the pattern (empty for none).
#[derive(Debug)]
pub struct QueryRequest {
    pub letters: String,
    pub regex: String,
}

/// The words found for a request, ready to show.
#[derive(Debug)]
pub struct QueryResponse {
    pub words: Vec<String>,
}

/// A key press, sorted into the actions of the interface.
#[derive(Debug, Clone, Copy, PartialEq, Eq, Structural)]
pub enum InputEvent {
    NoOp,
    Exit,
    AppendCharToInputLetters(char),
    BackSpace,
    SelectPanel(Direction),
}

/// What the interface holds: the inputs, the words shown, the panels.
#[derive(Debug)]
pub struct AppState {
    input_letters: String,
    input_regex: String,
    output_words: Vec<String>,
    panels: PanelGraph,
}

impl AppState {
    /// Both inputs and the words are empty, and the panels are as at start.
    pub closed spec fn is_initial(self) -> bool {
        &&& self.input_letters@.len() == 0
        &&& self.input_regex@.len() == 0
        &&& self.output_words@.len() == 0
        &&& self.panels == PanelGraph::initial_spec()
    }
}

impl Default for AppState {
    fn default() -> (r: Self)
        ensures
            r.is_initial(),
    {
        AppState {
            input_letters: String::new(),
            input_regex: String::new(),
            output_words: Vec::new(),
            panels: PanelGraph::initial(),
        }
    }
}

/// The interface state and the operations that keys trigger on it.
#[derive(Debug)]
pub struct AppManager {
    state: AppState,
}

impl AppManager {
    pub closed spec fn letters(self) -> Seq<char> {
        self.state.input_letters@
    }

    pub closed spec fn regex(self) -> Seq<char> {
        self.state.input_regex@
    }

    pub closed spec fn words(self) -> Seq<String> {
        self.state.output_words@
    }

    pub closed spec fn graph(self) -> PanelGraph {
        self.state.panels
    }

    /// Appends `ch` to the input of the selected panel; whitespace, and the
    /// words panel, which has no input, leave everything unchanged. Returns
    /// whether an input changed.
    pub fn push_ch(&mut self, ch: char) -> (r: bool)
        ensures
            r == (!white_space(ch) && old(self).graph().selected != PanelKind::Words),
            final(self).graph() == old(self).graph(),
            final(self).words() == old(self).words(),
            final(self).letters() == if r && old(self).graph().selected == PanelKind::Letters {
                old(self).letters().push(ch)
            } else {
                old(self).letters()
            },
            final(self).regex() == if r && old(self).graph().selected == PanelKind::Regex {
                old(self).regex().push(ch)
            } else {
                old(self).regex()
            },
    {
        if is_whitespace(ch) {
            return false;
        }
        match self.state.panels.selected {
            PanelKind::Letters => push_char(&mut self.state.input_letters, ch),
            PanelKind::Regex => push_char(&mut self.state.input_regex, ch),
            PanelKind::Words => {
                return false;
            },
        }
        true
    }

    /// Removes the last character of the input of the selected panel.
    /// Returns whether one was removed.
    pub fn pop_ch(&mut self) -> (r: bool)
        ensures
            r == match old(self).graph().selected {
                PanelKind::Letters => old(self).letters().len() > 0,
                PanelKind::Regex => old(self).regex().len() > 0,
                PanelKind::Words => false,
            },
            final(self).graph() == old(self).graph(),
            final(self).words() == old(self).words(),
            final(self).letters() == if r && old(self).graph().selected == PanelKind::Letters {
                old(self).letters().drop_last()
            } else {
                old(self).letters()
            },
            final(self).regex() == if r && old(self).graph().selected == PanelKind::Regex {
                old(self).regex().drop_last()
            } else {
                old(self).regex()
            },
    {
        match self.state.panels.selected {
            PanelKind::Letters => pop_char(&mut self.state.input_letters).is_some(),
            PanelKind::Regex => pop_char(&mut self.state.input_regex).is_some(),
            PanelKind::Words => false,
        }
    }

    /// The query letters typed so far.
    pub fn get_input_letters(&self) -> (r: &str)
        ensures
            r@ == self.letters(),
    {
        self.state.input_letters.as_str()
    }

    /// The pattern typed so far.
    pub fn get_input_regex(&self) -> (r: &str)
        ensures
            r@ == self.regex(),
    {
        self.state.input_regex.as_str()
    }

    /// The words shown.
    pub fn get_ouput_words(&self) -> (r: &Vec<String>)
        ensures
            r@ == self.words(),
    {
        &self.state.output_words
    }

    /// Replaces the words shown.
    pub fn set_output_words(&mut self, words: Vec<String>)
        ensures
            final(self).words() == words@,
            final(self).letters() == old(self).letters(),
            final(self).regex() == old(self).regex(),
            final(self).graph() == old(self).graph(),
    {
        self.state.output_words = words;
    }

    /// The letters are worth a search: at least two characters.
    pub fn is_letters_valid(&self) -> (r: bool)
        ensures
            r == (self.letters().len() > 1),
    {
        self.state.input_letters.as_str().unicode_len() > 1
    }

    /// The pattern is empty or one that `regex` accepts.
    pub fn is_regex_valid(&self) -> (r: bool)
        ensures
            r == (self.regex().len() == 0 || regex_compiles(self.regex())),
    {
        let expr = self.state.input_regex.as_str();
        expr.is_empty() || is_valid_regex(expr)
    }

    /// Moves the selection in `direction`; returns whether a panel lay
    /// there. Entering the words panel links it back up to the panel the
    /// selection came from.
    pub fn select_panel(&mut self, direction: Direction) -> (r: bool)
        ensures
            r == old(self).graph().target(direction) is Some,
            final(self).graph() == old(self).graph().moved(direction),
            final(self).letters() == old(self).letters(),
            final(self).regex() == old(self).regex(),
            final(self).words() == old(self).words(),
    {
        self.state.panels.select(direction)
    }

    /// The selected panel with its links.
    pub fn selected_panel(&self) -> (r: PanelRef)
        ensures
            r.kind_spec() == self.graph().selected,
            r.links_spec() == self.graph().links_of(self.graph().selected),
    {
        self.state.panels.selected_ref()
    }

    /// The panel in `direction` from the selected one, if any.
    pub fn get_panel_in_dir(&self, direction: Direction) -> (r: Option<PanelRef>)
        ensures
            r is Some <==> self.graph().target(direction) is Some,
            r matches Some(p) ==> p.kind_spec() == self.graph().target(direction)->0
                && p.links_spec() == self.graph().links_of(p.kind_spec()),
    {
        match self.state.panels.links(self.state.panels.selected).get(direction) {
            Some(kind) => Some(self.state.panels.panel(kind)),
            None => None,
        }
    }

    /// The panels linked from the selected one, each with its direction, in
    /// the order up, down, left, right.
    pub fn get_linked_panels(&self) -> (r: Vec<(Direction, PanelRef)>)
        ensures
            forall|i: int| 0 <= i < r@.len() ==> self.graph().target((#[trigger] r@[i]).0) == Some(r@[i].1.kind_spec())
                && r@[i].1.links_spec() == self.graph().links_of(r@[i].1.kind_spec()),
            forall|d: Direction| self.graph().target(d) is Some ==> exists|i: int| 0 <= i < r@.len() && (#[trigger] r@[i]).0 == d,
            forall|i: int, j: int| 0 <= i < j < r@.len() ==> r@[i].0 != r@[j].0,
    {
        let mut r: Vec<(Direction, PanelRef)> = Vec::new();
        let dirs = [Direction::Up, Direction::Down, Direction::Left, Direction::Right];
        let mut k: usize = 0;
        while k < 4
            invariant
                k <= 4,
                dirs@ == seq![Direction::Up, Direction::Down, Direction::Left, Direction::Right],
                forall|i: int| 0 <= i < r@.len() ==> self.graph().target((#[trigger] r@[i]).0) == Some(r@[i].1.kind_spec())
                    && r@[i].1.links_spec() == self.graph().links_of(r@[i].1.kind_spec()),
                forall|i: int| 0 <= i < r@.len() ==> exists|x: int| 0 <= x < k && dirs@[x] == (#[trigger] r@[i]).0,
                forall|x: int| 0 <= x < k && self.graph().target(#[trigger] dirs@[x]) is Some ==> exists|i: int| 0 <= i < r@.len() && (#[trigger] r@[i]).0 == dirs@[x],
                forall|i: int, j: int| 0 <= i < j < r@.len() ==> r@[i].0 != r@[j].0,
            decreases 4 - k,
        {
            let d = dirs[k];
            match self.get_panel_in_dir(d) {
                Some(p) => {
                    let ghost before = r@;
                    proof {
                        assert forall|i: int| 0 <= i < before.len() implies before[i].0 != d by {
                            let x = choose|x: int| 0 <= x < k && dirs@[x] == (#[trigger] before[i]).0;
                        }
                    }
                    r.push((d, p));
                    proof {
                        assert(r@[r@.len() - 1] == (d, p));
                        assert forall|i: int| 0 <= i < r@.len() implies exists|x: int| 0 <= x < k + 1 && dirs@[x] == (#[trigger] r@[i]).0 by {
                            if i < before.len() {
                                assert(r@[i] == before[i]);
                                let x = choose|x: int| 0 <= x < k && dirs@[x] == (#[trigger] before[i]).0;
                            } else {
                                assert(dirs@[k as int] == r@[i].0);
                            }
                        }
                        assert forall|x: int| 0 <= x < k + 1 && self.graph().target(#[trigger] dirs@[x]) is Some implies exists|i: int| 0 <= i < r@.len() && (#[trigger] r@[i]).0 == dirs@[x] by {
                            if x < k {
                                let i = choose|i: int| 0 <= i < before.len() && (#[trigger] before[i]).0 == dirs@[x];
                                assert(r@[i] == before[i]);
                            } else {
                                assert(r@[r@.len() - 1].0 == dirs@[x]);
                            }
                        }
                    }
                },
                None => {
                    proof {
                        assert forall|i: int| 0 <= i < r@.len() implies exists|x: int| 0 <= x < k + 1 && dirs@[x] == (#[trigger] r@[i]).0 by {
                            let x = choose|x: int| 0 <= x < k && dirs@[x] == (#[trigger] r@[i]).0;
                        }
                    }
                },
            }
            k = k + 1;
        }
        proof {
            assert forall|d: Direction| self.graph().target(d) is Some implies exists|i: int| 0 <= i < r@.len() && (#[trigger] r@[i]).0 == d by {
                let x = match d {
                    Direction::Up => 0int,
                    Direction::Down => 1int,
                    Direction::Left => 2int,
                    Direction::Right => 3int,
                };
                assert(dirs@[x] == d);
            }
        }
        r
    }
}

impl AppManager {
    /// Applies one key press. Returns `None` for an exit request, otherwise
    /// whether an input changed.
    pub fn apply_event(&mut self, event: InputEvent) -> (r: Option<bool>)
        ensures
            event is Exit ==> r is None && *final(self) == *old(self),
            event is NoOp ==> r == Some(false) && *final(self) == *old(self),
            event matches InputEvent::AppendCharToInputLetters(ch) ==> {
                let typed = !white_space(ch) && old(self).graph().selected != PanelKind::Words;
                &&& r == Some(typed)
                &&& final(self).graph() == old(self).graph()
                &&& final(self).words() == old(self).words()
                &&& final(self).letters() == if typed && old(self).graph().selected == PanelKind::Letters {
                    old(self).letters().push(ch)
                } else {
                    old(self).letters()
                }
                &&& final(self).regex() == if typed && old(self).graph().selected == PanelKind::Regex {
                    old(self).regex().push(ch)
                } else {
                    old(self).regex()
                }
            },
            event is BackSpace ==> {
                let removed = match old(self).graph().selected {
                    PanelKind::Letters => old(self).letters().len() > 0,
                    PanelKind::Regex => old(self).regex().len() > 0,
                    PanelKind::Words => false,
                };
                &&& r == Some(removed)
                &&& final(self).graph() == old(self).graph()
                &&& final(self).words() == old(self).words()
                &&& final(self).letters() == if removed && old(self).graph().selected == PanelKind::Letters {
                    old(self).letters().drop_last()
                } else {
                    old(self).letters()
                }
                &&& final(self).regex() == if removed && old(self).graph().selected == PanelKind::Regex {
                    old(self).regex().drop_last()
                } else {
                    old(self).regex()
                }
            },
            event matches InputEvent::SelectPanel(d) ==> r == Some(false) && final(self).graph()
                == old(self).graph().moved(d) && final(self).letters() == old(self).letters()
                && final(self).regex() == old(self).regex() && final(self).words() == old(self).words(),
    {
        match event {
            InputEvent::Exit => None,
            InputEvent::NoOp => Some(false),
            InputEvent::AppendCharToInputLetters(ch) => Some(self.push_ch(ch)),
            InputEvent::BackSpace => Some(self.pop_ch()),
            InputEvent::SelectPanel(d) => {
                self.select_panel(d);
                Some(false)
            },
        }
    }

    /// The query to send after the inputs changed: only when the letters are
    /// worth a search and the pattern is valid.
    pub fn pending_query(&self, input_updated: bool) -> (r: Option<QueryRequest>)
        ensures
            r is Some <==> input_updated && self.letters().len() > 1 && (self.regex().len() == 0
                || regex_compiles(self.regex())),
            r matches Some(q) ==> q.letters@ == self.letters() && q.regex@ == self.regex(),
    {
        if !input_updated || !self.is_letters_valid() || !self.is_regex_valid() {
            return None;
        }
        Some(
            QueryRequest {
                letters: String::from_str(self.get_input_letters()),
                regex: String::from_str(self.get_input_regex()),
            },
        )
    }
}

impl Default for AppManager {
    fn default() -> (r: Self)
        ensures
            r.letters().len() == 0,
            r.regex().len() == 0,
            r.words().len() == 0,
            r.graph() == PanelGraph::initial_spec(),
    {
        AppManager { state: AppState::default() }
    }
}

/// How a panel is highlighted.
#[derive(Clone, Copy, Debug, Default, PartialEq, Eq, Structural)]
pub enum PanelState {
    #[default]
    Default,
    Selected,
    Error,
}

/// The hint for panel `kind`: the arrow of the last entry for it.
pub open spec fn hint_for(hints: Seq<(PanelKind, char)>, kind: PanelKind) -> Option<char>
    decreases hints.len(),
{
    if hints.len() == 0 {
        None
    } else if hints.last().0 == kind {
        Some(hints.last().1)
    } else {
        hint_for(hints.drop_last(), kind)
    }
}

/// A panel title: the name, followed by the hint in parentheses if any.
pub open spec fn titled(name: Seq<char>, hint: Option<char>) -> Seq<char> {
    match hint {
        Some(h) => name + " ("@ + seq![h] + ")"@,
        None => name,
    }
}

fn find_hint(hints: &Vec<(PanelKind, char)>, kind: PanelKind) -> (r: Option<char>)
    ensures
        r == hint_for(hints@, kind),
{
    let mut i: usize = hints.len();
    assert(hints@.take(i as int) =~= hints@);
    while i > 0
        invariant
            i <= hints@.len(),
            hint_for(hints@, kind) == hint_for(hints@.take(i as int), kind),
        decreases i,
    {
        assert(hints@.take(i as int).drop_last() =~= hints@.take(i - 1));
        if hints[i - 1].0 == kind {
            return Some(hints[i - 1].1);
        }
        i = i - 1;
    }
    None
}

fn title(name: &str, hint: Option<char>) -> (r: String)
    ensures
        r@ == titled(name@, hint),
{
    let mut r = String::from_str(name);
    match hint {
        Some(h) => {
            r.append(" (");
            push_char(&mut r, h);
            r.append(")");
        },
        None => {},
    }
    r
}

/// What the letters panel shows.
pub struct LettersInputPanel<'a> {
    pub title: String,
    pub state: PanelState,
    pub letters: &'a str,
}

impl<'a> LettersInputPanel<'a> {
    pub fn new(mngr: &'a AppManager, hints: &Vec<(PanelKind, char)>) -> (r: LettersInputPanel<'a>)
        ensures
            r.title@ == titled("Letters"@, hint_for(hints@, PanelKind::Letters)),
            r.state == if mngr.graph().selected == PanelKind::Letters {
                PanelState::Selected
            } else {
                PanelState::Default
            },
            r.letters@ == mngr.letters(),
    {
        let hint = find_hint(hints, PanelKind::Letters);
        let state = if mngr.selected_panel().kind() == PanelKind::Letters {
            PanelState::Selected
        } else {
            PanelState::Default
        };
        LettersInputPanel { title: title("Letters", hint), state, letters: mngr.get_input_letters() }
    }
}

/// What the pattern panel shows.
pub struct RegexInputPanel<'a> {
    pub title: String,
    pub state: PanelState,
    pub regex: &'a str,
}

impl<'a> RegexInputPanel<'a> {
    pub fn new(mngr: &'a AppManager, hints: &Vec<(PanelKind, char)>) -> (r: RegexInputPanel<'a>)
        ensures
            r.title@ == titled("Regex"@, hint_for(hints@, PanelKind::Regex)),
            r.state == if !(mngr.regex().len() == 0 || regex_compiles(mngr.regex())) {
                PanelState::Error
            } else if mngr.graph().selected == PanelKind::Regex {
                PanelState::Selected
            } else {
                PanelState::Default
            },
            r.regex@ == mngr.regex(),
    {
        let hint = find_hint(hints, PanelKind::Regex);
        let state = if !mngr.is_regex_valid() {
            PanelState::Error
        } else if mngr.selected_panel().kind() == PanelKind::Regex {
            PanelState::Selected
        } else {
            PanelState::Default
        };
        RegexInputPanel { title: title("Regex", hint), state, regex: mngr.get_input_regex() }
    }
}

/// What the words panel shows.
pub struct WordsOutputPanel<'a> {
    pub title: String,
    pub state: PanelState,
    pub words: &'a Vec<String>,
}

impl<'a> WordsOutputPanel<'a> {
    pub fn new(mngr: &'a AppManager, hints: &Vec<(PanelKind, char)>) -> (r: WordsOutputPanel<'a>)
        ensures
            r.title@ == titled("Words"@, hint_for(hints@, PanelKind::Words)),
            r.state == if mngr.graph().selected == PanelKind::Words {
                PanelState::Selected
            } else {
                PanelState::Default
            },
            r.words@ == mngr.words(),
    {
        let hint = find_hint(hints, PanelKind::Words);
        let state = if mngr.selected_panel().kind() == PanelKind::Words {
            PanelState::Selected
        } else {
            PanelState::Default
        };
        WordsOutputPanel { title: title("Words", hint), state, words: mngr.get_ouput_words() }
    }
}

} // verus!

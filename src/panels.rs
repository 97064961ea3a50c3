//! Navigation between the three panels of the terminal interface: which
//! panel is selected and which panel lies in each direction from it.

use vstd::prelude::*;

verus! {

/// The three panels.
#[derive(Debug, Clone, Copy, PartialEq, Eq, Hash, Structural)]
pub enum PanelKind {
    Letters,
    Regex,
    Words,
}

/// The four directions in which the selection can move.
#[derive(Debug, Clone, Copy, PartialEq, Eq, Hash, Structural)]
pub enum Direction {
    Up,
    Down,
    Left,
    Right,
}

/// The arrow shown as a hint for a direction.
pub open spec fn arrow_of(d: Direction) -> char {
    match d {
        Direction::Up => '↑',
        Direction::Down => '↓',
        Direction::Left => '←',
        Direction::Right => '→',
    }
}

impl Direction {
    /// The arrow shown as a hint for this direction.
    pub fn to_char(self) -> (r: char)
        ensures
            r == arrow_of(self),
    {
        match self {
            Direction::Up => '↑',
            Direction::Down => '↓',
            Direction::Left => '←',
            Direction::Right => '→',
        }
    }
}

/// The panel linked in each direction, if any.
#[derive(Debug, Clone, Copy, PartialEq, Eq, Structural)]
pub struct PanelLinks {
    pub up: Option<PanelKind>,
    pub down: Option<PanelKind>,
    pub left: Option<PanelKind>,
    pub right: Option<PanelKind>,
}

impl PanelLinks {
    pub open spec fn at(self, d: Direction) -> Option<PanelKind> {
        match d {
            Direction::Up => self.up,
            Direction::Down => self.down,
            Direction::Left => self.left,
            Direction::Right => self.right,
        }
    }

    /// No links at all.
    pub fn none() -> (r: Self)
        ensures
            forall|d: Direction| r.at(d) is None,
    {
        PanelLinks { up: None, down: None, left: None, right: None }
    }

    /// The panel linked in direction `d`.
    pub fn get(&self, d: Direction) -> (r: Option<PanelKind>)
        ensures
            r == self.at(d),
    {
        match d {
            Direction::Up => self.up,
            Direction::Down => self.down,
            Direction::Left => self.left,
            Direction::Right => self.right,
        }
    }

    /// Links `panel` in direction `d`, replacing any earlier link there.
    pub fn set(&mut self, d: Direction, panel: PanelKind)
        ensures
            final(self).at(d) == Some(panel),
            forall|e: Direction| e != d ==> final(self).at(e) == old(self).at(e),
    {
        match d {
            Direction::Up => self.up = Some(panel),
            Direction::Down => self.down = Some(panel),
            Direction::Left => self.left = Some(panel),
            Direction::Right => self.right = Some(panel),
        }
    }
}

/// A panel with its links, as seen at one moment.
#[derive(Debug, Clone, Copy, PartialEq, Eq, Structural)]
pub struct PanelRef {
    kind: PanelKind,
    links: PanelLinks,
}

/// The panel node of the navigation tree; the same as a panel reference.
pub type PanelTreeNode = PanelRef;

impl PanelRef {
    pub closed spec fn kind_spec(self) -> PanelKind {
        self.kind
    }

    pub closed spec fn links_spec(self) -> PanelLinks {
        self.links
    }

    /// A panel of kind `kind` with no links.
    pub fn new(kind: PanelKind) -> (r: Self)
        ensures
            r.kind_spec() == kind,
            forall|d: Direction| r.links_spec().at(d) is None,
    {
        PanelRef { kind, links: PanelLinks::none() }
    }

    /// Links `panel` in direction `direction`.
    pub fn link(&mut self, direction: Direction, panel: PanelRef)
        ensures
            final(self).kind_spec() == old(self).kind_spec(),
            final(self).links_spec().at(direction) == Some(panel.kind_spec()),
            forall|e: Direction| e != direction ==> final(self).links_spec().at(e) == old(self).links_spec().at(e),
    {
        self.links.set(direction, panel.kind);
    }

    /// The kind of the panel.
    pub fn kind(&self) -> (r: PanelKind)
        ensures
            r == self.kind_spec(),
    {
        self.kind
    }

    /// The panel linked in direction `d`, if any.
    pub fn linked(&self, d: Direction) -> (r: Option<PanelKind>)
        ensures
            r == self.links_spec().at(d),
    {
        self.links.get(d)
    }
}

/// The three panels with their links, and the selected one.
#[derive(Debug, Clone, Copy, PartialEq, Eq, Structural)]
pub struct PanelGraph {
    pub letters: PanelLinks,
    pub regex: PanelLinks,
    pub words: PanelLinks,
    pub selected: PanelKind,
}

impl PanelGraph {
    /// The links of panel `kind`.
    pub open spec fn links_of(self, kind: PanelKind) -> PanelLinks {
        match kind {
            PanelKind::Letters => self.letters,
            PanelKind::Regex => self.regex,
            PanelKind::Words => self.words,
        }
    }

    /// The panel one step from the selected one in direction `d`.
    pub open spec fn target(self, d: Direction) -> Option<PanelKind> {
        self.links_of(self.selected).at(d)
    }

    /// The graph after moving the selection in direction `d`: nothing
    /// changes when no panel lies there; otherwise that panel is selected,
    /// and when it is the words panel, it links back up to the panel the
    /// selection came from.
    pub open spec fn moved(self, d: Direction) -> PanelGraph {
        match self.target(d) {
            None => self,
            Some(next) => {
                let words = if next == PanelKind::Words {
                    PanelLinks { up: Some(self.selected), ..self.words }
                } else {
                    self.words
                };
                PanelGraph { words, selected: next, ..self }
            },
        }
    }

    /// The initial layout: letters and regex side by side above the words;
    /// the letters panel is selected.
    pub open spec fn initial_spec() -> PanelGraph {
        PanelGraph {
            letters: PanelLinks { up: None, down: Some(PanelKind::Words), left: None, right: Some(PanelKind::Regex) },
            regex: PanelLinks { up: None, down: Some(PanelKind::Words), left: Some(PanelKind::Letters), right: None },
            words: PanelLinks { up: None, down: None, left: None, right: None },
            selected: PanelKind::Letters,
        }
    }

    /// The initial layout: letters and regex side by side above the words;
    /// the letters panel is selected.
    pub fn initial() -> (r: Self)
        ensures
            r == PanelGraph::initial_spec(),
    {
        PanelGraph {
            letters: PanelLinks { up: None, down: Some(PanelKind::Words), left: None, right: Some(PanelKind::Regex) },
            regex: PanelLinks { up: None, down: Some(PanelKind::Words), left: Some(PanelKind::Letters), right: None },
            words: PanelLinks { up: None, down: None, left: None, right: None },
            selected: PanelKind::Letters,
        }
    }

    /// The links of panel `kind`.
    pub fn links(&self, kind: PanelKind) -> (r: PanelLinks)
        ensures
            r == self.links_of(kind),
    {
        match kind {
            PanelKind::Letters => self.letters,
            PanelKind::Regex => self.regex,
            PanelKind::Words => self.words,
        }
    }

    /// Moves the selection in direction `d`; returns whether a panel lay
    /// there.
    pub fn select(&mut self, d: Direction) -> (r: bool)
        ensures
            r == old(self).target(d) is Some,
            *final(self) == old(self).moved(d),
    {
        let here = self.selected;
        match self.links(here).get(d) {
            None => false,
            Some(next) => {
                if next == PanelKind::Words {
                    self.words.up = Some(here);
                }
                self.selected = next;
                true
            },
        }
    }

    /// The selected panel with its links.
    pub fn selected_ref(&self) -> (r: PanelRef)
        ensures
            r.kind_spec() == self.selected,
            r.links_spec() == self.links_of(self.selected),
    {
        PanelRef { kind: self.selected, links: self.links(self.selected) }
    }

    /// The panel of kind `kind` with its links.
    pub fn panel(&self, kind: PanelKind) -> (r: PanelRef)
        ensures
            r.kind_spec() == kind,
            r.links_spec() == self.links_of(kind),
    {
        PanelRef { kind, links: self.links(kind) }
    }
}

/// The hints for links `l`: each linked panel with the arrow of its
/// direction, in the order up, down, left, right.
pub open spec fn hints_of(l: PanelLinks) -> Seq<(PanelKind, char)> {
    let up = match l.up {
        Some(k) => seq![(k, arrow_of(Direction::Up))],
        None => Seq::empty(),
    };
    let down = match l.down {
        Some(k) => seq![(k, arrow_of(Direction::Down))],
        None => Seq::empty(),
    };
    let left = match l.left {
        Some(k) => seq![(k, arrow_of(Direction::Left))],
        None => Seq::empty(),
    };
    let right = match l.right {
        Some(k) => seq![(k, arrow_of(Direction::Right))],
        None => Seq::empty(),
    };
    up + down + left + right
}

fn push_hint(out: &mut Vec<(PanelKind, char)>, link: Option<PanelKind>, d: Direction)
    ensures
        final(out)@ == old(out)@ + match link {
            Some(k) => seq![(k, arrow_of(d))],
            None => Seq::<(PanelKind, char)>::empty(),
        },
{
    match link {
        Some(k) => {
            out.push((k, d.to_char()));
            assert(final(out)@ =~= old(out)@ + seq![(k, arrow_of(d))]);
        },
        None => {
            assert(final(out)@ =~= old(out)@ + Seq::<(PanelKind, char)>::empty());
        },
    }
}

/// The hints for links `l`: each linked panel with the arrow of its
/// direction.
pub fn hints_for(l: &PanelLinks) -> (r: Vec<(PanelKind, char)>)
    ensures
        r@ == hints_of(*l),
{
    let mut r: Vec<(PanelKind, char)> = Vec::new();
    push_hint(&mut r, l.up, Direction::Up);
    push_hint(&mut r, l.down, Direction::Down);
    push_hint(&mut r, l.left, Direction::Left);
    push_hint(&mut r, l.right, Direction::Right);
    assert(r@ =~= hints_of(*l));
    r
}

/// The hints for the panels linked from the selected one: each linked panel
/// with the arrow of its direction.
pub fn generate_hints(linked: &Vec<(Direction, PanelRef)>) -> (r: Vec<(PanelKind, char)>)
    ensures
        r@.len() == linked@.len(),
        forall|i: int| 0 <= i < linked@.len() ==> #[trigger] r@[i] == (linked@[i].1.kind_spec(), arrow_of(linked@[i].0)),
{
    let mut r: Vec<(PanelKind, char)> = Vec::new();
    let mut i: usize = 0;
    while i < linked.len()
        invariant
            i <= linked@.len(),
            r@.len() == i,
            forall|j: int| 0 <= j < i ==> #[trigger] r@[j] == (linked@[j].1.kind_spec(), arrow_of(linked@[j].0)),
        decreases linked@.len() - i,
    {
        let (d, p) = linked[i];
        r.push((p.kind(), d.to_char()));
        i = i + 1;
    }
    r
}

/// Panel navigation: the selected panel and the links between panels.
#[derive(Debug)]
pub struct PanelManager {
    graph: PanelGraph,
}

impl PanelManager {
    pub closed spec fn graph_spec(self) -> PanelGraph {
        self.graph
    }

    /// Moves the selection in `direction`; nothing happens when no panel
    /// lies there. Entering the words panel links it back up to the panel
    /// the selection came from.
    pub fn select_panel(&mut self, direction: Direction)
        ensures
            final(self).graph_spec() == old(self).graph_spec().moved(direction),
    {
        self.graph.select(direction);
    }

    /// The selected panel.
    pub fn selected(&self) -> (r: PanelKind)
        ensures
            r == self.graph_spec().selected,
    {
        self.graph.selected
    }

    /// Each panel linked from the selected one, with the arrow of its
    /// direction.
    pub fn hints(&self) -> (r: Vec<(PanelKind, char)>)
        ensures
            r@ == hints_of(self.graph_spec().links_of(self.graph_spec().selected)),
    {
        let l = self.graph.links(self.graph.selected);
        hints_for(&l)
    }
}

impl Default for PanelManager {
    fn default() -> (r: Self)
        ensures
            r.graph_spec() == PanelGraph::initial_spec(),
    {
        PanelManager { graph: PanelGraph::initial() }
    }
}

} // verus!

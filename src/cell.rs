//! A single grid square: open or closed (and flagged), mined or safe with a
//! count of the mines around it. Every change goes through one transition
//! function that leaves the cell as it is when the change does not apply.

use vstd::prelude::*;

verus! {

/// The number of mines around a safe cell, from zero to eight.
#[derive(Clone, Copy, Debug, PartialEq, Eq, Structural)]
pub enum AdjacentMines {
    Zero,
    One,
    Two,
    Three,
    Four,
    Five,
    Six,
    Seven,
    Eight,
}

impl AdjacentMines {
    /// The count this value stands for.
    pub open spec fn value(self) -> nat {
        match self {
            AdjacentMines::Zero => 0,
            AdjacentMines::One => 1,
            AdjacentMines::Two => 2,
            AdjacentMines::Three => 3,
            AdjacentMines::Four => 4,
            AdjacentMines::Five => 5,
            AdjacentMines::Six => 6,
            AdjacentMines::Seven => 7,
            AdjacentMines::Eight => 8,
        }
    }

    /// The count as an integer.
    pub fn count(self) -> (r: u8)
        ensures
            r == self.value(),
    {
        match self {
            AdjacentMines::Zero => 0,
            AdjacentMines::One => 1,
            AdjacentMines::Two => 2,
            AdjacentMines::Three => 3,
            AdjacentMines::Four => 4,
            AdjacentMines::Five => 5,
            AdjacentMines::Six => 6,
            AdjacentMines::Seven => 7,
            AdjacentMines::Eight => 8,
        }
    }

    /// The value for a count, if the count is at most eight.
    pub fn from_count(n: u8) -> (r: Option<AdjacentMines>)
        ensures
            r is Some <==> n <= 8,
            r is Some ==> r->0.value() == n,
    {
        match n {
            0 => Some(AdjacentMines::Zero),
            1 => Some(AdjacentMines::One),
            2 => Some(AdjacentMines::Two),
            3 => Some(AdjacentMines::Three),
            4 => Some(AdjacentMines::Four),
            5 => Some(AdjacentMines::Five),
            6 => Some(AdjacentMines::Six),
            7 => Some(AdjacentMines::Seven),
            8 => Some(AdjacentMines::Eight),
            _ => None,
        }
    }

    /// One more mine, or `None` past eight.
    pub fn checked_increment(self) -> (r: Option<AdjacentMines>)
        ensures
            r is Some <==> self.value() < 8,
            r is Some ==> r->0.value() == self.value() + 1,
    {
        AdjacentMines::from_count(self.count() + 1)
    }
}

impl Default for AdjacentMines {
    fn default() -> (r: Self)
        ensures
            r == AdjacentMines::Zero,
    {
        AdjacentMines::Zero
    }
}

impl From<AdjacentMines> for u8 {
    fn from(adjacent_mines: AdjacentMines) -> (r: u8) {
        adjacent_mines.count()
    }
}

impl vstd::std_specs::convert::FromSpecImpl<AdjacentMines> for u8 {
    open spec fn obeys_from_spec() -> bool {
        true
    }

    open spec fn from_spec(v: AdjacentMines) -> u8 {
        v.value() as u8
    }
}

impl TryFrom<u8> for AdjacentMines {
    type Error = u8;

    fn try_from(value: u8) -> (r: Result<Self, u8>) {
        match AdjacentMines::from_count(value) {
            Some(a) => Ok(a),
            None => Err(value),
        }
    }
}

impl vstd::std_specs::convert::TryFromSpecImpl<u8> for AdjacentMines {
    open spec fn obeys_try_from_spec() -> bool {
        true
    }

    open spec fn try_from_spec(v: u8) -> Result<AdjacentMines, u8> {
        if v <= 8 {
            Ok(adjacent_of(v as nat))
        } else {
            Err(v)
        }
    }
}

/// The value of `AdjacentMines` that stands for `n`, for `n` at most eight.
pub open spec fn adjacent_of(n: nat) -> AdjacentMines {
    if n == 0 {
        AdjacentMines::Zero
    } else if n == 1 {
        AdjacentMines::One
    } else if n == 2 {
        AdjacentMines::Two
    } else if n == 3 {
        AdjacentMines::Three
    } else if n == 4 {
        AdjacentMines::Four
    } else if n == 5 {
        AdjacentMines::Five
    } else if n == 6 {
        AdjacentMines::Six
    } else if n == 7 {
        AdjacentMines::Seven
    } else {
        AdjacentMines::Eight
    }
}

#[derive(Clone, Copy, Debug)]
enum OpenState {
    Opened,
    Unopened { is_flagged: bool },
}

#[derive(Clone, Copy, Debug)]
enum MineState {
    Mined,
    Safe { adjacent_mines: AdjacentMines },
}

/// What can happen to a cell.
#[derive(Clone, Copy, Debug)]
pub enum CellEvent {
    Open,
    ToggleFlag,
    BecomeMined,
    IncrementAdjacentMines,
}

/// What can be observed of a cell. A mined cell has no adjacency count, and
/// its `adjacent` is zero; an opened cell is never flagged.
pub struct CellModel {
    pub opened: bool,
    pub flagged: bool,
    pub mined: bool,
    pub adjacent: nat,
}

/// The state of a cell after an event: an opened cell never changes, a flagged
/// cell does not open, and a mine has no adjacency count to raise.
pub open spec fn cell_step(c: CellModel, e: CellEvent) -> CellModel {
    if c.opened {
        c
    } else {
        match e {
            CellEvent::Open => if c.flagged {
                c
            } else {
                CellModel { opened: true, ..c }
            },
            CellEvent::ToggleFlag => CellModel { flagged: !c.flagged, ..c },
            CellEvent::BecomeMined => CellModel { mined: true, adjacent: 0, ..c },
            CellEvent::IncrementAdjacentMines => if c.mined || c.adjacent >= 8 {
                c
            } else {
                CellModel { adjacent: c.adjacent + 1, ..c }
            },
        }
    }
}

/// Toggling a flag twice gives the cell back as it was, and toggling the flag
/// of an open cell changes nothing.
pub proof fn lemma_toggle_twice(c: CellModel)
    ensures
        cell_step(cell_step(c, CellEvent::ToggleFlag), CellEvent::ToggleFlag) == c,
        c.opened ==> cell_step(c, CellEvent::ToggleFlag) == c,
{
}

/// The state of a fresh cell: closed, unflagged, safe, with no mine around.
pub open spec fn fresh_cell() -> CellModel {
    CellModel { opened: false, flagged: false, mined: false, adjacent: 0 }
}

/// One square of the grid.
#[derive(Clone, Copy, Debug)]
pub struct Cell {
    open_state: OpenState,
    mine_state: MineState,
}

impl View for Cell {
    type V = CellModel;

    closed spec fn view(&self) -> CellModel {
        CellModel {
            opened: self.open_state is Opened,
            flagged: match self.open_state {
                OpenState::Opened => false,
                OpenState::Unopened { is_flagged } => is_flagged,
            },
            mined: self.mine_state is Mined,
            adjacent: match self.mine_state {
                MineState::Mined => 0,
                MineState::Safe { adjacent_mines } => adjacent_mines.value(),
            },
        }
    }
}

impl Cell {
    /// Every cell's state has at most eight mines around it, an opened cell
    /// is never flagged, and a mine counts no neighbours.
    pub proof fn lemma_consistent(self)
        ensures
            self@.adjacent <= 8,
            self@.opened ==> !self@.flagged,
            self@.mined ==> self@.adjacent == 0,
    {
    }

    pub fn new() -> (r: Cell)
        ensures
            r@ == fresh_cell(),
    {
        Cell {
            open_state: OpenState::Unopened { is_flagged: false },
            mine_state: MineState::Safe { adjacent_mines: AdjacentMines::Zero },
        }
    }

    pub fn open(&mut self)
        ensures
            final(self)@ == cell_step(old(self)@, CellEvent::Open),
    {
        self.cell_transition(CellEvent::Open);
    }

    pub fn is_open(&self) -> (r: bool)
        ensures
            r == self@.opened,
    {
        matches!(self.open_state, OpenState::Opened)
    }

    pub fn toggle_flag(&mut self)
        ensures
            final(self)@ == cell_step(old(self)@, CellEvent::ToggleFlag),
    {
        self.cell_transition(CellEvent::ToggleFlag);
    }

    pub fn is_flagged(&self) -> (r: bool)
        ensures
            r == self@.flagged,
    {
        matches!(self.open_state, OpenState::Unopened { is_flagged: true })
    }

    pub fn become_mined(&mut self)
        ensures
            final(self)@ == cell_step(old(self)@, CellEvent::BecomeMined),
    {
        self.cell_transition(CellEvent::BecomeMined);
    }

    pub fn is_mine(&self) -> (r: bool)
        ensures
            r == self@.mined,
    {
        matches!(self.mine_state, MineState::Mined)
    }

    pub fn increment_adjacent_mines(&mut self)
        ensures
            final(self)@ == cell_step(old(self)@, CellEvent::IncrementAdjacentMines),
    {
        self.cell_transition(CellEvent::IncrementAdjacentMines);
    }

    /// The number of mines around a safe cell; `None` for a mine.
    pub fn adjacent_mines(&self) -> (r: Option<AdjacentMines>)
        ensures
            r is None <==> self@.mined,
            r is Some ==> r->0.value() == self@.adjacent,
    {
        if let MineState::Safe { adjacent_mines } = self.mine_state {
            Some(adjacent_mines)
        } else {
            None
        }
    }

    /// The one place where a cell's state changes.
    fn cell_transition(&mut self, cell_event: CellEvent)
        ensures
            final(self)@ == cell_step(old(self)@, cell_event),
    {
        match (cell_event, self.open_state, self.mine_state) {
            (_, OpenState::Opened, _) => {},
            (CellEvent::Open, OpenState::Unopened { is_flagged: false }, _) => {
                self.open_state = OpenState::Opened;
            },
            (CellEvent::ToggleFlag, OpenState::Unopened { is_flagged }, _) => {
                self.open_state = OpenState::Unopened { is_flagged: !is_flagged };
            },
            (CellEvent::BecomeMined, OpenState::Unopened { .. }, MineState::Safe { .. }) => {
                self.mine_state = MineState::Mined;
            },
            (
                CellEvent::IncrementAdjacentMines,
                OpenState::Unopened { .. },
                MineState::Safe { adjacent_mines },
            ) => {
                if let Some(next) = adjacent_mines.checked_increment() {
                    self.mine_state = MineState::Safe { adjacent_mines: next };
                }
            },
            (..) => {},
        }
    }
}

impl Default for Cell {
    fn default() -> (r: Self)
        ensures
            r@ == fresh_cell(),
    {
        Cell::new()
    }
}

} // verus!

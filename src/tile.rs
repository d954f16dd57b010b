//! A grid square whose state is open to its owner: the same transitions as a
//! cell, with a count that cannot go past eight.

use vstd::prelude::*;

verus! {

/// The number of mines around a safe tile, from zero to eight.
#[derive(Copy, Clone, Debug, PartialEq, Eq, PartialOrd, Ord, Hash, Structural)]
pub enum SurroundingMines {
    Zero,
    One,
    Two,
    Three,
    Four,
    Five,
    Six,
    Seven,
    Eight,
}

/// Why a number is no count of surrounding mines.
#[derive(Debug, PartialEq, Eq, Structural)]
pub enum SurroundingMinesConversionError {
    InvalidValue(u8),
}

/// Whether a tile holds a mine, and if not how many are around it.
#[derive(Copy, Clone, Debug, PartialEq, Eq, Structural)]
pub enum MinedState {
    Safe { surrounding_mines: SurroundingMines },
    Mined,
}

/// Whether a tile is open, and if not whether it carries a flag.
#[derive(Copy, Clone, Debug, PartialEq, Eq, Structural)]
pub enum TileState {
    Unopened { is_flagged: bool },
    Opened,
}

/// One square of a grid.
#[derive(Copy, Clone, Debug, PartialEq, Eq, Structural)]
pub struct Tile {
    pub mine_state: MinedState,
    pub tile_state: TileState,
}

/// What can happen to a tile.
#[derive(Copy, Clone, Debug)]
pub enum Transition {
    ToggleFlag,
    BecomeMined,
    Open,
    IncrementSurroundingMines,
}

impl SurroundingMines {
    /// The count this value stands for.
    pub open spec fn value(self) -> nat {
        match self {
            SurroundingMines::Zero => 0,
            SurroundingMines::One => 1,
            SurroundingMines::Two => 2,
            SurroundingMines::Three => 3,
            SurroundingMines::Four => 4,
            SurroundingMines::Five => 5,
            SurroundingMines::Six => 6,
            SurroundingMines::Seven => 7,
            SurroundingMines::Eight => 8,
        }
    }

    fn count(self) -> (r: u8)
        ensures
            r == self.value(),
    {
        match self {
            SurroundingMines::Zero => 0,
            SurroundingMines::One => 1,
            SurroundingMines::Two => 2,
            SurroundingMines::Three => 3,
            SurroundingMines::Four => 4,
            SurroundingMines::Five => 5,
            SurroundingMines::Six => 6,
            SurroundingMines::Seven => 7,
            SurroundingMines::Eight => 8,
        }
    }

    fn from_count(value: u8) -> (r: Result<SurroundingMines, SurroundingMinesConversionError>)
        ensures
            r is Ok <==> value <= 8,
            r is Ok ==> r->Ok_0.value() == value,
            r is Err ==> r->Err_0 == SurroundingMinesConversionError::InvalidValue(value),
    {
        if value > 8 {
            return Err(SurroundingMinesConversionError::InvalidValue(value));
        }
        match value {
            0 => Ok(SurroundingMines::Zero),
            1 => Ok(SurroundingMines::One),
            2 => Ok(SurroundingMines::Two),
            3 => Ok(SurroundingMines::Three),
            4 => Ok(SurroundingMines::Four),
            5 => Ok(SurroundingMines::Five),
            6 => Ok(SurroundingMines::Six),
            7 => Ok(SurroundingMines::Seven),
            _ => Ok(SurroundingMines::Eight),
        }
    }

    /// One more mine, or `None` past eight.
    fn increment(self) -> (r: Option<SurroundingMines>)
        ensures
            r is Some <==> self.value() < 8,
            r is Some ==> r->0.value() == self.value() + 1,
    {
        match SurroundingMines::from_count(self.count() + 1) {
            Ok(next) => Some(next),
            Err(_) => None,
        }
    }
}

impl From<SurroundingMines> for u8 {
    fn from(surrounding_mines: SurroundingMines) -> (r: u8) {
        surrounding_mines.count()
    }
}

impl vstd::std_specs::convert::FromSpecImpl<SurroundingMines> for u8 {
    open spec fn obeys_from_spec() -> bool {
        true
    }

    open spec fn from_spec(v: SurroundingMines) -> u8 {
        v.value() as u8
    }
}

impl TryFrom<u8> for SurroundingMines {
    type Error = SurroundingMinesConversionError;

    fn try_from(value: u8) -> (r: Result<Self, SurroundingMinesConversionError>) {
        SurroundingMines::from_count(value)
    }
}

impl vstd::std_specs::convert::TryFromSpecImpl<u8> for SurroundingMines {
    open spec fn obeys_try_from_spec() -> bool {
        true
    }

    open spec fn try_from_spec(v: u8) -> Result<SurroundingMines, SurroundingMinesConversionError> {
        if v <= 8 {
            Ok(surrounding_of(v as nat))
        } else {
            Err(SurroundingMinesConversionError::InvalidValue(v))
        }
    }
}

/// The value of `SurroundingMines` that stands for `n`, for `n` at most eight.
pub open spec fn surrounding_of(n: nat) -> SurroundingMines {
    if n == 0 {
        SurroundingMines::Zero
    } else if n == 1 {
        SurroundingMines::One
    } else if n == 2 {
        SurroundingMines::Two
    } else if n == 3 {
        SurroundingMines::Three
    } else if n == 4 {
        SurroundingMines::Four
    } else if n == 5 {
        SurroundingMines::Five
    } else if n == 6 {
        SurroundingMines::Six
    } else if n == 7 {
        SurroundingMines::Seven
    } else {
        SurroundingMines::Eight
    }
}

impl Default for Tile {
    fn default() -> (r: Self)
        ensures
            r.mine_state == (MinedState::Safe { surrounding_mines: SurroundingMines::Zero }),
            r.tile_state == (TileState::Unopened { is_flagged: false }),
    {
        Self {
            mine_state: MinedState::Safe { surrounding_mines: SurroundingMines::Zero },
            tile_state: TileState::Unopened { is_flagged: false },
        }
    }
}

impl Tile {
    /// The tile after a transition: a flag flips on a closed tile, a closed
    /// tile can be mined, an unflagged closed tile opens, and the count of a
    /// closed safe tile goes up by one.
    pub open spec fn after(self, t: Transition) -> Tile {
        match t {
            Transition::ToggleFlag => match self.tile_state {
                TileState::Unopened { is_flagged } => Tile {
                    tile_state: TileState::Unopened { is_flagged: !is_flagged },
                    ..self
                },
                TileState::Opened => self,
            },
            Transition::BecomeMined => if self.tile_state is Unopened {
                Tile { mine_state: MinedState::Mined, ..self }
            } else {
                self
            },
            Transition::Open => if self.tile_state == (TileState::Unopened { is_flagged: false }) {
                Tile { tile_state: TileState::Opened, ..self }
            } else {
                self
            },
            Transition::IncrementSurroundingMines => match (self.tile_state, self.mine_state) {
                (TileState::Unopened { .. }, MinedState::Safe { surrounding_mines }) => Tile {
                    mine_state: MinedState::Safe {
                        surrounding_mines: self.next_count(surrounding_mines),
                    },
                    ..self
                },
                _ => self,
            },
        }
    }

    /// The count one above `s`, for `s` under eight.
    pub open spec fn next_count(self, s: SurroundingMines) -> SurroundingMines {
        match s {
            SurroundingMines::Zero => SurroundingMines::One,
            SurroundingMines::One => SurroundingMines::Two,
            SurroundingMines::Two => SurroundingMines::Three,
            SurroundingMines::Three => SurroundingMines::Four,
            SurroundingMines::Four => SurroundingMines::Five,
            SurroundingMines::Five => SurroundingMines::Six,
            SurroundingMines::Six => SurroundingMines::Seven,
            _ => SurroundingMines::Eight,
        }
    }

    /// A closed safe tile already counting eight mines cannot count another.
    pub open spec fn can_count_more(self) -> bool {
        match (self.tile_state, self.mine_state) {
            (TileState::Unopened { .. }, MinedState::Safe { surrounding_mines }) => surrounding_mines
                != SurroundingMines::Eight,
            _ => true,
        }
    }

    fn transition(&mut self, transition: Transition)
        requires
            transition is IncrementSurroundingMines ==> old(self).can_count_more(),
        ensures
            *final(self) == old(self).after(transition),
    {
        match transition {
            Transition::ToggleFlag => {
                if let TileState::Unopened { is_flagged } = self.tile_state {
                    self.tile_state = TileState::Unopened { is_flagged: !is_flagged };
                }
            },
            Transition::BecomeMined => {
                if let TileState::Unopened { .. } = self.tile_state {
                    self.mine_state = MinedState::Mined;
                }
            },
            Transition::Open => {
                if let TileState::Unopened { is_flagged: false } = self.tile_state {
                    self.tile_state = TileState::Opened;
                }
            },
            Transition::IncrementSurroundingMines => {
                if let TileState::Unopened { .. } = self.tile_state {
                    if let MinedState::Safe { surrounding_mines } = self.mine_state {
                        if let Some(next) = surrounding_mines.increment() {
                            self.mine_state = MinedState::Safe { surrounding_mines: next };
                        }
                    }
                }
            },
        }
    }

    pub fn is_open(&self) -> (r: bool)
        ensures
            r == (self.tile_state is Opened),
    {
        matches!(self.tile_state, TileState::Opened)
    }

    pub fn open(&mut self)
        ensures
            *final(self) == old(self).after(Transition::Open),
    {
        self.transition(Transition::Open);
    }

    pub fn is_flagged(&self) -> (r: bool)
        ensures
            r == (self.tile_state == TileState::Unopened { is_flagged: true }),
    {
        matches!(self.tile_state, TileState::Unopened { is_flagged: true })
    }

    pub fn toggle_flag(&mut self)
        ensures
            *final(self) == old(self).after(Transition::ToggleFlag),
    {
        self.transition(Transition::ToggleFlag);
    }

    pub fn is_mined(&self) -> (r: bool)
        ensures
            r == (self.mine_state is Mined),
    {
        matches!(self.mine_state, MinedState::Mined)
    }

    pub fn become_mined(&mut self)
        ensures
            *final(self) == old(self).after(Transition::BecomeMined),
    {
        self.transition(Transition::BecomeMined);
    }

    /// The number of mines around a safe tile; `None` for a mine.
    pub fn surrounding_mines(&self) -> (r: Option<u8>)
        ensures
            r == match self.mine_state {
                MinedState::Safe { surrounding_mines } => Some(surrounding_mines.value() as u8),
                MinedState::Mined => None,
            },
    {
        if let MinedState::Safe { surrounding_mines } = self.mine_state {
            Some(surrounding_mines.count())
        } else {
            None
        }
    }

    /// Counts one more mine around a closed safe tile.
    pub fn increment_surrounding(&mut self)
        requires
            old(self).can_count_more(),
        ensures
            *final(self) == old(self).after(Transition::IncrementSurroundingMines),
    {
        self.transition(Transition::IncrementSurroundingMines);
    }
}

} // verus!

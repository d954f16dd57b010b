//! The board: mine placement on the first reveal, flood-fill reveal,
//! chording, flags, and the state of the game.

use rand::seq::IndexedRandom;
use rand::SeedableRng;
use vstd::prelude::*;

use crate::cell::{cell_step, fresh_cell, Cell, CellEvent};
use crate::flood::{
    covered_but, grown, lemma_flood_before_placing, lemma_flood_done, lemma_flood_open,
    lemma_flood_push, lemma_flood_skip, parented, pending_ok, stacked,
};
use crate::grid::{
    cells_except, in_grid, lemma_area, lemma_linear, lemma_neighbors, lemma_push_contains, linear,
    surrounding,
};
use crate::model::{
    count_where, flag_count, lemma_closed_count_open, lemma_consistent_transfer,
    lemma_count_where_agree, lemma_count_where_len, lemma_outcome_of_cells, closed_count,
    BoardModel,
};

verus! {

/// Where a game stands. `Won` and `Lost` are final.
#[derive(Clone, Copy, Debug, PartialEq, Eq, Structural)]
pub enum BoardState {
    InProgress,
    Won,
    Lost,
}

/// Why a board cannot be made.
#[derive(Clone, Copy, Debug, PartialEq, Eq, Structural)]
pub enum BoardError {
    /// A one-by-one grid: all mine or all safe, no game either way.
    InvalidBoardSize,
    /// At least as many mines as cells; carries the most mines the grid allows.
    TooManyMines(u16),
}

/// A grid of cells with its mines and the state of the game.
#[derive(Debug)]
pub struct Board {
    cells: Vec<Cell>,
    width: u8,
    height: u8,
    mine_count: u16,
    mined_coordinates: Vec<(u8, u8)>,
    first_open: bool,
    state: BoardState,
}

impl View for Board {
    type V = BoardModel;

    closed spec fn view(&self) -> BoardModel {
        BoardModel {
            width: self.width as nat,
            height: self.height as nat,
            mine_count: self.mine_count as nat,
            cells: self.cells@.map_values(|c: Cell| c@),
            mined_coordinates: self.mined_coordinates@,
            first_open: self.first_open,
        }
    }
}

/// The place of `(x, y)` in the row-major cell array.
pub fn coordinate_to_linear(x: u8, y: u8, width: u8) -> (r: usize)
    ensures
        r == linear(width as int, x as int, y as int),
{
    proof {
        lemma_area(y as int + 1, width as int + 1);
        reveal(linear);
    }
    y as usize * width as usize + x as usize
}

/// Relies on rand's `IndexedRandom::choose_multiple` over a `SmallRng` seeded
/// by `SmallRng::from_os_rng`: it yields the entries at `min(amount, len)`
/// distinct positions of the slice, in random order. `from_os_rng` panics
/// when the operating system has no entropy to give.
#[verifier::external_body]
fn choose_mines(candidates: &Vec<(u8, u8)>, amount: usize) -> (r: Vec<(u8, u8)>)
    ensures
        r@.len() == if amount < candidates@.len() {
            amount as int
        } else {
            candidates@.len() as int
        },
        forall|j: int| 0 <= j < r@.len() ==> candidates@.contains(#[trigger] r@[j]),
        candidates@.no_duplicates() ==> r@.no_duplicates(),
{
    let mut rng = rand::rngs::SmallRng::from_os_rng();
    candidates.choose_multiple(&mut rng, amount).copied().collect()
}

impl Board {
    /// Where the game stands.
    pub closed spec fn state(&self) -> BoardState {
        self.state
    }

    /// A consistent board whose state is lost exactly when an opened cell
    /// holds a mine, and won exactly when every safe cell is open and every
    /// mine closed.
    pub open spec fn wf(&self) -> bool {
        &&& self@.consistent()
        &&& (self.state() == BoardState::Lost <==> self@.hit_mine())
        &&& (self.state() == BoardState::Won <==> self@.cleared())
    }

    /// A fresh board, or the reason it cannot be made: a one-by-one grid, or
    /// no safe cell left.
    pub fn create_custom(width: u8, height: u8, mine_count: u16) -> (r: Result<Board, BoardError>)
        requires
            width >= 1,
            height >= 1,
            mine_count >= 1,
        ensures
            width == 1 && height == 1 ==> r == Err::<Board, BoardError>(
                BoardError::InvalidBoardSize,
            ),
            !(width == 1 && height == 1) && mine_count >= width * height ==> r == Err::<
                Board,
                BoardError,
            >(BoardError::TooManyMines((width * height - 1) as u16)),
            !(width == 1 && height == 1) && mine_count < width * height ==> r is Ok,
            r is Ok ==> {
                let b = r->Ok_0@;
                &&& r->Ok_0.wf()
                &&& r->Ok_0.state() == BoardState::InProgress
                &&& b.width == width && b.height == height && b.mine_count == mine_count
                &&& b.first_open
                &&& b.mined_coordinates.len() == 0
                &&& b.cells.len() == width * height
                &&& forall|x: int, y: int|
                    #![trigger b.cell(x, y)]
                    b.in_grid(x, y) ==> b.cell(x, y) == fresh_cell()
            },
    {
        if width == 1 && height == 1 {
            return Err(BoardError::InvalidBoardSize);
        }
        proof {
            lemma_area(width as int, height as int);
        }
        let area: u16 = width as u16 * height as u16;
        if mine_count >= area {
            return Err(BoardError::TooManyMines(area - 1));
        }
        Ok(Board::fresh(width, height, mine_count))
    }

    /// A board of fresh cells, with no mine placed yet.
    fn fresh(width: u8, height: u8, mine_count: u16) -> (r: Board)
        requires
            width >= 1,
            height >= 1,
            !(width == 1 && height == 1),
            1 <= mine_count < width * height,
        ensures
            r.wf(),
            r.state() == BoardState::InProgress,
            r@.width == width && r@.height == height && r@.mine_count == mine_count,
            r@.first_open,
            r@.mined_coordinates.len() == 0,
            r@.cells.len() == width * height,
            forall|x: int, y: int|
                #![trigger r@.cell(x, y)]
                r@.in_grid(x, y) ==> r@.cell(x, y) == fresh_cell(),
    {
        proof {
            lemma_area(width as int, height as int);
        }
        let area: u16 = width as u16 * height as u16;
        let mut cells: Vec<Cell> = Vec::new();
        let mut i: usize = 0;
        while i < area as usize
            invariant
                i <= area,
                cells.len() == i,
                forall|j: int| 0 <= j < i ==> (#[trigger] cells@[j])@ == fresh_cell(),
            decreases area - i,
        {
            cells.push(Cell::new());
            i = i + 1;
        }
        let board = Board {
            cells,
            width,
            height,
            mine_count,
            mined_coordinates: Vec::new(),
            first_open: true,
            state: BoardState::InProgress,
        };
        proof {
            let b = board@;
            assert forall|x: int, y: int| #![trigger b.cell(x, y)] b.in_grid(x, y) implies b.cell(
                x,
                y,
            ) == fresh_cell() by {
                lemma_linear(b.width as int, b.height as int, x, y);
            }
            assert(b.in_grid(0, 0) && !b.cell(0, 0).opened && !b.cell(0, 0).mined);
            assert(!b.hit_mine());
        }
        board
    }

    /// Reads the state of the game off the cells: lost once a mine is open,
    /// won once every safe cell is open and every mine closed.
    fn update_state(&mut self)
        requires
            old(self)@.consistent(),
        ensures
            final(self).wf(),
            final(self)@ == old(self)@,
    {
        let ghost start = self@;
        let mut hit = false;
        let mut clear = true;
        let mut y: u8 = 0;
        proof {
            lemma_area(start.width as int, start.height as int);
        }
        while y < self.height
            invariant
                self@ == start,
                start.consistent(),
                y <= start.height,
                hit ==> start.hit_mine(),
                !hit ==> forall|a: int, b: int|
                    #![trigger start.cell(a, b)]
                    start.in_grid(a, b) && b < y ==> !(start.cell(a, b).opened && start.cell(a, b).mined),
                clear ==> forall|a: int, b: int|
                    #![trigger start.cell(a, b)]
                    start.in_grid(a, b) && b < y ==> start.cell(a, b).opened != start.cell(a, b).mined,
                !clear ==> !start.cleared(),
            decreases start.height - y,
        {
            let mut x: u8 = 0;
            while x < self.width
                invariant
                    self@ == start,
                    start.consistent(),
                    y < start.height,
                    x <= start.width,
                    hit ==> start.hit_mine(),
                    !hit ==> forall|a: int, b: int|
                        #![trigger start.cell(a, b)]
                        start.in_grid(a, b) && (b < y || (b == y && a < x)) ==> !(start.cell(
                            a,
                            b,
                        ).opened && start.cell(a, b).mined),
                    clear ==> forall|a: int, b: int|
                        #![trigger start.cell(a, b)]
                        start.in_grid(a, b) && (b < y || (b == y && a < x)) ==> start.cell(
                            a,
                            b,
                        ).opened != start.cell(a, b).mined,
                    !clear ==> !start.cleared(),
                decreases start.width - x,
            {
                proof {
                    lemma_linear(start.width as int, start.height as int, x as int, y as int);
                }
                let idx = coordinate_to_linear(x, y, self.width);
                let opened = self.cells[idx].is_open();
                let mined = self.cells[idx].is_mine();
                proof {
                    assert(start.cell(x as int, y as int) == self.cells@[idx as int]@);
                }
                if opened && mined {
                    hit = true;
                }
                if opened == mined {
                    clear = false;
                }
                x = x + 1;
            }
            y = y + 1;
        }
        self.state = if hit {
            BoardState::Lost
        } else if clear {
            BoardState::Won
        } else {
            BoardState::InProgress
        };
        proof {
            if !hit {
                assert(!start.hit_mine());
            }
        }
    }

    /// Opens the cell at `(x, y)`, placing the mines first on the first call;
    /// from a cell with no mine around it, the neighbours open in turn. Does
    /// nothing once the game is over, outside the grid, on an open cell, or,
    /// apart from placing the mines, on a flagged cell.
    pub fn open_cell(&mut self, x: u8, y: u8)
        requires
            old(self).wf(),
        ensures
            final(self).wf(),
            final(self)@.width == old(self)@.width,
            final(self)@.height == old(self)@.height,
            final(self)@.mine_count == old(self)@.mine_count,
            !(old(self).state() == BoardState::InProgress && old(self)@.in_grid(x as int, y as int)
                && !old(self)@.cell(x as int, y as int).opened) ==> final(self)@ == old(self)@,
            old(self).state() == BoardState::InProgress && old(self)@.in_grid(x as int, y as int)
                && !old(self)@.cell(x as int, y as int).opened ==> {
                &&& !final(self)@.first_open
                &&& !old(self)@.first_open ==> final(self)@.same_mines(old(self)@)
                    && final(self)@.mined_coordinates == old(self)@.mined_coordinates
                &&& old(self)@.first_open ==> !final(self)@.cell(x as int, y as int).mined && (
                final(self)@.roomy(x as int, y as int) ==> forall|q: (u8, u8)|
                    #![trigger final(self)@.neighbors(x as int, y as int).contains(q)]
                    final(self)@.neighbors(x as int, y as int).contains(q) ==> !final(self)@.at(
                        q,
                    ).mined)
                &&& old(self)@.cell(x as int, y as int).flagged ==> forall|p: (u8, u8)|
                    #![trigger final(self)@.at(p)]
                    final(self)@.holds(p) ==> final(self)@.at(p).opened == old(self)@.at(p).opened
                        && final(self)@.at(p).flagged == old(self)@.at(p).flagged
                &&& !old(self)@.cell(x as int, y as int).flagged ==> final(self)@.cell(
                    x as int,
                    y as int,
                ).opened && final(self)@.flooded_from(old(self)@, (x, y))
            },
    {
        if self.state != BoardState::InProgress || x >= self.width || y >= self.height {
            return;
        }
        proof {
            lemma_linear(self@.width as int, self@.height as int, x as int, y as int);
        }
        let idx = coordinate_to_linear(x, y, self.width);
        if self.cells[idx].is_open() {
            return;
        }
        let ghost start = self@;
        if self.first_open {
            self.generate_mines(x, y);
        }
        let ghost placed = self@;
        proof {
            assert(placed.cell(x as int, y as int) == self.cells@[idx as int]@);
            assert forall|p: (u8, u8)| #![trigger placed.at(p)] placed.holds(p) implies placed.at(p).opened
                == start.at(p).opened && placed.at(p).flagged == start.at(p).flagged by {
                assert(placed.cell(p.0 as int, p.1 as int) == placed.cell(p.0 as int, p.1 as int));
            }
        }
        if self.cells[idx].is_flagged() {
            return;
        }
        self.flood_open(x, y);
        proof {
            lemma_flood_before_placing(start, placed, self@, (x, y));
            if start.first_open {
                let b = self@;
                assert forall|q: (u8, u8)|
                    #![trigger b.neighbors(x as int, y as int).contains(q)]
                    b.roomy(x as int, y as int) && b.neighbors(x as int, y as int).contains(q) implies !b.at(
                    q,
                ).mined by {
                    lemma_neighbors(b.width as int, b.height as int, x as int, y as int);
                    assert(placed.neighbors(x as int, y as int).contains(q));
                    assert(placed.at(q) == placed.cell(q.0 as int, q.1 as int));
                }
                assert(b.at((x, y)).mined == placed.at((x, y)).mined);
            }
        }
        self.update_state();
    }

    /// Opens every closed, unflagged neighbour of the open cell `(x, y)`
    /// when the flags around it match its count. Does nothing once the game
    /// is over, outside the grid, on a closed cell, or when the flags do not
    /// match.
    pub fn chord_cell(&mut self, x: u8, y: u8)
        requires
            old(self).wf(),
        ensures
            final(self).wf(),
            final(self)@.width == old(self)@.width,
            final(self)@.height == old(self)@.height,
            final(self)@.mine_count == old(self)@.mine_count,
            final(self)@.first_open == old(self)@.first_open,
            final(self)@.mined_coordinates == old(self)@.mined_coordinates,
            final(self)@.same_mines(old(self)@),
            forall|p: (u8, u8)|
                #![trigger final(self)@.at(p)]
                final(self)@.holds(p) ==> final(self)@.at(p).flagged == old(self)@.at(p).flagged && (
                old(self)@.at(p).opened ==> final(self)@.at(p).opened),
            !(old(self).state() == BoardState::InProgress && old(self)@.in_grid(x as int, y as int)
                && old(self)@.cell(x as int, y as int).opened && old(self)@.flags_around(
                x as int,
                y as int,
            ) == old(self)@.cell(x as int, y as int).adjacent) ==> final(self)@ == old(self)@
                && final(self).state() == old(self).state(),
            old(self).state() == BoardState::InProgress && old(self)@.in_grid(x as int, y as int)
                && old(self)@.cell(x as int, y as int).opened && old(self)@.flags_around(
                x as int,
                y as int,
            ) == old(self)@.cell(x as int, y as int).adjacent ==> forall|q: (u8, u8)|
                #![trigger old(self)@.neighbors(x as int, y as int).contains(q)]
                old(self)@.neighbors(x as int, y as int).contains(q) && !old(self)@.at(q).flagged
                    ==> final(self)@.at(q).opened,
    {
        if self.state != BoardState::InProgress || x >= self.width || y >= self.height {
            return;
        }
        let ghost start = self@;
        proof {
            lemma_area(start.width as int, start.height as int);
            lemma_linear(start.width as int, start.height as int, x as int, y as int);
        }
        let idx = coordinate_to_linear(x, y, self.width);
        if !self.cells[idx].is_open() {
            return;
        }
        proof {
            assert(start.cell(x as int, y as int) == self.cells@[idx as int]@);
            assert(!start.first_open);
            assert(!start.cell(x as int, y as int).mined);
        }
        let count = match self.cells[idx].adjacent_mines() {
            Some(n) => n.count(),
            None => 0,
        };
        let nb = self.get_surrounding_coordinates(x, y);
        proof {
            lemma_neighbors(start.width as int, start.height as int, x as int, y as int);
        }
        let mut flags: usize = 0;
        let mut k: usize = 0;
        while k < nb.len()
            invariant
                self@ == start,
                start.consistent(),
                k <= nb@.len(),
                nb@.len() <= 8,
                nb@ == start.neighbors(x as int, y as int),
                forall|q: (u8, u8)|
                    #![trigger nb@.contains(q)]
                    nb@.contains(q) ==> start.holds(q),
                flags == count_where(nb@.take(k as int), start.flagged_at()),
            decreases nb@.len() - k,
        {
            let q = nb[k];
            proof {
                assert(nb@.contains(q));
                lemma_linear(start.width as int, start.height as int, q.0 as int, q.1 as int);
                assert(nb@.take(k + 1).drop_last() =~= nb@.take(k as int));
                assert(nb@.take(k + 1).last() == q);
                lemma_count_where_len(nb@.take(k as int), start.flagged_at());
                assert(start.at(q) == self.cells@[linear(start.width as int, q.0 as int, q.1 as int)]@);
            }
            let qi = coordinate_to_linear(q.0, q.1, self.width);
            if self.cells[qi].is_flagged() {
                flags = flags + 1;
            }
            k = k + 1;
        }
        proof {
            assert(nb@.take(nb@.len() as int) =~= nb@);
        }
        if flags != count as usize {
            return;
        }
        let mut k: usize = 0;
        while k < nb.len()
            invariant
                start.consistent(),
                !start.first_open,
                k <= nb@.len(),
                nb@.len() <= 8,
                nb@ == start.neighbors(x as int, y as int),
                forall|q: (u8, u8)|
                    #![trigger nb@.contains(q)]
                    nb@.contains(q) ==> start.holds(q),
                self@.consistent(),
                self@ == (BoardModel { cells: self@.cells, ..start }),
                self@.cells.len() == start.cells.len(),
                self@.same_mines(start),
                forall|p: (u8, u8)|
                    #![trigger self@.at(p)]
                    self@.holds(p) ==> self@.at(p).flagged == start.at(p).flagged && (start.at(
                        p,
                    ).opened ==> self@.at(p).opened),
                forall|j: int|
                    0 <= j < k && !start.at(#[trigger] nb@[j]).flagged ==> self@.at(nb@[j]).opened,
            decreases nb@.len() - k,
        {
            let q = nb[k];
            let ghost before = self@;
            proof {
                assert(nb@.contains(q));
                lemma_linear(start.width as int, start.height as int, q.0 as int, q.1 as int);
                assert(before.at(q) == self.cells@[linear(start.width as int, q.0 as int, q.1 as int)]@);
            }
            let qi = coordinate_to_linear(q.0, q.1, self.width);
            if !self.cells[qi].is_open() && !self.cells[qi].is_flagged() {
                self.flood_open(q.0, q.1);
                proof {
                    let b = self@;
                    assert forall|p: (u8, u8)| #![trigger b.at(p)] b.holds(p) implies b.at(p).flagged
                        == start.at(p).flagged && (start.at(p).opened ==> b.at(p).opened) && b.at(
                        p,
                    ).mined == start.at(p).mined && b.at(p).adjacent == start.at(p).adjacent by {
                        assert(before.at(p) == before.at(p));
                    }
                    assert forall|j: int|
                        0 <= j < k + 1 && !start.at(#[trigger] nb@[j]).flagged implies b.at(
                        nb@[j],
                    ).opened by {
                        assert(nb@.contains(nb@[j]));
                        assert(before.at(nb@[j]) == before.at(nb@[j]));
                    }
                }
            }
            k = k + 1;
        }
        self.update_state();
    }

    /// The in-grid neighbours of `(x, y)`.
    pub fn get_surrounding_coordinates(&self, x: u8, y: u8) -> (r: Vec<(u8, u8)>)
        ensures
            r@ == self@.neighbors(x as int, y as int),
    {
        surrounding(self.width, self.height, x, y)
    }

    /// Puts a flag on the closed cell `(x, y)`, or takes it off; does
    /// nothing outside the grid or on an open cell.
    pub fn toggle_flag(&mut self, x: u8, y: u8)
        requires
            old(self).wf(),
        ensures
            final(self).wf(),
            final(self).state() == old(self).state(),
            final(self)@ == old(self)@.toggled(x as int, y as int),
    {
        if x >= self.width || y >= self.height {
            return;
        }
        let ghost start = self@;
        proof {
            lemma_linear(start.width as int, start.height as int, x as int, y as int);
        }
        let idx = coordinate_to_linear(x, y, self.width);
        if self.cells[idx].is_open() {
            return;
        }
        self.cells[idx].toggle_flag();
        proof {
            assert(self@.cells =~= start.cells.update(idx as int, self.cells@[idx as int]@));
            let b = self@;
            assert forall|p: (u8, u8)| #![trigger b.at(p)] start.holds(p) implies b.at(p).mined
                == start.at(p).mined && b.at(p).adjacent == start.at(p).adjacent by {
                lemma_linear(start.width as int, start.height as int, p.0 as int, p.1 as int);
                assert(start.at(p) == start.at(p));
            }
            if !start.first_open {
                lemma_consistent_transfer(start, b);
            } else {
                assert forall|a: int, c: int| #![trigger b.cell(a, c)] b.in_grid(a, c) implies !b.cell(
                    a,
                    c,
                ).opened && !b.cell(a, c).mined && b.cell(a, c).adjacent == 0 by {
                    lemma_linear(start.width as int, start.height as int, a, c);
                    assert(start.cell(a, c) == start.cell(a, c));
                    if a == x && c == y {
                        assert(start.cell(a, c) == start.cells[idx as int]);
                        assert(!start.cell(a, c).opened && !start.cell(a, c).mined);
                        assert(b.cell(a, c) == self.cells@[idx as int]@);
                        assert(self.cells@[idx as int]@ == cell_step(start.cells[idx as int], CellEvent::ToggleFlag));
                    } else {
                        assert(b.cell(a, c) == start.cell(a, c));
                    }
                }
            }
            assert forall|a: int, c: int| #![trigger b.cell(a, c)] start.in_grid(a, c) implies b.cell(
                a,
                c,
            ).opened == start.cell(a, c).opened && b.cell(a, c).mined == start.cell(a, c).mined by {
                lemma_linear(start.width as int, start.height as int, a, c);
            }
            lemma_outcome_of_cells(start, b);
        }
    }

    /// Opens `(x, y)` and then, from each opened cell with no mine around it,
    /// every neighbour, until no such neighbour is left closed and unflagged.
    #[verifier::rlimit(100)]
    #[verifier::spinoff_prover]
    fn flood_open(&mut self, x: u8, y: u8)
        requires
            old(self)@.consistent(),
            !old(self)@.first_open,
            old(self)@.in_grid(x as int, y as int),
            !old(self)@.cell(x as int, y as int).opened,
            !old(self)@.cell(x as int, y as int).flagged,
        ensures
            final(self)@.consistent(),
            final(self)@ == (BoardModel { cells: final(self)@.cells, ..old(self)@ }),
            final(self)@.cell(x as int, y as int).opened,
            final(self)@.same_mines(old(self)@),
            final(self)@.flooded_from(old(self)@, (x, y)),
    {
        let ghost start = self@;
        let ghost origin = (x, y);
        let mut stack: Vec<(u8, u8)> = Vec::new();
        stack.push((x, y));
        let ghost mut from: Seq<(u8, u8)> = seq![(x, y)];
        let ghost mut parent: Map<(u8, u8), (u8, u8)> = Map::empty();
        let ghost mut order: Map<(u8, u8), nat> = Map::empty();
        let ghost mut clock: nat = 0;
        proof {
            lemma_area(start.width as int, start.height as int);
            assert(start.at(origin) == start.cell(x as int, y as int));
        }
        proof {
            reveal(grown);
            reveal(stacked);
            reveal(parented);
            reveal(covered_but);
            assert(stack@ =~= seq![origin]);
        }
        while stack.len() > 0
            invariant
                start.consistent(),
                !start.first_open,
                start.holds(origin),
                origin == (x, y),
                !start.at(origin).opened,
                !start.at(origin).flagged,
                self@ == (BoardModel { cells: self@.cells, ..start }),
                self@.cells.len() == start.cells.len(),
                self@.at(origin).opened || stack@ == seq![origin],
                grown(self@, start),
                stacked(self@, start, origin, stack@, from),
                parented(self@, start, origin, parent, order, clock),
                covered_but(self@, start, stack@, None),
            decreases closed_count(self@.cells) * 9 + stack@.len(),
        {
            let ghost before = self@;
            let ghost old_stack = stack@;
            let ghost old_from = from;
            let p = match stack.pop() {
                Some(p) => p,
                None => (x, y),
            };
            proof {
                assert(stack@ =~= old_stack.drop_last());
                assert(old_stack.last() == p);
                reveal(stacked);
                assert(pending_ok(before, start, origin, old_stack[old_stack.len() - 1], old_from[old_from.len() - 1]));
                lemma_linear(start.width as int, start.height as int, p.0 as int, p.1 as int);
                assert(before.at(p) == before.cells[linear(start.width as int, p.0 as int, p.1 as int)]);
                from = from.drop_last();
            }
            let idx = coordinate_to_linear(p.0, p.1, self.width);
            if !self.cells[idx].is_open() && !self.cells[idx].is_flagged() {
                self.cells[idx].open();
                proof {
                    assert(self@.cells =~= before.cells.update(idx as int, self.cells@[idx as int]@));
                    lemma_closed_count_open(before.cells, idx as int, self.cells@[idx as int]@);
                    lemma_flood_open(
                        start,
                        before,
                        self@,
                        origin,
                        old_stack,
                        old_from,
                        parent,
                        order,
                        clock,
                    );
                    if p != origin {
                        parent = parent.insert(p, old_from.last());
                    }
                    order = order.insert(p, clock);
                    clock = clock + 1;
                    assert(self@.at(p) == self.cells@[idx as int]@);
                    if p != origin {
                        assert(self@.at(origin) == before.at(origin));
                    }
                }
                let a = self.cells[idx].adjacent_mines();
                let empty = match a {
                    Some(n) => n.count() == 0,
                    None => false,
                };
                if empty {
                    let mut nb = surrounding(self.width, self.height, p.0, p.1);
                    proof {
                        lemma_neighbors(start.width as int, start.height as int, p.0 as int, p.1 as int);
                        lemma_flood_push(self@, start, origin, stack@, from, p);
                    }
                    let ghost nbv = nb@;
                    stack.append(&mut nb);
                    proof {
                        from = from + Seq::new(nbv.len(), |i: int| p);
                    }
                }
            } else {
                proof {
                    reveal(covered_but);
                    lemma_flood_skip(self@, start, origin, old_stack, old_from);
                    reveal(grown);
                    assert(self@.at(origin) == self@.at(origin));
                }
            }
        }
        proof {
            assert(stack@ =~= Seq::<(u8, u8)>::empty());
            lemma_flood_done(start, self@, origin, parent, order, clock);
            reveal(grown);
            assert(self@.at(origin) == self@.cell(x as int, y as int));
        }
    }

    /// Places the mines at random around the first cell to be opened: never
    /// on it, and, when the rest of the grid leaves room, not next to it.
    fn generate_mines(&mut self, x: u8, y: u8)
        requires
            old(self).wf(),
            old(self)@.first_open,
            old(self)@.in_grid(x as int, y as int),
        ensures
            final(self).wf(),
            !final(self)@.first_open,
            final(self)@.width == old(self)@.width,
            final(self)@.height == old(self)@.height,
            final(self)@.mine_count == old(self)@.mine_count,
            final(self).state() == old(self).state(),
            forall|a: int, b: int|
                #![trigger final(self)@.cell(a, b)]
                old(self)@.in_grid(a, b) ==> final(self)@.cell(a, b).opened == old(self)@.cell(
                    a,
                    b,
                ).opened && final(self)@.cell(a, b).flagged == old(self)@.cell(a, b).flagged,
            !final(self)@.cell(x as int, y as int).mined,
            final(self)@.roomy(x as int, y as int) ==> forall|q: (u8, u8)|
                #![trigger final(self)@.neighbors(x as int, y as int).contains(q)]
                final(self)@.neighbors(x as int, y as int).contains(q) ==> !final(self)@.cell(
                    q.0 as int,
                    q.1 as int,
                ).mined,
    {
        let ghost start = self@;
        let nbrs = surrounding(self.width, self.height, x, y);
        proof {
            lemma_area(start.width as int, start.height as int);
            lemma_neighbors(start.width as int, start.height as int, x as int, y as int);
        }
        let area: usize = self.width as usize * self.height as usize;
        let roomy = area >= nbrs.len() + 1 + self.mine_count as usize;
        let mut excluded: Vec<(u8, u8)> = Vec::new();
        excluded.push((x, y));
        if roomy {
            let mut i: usize = 0;
            while i < nbrs.len()
                invariant
                    i <= nbrs@.len(),
                    excluded@ == seq![(x, y)] + nbrs@.take(i as int),
                decreases nbrs@.len() - i,
            {
                excluded.push(nbrs[i]);
                proof {
                    assert(nbrs@.take(i + 1) =~= nbrs@.take(i as int).push(nbrs@[i as int]));
                    assert(seq![(x, y)] + nbrs@.take(i + 1) =~= (seq![(x, y)] + nbrs@.take(
                        i as int,
                    )).push(nbrs@[i as int]));
                }
                i = i + 1;
            }
            proof {
                assert(nbrs@.take(nbrs@.len() as int) =~= nbrs@);
            }
        }
        proof {
            assert forall|q: (u8, u8)| #[trigger] excluded@.contains(q) <==> (q == (x, y) || (roomy
                && nbrs@.contains(q))) by {
                if excluded@.contains(q) && q != (x, y) {
                    let j = choose|j: int| 0 <= j < excluded@.len() && excluded@[j] == q;
                    assert(nbrs@[j - 1] == q);
                }
                if q == (x, y) {
                    assert(excluded@[0] == q);
                }
                if roomy && nbrs@.contains(q) {
                    let j = choose|j: int| 0 <= j < nbrs@.len() && nbrs@[j] == q;
                    assert(excluded@[j + 1] == q);
                }
            }
            assert forall|i: int, j: int|
                0 <= i < excluded@.len() && 0 <= j < excluded@.len() && i != j implies excluded@[i]
                != excluded@[j] by {
                if i > 0 && j > 0 {
                    assert(excluded@[i] == nbrs@[i - 1]);
                    assert(excluded@[j] == nbrs@[j - 1]);
                } else if i == 0 {
                    assert(nbrs@.contains(excluded@[j]));
                } else {
                    assert(nbrs@.contains(excluded@[i]));
                }
            }
            assert forall|j: int| 0 <= j < excluded@.len() implies in_grid(
                start.width as int,
                start.height as int,
                #[trigger] excluded@[j].0 as int,
                excluded@[j].1 as int,
            ) by {
                assert(excluded@.contains(excluded@[j]));
            }
        }
        let candidates = cells_except(self.width, self.height, &excluded);
        let chosen = choose_mines(&candidates, self.mine_count as usize);
        proof {
            assert forall|j: int| 0 <= j < chosen@.len() implies start.in_grid(
                #[trigger] chosen@[j].0 as int,
                chosen@[j].1 as int,
            ) by {
                assert(candidates@.contains(chosen@[j]));
            }
        }
        self.lay_mines(&chosen);
        let ghost laid = self@;
        self.count_adjacent();
        let ghost counted = self@;
        self.first_open = false;
        proof {
            let b = self@;
            assert(b.cells == counted.cells);
            assert forall|a: int, c: int|
                #![trigger b.cell(a, c)]
                b.in_grid(a, c) implies (b.cell(a, c).mined <==> b.mined_coordinates.contains(
                    (a as u8, c as u8),
                )) by {
                assert(laid.in_grid(a, c));
                assert(laid.cell(a, c).mined <==> chosen@.contains((a as u8, c as u8)));
                assert(counted.cell(a, c).mined == laid.cell(a, c).mined);
                assert(b.cell(a, c) == counted.cell(a, c));
                assert(b.mined_coordinates == chosen@);
            }
            assert(!b.cell(x as int, y as int).mined) by {
                assert(laid.cell(x as int, y as int) == laid.cell(x as int, y as int));
                assert(counted.cell(x as int, y as int) == counted.cell(x as int, y as int));
                if chosen@.contains((x, y)) {
                    let j = choose|j: int| 0 <= j < chosen@.len() && chosen@[j] == (x, y);
                    assert(candidates@.contains(chosen@[j]));
                }
            }
            assert forall|a: int, c: int| #![trigger b.cell(a, c)] b.in_grid(a, c) implies !b.cell(
                a,
                c,
            ).opened by {
                assert(laid.cell(a, c) == laid.cell(a, c));
                assert(counted.cell(a, c) == counted.cell(a, c));
                assert(b.cell(a, c) == counted.cell(a, c));
            }
            assert(!b.cleared()) by {
                assert(b.cell(x as int, y as int) == b.cell(x as int, y as int));
            }
            assert(!b.hit_mine());
            assert(b.mined_at() =~= counted.mined_at());
            assert forall|a: int, c: int|
                #![trigger b.cell(a, c)]
                b.in_grid(a, c) && !b.cell(a, c).mined implies b.cell(a, c).adjacent
                == b.mines_around(a, c) by {
                assert(counted.cell(a, c) == counted.cell(a, c));
                assert(b.cell(a, c) == counted.cell(a, c));
            }
            assert forall|a: int, c: int|
                #![trigger b.cell(a, c)]
                start.in_grid(a, c) implies b.cell(a, c).opened == start.cell(a, c).opened
                && b.cell(a, c).flagged == start.cell(a, c).flagged by {
                assert(laid.cell(a, c) == laid.cell(a, c));
                assert(counted.cell(a, c) == counted.cell(a, c));
                assert(b.cell(a, c) == counted.cell(a, c));
            }
            assert(b.mines_placed());
            assert(b.mined_at() =~= counted.mined_at());
            assert forall|a: int, c: int|
                #![trigger b.cell(a, c)]
                b.in_grid(a, c) && !b.cell(a, c).mined implies b.cell(a, c).adjacent
                == b.mines_around(a, c) by {
                assert(counted.cell(a, c) == counted.cell(a, c));
                assert(b.cell(a, c) == counted.cell(a, c));
            }
            assert forall|a: int, c: int|
                #![trigger b.cell(a, c)]
                start.in_grid(a, c) implies b.cell(a, c).opened == start.cell(a, c).opened
                && b.cell(a, c).flagged == start.cell(a, c).flagged by {
                assert(laid.cell(a, c) == laid.cell(a, c));
                assert(counted.cell(a, c) == counted.cell(a, c));
                assert(b.cell(a, c) == counted.cell(a, c));
            }
            assert(b.mines_placed());
            if b.roomy(x as int, y as int) {
                assert forall|q: (u8, u8)|
                    #![trigger b.neighbors(x as int, y as int).contains(q)]
                    b.neighbors(x as int, y as int).contains(q) implies !b.cell(
                    q.0 as int,
                    q.1 as int,
                ).mined by {
                    assert(laid.cell(q.0 as int, q.1 as int) == laid.cell(q.0 as int, q.1 as int));
                    assert(counted.cell(q.0 as int, q.1 as int) == counted.cell(
                        q.0 as int,
                        q.1 as int,
                    ));
                    if chosen@.contains(q) {
                        let j = choose|j: int| 0 <= j < chosen@.len() && chosen@[j] == q;
                        assert(candidates@.contains(chosen@[j]));
                    }
                }
            }
        }
    }

    /// Marks each of `chosen` mined and records it, on a board with no mine
    /// and no opened cell yet.
    fn lay_mines(&mut self, chosen: &Vec<(u8, u8)>)
        requires
            old(self).wf(),
            old(self)@.first_open,
            chosen@.no_duplicates(),
            chosen@.len() == old(self)@.mine_count,
            forall|j: int|
                0 <= j < chosen@.len() ==> old(self)@.in_grid(
                    #[trigger] chosen@[j].0 as int,
                    chosen@[j].1 as int,
                ),
        ensures
            final(self)@ == (BoardModel {
                cells: final(self)@.cells,
                mined_coordinates: chosen@,
                ..old(self)@
            }),
            final(self).state() == old(self).state(),
            final(self)@.cells.len() == old(self)@.cells.len(),
            forall|x: int, y: int|
                #![trigger final(self)@.cell(x, y)]
                old(self)@.in_grid(x, y) ==> {
                    let c = final(self)@.cell(x, y);
                    &&& !c.opened
                    &&& c.flagged == old(self)@.cell(x, y).flagged
                    &&& c.adjacent == 0
                    &&& (c.mined <==> chosen@.contains((x as u8, y as u8)))
                },
    {
        let ghost start = self@;
        let ghost start_state = self.state();
        proof {
            assert(chosen@.take(0) =~= start.mined_coordinates);
        }
        let mut i: usize = 0;
        while i < chosen.len()
            invariant
                self.state() == start_state,
                i <= chosen@.len(),
                start.consistent(),
                start.first_open,
                chosen@.no_duplicates(),
                chosen@.len() == start.mine_count,
                forall|j: int|
                    0 <= j < chosen@.len() ==> start.in_grid(
                        #[trigger] chosen@[j].0 as int,
                        chosen@[j].1 as int,
                    ),
                self@ == (BoardModel {
                    cells: self@.cells,
                    mined_coordinates: chosen@.take(i as int),
                    ..start
                }),
                self@.cells.len() == start.cells.len(),
                forall|x: int, y: int|
                    #![trigger self@.cell(x, y)]
                    start.in_grid(x, y) ==> {
                        let c = self@.cell(x, y);
                        &&& !c.opened
                        &&& c.flagged == start.cell(x, y).flagged
                        &&& c.adjacent == 0
                        &&& (c.mined <==> chosen@.take(i as int).contains((x as u8, y as u8)))
                    },
            decreases chosen@.len() - i,
        {
            let p = chosen[i];
            proof {
                lemma_area(start.width as int, start.height as int);
                lemma_linear(start.width as int, start.height as int, p.0 as int, p.1 as int);
            }
            let idx = coordinate_to_linear(p.0, p.1, self.width);
            let ghost before = self@;
            self.cells[idx].become_mined();
            self.mined_coordinates.push(p);
            proof {
                assert(chosen@.take(i + 1) =~= chosen@.take(i as int).push(p));
                assert(!chosen@.take(i as int).contains(p)) by {
                    if chosen@.take(i as int).contains(p) {
                        let j = choose|j: int| 0 <= j < i && chosen@.take(i as int)[j] == p;
                        assert(chosen@[j] == chosen@[i as int]);
                    }
                }
                assert(self@.cells =~= before.cells.update(idx as int, self.cells@[idx as int]@));
                assert forall|x: int, y: int| #![trigger self@.cell(x, y)] start.in_grid(x, y) implies {
                    let c = self@.cell(x, y);
                    &&& !c.opened
                    &&& c.flagged == start.cell(x, y).flagged
                    &&& c.adjacent == 0
                    &&& (c.mined <==> chosen@.take(i + 1).contains((x as u8, y as u8)))
                } by {
                    lemma_push_contains(chosen@.take(i as int), p, (x as u8, y as u8));
                    lemma_linear(start.width as int, start.height as int, x, y);
                    if x == p.0 && y == p.1 {
                        assert(self@.cell(x, y) == self.cells@[idx as int]@);
                        assert(before.cell(x, y) == before.cells[idx as int]);
                    } else {
                        assert((x as u8, y as u8) != p);
                        assert(linear(start.width as int, x, y) != idx);
                        assert(self@.cell(x, y) == before.cell(x, y));
                    }
                }
            }
            i = i + 1;
        }
        proof {
            assert(chosen@.take(chosen@.len() as int) =~= chosen@);
        }
    }

    /// Sets the count of each safe cell to the number of mines around it, on
    /// a board whose cells are all closed with a count of zero.
    fn count_adjacent(&mut self)
        requires
            1 <= old(self)@.width <= 255,
            1 <= old(self)@.height <= 255,
            old(self)@.cells.len() == old(self)@.width * old(self)@.height,
            forall|x: int, y: int|
                #![trigger old(self)@.cell(x, y)]
                old(self)@.in_grid(x, y) ==> !old(self)@.cell(x, y).opened && old(self)@.cell(
                    x,
                    y,
                ).adjacent == 0,
        ensures
            final(self)@ == (BoardModel { cells: final(self)@.cells, ..old(self)@ }),
            final(self).state() == old(self).state(),
            final(self)@.cells.len() == old(self)@.cells.len(),
            forall|x: int, y: int|
                #![trigger final(self)@.cell(x, y)]
                old(self)@.in_grid(x, y) ==> {
                    let c = final(self)@.cell(x, y);
                    let o = old(self)@.cell(x, y);
                    &&& c.opened == o.opened
                    &&& c.flagged == o.flagged
                    &&& c.mined == o.mined
                    &&& (!c.mined ==> c.adjacent == final(self)@.mines_around(x, y))
                },
    {
        let ghost start = self@;
        let ghost start_state = self.state();
        proof {
            lemma_area(start.width as int, start.height as int);
        }
        let mut y: u8 = 0;
        while y < self.height
            invariant
                self.state() == start_state,
                y <= start.height,
                1 <= start.width <= 255,
                1 <= start.height <= 255,
                start.cells.len() == start.width * start.height,
                forall|a: int, b: int|
                    #![trigger start.cell(a, b)]
                    start.in_grid(a, b) ==> !start.cell(a, b).opened,
                self@ == (BoardModel { cells: self@.cells, ..start }),
                self@.cells.len() == start.cells.len(),
                forall|a: int, b: int|
                    #![trigger self@.cell(a, b)]
                    start.in_grid(a, b) ==> {
                        let c = self@.cell(a, b);
                        let o = start.cell(a, b);
                        &&& c.opened == o.opened
                        &&& c.flagged == o.flagged
                        &&& c.mined == o.mined
                        &&& (b < y && !c.mined ==> c.adjacent == start.mines_around(a, b))
                        &&& (b >= y ==> c.adjacent == 0)
                    },
            decreases start.height - y,
        {
            let mut x: u8 = 0;
            while x < self.width
                invariant
                    self.state() == start_state,
                self.state() == start_state,
                    y < start.height,
                    x <= start.width,
                    1 <= start.width <= 255,
                    1 <= start.height <= 255,
                    start.cells.len() == start.width * start.height,
                    forall|a: int, b: int|
                        #![trigger start.cell(a, b)]
                        start.in_grid(a, b) ==> !start.cell(a, b).opened,
                    self@ == (BoardModel { cells: self@.cells, ..start }),
                    self@.cells.len() == start.cells.len(),
                    forall|a: int, b: int|
                        #![trigger self@.cell(a, b)]
                        start.in_grid(a, b) ==> {
                            let c = self@.cell(a, b);
                            let o = start.cell(a, b);
                            &&& c.opened == o.opened
                            &&& c.flagged == o.flagged
                            &&& c.mined == o.mined
                            &&& ((b < y || (b == y && a < x)) && !c.mined ==> c.adjacent
                                == start.mines_around(a, b))
                            &&& (!(b < y || (b == y && a < x)) ==> c.adjacent == 0)
                        },
                decreases start.width - x,
            {
                let nb = surrounding(self.width, self.height, x, y);
                proof {
                    lemma_neighbors(start.width as int, start.height as int, x as int, y as int);
                    lemma_linear(start.width as int, start.height as int, x as int, y as int);
                }
                let idx = coordinate_to_linear(x, y, self.width);
                let ghost mid = self@;
                let mut k: usize = 0;
                while k < nb.len()
                    invariant
                        self.state() == start_state,
                    self.state() == start_state,
                self.state() == start_state,
                        k <= nb@.len(),
                        nb@.len() <= 8,
                        nb@ == start.neighbors(x as int, y as int),
                        forall|q: (u8, u8)|
                            #![trigger nb@.contains(q)]
                            nb@.contains(q) ==> start.in_grid(q.0 as int, q.1 as int),
                        start.in_grid(x as int, y as int),
                        idx == linear(start.width as int, x as int, y as int),
                        0 <= idx < start.cells.len(),
                        1 <= start.width <= 255,
                        1 <= start.height <= 255,
                        start.cells.len() == start.width * start.height,
                        self@ == (BoardModel { cells: self@.cells, ..start }),
                        self@.cells.len() == start.cells.len(),
                        forall|a: int, b: int|
                            #![trigger self@.cell(a, b)]
                            start.in_grid(a, b) && (a != x || b != y) ==> self@.cell(a, b)
                                == mid.cell(a, b),
                        forall|a: int, b: int|
                            #![trigger mid.cell(a, b)]
                            start.in_grid(a, b) ==> mid.cell(a, b).mined == start.cell(a, b).mined,
                        self@.cell(x as int, y as int).opened == mid.cell(x as int, y as int).opened,
                        self@.cell(x as int, y as int).flagged == mid.cell(
                            x as int,
                            y as int,
                        ).flagged,
                        self@.cell(x as int, y as int).mined == mid.cell(x as int, y as int).mined,
                        !self@.cell(x as int, y as int).opened,
                        !self@.cell(x as int, y as int).mined ==> self@.cell(
                            x as int,
                            y as int,
                        ).adjacent == count_where(nb@.take(k as int), start.mined_at()),
                    decreases nb@.len() - k,
                {
                    let q = nb[k];
                    proof {
                        assert(nb@.contains(q));
                        lemma_linear(start.width as int, start.height as int, q.0 as int, q.1 as int);
                        lemma_count_where_len(nb@.take(k as int), start.mined_at());
                        assert(nb@.take(k + 1).drop_last() =~= nb@.take(k as int));
                        assert(nb@.take(k + 1).last() == q);
                        assert(count_where(nb@.take(k + 1), start.mined_at()) == count_where(
                            nb@.take(k as int),
                            start.mined_at(),
                        ) + if start.mined_at()(q) {
                            1nat
                        } else {
                            0nat
                        });
                        assert(start.mined_at()(q) == start.cell(q.0 as int, q.1 as int).mined);
                        if q.0 == x && q.1 == y {
                        } else {
                            assert(linear(start.width as int, q.0 as int, q.1 as int) != idx);
                        }
                        assert(self@.cell(q.0 as int, q.1 as int).mined == start.cell(
                            q.0 as int,
                            q.1 as int,
                        ).mined);
                    }
                    let qi = coordinate_to_linear(q.0, q.1, self.width);
                    if self.cells[qi].is_mine() {
                        let ghost before = self@;
                        self.cells[idx].increment_adjacent_mines();
                        proof {
                            assert(self@.cells =~= before.cells.update(
                                idx as int,
                                self.cells@[idx as int]@,
                            ));
                            assert forall|a: int, b: int|
                                #![trigger self@.cell(a, b)]
                                start.in_grid(a, b) && (a != x || b != y) implies self@.cell(a, b)
                                == mid.cell(a, b) by {
                                lemma_linear(start.width as int, start.height as int, a, b);
                                assert(linear(start.width as int, a, b) != idx);
                                assert(self@.cell(a, b) == before.cell(a, b));
                            }
                            assert(self@.cell(x as int, y as int) == self.cells@[idx as int]@);
                            assert(before.cell(x as int, y as int) == before.cells[idx as int]);
                        }
                    }
                    k = k + 1;
                }
                proof {
                    assert(nb@.take(nb@.len() as int) =~= nb@);
                    assert forall|a: int, b: int|
                        #![trigger self@.cell(a, b)]
                        start.in_grid(a, b) implies {
                            let c = self@.cell(a, b);
                            let o = start.cell(a, b);
                            &&& c.opened == o.opened
                            &&& c.flagged == o.flagged
                            &&& c.mined == o.mined
                            &&& ((b < y || (b == y && a < x + 1)) && !c.mined ==> c.adjacent
                                == start.mines_around(a, b))
                            &&& (!(b < y || (b == y && a < x + 1)) ==> c.adjacent == 0)
                        } by {
                        if a != x || b != y {
                            assert(self@.cell(a, b) == mid.cell(a, b));
                        }
                    }
                }
                x = x + 1;
            }
            y = y + 1;
        }
        proof {
            assert forall|x: int, y: int|
                #![trigger self@.cell(x, y)]
                start.in_grid(x, y) implies {
                    let c = self@.cell(x, y);
                    &&& (!c.mined ==> c.adjacent == self@.mines_around(x, y))
                } by {
                lemma_neighbors(start.width as int, start.height as int, x, y);
                let nb = start.neighbors(x, y);
                let now = self@;
                assert forall|i: int| 0 <= i < nb.len() implies start.mined_at()(#[trigger] nb[i])
                    == now.mined_at()(nb[i]) by {
                    assert(nb.contains(nb[i]));
                }
                lemma_count_where_agree(nb, start.mined_at(), now.mined_at());
            }
        }
    }

    pub fn create_beginner() -> (r: Self)
        ensures
            r.wf(),
            r@.width == 9 && r@.height == 9 && r@.mine_count == 10,
            r@.first_open,
    {
        Board::fresh(9, 9, 10)
    }

    pub fn create_intermediate() -> (r: Self)
        ensures
            r.wf(),
            r@.width == 16 && r@.height == 16 && r@.mine_count == 40,
            r@.first_open,
    {
        Board::fresh(16, 16, 40)
    }

    pub fn create_expert() -> (r: Self)
        ensures
            r.wf(),
            r@.width == 30 && r@.height == 16 && r@.mine_count == 99,
            r@.first_open,
    {
        Board::fresh(30, 16, 99)
    }

    pub fn get_cell(&self, x: u8, y: u8) -> (r: Option<&Cell>)
        requires
            self.wf(),
        ensures
            self@.in_grid(x as int, y as int) <==> r is Some,
            r is Some ==> r->0@ == self@.cell(x as int, y as int),
    {
        if x >= self.width || y >= self.height {
            return None;
        }
        proof {
            lemma_linear(self.width as int, self.height as int, x as int, y as int);
        }
        Some(&self.cells[coordinate_to_linear(x, y, self.width)])
    }

    /// The cell at `(x, y)` to change in place, if it is in the grid.
    pub fn get_cell_mut(&mut self, x: u8, y: u8) -> (r: Option<&mut Cell>)
        requires
            old(self).wf(),
        ensures
            old(self)@.in_grid(x as int, y as int) <==> r is Some,
            r is None ==> final(self)@ == old(self)@,
            r is Some ==> (*r->0)@ == old(self)@.cell(x as int, y as int),
            r is Some ==> final(self)@ == (BoardModel { cells: final(self)@.cells, ..old(self)@ }),
            r is Some ==> final(self)@.cells.len() == old(self)@.cells.len(),
            r is Some ==> forall|i: int|
                #![trigger final(self)@.cells[i]]
                0 <= i < old(self)@.cells.len() ==> final(self)@.cells[i] == if i == linear(
                    old(self)@.width as int,
                    x as int,
                    y as int,
                ) {
                    (*final(r->0))@
                } else {
                    old(self)@.cells[i]
                },
    {
        if x >= self.width || y >= self.height {
            return None;
        }
        proof {
            lemma_linear(self@.width as int, self@.height as int, x as int, y as int);
        }
        let idx = coordinate_to_linear(x, y, self.width);
        Some(&mut self.cells[idx])
    }

    /// The number of mines less the number of flags; negative when there
    /// are more flags than mines.
    pub fn get_remaining_mines(&self) -> (r: i32)
        requires
            self.wf(),
        ensures
            r == self@.mine_count - flag_count(self@.cells),
    {
        let mut flags: i32 = 0;
        let mut i: usize = 0;
        proof {
            lemma_area(self@.width as int, self@.height as int);
        }
        while i < self.cells.len()
            invariant
                i <= self@.cells.len(),
                self@.cells.len() <= 65025,
                flags == flag_count(self@.cells.take(i as int)),
                flags <= i,
            decreases self@.cells.len() - i,
        {
            proof {
                assert(self@.cells.take(i + 1).drop_last() =~= self@.cells.take(i as int));
            }
            if self.cells[i].is_flagged() {
                flags = flags + 1;
            }
            i = i + 1;
        }
        proof {
            assert(self@.cells.take(i as int) =~= self@.cells);
        }
        self.mine_count as i32 - flags
    }

    /// Whether the mines are still to be placed by the first reveal.
    pub fn is_first_open(&self) -> (r: bool)
        ensures
            r == self@.first_open,
    {
        self.first_open
    }

    /// The closed cells, row by row.
    pub fn get_unopened_coordinates(&self) -> (r: Vec<(u8, u8)>)
        requires
            self.wf(),
        ensures
            r@.no_duplicates(),
            forall|p: (u8, u8)|
                #![trigger r@.contains(p)]
                r@.contains(p) <==> self@.holds(p) && !self@.at(p).opened,
    {
        let ghost b = self@;
        let mut r: Vec<(u8, u8)> = Vec::new();
        proof {
            lemma_area(b.width as int, b.height as int);
        }
        let mut y: u8 = 0;
        while y < self.height
            invariant
                self@ == b,
                b.consistent(),
                y <= b.height,
                r@.no_duplicates(),
                forall|p: (u8, u8)|
                    #![trigger r@.contains(p)]
                    r@.contains(p) <==> b.holds(p) && !b.at(p).opened && p.1 < y,
            decreases b.height - y,
        {
            let mut x: u8 = 0;
            while x < self.width
                invariant
                    self@ == b,
                    b.consistent(),
                    y < b.height,
                    x <= b.width,
                    r@.no_duplicates(),
                    forall|p: (u8, u8)|
                        #![trigger r@.contains(p)]
                        r@.contains(p) <==> b.holds(p) && !b.at(p).opened && (p.1 < y || (p.1 == y
                            && p.0 < x)),
                decreases b.width - x,
            {
                proof {
                    lemma_linear(b.width as int, b.height as int, x as int, y as int);
                }
                let idx = coordinate_to_linear(x, y, self.width);
                if !self.cells[idx].is_open() {
                    proof {
                        assert(!r@.contains((x, y)));
                        assert forall|q: (u8, u8)| #[trigger]
                            r@.push((x, y)).contains(q) <==> (r@.contains(q) || q == (x, y)) by {
                            lemma_push_contains(r@, (x, y), q);
                        }
                        assert(b.at((x, y)) == self.cells@[idx as int]@);
                    }
                    r.push((x, y));
                } else {
                    proof {
                        assert(b.at((x, y)) == self.cells@[idx as int]@);
                    }
                }
                x = x + 1;
            }
            y = y + 1;
        }
        r
    }

    pub fn get_width(&self) -> (r: u8)
        ensures
            r == self@.width,
    {
        self.width
    }

    pub fn get_height(&self) -> (r: u8)
        ensures
            r == self@.height,
    {
        self.height
    }

    pub fn get_mine_count(&self) -> (r: u16)
        ensures
            r == self@.mine_count,
    {
        self.mine_count
    }

    pub fn get_state(&self) -> (r: BoardState)
        ensures
            r == self.state(),
    {
        self.state
    }
}

/// Once the mines are placed, exactly as many are recorded as the board was
/// made with, and every safe cell counts the mines among its neighbours.
pub proof fn lemma_mines_counted(b: &Board)
    requires
        b.wf(),
        !b@.first_open,
    ensures
        b@.mined_coordinates.len() == b@.mine_count,
        b@.mined_coordinates.no_duplicates(),
        forall|x: int, y: int|
            #![trigger b@.cell(x, y)]
            b@.in_grid(x, y) ==> (b@.cell(x, y).mined <==> b@.mined_set().contains((x, y))),
        forall|x: int, y: int|
            #![trigger b@.cell(x, y)]
            b@.in_grid(x, y) && !b@.cell(x, y).mined ==> b@.cell(x, y).adjacent == b@.mines_around(
                x,
                y,
            ),
{
}

/// A game is won exactly when the closed cells are the mined ones, and lost
/// exactly when an opened cell holds a mine.
pub proof fn lemma_outcome(b: &Board)
    requires
        b.wf(),
    ensures
        b.state() == BoardState::Won <==> b@.unopened_set() == b@.mined_set(),
        b.state() == BoardState::Lost <==> exists|x: int, y: int|
            #![trigger b@.cell(x, y)]
            b@.in_grid(x, y) && b@.cell(x, y).opened && b@.cell(x, y).mined,
{
    let m = b@;
    if m.cleared() {
        assert(m.unopened_set() =~= m.mined_set());
    }
    if m.unopened_set() == m.mined_set() {
        assert forall|x: int, y: int| #![trigger m.cell(x, y)] m.in_grid(x, y) implies m.cell(
            x,
            y,
        ).opened != m.cell(x, y).mined by {
            assert(m.unopened_set().contains((x, y)) == m.mined_set().contains((x, y)));
        }
    }
}

/// Toggling the flag of one cell twice gives the board back as it was.
pub proof fn lemma_toggle_round_trip(b: BoardModel, x: int, y: int)
    requires
        b.consistent(),
    ensures
        b.toggled(x, y).toggled(x, y) == b,
{
    if b.in_grid(x, y) && !b.cell(x, y).opened {
        lemma_linear(b.width as int, b.height as int, x, y);
        let i = linear(b.width as int, x, y);
        let once = b.toggled(x, y);
        crate::cell::lemma_toggle_twice(b.cell(x, y));
        assert(once.cell(x, y) == cell_step(b.cell(x, y), CellEvent::ToggleFlag));
        assert(once.toggled(x, y).cells =~= b.cells);
    }
}

} // verus!

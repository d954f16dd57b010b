//! The mathematical model of a board and the facts about counting on it.

use vstd::prelude::*;

use crate::cell::{cell_step, CellEvent, CellModel};
use crate::grid::{in_grid, is_adjacent, lemma_neighbors, linear, neighbors};

verus! {

/// How many entries of `s` satisfy `f`.
pub open spec fn count_where(s: Seq<(u8, u8)>, f: spec_fn((u8, u8)) -> bool) -> nat
    decreases s.len(),
{
    if s.len() == 0 {
        0
    } else {
        count_where(s.drop_last(), f) + if f(s.last()) {
            1nat
        } else {
            0nat
        }
    }
}

/// Counting by two predicates that agree on every entry gives one number.
pub proof fn lemma_count_where_agree(
    s: Seq<(u8, u8)>,
    f: spec_fn((u8, u8)) -> bool,
    g: spec_fn((u8, u8)) -> bool,
)
    requires
        forall|i: int| 0 <= i < s.len() ==> f(#[trigger] s[i]) == g(s[i]),
    ensures
        count_where(s, f) == count_where(s, g),
    decreases s.len(),
{
    if s.len() > 0 {
        lemma_count_where_agree(s.drop_last(), f, g);
    }
}

/// A count never exceeds the number of entries.
pub proof fn lemma_count_where_len(s: Seq<(u8, u8)>, f: spec_fn((u8, u8)) -> bool)
    ensures
        count_where(s, f) <= s.len(),
    decreases s.len(),
{
    if s.len() > 0 {
        lemma_count_where_len(s.drop_last(), f);
    }
}

/// Two cells touch by a side or a corner.
pub open spec fn touches(p: (u8, u8), q: (u8, u8)) -> bool {
    is_adjacent(p.0 as int, p.1 as int, q.0 as int, q.1 as int)
}

/// How many cells of `cells` are closed.
pub open spec fn closed_count(cells: Seq<CellModel>) -> nat
    decreases cells.len(),
{
    if cells.len() == 0 {
        0
    } else {
        closed_count(cells.drop_last()) + if cells.last().opened {
            0nat
        } else {
            1nat
        }
    }
}

pub(crate) proof fn lemma_closed_count_open(s: Seq<CellModel>, i: int, v: CellModel)
    requires
        0 <= i < s.len(),
        !s[i].opened,
        v.opened,
    ensures
        closed_count(s.update(i, v)) + 1 == closed_count(s),
    decreases s.len(),
{
    if i == s.len() - 1 {
        assert(s.update(i, v).drop_last() =~= s.drop_last());
    } else {
        lemma_closed_count_open(s.drop_last(), i, v);
        assert(s.update(i, v).drop_last() =~= s.drop_last().update(i, v));
    }
}

/// Opening cells or moving flags keeps a placed board consistent: only the
/// mines and the counts matter to it.
pub(crate) proof fn lemma_consistent_transfer(a: BoardModel, b: BoardModel)
    requires
        a.consistent(),
        !a.first_open,
        b == (BoardModel { cells: b.cells, ..a }),
        b.cells.len() == a.cells.len(),
        forall|p: (u8, u8)|
            #![trigger b.at(p)]
            a.holds(p) ==> b.at(p).mined == a.at(p).mined && b.at(p).adjacent == a.at(p).adjacent,
    ensures
        b.consistent(),
{
    assert forall|x: int, y: int| #![trigger b.cell(x, y)] b.in_grid(x, y) implies b.cell(x, y).mined
        == a.cell(x, y).mined && b.cell(x, y).adjacent == a.cell(x, y).adjacent by {
        assert(b.at((x as u8, y as u8)) == b.cell(x, y));
    }
    assert forall|x: int, y: int|
        #![trigger b.cell(x, y)]
        b.in_grid(x, y) && !b.cell(x, y).mined implies b.cell(x, y).adjacent == b.mines_around(
        x,
        y,
    ) by {
        lemma_neighbors(a.width as int, a.height as int, x, y);
        let nb = a.neighbors(x, y);
        assert forall|i: int| 0 <= i < nb.len() implies a.mined_at()(#[trigger] nb[i])
            == b.mined_at()(nb[i]) by {
            assert(nb.contains(nb[i]));
            assert(b.at(nb[i]) == b.at(nb[i]));
        }
        lemma_count_where_agree(nb, a.mined_at(), b.mined_at());
        assert(a.cell(x, y) == a.cell(x, y));
    }
}

/// The outcome of a game depends only on which cells are open and which
/// hold a mine.
pub(crate) proof fn lemma_outcome_of_cells(a: BoardModel, b: BoardModel)
    requires
        a.width == b.width,
        a.height == b.height,
        forall|x: int, y: int|
            #![trigger b.cell(x, y)]
            a.in_grid(x, y) ==> b.cell(x, y).opened == a.cell(x, y).opened && b.cell(x, y).mined
                == a.cell(x, y).mined,
    ensures
        a.hit_mine() == b.hit_mine(),
        a.cleared() == b.cleared(),
{
    assert(forall|x: int, y: int| #[trigger] a.in_grid(x, y) == b.in_grid(x, y));
    if a.hit_mine() {
        let (x, y) = choose|x: int, y: int|
            #![trigger a.cell(x, y)]
            a.in_grid(x, y) && a.cell(x, y).opened && a.cell(x, y).mined;
        assert(b.in_grid(x, y) && b.cell(x, y).opened && b.cell(x, y).mined);
        assert(b.hit_mine());
    }
    if b.hit_mine() {
        let (x, y) = choose|x: int, y: int|
            #![trigger b.cell(x, y)]
            b.in_grid(x, y) && b.cell(x, y).opened && b.cell(x, y).mined;
        assert(a.in_grid(x, y));
        assert(a.cell(x, y).opened && a.cell(x, y).mined);
        assert(a.hit_mine());
    }
    if a.cleared() {
        assert forall|x: int, y: int| #![trigger b.cell(x, y)] b.in_grid(x, y) implies b.cell(
            x,
            y,
        ).opened != b.cell(x, y).mined by {
            assert(a.in_grid(x, y));
            assert(a.cell(x, y).opened != a.cell(x, y).mined);
        }
    }
    if b.cleared() {
        assert forall|x: int, y: int| #![trigger a.cell(x, y)] a.in_grid(x, y) implies a.cell(
            x,
            y,
        ).opened != a.cell(x, y).mined by {
            assert(b.in_grid(x, y));
            assert(b.cell(x, y).opened != b.cell(x, y).mined);
        }
    }
}

/// How many cells of `cells` carry a flag.
pub open spec fn flag_count(cells: Seq<CellModel>) -> nat
    decreases cells.len(),
{
    if cells.len() == 0 {
        0
    } else {
        flag_count(cells.drop_last()) + if cells.last().flagged {
            1nat
        } else {
            0nat
        }
    }
}

/// What can be observed of a board's grid: its size, its cells in row-major
/// order, the mines once placed, and whether the first reveal is still to
/// come.
pub struct BoardModel {
    pub width: nat,
    pub height: nat,
    pub mine_count: nat,
    pub cells: Seq<CellModel>,
    pub mined_coordinates: Seq<(u8, u8)>,
    pub first_open: bool,
}

impl BoardModel {
    pub open spec fn in_grid(self, x: int, y: int) -> bool {
        in_grid(self.width as int, self.height as int, x, y)
    }

    pub open spec fn cell(self, x: int, y: int) -> CellModel {
        self.cells[linear(self.width as int, x, y)]
    }

    pub open spec fn neighbors(self, x: int, y: int) -> Seq<(u8, u8)> {
        neighbors(self.width as int, self.height as int, x, y)
    }

    /// Whether the cell at a coordinate pair holds a mine.
    pub open spec fn mined_at(self) -> spec_fn((u8, u8)) -> bool {
        |p: (u8, u8)| self.cell(p.0 as int, p.1 as int).mined
    }

    /// Whether the cell at a coordinate pair carries a flag.
    pub open spec fn flagged_at(self) -> spec_fn((u8, u8)) -> bool {
        |p: (u8, u8)| self.cell(p.0 as int, p.1 as int).flagged
    }

    /// How many neighbours of `(x, y)` hold a mine.
    pub open spec fn mines_around(self, x: int, y: int) -> nat {
        count_where(self.neighbors(x, y), self.mined_at())
    }

    /// How many neighbours of `(x, y)` carry a flag.
    pub open spec fn flags_around(self, x: int, y: int) -> nat {
        count_where(self.neighbors(x, y), self.flagged_at())
    }

    /// Whether the cells other than `(x, y)` and its neighbours leave room for
    /// every mine.
    pub open spec fn roomy(self, x: int, y: int) -> bool {
        self.width * self.height - (self.neighbors(x, y).len() + 1) >= self.mine_count
    }

    /// The board after toggling the flag of the cell at `(x, y)`, if that
    /// cell is in the grid and closed; otherwise the board unchanged.
    pub open spec fn toggled(self, x: int, y: int) -> BoardModel {
        if self.in_grid(x, y) && !self.cell(x, y).opened {
            BoardModel {
                cells: self.cells.update(
                    linear(self.width as int, x, y),
                    cell_step(self.cell(x, y), CellEvent::ToggleFlag),
                ),
                ..self
            }
        } else {
            self
        }
    }

    pub open spec fn unopened_set(self) -> Set<(int, int)> {
        Set::new(|p: (int, int)| self.in_grid(p.0, p.1) && !self.cell(p.0, p.1).opened)
    }

    pub open spec fn mined_set(self) -> Set<(int, int)> {
        Set::new(|p: (int, int)| self.in_grid(p.0, p.1) && self.cell(p.0, p.1).mined)
    }

    /// No cell opened or mined yet, no count raised, no mine recorded.
    pub open spec fn untouched(self) -> bool {
        &&& self.mined_coordinates.len() == 0
        &&& forall|x: int, y: int|
            #![trigger self.cell(x, y)]
            self.in_grid(x, y) ==> !self.cell(x, y).opened && !self.cell(x, y).mined
                && self.cell(x, y).adjacent == 0
    }

    /// The mines are recorded once each, the recorded cells are exactly the
    /// mined ones, and each safe cell counts the mines around it.
    pub open spec fn mines_placed(self) -> bool {
        &&& self.mined_coordinates.len() == self.mine_count
        &&& self.mined_coordinates.no_duplicates()
        &&& forall|j: int|
            0 <= j < self.mined_coordinates.len() ==> self.in_grid(
                #[trigger] self.mined_coordinates[j].0 as int,
                self.mined_coordinates[j].1 as int,
            )
        &&& forall|x: int, y: int|
            #![trigger self.cell(x, y)]
            self.in_grid(x, y) ==> (self.cell(x, y).mined <==> self.mined_coordinates.contains(
                (x as u8, y as u8),
            ))
        &&& forall|x: int, y: int|
            #![trigger self.cell(x, y)]
            self.in_grid(x, y) && !self.cell(x, y).mined ==> self.cell(x, y).adjacent
                == self.mines_around(x, y)
    }

    /// Some opened cell holds a mine.
    pub open spec fn hit_mine(self) -> bool {
        exists|x: int, y: int|
            #![trigger self.cell(x, y)]
            self.in_grid(x, y) && self.cell(x, y).opened && self.cell(x, y).mined
    }

    /// Every safe cell is open and every mine closed.
    pub open spec fn cleared(self) -> bool {
        forall|x: int, y: int|
            #![trigger self.cell(x, y)]
            self.in_grid(x, y) ==> self.cell(x, y).opened != self.cell(x, y).mined
    }

    /// The size, the mine count and the cells agree, and the mines, once
    /// placed, are recorded and counted around every safe cell.
    pub open spec fn consistent(self) -> bool {
        &&& 1 <= self.width <= 255
        &&& 1 <= self.height <= 255
        &&& self.width * self.height >= 2
        &&& 1 <= self.mine_count < self.width * self.height
        &&& self.cells.len() == self.width * self.height
        &&& self.first_open ==> self.untouched()
        &&& !self.first_open ==> self.mines_placed()
    }

    /// The cell at a coordinate pair.
    pub open spec fn at(self, p: (u8, u8)) -> CellModel {
        self.cell(p.0 as int, p.1 as int)
    }

    pub open spec fn holds(self, p: (u8, u8)) -> bool {
        self.in_grid(p.0 as int, p.1 as int)
    }

    /// Opened in `self` but closed in `before`.
    pub open spec fn newly_opened(self, before: BoardModel, p: (u8, u8)) -> bool {
        self.at(p).opened && !before.at(p).opened
    }

    /// A safe cell with no mine around it.
    pub open spec fn empty_at(self, p: (u8, u8)) -> bool {
        !self.at(p).mined && self.at(p).adjacent == 0
    }

    /// Every cell opened since `before`, but `origin`, touches an empty cell
    /// opened since `before` whose rank is lower.
    pub open spec fn ranked(
        self,
        before: BoardModel,
        origin: (u8, u8),
        rank: Map<(u8, u8), nat>,
    ) -> bool {
        forall|p: (u8, u8)|
            #![trigger self.at(p)]
            self.holds(p) && self.newly_opened(before, p) && p != origin ==> exists|q: (u8, u8)|
                #![trigger self.at(q)]
                self.holds(q) && touches(p, q) && self.newly_opened(before, q) && self.empty_at(q)
                    && rank[q] < rank[p]
    }

    /// The same mines, and the same count on every cell, as in `other`.
    pub open spec fn same_mines(self, other: BoardModel) -> bool {
        forall|p: (u8, u8)|
            #![trigger self.at(p)]
            self.holds(p) ==> self.at(p).mined == other.at(p).mined && self.at(p).adjacent
                == other.at(p).adjacent
    }

    /// `self` follows from `before` by opening cells from `origin` outward:
    /// flags stay; no open cell closes and no flagged cell opens; every newly
    /// opened cell but `origin` touches a newly opened empty cell of lower
    /// rank, so that each is reached from `origin` through newly opened empty
    /// cells; and every neighbour of a newly opened empty cell is open or
    /// flagged.
    pub open spec fn flooded_from(self, before: BoardModel, origin: (u8, u8)) -> bool {
        &&& forall|p: (u8, u8)|
            #![trigger self.at(p)]
            self.holds(p) ==> {
                &&& self.at(p).flagged == before.at(p).flagged
                &&& (before.at(p).opened ==> self.at(p).opened)
                &&& (self.newly_opened(before, p) ==> !before.at(p).flagged)
            }
        &&& exists|rank: Map<(u8, u8), nat>| #[trigger] self.ranked(before, origin, rank)
        &&& forall|p: (u8, u8), q: (u8, u8)|
            #![trigger self.at(p), self.at(q)]
            self.holds(p) && self.newly_opened(before, p) && self.empty_at(p) && self.holds(q)
                && touches(p, q) ==> self.at(q).opened || self.at(q).flagged
    }
}

} // verus!

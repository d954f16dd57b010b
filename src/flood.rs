//! The bookkeeping behind the flood fill: what holds of the pending cells
//! and of the cells already opened, and how each step keeps it.

use vstd::prelude::*;

use crate::cell::CellModel;
use crate::grid::{lemma_linear, lemma_neighbors, linear};
use crate::model::{lemma_consistent_transfer, touches, BoardModel};

verus! {

/// `b` keeps the mines, flags and counts of `start`, keeps its open cells
/// open, and has opened no flagged cell.
#[verifier::opaque]
pub open spec fn grown(b: BoardModel, start: BoardModel) -> bool {
    forall|p: (u8, u8)|
        #![trigger b.at(p)]
        start.holds(p) ==> {
            &&& b.at(p).mined == start.at(p).mined
            &&& b.at(p).flagged == start.at(p).flagged
            &&& b.at(p).adjacent == start.at(p).adjacent
            &&& (start.at(p).opened ==> b.at(p).opened)
            &&& (b.newly_opened(start, p) ==> !start.at(p).flagged)
        }
}

/// A cell waiting to be opened by a flood from `origin` in `b`: the origin
/// itself, or a cell that touches `f`, an empty cell that the flood opened.
pub open spec fn pending_ok(
    b: BoardModel,
    start: BoardModel,
    origin: (u8, u8),
    s: (u8, u8),
    f: (u8, u8),
) -> bool {
    &&& start.holds(s)
    &&& (s == origin || (start.holds(f) && touches(s, f) && b.newly_opened(start, f) && b.empty_at(
        f,
    )))
}

/// Each pending cell of a flood from `origin` has its reason in `from`.
#[verifier::opaque]
pub open spec fn stacked(
    b: BoardModel,
    start: BoardModel,
    origin: (u8, u8),
    stack: Seq<(u8, u8)>,
    from: Seq<(u8, u8)>,
) -> bool {
    &&& from.len() == stack.len()
    &&& forall|j: int|
        #![trigger stack[j]]
        0 <= j < stack.len() ==> pending_ok(b, start, origin, stack[j], from[j])
}

/// Each cell the flood opened has a time in `order` before `clock`, and each
/// but `origin` has in `parent` an empty newly opened cell that it touches
/// and that opened earlier.
#[verifier::opaque]
pub open spec fn parented(
    b: BoardModel,
    start: BoardModel,
    origin: (u8, u8),
    parent: Map<(u8, u8), (u8, u8)>,
    order: Map<(u8, u8), nat>,
    clock: nat,
) -> bool {
    forall|p: (u8, u8)|
        #![trigger b.at(p)]
        start.holds(p) && b.newly_opened(start, p) ==> {
            &&& order.contains_key(p)
            &&& order[p] < clock
            &&& p != origin ==> parent.contains_key(p) && pending_ok(b, start, origin, p, parent[p])
                && order.contains_key(parent[p]) && order[parent[p]] < order[p]
        }
}

/// Each neighbour of a newly opened empty cell other than `skip` is open,
/// flagged or pending.
#[verifier::opaque]
pub open spec fn covered_but(
    b: BoardModel,
    start: BoardModel,
    stack: Seq<(u8, u8)>,
    skip: Option<(u8, u8)>,
) -> bool {
    forall|p: (u8, u8), q: (u8, u8)|
        #![trigger b.at(p), b.at(q)]
        start.holds(p) && b.newly_opened(start, p) && b.empty_at(p) && start.holds(q) && touches(p, q)
            && skip != Some(p) ==> b.at(q).opened || b.at(q).flagged || stack.contains(q)
}

/// Popping a cell that is open or flagged keeps the flood's bookkeeping.
pub(crate) proof fn lemma_flood_skip(
    b: BoardModel,
    start: BoardModel,
    origin: (u8, u8),
    stack: Seq<(u8, u8)>,
    from: Seq<(u8, u8)>,
)
    requires
        stack.len() > 0,
        stacked(b, start, origin, stack, from),
        covered_but(b, start, stack, None),
        b.at(stack.last()).opened || b.at(stack.last()).flagged,
    ensures
        stacked(b, start, origin, stack.drop_last(), from.drop_last()),
        covered_but(b, start, stack.drop_last(), None),
{
    reveal(stacked);
    reveal(covered_but);
    assert forall|j: int| #![trigger stack.drop_last()[j]] 0 <= j < stack.len() - 1 implies pending_ok(
        b,
        start,
        origin,
        stack.drop_last()[j],
        from.drop_last()[j],
    ) by {
        assert(stack[j] == stack.drop_last()[j]);
    }
    assert forall|p: (u8, u8), q: (u8, u8)|
        #![trigger b.at(p), b.at(q)]
        start.holds(p) && b.newly_opened(start, p) && b.empty_at(p) && start.holds(q) && touches(p, q)
            implies b.at(q).opened || b.at(q).flagged || stack.drop_last().contains(q) by {
        if stack.contains(q) && q != stack.last() {
            let j = choose|j: int| 0 <= j < stack.len() && stack[j] == q;
            assert(stack.drop_last()[j] == q);
        }
    }
}

/// Opening the popped cell `p` keeps the flood's bookkeeping, but for the
/// neighbours of `p` when it is empty.
pub(crate) proof fn lemma_flood_open(
    start: BoardModel,
    before: BoardModel,
    after: BoardModel,
    origin: (u8, u8),
    stack: Seq<(u8, u8)>,
    from: Seq<(u8, u8)>,
    parent: Map<(u8, u8), (u8, u8)>,
    order: Map<(u8, u8), nat>,
    clock: nat,
)
    requires
        start.consistent(),
        before == (BoardModel { cells: before.cells, ..start }),
        after == (BoardModel { cells: after.cells, ..start }),
        before.cells.len() == start.cells.len(),
        stack.len() > 0,
        start.holds(stack.last()),
        !before.at(stack.last()).opened,
        !before.at(stack.last()).flagged,
        after.cells == before.cells.update(
            linear(start.width as int, stack.last().0 as int, stack.last().1 as int),
            CellModel { opened: true, ..before.at(stack.last()) },
        ),
        grown(before, start),
        stacked(before, start, origin, stack, from),
        parented(before, start, origin, parent, order, clock),
        covered_but(before, start, stack, None),
    ensures
        after.cells.len() == before.cells.len(),
        after.at(stack.last()).opened,
        after.at(stack.last()).mined == before.at(stack.last()).mined,
        after.at(stack.last()).adjacent == before.at(stack.last()).adjacent,
        after.newly_opened(start, stack.last()),
        forall|q: (u8, u8)|
            #![trigger after.at(q)]
            start.holds(q) && q != stack.last() ==> after.at(q) == before.at(q),
        grown(after, start),
        stacked(after, start, origin, stack.drop_last(), from.drop_last()),
        parented(
            after,
            start,
            origin,
            if stack.last() != origin {
                parent.insert(stack.last(), from.last())
            } else {
                parent
            },
            order.insert(stack.last(), clock),
            clock + 1,
        ),
        covered_but(after, start, stack.drop_last(), Some(stack.last())),
        !after.empty_at(stack.last()) ==> covered_but(after, start, stack.drop_last(), None),
{
    let p = stack.last();
    let f = from.last();
    lemma_open_one(start, before, after, p);
    reveal(grown);
    reveal(stacked);
    reveal(parented);
    reveal(covered_but);
    assert(pending_ok(before, start, origin, stack[stack.len() - 1], from[from.len() - 1]));
    assert(before.at(p) == before.at(p));
    assert forall|j: int| #![trigger stack.drop_last()[j]] 0 <= j < stack.len() - 1 implies pending_ok(
        after,
        start,
        origin,
        stack.drop_last()[j],
        from.drop_last()[j],
    ) by {
        assert(stack[j] == stack.drop_last()[j]);
        assert(from[j] == from.drop_last()[j]);
        assert(pending_ok(before, start, origin, stack[j], from[j]));
        if stack[j] != origin {
            assert(before.at(from[j]) == after.at(from[j]));
        }
    }
    let np = if p != origin {
        parent.insert(p, f)
    } else {
        parent
    };
    let no = order.insert(p, clock);
    assert forall|r: (u8, u8)|
        #![trigger after.at(r)]
        start.holds(r) && after.newly_opened(start, r) implies {
            &&& no.contains_key(r)
            &&& no[r] < clock + 1
            &&& r != origin ==> np.contains_key(r) && pending_ok(after, start, origin, r, np[r])
                && no.contains_key(np[r]) && no[np[r]] < no[r]
        } by {
        if r != p {
            assert(before.at(r) == after.at(r));
            assert(before.at(r) == before.at(r));
            if r != origin {
                assert(pending_ok(before, start, origin, r, parent[r]));
                assert(before.at(parent[r]) == after.at(parent[r]));
                assert(before.at(parent[r]) == before.at(parent[r]));
                assert(parent[r] != p);
            }
        } else if r != origin {
            assert(before.at(f) == after.at(f));
            assert(before.at(f) == before.at(f));
            assert(f != p);
        }
    }
    assert forall|r: (u8, u8), q: (u8, u8)|
        #![trigger after.at(r), after.at(q)]
        start.holds(r) && after.newly_opened(start, r) && after.empty_at(r) && start.holds(q)
            && touches(r, q) && Some(p) != Some(r) implies after.at(q).opened || after.at(q).flagged
            || stack.drop_last().contains(q) by {
        assert(before.at(r) == after.at(r));
        assert(before.at(r) == before.at(r));
        if q != p {
            assert(before.at(q) == after.at(q));
            assert(before.at(q) == before.at(q));
            if stack.contains(q) {
                let j = choose|j: int| 0 <= j < stack.len() && stack[j] == q;
                assert(stack.drop_last()[j] == q);
            }
        }
    }
}

/// Pushing the neighbours of an empty newly opened cell `p` closes the gap
/// that opening it left.
pub(crate) proof fn lemma_flood_push(
    b: BoardModel,
    start: BoardModel,
    origin: (u8, u8),
    stack: Seq<(u8, u8)>,
    from: Seq<(u8, u8)>,
    p: (u8, u8),
)
    requires
        start.consistent(),
        start.holds(p),
        b.newly_opened(start, p),
        b.empty_at(p),
        stacked(b, start, origin, stack, from),
        covered_but(b, start, stack, Some(p)),
    ensures
        stacked(
            b,
            start,
            origin,
            stack + start.neighbors(p.0 as int, p.1 as int),
            from + Seq::new(start.neighbors(p.0 as int, p.1 as int).len(), |i: int| p),
        ),
        covered_but(b, start, stack + start.neighbors(p.0 as int, p.1 as int), None),
{
    reveal(stacked);
    reveal(covered_but);
    let nb = start.neighbors(p.0 as int, p.1 as int);
    let ns = stack + nb;
    let nf = from + Seq::new(nb.len(), |i: int| p);
    lemma_neighbors(start.width as int, start.height as int, p.0 as int, p.1 as int);
    assert forall|j: int| #![trigger ns[j]] 0 <= j < ns.len() implies pending_ok(
        b,
        start,
        origin,
        ns[j],
        nf[j],
    ) by {
        if j < stack.len() {
            assert(ns[j] == stack[j]);
            assert(nf[j] == from[j]);
        } else {
            assert(ns[j] == nb[j - stack.len()]);
            assert(nb.contains(nb[j - stack.len()]));
            assert(nf[j] == p);
        }
    }
    assert forall|r: (u8, u8), q: (u8, u8)|
        #![trigger b.at(r), b.at(q)]
        start.holds(r) && b.newly_opened(start, r) && b.empty_at(r) && start.holds(q) && touches(r, q)
            && None::<(u8, u8)> != Some(r) implies b.at(q).opened || b.at(q).flagged || ns.contains(q) by {
        if r == p {
            assert(nb.contains(q));
            let j = choose|j: int| 0 <= j < nb.len() && nb[j] == q;
            assert(ns[stack.len() + j] == q);
        } else if stack.contains(q) {
            let j = choose|j: int| 0 <= j < stack.len() && stack[j] == q;
            assert(ns[j] == q);
        }
    }
}

proof fn lemma_open_one(start: BoardModel, before: BoardModel, after: BoardModel, p: (u8, u8))
    requires
        start.consistent(),
        before == (BoardModel { cells: before.cells, ..start }),
        after == (BoardModel { cells: after.cells, ..start }),
        before.cells.len() == start.cells.len(),
        start.holds(p),
        !before.at(p).opened,
        !before.at(p).flagged,
        after.cells == before.cells.update(
            linear(start.width as int, p.0 as int, p.1 as int),
            CellModel { opened: true, ..before.at(p) },
        ),
        grown(before, start),
    ensures
        after.cells.len() == before.cells.len(),
        after.at(p) == (CellModel { opened: true, ..before.at(p) }),
        forall|q: (u8, u8)| #![trigger after.at(q)] start.holds(q) && q != p ==> after.at(q) == before.at(q),
        grown(after, start),
{
    lemma_linear(start.width as int, start.height as int, p.0 as int, p.1 as int);
    assert forall|q: (u8, u8)| #![trigger after.at(q)] start.holds(q) && q != p implies after.at(q)
        == before.at(q) by {
        lemma_linear(start.width as int, start.height as int, q.0 as int, q.1 as int);
    }
    reveal(grown);
    assert forall|q: (u8, u8)| #![trigger after.at(q)] start.holds(q) implies {
        &&& after.at(q).mined == start.at(q).mined
        &&& after.at(q).flagged == start.at(q).flagged
        &&& after.at(q).adjacent == start.at(q).adjacent
        &&& (start.at(q).opened ==> after.at(q).opened)
        &&& (after.newly_opened(start, q) ==> !start.at(q).flagged)
    } by {
        assert(before.at(q) == before.at(q));
    }
}

/// A flood measured from the board just after the mines were placed is a
/// flood from the board before: placing mines opens and flags nothing.
pub(crate) proof fn lemma_flood_before_placing(
    start: BoardModel,
    placed: BoardModel,
    b: BoardModel,
    origin: (u8, u8),
)
    requires
        placed.width == start.width && placed.height == start.height,
        b.width == start.width && b.height == start.height,
        forall|p: (u8, u8)|
            #![trigger placed.at(p)]
            placed.holds(p) ==> placed.at(p).opened == start.at(p).opened && placed.at(p).flagged
                == start.at(p).flagged,
        b.flooded_from(placed, origin),
    ensures
        b.flooded_from(start, origin),
{
    assert forall|p: (u8, u8)| #![trigger b.at(p)] b.holds(p) implies b.newly_opened(start, p)
        == b.newly_opened(placed, p) && start.at(p).flagged == placed.at(p).flagged by {
        assert(placed.at(p) == placed.at(p));
    }
    let rank = choose|rank: Map<(u8, u8), nat>| #[trigger] b.ranked(placed, origin, rank);
    assert forall|p: (u8, u8)|
        #![trigger b.at(p)]
        b.holds(p) && b.newly_opened(start, p) && p != origin implies exists|q: (u8, u8)|
        #![trigger b.at(q)]
        b.holds(q) && touches(p, q) && b.newly_opened(start, q) && b.empty_at(q) && rank[q]
            < rank[p] by {
        assert(b.at(p) == b.at(p));
        let q = choose|q: (u8, u8)|
            #![trigger b.at(q)]
            b.holds(q) && touches(p, q) && b.newly_opened(placed, q) && b.empty_at(q) && rank[q]
                < rank[p];
        assert(b.at(q) == b.at(q));
    }
    assert(b.ranked(start, origin, rank));
}

/// When no cell is pending, the flood's bookkeeping gives its contract.
pub(crate) proof fn lemma_flood_done(
    start: BoardModel,
    b: BoardModel,
    origin: (u8, u8),
    parent: Map<(u8, u8), (u8, u8)>,
    order: Map<(u8, u8), nat>,
    clock: nat,
)
    requires
        start.consistent(),
        !start.first_open,
        b == (BoardModel { cells: b.cells, ..start }),
        b.cells.len() == start.cells.len(),
        grown(b, start),
        parented(b, start, origin, parent, order, clock),
        covered_but(b, start, Seq::empty(), None),
    ensures
        b.consistent(),
        b.same_mines(start),
        b.flooded_from(start, origin),
{
    reveal(grown);
    reveal(parented);
    reveal(covered_but);
    lemma_consistent_transfer(start, b);
    assert forall|p: (u8, u8)|
        #![trigger b.at(p)]
        b.holds(p) && b.newly_opened(start, p) && p != origin implies exists|q: (u8, u8)|
        #![trigger b.at(q)]
        b.holds(q) && touches(p, q) && b.newly_opened(start, q) && b.empty_at(q) && order[q]
            < order[p] by {
        let q = parent[p];
        assert(pending_ok(b, start, origin, p, q));
        assert(b.at(q) == b.at(q));
    }
    assert(b.ranked(start, origin, order));
}

} // verus!

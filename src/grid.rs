//! Coordinates on a rectangular grid: the eight neighbours of a cell, the
//! row-major layout, and the enumeration of cells outside an excluded set.

use vstd::prelude::*;

verus! {

/// The offsets to the eight neighbours of a cell, column by column from the
/// top left: `k` from 0 to 7.
pub open spec fn offset_of(k: int) -> (int, int) {
    if k == 0 {
        (-1, -1)
    } else if k == 1 {
        (-1, 0)
    } else if k == 2 {
        (-1, 1)
    } else if k == 3 {
        (0, -1)
    } else if k == 4 {
        (0, 1)
    } else if k == 5 {
        (1, -1)
    } else if k == 6 {
        (1, 0)
    } else {
        (1, 1)
    }
}

/// The position of an offset in `offset_of`.
pub open spec fn offset_rank(dx: int, dy: int) -> int {
    if dx == -1 {
        dy + 1
    } else if dx == 0 {
        if dy == -1 {
            3
        } else {
            4
        }
    } else {
        dy + 6
    }
}

pub open spec fn in_grid(w: int, h: int, x: int, y: int) -> bool {
    0 <= x < w && 0 <= y < h
}

/// Two distinct cells that touch by a side or a corner.
pub open spec fn is_adjacent(x: int, y: int, a: int, b: int) -> bool {
    -1 <= a - x <= 1 && -1 <= b - y <= 1 && (a != x || b != y)
}

/// The in-grid cells at the first `k` offsets around `(x, y)`, in order.
pub open spec fn neighbors_upto(w: int, h: int, x: int, y: int, k: nat) -> Seq<(u8, u8)>
    decreases k,
{
    if k == 0 {
        Seq::empty()
    } else {
        let prev = neighbors_upto(w, h, x, y, (k - 1) as nat);
        let d = offset_of(k - 1);
        if in_grid(w, h, x + d.0, y + d.1) {
            prev.push(((x + d.0) as u8, (y + d.1) as u8))
        } else {
            prev
        }
    }
}

/// The in-grid neighbours of `(x, y)`, in the order of `offset_of`.
pub open spec fn neighbors(w: int, h: int, x: int, y: int) -> Seq<(u8, u8)> {
    neighbors_upto(w, h, x, y, 8)
}

/// The position of `(x, y)` in a row-major array of rows `w` cells long.
#[verifier::opaque]
pub open spec fn linear(w: int, x: int, y: int) -> int {
    y * w + x
}

proof fn lemma_neighbors_upto(w: int, h: int, x: int, y: int, k: nat)
    requires
        w <= 256,
        h <= 256,
        k <= 8,
    ensures
        neighbors_upto(w, h, x, y, k).no_duplicates(),
        neighbors_upto(w, h, x, y, k).len() <= k,
        forall|q: (u8, u8)|
            #![trigger neighbors_upto(w, h, x, y, k).contains(q)]
            neighbors_upto(w, h, x, y, k).contains(q) <==> (in_grid(w, h, q.0 as int, q.1 as int)
                && is_adjacent(x, y, q.0 as int, q.1 as int) && offset_rank(q.0 - x, q.1 - y) < k),
    decreases k,
{
    if k > 0 {
        lemma_neighbors_upto(w, h, x, y, (k - 1) as nat);
        let prev = neighbors_upto(w, h, x, y, (k - 1) as nat);
        let d = offset_of(k - 1);
        let p = ((x + d.0) as u8, (y + d.1) as u8);
        if in_grid(w, h, x + d.0, y + d.1) {
            assert(!prev.contains(p));
            assert forall|q: (u8, u8)| #[trigger]
                prev.push(p).contains(q) <==> (prev.contains(q) || q == p) by {
                if q == p {
                    assert(prev.push(p)[prev.len() as int] == q);
                }
                if prev.push(p).contains(q) && q != p {
                    let i = choose|i: int| 0 <= i < prev.len() + 1 && prev.push(p)[i] == q;
                    assert(prev[i] == q);
                }
                if prev.contains(q) {
                    let i = choose|i: int| 0 <= i < prev.len() && prev[i] == q;
                    assert(prev.push(p)[i] == q);
                }
            }
        }
    }
}

/// The neighbour list holds each in-grid cell that touches `(x, y)`, once,
/// and nothing else.
pub proof fn lemma_neighbors(w: int, h: int, x: int, y: int)
    requires
        w <= 256,
        h <= 256,
    ensures
        neighbors(w, h, x, y).no_duplicates(),
        neighbors(w, h, x, y).len() <= 8,
        forall|q: (u8, u8)|
            #![trigger neighbors(w, h, x, y).contains(q)]
            neighbors(w, h, x, y).contains(q) <==> (in_grid(w, h, q.0 as int, q.1 as int)
                && is_adjacent(x, y, q.0 as int, q.1 as int)),
{
    lemma_neighbors_upto(w, h, x, y, 8);
}

/// Each cell of the grid has its own place in the row-major array.
pub proof fn lemma_linear(w: int, h: int, x: int, y: int)
    requires
        in_grid(w, h, x, y),
    ensures
        0 <= linear(w, x, y) < w * h,
        forall|a: int, b: int|
            #![trigger linear(w, a, b)]
            in_grid(w, h, a, b) && linear(w, a, b) == linear(w, x, y) ==> a == x && b == y,
{
    reveal(linear);
    assert(0 <= y * w) by (nonlinear_arith)
        requires
            0 <= y,
            0 < w,
    ;
    assert(y * w + x < w * h) by (nonlinear_arith)
        requires
            0 <= x < w,
            0 <= y < h,
    ;
    assert forall|a: int, b: int|
        #![trigger linear(w, a, b)]
        in_grid(w, h, a, b) && linear(w, a, b) == linear(w, x, y) implies a == x && b == y by {
        if b < y {
            assert(b * w + a < y * w + x) by (nonlinear_arith)
                requires
                    0 <= a < w,
                    0 <= x,
                    b < y,
            ;
        } else if b > y {
            assert(b * w + a > y * w + x) by (nonlinear_arith)
                requires
                    0 <= x < w,
                    0 <= a,
                    b > y,
            ;
        }
    }
}

/// A grid of at most 256 by 256 cells has at most 65536 of them.
pub proof fn lemma_area(w: int, h: int)
    requires
        1 <= w <= 256,
        1 <= h <= 256,
    ensures
        w <= w * h <= 65536,
        h <= w * h,
        (w - 1) * (h - 1) <= 65025,
        w <= 255 && h <= 255 ==> w * h <= 65025,
{
    assert(w <= w * h <= 65536 && h <= w * h && (w - 1) * (h - 1) <= 65025 && (w <= 255 && h
        <= 255 ==> w * h <= 65025)) by (nonlinear_arith)
        requires
            1 <= w <= 256,
            1 <= h <= 256,
    ;
}

/// The in-grid neighbours of `(x, y)`, in the order of `offset_of`.
pub fn surrounding(w: u8, h: u8, x: u8, y: u8) -> (r: Vec<(u8, u8)>)
    ensures
        r@ == neighbors(w as int, h as int, x as int, y as int),
{
    let mut r: Vec<(u8, u8)> = Vec::new();
    let mut k: usize = 0;
    while k < 8
        invariant
            k <= 8,
            r@ == neighbors_upto(w as int, h as int, x as int, y as int, k as nat),
        decreases 8 - k,
    {
        let (dx, dy) = offset(k);
        if x as u16 + dx as u16 >= 1 && y as u16 + dy as u16 >= 1 {
            let nx = x as u16 + dx as u16 - 1;
            let ny = y as u16 + dy as u16 - 1;
            if nx < w as u16 && ny < h as u16 {
                r.push((nx as u8, ny as u8));
            }
        }
        k = k + 1;
    }
    r
}

/// Whether `v` holds `p`.
pub fn holds(v: &Vec<(u8, u8)>, p: (u8, u8)) -> (r: bool)
    ensures
        r == v@.contains(p),
{
    let mut i: usize = 0;
    while i < v.len()
        invariant
            i <= v.len(),
            forall|j: int| 0 <= j < i ==> v@[j] != p,
        decreases v.len() - i,
    {
        if v[i].0 == p.0 && v[i].1 == p.1 {
            return true;
        }
        i = i + 1;
    }
    false
}

/// `p` comes before the cell `(x, y)` when the grid is read row by row.
pub open spec fn read_before(p: (u8, u8), x: int, y: int) -> bool {
    p.1 < y || (p.1 == y && p.0 < x)
}

/// Every cell of the grid but those in `excluded`, row by row.
pub fn cells_except(w: u8, h: u8, excluded: &Vec<(u8, u8)>) -> (r: Vec<(u8, u8)>)
    requires
        excluded@.no_duplicates(),
        forall|j: int|
            0 <= j < excluded@.len() ==> in_grid(
                w as int,
                h as int,
                #[trigger] excluded@[j].0 as int,
                excluded@[j].1 as int,
            ),
    ensures
        r@.no_duplicates(),
        forall|p: (u8, u8)|
            #![trigger r@.contains(p)]
            r@.contains(p) <==> in_grid(w as int, h as int, p.0 as int, p.1 as int)
                && !excluded@.contains(p),
        r@.len() == w * h - excluded@.len(),
{
    let mut r: Vec<(u8, u8)> = Vec::new();
    let ghost mut skipped: Seq<(u8, u8)> = Seq::empty();
    let ghost mut seen: int = 0;
    let mut y: u8 = 0;
    while y < h
        invariant
            y <= h,
            seen == y * w,
            forall|j: int|
                0 <= j < excluded@.len() ==> in_grid(
                    w as int,
                    h as int,
                    #[trigger] excluded@[j].0 as int,
                    excluded@[j].1 as int,
                ),
            r@.len() + skipped.len() == seen,
            r@.no_duplicates(),
            skipped.no_duplicates(),
            forall|p: (u8, u8)|
                #![trigger r@.contains(p)]
                r@.contains(p) <==> in_grid(w as int, h as int, p.0 as int, p.1 as int)
                    && !excluded@.contains(p) && read_before(p, 0, y as int),
            forall|p: (u8, u8)|
                #![trigger skipped.contains(p)]
                skipped.contains(p) <==> excluded@.contains(p) && read_before(p, 0, y as int),
        decreases h - y,
    {
        let mut x: u8 = 0;
        while x < w
            invariant
                y < h,
                x <= w,
                seen == y * w + x,
                r@.len() + skipped.len() == seen,
                r@.no_duplicates(),
                skipped.no_duplicates(),
                forall|p: (u8, u8)|
                    #![trigger r@.contains(p)]
                    r@.contains(p) <==> in_grid(w as int, h as int, p.0 as int, p.1 as int)
                        && !excluded@.contains(p) && read_before(p, x as int, y as int),
                forall|p: (u8, u8)|
                    #![trigger skipped.contains(p)]
                    skipped.contains(p) <==> excluded@.contains(p) && read_before(
                        p,
                        x as int,
                        y as int,
                    ),
            decreases w - x,
        {
            let p = (x, y);
            if holds(excluded, p) {
                proof {
                    assert(!skipped.contains(p));
                    assert forall|q: (u8, u8)| #[trigger]
                        skipped.push(p).contains(q) <==> (skipped.contains(q) || q == p) by {
                        lemma_push_contains(skipped, p, q);
                    }
                    skipped = skipped.push(p);
                }
            } else {
                proof {
                    assert(!r@.contains(p));
                    assert forall|q: (u8, u8)| #[trigger]
                        r@.push(p).contains(q) <==> (r@.contains(q) || q == p) by {
                        lemma_push_contains(r@, p, q);
                    }
                }
                r.push(p);
            }
            proof {
                seen = seen + 1;
            }
            x = x + 1;
        }
        proof {
            assert(seen == (y + 1) * w) by (nonlinear_arith)
                requires
                    seen == y * w + w,
            ;
            assert forall|p: (u8, u8)| #![trigger r@.contains(p)] r@.contains(p) implies read_before(
                p,
                0,
                y + 1,
            ) by {}
            assert forall|p: (u8, u8)| #![trigger skipped.contains(p)] excluded@.contains(
                p,
            ) implies (read_before(p, w as int, y as int) <==> read_before(p, 0, y + 1)) by {
                let j = choose|j: int| 0 <= j < excluded@.len() && excluded@[j] == p;
                assert(in_grid(w as int, h as int, excluded@[j].0 as int, excluded@[j].1 as int));
            }
        }
        y = y + 1;
    }
    proof {
        assert forall|p: (u8, u8)| #![trigger skipped.contains(p)] excluded@.contains(
            p,
        ) implies read_before(p, 0, h as int) by {
            let j = choose|j: int| 0 <= j < excluded@.len() && excluded@[j] == p;
            assert(in_grid(w as int, h as int, excluded@[j].0 as int, excluded@[j].1 as int));
        }
        assert(skipped.to_set() =~= excluded@.to_set());
        skipped.unique_seq_to_set();
        excluded@.unique_seq_to_set();
        assert(seen == w * h) by (nonlinear_arith)
            requires
                seen == h * w,
        ;
    }
    r
}

pub proof fn lemma_push_contains(s: Seq<(u8, u8)>, p: (u8, u8), q: (u8, u8))
    ensures
        s.push(p).contains(q) <==> (s.contains(q) || q == p),
{
    if q == p {
        assert(s.push(p)[s.len() as int] == q);
    }
    if s.push(p).contains(q) && q != p {
        let i = choose|i: int| 0 <= i < s.len() + 1 && s.push(p)[i] == q;
        assert(s[i] == q);
    }
    if s.contains(q) {
        let i = choose|i: int| 0 <= i < s.len() && s[i] == q;
        assert(s.push(p)[i] == q);
    }
}

/// `offset_of(k)`, each part shifted up by one.
fn offset(k: usize) -> (r: (u8, u8))
    requires
        k < 8,
    ensures
        r.0 as int - 1 == offset_of(k as int).0,
        r.1 as int - 1 == offset_of(k as int).1,
{
    if k == 0 {
        (0, 0)
    } else if k == 1 {
        (0, 1)
    } else if k == 2 {
        (0, 2)
    } else if k == 3 {
        (1, 0)
    } else if k == 4 {
        (1, 2)
    } else if k == 5 {
        (2, 0)
    } else if k == 6 {
        (2, 1)
    } else {
        (2, 2)
    }
}

} // verus!

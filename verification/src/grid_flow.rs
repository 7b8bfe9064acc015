//! Placement of children in a grid container.
//!
//! Children with both a column and a row keep that cell. The others flow:
//! each goes to the first cell, in reading order from the flow cursor, where
//! its span fits among the cells taken so far, and the cursor then moves past
//! it. Cells are `(column, row)`; a grid has a fixed number of columns and
//! as many rows as its children reach.
use vstd::prelude::*;

verus! {

/// A child as grid placement sees it: its explicit cell, if any, and span.
#[derive(Debug, Clone, Copy)]
pub struct GridItem {
    pub col: Option<usize>,
    pub row: Option<usize>,
    pub col_span: usize,
    pub row_span: usize,
}

/// The state of placement: the cells taken, the flow cursor and the number
/// of rows reached.
pub ghost struct GridState {
    pub taken: Set<(int, int)>,
    pub col: int,
    pub row: int,
    pub rows: int,
}

pub open spec fn is_explicit(it: GridItem) -> bool {
    it.col is Some && it.row is Some
}

/// An item with span `cs` by `rs` may be anchored at `(c, r)`: the anchor is
/// a free cell, and every cell of the span is inside the grid and free.
pub open spec fn fits(taken: Set<(int, int)>, cols: int, c: int, r: int, cs: int, rs: int) -> bool {
    &&& 0 <= c < cols
    &&& !taken.contains((c, r))
    &&& forall|dc: int, dr: int|
        0 <= dc < cs && 0 <= dr < rs ==> #[trigger] cell_free(taken, cols, c + dc, r + dr)
}

pub open spec fn cell_free(taken: Set<(int, int)>, cols: int, c: int, r: int) -> bool {
    c < cols && !taken.contains((c, r))
}

/// `(c1, r1)` comes before `(c2, r2)` in reading order.
pub open spec fn before(c1: int, r1: int, c2: int, r2: int) -> bool {
    r1 < r2 || (r1 == r2 && c1 < c2)
}

/// The cell where a flowing item goes: the first cell at or after the cursor
/// where it fits.
pub open spec fn is_flow_slot(g: GridState, cols: int, cs: int, rs: int, c: int, r: int) -> bool {
    &&& 0 <= c < cols
    &&& !before(c, r, g.col, g.row)
    &&& fits(g.taken, cols, c, r, cs, rs)
    &&& forall|c2: int, r2: int|
        0 <= c2 < cols && !before(c2, r2, g.col, g.row) && before(c2, r2, c, r) ==> !fits(
            g.taken,
            cols,
            c2,
            r2,
            cs,
            rs,
        )
}

pub open spec fn flow_slot(g: GridState, cols: int, cs: int, rs: int) -> (int, int) {
    choose|c: int, r: int| is_flow_slot(g, cols, cs, rs, c, r)
}

/// The cells taken after placing an item of span `cs` by `rs` at `(c, r)`:
/// those of the span inside the grid.
pub open spec fn take(taken: Set<(int, int)>, cols: int, c: int, r: int, cs: int, rs: int) -> Set<(int, int)> {
    taken.union(Set::new(|p: (int, int)| c <= p.0 < c + cs && p.0 < cols && r <= p.1 < r + rs))
}

pub open spec fn max_int(a: int, b: int) -> int {
    if a >= b {
        a
    } else {
        b
    }
}

/// The rows reached by a span at row `r`: through its last row when it has
/// cells, and through row `r` itself for a flowing item.
pub open spec fn rows_reached(rows: int, r: int, cs: int, rs: int, flowing: bool) -> int {
    let spanned = if cs >= 1 && rs >= 1 {
        max_int(rows, r + rs)
    } else {
        rows
    };
    if flowing {
        max_int(spanned, r + 1)
    } else {
        spanned
    }
}

/// Placing one item: where it goes and the state after.
pub open spec fn place_one(g: GridState, cols: int, it: GridItem) -> (GridState, (int, int)) {
    let cs = it.col_span as int;
    let rs = it.row_span as int;
    if is_explicit(it) {
        let c = it.col->Some_0 as int;
        let r = it.row->Some_0 as int;
        (
            GridState {
                taken: take(g.taken, cols, c, r, cs, rs),
                rows: rows_reached(g.rows, r, cs, rs, false),
                ..g
            },
            (c, r),
        )
    } else {
        let p = flow_slot(g, cols, cs, rs);
        let next = p.0 + cs;
        (
            GridState {
                taken: take(g.taken, cols, p.0, p.1, cs, rs),
                col: if next >= cols {
                    0
                } else {
                    next
                },
                row: if next >= cols {
                    p.1 + 1
                } else {
                    p.1
                },
                rows: rows_reached(g.rows, p.1, cs, rs, true),
            },
            p,
        )
    }
}

/// Placing `items` in order from state `g`: the cells, and the state after.
pub open spec fn place_all(g: GridState, cols: int, items: Seq<GridItem>) -> (GridState, Seq<(int, int)>)
    decreases items.len(),
{
    if items.len() == 0 {
        (g, Seq::empty())
    } else {
        let (g1, ps) = place_all(g, cols, items.drop_last());
        let (g2, p) = place_one(g1, cols, items.last());
        (g2, ps.push(p))
    }
}

/// The rows a grid starts with: enough for its children one per cell, and
/// at least one.
pub open spec fn initial_rows(n: int, cols: int) -> int {
    max_int((n + cols - 1) / cols, 1)
}

pub open spec fn start(n: int, cols: int) -> GridState {
    GridState { taken: Set::empty(), col: 0, row: 0, rows: initial_rows(n, cols) }
}

/// What placement asks of the items: a flowing item that spans rows spans
/// no more columns than the grid has; explicit cells and spans stay in range.
pub open spec fn items_ok(cols: int, items: Seq<GridItem>) -> bool {
    forall|i: int|
        0 <= i < items.len() ==> {
            let it = #[trigger] items[i];
            if is_explicit(it) {
                it.col->Some_0 + it.col_span <= usize::MAX && it.row->Some_0 + it.row_span
                    <= usize::MAX
            } else {
                it.col_span <= cols || (it.row_span == 0 && it.col_span <= usize::MAX / 2)
            }
        }
}

pub open spec fn positions_view(v: Seq<(usize, usize)>) -> Seq<(int, int)> {
    v.map_values(|p: (usize, usize)| (p.0 as int, p.1 as int))
}

/// The occupancy rows hold exactly the taken cells.
pub open spec fn grid_matches(occ: Seq<Vec<bool>>, cols: int, taken: Set<(int, int)>) -> bool {
    &&& forall|r: int| 0 <= r < occ.len() ==> (#[trigger] occ[r])@.len() == cols
    &&& forall|c: int, r: int|
        0 <= r < occ.len() && 0 <= c < cols ==> (#[trigger] occ[r]@[c]) == taken.contains((c, r))
    &&& forall|p: (int, int)| #[trigger] taken.contains(p) ==> 0 <= p.0 < cols && 0 <= p.1 < occ.len()
}

/// Adds free rows until row `r` exists.
fn grow_to(occupied: &mut Vec<Vec<bool>>, cols: usize, r: usize, Ghost(taken): Ghost<Set<(int, int)>>)
    requires
        grid_matches(old(occupied)@, cols as int, taken),
    ensures
        grid_matches(final(occupied)@, cols as int, taken),
        final(occupied)@.len() == max_int(old(occupied)@.len() as int, r + 1),
{
    while occupied.len() <= r
        invariant
            grid_matches(occupied@, cols as int, taken),
            occupied@.len() == max_int(old(occupied)@.len() as int, occupied@.len() as int),
            occupied@.len() <= max_int(old(occupied)@.len() as int, r + 1),
        decreases r + 1 - occupied@.len(),
    {
        let row: Vec<bool> = vec![false; cols];
        assert forall|c: int| 0 <= c < cols implies row@[c] == false by {
            assert(cloned(false, row@[c]));
        }
        let ghost before = occupied@;
        occupied.push(row);
        proof {
            assert forall|c: int, q: int|
                0 <= q < occupied@.len() && 0 <= c < cols implies (#[trigger] occupied@[q]@[c])
                == taken.contains((c, q)) by {
                if q < before.len() {
                    assert(occupied@[q] == before[q]);
                } else {
                    assert(!taken.contains((c, q)));
                }
            }
        }
    }
}

/// Checks the span cells in the order placement does, adding rows as it
/// reaches them; true when every span cell is inside the grid and free.
fn check_span(
    occupied: &mut Vec<Vec<bool>>,
    cols: usize,
    c: usize,
    r: usize,
    cs: usize,
    rs: usize,
    Ghost(taken): Ghost<Set<(int, int)>>,
) -> (ok: bool)
    requires
        grid_matches(old(occupied)@, cols as int, taken),
        cs >= 1 && rs >= 1 ==> c + cs <= usize::MAX && r + rs <= usize::MAX,
    ensures
        grid_matches(final(occupied)@, cols as int, taken),
        ok == (forall|dc: int, dr: int|
            0 <= dc < cs && 0 <= dr < rs ==> #[trigger] cell_free(taken, cols as int, c + dc, r + dr)),
        old(occupied)@.len() <= final(occupied)@.len(),
        cs >= 1 && rs >= 1 ==> final(occupied)@.len() <= max_int(old(occupied)@.len() as int, r + rs),
        !(cs >= 1 && rs >= 1) ==> final(occupied)@.len() == old(occupied)@.len(),
        ok && cs >= 1 && rs >= 1 ==> final(occupied)@.len() == max_int(
            old(occupied)@.len() as int,
            r + rs,
        ),
{
    let ghost len0 = occupied@.len() as int;
    let mut dc: usize = 0;
    while dc < cs
        invariant
            dc <= cs,
            grid_matches(occupied@, cols as int, taken),
            cs >= 1 && rs >= 1 ==> c + cs <= usize::MAX && r + rs <= usize::MAX,
            len0 == old(occupied)@.len(),
            len0 <= occupied@.len(),
            rs >= 1 ==> occupied@.len() <= max_int(len0, r + rs),
            rs == 0 || dc == 0 ==> occupied@.len() == len0,
            dc > 0 && rs >= 1 ==> occupied@.len() >= r + rs,
            forall|a: int, b: int|
                0 <= a < dc && 0 <= b < rs ==> #[trigger] cell_free(taken, cols as int, c + a, r + b),
        decreases cs - dc,
    {
        let mut dr: usize = 0;
        while dr < rs
            invariant
                dc < cs,
                dr <= rs,
                grid_matches(occupied@, cols as int, taken),
                rs >= 1 ==> c + cs <= usize::MAX && r + rs <= usize::MAX,
                len0 == old(occupied)@.len(),
                len0 <= occupied@.len(),
                rs >= 1 ==> occupied@.len() <= max_int(len0, r + rs),
                rs == 0 ==> occupied@.len() == len0,
                dc > 0 && rs >= 1 ==> occupied@.len() >= r + rs,
                dr > 0 ==> occupied@.len() >= r + dr,
                forall|a: int, b: int|
                    0 <= a < dc && 0 <= b < rs ==> #[trigger] cell_free(taken, cols as int, c + a, r + b),
                forall|b: int| 0 <= b < dr ==> #[trigger] cell_free(taken, cols as int, c + dc, r + b),
            decreases rs - dr,
        {
            let tc = c + dc;
            let tr = r + dr;
            grow_to(occupied, cols, tr, Ghost(taken));
            if tc >= cols || occupied[tr][tc] {
                proof {
                    assert(!cell_free(taken, cols as int, c + dc, r + dr));
                }
                return false;
            }
            proof {
                assert(cell_free(taken, cols as int, tc as int, tr as int));
            }
            dr = dr + 1;
        }
        proof {
            assert forall|a: int, b: int|
                0 <= a < dc + 1 && 0 <= b < rs implies #[trigger] cell_free(
                taken,
                cols as int,
                c + a,
                r + b,
            ) by {
                if a == dc {
                    assert(cell_free(taken, cols as int, c + dc, r + b));
                }
            }
        }
        dc = dc + 1;
    }
    true
}

/// Takes the span cells that lie inside the grid, adding rows as needed.
fn mark_span(
    occupied: &mut Vec<Vec<bool>>,
    cols: usize,
    c: usize,
    r: usize,
    cs: usize,
    rs: usize,
    Ghost(taken): Ghost<Set<(int, int)>>,
)
    requires
        grid_matches(old(occupied)@, cols as int, taken),
        cs >= 1 && rs >= 1 ==> c + cs <= usize::MAX && r + rs <= usize::MAX,
    ensures
        grid_matches(final(occupied)@, cols as int, take(taken, cols as int, c as int, r as int, cs as int, rs as int)),
        final(occupied)@.len() == (if cs >= 1 && rs >= 1 {
            max_int(old(occupied)@.len() as int, r + rs)
        } else {
            old(occupied)@.len() as int
        }),
{
    let ghost len0 = occupied@.len() as int;
    let ghost mut t = taken;
    let mut dc: usize = 0;
    while dc < cs
        invariant
            dc <= cs,
            grid_matches(occupied@, cols as int, t),
            cs >= 1 && rs >= 1 ==> c + cs <= usize::MAX && r + rs <= usize::MAX,
            t == take(taken, cols as int, c as int, r as int, dc as int, rs as int),
            occupied@.len() == (if dc >= 1 && rs >= 1 {
                max_int(len0, r + rs)
            } else {
                len0
            }),
        decreases cs - dc,
    {
        let mut dr: usize = 0;
        while dr < rs
            invariant
                dc < cs,
                dr <= rs,
                grid_matches(occupied@, cols as int, t),
                rs >= 1 ==> c + cs <= usize::MAX && r + rs <= usize::MAX,
                t == take(taken, cols as int, c as int, r as int, dc as int, rs as int).union(
                    Set::new(|p: (int, int)| p.0 == c + dc && p.0 < cols && r <= p.1 < r + dr),
                ),
                occupied@.len() == (if dc >= 1 && rs >= 1 {
                    max_int(len0, r + rs)
                } else if dr >= 1 {
                    max_int(len0, r + dr)
                } else {
                    len0
                }),
            decreases rs - dr,
        {
            let tc = c + dc;
            let tr = r + dr;
            grow_to(occupied, cols, tr, Ghost(t));
            if tc < cols {
                let ghost before = occupied@;
                occupied[tr].set(tc, true);
                proof {
                    let t2 = t.insert((tc as int, tr as int));
                    assert forall|a: int, q: int|
                        0 <= q < occupied@.len() && 0 <= a < cols implies (#[trigger] occupied@[q]@[a])
                        == t2.contains((a, q)) by {
                        if q != tr {
                            assert(occupied@[q] == before[q]);
                        }
                    }
                    t = t2;
                }
            }
            proof {
                assert(t =~= take(taken, cols as int, c as int, r as int, dc as int, rs as int).union(
                    Set::new(|p: (int, int)| p.0 == c + dc && p.0 < cols && r <= p.1 < r + dr + 1),
                ));
            }
            dr = dr + 1;
        }
        proof {
            assert(t =~= take(taken, cols as int, c as int, r as int, dc + 1, rs as int));
        }
        dc = dc + 1;
    }
}

/// Below any cell where an item fits lies the first such cell at or after
/// the cursor.
proof fn lemma_least_fit(g: GridState, cols: int, cs: int, rs: int, qc: int, qr: int)
    requires
        0 <= qc < cols,
        !before(qc, qr, g.col, g.row),
        fits(g.taken, cols, qc, qr, cs, rs),
    ensures
        exists|pc: int, pr: int|
            #[trigger] is_flow_slot(g, cols, cs, rs, pc, pr) && !before(qc, qr, pc, pr),
    decreases qr - g.row, qc,
{
    if exists|c2: int, r2: int|
        0 <= c2 < cols && !before(c2, r2, g.col, g.row) && before(c2, r2, qc, qr) && #[trigger] fits(
            g.taken,
            cols,
            c2,
            r2,
            cs,
            rs,
        ) {
        let (c2, r2) = choose|c2: int, r2: int|
            0 <= c2 < cols && !before(c2, r2, g.col, g.row) && before(c2, r2, qc, qr) && #[trigger] fits(
                g.taken,
                cols,
                c2,
                r2,
                cs,
                rs,
            );
        lemma_least_fit(g, cols, cs, rs, c2, r2);
        let (pc, pr) = choose|pc: int, pr: int|
            #[trigger] is_flow_slot(g, cols, cs, rs, pc, pr) && !before(c2, r2, pc, pr);
        assert(is_flow_slot(g, cols, cs, rs, pc, pr) && !before(qc, qr, pc, pr));
    } else {
        assert(is_flow_slot(g, cols, cs, rs, qc, qr));
    }
}

/// Two cells that are both the first fit are the same cell.
proof fn lemma_flow_slot_unique(g: GridState, cols: int, cs: int, rs: int, a: (int, int), b: (int, int))
    requires
        is_flow_slot(g, cols, cs, rs, a.0, a.1),
        is_flow_slot(g, cols, cs, rs, b.0, b.1),
    ensures
        a == b,
{
    if before(a.0, a.1, b.0, b.1) {
        assert(!fits(g.taken, cols, a.0, a.1, cs, rs));
    } else if before(b.0, b.1, a.0, a.1) {
        assert(!fits(g.taken, cols, b.0, b.1, cs, rs));
    }
}

/// A placement state the grid can be in: the cursor inside the columns and
/// at most one row past the rows reached, and every taken cell inside.
pub open spec fn state_ok(g: GridState, cols: int) -> bool {
    &&& 0 <= g.col < cols
    &&& 0 <= g.row <= g.rows
    &&& forall|p: (int, int)| #[trigger] g.taken.contains(p) ==> 0 <= p.0 < cols && 0 <= p.1 < g.rows
}

/// A flowing item always has a first fit: at the latest, the first column of
/// the first row past both the rows reached and the cursor.
proof fn lemma_flow_slot_exists(g: GridState, cols: int, cs: int, rs: int)
    requires
        state_ok(g, cols),
        cs <= cols || rs == 0,
    ensures
        is_flow_slot(g, cols, cs, rs, flow_slot(g, cols, cs, rs).0, flow_slot(g, cols, cs, rs).1),
        flow_slot(g, cols, cs, rs).1 <= max_int(g.rows, g.row + 1),
{
    let b = max_int(g.rows, g.row + 1);
    assert forall|dc: int, dr: int| 0 <= dc < cs && 0 <= dr < rs implies #[trigger] cell_free(
        g.taken,
        cols,
        0 + dc,
        b + dr,
    ) by {
        if g.taken.contains((0 + dc, b + dr)) {
            assert(0 + dc < cols);
        }
    }
    assert(fits(g.taken, cols, 0, b, cs, rs));
    lemma_least_fit(g, cols, cs, rs, 0, b);
    let (pc, pr) = choose|pc: int, pr: int|
        #[trigger] is_flow_slot(g, cols, cs, rs, pc, pr) && !before(0, b, pc, pr);
    let f = flow_slot(g, cols, cs, rs);
    lemma_flow_slot_unique(g, cols, cs, rs, f, (pc, pr));
}

/// Placing more items never reduces the rows reached.
proof fn lemma_rows_grow(g: GridState, cols: int, items: Seq<GridItem>, k: int)
    requires
        0 <= k <= items.len(),
    ensures
        place_all(g, cols, items.take(k)).0.rows <= place_all(g, cols, items).0.rows,
    decreases items.len(),
{
    if k == items.len() {
        assert(items.take(k) =~= items);
    } else {
        lemma_rows_grow(g, cols, items.drop_last(), k);
        assert(items.drop_last().take(k) =~= items.take(k));
    }
}

/// Places the children of a grid with `cols` columns; returns the cell of
/// each child, in order, and the number of rows the grid reaches. A grid
/// without columns places nothing.
pub fn grid_auto_place(cols: usize, items: &Vec<GridItem>) -> (out: (Vec<(usize, usize)>, usize))
    requires
        cols <= usize::MAX / 2,
        items@.len() + cols <= usize::MAX,
        items_ok(cols as int, items@),
        cols > 0 ==> place_all(start(items@.len() as int, cols as int), cols as int, items@).0.rows
            <= usize::MAX,
    ensures
        cols == 0 ==> out.0@.len() == 0 && out.1 == 0,
        cols > 0 ==> ({
            let (g, ps) = place_all(start(items@.len() as int, cols as int), cols as int, items@);
            positions_view(out.0@) == ps && out.1 == g.rows
        }),
{
    if cols == 0 {
        return (Vec::new(), 0);
    }
    let n = items.len();
    let mut estimated = (n + cols - 1) / cols;
    if estimated < 1 {
        estimated = 1;
    }
    let ghost ci = cols as int;
    let ghost g0 = start(n as int, ci);
    let mut occupied: Vec<Vec<bool>> = Vec::new();
    grow_to(&mut occupied, cols, estimated - 1, Ghost(Set::empty()));
    let mut positions: Vec<(usize, usize)> = Vec::new();
    let mut col: usize = 0;
    let mut row: usize = 0;
    let ghost mut g = g0;
    assert(items@.take(0) =~= Seq::<GridItem>::empty());
    assert(positions_view(positions@) =~= Seq::<(int, int)>::empty());
    let mut i: usize = 0;
    while i < n
        invariant
            i <= n,
            n == items@.len(),
            ci == cols,
            0 < cols <= usize::MAX / 2,
            items_ok(ci, items@),
            g0 == start(n as int, ci),
            place_all(g0, ci, items@).0.rows <= usize::MAX,
            (g, positions_view(positions@)) == place_all(g0, ci, items@.take(i as int)),
            grid_matches(occupied@, ci, g.taken),
            occupied@.len() == g.rows,
            state_ok(g, ci),
            col == g.col,
            row == g.row,
        decreases n - i,
    {
        let it = items[i];
        let cs = it.col_span;
        let rs = it.row_span;
        let ghost step = place_one(g, ci, it);
        proof {
            lemma_rows_grow(g0, ci, items@, i + 1);
            assert(items@.take(i + 1).drop_last() =~= items@.take(i as int));
            assert(items@.take(i + 1).last() == it);
        }
        let ghost before_pos = positions@;
        if it.col.is_some() && it.row.is_some() {
            let c = it.col.unwrap();
            let r = it.row.unwrap();
            mark_span(&mut occupied, cols, c, r, cs, rs, Ghost(g.taken));
            positions.push((c, r));
        } else {
            proof {
                lemma_flow_slot_exists(g, ci, cs as int, rs as int);
            }
            let ghost target = flow_slot(g, ci, cs as int, rs as int);
            loop
                invariant
                    0 < cols <= usize::MAX / 2,
                    ci == cols,
                    cs as int <= ci || (rs == 0 && cs <= usize::MAX / 2),
                    state_ok(g, ci),
                    grid_matches(occupied@, ci, g.taken),
                    g.rows <= occupied@.len(),
                    occupied@.len() <= rows_reached(g.rows, row as int, cs as int, rs as int, true),
                    0 <= col < cols,
                    !before(col as int, row as int, g.col, g.row),
                    !before(target.0, target.1, col as int, row as int),
                    forall|c2: int, r2: int|
                        0 <= c2 < ci && !before(c2, r2, g.col, g.row) && before(
                            c2,
                            r2,
                            col as int,
                            row as int,
                        ) ==> !#[trigger] fits(g.taken, ci, c2, r2, cs as int, rs as int),
                    is_flow_slot(g, ci, cs as int, rs as int, target.0, target.1),
                    rows_reached(g.rows, target.1, cs as int, rs as int, true) <= usize::MAX,
                ensures
                    state_ok(g, ci),
                    grid_matches(occupied@, ci, g.taken),
                    col == target.0,
                    row == target.1,
                    occupied@.len() == rows_reached(g.rows, row as int, cs as int, rs as int, true),
                decreases target.1 - row, cols - col,
            {
                grow_to(&mut occupied, cols, row, Ghost(g.taken));
                if !occupied[row][col] {
                    if check_span(&mut occupied, cols, col, row, cs, rs, Ghost(g.taken)) {
                        proof {
                            assert(fits(g.taken, ci, col as int, row as int, cs as int, rs as int));
                            assert(is_flow_slot(g, ci, cs as int, rs as int, col as int, row as int));
                            lemma_flow_slot_unique(
                                g,
                                ci,
                                cs as int,
                                rs as int,
                                (col as int, row as int),
                                target,
                            );
                        }
                        break;
                    }
                }
                proof {
                    assert(!fits(g.taken, ci, col as int, row as int, cs as int, rs as int));
                    assert((col as int, row as int) != target);
                }
                col = col + 1;
                if col >= cols {
                    col = 0;
                    row = row + 1;
                }
            }
            mark_span(&mut occupied, cols, col, row, cs, rs, Ghost(g.taken));
            positions.push((col, row));
            let next = col + cs;
            if next >= cols {
                col = 0;
                row = row + 1;
            } else {
                col = next;
            }
        }
        proof {
            g = step.0;
            assert(positions_view(positions@) =~= positions_view(before_pos).push(step.1));
        }
        i = i + 1;
    }
    assert(items@.take(n as int) =~= items@);
    let rows = occupied.len();
    (positions, rows)
}

/// Placing an item keeps the state one the grid can be in.
proof fn lemma_place_one_ok(g: GridState, cols: int, it: GridItem)
    requires
        state_ok(g, cols),
        is_explicit(it) ==> it.col->Some_0 + it.col_span <= usize::MAX,
        !is_explicit(it) ==> it.col_span <= cols || it.row_span == 0,
    ensures
        state_ok(place_one(g, cols, it).0, cols),
{
    let cs = it.col_span as int;
    let rs = it.row_span as int;
    let g2 = place_one(g, cols, it).0;
    if !is_explicit(it) {
        lemma_flow_slot_exists(g, cols, cs, rs);
    }
    assert forall|p: (int, int)| #[trigger] g2.taken.contains(p) implies 0 <= p.0 < cols && 0 <= p.1
        < g2.rows by {
        if !g.taken.contains(p) {
            assert(cs >= 1 && rs >= 1);
        }
    }
}

proof fn lemma_place_all_ok(g: GridState, cols: int, items: Seq<GridItem>)
    requires
        state_ok(g, cols),
        items_ok(cols, items),
    ensures
        state_ok(place_all(g, cols, items).0, cols),
    decreases items.len(),
{
    if items.len() > 0 {
        let front = items.drop_last();
        assert forall|i: int| 0 <= i < front.len() implies #[trigger] front[i] == items[i] by {}
        assert(items_ok(cols, front)) by {
            assert forall|i: int| 0 <= i < front.len() implies {
                let it = #[trigger] front[i];
                if is_explicit(it) {
                    it.col->Some_0 + it.col_span <= usize::MAX && it.row->Some_0 + it.row_span
                        <= usize::MAX
                } else {
                    it.col_span <= cols || (it.row_span == 0 && it.col_span <= usize::MAX / 2)
                }
            } by {
                assert(front[i] == items[i]);
            }
        }
        lemma_place_all_ok(g, cols, front);
        let it = items[items.len() - 1];
        lemma_place_one_ok(place_all(g, cols, front).0, cols, it);
    }
}

/// Every flowing child lands where its whole span is inside the grid and on
/// cells no earlier child took, at or after the flow cursor, and no earlier
/// cell from the cursor on would have held it.
pub proof fn lemma_flowing_children_land_on_free_cells(cols: int, items: Seq<GridItem>, i: int)
    requires
        cols > 0,
        items_ok(cols, items),
        0 <= i < items.len(),
        !is_explicit(items[i]),
    ensures
        ({
            let before = place_all(start(items.len() as int, cols), cols, items.take(i)).0;
            let p = place_all(start(items.len() as int, cols), cols, items.take(i + 1)).1[i];
            is_flow_slot(before, cols, items[i].col_span as int, items[i].row_span as int, p.0, p.1)
        }),
{
    let g0 = start(items.len() as int, cols);
    let front = items.take(i);
    assert(items_ok(cols, front)) by {
        assert forall|k: int| 0 <= k < front.len() implies {
            let it = #[trigger] front[k];
            if is_explicit(it) {
                it.col->Some_0 + it.col_span <= usize::MAX && it.row->Some_0 + it.row_span
                    <= usize::MAX
            } else {
                it.col_span <= cols || (it.row_span == 0 && it.col_span <= usize::MAX / 2)
            }
        } by {
            assert(front[k] == items[k]);
        }
    }
    assert(g0.rows >= 1);
    lemma_place_all_ok(g0, cols, front);
    let before = place_all(g0, cols, front).0;
    let it = items[i];
    assert(items.take(i + 1).drop_last() =~= front);
    assert(items.take(i + 1).last() == it);
    lemma_flow_slot_exists(before, cols, it.col_span as int, it.row_span as int);
    lemma_place_all_len(g0, cols, front);
}

proof fn lemma_place_all_len(g: GridState, cols: int, items: Seq<GridItem>)
    ensures
        place_all(g, cols, items).1.len() == items.len(),
    decreases items.len(),
{
    if items.len() > 0 {
        lemma_place_all_len(g, cols, items.drop_last());
    }
}

} // verus!

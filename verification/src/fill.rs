use vstd::prelude::*;
use crate::grid::{Grid, GridError, Tile, dims, tiles_view, clone_tiles, set_cell, tile_at};

verus! {

// ---------------------------------------------------------------------------
// The mathematical model of one bounded flood-fill run.
//
// A run seeds the origin, then works in rounds. A round scans every cell of
// the grid as it stood when the round began (the snapshot), in row-major
// order; each cell that is `Filled` in the snapshot examines its four
// neighbors against the live, mutating array, converts the `Empty` ones to
// `Filled` at one unit of budget each, and then charges one flat unit for
// the visit itself, whether or not anything converted. The budget is checked
// only between rounds, so the round in progress always completes, and the
// budget may end below zero. A round that changes nothing (possible only
// when no tile is `Filled`) is a fixed point, so the fill ends there.
// ---------------------------------------------------------------------------

/// One tile array cell changed to `v`; everything else unchanged.
pub open spec fn set_tile(t: Seq<Seq<Tile>>, y: int, x: int, v: Tile) -> Seq<Seq<Tile>> {
    t.update(y, t[y].update(x, v))
}

/// One neighbor examination: the cell at column `x` of row `y` converts to
/// `Filled` and costs one unit of budget iff it lies in bounds and is
/// currently `Empty`.
pub open spec fn convert_step(st: (Seq<Seq<Tile>>, int), y: int, x: int, w: int, h: int) -> (
    Seq<Seq<Tile>>,
    int,
) {
    if 0 <= y && y < h && 0 <= x && x < w && st.0[y][x] == Tile::Empty {
        (set_tile(st.0, y, x, Tile::Filled), st.1 - 1)
    } else {
        st
    }
}

/// The visit of one source cell: if the cell is `Filled` in the round's
/// snapshot, its four neighbors are examined in the fixed order left, right,
/// up, down, and one flat unit of budget is then charged for the visit.
pub open spec fn visit_cell(
    snap: Seq<Seq<Tile>>,
    st: (Seq<Seq<Tile>>, int),
    y: int,
    x: int,
    w: int,
    h: int,
) -> (Seq<Seq<Tile>>, int) {
    if snap[y][x] == Tile::Filled {
        let st1 = convert_step(st, y, x - 1, w, h);
        let st2 = convert_step(st1, y, x + 1, w, h);
        let st3 = convert_step(st2, y - 1, x, w, h);
        let st4 = convert_step(st3, y + 1, x, w, h);
        (st4.0, st4.1 - 1)
    } else {
        st
    }
}

/// The state after visiting the first `x` cells of row `y`.
pub open spec fn scan_row(
    snap: Seq<Seq<Tile>>,
    st: (Seq<Seq<Tile>>, int),
    w: int,
    h: int,
    y: int,
    x: int,
) -> (Seq<Seq<Tile>>, int)
    decreases x,
{
    if x <= 0 {
        st
    } else {
        visit_cell(snap, scan_row(snap, st, w, h, y, x - 1), y, x - 1, w, h)
    }
}

/// The state after visiting every cell of the first `y` rows.
pub open spec fn scan_rows(
    snap: Seq<Seq<Tile>>,
    st: (Seq<Seq<Tile>>, int),
    w: int,
    h: int,
    y: int,
) -> (Seq<Seq<Tile>>, int)
    decreases y,
{
    if y <= 0 {
        st
    } else {
        scan_row(snap, scan_rows(snap, st, w, h, y - 1), w, h, y - 1, w)
    }
}

/// One round: every cell of the grid as it stood at the start of the round
/// is scanned, in row-major order, against the live array.
pub open spec fn fill_round(t: Seq<Seq<Tile>>, budget: int, w: int, h: int) -> (
    Seq<Seq<Tile>>,
    int,
) {
    scan_rows(t, (t, budget), w, h, h)
}

/// The termination measure for the rounds: the budget, floored at zero.
pub open spec fn round_measure(b: int) -> int {
    if b > 0 {
        b
    } else {
        0
    }
}

/// The tie-breaking measure for the executable round loop: a stalled fill
/// takes one final exit step.
pub open spec fn stall_measure(stalled: bool) -> int {
    if stalled {
        0
    } else {
        1
    }
}

/// All rounds of a run. Rounds repeat while budget remains; a round that
/// consumed no budget changed nothing and is a fixed point, so the fill
/// ends there with the array as it stands.
pub open spec fn fill_rounds(t: Seq<Seq<Tile>>, budget: int, w: int, h: int) -> (
    Seq<Seq<Tile>>,
    int,
)
    decreases round_measure(budget),
{
    if budget <= 0 {
        (t, budget)
    } else {
        let next = fill_round(t, budget, w, h);
        if next.1 < budget {
            fill_rounds(next.0, next.1, w, h)
        } else {
            next
        }
    }
}

/// The seed: an `Empty` origin converts to `Filled` before any round, free
/// of charge; any other origin tile is left as it is.
pub open spec fn seeded(t: Seq<Seq<Tile>>, ox: int, oy: int) -> Seq<Seq<Tile>> {
    if t[oy][ox] == Tile::Empty {
        set_tile(t, oy, ox, Tile::Filled)
    } else {
        t
    }
}

/// The full run: the tile array and the remaining budget after the seed and
/// all rounds.
pub open spec fn fill_outcome(
    t: Seq<Seq<Tile>>,
    ox: int,
    oy: int,
    steps: int,
    w: int,
    h: int,
) -> (Seq<Seq<Tile>>, int) {
    fill_rounds(seeded(t, ox, oy), steps, w, h)
}

/// The tile array that `flood_fill` returns on an in-bounds origin.
pub open spec fn spec_flood_fill(
    t: Seq<Seq<Tile>>,
    ox: int,
    oy: int,
    steps: int,
    w: int,
    h: int,
) -> Seq<Seq<Tile>> {
    fill_outcome(t, ox, oy, steps, w, h).0
}

// ---------------------------------------------------------------------------
// How a tile array may change under a run.
// ---------------------------------------------------------------------------

/// The one-way evolution of a tile array: dimensions are kept, and each cell
/// either keeps its tile or converts from `Empty` to `Filled`.
pub open spec fn evolves(a: Seq<Seq<Tile>>, b: Seq<Seq<Tile>>) -> bool {
    &&& b.len() == a.len()
    &&& forall|y: int| 0 <= y < a.len() ==> (#[trigger] b[y]).len() == a[y].len()
    &&& forall|y: int, x: int|
        0 <= y < a.len() && 0 <= x < a[y].len() ==> (#[trigger] b[y][x]) == a[y][x] || (a[y][x]
            == Tile::Empty && b[y][x] == Tile::Filled)
}

proof fn lemma_evolves_trans(a: Seq<Seq<Tile>>, b: Seq<Seq<Tile>>, c: Seq<Seq<Tile>>)
    requires
        evolves(a, b),
        evolves(b, c),
    ensures
        evolves(a, c),
{
    assert forall|y: int, x: int| 0 <= y < a.len() && 0 <= x < a[y].len() implies (#[trigger] c[y][x])
        == a[y][x] || (a[y][x] == Tile::Empty && c[y][x] == Tile::Filled) by {
        assert(b[y].len() == a[y].len());
        assert(b[y][x] == a[y][x] || (a[y][x] == Tile::Empty && b[y][x] == Tile::Filled));
        assert(c[y][x] == b[y][x] || (b[y][x] == Tile::Empty && c[y][x] == Tile::Filled));
    }
}

proof fn lemma_convert_step(st: (Seq<Seq<Tile>>, int), y: int, x: int, w: int, h: int)
    requires
        dims(st.0, w, h),
    ensures
        dims(convert_step(st, y, x, w, h).0, w, h),
        evolves(st.0, convert_step(st, y, x, w, h).0),
        st.1 - 1 <= convert_step(st, y, x, w, h).1 <= st.1,
        convert_step(st, y, x, w, h).1 == st.1 ==> convert_step(st, y, x, w, h) == st,
{
    let r = convert_step(st, y, x, w, h);
    if 0 <= y && y < h && 0 <= x && x < w && st.0[y][x] == Tile::Empty {
        assert forall|yy: int| 0 <= yy < h implies (#[trigger] r.0[yy]).len() == w by {
            if yy != y {
                assert(r.0[yy] == st.0[yy]);
            }
        }
        assert forall|yy: int, xx: int|
            0 <= yy < st.0.len() && 0 <= xx < st.0[yy].len() implies (#[trigger] r.0[yy][xx])
            == st.0[yy][xx] || (st.0[yy][xx] == Tile::Empty && r.0[yy][xx] == Tile::Filled) by {
            if yy == y {
                if xx != x {
                    assert(r.0[y][xx] == st.0[y][xx]);
                }
            } else {
                assert(r.0[yy] == st.0[yy]);
            }
        }
    }
}

proof fn lemma_visit_cell(
    snap: Seq<Seq<Tile>>,
    st: (Seq<Seq<Tile>>, int),
    y: int,
    x: int,
    w: int,
    h: int,
)
    requires
        dims(st.0, w, h),
    ensures
        dims(visit_cell(snap, st, y, x, w, h).0, w, h),
        evolves(st.0, visit_cell(snap, st, y, x, w, h).0),
        st.1 - 5 <= visit_cell(snap, st, y, x, w, h).1 <= st.1,
        visit_cell(snap, st, y, x, w, h).1 == st.1 ==> visit_cell(snap, st, y, x, w, h) == st,
{
    if snap[y][x] == Tile::Filled {
        let st1 = convert_step(st, y, x - 1, w, h);
        let st2 = convert_step(st1, y, x + 1, w, h);
        let st3 = convert_step(st2, y - 1, x, w, h);
        let st4 = convert_step(st3, y + 1, x, w, h);
        lemma_convert_step(st, y, x - 1, w, h);
        lemma_convert_step(st1, y, x + 1, w, h);
        lemma_convert_step(st2, y - 1, x, w, h);
        lemma_convert_step(st3, y + 1, x, w, h);
        lemma_evolves_trans(st.0, st1.0, st2.0);
        lemma_evolves_trans(st.0, st2.0, st3.0);
        lemma_evolves_trans(st.0, st3.0, st4.0);
    } else {
        assert(evolves(st.0, st.0));
    }
}

proof fn lemma_scan_row(
    snap: Seq<Seq<Tile>>,
    st: (Seq<Seq<Tile>>, int),
    w: int,
    h: int,
    y: int,
    x: int,
)
    requires
        dims(st.0, w, h),
        0 <= x,
    ensures
        dims(scan_row(snap, st, w, h, y, x).0, w, h),
        evolves(st.0, scan_row(snap, st, w, h, y, x).0),
        st.1 - 5 * x <= scan_row(snap, st, w, h, y, x).1 <= st.1,
        scan_row(snap, st, w, h, y, x).1 == st.1 ==> scan_row(snap, st, w, h, y, x) == st,
    decreases x,
{
    if x <= 0 {
        assert(evolves(st.0, st.0));
    } else {
        lemma_scan_row(snap, st, w, h, y, x - 1);
        let mid = scan_row(snap, st, w, h, y, x - 1);
        lemma_visit_cell(snap, mid, y, x - 1, w, h);
        lemma_evolves_trans(st.0, mid.0, scan_row(snap, st, w, h, y, x).0);
    }
}

proof fn lemma_scan_rows(
    snap: Seq<Seq<Tile>>,
    st: (Seq<Seq<Tile>>, int),
    w: int,
    h: int,
    y: int,
)
    requires
        dims(st.0, w, h),
        0 <= y,
        0 <= w,
    ensures
        dims(scan_rows(snap, st, w, h, y).0, w, h),
        evolves(st.0, scan_rows(snap, st, w, h, y).0),
        st.1 - 5 * w * y <= scan_rows(snap, st, w, h, y).1 <= st.1,
        scan_rows(snap, st, w, h, y).1 == st.1 ==> scan_rows(snap, st, w, h, y) == st,
    decreases y,
{
    if y <= 0 {
        assert(evolves(st.0, st.0));
    } else {
        lemma_scan_rows(snap, st, w, h, y - 1);
        let mid = scan_rows(snap, st, w, h, y - 1);
        lemma_scan_row(snap, mid, w, h, y - 1, w);
        lemma_evolves_trans(st.0, mid.0, scan_rows(snap, st, w, h, y).0);
        assert(5 * w * (y - 1) + 5 * w == 5 * w * y) by (nonlinear_arith);
    }
}

proof fn lemma_fill_rounds(t: Seq<Seq<Tile>>, b: int, w: int, h: int)
    requires
        dims(t, w, h),
        w >= 1,
        h >= 1,
    ensures
        dims(fill_rounds(t, b, w, h).0, w, h),
        evolves(t, fill_rounds(t, b, w, h).0),
        fill_rounds(t, b, w, h).1 <= b,
        b <= 0 ==> fill_rounds(t, b, w, h) == (t, b),
        b > 0 ==> fill_rounds(t, b, w, h).1 >= 1 - 5 * w * h,
    decreases round_measure(b),
{
    if b <= 0 {
        assert(evolves(t, t));
    } else {
        lemma_scan_rows(t, (t, b), w, h, h);
        let next = fill_round(t, b, w, h);
        if next.1 < b {
            lemma_fill_rounds(next.0, next.1, w, h);
            lemma_evolves_trans(t, next.0, fill_rounds(t, b, w, h).0);
        }
    }
}

// ---------------------------------------------------------------------------
// Counting conversions, for the budget accounting law.
// ---------------------------------------------------------------------------

/// The number of positions among the first `x` of a row that are `Empty` in
/// `a` and `Filled` in `b`.
pub open spec fn row_conversions(a: Seq<Tile>, b: Seq<Tile>, x: int) -> int
    decreases x,
{
    if x <= 0 {
        0
    } else {
        row_conversions(a, b, x - 1) + if a[x - 1] == Tile::Empty && b[x - 1] == Tile::Filled {
            1int
        } else {
            0int
        }
    }
}

/// The number of cells in the first `y` rows (each `w` wide) that are
/// `Empty` in `a` and `Filled` in `b`.
pub open spec fn conversions_up_to(a: Seq<Seq<Tile>>, b: Seq<Seq<Tile>>, w: int, y: int) -> int
    decreases y,
{
    if y <= 0 {
        0
    } else {
        conversions_up_to(a, b, w, y - 1) + row_conversions(a[y - 1], b[y - 1], w)
    }
}

/// The number of `Empty` to `Filled` conversions between two tile arrays of
/// `h` rows and `w` columns.
pub open spec fn conversions(a: Seq<Seq<Tile>>, b: Seq<Seq<Tile>>, w: int, h: int) -> int {
    conversions_up_to(a, b, w, h)
}

proof fn lemma_row_conv_zero(a: Seq<Tile>, b: Seq<Tile>, x: int)
    requires
        forall|i: int| 0 <= i < x ==> (#[trigger] b[i]) == a[i],
    ensures
        row_conversions(a, b, x) == 0,
    decreases x,
{
    if x > 0 {
        lemma_row_conv_zero(a, b, x - 1);
    }
}

proof fn lemma_row_conv_single(a: Seq<Tile>, x: int, upto: int)
    requires
        0 <= x < upto,
        upto <= a.len(),
        a[x] == Tile::Empty,
    ensures
        row_conversions(a, a.update(x, Tile::Filled), upto) == 1,
    decreases upto,
{
    let b = a.update(x, Tile::Filled);
    if upto == x + 1 {
        lemma_row_conv_zero(a, b, x);
    } else {
        lemma_row_conv_single(a, x, upto - 1);
        assert(b[upto - 1] == a[upto - 1]);
    }
}

proof fn lemma_row_conv_subadd(a: Seq<Tile>, b: Seq<Tile>, c: Seq<Tile>, x: int)
    requires
        forall|i: int|
            0 <= i < x ==> (#[trigger] b[i]) == a[i] || (a[i] == Tile::Empty && b[i]
                == Tile::Filled),
    ensures
        row_conversions(a, c, x) <= row_conversions(a, b, x) + row_conversions(b, c, x),
    decreases x,
{
    if x > 0 {
        lemma_row_conv_subadd(a, b, c, x - 1);
    }
}

proof fn lemma_conv_zero(a: Seq<Seq<Tile>>, b: Seq<Seq<Tile>>, w: int, y: int)
    requires
        forall|i: int| 0 <= i < y ==> (#[trigger] b[i]) == a[i],
    ensures
        conversions_up_to(a, b, w, y) == 0,
    decreases y,
{
    if y > 0 {
        lemma_conv_zero(a, b, w, y - 1);
        lemma_row_conv_zero(a[y - 1], b[y - 1], w);
    }
}

proof fn lemma_conv_subadd(
    a: Seq<Seq<Tile>>,
    b: Seq<Seq<Tile>>,
    c: Seq<Seq<Tile>>,
    w: int,
    h: int,
    y: int,
)
    requires
        dims(a, w, h),
        evolves(a, b),
        0 <= y <= h,
    ensures
        conversions_up_to(a, c, w, y) <= conversions_up_to(a, b, w, y) + conversions_up_to(
            b,
            c,
            w,
            y,
        ),
    decreases y,
{
    if y > 0 {
        lemma_conv_subadd(a, b, c, w, h, y - 1);
        assert forall|i: int| 0 <= i < w implies (#[trigger] b[y - 1][i]) == a[y - 1][i] || (a[y
            - 1][i] == Tile::Empty && b[y - 1][i] == Tile::Filled) by {
            assert(0 <= y - 1 < a.len() && 0 <= i < a[y - 1].len());
        }
        lemma_row_conv_subadd(a[y - 1], b[y - 1], c[y - 1], w);
    }
}

proof fn lemma_conv_single(a: Seq<Seq<Tile>>, y: int, x: int, w: int, h: int)
    requires
        dims(a, w, h),
        0 <= y < h,
        0 <= x < w,
        a[y][x] == Tile::Empty,
    ensures
        conversions(a, set_tile(a, y, x, Tile::Filled), w, h) == 1,
{
    let b = set_tile(a, y, x, Tile::Filled);
    assert(b[y] == a[y].update(x, Tile::Filled));
    lemma_row_conv_single(a[y], x, w);
    lemma_conv_onehot(a, b, w, h, y);
}

proof fn lemma_conv_onehot(a: Seq<Seq<Tile>>, b: Seq<Seq<Tile>>, w: int, ycount: int, y: int)
    requires
        0 <= y,
        forall|i: int| 0 <= i < ycount && i != y ==> (#[trigger] b[i]) == a[i],
        y < ycount ==> row_conversions(a[y], b[y], w) == 1,
    ensures
        conversions_up_to(a, b, w, ycount) == if y < ycount {
            1int
        } else {
            0int
        },
    decreases ycount,
{
    if ycount > 0 {
        lemma_conv_onehot(a, b, w, ycount - 1, y);
        if ycount - 1 != y {
            lemma_row_conv_zero(a[ycount - 1], b[ycount - 1], w);
        }
    }
}

proof fn lemma_convert_conv(st: (Seq<Seq<Tile>>, int), y: int, x: int, w: int, h: int)
    requires
        dims(st.0, w, h),
    ensures
        conversions(st.0, convert_step(st, y, x, w, h).0, w, h) == st.1 - convert_step(
            st,
            y,
            x,
            w,
            h,
        ).1,
{
    if 0 <= y && y < h && 0 <= x && x < w && st.0[y][x] == Tile::Empty {
        lemma_conv_single(st.0, y, x, w, h);
    } else {
        lemma_conv_zero(st.0, st.0, w, h);
    }
}

proof fn lemma_visit_conv(
    snap: Seq<Seq<Tile>>,
    st: (Seq<Seq<Tile>>, int),
    y: int,
    x: int,
    w: int,
    h: int,
)
    requires
        dims(st.0, w, h),
    ensures
        conversions(st.0, visit_cell(snap, st, y, x, w, h).0, w, h) <= st.1 - visit_cell(
            snap,
            st,
            y,
            x,
            w,
            h,
        ).1,
{
    if snap[y][x] == Tile::Filled {
        let st1 = convert_step(st, y, x - 1, w, h);
        let st2 = convert_step(st1, y, x + 1, w, h);
        let st3 = convert_step(st2, y - 1, x, w, h);
        let st4 = convert_step(st3, y + 1, x, w, h);
        lemma_convert_step(st, y, x - 1, w, h);
        lemma_convert_step(st1, y, x + 1, w, h);
        lemma_convert_step(st2, y - 1, x, w, h);
        lemma_convert_step(st3, y + 1, x, w, h);
        lemma_convert_conv(st, y, x - 1, w, h);
        lemma_convert_conv(st1, y, x + 1, w, h);
        lemma_convert_conv(st2, y - 1, x, w, h);
        lemma_convert_conv(st3, y + 1, x, w, h);
        lemma_conv_subadd(st.0, st1.0, st2.0, w, h, h);
        lemma_evolves_trans(st.0, st1.0, st2.0);
        lemma_conv_subadd(st.0, st2.0, st3.0, w, h, h);
        lemma_evolves_trans(st.0, st2.0, st3.0);
        lemma_conv_subadd(st.0, st3.0, st4.0, w, h, h);
    } else {
        lemma_conv_zero(st.0, st.0, w, h);
    }
}

proof fn lemma_scan_row_conv(
    snap: Seq<Seq<Tile>>,
    st: (Seq<Seq<Tile>>, int),
    w: int,
    h: int,
    y: int,
    x: int,
)
    requires
        dims(st.0, w, h),
        0 <= x,
    ensures
        conversions(st.0, scan_row(snap, st, w, h, y, x).0, w, h) <= st.1 - scan_row(
            snap,
            st,
            w,
            h,
            y,
            x,
        ).1,
    decreases x,
{
    if x <= 0 {
        lemma_conv_zero(st.0, st.0, w, h);
    } else {
        lemma_scan_row_conv(snap, st, w, h, y, x - 1);
        lemma_scan_row(snap, st, w, h, y, x - 1);
        let mid = scan_row(snap, st, w, h, y, x - 1);
        lemma_visit_conv(snap, mid, y, x - 1, w, h);
        lemma_conv_subadd(st.0, mid.0, scan_row(snap, st, w, h, y, x).0, w, h, h);
    }
}

proof fn lemma_scan_rows_conv(
    snap: Seq<Seq<Tile>>,
    st: (Seq<Seq<Tile>>, int),
    w: int,
    h: int,
    y: int,
)
    requires
        dims(st.0, w, h),
        0 <= y,
        0 <= w,
    ensures
        conversions(st.0, scan_rows(snap, st, w, h, y).0, w, h) <= st.1 - scan_rows(
            snap,
            st,
            w,
            h,
            y,
        ).1,
    decreases y,
{
    if y <= 0 {
        lemma_conv_zero(st.0, st.0, w, h);
    } else {
        lemma_scan_rows_conv(snap, st, w, h, y - 1);
        lemma_scan_rows(snap, st, w, h, y - 1);
        let mid = scan_rows(snap, st, w, h, y - 1);
        lemma_scan_row_conv(snap, mid, w, h, y - 1, w);
        lemma_conv_subadd(st.0, mid.0, scan_rows(snap, st, w, h, y).0, w, h, h);
    }
}

proof fn lemma_fill_rounds_conv(t: Seq<Seq<Tile>>, b: int, w: int, h: int)
    requires
        dims(t, w, h),
        w >= 1,
        h >= 1,
    ensures
        conversions(t, fill_rounds(t, b, w, h).0, w, h) <= b - fill_rounds(t, b, w, h).1,
    decreases round_measure(b),
{
    if b <= 0 {
        lemma_conv_zero(t, t, w, h);
    } else {
        lemma_scan_rows_conv(t, (t, b), w, h, h);
        lemma_scan_rows(t, (t, b), w, h, h);
        let next = fill_round(t, b, w, h);
        if next.1 < b {
            lemma_fill_rounds_conv(next.0, next.1, w, h);
            lemma_fill_rounds(next.0, next.1, w, h);
            lemma_conv_subadd(t, next.0, fill_rounds(t, b, w, h).0, w, h, h);
        }
    }
}

// ---------------------------------------------------------------------------
// Laws of the fill.
// ---------------------------------------------------------------------------

/// Law: budget accounting. Every `Empty` to `Filled` conversion after the
/// free seed costs one unit of budget, so the number of conversions a run
/// performs never exceeds the starting budget minus the final budget. The
/// final budget is checked only between rounds, so it can fall below zero —
/// but only within the last round, which charges at most five units per
/// cell; the conversions can therefore overshoot `steps` by at most
/// `5 * w * h - 1`. With no budget at all, nothing beyond the seed happens.
pub proof fn lemma_fill_budget_bound(
    t: Seq<Seq<Tile>>,
    ox: int,
    oy: int,
    steps: int,
    w: int,
    h: int,
)
    requires
        dims(t, w, h),
        w >= 1,
        h >= 1,
        0 <= ox < w,
        0 <= oy < h,
    ensures
        conversions(seeded(t, ox, oy), spec_flood_fill(t, ox, oy, steps, w, h), w, h) <= steps
            - fill_outcome(t, ox, oy, steps, w, h).1,
        steps > 0 ==> fill_outcome(t, ox, oy, steps, w, h).1 >= 1 - 5 * w * h,
        steps > 0 ==> conversions(seeded(t, ox, oy), spec_flood_fill(t, ox, oy, steps, w, h), w, h)
            <= steps + 5 * w * h - 1,
        steps <= 0 ==> spec_flood_fill(t, ox, oy, steps, w, h) == seeded(t, ox, oy),
        steps <= 0 ==> conversions(seeded(t, ox, oy), spec_flood_fill(t, ox, oy, steps, w, h), w, h)
            == 0,
{
    let s0 = seeded(t, ox, oy);
    lemma_seeded(t, ox, oy, w, h);
    lemma_fill_rounds_conv(s0, steps, w, h);
    lemma_fill_rounds(s0, steps, w, h);
    if steps <= 0 {
        lemma_conv_zero(s0, s0, w, h);
    }
}

/// Law: a run changes the grid only by one-way `Empty` to `Filled`
/// conversions; in particular the output dimensions equal the input
/// dimensions.
pub proof fn lemma_fill_evolves(t: Seq<Seq<Tile>>, ox: int, oy: int, steps: int, w: int, h: int)
    requires
        dims(t, w, h),
        w >= 1,
        h >= 1,
        0 <= ox < w,
        0 <= oy < h,
    ensures
        dims(spec_flood_fill(t, ox, oy, steps, w, h), w, h),
        evolves(t, spec_flood_fill(t, ox, oy, steps, w, h)),
{
    lemma_seeded(t, ox, oy, w, h);
    lemma_fill_rounds(seeded(t, ox, oy), steps, w, h);
    lemma_evolves_trans(t, seeded(t, ox, oy), spec_flood_fill(t, ox, oy, steps, w, h));
}

/// Law: `Wall` tiles are invariant under the fill — every tile that was
/// `Wall` before a run is `Wall` after it.
pub proof fn lemma_fill_preserves_walls(
    t: Seq<Seq<Tile>>,
    ox: int,
    oy: int,
    steps: int,
    w: int,
    h: int,
)
    requires
        dims(t, w, h),
        w >= 1,
        h >= 1,
        0 <= ox < w,
        0 <= oy < h,
    ensures
        forall|y: int, x: int|
            0 <= y < h && 0 <= x < w && t[y][x] == Tile::Wall ==> (#[trigger] spec_flood_fill(
                t,
                ox,
                oy,
                steps,
                w,
                h,
            )[y][x]) == Tile::Wall,
{
    lemma_fill_evolves(t, ox, oy, steps, w, h);
}

/// Law: the fill is monotone — a tile that is `Filled` before a run is
/// still `Filled` after it; no conversion is ever reverted.
pub proof fn lemma_fill_monotone(t: Seq<Seq<Tile>>, ox: int, oy: int, steps: int, w: int, h: int)
    requires
        dims(t, w, h),
        w >= 1,
        h >= 1,
        0 <= ox < w,
        0 <= oy < h,
    ensures
        forall|y: int, x: int|
            0 <= y < h && 0 <= x < w && t[y][x] == Tile::Filled ==> (#[trigger] spec_flood_fill(
                t,
                ox,
                oy,
                steps,
                w,
                h,
            )[y][x]) == Tile::Filled,
{
    lemma_fill_evolves(t, ox, oy, steps, w, h);
}

/// Law: with a zero budget and an `Empty` origin, a run converts exactly
/// the origin tile to `Filled` and touches nothing else.
pub proof fn lemma_fill_zero_steps(t: Seq<Seq<Tile>>, ox: int, oy: int, w: int, h: int)
    requires
        dims(t, w, h),
        w >= 1,
        h >= 1,
        0 <= ox < w,
        0 <= oy < h,
        t[oy][ox] == Tile::Empty,
    ensures
        spec_flood_fill(t, ox, oy, 0, w, h) == set_tile(t, oy, ox, Tile::Filled),
        spec_flood_fill(t, ox, oy, 0, w, h)[oy][ox] == Tile::Filled,
        forall|y: int, x: int|
            0 <= y < h && 0 <= x < w && !(y == oy && x == ox) ==> (#[trigger] spec_flood_fill(
                t,
                ox,
                oy,
                0,
                w,
                h,
            )[y][x]) == t[y][x],
{
    let r = spec_flood_fill(t, ox, oy, 0, w, h);
    assert(r == seeded(t, ox, oy));
    assert forall|y: int, x: int| 0 <= y < h && 0 <= x < w && !(y == oy && x == ox) implies (
    #[trigger] r[y][x]) == t[y][x] by {
        if y != oy {
            assert(r[y] == t[y]);
        }
    }
}

// ---------------------------------------------------------------------------
// The executable fill.
// ---------------------------------------------------------------------------

/// Runs the bounded flood fill: seeds the origin on a fresh copy of the
/// grid's tiles, then propagates `Filled` outward through `Empty` tiles in
/// budget-consuming rounds, and returns the resulting tile array. The grid
/// itself is never mutated. An origin outside the grid extents is rejected
/// with `OutOfBounds` before any work is done.
#[verifier::loop_isolation(false)]
pub fn flood_fill(grid: &Grid, origin_x: usize, origin_y: usize, steps: i32) -> (r: Result<
    Vec<Vec<Tile>>,
    GridError,
>)
    requires
        grid.wf(),
    ensures
        match r {
            Ok(tiles) => {
                &&& origin_x < grid.spec_width()
                &&& origin_y < grid.spec_height()
                &&& tiles_view(&tiles) == spec_flood_fill(
                    grid@,
                    origin_x as int,
                    origin_y as int,
                    steps as int,
                    grid.spec_width() as int,
                    grid.spec_height() as int,
                )
                &&& dims(tiles_view(&tiles), grid.spec_width() as int, grid.spec_height() as int)
            },
            Err(e) => {
                &&& e == GridError::OutOfBounds
                &&& (origin_x >= grid.spec_width() || origin_y >= grid.spec_height())
            },
        },
{
    let w = grid.width();
    let h = grid.height();
    let ghost wi = w as int;
    let ghost hi = h as int;
    if origin_x >= w || origin_y >= h {
        return Err(GridError::OutOfBounds);
    }
    let ghost t0 = grid@;
    let mut tiles = grid.snapshot_tiles();
    if tile_at(&tiles, origin_y, origin_x) == Tile::Empty {
        set_cell(&mut tiles, origin_y, origin_x, Tile::Filled);
    }
    let ghost s0 = seeded(t0, origin_x as int, origin_y as int);
    proof {
        lemma_seeded(t0, origin_x as int, origin_y as int, wi, hi);
        assert(tiles_view(&tiles) == s0);
    }
    let ghost b0 = steps as int;
    let mut bud: i128 = steps as i128;
    let mut stalled = false;
    while bud > 0 && !stalled
        invariant
            dims(tiles_view(&tiles), wi, hi),
            !stalled ==> fill_rounds(s0, b0, wi, hi) == fill_rounds(
                tiles_view(&tiles),
                bud as int,
                wi,
                hi,
            ),
            stalled ==> tiles_view(&tiles) == fill_rounds(s0, b0, wi, hi).0,
        decreases round_measure(bud as int), stall_measure(stalled),
    {
        let round_start: i128 = bud;
        let ghost rt = tiles_view(&tiles);
        let ghost rb = bud as int;
        let snap = clone_tiles(&tiles);
        let mut y: usize = 0;
        while y < h
            invariant
                y <= h,
                bud <= round_start,
                dims(tiles_view(&tiles), wi, hi),
                tiles_view(&tiles) == scan_rows(rt, (rt, rb), wi, hi, y as int).0,
                bud as int == scan_rows(rt, (rt, rb), wi, hi, y as int).1,
                bud as int >= rb - 5 * ((y as int) * wi),
            decreases h - y,
        {
            let ghost row_base = scan_rows(rt, (rt, rb), wi, hi, y as int);
            let mut x: usize = 0;
            while x < w
                invariant
                    x <= w,
                    y < h,
                    bud <= round_start,
                    dims(tiles_view(&tiles), wi, hi),
                    tiles_view(&tiles) == scan_row(rt, row_base, wi, hi, y as int, x as int).0,
                    bud as int == scan_row(rt, row_base, wi, hi, y as int, x as int).1,
                    bud as int >= rb - 5 * ((y as int) * wi + x as int),
                decreases w - x,
            {
                let ghost st_cell = (tiles_view(&tiles), bud as int);
                proof {
                    assert((y as int) * wi + x as int + 1 <= wi * hi) by (nonlinear_arith)
                        requires
                            0 <= (y as int) && (y as int) < hi,
                            0 <= (x as int) && (x as int) < wi,
                    ;
                    assert(bud as int >= 1 - 5 * (usize::MAX as int));
                }
                if tile_at(&snap, y, x) == Tile::Filled {
                    if x >= 1 {
                        if tile_at(&tiles, y, x - 1) == Tile::Empty {
                            set_cell(&mut tiles, y, x - 1, Tile::Filled);
                            bud = bud - 1;
                        }
                    }
                    let ghost st1 = convert_step(st_cell, y as int, x as int - 1, wi, hi);
                    proof {
                        assert(tiles_view(&tiles) == st1.0 && bud as int == st1.1);
                    }
                    if x + 1 < w {
                        if tile_at(&tiles, y, x + 1) == Tile::Empty {
                            set_cell(&mut tiles, y, x + 1, Tile::Filled);
                            bud = bud - 1;
                        }
                    }
                    let ghost st2 = convert_step(st1, y as int, x as int + 1, wi, hi);
                    proof {
                        assert(tiles_view(&tiles) == st2.0 && bud as int == st2.1);
                    }
                    if y >= 1 {
                        if tile_at(&tiles, y - 1, x) == Tile::Empty {
                            set_cell(&mut tiles, y - 1, x, Tile::Filled);
                            bud = bud - 1;
                        }
                    }
                    let ghost st3 = convert_step(st2, y as int - 1, x as int, wi, hi);
                    proof {
                        assert(tiles_view(&tiles) == st3.0 && bud as int == st3.1);
                    }
                    if y + 1 < h {
                        if tile_at(&tiles, y + 1, x) == Tile::Empty {
                            set_cell(&mut tiles, y + 1, x, Tile::Filled);
                            bud = bud - 1;
                        }
                    }
                    let ghost st4 = convert_step(st3, y as int + 1, x as int, wi, hi);
                    proof {
                        assert(tiles_view(&tiles) == st4.0 && bud as int == st4.1);
                    }
                    bud = bud - 1;
                }
                proof {
                    assert(tiles_view(&tiles) == visit_cell(rt, st_cell, y as int, x as int, wi, hi).0
                        && bud as int == visit_cell(rt, st_cell, y as int, x as int, wi, hi).1);
                    assert(scan_row(rt, row_base, wi, hi, y as int, x as int + 1) == visit_cell(
                        rt,
                        scan_row(rt, row_base, wi, hi, y as int, x as int),
                        y as int,
                        x as int,
                        wi,
                        hi,
                    ));
                    lemma_visit_cell(rt, st_cell, y as int, x as int, wi, hi);
                }
                x = x + 1;
            }
            proof {
                assert(scan_rows(rt, (rt, rb), wi, hi, y as int + 1) == scan_row(
                    rt,
                    scan_rows(rt, (rt, rb), wi, hi, y as int),
                    wi,
                    hi,
                    y as int,
                    wi,
                ));
                assert((y as int) * wi + wi == (y as int + 1) * wi) by (nonlinear_arith);
            }
            y = y + 1;
        }
        proof {
            assert(tiles_view(&tiles) == fill_round(rt, rb, wi, hi).0 && bud as int == fill_round(
                rt,
                rb,
                wi,
                hi,
            ).1);
            lemma_scan_rows(rt, (rt, rb), wi, hi, hi);
        }
        if bud == round_start {
            proof {
                assert(fill_round(rt, rb, wi, hi) == (rt, rb));
                assert(fill_rounds(rt, rb, wi, hi) == fill_round(rt, rb, wi, hi));
            }
            stalled = true;
        } else {
            proof {
                assert(fill_rounds(rt, rb, wi, hi) == fill_rounds(
                    tiles_view(&tiles),
                    bud as int,
                    wi,
                    hi,
                ));
            }
        }
    }
    proof {
        assert(tiles_view(&tiles) == spec_flood_fill(
            t0,
            origin_x as int,
            origin_y as int,
            steps as int,
            wi,
            hi,
        ));
        lemma_fill_evolves(t0, origin_x as int, origin_y as int, steps as int, wi, hi);
    }
    Ok(tiles)
}

proof fn lemma_seeded(t: Seq<Seq<Tile>>, ox: int, oy: int, w: int, h: int)
    requires
        dims(t, w, h),
        0 <= ox < w,
        0 <= oy < h,
    ensures
        dims(seeded(t, ox, oy), w, h),
        evolves(t, seeded(t, ox, oy)),
        seeded(t, ox, oy)[oy][ox] != Tile::Empty,
{
    if t[oy][ox] == Tile::Empty {
        lemma_convert_step((t, 0), oy, ox, w, h);
        assert(seeded(t, ox, oy) == convert_step((t, 0), oy, ox, w, h).0);
    } else {
        assert(evolves(t, t));
    }
}

} // verus!

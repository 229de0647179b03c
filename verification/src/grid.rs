//! Mathematical view of a board: positions, neighbourhoods and counts.
use vstd::prelude::*;

use crate::model::{CellState, MineCell};

verus! {

/// `(x, y)` names a square of `g`: `y` picks the row, `x` the column.
pub open spec fn in_grid(g: Seq<Seq<MineCell>>, x: int, y: int) -> bool {
    0 <= y < g.len() && 0 <= x < g[y].len()
}

/// `(a, b)` lies in the 3x3 block centred on `(x, y)` (the centre included).
pub open spec fn is_near(x: int, y: int, a: int, b: int) -> bool {
    -1 <= a - x <= 1 && -1 <= b - y <= 1
}

/// Every row of `g` has `w` squares and there are `h` rows.
pub open spec fn has_shape(g: Seq<Seq<MineCell>>, w: int, h: int) -> bool {
    &&& g.len() == h
    &&& forall|y: int| 0 <= y < h ==> #[trigger] g[y].len() == w
}

/// 1 when `(x, y)` is on the board and holds a mine, else 0.
pub open spec fn mine_at(g: Seq<Seq<MineCell>>, x: int, y: int) -> int {
    if in_grid(g, x, y) && g[y][x].is_mine {
        1
    } else {
        0
    }
}

/// The number of mines in the 3x3 block centred on `(x, y)`.
pub open spec fn mines_around(g: Seq<Seq<MineCell>>, x: int, y: int) -> int {
    mine_at(g, x - 1, y - 1) + mine_at(g, x, y - 1) + mine_at(g, x + 1, y - 1)
        + mine_at(g, x - 1, y) + mine_at(g, x, y) + mine_at(g, x + 1, y)
        + mine_at(g, x - 1, y + 1) + mine_at(g, x, y + 1) + mine_at(g, x + 1, y + 1)
}

/// 1 when `(x, y)` is on the board and is flagged, else 0.
pub open spec fn flag_at(g: Seq<Seq<MineCell>>, x: int, y: int) -> int {
    if in_grid(g, x, y) && g[y][x].state == CellState::Flagged {
        1
    } else {
        0
    }
}

/// The number of flags in the 3x3 block centred on `(x, y)`.
pub open spec fn flags_around(g: Seq<Seq<MineCell>>, x: int, y: int) -> int {
    flag_at(g, x - 1, y - 1) + flag_at(g, x, y - 1) + flag_at(g, x + 1, y - 1)
        + flag_at(g, x - 1, y) + flag_at(g, x, y) + flag_at(g, x + 1, y)
        + flag_at(g, x - 1, y + 1) + flag_at(g, x, y + 1) + flag_at(g, x + 1, y + 1)
}

/// Every safe square shows the number of mines around it.
pub open spec fn counts_consistent(g: Seq<Seq<MineCell>>) -> bool {
    forall|x: int, y: int|
        #![trigger g[y][x]]
        in_grid(g, x, y) && !g[y][x].is_mine ==> g[y][x].neighbor_mines == mines_around(g, x, y)
}

/// `g1` is `g0` with the number of every safe square rewritten to the mines
/// around it; the mines and what the squares show stay as they were.
pub open spec fn recounted(g0: Seq<Seq<MineCell>>, g1: Seq<Seq<MineCell>>) -> bool {
    &&& g1.len() == g0.len()
    &&& forall|y: int| 0 <= y < g0.len() ==> #[trigger] g1[y].len() == g0[y].len()
    &&& forall|x: int, y: int|
        #![trigger g1[y][x]]
        in_grid(g0, x, y) ==> {
            let c0 = g0[y][x];
            let c1 = g1[y][x];
            &&& c1.is_mine == c0.is_mine
            &&& c1.state == c0.state
            &&& c1.neighbor_mines == if c0.is_mine {
                c0.neighbor_mines as int
            } else {
                mines_around(g0, x, y)
            }
        }
}

/// Counting the mines a second time changes nothing: recounting a board
/// whose numbers were just recounted gives that same board back.
pub proof fn lemma_recount_settles(g0: Seq<Seq<MineCell>>, g1: Seq<Seq<MineCell>>, g2: Seq<Seq<MineCell>>)
    requires
        recounted(g0, g1),
        recounted(g1, g2),
    ensures
        g2 == g1,
{
    lemma_same_mines(g0, g1);
    assert forall|y: int| 0 <= y < g1.len() implies #[trigger] g2[y] == g1[y] by {
        assert forall|x: int| 0 <= x < g1[y].len() implies #[trigger] g2[y][x] == g1[y][x] by {
            assert(in_grid(g0, x, y));
            assert(in_grid(g1, x, y));
            let _ = g1[y][x];
            let _ = g2[y][x];
        }
        assert(g2[y] =~= g1[y]);
    }
    assert(g2 =~= g1);
}

/// No square of `g` holds a mine.
pub open spec fn mine_free(g: Seq<Seq<MineCell>>) -> bool {
    forall|x: int, y: int| #![trigger g[y][x]] in_grid(g, x, y) ==> !g[y][x].is_mine
}

/// `g1` is `g0` where some closed squares were opened, and nothing else changed.
pub open spec fn only_opens(g0: Seq<Seq<MineCell>>, g1: Seq<Seq<MineCell>>) -> bool {
    &&& g1.len() == g0.len()
    &&& forall|y: int| 0 <= y < g0.len() ==> #[trigger] g1[y].len() == g0[y].len()
    &&& forall|x: int, y: int|
        #![trigger g1[y][x]]
        in_grid(g0, x, y) ==> {
            &&& g1[y][x].is_mine == g0[y][x].is_mine
            &&& g1[y][x].neighbor_mines == g0[y][x].neighbor_mines
            &&& (g1[y][x].state == g0[y][x].state || (g0[y][x].state == CellState::Closed
                && g1[y][x].state == CellState::Opened))
        }
}

/// The square was closed in `g0` and is open in `g1`.
pub open spec fn newly_opened(g0: Seq<Seq<MineCell>>, g1: Seq<Seq<MineCell>>, x: int, y: int) -> bool {
    g0[y][x].state == CellState::Closed && g1[y][x].state == CellState::Opened
}

/// A blank safe square `(x, y)` (no mine, no mine around) has no closed square around it.
pub open spec fn surroundings_open(g: Seq<Seq<MineCell>>, x: int, y: int) -> bool {
    (g[y][x].neighbor_mines == 0 && !g[y][x].is_mine) ==> forall|a: int, b: int|
        #![trigger g[b][a]]
        in_grid(g, a, b) && is_near(x, y, a, b) ==> g[b][a].state != CellState::Closed
}

/// Every square opened between `g0` and `g1` that is blank has its whole
/// neighbourhood uncovered in `g1`: the flood went as far as it should.
pub open spec fn flood_complete(g0: Seq<Seq<MineCell>>, g1: Seq<Seq<MineCell>>) -> bool {
    forall|x: int, y: int|
        #![trigger newly_opened(g0, g1, x, y)]
        in_grid(g0, x, y) && newly_opened(g0, g1, x, y) ==> surroundings_open(g1, x, y)
}

// ---------------------------------------------------------------------------
// Counting squares
// ---------------------------------------------------------------------------

/// The number of squares of a row that satisfy `p`.
pub open spec fn count_row(r: Seq<MineCell>, p: spec_fn(MineCell) -> bool) -> nat
    decreases r.len(),
{
    if r.len() == 0 {
        0
    } else {
        count_row(r.drop_last(), p) + if p(r.last()) {
            1nat
        } else {
            0nat
        }
    }
}

/// The number of squares of the board that satisfy `p`.
pub open spec fn count_cells(g: Seq<Seq<MineCell>>, p: spec_fn(MineCell) -> bool) -> nat
    decreases g.len(),
{
    if g.len() == 0 {
        0
    } else {
        count_cells(g.drop_last(), p) + count_row(g.last(), p)
    }
}

pub open spec fn is_closed() -> spec_fn(MineCell) -> bool {
    |c: MineCell| c.state == CellState::Closed
}

pub open spec fn is_flagged() -> spec_fn(MineCell) -> bool {
    |c: MineCell| c.state == CellState::Flagged
}

pub open spec fn is_mine() -> spec_fn(MineCell) -> bool {
    |c: MineCell| c.is_mine
}

pub proof fn lemma_count_row_bound(r: Seq<MineCell>, p: spec_fn(MineCell) -> bool)
    ensures
        count_row(r, p) <= r.len(),
    decreases r.len(),
{
    if r.len() > 0 {
        lemma_count_row_bound(r.drop_last(), p);
    }
}

/// Fewer squares satisfy `p` in `r1` than in `r0` when `p` only ever stops holding;
/// strictly fewer when it stops holding somewhere.
pub proof fn lemma_count_row_mono(r0: Seq<MineCell>, r1: Seq<MineCell>, p: spec_fn(MineCell) -> bool)
    requires
        r0.len() == r1.len(),
        forall|i: int| 0 <= i < r0.len() && #[trigger] p(r1[i]) ==> p(r0[i]),
    ensures
        count_row(r1, p) <= count_row(r0, p),
        (exists|i: int| 0 <= i < r0.len() && p(r0[i]) && !p(r1[i])) ==> count_row(r1, p) < count_row(
            r0,
            p,
        ),
    decreases r0.len(),
{
    if r0.len() > 0 {
        let n = r0.len() - 1;
        assert forall|i: int| 0 <= i < r0.drop_last().len() && #[trigger] p(r1.drop_last()[i]) implies p(
            r0.drop_last()[i],
        ) by {
            assert(p(r1[i]));
        }
        lemma_count_row_mono(r0.drop_last(), r1.drop_last(), p);
        if exists|i: int| 0 <= i < r0.len() && p(r0[i]) && !p(r1[i]) {
            let i = choose|i: int| 0 <= i < r0.len() && p(r0[i]) && !p(r1[i]);
            if i < n {
                assert(p(r0.drop_last()[i]) && !p(r1.drop_last()[i]));
            }
        }
        if p(r1.last()) {
            assert(p(r1[n]));
        }
    }
}

pub proof fn lemma_count_cells_mono(g0: Seq<Seq<MineCell>>, g1: Seq<Seq<MineCell>>, p: spec_fn(MineCell) -> bool)
    requires
        g0.len() == g1.len(),
        forall|y: int| 0 <= y < g0.len() ==> #[trigger] g1[y].len() == g0[y].len(),
        forall|x: int, y: int| in_grid(g0, x, y) && #[trigger] p(g1[y][x]) ==> p(g0[y][x]),
    ensures
        count_cells(g1, p) <= count_cells(g0, p),
        (exists|x: int, y: int| in_grid(g0, x, y) && p(g0[y][x]) && !p(g1[y][x])) ==> count_cells(g1, p)
            < count_cells(g0, p),
    decreases g0.len(),
{
    if g0.len() > 0 {
        let n = g0.len() - 1;
        assert forall|y: int| 0 <= y < g0.drop_last().len() implies #[trigger] g1.drop_last()[y].len()
            == g0.drop_last()[y].len() by {
            assert(g1[y].len() == g0[y].len());
        }
        assert forall|x: int, y: int|
            in_grid(g0.drop_last(), x, y) && #[trigger] p(g1.drop_last()[y][x]) implies p(
            g0.drop_last()[y][x],
        ) by {
            assert(g1[y].len() == g0[y].len());
            assert(p(g1[y][x]));
        }
        lemma_count_cells_mono(g0.drop_last(), g1.drop_last(), p);
        assert(g1[n].len() == g0[n].len());
        assert forall|i: int| 0 <= i < g0.last().len() && #[trigger] p(g1.last()[i]) implies p(
            g0.last()[i],
        ) by {
            assert(p(g1[n][i]));
        }
        lemma_count_row_mono(g0.last(), g1.last(), p);
        if exists|x: int, y: int| in_grid(g0, x, y) && p(g0[y][x]) && !p(g1[y][x]) {
            let (x, y) = choose|x: int, y: int| in_grid(g0, x, y) && p(g0[y][x]) && !p(g1[y][x]);
            if y < n {
                assert(in_grid(g0.drop_last(), x, y) && p(g0.drop_last()[y][x]) && !p(
                    g1.drop_last()[y][x],
                ));
            } else {
                assert(p(g0.last()[x]) && !p(g1.last()[x]));
            }
        }
    }
}

// ---------------------------------------------------------------------------
// Opening squares
// ---------------------------------------------------------------------------

pub proof fn lemma_only_opens_refl(g: Seq<Seq<MineCell>>)
    ensures
        only_opens(g, g),
{
}

pub proof fn lemma_only_opens_trans(g0: Seq<Seq<MineCell>>, g1: Seq<Seq<MineCell>>, g2: Seq<Seq<MineCell>>)
    requires
        only_opens(g0, g1),
        only_opens(g1, g2),
    ensures
        only_opens(g0, g2),
{
    assert forall|y: int| 0 <= y < g0.len() implies #[trigger] g2[y].len() == g0[y].len() by {
        assert(g1[y].len() == g0[y].len());
    }
    assert forall|x: int, y: int| #![trigger g2[y][x]] in_grid(g0, x, y) implies {
        &&& g2[y][x].is_mine == g0[y][x].is_mine
        &&& g2[y][x].neighbor_mines == g0[y][x].neighbor_mines
        &&& (g2[y][x].state == g0[y][x].state || (g0[y][x].state == CellState::Closed
            && g2[y][x].state == CellState::Opened))
    } by {
        assert(g1[y].len() == g0[y].len());
        assert(in_grid(g1, x, y));
        let _ = g1[y][x];
    }
}

/// Opening squares moves no mine, so the mine count of every neighbourhood stays.
pub proof fn lemma_only_opens_mines(g0: Seq<Seq<MineCell>>, g1: Seq<Seq<MineCell>>)
    requires
        only_opens(g0, g1),
    ensures
        forall|x: int, y: int| #[trigger] mine_at(g1, x, y) == mine_at(g0, x, y),
        forall|x: int, y: int| #[trigger] mines_around(g1, x, y) == mines_around(g0, x, y),
        forall|x: int, y: int| #[trigger] in_grid(g1, x, y) == in_grid(g0, x, y),
        counts_consistent(g0) ==> counts_consistent(g1),
        mine_free(g0) ==> mine_free(g1),
{
    assert forall|x: int, y: int| #[trigger] in_grid(g1, x, y) == in_grid(g0, x, y) by {
        if 0 <= y < g0.len() {
            assert(g1[y].len() == g0[y].len());
        }
    }
    assert forall|x: int, y: int| #[trigger] mine_at(g1, x, y) == mine_at(g0, x, y) by {
        if in_grid(g0, x, y) {
            let _ = g1[y][x];
        }
    }
    if counts_consistent(g0) {
        assert forall|x: int, y: int|
            #![trigger g1[y][x]]
            in_grid(g1, x, y) && !g1[y][x].is_mine implies g1[y][x].neighbor_mines == mines_around(
            g1,
            x,
            y,
        ) by {
            let _ = g0[y][x];
            assert(mines_around(g1, x, y) == mines_around(g0, x, y));
        }
    }
    if mine_free(g0) {
        assert forall|x: int, y: int| #![trigger g1[y][x]] in_grid(g1, x, y) implies !g1[y][x].is_mine by {
            let _ = g0[y][x];
        }
    }
}

/// Once the neighbourhood of a blank square is uncovered, opening more keeps it so.
pub proof fn lemma_surroundings_persist(g1: Seq<Seq<MineCell>>, g2: Seq<Seq<MineCell>>, x: int, y: int)
    requires
        only_opens(g1, g2),
        in_grid(g1, x, y),
        surroundings_open(g1, x, y),
    ensures
        surroundings_open(g2, x, y),
{
    lemma_only_opens_mines(g1, g2);
    let _ = g2[y][x];
    if g2[y][x].neighbor_mines == 0 && !g2[y][x].is_mine {
        assert forall|a: int, b: int|
            #![trigger g2[b][a]]
            in_grid(g2, a, b) && is_near(x, y, a, b) implies g2[b][a].state != CellState::Closed by {
            assert(in_grid(g1, a, b));
            let _ = g1[b][a];
        }
    }
}

/// Opening squares never adds a closed one.
pub proof fn lemma_only_opens_closed_count(g0: Seq<Seq<MineCell>>, g1: Seq<Seq<MineCell>>)
    requires
        only_opens(g0, g1),
    ensures
        count_cells(g1, is_closed()) <= count_cells(g0, is_closed()),
        (exists|x: int, y: int| in_grid(g0, x, y) && newly_opened(g0, g1, x, y)) ==> count_cells(
            g1,
            is_closed(),
        ) < count_cells(g0, is_closed()),
{
    assert forall|x: int, y: int| in_grid(g0, x, y) && #[trigger] is_closed()(g1[y][x]) implies is_closed()(
        g0[y][x],
    ) by {}
    if exists|x: int, y: int| in_grid(g0, x, y) && newly_opened(g0, g1, x, y) {
        let (x, y) = choose|x: int, y: int| in_grid(g0, x, y) && newly_opened(g0, g1, x, y);
        assert(is_closed()(g0[y][x]) && !is_closed()(g1[y][x]));
    }
    lemma_count_cells_mono(g0, g1, is_closed());
}

/// `g` with square `(x, y)` replaced by `c`.
pub open spec fn set_cell(g: Seq<Seq<MineCell>>, x: int, y: int, c: MineCell) -> Seq<Seq<MineCell>> {
    g.update(y, g[y].update(x, c))
}

/// `g` with the state of square `(x, y)` replaced by `st`.
pub open spec fn set_state(g: Seq<Seq<MineCell>>, x: int, y: int, st: CellState) -> Seq<Seq<MineCell>> {
    set_cell(g, x, y, MineCell { state: st, ..g[y][x] })
}

pub proof fn lemma_count_row_update(r: Seq<MineCell>, i: int, c: MineCell, p: spec_fn(MineCell) -> bool)
    requires
        0 <= i < r.len(),
    ensures
        count_row(r.update(i, c), p) + (if p(r[i]) { 1int } else { 0 }) == count_row(r, p) + (if p(
            c,
        ) {
            1int
        } else {
            0
        }),
    decreases r.len(),
{
    let n = r.len() - 1;
    if i == n {
        assert(r.update(i, c).drop_last() =~= r.drop_last());
    } else {
        lemma_count_row_update(r.drop_last(), i, c, p);
        assert(r.update(i, c).drop_last() =~= r.drop_last().update(i, c));
    }
}

/// Replacing one square changes a count by what the old and the new square contribute.
pub proof fn lemma_count_cells_update(g: Seq<Seq<MineCell>>, x: int, y: int, c: MineCell, p: spec_fn(MineCell) -> bool)
    requires
        in_grid(g, x, y),
    ensures
        count_cells(set_cell(g, x, y, c), p) + (if p(g[y][x]) { 1int } else { 0 }) == count_cells(g, p)
            + (if p(c) {
            1int
        } else {
            0
        }),
    decreases g.len(),
{
    let n = g.len() - 1;
    lemma_count_row_update(g[y], x, c, p);
    if y == n {
        assert(set_cell(g, x, y, c).drop_last() =~= g.drop_last());
    } else {
        lemma_count_cells_update(g.drop_last(), x, y, c, p);
        assert(set_cell(g, x, y, c).drop_last() =~= set_cell(g.drop_last(), x, y, c));
    }
}

/// A board of `h` rows of `w` squares has at most `w * h` squares of any kind.
pub proof fn lemma_count_cells_bound(g: Seq<Seq<MineCell>>, w: int, h: int, p: spec_fn(MineCell) -> bool)
    requires
        has_shape(g, w, h),
        w >= 0,
    ensures
        count_cells(g, p) <= w * h,
    decreases g.len(),
{
    if g.len() > 0 {
        assert(has_shape(g.drop_last(), w, h - 1)) by {
            assert forall|y: int| 0 <= y < h - 1 implies #[trigger] g.drop_last()[y].len() == w by {
                assert(g[y].len() == w);
            }
        }
        lemma_count_cells_bound(g.drop_last(), w, h - 1, p);
        lemma_count_row_bound(g.last(), p);
        assert(g[h - 1].len() == w);
        assert(w * (h - 1) + w == w * h) by (nonlinear_arith);
    }
}

/// Counting the first `y` rows and then the next row counts the first `y + 1`.
pub proof fn lemma_count_cells_take(g: Seq<Seq<MineCell>>, y: int, p: spec_fn(MineCell) -> bool)
    requires
        0 <= y < g.len(),
    ensures
        count_cells(g.take(y + 1), p) == count_cells(g.take(y), p) + count_row(g[y], p),
{
    assert(g.take(y + 1).drop_last() =~= g.take(y));
}

/// Counting the first `x` squares of a row and then the next counts the first `x + 1`.
pub proof fn lemma_count_row_take(r: Seq<MineCell>, x: int, p: spec_fn(MineCell) -> bool)
    requires
        0 <= x < r.len(),
    ensures
        count_row(r.take(x + 1), p) == count_row(r.take(x), p) + if p(r[x]) {
            1nat
        } else {
            0nat
        },
{
    assert(r.take(x + 1).drop_last() =~= r.take(x));
}

pub proof fn lemma_count_row_prefix(r: Seq<MineCell>, n: int, p: spec_fn(MineCell) -> bool)
    requires
        0 <= n <= r.len(),
    ensures
        count_row(r.take(n), p) <= count_row(r, p),
    decreases r.len() - n,
{
    if n < r.len() {
        lemma_count_row_prefix(r, n + 1, p);
        lemma_count_row_take(r, n, p);
    } else {
        assert(r.take(n) =~= r);
    }
}

pub proof fn lemma_count_cells_mono_prefix(g: Seq<Seq<MineCell>>, n: int, p: spec_fn(MineCell) -> bool)
    requires
        0 <= n <= g.len(),
    ensures
        count_cells(g.take(n), p) <= count_cells(g, p),
    decreases g.len() - n,
{
    if n < g.len() {
        lemma_count_cells_mono_prefix(g, n + 1, p);
        lemma_count_cells_take(g, n, p);
    } else {
        assert(g.take(n) =~= g);
    }
}

/// Boards whose squares agree on where the mines are agree on every mine count.
pub proof fn lemma_same_mines(g0: Seq<Seq<MineCell>>, g1: Seq<Seq<MineCell>>)
    requires
        g1.len() == g0.len(),
        forall|y: int| 0 <= y < g0.len() ==> #[trigger] g1[y].len() == g0[y].len(),
        forall|x: int, y: int| #![trigger g1[y][x]] in_grid(g0, x, y) ==> g1[y][x].is_mine == g0[y][x].is_mine,
    ensures
        forall|x: int, y: int| #[trigger] in_grid(g1, x, y) == in_grid(g0, x, y),
        forall|x: int, y: int| #[trigger] mine_at(g1, x, y) == mine_at(g0, x, y),
        forall|x: int, y: int| #[trigger] mines_around(g1, x, y) == mines_around(g0, x, y),
        mine_free(g0) ==> mine_free(g1),
{
    assert forall|x: int, y: int| #[trigger] in_grid(g1, x, y) == in_grid(g0, x, y) by {
        if 0 <= y < g0.len() {
            assert(g1[y].len() == g0[y].len());
        }
    }
    assert forall|x: int, y: int| #[trigger] mine_at(g1, x, y) == mine_at(g0, x, y) by {
        if in_grid(g0, x, y) {
            let _ = g1[y][x];
        }
    }
    assert forall|x: int, y: int| #[trigger] mines_around(g1, x, y) == mines_around(g0, x, y) by {
        assert(mine_at(g1, x - 1, y - 1) == mine_at(g0, x - 1, y - 1));
        assert(mine_at(g1, x, y - 1) == mine_at(g0, x, y - 1));
        assert(mine_at(g1, x + 1, y - 1) == mine_at(g0, x + 1, y - 1));
        assert(mine_at(g1, x - 1, y) == mine_at(g0, x - 1, y));
        assert(mine_at(g1, x, y) == mine_at(g0, x, y));
        assert(mine_at(g1, x + 1, y) == mine_at(g0, x + 1, y));
        assert(mine_at(g1, x - 1, y + 1) == mine_at(g0, x - 1, y + 1));
        assert(mine_at(g1, x, y + 1) == mine_at(g0, x, y + 1));
        assert(mine_at(g1, x + 1, y + 1) == mine_at(g0, x + 1, y + 1));
    }
    if mine_free(g0) {
        assert forall|x: int, y: int| #![trigger g1[y][x]] in_grid(g1, x, y) implies !g1[y][x].is_mine by {
            let _ = g0[y][x];
        }
    }
}

/// Changing only what squares show keeps the board's shape and its numbers.
pub proof fn lemma_same_marks_keep_shape_and_counts(g0: Seq<Seq<MineCell>>, g1: Seq<Seq<MineCell>>, w: int, h: int)
    requires
        has_shape(g0, w, h),
        g1.len() == g0.len(),
        forall|y: int| 0 <= y < g0.len() ==> #[trigger] g1[y].len() == g0[y].len(),
        forall|x: int, y: int|
            #![trigger g1[y][x]]
            in_grid(g0, x, y) ==> g1[y][x].is_mine == g0[y][x].is_mine && g1[y][x].neighbor_mines
                == g0[y][x].neighbor_mines,
    ensures
        has_shape(g1, w, h),
        forall|x: int, y: int| #[trigger] mines_around(g1, x, y) == mines_around(g0, x, y),
        counts_consistent(g0) ==> counts_consistent(g1),
        mine_free(g0) ==> mine_free(g1),
{
    lemma_same_mines(g0, g1);
    assert forall|y: int| 0 <= y < h implies #[trigger] g1[y].len() == w by {
        assert(g0[y].len() == w);
    }
    if counts_consistent(g0) {
        assert forall|x: int, y: int|
            #![trigger g1[y][x]]
            in_grid(g1, x, y) && !g1[y][x].is_mine implies g1[y][x].neighbor_mines == mines_around(
            g1,
            x,
            y,
        ) by {
            assert(g1[y].len() == g0[y].len());
            let _ = g0[y][x];
        }
    }
}

/// Every safe square of `g` is open.
pub open spec fn all_safe_opened(g: Seq<Seq<MineCell>>) -> bool {
    forall|x: int, y: int|
        #![trigger g[y][x]]
        in_grid(g, x, y) ==> g[y][x].is_mine || g[y][x].state == CellState::Opened
}

/// `g1` is `g0` with every mine shown open and nothing else changed.
pub open spec fn mines_revealed(g0: Seq<Seq<MineCell>>, g1: Seq<Seq<MineCell>>) -> bool {
    &&& g1.len() == g0.len()
    &&& forall|y: int| 0 <= y < g0.len() ==> #[trigger] g1[y].len() == g0[y].len()
    &&& forall|x: int, y: int|
        #![trigger g1[y][x]]
        in_grid(g0, x, y) ==> {
            &&& g1[y][x].is_mine == g0[y][x].is_mine
            &&& g1[y][x].neighbor_mines == g0[y][x].neighbor_mines
            &&& g1[y][x].state == if g0[y][x].is_mine {
                CellState::Opened
            } else {
                g0[y][x].state
            }
        }
}

/// The untouched board: every square closed, safe and blank.
pub open spec fn blank_board(g: Seq<Seq<MineCell>>) -> bool {
    forall|x: int, y: int|
        #![trigger g[y][x]]
        in_grid(g, x, y) ==> g[y][x] == (MineCell { is_mine: false, neighbor_mines: 0, state: CellState::Closed })
}

pub proof fn lemma_count_row_none(r: Seq<MineCell>, p: spec_fn(MineCell) -> bool)
    requires
        forall|i: int| 0 <= i < r.len() ==> !#[trigger] p(r[i]),
    ensures
        count_row(r, p) == 0,
    decreases r.len(),
{
    if r.len() > 0 {
        assert(!p(r[r.len() - 1]));
        lemma_count_row_none(r.drop_last(), p);
    }
}

/// No square satisfies `p`, so none is counted.
pub proof fn lemma_count_cells_none(g: Seq<Seq<MineCell>>, p: spec_fn(MineCell) -> bool)
    requires
        forall|x: int, y: int| in_grid(g, x, y) ==> !#[trigger] p(g[y][x]),
    ensures
        count_cells(g, p) == 0,
    decreases g.len(),
{
    if g.len() > 0 {
        let n = g.len() - 1;
        assert forall|i: int| 0 <= i < g.last().len() implies !#[trigger] p(g.last()[i]) by {
            assert(!p(g[n][i]));
        }
        lemma_count_row_none(g.last(), p);
        assert forall|x: int, y: int| in_grid(g.drop_last(), x, y) implies !#[trigger] p(g.drop_last()[y][x]) by {
            assert(!p(g[y][x]));
        }
        lemma_count_cells_none(g.drop_last(), p);
    }
}

/// `g1` is `g0` with mines added on `sites` and every safe square's number
/// brought up to date.
pub open spec fn mines_placed(g0: Seq<Seq<MineCell>>, g1: Seq<Seq<MineCell>>, sites: Seq<(usize, usize)>) -> bool {
    &&& g1.len() == g0.len()
    &&& forall|y: int| 0 <= y < g0.len() ==> #[trigger] g1[y].len() == g0[y].len()
    &&& forall|x: int, y: int|
        #![trigger g1[y][x]]
        in_grid(g0, x, y) ==> {
            &&& g1[y][x].is_mine == (g0[y][x].is_mine || sites.contains((x as usize, y as usize)))
            &&& g1[y][x].is_mine ==> g1[y][x].neighbor_mines == g0[y][x].neighbor_mines
        }
    &&& counts_consistent(g1)
}

/// Two boards whose squares agree on `p` count alike.
pub proof fn lemma_count_cells_same(g0: Seq<Seq<MineCell>>, g1: Seq<Seq<MineCell>>, p: spec_fn(MineCell) -> bool)
    requires
        g0.len() == g1.len(),
        forall|y: int| 0 <= y < g0.len() ==> #[trigger] g1[y].len() == g0[y].len(),
        forall|x: int, y: int| in_grid(g0, x, y) ==> #[trigger] p(g1[y][x]) == p(g0[y][x]),
    ensures
        count_cells(g1, p) == count_cells(g0, p),
{
    assert forall|x: int, y: int| in_grid(g0, x, y) && #[trigger] p(g1[y][x]) implies p(g0[y][x]) by {}
    lemma_count_cells_mono(g0, g1, p);
    assert forall|y: int| 0 <= y < g1.len() implies #[trigger] g0[y].len() == g1[y].len() by {
        assert(g1[y].len() == g0[y].len());
    }
    assert forall|x: int, y: int| in_grid(g1, x, y) && #[trigger] p(g0[y][x]) implies p(g1[y][x]) by {
        assert(g1[y].len() == g0[y].len());
    }
    lemma_count_cells_mono(g1, g0, p);
}

/// A board without mines counts no mine.
pub proof fn lemma_count_cells_none_if_free(g: Seq<Seq<MineCell>>)
    ensures
        mine_free(g) ==> count_cells(g, is_mine()) == 0,
{
    if mine_free(g) {
        assert forall|x: int, y: int| in_grid(g, x, y) implies !#[trigger] is_mine()(g[y][x]) by {
            let _ = g[y][x];
        }
        lemma_count_cells_none(g, is_mine());
    }
}

/// `g1` has the shape, the mines and the numbers of `g0`; only what the
/// squares show may differ.
pub open spec fn same_layout(g0: Seq<Seq<MineCell>>, g1: Seq<Seq<MineCell>>) -> bool {
    &&& g1.len() == g0.len()
    &&& forall|y: int| 0 <= y < g0.len() ==> #[trigger] g1[y].len() == g0[y].len()
    &&& forall|x: int, y: int|
        #![trigger g1[y][x]]
        in_grid(g0, x, y) ==> g1[y][x].is_mine == g0[y][x].is_mine && g1[y][x].neighbor_mines
            == g0[y][x].neighbor_mines
}

/// No square that is uncovered or flagged in `g0` is closed in `g1`.
pub open spec fn never_closes(g0: Seq<Seq<MineCell>>, g1: Seq<Seq<MineCell>>) -> bool {
    &&& same_layout(g0, g1)
    &&& forall|x: int, y: int|
        #![trigger g1[y][x]]
        in_grid(g0, x, y) && g0[y][x].state != CellState::Closed ==> g1[y][x].state != CellState::Closed
}

pub proof fn lemma_layout_facts(g0: Seq<Seq<MineCell>>, g1: Seq<Seq<MineCell>>)
    requires
        same_layout(g0, g1),
    ensures
        forall|x: int, y: int| #[trigger] in_grid(g1, x, y) == in_grid(g0, x, y),
        forall|x: int, y: int| #[trigger] mines_around(g1, x, y) == mines_around(g0, x, y),
        forall|x: int, y: int| #[trigger] mine_at(g1, x, y) == mine_at(g0, x, y),
        counts_consistent(g0) ==> counts_consistent(g1),
        mine_free(g0) ==> mine_free(g1),
        same_layout(g1, g0),
{
    lemma_same_mines(g0, g1);
    if counts_consistent(g0) {
        assert forall|x: int, y: int|
            #![trigger g1[y][x]]
            in_grid(g1, x, y) && !g1[y][x].is_mine implies g1[y][x].neighbor_mines == mines_around(
            g1,
            x,
            y,
        ) by {
            let _ = g0[y][x];
        }
    }
    assert forall|y: int| 0 <= y < g1.len() implies #[trigger] g0[y].len() == g1[y].len() by {
        assert(g1[y].len() == g0[y].len());
    }
    assert forall|x: int, y: int|
        #![trigger g0[y][x]]
        in_grid(g1, x, y) implies g0[y][x].is_mine == g1[y][x].is_mine && g0[y][x].neighbor_mines
            == g1[y][x].neighbor_mines by {
        let _ = g1[y][x];
    }
}

pub proof fn lemma_layout_trans(g0: Seq<Seq<MineCell>>, g1: Seq<Seq<MineCell>>, g2: Seq<Seq<MineCell>>)
    requires
        same_layout(g0, g1),
        same_layout(g1, g2),
    ensures
        same_layout(g0, g2),
{
    lemma_layout_facts(g0, g1);
    assert forall|y: int| 0 <= y < g0.len() implies #[trigger] g2[y].len() == g0[y].len() by {
        assert(g1[y].len() == g0[y].len());
    }
    assert forall|x: int, y: int|
        #![trigger g2[y][x]]
        in_grid(g0, x, y) implies g2[y][x].is_mine == g0[y][x].is_mine && g2[y][x].neighbor_mines
            == g0[y][x].neighbor_mines by {
        let _ = g1[y][x];
    }
}

pub proof fn lemma_only_opens_layout(g0: Seq<Seq<MineCell>>, g1: Seq<Seq<MineCell>>)
    requires
        only_opens(g0, g1),
    ensures
        never_closes(g0, g1),
{
}

pub proof fn lemma_mines_revealed_layout(g0: Seq<Seq<MineCell>>, g1: Seq<Seq<MineCell>>)
    requires
        mines_revealed(g0, g1),
    ensures
        never_closes(g0, g1),
{
}

/// Once the neighbourhood of a blank square is uncovered, it stays so while
/// no square closes.
pub proof fn lemma_surroundings_stay(g1: Seq<Seq<MineCell>>, g2: Seq<Seq<MineCell>>, x: int, y: int)
    requires
        never_closes(g1, g2),
        in_grid(g1, x, y),
        surroundings_open(g1, x, y),
    ensures
        surroundings_open(g2, x, y),
{
    lemma_layout_facts(g1, g2);
    let _ = g2[y][x];
    if g2[y][x].neighbor_mines == 0 && !g2[y][x].is_mine {
        assert forall|a: int, b: int|
            #![trigger g2[b][a]]
            in_grid(g2, a, b) && is_near(x, y, a, b) implies g2[b][a].state != CellState::Closed by {
            assert(in_grid(g1, a, b));
            let _ = g1[b][a];
        }
    }
}

/// Between `g0` and `g1` squares were only opened: every square shows the
/// same or went from closed to open. (Mines and numbers may differ.)
pub open spec fn states_only_open(g0: Seq<Seq<MineCell>>, g1: Seq<Seq<MineCell>>) -> bool {
    forall|x: int, y: int|
        #![trigger g1[y][x]]
        in_grid(g0, x, y) ==> (g1[y][x].state == g0[y][x].state || (g0[y][x].state == CellState::Closed
            && g1[y][x].state == CellState::Opened))
}

/// Every mine of `g1` shows open, everything else shows as in `g0`.
pub open spec fn states_mines_shown(g0: Seq<Seq<MineCell>>, g1: Seq<Seq<MineCell>>) -> bool {
    forall|x: int, y: int|
        #![trigger g1[y][x]]
        in_grid(g0, x, y) ==> g1[y][x].state == if g1[y][x].is_mine {
            CellState::Opened
        } else {
            g0[y][x].state
        }
}

/// Every square opened between `g0` and `g1` is safe.
pub open spec fn opened_safe(g0: Seq<Seq<MineCell>>, g1: Seq<Seq<MineCell>>) -> bool {
    forall|x: int, y: int|
        #![trigger g1[y][x]]
        in_grid(g0, x, y) && newly_opened(g0, g1, x, y) ==> !g1[y][x].is_mine
}

/// Where no square of the board became flagged, there are no more flags.
pub proof fn lemma_flags_not_added_states(g0: Seq<Seq<MineCell>>, g1: Seq<Seq<MineCell>>)
    requires
        g1.len() == g0.len(),
        forall|y: int| 0 <= y < g0.len() ==> #[trigger] g1[y].len() == g0[y].len(),
        forall|x: int, y: int|
            #![trigger g1[y][x]]
            in_grid(g0, x, y) && g1[y][x].state == CellState::Flagged ==> g0[y][x].state == CellState::Flagged,
    ensures
        count_cells(g1, is_flagged()) <= count_cells(g0, is_flagged()),
{
    assert forall|x: int, y: int| in_grid(g0, x, y) && #[trigger] is_flagged()(g1[y][x]) implies is_flagged()(
        g0[y][x],
    ) by {}
    lemma_count_cells_mono(g0, g1, is_flagged());
}

/// Mines placed between `g0` and `gm` stay placed in a board with the layout of `gm`.
pub proof fn lemma_mines_placed_layout(
    g0: Seq<Seq<MineCell>>,
    gm: Seq<Seq<MineCell>>,
    g1: Seq<Seq<MineCell>>,
    sites: Seq<(usize, usize)>,
)
    requires
        mines_placed(g0, gm, sites),
        same_layout(gm, g1),
    ensures
        mines_placed(g0, g1, sites),
        count_cells(g1, is_mine()) == count_cells(gm, is_mine()),
{
    lemma_layout_facts(gm, g1);
    assert forall|y: int| 0 <= y < g0.len() implies #[trigger] g1[y].len() == g0[y].len() by {
        assert(gm[y].len() == g0[y].len());
    }
    assert forall|x: int, y: int|
        #![trigger g1[y][x]]
        in_grid(g0, x, y) implies {
            &&& g1[y][x].is_mine == (g0[y][x].is_mine || sites.contains((x as usize, y as usize)))
            &&& g1[y][x].is_mine ==> g1[y][x].neighbor_mines == g0[y][x].neighbor_mines
        } by {
        assert(gm[y].len() == g0[y].len());
        let _ = gm[y][x];
    }
    assert forall|x: int, y: int| in_grid(gm, x, y) implies #[trigger] is_mine()(g1[y][x]) == is_mine()(gm[y][x]) by {
        let _ = g1[y][x];
    }
    lemma_count_cells_same(gm, g1, is_mine());
}

/// `region` is closed under flooding in `g`: with every closed blank safe
/// square it holds, it holds every square around it.
pub open spec fn flood_region(g: Seq<Seq<MineCell>>, region: Set<(int, int)>) -> bool {
    forall|a: int, b: int|
        #![trigger region.contains((a, b))]
        region.contains((a, b)) && in_grid(g, a, b) && g[b][a].state == CellState::Closed
            && g[b][a].neighbor_mines == 0 && !g[b][a].is_mine ==> forall|c: int, d: int|
            #![trigger region.contains((c, d))]
            in_grid(g, c, d) && is_near(a, b, c, d) ==> region.contains((c, d))
}

/// Every square opened between `g0` and `g1` lies in `region`.
pub open spec fn opened_within(g0: Seq<Seq<MineCell>>, g1: Seq<Seq<MineCell>>, region: Set<(int, int)>) -> bool {
    forall|a: int, b: int|
        #![trigger newly_opened(g0, g1, a, b)]
        in_grid(g0, a, b) && newly_opened(g0, g1, a, b) ==> region.contains((a, b))
}

/// A region closed under flooding stays so as squares open.
pub proof fn lemma_flood_region_opens(g0: Seq<Seq<MineCell>>, g1: Seq<Seq<MineCell>>, region: Set<(int, int)>)
    requires
        only_opens(g0, g1),
        flood_region(g0, region),
    ensures
        flood_region(g1, region),
{
    lemma_only_opens_mines(g0, g1);
    assert forall|a: int, b: int|
        #![trigger region.contains((a, b))]
        region.contains((a, b)) && in_grid(g1, a, b) && g1[b][a].state == CellState::Closed
            && g1[b][a].neighbor_mines == 0 && !g1[b][a].is_mine implies forall|c: int, d: int|
            #![trigger region.contains((c, d))]
            in_grid(g1, c, d) && is_near(a, b, c, d) ==> region.contains((c, d)) by {
        let _ = g0[b][a];
        assert forall|c: int, d: int|
            #![trigger region.contains((c, d))]
            in_grid(g1, c, d) && is_near(a, b, c, d) implies region.contains((c, d)) by {
            assert(in_grid(g0, c, d));
        }
    }
}

/// `region` is closed under flooding on a board that shows the squares of
/// `shown` and has the mines and numbers of `layout`: with every square it
/// holds that is closed in `shown` and blank and safe in `layout`, it holds
/// every square around it.
pub open spec fn flood_region_from(shown: Seq<Seq<MineCell>>, layout: Seq<Seq<MineCell>>, region: Set<(int, int)>) -> bool {
    forall|a: int, b: int|
        #![trigger region.contains((a, b))]
        region.contains((a, b)) && in_grid(shown, a, b) && shown[b][a].state == CellState::Closed
            && layout[b][a].neighbor_mines == 0 && !layout[b][a].is_mine ==> forall|c: int, d: int|
            #![trigger region.contains((c, d))]
            in_grid(shown, c, d) && is_near(a, b, c, d) ==> region.contains((c, d))
}

/// Every safe square opened between `g0` and `g1` lies in `region`.
pub open spec fn opened_safe_within(g0: Seq<Seq<MineCell>>, g1: Seq<Seq<MineCell>>, region: Set<(int, int)>) -> bool {
    forall|a: int, b: int|
        #![trigger newly_opened(g0, g1, a, b)]
        in_grid(g0, a, b) && newly_opened(g0, g1, a, b) && !g1[b][a].is_mine ==> region.contains((a, b))
}

/// A region closed under flooding stays so while no square closes and the
/// layout stays.
pub proof fn lemma_flood_region_shrink(g0: Seq<Seq<MineCell>>, g1: Seq<Seq<MineCell>>, region: Set<(int, int)>)
    requires
        same_layout(g0, g1),
        forall|x: int, y: int|
            #![trigger g1[y][x]]
            in_grid(g0, x, y) && g1[y][x].state == CellState::Closed ==> g0[y][x].state == CellState::Closed,
        flood_region(g0, region),
    ensures
        flood_region(g1, region),
{
    lemma_layout_facts(g0, g1);
    assert forall|a: int, b: int|
        #![trigger region.contains((a, b))]
        region.contains((a, b)) && in_grid(g1, a, b) && g1[b][a].state == CellState::Closed
            && g1[b][a].neighbor_mines == 0 && !g1[b][a].is_mine implies forall|c: int, d: int|
            #![trigger region.contains((c, d))]
            in_grid(g1, c, d) && is_near(a, b, c, d) ==> region.contains((c, d)) by {
        let _ = g0[b][a];
        assert forall|c: int, d: int|
            #![trigger region.contains((c, d))]
            in_grid(g1, c, d) && is_near(a, b, c, d) implies region.contains((c, d)) by {
            assert(in_grid(g0, c, d));
        }
    }
}

/// Mixing the squares shown by `shown` with the layout of `layout` gives a
/// board `g` on which the two ways of stating flood-closure agree.
pub proof fn lemma_flood_region_mixed(
    shown: Seq<Seq<MineCell>>,
    layout: Seq<Seq<MineCell>>,
    g: Seq<Seq<MineCell>>,
    region: Set<(int, int)>,
)
    requires
        same_layout(g, layout),
        g.len() == shown.len(),
        forall|y: int| 0 <= y < g.len() ==> #[trigger] shown[y].len() == g[y].len(),
        forall|x: int, y: int| #![trigger g[y][x]] in_grid(g, x, y) ==> g[y][x].state == shown[y][x].state,
        flood_region_from(shown, layout, region),
    ensures
        flood_region(g, region),
{
    assert forall|x: int, y: int| #[trigger] in_grid(shown, x, y) == in_grid(g, x, y) by {
        if 0 <= y < g.len() {
            assert(shown[y].len() == g[y].len());
        }
    }
    assert forall|a: int, b: int|
        #![trigger region.contains((a, b))]
        region.contains((a, b)) && in_grid(g, a, b) && g[b][a].state == CellState::Closed
            && g[b][a].neighbor_mines == 0 && !g[b][a].is_mine implies forall|c: int, d: int|
            #![trigger region.contains((c, d))]
            in_grid(g, c, d) && is_near(a, b, c, d) ==> region.contains((c, d)) by {
        let _ = layout[b][a];
        assert(in_grid(shown, a, b));
        assert forall|c: int, d: int|
            #![trigger region.contains((c, d))]
            in_grid(g, c, d) && is_near(a, b, c, d) implies region.contains((c, d)) by {
            assert(in_grid(shown, c, d));
        }
    }
}

} // verus!

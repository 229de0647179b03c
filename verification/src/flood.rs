//! Proofs about flooding and chording: the steps that the loops of
//! `recursive_open` and `chord_cell` take, one neighbour at a time.
use vstd::prelude::*;

use crate::grid::{
    count_cells, counts_consistent, flood_complete, flood_region, in_grid, is_flagged, is_near,
    lemma_flags_not_added_states, lemma_flood_region_opens, lemma_flood_region_shrink,
    lemma_layout_facts, lemma_layout_trans, lemma_mines_revealed_layout,
    lemma_only_opens_layout, lemma_only_opens_mines, lemma_only_opens_refl,
    lemma_only_opens_trans, lemma_surroundings_persist, lemma_surroundings_stay, mine_at,
    mines_around, mines_revealed, newly_opened, only_opens, opened_safe, opened_safe_within,
    opened_within, same_layout, set_state, surroundings_open,
};
use crate::model::{CellState, MineCell};

verus! {

/// The nine squares around `(x, y)` are numbered row by row from 0 to 8.
pub(crate) proof fn lemma_offset_index(x: int, y: int, a: int, b: int, k: int)
    requires
        is_near(x, y, a, b),
        (b - y + 1) * 3 + (a - x + 1) == k,
    ensures
        a == x + k % 3 - 1,
        b == y + k / 3 - 1,
{
}

/// Opening the start square alone stays within every region that holds it.
pub(crate) proof fn lemma_region_start(g0: Seq<Seq<MineCell>>, g1: Seq<Seq<MineCell>>, x: int, y: int)
    requires
        in_grid(g0, x, y),
        g1 == set_state(g0, x, y, CellState::Opened),
    ensures
        forall|region: Set<(int, int)>|
            #[trigger] flood_region(g0, region) && region.contains((x, y)) ==> opened_within(g0, g1, region),
{
    assert forall|region: Set<(int, int)>|
        #[trigger] flood_region(g0, region) && region.contains((x, y)) implies opened_within(g0, g1, region) by {
        assert forall|a: int, b: int|
            #![trigger newly_opened(g0, g1, a, b)]
            in_grid(g0, a, b) && newly_opened(g0, g1, a, b) implies region.contains((a, b)) by {
            if !(a == x && b == y) {
                let _ = g1[b][a];
            }
        }
    }
}

/// Flooding from a neighbour of the blank square `(x, y)` stays within
/// every region that holds `(x, y)` and is closed under flooding.
pub(crate) proof fn lemma_region_step(
    g0: Seq<Seq<MineCell>>,
    pre: Seq<Seq<MineCell>>,
    post: Seq<Seq<MineCell>>,
    x: int,
    y: int,
    nx: int,
    ny: int,
)
    requires
        only_opens(g0, pre),
        only_opens(pre, post),
        in_grid(g0, x, y),
        g0[y][x].state == CellState::Closed,
        g0[y][x].neighbor_mines == 0,
        !g0[y][x].is_mine,
        is_near(x, y, nx, ny),
        forall|region: Set<(int, int)>|
            #[trigger] flood_region(g0, region) && region.contains((x, y)) ==> opened_within(g0, pre, region),
        forall|region: Set<(int, int)>|
            #[trigger] flood_region(pre, region) && (in_grid(pre, nx, ny) ==> region.contains((nx, ny)))
                ==> opened_within(pre, post, region),
    ensures
        forall|region: Set<(int, int)>|
            #[trigger] flood_region(g0, region) && region.contains((x, y)) ==> opened_within(g0, post, region),
{
    assert forall|region: Set<(int, int)>|
        #[trigger] flood_region(g0, region) && region.contains((x, y)) implies opened_within(g0, post, region) by {
        lemma_flood_region_opens(g0, pre, region);
        lemma_only_opens_mines(g0, pre);
        if in_grid(pre, nx, ny) {
            assert(region.contains((nx, ny)));
        }
        assert(opened_within(pre, post, region));
        assert(opened_within(g0, pre, region));
        assert forall|a: int, b: int|
            #![trigger newly_opened(g0, post, a, b)]
            in_grid(g0, a, b) && newly_opened(g0, post, a, b) implies region.contains((a, b)) by {
            let _ = pre[b][a];
            if !newly_opened(g0, pre, a, b) {
                assert(newly_opened(pre, post, a, b));
            }
        }
    }
}

/// One step of the flood around the blank square `(x, y)`: after the
/// neighbour `(nx, ny)` (the `k`-th of the nine) was flooded, the facts that
/// the loop keeps extend to the first `k + 1` neighbours.
pub(crate) proof fn lemma_flood_step(
    g0: Seq<Seq<MineCell>>,
    pre: Seq<Seq<MineCell>>,
    post: Seq<Seq<MineCell>>,
    x: int,
    y: int,
    nx: int,
    ny: int,
    k: int,
)
    requires
        in_grid(g0, x, y),
        !g0[y][x].is_mine,
        counts_consistent(g0),
        g0[y][x].neighbor_mines == 0,
        only_opens(g0, pre),
        only_opens(pre, post),
        is_near(x, y, nx, ny),
        (ny - y + 1) * 3 + (nx - x + 1) == k,
        in_grid(pre, nx, ny) && pre[ny][nx].state == CellState::Closed ==> post[ny][nx].state
            == CellState::Opened,
        flood_complete(pre, post),
        forall|a: int, b: int|
            #![trigger post[b][a]]
            in_grid(pre, a, b) && newly_opened(pre, post, a, b) && !(a == nx && b == ny)
                ==> !post[b][a].is_mine,
        forall|a: int, b: int|
            #![trigger pre[b][a]]
            in_grid(g0, a, b) && is_near(x, y, a, b) && (b - y + 1) * 3 + (a - x + 1) < k
                ==> pre[b][a].state != CellState::Closed,
        forall|a: int, b: int|
            #![trigger newly_opened(g0, pre, a, b)]
            in_grid(g0, a, b) && newly_opened(g0, pre, a, b) && !(a == x && b == y)
                ==> surroundings_open(pre, a, b) && !pre[b][a].is_mine,
    ensures
        only_opens(g0, post),
        forall|a: int, b: int|
            #![trigger post[b][a]]
            in_grid(g0, a, b) && is_near(x, y, a, b) && (b - y + 1) * 3 + (a - x + 1) < k + 1
                ==> post[b][a].state != CellState::Closed,
        forall|a: int, b: int|
            #![trigger newly_opened(g0, post, a, b)]
            in_grid(g0, a, b) && newly_opened(g0, post, a, b) && !(a == x && b == y)
                ==> surroundings_open(post, a, b) && !post[b][a].is_mine,
{
    lemma_only_opens_trans(g0, pre, post);
    lemma_only_opens_mines(pre, post);
    lemma_only_opens_mines(g0, pre);
    assert(g0[y][x].neighbor_mines == mines_around(g0, x, y));
    assert forall|a: int, b: int|
        #![trigger post[b][a]]
        in_grid(g0, a, b) && is_near(x, y, a, b) && (b - y + 1) * 3 + (a - x + 1) < k + 1
            implies post[b][a].state != CellState::Closed by {
        let _ = pre[b][a];
        if (b - y + 1) * 3 + (a - x + 1) < k {
        } else {
            assert(a == nx && b == ny);
        }
    }
    assert forall|a: int, b: int|
        #![trigger newly_opened(g0, post, a, b)]
        in_grid(g0, a, b) && newly_opened(g0, post, a, b) && !(a == x && b == y)
            implies surroundings_open(post, a, b) && !post[b][a].is_mine by {
        let _ = pre[b][a];
        let _ = post[b][a];
        if newly_opened(g0, pre, a, b) {
            lemma_surroundings_persist(pre, post, a, b);
        } else {
            assert(newly_opened(pre, post, a, b));
            if a == nx && b == ny {
                assert(mine_at(g0, a, b) == 0);
            }
        }
    }
}

/// Among the first `k` squares of the 3x3 block around `(x, y)` (row by row)
/// there is a closed mine.
pub open spec fn closed_mine_near(g: Seq<Seq<MineCell>>, x: int, y: int, k: int) -> bool {
    exists|a: int, b: int|
        #![trigger g[b][a]]
        in_grid(g, a, b) && is_near(x, y, a, b) && (b - y + 1) * 3 + (a - x + 1) < k && g[b][a].state
            == CellState::Closed && g[b][a].is_mine
}

/// What a chord may do to the squares: open closed ones, and when it hit a
/// mine, show every mine.
pub open spec fn chord_states(g0: Seq<Seq<MineCell>>, g1: Seq<Seq<MineCell>>, hit: bool) -> bool {
    forall|a: int, b: int|
        #![trigger g1[b][a]]
        in_grid(g0, a, b) ==> {
            &&& (g1[b][a].state == g0[b][a].state || (g0[b][a].state == CellState::Closed
                && g1[b][a].state == CellState::Opened) || (hit && g1[b][a].is_mine && g1[b][a].state
                == CellState::Opened))
            &&& (hit && g1[b][a].is_mine ==> g1[b][a].state == CellState::Opened)
        }
}

/// What a chord around `(x, y)` has done once the first `k` squares around
/// it were handled; `boom` tells whether one of them was a closed mine.
pub(crate) open spec fn chord_progress(g0: Seq<Seq<MineCell>>, g: Seq<Seq<MineCell>>, x: int, y: int, k: int, boom: bool) -> bool {
    &&& same_layout(g0, g)
    &&& boom == closed_mine_near(g0, x, y, k)
    &&& chord_states(g0, g, boom)
    &&& (!boom ==> forall|a: int, b: int|
        #![trigger g[b][a]]
        in_grid(g0, a, b) && g0[b][a].is_mine ==> g[b][a].state == g0[b][a].state)
    &&& forall|a: int, b: int|
        #![trigger g[b][a]]
        in_grid(g0, a, b) && is_near(x, y, a, b) && (b - y + 1) * 3 + (a - x + 1) < k && g0[b][a].state
            == CellState::Closed ==> g[b][a].state != CellState::Closed
    &&& flood_complete(g0, g)
    &&& (!boom ==> opened_safe(g0, g))
    &&& forall|region: Set<(int, int)>|
        #[trigger] flood_region(g0, region) && holds_block(g0, x, y, region) ==> opened_safe_within(g0, g, region)
}

/// `region` holds every square of the 3x3 block around `(x, y)`.
pub open spec fn holds_block(g: Seq<Seq<MineCell>>, x: int, y: int, region: Set<(int, int)>) -> bool {
    forall|a: int, b: int|
        #![trigger region.contains((a, b))]
        in_grid(g, a, b) && is_near(x, y, a, b) ==> region.contains((a, b))
}

pub(crate) proof fn lemma_chord_start(g0: Seq<Seq<MineCell>>, x: int, y: int)
    ensures
        chord_progress(g0, g0, x, y, 0, false),
{
    lemma_only_opens_refl(g0);
    lemma_only_opens_layout(g0, g0);
}

/// The `k`-th square around `(x, y)` needs nothing: it is off the board or not closed.
pub(crate) proof fn lemma_chord_skip(g0: Seq<Seq<MineCell>>, g: Seq<Seq<MineCell>>, x: int, y: int, k: int, boom: bool)
    requires
        0 <= k < 9,
        chord_progress(g0, g, x, y, k, boom),
        ({
            let a = x + k % 3 - 1;
            let b = y + k / 3 - 1;
            in_grid(g0, a, b) ==> g[b][a].state != CellState::Closed
        }),
    ensures
        chord_progress(g0, g, x, y, k + 1, boom),
{
    let na = x + k % 3 - 1;
    let nb = y + k / 3 - 1;
    lemma_layout_facts(g0, g);
    assert forall|a: int, b: int|
        #![trigger g[b][a]]
        in_grid(g0, a, b) && is_near(x, y, a, b) && (b - y + 1) * 3 + (a - x + 1) < k + 1 && g0[b][a].state
            == CellState::Closed implies g[b][a].state != CellState::Closed by {
        if (b - y + 1) * 3 + (a - x + 1) == k {
            lemma_offset_index(x, y, a, b, k);
        }
    }
    if closed_mine_near(g0, x, y, k + 1) {
        let (a, b) = choose|a: int, b: int|
            #![trigger g0[b][a]]
            in_grid(g0, a, b) && is_near(x, y, a, b) && (b - y + 1) * 3 + (a - x + 1) < k + 1 && g0[b][a].state
                == CellState::Closed && g0[b][a].is_mine;
        if (b - y + 1) * 3 + (a - x + 1) == k {
            lemma_offset_index(x, y, a, b, k);
            if !boom {
                let _ = g[b][a];
                assert(false);
            }
        } else {
            assert(closed_mine_near(g0, x, y, k));
        }
    }
    if boom {
        let (a, b) = choose|a: int, b: int|
            #![trigger g0[b][a]]
            in_grid(g0, a, b) && is_near(x, y, a, b) && (b - y + 1) * 3 + (a - x + 1) < k && g0[b][a].state
                == CellState::Closed && g0[b][a].is_mine;
        assert(closed_mine_near(g0, x, y, k + 1));
    }
}

/// A closed mine is found around the chord while none was found before.
pub(crate) proof fn lemma_chord_no_boom_yet(
    g0: Seq<Seq<MineCell>>,
    g: Seq<Seq<MineCell>>,
    x: int,
    y: int,
    k: int,
    boom: bool,
    nx: int,
    ny: int,
)
    requires
        0 <= k < 9,
        chord_progress(g0, g, x, y, k, boom),
        nx == x + k % 3 - 1,
        ny == y + k / 3 - 1,
        in_grid(g0, nx, ny),
        g[ny][nx].state == CellState::Closed,
        g[ny][nx].is_mine,
    ensures
        !boom,
{
    lemma_layout_facts(g0, g);
    let _ = g0[ny][nx];
}

/// The `k`-th square around the chord is a closed mine: every mine is shown.
pub(crate) proof fn lemma_chord_mine(
    g0: Seq<Seq<MineCell>>,
    g: Seq<Seq<MineCell>>,
    g2: Seq<Seq<MineCell>>,
    x: int,
    y: int,
    k: int,
    nx: int,
    ny: int,
)
    requires
        0 <= k < 9,
        chord_progress(g0, g, x, y, k, false),
        nx == x + k % 3 - 1,
        ny == y + k / 3 - 1,
        in_grid(g0, nx, ny),
        g[ny][nx].state == CellState::Closed,
        g[ny][nx].is_mine,
        mines_revealed(g, g2),
    ensures
        chord_progress(g0, g2, x, y, k + 1, true),
{
    lemma_layout_facts(g0, g);
    lemma_mines_revealed_layout(g, g2);
    lemma_layout_trans(g0, g, g2);
    lemma_layout_facts(g0, g2);
    let _ = g0[ny][nx];
    assert(is_near(x, y, nx, ny));
    assert(closed_mine_near(g0, x, y, k + 1));
    assert forall|a: int, b: int|
        #![trigger g2[b][a]]
        in_grid(g0, a, b) implies {
            &&& (g2[b][a].state == g0[b][a].state || (g0[b][a].state == CellState::Closed
                && g2[b][a].state == CellState::Opened) || (true && g2[b][a].is_mine && g2[b][a].state
                == CellState::Opened))
            &&& (true && g2[b][a].is_mine ==> g2[b][a].state == CellState::Opened)
        } by {
        let _ = g[b][a];
    }
    assert forall|a: int, b: int|
        #![trigger g2[b][a]]
        in_grid(g0, a, b) && is_near(x, y, a, b) && (b - y + 1) * 3 + (a - x + 1) < k + 1 && g0[b][a].state
            == CellState::Closed implies g2[b][a].state != CellState::Closed by {
        let _ = g[b][a];
        if (b - y + 1) * 3 + (a - x + 1) == k {
            lemma_offset_index(x, y, a, b, k);
        }
    }
    assert forall|a: int, b: int|
        #![trigger newly_opened(g0, g2, a, b)]
        in_grid(g0, a, b) && newly_opened(g0, g2, a, b) implies surroundings_open(g2, a, b) by {
        let _ = g[b][a];
        let _ = g2[b][a];
        if newly_opened(g0, g, a, b) {
            lemma_surroundings_stay(g, g2, a, b);
        }
    }
    assert forall|region: Set<(int, int)>|
        #[trigger] flood_region(g0, region) && holds_block(g0, x, y, region) implies opened_safe_within(g0, g2, region) by {
        assert(opened_safe_within(g0, g, region));
        assert forall|a: int, b: int|
            #![trigger newly_opened(g0, g2, a, b)]
            in_grid(g0, a, b) && newly_opened(g0, g2, a, b) && !g2[b][a].is_mine implies region.contains((a, b)) by {
            let _ = g[b][a];
            assert(newly_opened(g0, g, a, b));
        }
    }
}

/// The `k`-th square around the chord is closed and safe: it floods.
pub(crate) proof fn lemma_chord_flood(
    g0: Seq<Seq<MineCell>>,
    g: Seq<Seq<MineCell>>,
    g2: Seq<Seq<MineCell>>,
    x: int,
    y: int,
    k: int,
    boom: bool,
    nx: int,
    ny: int,
)
    requires
        0 <= k < 9,
        chord_progress(g0, g, x, y, k, boom),
        nx == x + k % 3 - 1,
        ny == y + k / 3 - 1,
        in_grid(g0, nx, ny),
        g[ny][nx].state == CellState::Closed,
        !g[ny][nx].is_mine,
        only_opens(g, g2),
        g2[ny][nx].state == CellState::Opened,
        flood_complete(g, g2),
        forall|a: int, b: int|
            #![trigger g2[b][a]]
            in_grid(g, a, b) && newly_opened(g, g2, a, b) && !(a == nx && b == ny) ==> !g2[b][a].is_mine,
        forall|region: Set<(int, int)>|
            #[trigger] flood_region(g, region) && (in_grid(g, nx, ny) ==> region.contains((nx, ny)))
                ==> opened_within(g, g2, region),
    ensures
        chord_progress(g0, g2, x, y, k + 1, boom),
{
    lemma_layout_facts(g0, g);
    lemma_only_opens_layout(g, g2);
    lemma_layout_trans(g0, g, g2);
    lemma_layout_facts(g0, g2);
    assert forall|a: int, b: int|
        #![trigger g2[b][a]]
        in_grid(g0, a, b) implies {
            &&& (g2[b][a].state == g0[b][a].state || (g0[b][a].state == CellState::Closed
                && g2[b][a].state == CellState::Opened) || (boom && g2[b][a].is_mine && g2[b][a].state
                == CellState::Opened))
            &&& (boom && g2[b][a].is_mine ==> g2[b][a].state == CellState::Opened)
        } by {
        let _ = g[b][a];
    }
    if !boom {
        assert forall|a: int, b: int|
            #![trigger g2[b][a]]
            in_grid(g0, a, b) && g0[b][a].is_mine implies g2[b][a].state == g0[b][a].state by {
            let _ = g[b][a];
        }
        assert forall|a: int, b: int|
            #![trigger g2[b][a]]
            in_grid(g0, a, b) && newly_opened(g0, g2, a, b) implies !g2[b][a].is_mine by {
            let _ = g[b][a];
        }
    }
    assert forall|a: int, b: int|
        #![trigger g2[b][a]]
        in_grid(g0, a, b) && is_near(x, y, a, b) && (b - y + 1) * 3 + (a - x + 1) < k + 1 && g0[b][a].state
            == CellState::Closed implies g2[b][a].state != CellState::Closed by {
        let _ = g[b][a];
        if (b - y + 1) * 3 + (a - x + 1) == k {
            lemma_offset_index(x, y, a, b, k);
        }
    }
    assert forall|a: int, b: int|
        #![trigger newly_opened(g0, g2, a, b)]
        in_grid(g0, a, b) && newly_opened(g0, g2, a, b) implies surroundings_open(g2, a, b) by {
        let _ = g[b][a];
        let _ = g2[b][a];
        if newly_opened(g0, g, a, b) {
            lemma_surroundings_stay(g, g2, a, b);
        } else {
            assert(newly_opened(g, g2, a, b));
        }
    }
    assert forall|region: Set<(int, int)>|
        #[trigger] flood_region(g0, region) && holds_block(g0, x, y, region) implies opened_safe_within(g0, g2, region) by {
        assert(opened_safe_within(g0, g, region));
        assert forall|a: int, b: int|
            #![trigger g[b][a]]
            in_grid(g0, a, b) && g[b][a].state == CellState::Closed implies g0[b][a].state == CellState::Closed by {}
        lemma_flood_region_shrink(g0, g, region);
        assert(is_near(x, y, nx, ny));
        assert(region.contains((nx, ny)));
        assert(opened_within(g, g2, region));
        assert forall|a: int, b: int|
            #![trigger newly_opened(g0, g2, a, b)]
            in_grid(g0, a, b) && newly_opened(g0, g2, a, b) && !g2[b][a].is_mine implies region.contains((a, b)) by {
            let _ = g[b][a];
            if !newly_opened(g0, g, a, b) {
                assert(newly_opened(g, g2, a, b));
            }
        }
    }
}

/// After all nine squares: the chord's effect as its contract states it.
pub(crate) proof fn lemma_chord_done(g0: Seq<Seq<MineCell>>, g: Seq<Seq<MineCell>>, x: int, y: int, boom: bool)
    requires
        chord_progress(g0, g, x, y, 9, boom),
    ensures
        same_layout(g0, g),
        boom == closed_mine_near(g0, x, y, 9),
        chord_states(g0, g, boom),
        forall|a: int, b: int|
            #![trigger g[b][a]]
            in_grid(g0, a, b) && is_near(x, y, a, b) && g0[b][a].state == CellState::Closed ==> g[b][a].state
                != CellState::Closed,
        flood_complete(g0, g),
        !boom ==> opened_safe(g0, g),
        forall|region: Set<(int, int)>|
            #[trigger] flood_region(g0, region) && holds_block(g0, x, y, region) ==> opened_safe_within(g0, g, region),
        count_cells(g, is_flagged()) <= count_cells(g0, is_flagged()),
{
    assert forall|a: int, b: int|
        #![trigger g[b][a]]
        in_grid(g0, a, b) && is_near(x, y, a, b) && g0[b][a].state == CellState::Closed implies g[b][a].state
            != CellState::Closed by {
        assert((b - y + 1) * 3 + (a - x + 1) < 9);
    }
    assert forall|a: int, b: int|
        #![trigger g[b][a]]
        in_grid(g0, a, b) && g[b][a].state == CellState::Flagged implies g0[b][a].state == CellState::Flagged by {}
    lemma_flags_not_added_states(g0, g);
}

} // verus!

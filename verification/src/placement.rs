//! Where the mines go: the squares outside the first click's 3x3 block,
//! shuffled by a linear congruential generator, and the first of them taken.
use vstd::prelude::*;

use crate::grid::is_near;

verus! {

/// The squares of row `y` among its first `n` columns that lie outside the
/// 3x3 block around `(sx, sy)`, left to right.
pub open spec fn row_candidates(y: nat, n: nat, sx: int, sy: int) -> Seq<(usize, usize)>
    decreases n,
{
    if n == 0 {
        Seq::empty()
    } else {
        let rest = row_candidates(y, (n - 1) as nat, sx, sy);
        if is_near(sx, sy, n - 1, y as int) {
            rest
        } else {
            rest.push(((n - 1) as usize, y as usize))
        }
    }
}

/// Every square of a `w` by `h` board outside the 3x3 block around
/// `(sx, sy)`, row by row.
pub open spec fn candidates(w: nat, h: nat, sx: int, sy: int) -> Seq<(usize, usize)>
    decreases h,
{
    if h == 0 {
        Seq::empty()
    } else {
        candidates(w, (h - 1) as nat, sx, sy) + row_candidates((h - 1) as nat, w, sx, sy)
    }
}

/// One step of the generator.
pub open spec fn lcg_next(seed: u64) -> u64 {
    seed.wrapping_mul(1103515245).wrapping_add(12345)
}

/// `s` with the items at `i` and `j` exchanged.
pub open spec fn swap_at<T>(s: Seq<T>, i: int, j: int) -> Seq<T> {
    s.update(i, s[j]).update(j, s[i])
}

/// The first `i` steps of the shuffle of `s` from `seed`: the list so far and
/// the generator's state. Step `i` draws the next number and exchanges item
/// `i` with the item at that number modulo the length.
pub open spec fn shuffle_steps(s: Seq<(usize, usize)>, seed: u64, i: nat) -> (Seq<(usize, usize)>, u64)
    decreases i,
{
    if i == 0 {
        (s, seed)
    } else {
        let prev = shuffle_steps(s, seed, (i - 1) as nat);
        let next = lcg_next(prev.1);
        (swap_at(prev.0, i - 1, ((next as usize) % (s.len() as usize)) as int), next)
    }
}

/// `s` shuffled from `seed`.
pub open spec fn shuffled(s: Seq<(usize, usize)>, seed: u64) -> Seq<(usize, usize)> {
    shuffle_steps(s, seed, s.len()).0
}

/// The squares that get a mine when a `w` by `h` board with `mine_count`
/// mines is first clicked at `(sx, sy)` and the generator starts at `seed`.
pub open spec fn mine_sites(w: nat, h: nat, mine_count: nat, sx: int, sy: int, seed: u64) -> Seq<(usize, usize)> {
    let c = candidates(w, h, sx, sy);
    shuffled(c, seed).take(if mine_count <= c.len() { mine_count as int } else { c.len() as int })
}

/// A square outside the block of a board.
pub open spec fn is_candidate(w: nat, h: nat, sx: int, sy: int, p: (usize, usize)) -> bool {
    p.0 < w && p.1 < h && !is_near(sx, sy, p.0 as int, p.1 as int)
}

proof fn lemma_row_candidates(y: nat, n: nat, sx: int, sy: int)
    requires
        y <= usize::MAX,
        n <= usize::MAX + 1,
    ensures
        row_candidates(y, n, sx, sy).no_duplicates(),
        forall|p: (usize, usize)|
            #[trigger] row_candidates(y, n, sx, sy).contains(p) <==> (p.0 < n && p.1 == y && !is_near(
                sx,
                sy,
                p.0 as int,
                p.1 as int,
            )),
    decreases n,
{
    if n > 0 {
        let rest = row_candidates(y, (n - 1) as nat, sx, sy);
        lemma_row_candidates(y, (n - 1) as nat, sx, sy);
        let q = ((n - 1) as usize, y as usize);
        if !is_near(sx, sy, n - 1, y as int) {
            assert forall|p: (usize, usize)| #[trigger] rest.push(q).contains(p) <==> (p.0 < n && p.1 == y
                && !is_near(sx, sy, p.0 as int, p.1 as int)) by {
                if rest.push(q).contains(p) {
                    let k = choose|k: int| 0 <= k < rest.push(q).len() && rest.push(q)[k] == p;
                    if k < rest.len() {
                        assert(rest.contains(p));
                    }
                }
                if p.0 < n && p.1 == y && !is_near(sx, sy, p.0 as int, p.1 as int) {
                    if p.0 < n - 1 {
                        assert(rest.contains(p));
                        let k = choose|k: int| 0 <= k < rest.len() && rest[k] == p;
                        assert(rest.push(q)[k] == p);
                    } else {
                        assert(rest.push(q)[rest.len() as int] == p);
                    }
                }
            }
            assert forall|a: int, b: int|
                0 <= a < rest.push(q).len() && 0 <= b < rest.push(q).len() && a != b implies rest.push(
                q,
            )[a] != rest.push(q)[b] by {
                if a < rest.len() && b < rest.len() {
                } else if a < rest.len() {
                    assert(rest.contains(rest[a]));
                } else {
                    assert(rest.contains(rest[b]));
                }
            }
        }
    }
}

/// The candidates are exactly the squares outside the block, each once.
pub proof fn lemma_candidates(w: nat, h: nat, sx: int, sy: int)
    requires
        w <= usize::MAX,
        h <= usize::MAX + 1,
    ensures
        candidates(w, h, sx, sy).no_duplicates(),
        forall|p: (usize, usize)|
            #[trigger] candidates(w, h, sx, sy).contains(p) <==> is_candidate(w, h, sx, sy, p),
    decreases h,
{
    if h > 0 {
        let a = candidates(w, (h - 1) as nat, sx, sy);
        let r = row_candidates((h - 1) as nat, w, sx, sy);
        lemma_candidates(w, (h - 1) as nat, sx, sy);
        lemma_row_candidates((h - 1) as nat, w, sx, sy);
        assert forall|p: (usize, usize)| #[trigger] (a + r).contains(p) <==> is_candidate(w, h, sx, sy, p) by {
            if (a + r).contains(p) {
                let k = choose|k: int| 0 <= k < (a + r).len() && (a + r)[k] == p;
                if k < a.len() {
                    assert(a.contains(p));
                } else {
                    assert(r[k - a.len()] == p);
                    assert(r.contains(p));
                }
            }
            if is_candidate(w, h, sx, sy, p) {
                if p.1 < h - 1 {
                    assert(a.contains(p));
                    let k = choose|k: int| 0 <= k < a.len() && a[k] == p;
                    assert((a + r)[k] == p);
                } else {
                    assert(r.contains(p));
                    let k = choose|k: int| 0 <= k < r.len() && r[k] == p;
                    assert((a + r)[a.len() + k] == p);
                }
            }
        }
        assert forall|i: int, j: int|
            0 <= i < (a + r).len() && 0 <= j < (a + r).len() && i != j implies (a + r)[i] != (a + r)[j] by {
            if i < a.len() && j < a.len() {
            } else if i >= a.len() && j >= a.len() {
                assert((a + r)[i] == r[i - a.len()]);
                assert((a + r)[j] == r[j - a.len()]);
            } else if i < a.len() {
                assert(a.contains(a[i]));
                assert(r.contains(r[j - a.len()]));
            } else {
                assert(a.contains(a[j]));
                assert(r.contains(r[i - a.len()]));
            }
        }
    }
}

/// Exchanging two items keeps every item and keeps them distinct.
proof fn lemma_swap(s: Seq<(usize, usize)>, i: int, j: int)
    requires
        0 <= i < s.len(),
        0 <= j < s.len(),
        s.no_duplicates(),
    ensures
        swap_at(s, i, j).len() == s.len(),
        swap_at(s, i, j).no_duplicates(),
        forall|p: (usize, usize)| #[trigger] swap_at(s, i, j).contains(p) <==> s.contains(p),
{
    let t = swap_at(s, i, j);
    assert forall|k: int| 0 <= k < s.len() implies #[trigger] t[k] == s[if k == j { i } else if k == i {
        j
    } else {
        k
    }] by {}
    assert forall|p: (usize, usize)| #[trigger] t.contains(p) <==> s.contains(p) by {
        if t.contains(p) {
            let k = choose|k: int| 0 <= k < t.len() && t[k] == p;
            let m = if k == j { i } else if k == i { j } else { k };
            assert(s[m] == p);
        }
        if s.contains(p) {
            let m = choose|m: int| 0 <= m < s.len() && s[m] == p;
            let k = if m == j { i } else if m == i { j } else { m };
            assert(t[k] == p);
        }
    }
}

/// Every prefix of the shuffle holds the same items as `s`, each once.
pub proof fn lemma_shuffle_steps(s: Seq<(usize, usize)>, seed: u64, i: nat)
    requires
        s.no_duplicates(),
        s.len() <= usize::MAX,
        i <= s.len(),
    ensures
        shuffle_steps(s, seed, i).0.len() == s.len(),
        shuffle_steps(s, seed, i).0.no_duplicates(),
        forall|p: (usize, usize)| #[trigger] shuffle_steps(s, seed, i).0.contains(p) <==> s.contains(p),
    decreases i,
{
    if i > 0 {
        lemma_shuffle_steps(s, seed, (i - 1) as nat);
        let prev = shuffle_steps(s, seed, (i - 1) as nat);
        let next = lcg_next(prev.1);
        let j = ((next as usize) % (s.len() as usize)) as int;
        lemma_swap(prev.0, i - 1, j);
    }
}

/// The mine sites are distinct squares outside the first click's block,
/// as many as asked for or as there are such squares, whichever is fewer.
pub proof fn lemma_mine_sites(w: nat, h: nat, mine_count: nat, sx: int, sy: int, seed: u64)
    requires
        w <= usize::MAX,
        h <= usize::MAX,
        w * h <= usize::MAX,
    ensures
        mine_sites(w, h, mine_count, sx, sy, seed).no_duplicates(),
        mine_sites(w, h, mine_count, sx, sy, seed).len() == if mine_count <= candidates(w, h, sx, sy).len() {
            mine_count
        } else {
            candidates(w, h, sx, sy).len()
        },
        forall|p: (usize, usize)|
            #[trigger] mine_sites(w, h, mine_count, sx, sy, seed).contains(p) ==> is_candidate(w, h, sx, sy, p),
{
    let c = candidates(w, h, sx, sy);
    lemma_candidate_bounds(w, h, sx, sy);
    lemma_candidates(w, h, sx, sy);
    lemma_shuffle_steps(c, seed, c.len());
    let sh = shuffled(c, seed);
    let k = if mine_count <= c.len() { mine_count as int } else { c.len() as int };
    let m = sh.take(k);
    assert forall|p: (usize, usize)| #[trigger] m.contains(p) implies is_candidate(w, h, sx, sy, p) by {
        let i = choose|i: int| 0 <= i < m.len() && m[i] == p;
        assert(sh[i] == p);
        assert(sh.contains(p));
    }
    assert forall|a: int, b: int| 0 <= a < m.len() && 0 <= b < m.len() && a != b implies m[a] != m[b] by {
        assert(m[a] == sh[a] && m[b] == sh[b]);
    }
}

/// The list of candidates is not longer than the board has squares.
pub proof fn lemma_candidate_bounds(w: nat, h: nat, sx: int, sy: int)
    requires
        w * h <= usize::MAX,
    ensures
        candidates(w, h, sx, sy).len() <= w * h,
        w <= usize::MAX || h == 0,
    decreases h,
{
    if h > 0 {
        assert(w * (h - 1) + w == w * h) by (nonlinear_arith);
        assert(w * (h - 1) <= w * h) by (nonlinear_arith) requires h >= 1;
        assert(w <= w * h) by (nonlinear_arith) requires h >= 1;
        lemma_candidate_bounds(w, (h - 1) as nat, sx, sy);
        lemma_row_candidates_len((h - 1) as nat, w, sx, sy);
    }
}

proof fn lemma_row_candidates_len(y: nat, n: nat, sx: int, sy: int)
    ensures
        row_candidates(y, n, sx, sy).len() <= n,
    decreases n,
{
    if n > 0 {
        lemma_row_candidates_len(y, (n - 1) as nat, sx, sy);
    }
}

} // verus!

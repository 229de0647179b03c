//! The game itself: the board, the cursor, and the rules of play.
use vstd::prelude::*;

use std::time::Instant;

use crate::grid::{
    all_safe_opened, blank_board, count_cells, count_row, counts_consistent, flag_at, recounted, lemma_recount_settles,
    flags_around, flood_complete, flood_region, flood_region_from, has_shape, in_grid,
    is_closed, is_flagged, is_mine, is_near, lemma_count_cells_bound,
    lemma_count_cells_mono_prefix, lemma_count_cells_none, lemma_count_cells_none_if_free,
    lemma_count_cells_same, lemma_count_cells_take, lemma_count_cells_update,
    lemma_count_row_prefix, lemma_count_row_take, lemma_flags_not_added_states,
    lemma_flood_region_mixed, lemma_layout_facts, lemma_layout_trans, lemma_mines_placed_layout,
    lemma_only_opens_closed_count, lemma_only_opens_layout, lemma_only_opens_mines,
    lemma_only_opens_refl, lemma_same_marks_keep_shape_and_counts, lemma_same_mines, mine_at,
    mine_free, mines_around, mines_placed, mines_revealed, newly_opened, only_opens,
    opened_safe, opened_safe_within, opened_within, same_layout, set_cell, set_state,
    states_mines_shown, states_only_open, surroundings_open,
};
use crate::clock::{elapsed_since, instant_now, since_unix_epoch, system_now, whole_seconds};
use crate::placement::{
    candidates, is_candidate, lemma_candidate_bounds, lemma_candidates, lemma_mine_sites,
    mine_sites, row_candidates, shuffle_steps, shuffled,
};
use crate::flood::{
    chord_progress, chord_states, closed_mine_near, holds_block, lemma_chord_done,
    lemma_chord_flood, lemma_chord_mine, lemma_chord_no_boom_yet, lemma_chord_skip,
    lemma_chord_start, lemma_flood_step, lemma_offset_index, lemma_region_start,
    lemma_region_step,
};
use crate::leaderboard::Leaderboard;
use crate::text::{board_size_label, size_label};

verus! {

/// What a player currently sees of a cell.
#[derive(Clone, Copy, PartialEq, Eq, Structural, Debug)]
pub enum CellState {
    Closed,
    Opened,
    Flagged,
}

/// One square of the board.
pub struct MineCell {
    /// The square holds a mine.
    pub is_mine: bool,
    /// For a safe square: the number of mines in the 3x3 block around it.
    pub neighbor_mines: u8,
    /// What the player sees of it.
    pub state: CellState,
}

/// A sound that a move asks the front end to play, in the order asked.
#[derive(Clone, Copy, PartialEq, Eq, Structural, Debug)]
pub enum SoundEffect {
    Click,
    Boom,
    Win,
    Flag,
    Unflag,
}

/// A game of minesweeper in progress.
pub struct MinesweeperModel {
    /// The board, row by row: `grid[y][x]` is the square in column `x` of row `y`.
    pub grid: Vec<Vec<MineCell>>,
    /// The square under the cursor, as `(x, y)`.
    pub cursor: (usize, usize),
    /// A mine was opened.
    pub game_over: bool,
    /// Every safe square was opened.
    pub won: bool,
    /// The best times.
    pub leaderboard: Leaderboard,
    pub width: usize,
    pub height: usize,
    /// The number of mines the board is to hold.
    pub mine_count: usize,
    /// No square was opened yet, so no mine is buried yet.
    pub first_click: bool,
    /// When the first square was opened.
    pub start_time: Option<Instant>,
    /// Whole seconds since the first square was opened, as last read.
    pub elapsed_time: u64,
}

impl MinesweeperModel {
    /// The board as rows of squares.
    pub open spec fn cells(&self) -> Seq<Seq<MineCell>> {
        self.grid@.map_values(|r: Vec<MineCell>| r@)
    }

    /// The board has `height` rows of `width` squares, and their number fits a `usize`.
    pub open spec fn is_shaped(&self) -> bool {
        &&& has_shape(self.cells(), self.width as int, self.height as int)
        &&& self.width * self.height <= usize::MAX
    }

    /// The cursor points at a square whenever the board has any.
    pub open spec fn cursor_valid(&self) -> bool {
        self.width > 0 && self.height > 0 ==> self.cursor.0 < self.width && self.cursor.1
            < self.height
    }

    /// What every operation keeps.
    pub open spec fn wf(&self) -> bool {
        &&& self.is_shaped()
        &&& self.cursor_valid()
        &&& counts_consistent(self.cells())
        &&& (self.first_click ==> mine_free(self.cells()))
        &&& count_cells(self.cells(), is_flagged()) <= self.mine_count
    }

    /// `self` and `other` differ at most in their boards.
    pub open spec fn same_but_grid(&self, other: Self) -> bool {
        &&& self.cursor == other.cursor
        &&& self.game_over == other.game_over
        &&& self.won == other.won
        &&& self.leaderboard == other.leaderboard
        &&& self.width == other.width
        &&& self.height == other.height
        &&& self.mine_count == other.mine_count
        &&& self.first_click == other.first_click
        &&& self.start_time == other.start_time
        &&& self.elapsed_time == other.elapsed_time
    }

    /// Opens `(x, y)` when it is a closed square, and when it turns out blank
    /// floods outward through every closed square around it.
    #[verifier::spinoff_prover]
    #[verifier::rlimit(40)]
    fn recursive_open(&mut self, x: usize, y: usize)
        requires
            old(self).is_shaped(),
            counts_consistent(old(self).cells()),
        ensures
            final(self).same_but_grid(*old(self)),
            only_opens(old(self).cells(), final(self).cells()),
            in_grid(old(self).cells(), x as int, y as int) && old(self).cells()[y as int][x as int].state
                == CellState::Closed ==> final(self).cells()[y as int][x as int].state
                == CellState::Opened,
            flood_complete(old(self).cells(), final(self).cells()),
            forall|a: int, b: int|
                #![trigger final(self).cells()[b][a]]
                in_grid(old(self).cells(), a, b) && newly_opened(old(self).cells(), final(self).cells(), a, b)
                    && !(a == x && b == y) ==> !final(self).cells()[b][a].is_mine,
            forall|region: Set<(int, int)>|
                #[trigger] flood_region(old(self).cells(), region) && (in_grid(old(self).cells(), x as int, y as int)
                    ==> region.contains((x as int, y as int))) ==> opened_within(old(self).cells(), final(self).cells(), region),
        decreases count_cells(old(self).cells(), is_closed()),
    {
        let ghost g0 = self.cells();
        if x >= self.width || y >= self.height {
            return;
        }
        if self.grid[y][x].state != CellState::Closed {
            return;
        }
        self.grid[y][x].state = CellState::Opened;
        let ghost g1 = self.cells();
        proof {
            assert(only_opens(g0, g1));
            lemma_only_opens_mines(g0, g1);
            assert(in_grid(g0, x as int, y as int) && newly_opened(g0, g1, x as int, y as int));
            lemma_only_opens_closed_count(g0, g1);
            assert(g1 =~~= set_state(g0, x as int, y as int, CellState::Opened));
            lemma_region_start(g0, g1, x as int, y as int);
        }
        if self.grid[y][x].neighbor_mines == 0 && !self.grid[y][x].is_mine {
            let mut k: usize = 0;
            while k < 9
                invariant
                    k <= 9,
                    g0 == old(self).cells(),
                    x < self.width,
                    y < self.height,
                    self.same_but_grid(*old(self)),
                    self.is_shaped(),
                    counts_consistent(self.cells()),
                    counts_consistent(g0),
                    in_grid(g0, x as int, y as int),
                    g0[y as int][x as int].state == CellState::Closed,
                    g0[y as int][x as int].neighbor_mines == 0,
                    !g0[y as int][x as int].is_mine,
                    only_opens(g0, self.cells()),
                    self.cells()[y as int][x as int].state == CellState::Opened,
                    count_cells(self.cells(), is_closed()) < count_cells(g0, is_closed()),
                    forall|a: int, b: int|
                        #![trigger self.cells()[b][a]]
                        in_grid(g0, a, b) && is_near(x as int, y as int, a, b) && (b - y + 1) * 3 + (a
                            - x + 1) < k ==> self.cells()[b][a].state != CellState::Closed,
                    forall|a: int, b: int|
                        #![trigger newly_opened(g0, self.cells(), a, b)]
                        in_grid(g0, a, b) && newly_opened(g0, self.cells(), a, b) && !(a == x && b
                            == y) ==> surroundings_open(self.cells(), a, b) && !self.cells()[b][a].is_mine,
                    forall|region: Set<(int, int)>|
                        #[trigger] flood_region(g0, region) && region.contains((x as int, y as int))
                            ==> opened_within(g0, self.cells(), region),
                decreases 9 - k,
            {
                let dy = k / 3;
                let dx = k % 3;
                if (dx > 0 || x > 0) && (dy > 0 || y > 0) {
                    let nx = if dx == 0 { x - 1 } else { x + (dx - 1) };
                    let ny = if dy == 0 { y - 1 } else { y + (dy - 1) };
                    let ghost pre = self.cells();
                    self.recursive_open(nx, ny);
                    let ghost post = self.cells();
                    proof {
                        lemma_flood_step(g0, pre, post, x as int, y as int, nx as int, ny as int, k as int);
                        lemma_only_opens_closed_count(pre, post);
                        lemma_region_step(g0, pre, post, x as int, y as int, nx as int, ny as int);
                    }
                } else {
                    proof {
                        let g = self.cells();
                        assert forall|a: int, b: int|
                            #![trigger g[b][a]]
                            in_grid(g0, a, b) && is_near(x as int, y as int, a, b) && (b - y + 1) * 3 + (
                            a - x + 1) < k + 1 implies g[b][a].state != CellState::Closed by {
                            if (b - y + 1) * 3 + (a - x + 1) == k {
                                lemma_offset_index(x as int, y as int, a, b, k as int);
                            }
                        }
                    }
                }
                k = k + 1;
            }
            proof {
                let g = self.cells();
                assert(surroundings_open(g, x as int, y as int));
                assert forall|a: int, b: int|
                    #![trigger newly_opened(g0, g, a, b)]
                    in_grid(g0, a, b) && newly_opened(g0, g, a, b) implies surroundings_open(g, a, b) by {
                }
            }
        } else {
            proof {
                assert forall|a: int, b: int|
                    #![trigger newly_opened(g0, g1, a, b)]
                    in_grid(g0, a, b) && newly_opened(g0, g1, a, b) implies surroundings_open(g1, a, b) by {
                    if !(a == x && b == y) {
                        let _ = g1[b][a];
                    }
                }
            }
        }
    }

    /// The number of flags on the board.
    pub fn flags_count(&self) -> (n: usize)
        requires
            self.is_shaped(),
        ensures
            n == count_cells(self.cells(), is_flagged()),
    {
        let ghost g = self.cells();
        proof {
            lemma_count_cells_bound(g, self.width as int, self.height as int, is_flagged());
        }
        let mut n: usize = 0;
        let mut y: usize = 0;
        while y < self.height
            invariant
                self.is_shaped(),
                g == self.cells(),
                y <= self.height,
                n == count_cells(g.take(y as int), is_flagged()),
                count_cells(g, is_flagged()) <= self.width * self.height,
            decreases self.height - y,
        {
            let mut x: usize = 0;
            proof {
                lemma_count_cells_take(g, y as int, is_flagged());
                lemma_count_cells_mono_prefix(g, y as int + 1, is_flagged());
                assert(g[y as int].len() == self.width);
                assert(g[y as int].take(0) =~= Seq::<MineCell>::empty());
            }
            while x < self.width
                invariant
                    self.is_shaped(),
                    g == self.cells(),
                    y < self.height,
                    x <= self.width,
                    g[y as int].len() == self.width,
                    n == count_cells(g.take(y as int), is_flagged()) + count_row(
                        g[y as int].take(x as int),
                        is_flagged(),
                    ),
                    count_cells(g.take(y as int), is_flagged()) + count_row(g[y as int], is_flagged())
                        <= count_cells(g, is_flagged()),
                    count_cells(g, is_flagged()) <= self.width * self.height,
                decreases self.width - x,
            {
                proof {
                    lemma_count_row_take(g[y as int], x as int, is_flagged());
                    lemma_count_row_prefix(g[y as int], x as int + 1, is_flagged());
                }
                if self.grid[y][x].state == CellState::Flagged {
                    n = n + 1;
                }
                x = x + 1;
            }
            assert(g[y as int].take(x as int) =~= g[y as int]);
            y = y + 1;
        }
        assert(g.take(y as int) =~= g);
        n
    }

    /// Plants a flag on the closed square under the cursor while fewer flags
    /// than mines stand, or lifts the flag that stands there.
    pub fn toggle_flag(&mut self) -> (sounds: Vec<SoundEffect>)
        requires
            old(self).wf(),
            old(self).width > 0,
            old(self).height > 0,
        ensures
            final(self).wf(),
            final(self).same_but_grid(*old(self)),
            ({
                let g = old(self).cells();
                let (x, y) = (old(self).cursor.0 as int, old(self).cursor.1 as int);
                let st = g[y][x].state;
                if st == CellState::Closed && count_cells(g, is_flagged()) < old(self).mine_count {
                    final(self).cells() == set_state(g, x, y, CellState::Flagged) && sounds@ == seq![
                        SoundEffect::Flag,
                    ]
                } else if st == CellState::Flagged {
                    final(self).cells() == set_state(g, x, y, CellState::Closed) && sounds@ == seq![
                        SoundEffect::Unflag,
                    ]
                } else {
                    final(self).cells() == g && sounds@ == Seq::<SoundEffect>::empty()
                }
            }),
    {
        let ghost g = self.cells();
        let current_flags = self.flags_count();
        let (x, y) = self.cursor;
        let mut sounds: Vec<SoundEffect> = Vec::new();
        assert(g[y as int].len() == self.width);
        match self.grid[y][x].state {
            CellState::Closed => {
                if current_flags < self.mine_count {
                    self.grid[y][x].state = CellState::Flagged;
                    sounds.push(SoundEffect::Flag);
                    proof {
                        assert(self.cells() =~= set_state(g, x as int, y as int, CellState::Flagged));
                        lemma_count_cells_update(g, x as int, y as int, self.cells()[y as int][x as int], is_flagged());
                    }
                }
            },
            CellState::Flagged => {
                self.grid[y][x].state = CellState::Closed;
                sounds.push(SoundEffect::Unflag);
                proof {
                    assert(self.cells() =~= set_state(g, x as int, y as int, CellState::Closed));
                    lemma_count_cells_update(g, x as int, y as int, self.cells()[y as int][x as int], is_flagged());
                }
            },
            CellState::Opened => {},
        }
        proof {
            lemma_same_marks_keep_shape_and_counts(g, self.cells(), self.width as int, self.height as int);
        }
        sounds
    }

    /// Moves the cursor by `(dx, dy)` when the target square is on the board.
    pub fn move_cursor(&mut self, dx: isize, dy: isize)
        ensures
            old(self).wf() ==> final(self).wf(),
            final(self).grid == old(self).grid,
            ({
                let nx = old(self).cursor.0 + dx;
                let ny = old(self).cursor.1 + dy;
                if 0 <= nx < old(self).width && 0 <= ny < old(self).height {
                    final(self).cursor == (nx as usize, ny as usize)
                } else {
                    final(self).cursor == old(self).cursor
                }
            }),
            final(self).game_over == old(self).game_over,
            final(self).won == old(self).won,
            final(self).leaderboard == old(self).leaderboard,
            final(self).width == old(self).width,
            final(self).height == old(self).height,
            final(self).mine_count == old(self).mine_count,
            final(self).first_click == old(self).first_click,
            final(self).start_time == old(self).start_time,
            final(self).elapsed_time == old(self).elapsed_time,
    {
        let nx: i128 = self.cursor.0 as i128 + dx as i128;
        let ny: i128 = self.cursor.1 as i128 + dy as i128;
        if nx >= 0 && nx < self.width as i128 && ny >= 0 && ny < self.height as i128 {
            self.cursor = (nx as usize, ny as usize);
        }
    }

    /// Brings `elapsed_time` to `seconds`, the time since the first move,
    /// while the game runs; a finished or unstarted game keeps its time.
    pub fn record_elapsed(&mut self, seconds: u64)
        ensures
            final(self).grid == old(self).grid,
            final(self).cursor == old(self).cursor,
            final(self).game_over == old(self).game_over,
            final(self).won == old(self).won,
            final(self).leaderboard == old(self).leaderboard,
            final(self).width == old(self).width,
            final(self).height == old(self).height,
            final(self).mine_count == old(self).mine_count,
            final(self).first_click == old(self).first_click,
            final(self).start_time == old(self).start_time,
            final(self).elapsed_time == if old(self).start_time.is_some() && !old(self).game_over
                && !old(self).won {
                seconds
            } else {
                old(self).elapsed_time
            },
    {
        if self.start_time.is_some() && !self.game_over && !self.won {
            self.elapsed_time = seconds;
        }
    }

    /// Reads the clock into `elapsed_time` while the game runs.
    pub fn update_timer(&mut self)
        ensures
            final(self).grid == old(self).grid,
            final(self).cursor == old(self).cursor,
            final(self).game_over == old(self).game_over,
            final(self).won == old(self).won,
            final(self).leaderboard == old(self).leaderboard,
            final(self).width == old(self).width,
            final(self).height == old(self).height,
            final(self).mine_count == old(self).mine_count,
            final(self).first_click == old(self).first_click,
            final(self).start_time == old(self).start_time,
            old(self).start_time.is_none() || old(self).game_over || old(self).won
                ==> final(self).elapsed_time == old(self).elapsed_time,
    {
        let reading = match &self.start_time {
            Some(start) => {
                if !self.game_over && !self.won {
                    let d = elapsed_since(start);
                    Some(whole_seconds(&d))
                } else {
                    None
                }
            },
            None => None,
        };
        if let Some(seconds) = reading {
            self.record_elapsed(seconds);
        }
    }

    /// A fresh game on a board of `width` columns and `height` rows that will
    /// hold `mine_count` mines, with the best times `leaderboard`.
    pub fn new(width: usize, height: usize, mine_count: usize, leaderboard: Leaderboard) -> (m: Self)
        requires
            width * height <= usize::MAX,
        ensures
            m.wf(),
            m.width == width,
            m.height == height,
            m.mine_count == mine_count,
            m.leaderboard == leaderboard,
            blank_board(m.cells()),
            m.cursor == (0usize, 0usize),
            !m.game_over,
            !m.won,
            m.first_click,
            m.start_time.is_none(),
            m.elapsed_time == 0,
    {
        let mut grid: Vec<Vec<MineCell>> = Vec::new();
        let mut y: usize = 0;
        while y < height
            invariant
                y <= height,
                grid@.len() == y,
                forall|j: int| 0 <= j < y ==> #[trigger] grid@[j]@.len() == width,
                forall|i: int, j: int|
                    #![trigger grid@[j]@[i]]
                    0 <= j < y && 0 <= i < width ==> grid@[j]@[i] == (MineCell {
                        is_mine: false,
                        neighbor_mines: 0,
                        state: CellState::Closed,
                    }),
            decreases height - y,
        {
            let mut row: Vec<MineCell> = Vec::new();
            let mut x: usize = 0;
            while x < width
                invariant
                    x <= width,
                    row@.len() == x,
                    forall|i: int|
                        #![trigger row@[i]]
                        0 <= i < x ==> row@[i] == (MineCell {
                            is_mine: false,
                            neighbor_mines: 0,
                            state: CellState::Closed,
                        }),
                decreases width - x,
            {
                row.push(MineCell { is_mine: false, neighbor_mines: 0, state: CellState::Closed });
                x = x + 1;
            }
            grid.push(row);
            y = y + 1;
        }
        let m = MinesweeperModel {
            grid,
            cursor: (0, 0),
            game_over: false,
            won: false,
            leaderboard,
            width,
            height,
            mine_count,
            first_click: true,
            start_time: None,
            elapsed_time: 0,
        };
        proof {
            let g = m.cells();
            assert forall|x: int, y: int| #![trigger g[y][x]] in_grid(g, x, y) implies g[y][x] == (MineCell {
                is_mine: false,
                neighbor_mines: 0,
                state: CellState::Closed,
            }) by {
                assert(g[y] == grid@[y]@);
            }
            assert(has_shape(g, width as int, height as int)) by {
                assert forall|j: int| 0 <= j < height implies #[trigger] g[j].len() == width by {
                    assert(g[j] == grid@[j]@);
                }
            }
            assert forall|x: int, y: int| #[trigger] mine_at(g, x, y) == 0 by {
                if in_grid(g, x, y) {
                    let _ = g[y][x];
                }
            }
            assert forall|x: int, y: int| in_grid(g, x, y) implies !#[trigger] is_flagged()(g[y][x]) by {
                let _ = g[y][x];
            }
            lemma_count_cells_none(g, is_flagged());
        }
        m
    }

    /// Starts a new game on a board of the same size and mine count, with the
    /// best times `leaderboard`.
    pub fn reset(&mut self, leaderboard: Leaderboard)
        requires
            old(self).width * old(self).height <= usize::MAX,
        ensures
            final(self).wf(),
            final(self).width == old(self).width,
            final(self).height == old(self).height,
            final(self).mine_count == old(self).mine_count,
            final(self).leaderboard == leaderboard,
            blank_board(final(self).cells()),
            final(self).cursor == (0usize, 0usize),
            !final(self).game_over,
            !final(self).won,
            final(self).first_click,
            final(self).start_time.is_none(),
            final(self).elapsed_time == 0,
    {
        let new_game = Self::new(self.width, self.height, self.mine_count, leaderboard);
        *self = new_game;
    }

    /// Shows every mine of the board.
    fn open_all_mines(&mut self)
        requires
            old(self).is_shaped(),
        ensures
            final(self).same_but_grid(*old(self)),
            mines_revealed(old(self).cells(), final(self).cells()),
    {
        let ghost g0 = self.cells();
        let mut y: usize = 0;
        while y < self.height
            invariant
                y <= self.height,
                self.same_but_grid(*old(self)),
                g0 == old(self).cells(),
                has_shape(g0, self.width as int, self.height as int),
                self.cells().len() == g0.len(),
                forall|j: int| 0 <= j < g0.len() ==> #[trigger] self.cells()[j].len() == g0[j].len(),
                forall|i: int, j: int|
                    #![trigger self.cells()[j][i]]
                    in_grid(g0, i, j) ==> {
                        &&& self.cells()[j][i].is_mine == g0[j][i].is_mine
                        &&& self.cells()[j][i].neighbor_mines == g0[j][i].neighbor_mines
                        &&& self.cells()[j][i].state == if g0[j][i].is_mine && j < y {
                            CellState::Opened
                        } else {
                            g0[j][i].state
                        }
                    },
            decreases self.height - y,
        {
            let mut x: usize = 0;
            assert(g0[y as int].len() == self.width);
            while x < self.width
                invariant
                    y < self.height,
                    x <= self.width,
                    self.same_but_grid(*old(self)),
                    g0 == old(self).cells(),
                    has_shape(g0, self.width as int, self.height as int),
                    g0[y as int].len() == self.width,
                    self.cells()[y as int].len() == self.width,
                    self.cells().len() == g0.len(),
                    forall|j: int| 0 <= j < g0.len() ==> #[trigger] self.cells()[j].len() == g0[j].len(),
                    forall|i: int, j: int|
                        #![trigger self.cells()[j][i]]
                        in_grid(g0, i, j) ==> {
                            &&& self.cells()[j][i].is_mine == g0[j][i].is_mine
                            &&& self.cells()[j][i].neighbor_mines == g0[j][i].neighbor_mines
                            &&& self.cells()[j][i].state == if g0[j][i].is_mine && (j < y || (j == y
                                && i < x)) {
                                CellState::Opened
                            } else {
                                g0[j][i].state
                            }
                        },
                decreases self.width - x,
            {
                if self.grid[y][x].is_mine {
                    let ghost before = self.cells();
                    self.grid[y][x].state = CellState::Opened;
                    assert(self.cells() =~= set_state(before, x as int, y as int, CellState::Opened));
                }
                x = x + 1;
            }
            y = y + 1;
        }
    }

    /// `after` is this game once checked for a win: `newly_won` tells whether
    /// every safe square is open in a game not yet won, which then becomes
    /// won and has its time entered in the best times; nothing else changes.
    pub open spec fn win_checked(self, after: Self, newly_won: bool) -> bool {
        &&& after.grid == self.grid
        &&& after.cursor == self.cursor
        &&& after.game_over == self.game_over
        &&& after.width == self.width
        &&& after.height == self.height
        &&& after.mine_count == self.mine_count
        &&& after.first_click == self.first_click
        &&& after.start_time == self.start_time
        &&& after.elapsed_time == self.elapsed_time
        &&& newly_won == (!self.won && all_safe_opened(self.cells()))
        &&& after.won == (self.won || newly_won)
        &&& (!newly_won ==> after.leaderboard == self.leaderboard)
        &&& (newly_won ==> self.leaderboard.won_entry(
            after.leaderboard,
            self.elapsed_time,
            size_label(self.width as nat, self.height as nat),
        ))
    }

    /// Checking for a win twice in a row changes nothing the second time: a
    /// won game enters its time in the best times once.
    pub proof fn lemma_win_checked_once(m0: Self, m1: Self, m2: Self, first: bool, second: bool)
        requires
            m0.win_checked(m1, first),
            m1.win_checked(m2, second),
        ensures
            !second,
            m2 == m1,
    {
    }

    /// Declares the game won once every safe square is open, and enters the
    /// time in the best times. Tells whether the game was won just now.
    pub fn check_win(&mut self) -> (newly_won: bool)
        requires
            old(self).is_shaped(),
        ensures
            old(self).win_checked(*final(self), newly_won),
    {
        let all_safe_opened = self.safe_squares_opened();
        if all_safe_opened && !self.won {
            self.won = true;
            let diff_str = board_size_label(self.width, self.height);
            self.leaderboard.add_score(self.elapsed_time, diff_str);
            true
        } else {
            false
        }
    }

    /// Whether every safe square is open.
    fn safe_squares_opened(&self) -> (all: bool)
        requires
            self.is_shaped(),
        ensures
            all == all_safe_opened(self.cells()),
    {
        let ghost g = self.cells();
        let mut y: usize = 0;
        while y < self.height
            invariant
                y <= self.height,
                self.is_shaped(),
                g == self.cells(),
                forall|i: int, j: int|
                    #![trigger g[j][i]]
                    in_grid(g, i, j) && j < y ==> g[j][i].is_mine || g[j][i].state == CellState::Opened,
            decreases self.height - y,
        {
            let mut x: usize = 0;
            assert(g[y as int].len() == self.width);
            while x < self.width
                invariant
                    y < self.height,
                    x <= self.width,
                    self.is_shaped(),
                    g == self.cells(),
                    g[y as int].len() == self.width,
                    forall|i: int, j: int|
                        #![trigger g[j][i]]
                        in_grid(g, i, j) && (j < y || (j == y && i < x)) ==> g[j][i].is_mine
                            || g[j][i].state == CellState::Opened,
                decreases self.width - x,
            {
                if !(self.grid[y][x].is_mine || self.grid[y][x].state == CellState::Opened) {
                    assert(!(g[y as int][x as int].is_mine || g[y as int][x as int].state == CellState::Opened));
                    return false;
                }
                x = x + 1;
            }
            y = y + 1;
        }
        true
    }

    /// The number of mines in the 3x3 block around the square `(x, y)`.
    fn mines_near(&self, x: usize, y: usize) -> (n: u8)
        requires
            self.is_shaped(),
            x < self.width,
            y < self.height,
        ensures
            n == mines_around(self.cells(), x as int, y as int),
    {
        let mut n: u8 = 0;
        let mut k: usize = 0;
        while k < 9
            invariant
                self.is_shaped(),
                x < self.width,
                y < self.height,
                k <= 9,
                n <= k,
                n == partial_mines(self.cells(), x as int, y as int, k as int),
            decreases 9 - k,
        {
            let dx = k % 3;
            let dy = k / 3;
            let here = match (step(x, dx, self.width), step(y, dy, self.height)) {
                (Some(nx), Some(ny)) => {
                    assert(self.cells()[ny as int].len() == self.width);
                    if self.grid[ny][nx].is_mine {
                        1u8
                    } else {
                        0u8
                    }
                },
                _ => 0u8,
            };
            assert(here == mine_at(self.cells(), x + dx - 1, y + dy - 1));
            n = n + here;
            k = k + 1;
        }
        assert(partial_mines(self.cells(), x as int, y as int, 9) == mines_around(self.cells(), x as int, y as int)) by {
            reveal_with_fuel(partial_mines, 10);
        }
        n
    }

    /// Counting the mines twice in a row changes nothing the second time:
    /// the board and every other field come out of the second count as they
    /// went in.
    pub proof fn lemma_recount_twice(m0: Self, m1: Self, m2: Self)
        requires
            m1.same_but_grid(m0),
            recounted(m0.cells(), m1.cells()),
            m2.same_but_grid(m1),
            recounted(m1.cells(), m2.cells()),
        ensures
            m2.cells() == m1.cells(),
            m2.same_but_grid(m1),
    {
        lemma_recount_settles(m0.cells(), m1.cells(), m2.cells());
    }

    /// Writes into every safe square the number of mines around it.
    pub fn update_neighbor_counts(&mut self)
        requires
            old(self).is_shaped(),
        ensures
            final(self).same_but_grid(*old(self)),
            recounted(old(self).cells(), final(self).cells()),
            counts_consistent(final(self).cells()),
    {
        let ghost g0 = self.cells();
        let mut y: usize = 0;
        while y < self.height
            invariant
                y <= self.height,
                self.same_but_grid(*old(self)),
                g0 == old(self).cells(),
                has_shape(g0, self.width as int, self.height as int),
                self.is_shaped(),
                self.cells().len() == g0.len(),
                forall|j: int| 0 <= j < g0.len() ==> #[trigger] self.cells()[j].len() == g0[j].len(),
                forall|i: int, j: int|
                    #![trigger self.cells()[j][i]]
                    in_grid(g0, i, j) ==> {
                        &&& self.cells()[j][i].is_mine == g0[j][i].is_mine
                        &&& self.cells()[j][i].state == g0[j][i].state
                        &&& self.cells()[j][i].neighbor_mines == if !g0[j][i].is_mine && j < y {
                            mines_around(g0, i, j)
                        } else {
                            g0[j][i].neighbor_mines as int
                        }
                    },
            decreases self.height - y,
        {
            let mut x: usize = 0;
            assert(g0[y as int].len() == self.width);
            while x < self.width
                invariant
                    y < self.height,
                    x <= self.width,
                    self.same_but_grid(*old(self)),
                    g0 == old(self).cells(),
                    has_shape(g0, self.width as int, self.height as int),
                    self.is_shaped(),
                    g0[y as int].len() == self.width,
                    self.cells()[y as int].len() == self.width,
                    self.cells().len() == g0.len(),
                    forall|j: int| 0 <= j < g0.len() ==> #[trigger] self.cells()[j].len() == g0[j].len(),
                    forall|i: int, j: int|
                        #![trigger self.cells()[j][i]]
                        in_grid(g0, i, j) ==> {
                            &&& self.cells()[j][i].is_mine == g0[j][i].is_mine
                            &&& self.cells()[j][i].state == g0[j][i].state
                            &&& self.cells()[j][i].neighbor_mines == if !g0[j][i].is_mine && (j < y || (j
                                == y && i < x)) {
                                mines_around(g0, i, j)
                            } else {
                                g0[j][i].neighbor_mines as int
                            }
                        },
                decreases self.width - x,
            {
                if !self.grid[y][x].is_mine {
                    let count = self.mines_near(x, y);
                    proof {
                        lemma_same_mines(g0, self.cells());
                    }
                    let ghost before = self.cells();
                    self.grid[y][x].neighbor_mines = count;
                    assert(self.cells() =~= set_cell(before, x as int, y as int, MineCell { neighbor_mines: count, ..before[y as int][x as int] }));
                }
                x = x + 1;
            }
            y = y + 1;
        }
        proof {
            let g = self.cells();
            lemma_same_mines(g0, g);
            assert forall|x: int, y: int|
                #![trigger g[y][x]]
                in_grid(g, x, y) && !g[y][x].is_mine implies g[y][x].neighbor_mines == mines_around(g, x, y) by {
                assert(g[y].len() == g0[y].len());
            }
        }
    }

    /// The squares outside the 3x3 block around `(safe_x, safe_y)`, row by row.
    fn candidate_squares(&self, safe_x: usize, safe_y: usize) -> (pos: Vec<(usize, usize)>)
        requires
            self.is_shaped(),
        ensures
            pos@ == candidates(self.width as nat, self.height as nat, safe_x as int, safe_y as int),
    {
        let mut pos: Vec<(usize, usize)> = Vec::new();
        let mut y: usize = 0;
        while y < self.height
            invariant
                y <= self.height,
                pos@ == candidates(self.width as nat, y as nat, safe_x as int, safe_y as int),
            decreases self.height - y,
        {
            let mut x: usize = 0;
            assert(row_candidates(y as nat, 0, safe_x as int, safe_y as int) =~= Seq::<(usize, usize)>::empty());
            assert(pos@ =~= candidates(self.width as nat, y as nat, safe_x as int, safe_y as int) + row_candidates(y as nat, 0, safe_x as int, safe_y as int));
            while x < self.width
                invariant
                    y < self.height,
                    x <= self.width,
                    pos@ == candidates(self.width as nat, y as nat, safe_x as int, safe_y as int)
                        + row_candidates(y as nat, x as nat, safe_x as int, safe_y as int),
                decreases self.width - x,
            {
                let is_safe_zone = close_to(x, safe_x) && close_to(y, safe_y);
                if !is_safe_zone {
                    pos.push((x, y));
                }
                assert(pos@ =~= candidates(self.width as nat, y as nat, safe_x as int, safe_y as int)
                    + row_candidates(y as nat, (x + 1) as nat, safe_x as int, safe_y as int));
                x = x + 1;
            }
            y = y + 1;
        }
        pos
    }

    /// Buries the mines of a game first clicked at `(safe_x, safe_y)`, with
    /// the generator started at `seed`: the first `mine_count` squares of the
    /// shuffled squares outside the 3x3 block around the click get a mine,
    /// and every safe square gets its number.
    pub fn place_mines(&mut self, safe_x: usize, safe_y: usize, seed: u64)
        requires
            old(self).is_shaped(),
        ensures
            final(self).same_but_grid(*old(self)),
            final(self).is_shaped(),
            forall|x: int, y: int|
                #![trigger final(self).cells()[y][x]]
                in_grid(old(self).cells(), x, y) ==> final(self).cells()[y][x].state == old(self).cells()[y][x].state,
            mines_placed(
                old(self).cells(),
                final(self).cells(),
                mine_sites(
                    old(self).width as nat,
                    old(self).height as nat,
                    old(self).mine_count as nat,
                    safe_x as int,
                    safe_y as int,
                    seed,
                ),
            ),
            mine_free(old(self).cells()) ==> count_cells(final(self).cells(), is_mine()) == mine_sites(
                old(self).width as nat,
                old(self).height as nat,
                old(self).mine_count as nat,
                safe_x as int,
                safe_y as int,
                seed,
            ).len(),
    {
        let ghost g0 = self.cells();
        let ghost sites = mine_sites(self.width as nat, self.height as nat, self.mine_count as nat, safe_x as int, safe_y as int, seed);
        let mut pos = self.candidate_squares(safe_x, safe_y);
        proof {
            lemma_candidate_bounds(self.width as nat, self.height as nat, safe_x as int, safe_y as int);
            lemma_mine_sites(self.width as nat, self.height as nat, self.mine_count as nat, safe_x as int, safe_y as int, seed);
            lemma_candidates(self.width as nat, self.height as nat, safe_x as int, safe_y as int);
        }
        shuffle_squares(&mut pos, seed);
        let n = pos.len();
        let k = if self.mine_count < n { self.mine_count } else { n };
        assert(sites =~= pos@.take(k as int));
        let mut i: usize = 0;
        proof {
            lemma_only_opens_refl(g0);
            lemma_count_cells_none_if_free(g0);
        }
        while i < k
            invariant
                i <= k,
                k <= n,
                n == pos@.len(),
                sites == pos@.take(k as int),
                sites.no_duplicates(),
                forall|p: (usize, usize)| #[trigger] sites.contains(p) ==> p.0 < self.width && p.1 < self.height,
                g0 == old(self).cells(),
                self.same_but_grid(*old(self)),
                self.is_shaped(),
                has_shape(g0, self.width as int, self.height as int),
                forall|x: int, y: int|
                    #![trigger self.cells()[y][x]]
                    in_grid(g0, x, y) ==> {
                        &&& self.cells()[y][x].state == g0[y][x].state
                        &&& self.cells()[y][x].neighbor_mines == g0[y][x].neighbor_mines
                        &&& self.cells()[y][x].is_mine == (g0[y][x].is_mine || sites.take(i as int).contains((x as usize, y as usize)))
                    },
                mine_free(g0) ==> count_cells(self.cells(), is_mine()) == i,
            decreases k - i,
        {
            let (px, py) = pos[i];
            proof {
                assert(sites[i as int] == (px, py));
                assert(sites.contains((px, py)));
            }
            let ghost before = self.cells();
            assert(before[py as int].len() == self.width);
            let ghost old_cell = before[py as int][px as int];
            self.grid[py][px].is_mine = true;
            proof {
                assert(self.cells() =~= set_cell(before, px as int, py as int, MineCell { is_mine: true, ..old_cell }));
                assert forall|x: int, y: int|
                    #![trigger self.cells()[y][x]]
                    in_grid(g0, x, y) implies self.cells()[y][x].is_mine == (g0[y][x].is_mine || sites.take(i + 1).contains((x as usize, y as usize))) by {
                    let _ = before[y][x];
                    let q = (x as usize, y as usize);
                    let s1 = sites.take(i + 1);
                    let s0 = sites.take(i as int);
                    if s1.contains(q) {
                        let t = choose|t: int| 0 <= t < s1.len() && #[trigger] s1[t] == q;
                        if t < i {
                            assert(s0[t] == q);
                        }
                    }
                    if s0.contains(q) {
                        let t = choose|t: int| 0 <= t < s0.len() && #[trigger] s0[t] == q;
                        assert(s1[t] == q);
                    }
                    if x == px && y == py {
                        assert(s1[i as int] == (px, py));
                    }
                }
                if mine_free(g0) {
                    assert(!old_cell.is_mine) by {
                        if old_cell.is_mine {
                            let s0 = sites.take(i as int);
                            assert(s0.contains((px, py)));
                            let t = choose|t: int| 0 <= t < s0.len() && #[trigger] s0[t] == (px, py);
                            assert(sites[t] == sites[i as int]);
                        }
                    }
                    lemma_count_cells_update(before, px as int, py as int, MineCell { is_mine: true, ..old_cell }, is_mine());
                }
            }
            i = i + 1;
        }
        proof {
            assert(sites.take(k as int) =~= sites);
        }
        let ghost placed = self.cells();
        self.update_neighbor_counts();
        proof {
            let g = self.cells();
            assert forall|x: int, y: int| in_grid(placed, x, y) implies #[trigger] is_mine()(g[y][x]) == is_mine()(placed[y][x]) by {}
            lemma_count_cells_same(placed, g, is_mine());
            assert forall|y: int| 0 <= y < g0.len() implies #[trigger] g[y].len() == g0[y].len() by {
                assert(placed[y].len() == g0[y].len());
            }
            assert forall|x: int, y: int|
                #![trigger g[y][x]]
                in_grid(g0, x, y) implies {
                    &&& g[y][x].state == g0[y][x].state
                    &&& g[y][x].is_mine == (g0[y][x].is_mine || sites.contains((x as usize, y as usize)))
                    &&& g[y][x].is_mine ==> g[y][x].neighbor_mines == g0[y][x].neighbor_mines
                } by {
                let _ = placed[y][x];
            }
        }
    }

    /// Buries the mines of a game first clicked at `(safe_x, safe_y)`, the
    /// shuffle seeded by the system clock's whole seconds since 1970 (0 for
    /// a clock set before 1970).
    fn generate_mines(&mut self, safe_x: usize, safe_y: usize)
        requires
            old(self).is_shaped(),
        ensures
            final(self).same_but_grid(*old(self)),
            final(self).is_shaped(),
            forall|x: int, y: int|
                #![trigger final(self).cells()[y][x]]
                in_grid(old(self).cells(), x, y) ==> final(self).cells()[y][x].state == old(self).cells()[y][x].state,
            exists|seed: u64|
                mines_placed(
                    old(self).cells(),
                    final(self).cells(),
                    #[trigger] mine_sites(
                        old(self).width as nat,
                        old(self).height as nat,
                        old(self).mine_count as nat,
                        safe_x as int,
                        safe_y as int,
                        seed,
                    ),
                ) && (mine_free(old(self).cells()) ==> count_cells(final(self).cells(), is_mine())
                    == mine_sites(
                    old(self).width as nat,
                    old(self).height as nat,
                    old(self).mine_count as nat,
                    safe_x as int,
                    safe_y as int,
                    seed,
                ).len()),
    {
        let now = system_now();
        let seed = match since_unix_epoch(&now) {
            Ok(d) => whole_seconds(&d),
            Err(_) => 0,
        };
        self.place_mines(safe_x, safe_y, seed);
    }

    /// The square under the cursor.
    pub open spec fn cursor_cell(&self) -> MineCell {
        self.cells()[self.cursor.1 as int][self.cursor.0 as int]
    }

    /// Opens the closed square under the cursor. The first opening of a game
    /// buries the mines first, away from the cursor's 3x3 block, and starts
    /// the clock. Opening a mine ends the game and shows every mine; opening
    /// a safe square floods from it and may win the game.
    #[verifier::spinoff_prover]
    #[verifier::rlimit(40)]
    pub fn open_cell(&mut self) -> (sounds: Vec<SoundEffect>)
        requires
            old(self).wf(),
            old(self).width > 0,
            old(self).height > 0,
        ensures
            final(self).wf(),
            final(self).cursor == old(self).cursor,
            final(self).width == old(self).width,
            final(self).height == old(self).height,
            final(self).mine_count == old(self).mine_count,
            final(self).elapsed_time == old(self).elapsed_time,
            old(self).cursor_cell().state != CellState::Closed ==> *final(self) == *old(self) && sounds@
                == Seq::<SoundEffect>::empty(),
            old(self).cursor_cell().state == CellState::Closed ==> {
                let g0 = old(self).cells();
                let g1 = final(self).cells();
                let (cx, cy) = (old(self).cursor.0 as int, old(self).cursor.1 as int);
                &&& !final(self).first_click
                &&& (old(self).first_click ==> final(self).start_time.is_some())
                &&& (!old(self).first_click ==> final(self).start_time == old(self).start_time)
                &&& (old(self).first_click ==> exists|seed: u64|
                    mines_placed(
                        g0,
                        g1,
                        #[trigger] mine_sites(
                            old(self).width as nat,
                            old(self).height as nat,
                            old(self).mine_count as nat,
                            cx,
                            cy,
                            seed,
                        ),
                    ) && count_cells(g1, is_mine()) == mine_sites(
                        old(self).width as nat,
                        old(self).height as nat,
                        old(self).mine_count as nat,
                        cx,
                        cy,
                        seed,
                    ).len())
                &&& (old(self).first_click ==> forall|a: int, b: int|
                    #![trigger g1[b][a]]
                    in_grid(g1, a, b) && is_near(cx, cy, a, b) ==> !g1[b][a].is_mine)
                &&& (old(self).first_click ==> forall|a: int, b: int|
                    #![trigger g1[b][a]]
                    in_grid(g1, a, b) && is_near(cx, cy, a, b) ==> g1[b][a].state != CellState::Closed)
                &&& (!old(self).first_click ==> same_layout(g0, g1))
                &&& if final(self).cursor_cell().is_mine {
                    &&& final(self).game_over
                    &&& states_mines_shown(g0, g1)
                    &&& final(self).won == old(self).won
                    &&& final(self).leaderboard == old(self).leaderboard
                    &&& sounds@ == seq![SoundEffect::Boom]
                } else {
                    &&& final(self).game_over == old(self).game_over
                    &&& final(self).cursor_cell().state == CellState::Opened
                    &&& states_only_open(g0, g1)
                    &&& flood_complete(g0, g1)
                    &&& opened_safe(g0, g1)
                    &&& forall|region: Set<(int, int)>|
                        #[trigger] flood_region_from(g0, g1, region) && region.contains((cx, cy))
                            ==> opened_within(g0, g1, region)
                    &&& final(self).won == (old(self).won || all_safe_opened(g1))
                    &&& if !old(self).won && all_safe_opened(g1) {
                        &&& old(self).leaderboard.won_entry(
                            final(self).leaderboard,
                            old(self).elapsed_time,
                            size_label(old(self).width as nat, old(self).height as nat),
                        )
                        &&& sounds@ == seq![SoundEffect::Click, SoundEffect::Win]
                    } else {
                        &&& final(self).leaderboard == old(self).leaderboard
                        &&& sounds@ == seq![SoundEffect::Click]
                    }
                }
            },
    {
        let (x, y) = self.cursor;
        let ghost g0 = self.cells();
        assert(g0[y as int].len() == self.width);
        if self.grid[y][x].state != CellState::Closed {
            return Vec::new();
        }
        let ghost was_first = self.first_click;
        if self.first_click {
            self.generate_mines(x, y);
            self.first_click = false;
            self.start_time = Some(instant_now());
            proof {
                let gm = self.cells();
                let seed = choose|seed: u64|
                    mines_placed(
                        g0,
                        gm,
                        #[trigger] mine_sites(self.width as nat, self.height as nat, self.mine_count as nat, x as int, y as int, seed),
                    ) && (mine_free(g0) ==> count_cells(gm, is_mine()) == mine_sites(
                        self.width as nat,
                        self.height as nat,
                        self.mine_count as nat,
                        x as int,
                        y as int,
                        seed,
                    ).len());
                lemma_mine_sites(self.width as nat, self.height as nat, self.mine_count as nat, x as int, y as int, seed);
                let sites = mine_sites(self.width as nat, self.height as nat, self.mine_count as nat, x as int, y as int, seed);
                assert forall|a: int, b: int|
                    #![trigger gm[b][a]]
                    in_grid(gm, a, b) && is_near(x as int, y as int, a, b) implies !gm[b][a].is_mine by {
                    assert(gm[b].len() == g0[b].len());
                    let _ = g0[b][a];
                    if sites.contains((a as usize, b as usize)) {
                        assert(is_candidate(self.width as nat, self.height as nat, x as int, y as int, (a as usize, b as usize)));
                    }
                }
            }
        }
        let ghost gm = self.cells();
        let mut sounds: Vec<SoundEffect> = Vec::new();
        assert(gm[y as int].len() == self.width);
        if self.grid[y][x].is_mine {
            self.game_over = true;
            self.grid[y][x].state = CellState::Opened;
            let ghost go = self.cells();
            assert(go =~= set_state(gm, x as int, y as int, CellState::Opened));
            self.open_all_mines();
            sounds.push(SoundEffect::Boom);
            proof {
                let g1 = self.cells();
                assert forall|a: int, b: int|
                    #![trigger g1[b][a]]
                    in_grid(g0, a, b) implies g1[b][a].state == if g1[b][a].is_mine {
                        CellState::Opened
                    } else {
                        g0[b][a].state
                    } by {
                    assert(gm[b].len() == g0[b].len());
                    let _ = gm[b][a];
                    let _ = go[b][a];
                }
                assert(same_layout(gm, g1));
                lemma_layout_facts(gm, g1);
                assert forall|a: int, b: int|
                    #![trigger g1[b][a]]
                    in_grid(g0, a, b) && g1[b][a].state == CellState::Flagged implies g0[b][a].state == CellState::Flagged by {
                    assert(gm[b].len() == g0[b].len());
                    let _ = gm[b][a];
                }
                lemma_flags_not_added_states(g0, g1);
            }
        } else {
            sounds.push(SoundEffect::Click);
            proof {
                assert forall|a: int, b: int| #![trigger gm[b][a]] in_grid(gm, a, b) implies gm[b][a].state == g0[b][a].state by {
                    assert(gm[b].len() == g0[b].len());
                }
            }
            self.recursive_open(x, y);
            let ghost gr = self.cells();
            proof {
                lemma_only_opens_layout(gm, gr);
                lemma_layout_facts(gm, gr);
                assert forall|region: Set<(int, int)>|
                    #[trigger] flood_region_from(g0, gr, region) && region.contains((x as int, y as int))
                        implies opened_within(g0, gr, region) by {
                    assert forall|j: int| 0 <= j < gm.len() implies #[trigger] g0[j].len() == gm[j].len() by {
                        assert(gm[j].len() == g0[j].len());
                    }
                    lemma_flood_region_mixed(g0, gr, gm, region);
                    assert(opened_within(gm, gr, region));
                    assert forall|a: int, b: int|
                        #![trigger newly_opened(g0, gr, a, b)]
                        in_grid(g0, a, b) && newly_opened(g0, gr, a, b) implies region.contains((a, b)) by {
                        assert(gm[b].len() == g0[b].len());
                        let _ = gm[b][a];
                        assert(newly_opened(gm, gr, a, b));
                    }
                }
            }
            let won_now = self.check_win();
            if won_now {
                sounds.push(SoundEffect::Win);
            }
            proof {
                let g1 = self.cells();
                assert(g1 == gr);
                lemma_only_opens_layout(gm, g1);
                lemma_layout_facts(gm, g1);
                assert forall|a: int, b: int|
                    #![trigger g1[b][a]]
                    in_grid(g0, a, b) implies (g1[b][a].state == g0[b][a].state || (g0[b][a].state == CellState::Closed
                        && g1[b][a].state == CellState::Opened)) by {
                    assert(gm[b].len() == g0[b].len());
                    let _ = gm[b][a];
                }
                assert forall|a: int, b: int|
                    #![trigger newly_opened(g0, g1, a, b)]
                    in_grid(g0, a, b) && newly_opened(g0, g1, a, b) implies surroundings_open(g1, a, b) by {
                    assert(gm[b].len() == g0[b].len());
                    let _ = gm[b][a];
                    assert(newly_opened(gm, g1, a, b));
                }
                assert forall|a: int, b: int|
                    #![trigger g1[b][a]]
                    in_grid(g0, a, b) && newly_opened(g0, g1, a, b) implies !g1[b][a].is_mine by {
                    assert(gm[b].len() == g0[b].len());
                    let _ = gm[b][a];
                }
                lemma_flags_not_added_states(g0, g1);
            }
        }
        proof {
            let g1 = self.cells();
            if was_first {
                let seed = choose|seed: u64|
                    mines_placed(
                        g0,
                        gm,
                        #[trigger] mine_sites(self.width as nat, self.height as nat, self.mine_count as nat, x as int, y as int, seed),
                    ) && (mine_free(g0) ==> count_cells(gm, is_mine()) == mine_sites(
                        self.width as nat,
                        self.height as nat,
                        self.mine_count as nat,
                        x as int,
                        y as int,
                        seed,
                    ).len());
                lemma_layout_facts(gm, g1);
                lemma_mines_placed_layout(g0, gm, g1, mine_sites(self.width as nat, self.height as nat, self.mine_count as nat, x as int, y as int, seed));
                assert(!g1[y as int][x as int].is_mine);
                assert(mines_around(g1, x as int, y as int) == 0) by {
                    assert(mine_at(g1, x - 1, y - 1) == 0);
                    assert(mine_at(g1, x as int, y - 1) == 0);
                    assert(mine_at(g1, x + 1, y - 1) == 0);
                    assert(mine_at(g1, x - 1, y as int) == 0);
                    assert(mine_at(g1, x as int, y as int) == 0);
                    assert(mine_at(g1, x + 1, y as int) == 0);
                    assert(mine_at(g1, x - 1, y + 1) == 0);
                    assert(mine_at(g1, x as int, y + 1) == 0);
                    assert(mine_at(g1, x + 1, y + 1) == 0);
                }
                assert(newly_opened(g0, g1, x as int, y as int));
                assert(surroundings_open(g1, x as int, y as int));
            } else {
                lemma_layout_trans(g0, gm, g1);
            }
            lemma_layout_facts(gm, g1);
        }
        sounds
    }

    /// The number of flags in the 3x3 block around the square `(x, y)`.
    fn flags_near(&self, x: usize, y: usize) -> (n: u8)
        requires
            self.is_shaped(),
            x < self.width,
            y < self.height,
        ensures
            n == flags_around(self.cells(), x as int, y as int),
    {
        let mut n: u8 = 0;
        let mut k: usize = 0;
        while k < 9
            invariant
                self.is_shaped(),
                x < self.width,
                y < self.height,
                k <= 9,
                n <= k,
                n == partial_flags(self.cells(), x as int, y as int, k as int),
            decreases 9 - k,
        {
            let dx = k % 3;
            let dy = k / 3;
            let here = match (step(x, dx, self.width), step(y, dy, self.height)) {
                (Some(nx), Some(ny)) => {
                    assert(self.cells()[ny as int].len() == self.width);
                    if self.grid[ny][nx].state == CellState::Flagged {
                        1u8
                    } else {
                        0u8
                    }
                },
                _ => 0u8,
            };
            assert(here == flag_at(self.cells(), x + dx - 1, y + dy - 1));
            n = n + here;
            k = k + 1;
        }
        assert(partial_flags(self.cells(), x as int, y as int, 9) == flags_around(self.cells(), x as int, y as int)) by {
            reveal_with_fuel(partial_flags, 10);
        }
        n
    }

    /// On an open numbered square whose flags around match its number, opens
    /// every closed square around it ("chording"): safe ones flood, a mine
    /// ends the game and shows every mine.
    pub fn chord_cell(&mut self) -> (sounds: Vec<SoundEffect>)
        requires
            old(self).wf(),
            old(self).width > 0,
            old(self).height > 0,
        ensures
            final(self).wf(),
            final(self).cursor == old(self).cursor,
            final(self).width == old(self).width,
            final(self).height == old(self).height,
            final(self).mine_count == old(self).mine_count,
            final(self).elapsed_time == old(self).elapsed_time,
            final(self).first_click == old(self).first_click,
            final(self).start_time == old(self).start_time,
            ({
                let c = old(self).cursor_cell();
                c.state != CellState::Opened || c.neighbor_mines == 0 || c.is_mine
            }) ==> *final(self) == *old(self) && sounds@ == Seq::<SoundEffect>::empty(),
            flags_around(old(self).cells(), old(self).cursor.0 as int, old(self).cursor.1 as int)
                != old(self).cursor_cell().neighbor_mines ==> *final(self) == *old(self),
            !old(self).chord_ready() ==> *final(self) == *old(self) && sounds@ == Seq::<SoundEffect>::empty(),
            old(self).chord_ready() && !old(self).chord_flags_match() ==> *final(self) == *old(self) && sounds@
                == seq![SoundEffect::Click],
            old(self).chord_ready() && old(self).chord_flags_match() ==> {
                let g0 = old(self).cells();
                let g1 = final(self).cells();
                let (cx, cy) = (old(self).cursor.0 as int, old(self).cursor.1 as int);
                let hit = closed_mine_near(g0, cx, cy, 9);
                let won_now = !old(self).won && all_safe_opened(g1);
                &&& same_layout(g0, g1)
                &&& final(self).game_over == (old(self).game_over || hit)
                &&& forall|a: int, b: int|
                    #![trigger g1[b][a]]
                    in_grid(g0, a, b) && is_near(cx, cy, a, b) && g0[b][a].state == CellState::Closed
                        ==> g1[b][a].state != CellState::Closed
                &&& chord_states(g0, g1, hit)
                &&& flood_complete(g0, g1)
                &&& (!hit ==> opened_safe(g0, g1))
                &&& forall|region: Set<(int, int)>|
                    #[trigger] flood_region(g0, region) && holds_block(g0, cx, cy, region)
                        ==> opened_safe_within(g0, g1, region)
                &&& final(self).won == (old(self).won || all_safe_opened(g1))
                &&& (won_now ==> old(self).leaderboard.won_entry(
                    final(self).leaderboard,
                    old(self).elapsed_time,
                    size_label(old(self).width as nat, old(self).height as nat),
                ))
                &&& (!won_now ==> final(self).leaderboard == old(self).leaderboard)
                &&& sounds@ == seq![SoundEffect::Click] + (if hit {
                    seq![SoundEffect::Boom]
                } else {
                    Seq::<SoundEffect>::empty()
                }) + (if won_now {
                    seq![SoundEffect::Win]
                } else {
                    Seq::<SoundEffect>::empty()
                })
            },
    {
        let (x, y) = self.cursor;
        let ghost g0 = self.cells();
        assert(g0[y as int].len() == self.width);
        let state = self.grid[y][x].state;
        let number = self.grid[y][x].neighbor_mines;
        let mine = self.grid[y][x].is_mine;
        if state != CellState::Opened || number == 0 || mine {
            return Vec::new();
        }
        let mut sounds: Vec<SoundEffect> = Vec::new();
        sounds.push(SoundEffect::Click);
        let flags = self.flags_near(x, y);
        if flags == number {
            let mut boom = false;
            let mut k: usize = 0;
            proof {
                lemma_only_opens_refl(g0);
                lemma_chord_start(g0, x as int, y as int);
            }
            while k < 9
                invariant
                    k <= 9,
                    x < self.width,
                    y < self.height,
                    g0 == old(self).cells(),
                    self.is_shaped(),
                    has_shape(g0, self.width as int, self.height as int),
                    counts_consistent(g0),
                    self.cursor == old(self).cursor,
                    self.won == old(self).won,
                    self.leaderboard == old(self).leaderboard,
                    self.width == old(self).width,
                    self.height == old(self).height,
                    self.mine_count == old(self).mine_count,
                    self.first_click == old(self).first_click,
                    self.start_time == old(self).start_time,
                    self.elapsed_time == old(self).elapsed_time,
                    self.game_over == (old(self).game_over || boom),
                    chord_progress(g0, self.cells(), x as int, y as int, k as int, boom),
                    sounds@ == seq![SoundEffect::Click] + (if boom {
                        seq![SoundEffect::Boom]
                    } else {
                        Seq::<SoundEffect>::empty()
                    }),
                decreases 9 - k,
            {
                let dx = k % 3;
                let dy = k / 3;
                let ghost gk = self.cells();
                match (step(x, dx, self.width), step(y, dy, self.height)) {
                    (Some(nx), Some(ny)) => {
                        assert(gk[ny as int].len() == self.width);
                        if self.grid[ny][nx].state == CellState::Closed {
                            if self.grid[ny][nx].is_mine {
                                self.game_over = true;
                                proof {
                                    lemma_chord_no_boom_yet(g0, gk, x as int, y as int, k as int, boom, nx as int, ny as int);
                                }
                                self.open_all_mines();
                                proof {
                                    lemma_chord_mine(g0, gk, self.cells(), x as int, y as int, k as int, nx as int, ny as int);
                                }
                                boom = true;
                                sounds.push(SoundEffect::Boom);
                            } else {
                                proof {
                                    lemma_layout_facts(g0, gk);
                                }
                                self.recursive_open(nx, ny);
                                proof {
                                    lemma_chord_flood(g0, gk, self.cells(), x as int, y as int, k as int, boom, nx as int, ny as int);
                                }
                            }
                        } else {
                            proof {
                                lemma_chord_skip(g0, gk, x as int, y as int, k as int, boom);
                            }
                        }
                    },
                    _ => {
                        proof {
                            lemma_chord_skip(g0, gk, x as int, y as int, k as int, boom);
                        }
                    },
                }
                k = k + 1;
            }
            let ghost gc = self.cells();
            proof {
                lemma_chord_done(g0, gc, x as int, y as int, boom);
                lemma_layout_facts(g0, gc);
            }
            let won_now = self.check_win();
            if won_now {
                sounds.push(SoundEffect::Win);
            }
            proof {
                if !won_now {
                    assert(sounds@ =~= seq![SoundEffect::Click] + (if boom {
                        seq![SoundEffect::Boom]
                    } else {
                        Seq::<SoundEffect>::empty()
                    }) + Seq::<SoundEffect>::empty());
                }
            }
        }
        sounds
    }

    /// Chording may start exactly on an open safe square with a number, and
    /// goes on exactly when the flags in the 3x3 block around the cursor are
    /// as many as that number: one flag more or less and nothing opens.
    pub proof fn lemma_chord_condition(m: Self)
        ensures
            m.chord_ready() == (m.cursor_cell().state == CellState::Opened
                && m.cursor_cell().neighbor_mines > 0 && !m.cursor_cell().is_mine),
            m.chord_flags_match() == (flags_around(m.cells(), m.cursor.0 as int, m.cursor.1 as int)
                == m.cursor_cell().neighbor_mines),
            flags_around(m.cells(), m.cursor.0 as int, m.cursor.1 as int)
                == m.cursor_cell().neighbor_mines + 1 ==> !m.chord_flags_match(),
            flags_around(m.cells(), m.cursor.0 as int, m.cursor.1 as int) + 1
                == m.cursor_cell().neighbor_mines ==> !m.chord_flags_match(),
    {
    }

    /// The square under the cursor is an open safe square with a number.
    pub open spec fn chord_ready(&self) -> bool {
        let c = self.cursor_cell();
        c.state == CellState::Opened && c.neighbor_mines != 0 && !c.is_mine
    }

    /// The flags around the cursor are as many as its square's number.
    pub open spec fn chord_flags_match(&self) -> bool {
        flags_around(self.cells(), self.cursor.0 as int, self.cursor.1 as int) == self.cursor_cell().neighbor_mines
    }
}

/// The mines among the first `k` squares of the 3x3 block around `(x, y)`,
/// counted row by row.
spec fn partial_mines(g: Seq<Seq<MineCell>>, x: int, y: int, k: int) -> int
    decreases k,
{
    if k <= 0 {
        0
    } else {
        partial_mines(g, x, y, k - 1) + mine_at(g, x + (k - 1) % 3 - 1, y + (k - 1) / 3 - 1)
    }
}

/// The flags among the first `k` squares of the 3x3 block around `(x, y)`,
/// counted row by row.
spec fn partial_flags(g: Seq<Seq<MineCell>>, x: int, y: int, k: int) -> int
    decreases k,
{
    if k <= 0 {
        0
    } else {
        partial_flags(g, x, y, k - 1) + flag_at(g, x + (k - 1) % 3 - 1, y + (k - 1) / 3 - 1)
    }
}

/// The coordinate `v + d - 1` when it lies in `0..bound`.
fn step(v: usize, d: usize, bound: usize) -> (r: Option<usize>)
    requires
        v < bound,
        d <= 2,
    ensures
        r == if 0 <= v + d - 1 < bound {
            Some((v + d - 1) as usize)
        } else {
            None::<usize>
        },
{
    if d == 0 {
        if v == 0 {
            None
        } else {
            Some(v - 1)
        }
    } else if d == 1 {
        Some(v)
    } else if v + 1 < bound {
        Some(v + 1)
    } else {
        None
    }
}

/// `-1 <= a - b <= 1`.
pub(crate) fn close_to(a: usize, b: usize) -> (r: bool)
    ensures
        r == (-1 <= a - b <= 1),
{
    if a >= b {
        a - b <= 1
    } else {
        b - a <= 1
    }
}

/// Shuffles `pos` as the generator started at `seed` dictates: step `i`
/// draws the next number and exchanges item `i` with the item at that number
/// modulo the length.
fn shuffle_squares(pos: &mut Vec<(usize, usize)>, seed: u64)
    ensures
        final(pos)@.len() == old(pos)@.len(),
        final(pos)@ == shuffled(old(pos)@, seed),
{
    let ghost orig = pos@;
    let n = pos.len();
    let mut seed_now = seed;
    let mut i: usize = 0;
    while i < n
        invariant
            i <= n,
            n == orig.len(),
            pos@.len() == n,
            pos@ == shuffle_steps(orig, seed, i as nat).0,
            seed_now == shuffle_steps(orig, seed, i as nat).1,
        decreases n - i,
    {
        seed_now = seed_now.wrapping_mul(1103515245).wrapping_add(12345);
        let j = (seed_now as usize) % n;
        let a = pos[i];
        let b = pos[j];
        pos[i] = b;
        pos[j] = a;
        i = i + 1;
    }
}

} // verus!

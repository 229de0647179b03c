use tui_mines::leaderboard::{Leaderboard, Score};
use tui_mines::model::{CellState, MinesweeperModel, SoundEffect};

fn empty_board() -> Leaderboard {
    Leaderboard { scores: Vec::new() }
}

/// A game past its first click with mines exactly at `mines` and every
/// number filled in.
fn game_with_mines(width: usize, height: usize, mines: &[(usize, usize)]) -> MinesweeperModel {
    let mut m = MinesweeperModel::new(width, height, mines.len(), empty_board());
    for &(x, y) in mines {
        m.grid[y][x].is_mine = true;
    }
    for y in 0..height {
        for x in 0..width {
            if m.grid[y][x].is_mine {
                continue;
            }
            let mut n = 0u8;
            for ny in y.saturating_sub(1)..=(y + 1).min(height - 1) {
                for nx in x.saturating_sub(1)..=(x + 1).min(width - 1) {
                    if m.grid[ny][nx].is_mine {
                        n += 1;
                    }
                }
            }
            m.grid[y][x].neighbor_mines = n;
        }
    }
    m.first_click = false;
    m
}

fn states(m: &MinesweeperModel) -> Vec<String> {
    m.grid
        .iter()
        .map(|row| {
            row.iter()
                .map(|c| match c.state {
                    CellState::Closed => '#',
                    CellState::Opened => {
                        if c.is_mine {
                            '*'
                        } else {
                            (b'0' + c.neighbor_mines) as char
                        }
                    }
                    CellState::Flagged => 'F',
                })
                .collect()
        })
        .collect()
}

fn mine_total(m: &MinesweeperModel) -> usize {
    m.grid.iter().flatten().filter(|c| c.is_mine).count()
}

#[test]
fn new_game_is_blank() {
    let m = MinesweeperModel::new(4, 3, 2, empty_board());
    assert_eq!(m.grid.len(), 3);
    assert!(m.grid.iter().all(|r| r.len() == 4));
    assert!(m
        .grid
        .iter()
        .flatten()
        .all(|c| !c.is_mine && c.neighbor_mines == 0 && c.state == CellState::Closed));
    assert_eq!(m.cursor, (0, 0));
    assert!(m.first_click && !m.game_over && !m.won);
    assert!(m.start_time.is_none());
    assert_eq!(m.elapsed_time, 0);
    assert_eq!(m.mine_count, 2);
    assert_eq!(m.flags_count(), 0);
}

#[test]
fn new_game_of_no_squares() {
    let m = MinesweeperModel::new(0, 0, 0, empty_board());
    assert!(m.grid.is_empty());
}

#[test]
fn move_cursor_stays_on_the_board() {
    let mut m = MinesweeperModel::new(3, 2, 1, empty_board());
    m.move_cursor(-1, 0);
    assert_eq!(m.cursor, (0, 0));
    m.move_cursor(1, 0);
    m.move_cursor(1, 0);
    assert_eq!(m.cursor, (2, 0));
    m.move_cursor(1, 0);
    assert_eq!(m.cursor, (2, 0));
    m.move_cursor(0, 1);
    assert_eq!(m.cursor, (2, 1));
    m.move_cursor(0, 1);
    assert_eq!(m.cursor, (2, 1));
    m.move_cursor(-2, -1);
    assert_eq!(m.cursor, (0, 0));
    m.move_cursor(isize::MAX, 0);
    assert_eq!(m.cursor, (0, 0));
}

#[test]
fn flags_are_limited_by_the_mine_count() {
    let mut m = MinesweeperModel::new(3, 3, 1, empty_board());
    assert_eq!(m.toggle_flag(), vec![SoundEffect::Flag]);
    assert_eq!(m.grid[0][0].state, CellState::Flagged);
    assert_eq!(m.flags_count(), 1);
    m.move_cursor(1, 0);
    assert_eq!(m.toggle_flag(), Vec::<SoundEffect>::new());
    assert_eq!(m.grid[0][1].state, CellState::Closed);
    assert_eq!(m.flags_count(), 1);
    m.move_cursor(-1, 0);
    assert_eq!(m.toggle_flag(), vec![SoundEffect::Unflag]);
    assert_eq!(m.grid[0][0].state, CellState::Closed);
    assert_eq!(m.flags_count(), 0);
}

#[test]
fn no_flag_when_there_are_no_mines() {
    let mut m = MinesweeperModel::new(2, 2, 0, empty_board());
    assert!(m.toggle_flag().is_empty());
    assert_eq!(m.flags_count(), 0);
}

#[test]
fn an_open_square_takes_no_flag() {
    let mut m = game_with_mines(3, 3, &[(2, 2)]);
    m.grid[0][0].state = CellState::Opened;
    assert!(m.toggle_flag().is_empty());
    assert_eq!(m.grid[0][0].state, CellState::Opened);
}

#[test]
fn placing_mines_avoids_the_first_click() {
    for seed in [0u64, 1, 42, 1_700_000_000, u64::MAX] {
        let mut m = MinesweeperModel::new(10, 10, 15, empty_board());
        m.place_mines(4, 5, seed);
        assert_eq!(mine_total(&m), 15);
        for y in 4..=6 {
            for x in 3..=5 {
                assert!(!m.grid[y][x].is_mine);
            }
        }
        assert!(m.grid.iter().flatten().all(|c| c.state == CellState::Closed));
    }
}

#[test]
fn placing_mines_fills_in_the_numbers() {
    let mut m = MinesweeperModel::new(8, 6, 12, empty_board());
    m.place_mines(0, 0, 7);
    for y in 0..6usize {
        for x in 0..8usize {
            if m.grid[y][x].is_mine {
                continue;
            }
            let mut n = 0;
            for ny in y.saturating_sub(1)..=(y + 1).min(5) {
                for nx in x.saturating_sub(1)..=(x + 1).min(7) {
                    if m.grid[ny][nx].is_mine {
                        n += 1;
                    }
                }
            }
            assert_eq!(m.grid[y][x].neighbor_mines, n);
        }
    }
}

#[test]
fn placing_mines_depends_only_on_the_seed() {
    let mut a = MinesweeperModel::new(9, 9, 10, empty_board());
    let mut b = MinesweeperModel::new(9, 9, 10, empty_board());
    a.place_mines(2, 3, 12345);
    b.place_mines(2, 3, 12345);
    let ma: Vec<bool> = a.grid.iter().flatten().map(|c| c.is_mine).collect();
    let mb: Vec<bool> = b.grid.iter().flatten().map(|c| c.is_mine).collect();
    assert_eq!(ma, mb);
}

#[test]
fn placing_more_mines_than_squares_fills_every_candidate() {
    // A 3x3 board first clicked in its middle leaves no square for a mine.
    let mut m = MinesweeperModel::new(3, 3, 5, empty_board());
    m.place_mines(1, 1, 9);
    assert_eq!(mine_total(&m), 0);
    // A 4x4 board clicked in a corner leaves 12 squares.
    let mut m = MinesweeperModel::new(4, 4, 100, empty_board());
    m.place_mines(0, 0, 9);
    assert_eq!(mine_total(&m), 12);
    assert!(!m.grid[0][0].is_mine && !m.grid[1][1].is_mine && !m.grid[0][1].is_mine);
}

#[test]
fn placing_mines_with_seed_zero_on_a_small_board() {
    // Candidates of a 4x1 board clicked at (0, 0): (2, 0) and (3, 0).
    // Step 0: seed 12345, 12345 % 2 = 1: swap 0 and 1 -> (3,0), (2,0).
    // Step 1: seed 12345 * 1103515245 + 12345 (mod 2^64), odd or even decides.
    let mut m = MinesweeperModel::new(4, 1, 1, empty_board());
    m.place_mines(0, 0, 0);
    let s1 = 12345u64.wrapping_mul(1103515245).wrapping_add(12345);
    let mut order = [(2usize, 0usize), (3, 0)];
    order.swap(0, 1);
    order.swap(1, (s1 as usize) % 2);
    let (mx, my) = order[0];
    assert!(m.grid[my][mx].is_mine);
    assert_eq!(mine_total(&m), 1);
}

#[test]
fn first_click_is_safe_and_opens_its_block() {
    let mut m = MinesweeperModel::new(10, 10, 15, empty_board());
    m.move_cursor(5, 5);
    let sounds = m.open_cell();
    assert!(!m.game_over);
    assert!(!m.first_click);
    assert!(m.start_time.is_some());
    assert_eq!(mine_total(&m), 15);
    for y in 4..=6 {
        for x in 4..=6 {
            assert!(!m.grid[y][x].is_mine);
            assert_eq!(m.grid[y][x].state, CellState::Opened);
        }
    }
    assert_eq!(sounds[0], SoundEffect::Click);
}

#[test]
fn opening_an_open_square_does_nothing() {
    let mut m = game_with_mines(3, 3, &[(2, 2)]);
    m.grid[0][0].state = CellState::Opened;
    let before = states(&m);
    assert!(m.open_cell().is_empty());
    assert_eq!(states(&m), before);
}

#[test]
fn opening_a_flag_does_nothing() {
    let mut m = game_with_mines(3, 3, &[(2, 2)]);
    m.toggle_flag();
    assert!(m.open_cell().is_empty());
    assert_eq!(m.grid[0][0].state, CellState::Flagged);
}

#[test]
fn opening_a_mine_ends_the_game_and_shows_every_mine() {
    let mut m = game_with_mines(4, 4, &[(0, 0), (3, 3), (2, 0)]);
    m.move_cursor(2, 0);
    m.move_cursor(1, 3);
    m.move_cursor(-1, 0);
    assert_eq!(m.cursor, (2, 3));
    // Flag the mine at (3, 3) first: it is shown all the same.
    m.move_cursor(1, 0);
    m.toggle_flag();
    m.move_cursor(-3, -3);
    assert_eq!(m.cursor, (0, 0));
    let sounds = m.open_cell();
    assert_eq!(sounds, vec![SoundEffect::Boom]);
    assert!(m.game_over);
    assert!(!m.won);
    assert_eq!(
        states(&m),
        vec!["*#*#".to_string(), "####".to_string(), "####".to_string(), "###*".to_string()]
    );
}

#[test]
fn opening_a_numbered_square_opens_it_alone() {
    let mut m = game_with_mines(3, 3, &[(2, 2)]);
    m.move_cursor(1, 1);
    assert_eq!(m.open_cell(), vec![SoundEffect::Click]);
    assert_eq!(states(&m), vec!["###".to_string(), "#1#".to_string(), "###".to_string()]);
}

#[test]
fn opening_a_blank_square_floods() {
    // . . . . .
    // . . . . .
    // . . . * .
    // * . . . .
    let mut m = game_with_mines(5, 4, &[(3, 2), (0, 3)]);
    assert_eq!(m.open_cell(), vec![SoundEffect::Click]);
    assert_eq!(
        states(&m),
        vec![
            "00000".to_string(),
            "00111".to_string(),
            "111##".to_string(),
            "#####".to_string(),
        ]
    );
    assert!(!m.game_over && !m.won);
}

#[test]
fn the_flood_stops_at_flags() {
    let mut m = game_with_mines(4, 1, &[(3, 0)]);
    m.move_cursor(1, 0);
    m.toggle_flag();
    m.move_cursor(-1, 0);
    m.open_cell();
    assert_eq!(states(&m), vec!["0F##".to_string()]);
}

#[test]
fn opening_the_last_safe_square_wins() {
    let mut m = game_with_mines(2, 2, &[(1, 1)]);
    m.elapsed_time = 42;
    assert_eq!(m.open_cell(), vec![SoundEffect::Click]);
    m.move_cursor(1, 0);
    assert_eq!(m.open_cell(), vec![SoundEffect::Click]);
    m.move_cursor(-1, 1);
    assert_eq!(m.open_cell(), vec![SoundEffect::Click, SoundEffect::Win]);
    assert!(m.won);
    assert_eq!(m.leaderboard.scores.len(), 1);
    assert_eq!(m.leaderboard.scores[0].seconds, 42);
    assert_eq!(m.leaderboard.scores[0].difficulty, "2x2");
}

#[test]
fn a_flood_can_win_at_once() {
    let mut m = game_with_mines(5, 5, &[(4, 4)]);
    m.elapsed_time = 7;
    let sounds = m.open_cell();
    assert_eq!(sounds, vec![SoundEffect::Click, SoundEffect::Win]);
    assert!(m.won);
    assert_eq!(m.leaderboard.scores[0].difficulty, "5x5");
    assert_eq!(m.leaderboard.scores[0].seconds, 7);
}

#[test]
fn a_win_enters_the_ranked_table() {
    let mut m = game_with_mines(2, 1, &[(1, 0)]);
    m.leaderboard = Leaderboard {
        scores: vec![
            Score { date: "a".to_string(), seconds: 3, difficulty: "x".to_string() },
            Score { date: "b".to_string(), seconds: 9, difficulty: "x".to_string() },
        ],
    };
    m.elapsed_time = 5;
    m.open_cell();
    assert!(m.won);
    let secs: Vec<u64> = m.leaderboard.scores.iter().map(|s| s.seconds).collect();
    assert_eq!(secs, vec![3, 5, 9]);
    assert_eq!(m.leaderboard.scores[1].difficulty, "2x1");
}

#[test]
fn chording_a_closed_square_does_nothing() {
    let mut m = game_with_mines(3, 3, &[(2, 2)]);
    assert!(m.chord_cell().is_empty());
    assert_eq!(states(&m), vec!["###".to_string(), "###".to_string(), "###".to_string()]);
}

#[test]
fn chording_a_blank_square_does_nothing() {
    let mut m = game_with_mines(4, 1, &[(3, 0)]);
    m.open_cell();
    let before = states(&m);
    assert!(m.chord_cell().is_empty());
    assert_eq!(states(&m), before);
}

#[test]
fn chording_without_enough_flags_only_clicks() {
    let mut m = game_with_mines(3, 3, &[(2, 2)]);
    m.move_cursor(1, 1);
    m.open_cell();
    assert_eq!(m.chord_cell(), vec![SoundEffect::Click]);
    assert_eq!(states(&m), vec!["###".to_string(), "#1#".to_string(), "###".to_string()]);
}

#[test]
fn chording_with_the_right_flags_opens_the_block() {
    let mut m = game_with_mines(4, 4, &[(2, 2), (3, 3)]);
    m.move_cursor(1, 1);
    m.open_cell();
    m.move_cursor(1, 1);
    m.toggle_flag();
    m.move_cursor(-1, -1);
    let sounds = m.chord_cell();
    assert_eq!(sounds, vec![SoundEffect::Click]);
    assert!(!m.game_over);
    // (0, 0) is blank, so the flood from it opens the whole corner region.
    assert_eq!(
        states(&m),
        vec!["0000".to_string(), "0111".to_string(), "01F#".to_string(), "01##".to_string()]
    );
}

#[test]
fn chording_with_a_wrong_flag_hits_the_mine() {
    let mut m = game_with_mines(3, 3, &[(2, 2)]);
    m.move_cursor(1, 1);
    m.open_cell();
    m.move_cursor(-1, -1);
    m.toggle_flag();
    m.move_cursor(1, 1);
    let sounds = m.chord_cell();
    // The flagged safe square stays closed, so the game is not won.
    assert_eq!(sounds, vec![SoundEffect::Click, SoundEffect::Boom]);
    assert!(m.game_over);
    assert!(!m.won);
    assert_eq!(m.grid[2][2].state, CellState::Opened);
    assert_eq!(m.grid[0][0].state, CellState::Flagged);
    assert_eq!(m.grid[0][1].state, CellState::Opened);
}

#[test]
fn chording_into_a_mine_loses() {
    // A wall of mines in column 4 keeps the floods from the right part of
    // the board; the flag on (0, 0) is wrong, the mine at (2, 2) is hit.
    let mut m = game_with_mines(7, 3, &[(2, 2), (4, 0), (4, 1), (4, 2)]);
    m.move_cursor(1, 1);
    assert_eq!(m.open_cell(), vec![SoundEffect::Click]);
    m.move_cursor(-1, -1);
    m.toggle_flag();
    m.move_cursor(1, 1);
    let sounds = m.chord_cell();
    assert_eq!(sounds, vec![SoundEffect::Click, SoundEffect::Boom]);
    assert!(m.game_over);
    assert!(!m.won);
    assert_eq!(m.grid[2][2].state, CellState::Opened);
    assert_eq!(m.grid[1][4].state, CellState::Opened);
    assert_eq!(m.grid[0][0].state, CellState::Flagged);
    assert_eq!(m.grid[0][6].state, CellState::Closed);
    assert_eq!(m.grid[0][1].state, CellState::Opened);
}

#[test]
fn chording_can_win() {
    let mut m = game_with_mines(2, 2, &[(1, 1)]);
    m.open_cell();
    m.move_cursor(1, 1);
    m.toggle_flag();
    m.move_cursor(-1, -1);
    let sounds = m.chord_cell();
    assert_eq!(sounds, vec![SoundEffect::Click, SoundEffect::Win]);
    assert!(m.won);
    assert_eq!(m.leaderboard.scores.len(), 1);
}

#[test]
fn the_clock_only_runs_during_a_game() {
    let mut m = game_with_mines(2, 2, &[(1, 1)]);
    m.update_timer();
    assert_eq!(m.elapsed_time, 0);
    m.record_elapsed(30);
    assert_eq!(m.elapsed_time, 0);
    m.start_time = Some(std::time::Instant::now());
    m.record_elapsed(30);
    assert_eq!(m.elapsed_time, 30);
    m.update_timer();
    assert!(m.elapsed_time < 30);
    m.game_over = true;
    let frozen = m.elapsed_time;
    m.record_elapsed(99);
    assert_eq!(m.elapsed_time, frozen);
    m.update_timer();
    assert_eq!(m.elapsed_time, frozen);
}

#[test]
fn reset_starts_over_with_the_given_table() {
    let mut m = game_with_mines(3, 2, &[(1, 1)]);
    m.open_cell();
    m.game_over = true;
    let table = Leaderboard {
        scores: vec![Score { date: "d".to_string(), seconds: 1, difficulty: "3x2".to_string() }],
    };
    m.reset(table);
    assert_eq!((m.width, m.height, m.mine_count), (3, 2, 1));
    assert!(m.first_click && !m.game_over && !m.won);
    assert_eq!(m.cursor, (0, 0));
    assert!(m.grid.iter().flatten().all(|c| !c.is_mine && c.state == CellState::Closed));
    assert_eq!(m.leaderboard.scores.len(), 1);
}

#[test]
fn flags_count_counts_every_flag() {
    let mut m = game_with_mines(3, 3, &[(0, 0), (1, 1), (2, 2)]);
    m.toggle_flag();
    m.move_cursor(2, 0);
    m.toggle_flag();
    m.move_cursor(0, 2);
    m.toggle_flag();
    assert_eq!(m.flags_count(), 3);
    m.move_cursor(-1, 0);
    assert!(m.toggle_flag().is_empty());
    assert_eq!(m.flags_count(), 3);
}

#[test]
fn a_won_game_enters_its_time_once() {
    let mut m = game_with_mines(2, 2, &[(1, 1)]);
    m.elapsed_time = 9;
    m.open_cell();
    m.move_cursor(1, 0);
    m.open_cell();
    m.move_cursor(-1, 1);
    m.open_cell();
    assert!(m.won);
    assert_eq!(m.leaderboard.scores.len(), 1);
    m.move_cursor(0, -1);
    assert_eq!(m.open_cell(), Vec::<SoundEffect>::new());
    assert_eq!(m.chord_cell(), vec![SoundEffect::Click]);
    assert!(m.won);
    assert_eq!(m.leaderboard.scores.len(), 1);
    assert_eq!(m.leaderboard.scores[0].seconds, 9);
}

fn numbers(m: &MinesweeperModel) -> Vec<Vec<u8>> {
    m.grid.iter().map(|row| row.iter().map(|c| c.neighbor_mines).collect()).collect()
}

#[test]
fn counting_the_mines_twice_changes_nothing() {
    let mut m = MinesweeperModel::new(4, 3, 2, empty_board());
    m.grid[0][1].is_mine = true;
    m.grid[2][3].is_mine = true;
    m.grid[1][1].state = CellState::Flagged;
    m.update_neighbor_counts();
    let once = numbers(&m);
    assert_eq!(once, vec![vec![1, 0, 1, 0], vec![1, 1, 2, 1], vec![0, 0, 1, 0]]);
    m.update_neighbor_counts();
    assert_eq!(numbers(&m), once);
    assert_eq!(m.grid[1][1].state, CellState::Flagged);
    assert!(m.grid[0][1].is_mine && m.grid[2][3].is_mine);
}

#[test]
fn checking_for_a_win_twice_enters_one_time() {
    let mut m = game_with_mines(2, 1, &[(1, 0)]);
    m.grid[0][0].state = CellState::Opened;
    m.elapsed_time = 4;
    assert!(m.check_win());
    assert!(m.won);
    assert_eq!(m.leaderboard.scores.len(), 1);
    assert!(!m.check_win());
    assert!(m.won);
    assert_eq!(m.leaderboard.scores.len(), 1);
    assert_eq!(m.leaderboard.scores[0].seconds, 4);
}

#[test]
fn no_win_while_a_safe_square_is_closed() {
    let mut m = game_with_mines(3, 1, &[(2, 0)]);
    m.grid[0][0].state = CellState::Opened;
    assert!(!m.check_win());
    assert!(!m.won);
    assert!(m.leaderboard.scores.is_empty());
}

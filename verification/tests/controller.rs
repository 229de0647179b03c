use tui_mines::controller::{Command, Key};
use tui_mines::leaderboard::Leaderboard;
use tui_mines::model::{CellState, MinesweeperModel};

fn game() -> MinesweeperModel {
    MinesweeperModel::new(3, 3, 1, Leaderboard { scores: Vec::new() })
}

#[test]
fn keys_during_a_game() {
    let m = game();
    assert_eq!(m.command_for(Key::Char('q')), Command::Quit);
    assert_eq!(m.command_for(Key::Char('1')), Command::Difficulty(1));
    assert_eq!(m.command_for(Key::Char('2')), Command::Difficulty(2));
    assert_eq!(m.command_for(Key::Char('3')), Command::Difficulty(3));
    assert_eq!(m.command_for(Key::Left), Command::Move(-1, 0));
    assert_eq!(m.command_for(Key::Right), Command::Move(1, 0));
    assert_eq!(m.command_for(Key::Up), Command::Move(0, -1));
    assert_eq!(m.command_for(Key::Down), Command::Move(0, 1));
    assert_eq!(m.command_for(Key::Char(' ')), Command::Open);
    assert_eq!(m.command_for(Key::Char('f')), Command::ToggleFlag);
    assert_eq!(m.command_for(Key::Char('x')), Command::Ignore);
    assert_eq!(m.command_for(Key::Other), Command::Ignore);
}

#[test]
fn space_chords_an_open_square() {
    let mut m = game();
    m.grid[0][0].state = CellState::Opened;
    assert_eq!(m.command_for(Key::Char(' ')), Command::Chord);
}

#[test]
fn keys_after_a_game() {
    let mut m = game();
    m.game_over = true;
    assert_eq!(m.command_for(Key::Char('q')), Command::Quit);
    assert_eq!(m.command_for(Key::Char('1')), Command::Restart);
    assert_eq!(m.command_for(Key::Left), Command::Restart);
    m.game_over = false;
    m.won = true;
    assert_eq!(m.command_for(Key::Char(' ')), Command::Restart);
    assert_eq!(m.command_for(Key::Char('q')), Command::Quit);
}

#[test]
fn keys_on_a_board_of_no_squares() {
    let m = MinesweeperModel::new(0, 0, 0, Leaderboard { scores: Vec::new() });
    assert_eq!(m.command_for(Key::Char('q')), Command::Quit);
    assert_eq!(m.command_for(Key::Char('2')), Command::Difficulty(2));
    assert_eq!(m.command_for(Key::Left), Command::Move(-1, 0));
    assert_eq!(m.command_for(Key::Char('f')), Command::ToggleFlag);
}

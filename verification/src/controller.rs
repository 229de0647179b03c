//! What a key press asks of the game.
use vstd::prelude::*;

use crate::model::{CellState, MinesweeperModel};

verus! {

/// A key as the game tells keys apart.
#[derive(Clone, Copy, PartialEq, Eq, Structural, Debug)]
pub enum Key {
    Char(char),
    Left,
    Right,
    Up,
    Down,
    Other,
}

/// What the front end is to do for a key.
#[derive(Clone, Copy, PartialEq, Eq, Structural, Debug)]
pub enum Command {
    /// Leave the game.
    Quit,
    /// Start a new game of the same size.
    Restart,
    /// Start a new game at difficulty level 1, 2 or 3.
    Difficulty(u8),
    /// Move the cursor by this many columns and rows.
    Move(isize, isize),
    /// Open the square under the cursor.
    Open,
    /// Chord the open square under the cursor.
    Chord,
    /// Plant or lift a flag under the cursor.
    ToggleFlag,
    /// Nothing.
    Ignore,
}

/// The command of `key`: while a game is finished (lost or won) `q` quits
/// and any other key restarts; during a game `q` quits, `1` to `3` pick a
/// difficulty, the arrows move the cursor, space chords an open square and
/// opens any other, and `f` flags.
pub open spec fn command_of(finished: bool, cursor_open: bool, key: Key) -> Command {
    if finished {
        if key == Key::Char('q') {
            Command::Quit
        } else {
            Command::Restart
        }
    } else {
        match key {
            Key::Char('q') => Command::Quit,
            Key::Char('1') => Command::Difficulty(1),
            Key::Char('2') => Command::Difficulty(2),
            Key::Char('3') => Command::Difficulty(3),
            Key::Left => Command::Move(-1isize, 0isize),
            Key::Right => Command::Move(1isize, 0isize),
            Key::Up => Command::Move(0isize, -1isize),
            Key::Down => Command::Move(0isize, 1isize),
            Key::Char(' ') => if cursor_open {
                Command::Chord
            } else {
                Command::Open
            },
            Key::Char('f') => Command::ToggleFlag,
            _ => Command::Ignore,
        }
    }
}

/// The keys that mean something during a game: `q`, `1` to `3`, the four
/// arrows, space and `f`.
pub open spec fn is_game_key(key: Key) -> bool {
    ||| key == Key::Char('q')
    ||| key == Key::Char('1')
    ||| key == Key::Char('2')
    ||| key == Key::Char('3')
    ||| key == Key::Left
    ||| key == Key::Right
    ||| key == Key::Up
    ||| key == Key::Down
    ||| key == Key::Char(' ')
    ||| key == Key::Char('f')
}

/// Once a game is finished, `q` quits and every other key restarts; during
/// a game each key of the game has its own command and every other key is
/// ignored.
pub proof fn lemma_command_keys(finished: bool, cursor_open: bool, key: Key)
    ensures
        finished ==> command_of(finished, cursor_open, key) == if key == Key::Char('q') {
            Command::Quit
        } else {
            Command::Restart
        },
        !finished ==> {
            let c = command_of(finished, cursor_open, key);
            &&& key == Key::Char('q') ==> c == Command::Quit
            &&& key == Key::Char('1') ==> c == Command::Difficulty(1)
            &&& key == Key::Char('2') ==> c == Command::Difficulty(2)
            &&& key == Key::Char('3') ==> c == Command::Difficulty(3)
            &&& key == Key::Left ==> c == Command::Move(-1isize, 0isize)
            &&& key == Key::Right ==> c == Command::Move(1isize, 0isize)
            &&& key == Key::Up ==> c == Command::Move(0isize, -1isize)
            &&& key == Key::Down ==> c == Command::Move(0isize, 1isize)
            &&& key == Key::Char(' ') ==> c == if cursor_open {
                Command::Chord
            } else {
                Command::Open
            }
            &&& key == Key::Char('f') ==> c == Command::ToggleFlag
            &&& (c == Command::Ignore) == !is_game_key(key)
        },
{
}

impl MinesweeperModel {
    /// What `key` asks of this game. Space during a game looks at the square
    /// under the cursor, which must then be on the board.
    pub fn command_for(&self, key: Key) -> (c: Command)
        requires
            key == Key::Char(' ') && !self.game_over && !self.won ==> {
                &&& self.is_shaped()
                &&& self.cursor_valid()
                &&& self.width > 0
                &&& self.height > 0
            },
        ensures
            c == command_of(
                self.game_over || self.won,
                self.cursor_cell().state == CellState::Opened,
                key,
            ),
            self.game_over || self.won ==> c == if key == Key::Char('q') {
                Command::Quit
            } else {
                Command::Restart
            },
            !self.game_over && !self.won ==> {
                &&& key == Key::Char('q') ==> c == Command::Quit
                &&& key == Key::Char('1') ==> c == Command::Difficulty(1)
                &&& key == Key::Char('2') ==> c == Command::Difficulty(2)
                &&& key == Key::Char('3') ==> c == Command::Difficulty(3)
                &&& key == Key::Left ==> c == Command::Move(-1isize, 0isize)
                &&& key == Key::Right ==> c == Command::Move(1isize, 0isize)
                &&& key == Key::Up ==> c == Command::Move(0isize, -1isize)
                &&& key == Key::Down ==> c == Command::Move(0isize, 1isize)
                &&& key == Key::Char(' ') ==> c == if self.cursor_cell().state == CellState::Opened {
                    Command::Chord
                } else {
                    Command::Open
                }
                &&& key == Key::Char('f') ==> c == Command::ToggleFlag
                &&& (c == Command::Ignore) == !is_game_key(key)
            },
    {
        if self.game_over || self.won {
            match key {
                Key::Char('q') => Command::Quit,
                _ => Command::Restart,
            }
        } else {
            match key {
                Key::Char('q') => Command::Quit,
                Key::Char('1') => Command::Difficulty(1),
                Key::Char('2') => Command::Difficulty(2),
                Key::Char('3') => Command::Difficulty(3),
                Key::Left => Command::Move(-1, 0),
                Key::Right => Command::Move(1, 0),
                Key::Up => Command::Move(0, -1),
                Key::Down => Command::Move(0, 1),
                Key::Char(' ') => {
                    let (x, y) = self.cursor;
                    assert(self.cells()[y as int].len() == self.width);
                    if self.grid[y][x].state == CellState::Opened {
                        Command::Chord
                    } else {
                        Command::Open
                    }
                },
                Key::Char('f') => Command::ToggleFlag,
                _ => Command::Ignore,
            }
        }
    }
}

} // verus!

//! What the screen shows, apart from how it is drawn.
use vstd::prelude::*;

use crate::leaderboard::Score;
use crate::model::{close_to, CellState, MineCell};
use crate::text::{decimal, push_decimal};

verus! {

/// The face a square shows.
#[derive(Clone, Copy, PartialEq, Eq, Structural, Debug)]
pub enum Face {
    /// A closed square.
    Hidden,
    /// A flagged square.
    Flag,
    /// An open mine.
    Mine,
    /// An open safe square with no mine around it.
    Blank,
    /// An open safe square with this many mines around it.
    Number(u8),
}

/// The face of `cell`.
pub open spec fn face_of(cell: MineCell) -> Face {
    match cell.state {
        CellState::Closed => Face::Hidden,
        CellState::Flagged => Face::Flag,
        CellState::Opened => if cell.is_mine {
            Face::Mine
        } else if cell.neighbor_mines == 0 {
            Face::Blank
        } else {
            Face::Number(cell.neighbor_mines)
        },
    }
}

/// A closed square shows nothing, a flagged one its flag, an open mine the
/// mine; an open safe square shows a blank exactly when no mine is around
/// it, and otherwise the number of mines around it.
pub proof fn lemma_faces(cell: MineCell)
    ensures
        cell.state == CellState::Closed ==> face_of(cell) == Face::Hidden,
        cell.state == CellState::Flagged ==> face_of(cell) == Face::Flag,
        cell.state == CellState::Opened && cell.is_mine ==> face_of(cell) == Face::Mine,
        cell.state == CellState::Opened && !cell.is_mine ==> {
            &&& (face_of(cell) == Face::Blank) == (cell.neighbor_mines == 0)
            &&& cell.neighbor_mines > 0 ==> face_of(cell) == Face::Number(cell.neighbor_mines)
        },
{
}

/// The face of `cell`.
pub fn face(cell: &MineCell) -> (f: Face)
    ensures
        f == face_of(*cell),
        cell.state == CellState::Closed ==> f == Face::Hidden,
        cell.state == CellState::Flagged ==> f == Face::Flag,
        cell.state == CellState::Opened && cell.is_mine ==> f == Face::Mine,
        cell.state == CellState::Opened && !cell.is_mine ==> {
            &&& (f == Face::Blank) == (cell.neighbor_mines == 0)
            &&& cell.neighbor_mines > 0 ==> f == Face::Number(cell.neighbor_mines)
        },
{
    match cell.state {
        CellState::Closed => Face::Hidden,
        CellState::Flagged => Face::Flag,
        CellState::Opened => {
            if cell.is_mine {
                Face::Mine
            } else if cell.neighbor_mines == 0 {
                Face::Blank
            } else {
                Face::Number(cell.neighbor_mines)
            }
        },
    }
}

/// How a square is lit: the cursor's own square, one of the eight around
/// it, or neither.
#[derive(Clone, Copy, PartialEq, Eq, Structural, Debug)]
pub enum Highlight {
    Cursor,
    Around,
    Plain,
}

/// How the square `(x, y)` is lit when the cursor stands at `cursor`.
pub fn highlight(x: usize, y: usize, cursor: (usize, usize)) -> (h: Highlight)
    ensures
        h == if x == cursor.0 && y == cursor.1 {
            Highlight::Cursor
        } else if -1 <= x - cursor.0 <= 1 && -1 <= y - cursor.1 <= 1 {
            Highlight::Around
        } else {
            Highlight::Plain
        },
{
    if x == cursor.0 && y == cursor.1 {
        Highlight::Cursor
    } else if close_to(x, cursor.0) && close_to(y, cursor.1) {
        Highlight::Around
    } else {
        Highlight::Plain
    }
}

/// A number of seconds as whole minutes and the seconds left over.
pub fn minutes_and_seconds(secs: u64) -> (ms: (u64, u64))
    ensures
        ms.0 * 60 + ms.1 == secs,
        ms.1 < 60,
{
    (secs / 60, secs % 60)
}

/// The colour of a square's number.
#[derive(Clone, Copy, PartialEq, Eq, Structural, Debug)]
pub enum Tint {
    Blue,
    Green,
    Red,
    Violet,
    Magenta,
}

/// The colour of the number `n`: blue, green, red and violet for one to
/// four mines, magenta for more.
pub fn number_tint(n: u8) -> (t: Tint)
    ensures
        t == if n == 1 {
            Tint::Blue
        } else if n == 2 {
            Tint::Green
        } else if n == 3 {
            Tint::Red
        } else if n == 4 {
            Tint::Violet
        } else {
            Tint::Magenta
        },
{
    match n {
        1 => Tint::Blue,
        2 => Tint::Green,
        3 => Tint::Red,
        4 => Tint::Violet,
        _ => Tint::Magenta,
    }
}

/// `n` in decimal, with a leading zero below ten.
pub open spec fn two_digits(n: nat) -> Seq<char> {
    if n < 10 {
        seq!['0'] + decimal(n)
    } else {
        decimal(n)
    }
}

/// The line of the `i`-th best time (counted from 0): its rank, the
/// seconds and the date.
pub open spec fn score_line(i: nat, s: Score) -> Seq<char> {
    decimal(i + 1) + ". "@ + decimal(s.seconds as nat) + "s - "@ + s.date@ + "\n"@
}

/// The lines of the first `n` best times.
pub open spec fn score_lines(scores: Seq<Score>, n: nat) -> Seq<char>
    decreases n,
{
    if n == 0 {
        Seq::empty()
    } else {
        score_lines(scores, (n - 1) as nat) + score_line((n - 1) as nat, scores[n - 1])
    }
}

/// The popup text of a won game: the three best times, then the time of
/// this game as minutes and seconds.
pub open spec fn won_text(scores: Seq<Score>, elapsed: u64) -> Seq<char> {
    let shown: nat = if scores.len() < 3 { scores.len() } else { 3 };
    "\u{f091} TOP SCORES \u{f091}\n"@ + score_lines(scores, shown) + "\n\u{f05d5} YOU WIN! "@
        + two_digits((elapsed / 60) as nat) + ":"@ + two_digits((elapsed % 60) as nat)
        + "\nPress any key to restart"@
}

/// The popup text of a lost game.
pub open spec fn lost_text() -> Seq<char> {
    "\u{f0691} GAME OVER \u{f0691}\nPress any key to restart"@
}

fn push_two_digits(s: &mut String, n: u64)
    ensures
        final(s)@ == old(s)@ + two_digits(n as nat),
{
    if n < 10 {
        s.append("0");
        proof {
            reveal_strlit("0");
        }
    }
    push_decimal(s, n);
    proof {
        if n < 10 {
            assert(final(s)@ =~= old(s)@ + two_digits(n as nat));
        }
    }
}

/// The text of the popup at the end of a game: the best times `scores` and
/// the time `elapsed` of a won game, or the notice of a lost one.
pub fn result_text(won: bool, scores: &Vec<Score>, elapsed: u64) -> (t: String)
    ensures
        t@ == if won {
            won_text(scores@, elapsed)
        } else {
            lost_text()
        },
{
    let mut s = String::new();
    if !won {
        s.append("\u{f0691} GAME OVER \u{f0691}\nPress any key to restart");
        return s;
    }
    s.append("\u{f091} TOP SCORES \u{f091}\n");
    let ghost head = s@;
    let shown: usize = if scores.len() < 3 { scores.len() } else { 3 };
    let mut i: usize = 0;
    while i < shown
        invariant
            i <= shown,
            shown <= scores.len(),
            shown == (if scores@.len() < 3 { scores@.len() } else { 3 }),
            s@ == head + score_lines(scores@, i as nat),
        decreases shown - i,
    {
        let ghost before = s@;
        push_decimal(&mut s, (i + 1) as u64);
        s.append(". ");
        push_decimal(&mut s, scores[i].seconds);
        s.append("s - ");
        s.append(scores[i].date.as_str());
        s.append("\n");
        proof {
            assert(s@ =~= before + score_line(i as nat, scores@[i as int]));
            assert(score_lines(scores@, (i + 1) as nat) == score_lines(scores@, i as nat) + score_line(
                i as nat,
                scores@[i as int],
            ));
        }
        i = i + 1;
    }
    s.append("\n\u{f05d5} YOU WIN! ");
    let (minutes, seconds) = minutes_and_seconds(elapsed);
    proof {
        assert(minutes == elapsed / 60 && seconds == elapsed % 60) by (nonlinear_arith)
            requires
                minutes * 60 + seconds == elapsed,
                seconds < 60,
        ;
    }
    push_two_digits(&mut s, minutes);
    s.append(":");
    push_two_digits(&mut s, seconds);
    s.append("\nPress any key to restart");
    proof {
        assert(s@ =~= won_text(scores@, elapsed));
    }
    s
}

/// The flag part of the top line: flags planted over mines buried.
pub open spec fn flag_status_text(flags: nat, mines: nat) -> Seq<char> {
    " | \u{f024}: "@ + decimal(flags) + "/"@ + decimal(mines)
}

/// The clock part of the top line: the time `elapsed` as minutes and seconds.
pub open spec fn clock_status_text(elapsed: u64) -> Seq<char> {
    " |  \u{f13ab}: "@ + two_digits((elapsed / 60) as nat) + ":"@ + two_digits((elapsed % 60) as nat)
        + "  "@
}

/// The flag part of the top line, such as ` | \u{f024}: 3/10`.
pub fn flag_status(flags: usize, mines: usize) -> (t: String)
    ensures
        t@ == flag_status_text(flags as nat, mines as nat),
{
    let mut s = String::new();
    s.append(" | \u{f024}: ");
    push_decimal(&mut s, flags as u64);
    s.append("/");
    push_decimal(&mut s, mines as u64);
    proof {
        assert(s@ =~= flag_status_text(flags as nat, mines as nat));
    }
    s
}

/// The clock part of the top line, such as ` |  \u{f13ab}: 02:05  `.
pub fn clock_status(elapsed: u64) -> (t: String)
    ensures
        t@ == clock_status_text(elapsed),
{
    let mut s = String::new();
    s.append(" |  \u{f13ab}: ");
    let (minutes, seconds) = minutes_and_seconds(elapsed);
    proof {
        assert(minutes == elapsed / 60 && seconds == elapsed % 60) by (nonlinear_arith)
            requires
                minutes * 60 + seconds == elapsed,
                seconds < 60,
        ;
    }
    push_two_digits(&mut s, minutes);
    s.append(":");
    push_two_digits(&mut s, seconds);
    s.append("  ");
    proof {
        assert(s@ =~= clock_status_text(elapsed));
    }
    s
}

} // verus!

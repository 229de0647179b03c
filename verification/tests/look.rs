use tui_mines::look::{clock_status, face, flag_status, highlight, minutes_and_seconds, number_tint, result_text, Face, Highlight, Tint};
use tui_mines::model::{CellState, MineCell};
use tui_mines::leaderboard::Score;

fn cell(is_mine: bool, neighbor_mines: u8, state: CellState) -> MineCell {
    MineCell { is_mine, neighbor_mines, state }
}

#[test]
fn faces_of_squares() {
    assert_eq!(face(&cell(true, 0, CellState::Closed)), Face::Hidden);
    assert_eq!(face(&cell(false, 3, CellState::Closed)), Face::Hidden);
    assert_eq!(face(&cell(true, 0, CellState::Flagged)), Face::Flag);
    assert_eq!(face(&cell(true, 2, CellState::Opened)), Face::Mine);
    assert_eq!(face(&cell(false, 0, CellState::Opened)), Face::Blank);
    assert_eq!(face(&cell(false, 5, CellState::Opened)), Face::Number(5));
}

#[test]
fn highlight_around_the_cursor() {
    assert_eq!(highlight(3, 4, (3, 4)), Highlight::Cursor);
    assert_eq!(highlight(2, 3, (3, 4)), Highlight::Around);
    assert_eq!(highlight(4, 5, (3, 4)), Highlight::Around);
    assert_eq!(highlight(3, 5, (3, 4)), Highlight::Around);
    assert_eq!(highlight(5, 4, (3, 4)), Highlight::Plain);
    assert_eq!(highlight(0, 0, (0, 2)), Highlight::Plain);
    assert_eq!(highlight(0, 0, (1, 1)), Highlight::Around);
}

#[test]
fn clock_text_parts() {
    assert_eq!(minutes_and_seconds(0), (0, 0));
    assert_eq!(minutes_and_seconds(45), (0, 45));
    assert_eq!(minutes_and_seconds(125), (2, 5));
    assert_eq!(minutes_and_seconds(3600), (60, 0));
}

#[test]
fn number_colours() {
    assert_eq!(number_tint(1), Tint::Blue);
    assert_eq!(number_tint(2), Tint::Green);
    assert_eq!(number_tint(3), Tint::Red);
    assert_eq!(number_tint(4), Tint::Violet);
    assert_eq!(number_tint(5), Tint::Magenta);
    assert_eq!(number_tint(8), Tint::Magenta);
    assert_eq!(number_tint(0), Tint::Magenta);
}

fn score(date: &str, seconds: u64) -> Score {
    Score { date: date.to_string(), seconds, difficulty: "9x9".to_string() }
}

#[test]
fn text_of_a_lost_game() {
    assert_eq!(
        result_text(false, &vec![score("2024-01-01 10:00", 5)], 99),
        "\u{f0691} GAME OVER \u{f0691}\nPress any key to restart"
    );
}

#[test]
fn text_of_a_won_game_shows_three_best_times() {
    let scores = vec![
        score("2024-01-01 10:00", 5),
        score("2024-01-02 11:30", 17),
        score("2024-01-03 12:45", 60),
        score("2024-01-04 13:00", 61),
    ];
    assert_eq!(
        result_text(true, &scores, 125),
        "\u{f091} TOP SCORES \u{f091}\n1. 5s - 2024-01-01 10:00\n2. 17s - 2024-01-02 11:30\n\
         3. 60s - 2024-01-03 12:45\n\n\u{f05d5} YOU WIN! 02:05\nPress any key to restart"
    );
}

#[test]
fn text_of_a_won_game_with_few_scores() {
    assert_eq!(
        result_text(true, &vec![], 6005),
        "\u{f091} TOP SCORES \u{f091}\n\n\u{f05d5} YOU WIN! 100:05\nPress any key to restart"
    );
    assert_eq!(
        result_text(true, &vec![score("d", 1234)], 0),
        "\u{f091} TOP SCORES \u{f091}\n1. 1234s - d\n\n\u{f05d5} YOU WIN! 00:00\nPress any key to restart"
    );
}

#[test]
fn top_line_parts() {
    assert_eq!(flag_status(3, 10), " | \u{f024}: 3/10");
    assert_eq!(flag_status(0, 0), " | \u{f024}: 0/0");
    assert_eq!(clock_status(125), " |  \u{f13ab}: 02:05  ");
    assert_eq!(clock_status(0), " |  \u{f13ab}: 00:00  ");
    assert_eq!(clock_status(6000), " |  \u{f13ab}: 100:00  ");
}

use tui_mines::layout::{get_adaptive_rect, get_centered_rect, Area};
use tui_mines::text::board_size_label;

fn area(x: u16, y: u16, width: u16, height: u16) -> Area {
    Area { x, y, width, height }
}

#[test]
fn board_size_labels() {
    assert_eq!(board_size_label(10, 10), "10x10");
    assert_eq!(board_size_label(16, 16), "16x16");
    assert_eq!(board_size_label(30, 16), "30x16");
    assert_eq!(board_size_label(0, 7), "0x7");
    assert_eq!(board_size_label(1234567, 9), "1234567x9");
    assert_eq!(board_size_label(usize::MAX, 1), format!("{}x1", usize::MAX));
}

#[test]
fn a_small_rectangle_is_centred() {
    assert_eq!(get_centered_rect(32, 12, area(0, 1, 80, 22)), area(24, 6, 32, 12));
    assert_eq!(get_centered_rect(31, 11, area(5, 5, 80, 22)), area(29, 10, 31, 11));
}

#[test]
fn a_large_rectangle_is_shrunk_to_the_area() {
    assert_eq!(get_centered_rect(92, 18, area(0, 1, 80, 10)), area(0, 1, 80, 10));
}

#[test]
fn a_centred_rectangle_ends_on_the_screen() {
    assert_eq!(get_centered_rect(10, 10, area(65530, 0, 20, 4)), area(65535, 0, 0, 4));
}

#[test]
fn area_new_cuts_at_the_screen_edge() {
    assert_eq!(Area::new(65530, 65000, 10, 10), area(65530, 65000, 5, 10));
    assert_eq!(Area::new(1, 2, 3, 4), area(1, 2, 3, 4));
}

#[test]
fn popup_fits_the_game_over_text() {
    let text = "GAME OVER\nPress any key to restart";
    // 24 columns + 4 by 2 rows + 2, centred on 80x24.
    assert_eq!(get_adaptive_rect(text, area(0, 0, 80, 24)), area(26, 10, 28, 4));
}

#[test]
fn popup_counts_characters_not_bytes() {
    let text = "\u{f0691} GAME OVER \u{f0691}\nPress any key";
    assert_eq!(get_adaptive_rect(text, area(0, 0, 40, 10)), area(11, 3, 17, 4));
}

#[test]
fn popup_lines_end_at_newlines_and_crlf() {
    // A final newline adds no line; "\r\n" ends a line without its '\r'.
    let text = "ab\r\nabcd\n\nxyz\n";
    assert_eq!(get_adaptive_rect(text, area(0, 0, 100, 100)), area(46, 47, 8, 6));
}

#[test]
fn popup_of_empty_text() {
    assert_eq!(get_adaptive_rect("", area(0, 0, 10, 10)), area(3, 4, 4, 2));
}

#[test]
fn popup_shrinks_to_a_small_screen() {
    let text = "a line that is far too long for the screen";
    assert_eq!(get_adaptive_rect(text, area(0, 0, 20, 2)), area(0, 0, 20, 2));
}

#[test]
fn text_measures() {
    assert_eq!(tui_mines::layout::measure_text(""), (0, 0));
    assert_eq!(tui_mines::layout::measure_text("\n"), (0, 1));
    assert_eq!(tui_mines::layout::measure_text("abc"), (3, 1));
    assert_eq!(tui_mines::layout::measure_text("ab\r\ncde\n"), (3, 2));
    assert_eq!(tui_mines::layout::measure_text("ab\rcd"), (5, 1));
    assert_eq!(tui_mines::layout::measure_text("\n\nxy\n\n"), (2, 4));
}

#[test]
fn text_measures_agree_with_str_lines() {
    for text in ["", "\n", "a", "a\n", "a\r", "a\r\n", "\r\n\r\n", "ab\rcd\r\nxyz", "\u{f091} x \u{f091}\n1. 3s - d\n", "x\n\ny"] {
        let widest = text.lines().map(|l| l.chars().count()).max().unwrap_or(0);
        let count = text.lines().count();
        assert_eq!(tui_mines::layout::measure_text(text), (widest, count), "{:?}", text);
    }
}

#[test]
fn popup_is_centred_on_a_screen_away_from_the_corner() {
    let text = "ab\ncdef";
    assert_eq!(get_adaptive_rect(text, area(0, 0, 20, 10)), area(6, 3, 8, 4));
    assert_eq!(get_adaptive_rect(text, area(5, 5, 20, 10)), area(11, 8, 8, 4));
    assert_eq!(get_adaptive_rect(text, area(3, 1, 8, 4)), area(3, 1, 8, 4));
}

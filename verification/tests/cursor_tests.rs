use textnav::cursor::{build_navigator, CursorPos};
use textnav::direction::Direction;
use textnav::tokenizer::tokenize_text;
use textnav::wrap::wrap_content;

fn cv(s: &str) -> Vec<char> {
    s.chars().collect()
}

fn build(text: &str, width: usize) -> CursorPos {
    build_navigator(&cv(text), width).1
}

fn row_lengths(text: &str, width: usize) -> Vec<usize> {
    let r = wrap_content(&cv(text), width);
    let joined: String = r.wrapped_text.iter().collect();
    if joined.is_empty() {
        Vec::new()
    } else {
        joined.split('\n').map(|s| s.chars().count()).collect()
    }
}

#[test]
fn new_starts_at_origin() {
    let c = build("hello world", 5);
    assert_eq!((c.x, c.y, c.last_x, c.vertical_offset), (0, 0, 0, 0));
}

#[test]
fn move_down_clamps_x_to_shorter_row() {
    // rows: "hello" (5), "hi" (2)
    let mut c = build("hello\nhi", 10);
    c.move_right();
    c.move_right();
    c.move_right();
    c.move_right();
    assert_eq!((c.x, c.y), (4, 0));
    c.move_down(24);
    assert_eq!((c.x, c.y), (2, 1));
    assert_eq!(c.last_x, 4);
    c.move_up(24);
    assert_eq!((c.x, c.y), (4, 0));
}

#[test]
fn move_up_at_top_is_noop() {
    let mut c = build("ab", 10);
    let scrolled = c.move_up(24);
    assert!(!scrolled);
    assert_eq!((c.x, c.y), (0, 0));
}

#[test]
fn move_down_at_bottom_is_noop() {
    let mut c = build("ab", 10);
    let scrolled = c.move_down(24);
    assert!(!scrolled);
    assert_eq!((c.x, c.y), (0, 0));
}

#[test]
fn move_right_wraps_to_soft_continuation() {
    // "abcd" at width 2: rows "ab", "cd" of the same logical line.  The
    // cursor walks every column of row 0 including its end, then wraps.
    let mut c = build("abcd", 2);
    c.move_right();
    assert_eq!((c.x, c.y), (1, 0));
    c.move_right();
    assert_eq!((c.x, c.y), (2, 0));
    c.move_right();
    assert_eq!((c.x, c.y), (0, 1));
    c.move_right();
    assert_eq!((c.x, c.y), (1, 1));
    c.move_right();
    assert_eq!((c.x, c.y), (2, 1));
    c.move_right();
    assert_eq!((c.x, c.y), (2, 1));
}

#[test]
fn move_right_stops_at_hard_line_end() {
    let mut c = build("ab\ncd", 10);
    c.move_right();
    c.move_right();
    assert_eq!((c.x, c.y), (2, 0));
    c.move_right();
    assert_eq!((c.x, c.y), (2, 0));
}

#[test]
fn move_left_wraps_into_previous_soft_row() {
    let mut c = build("abcd", 2);
    c.move_right();
    c.move_right();
    c.move_right();
    assert_eq!((c.x, c.y), (0, 1));
    // symmetric to the rightward seam: back to the previous row's end
    c.move_left();
    assert_eq!((c.x, c.y), (2, 0));
}

#[test]
fn move_left_at_document_start_is_noop() {
    let mut c = build("ab", 10);
    c.move_left();
    assert_eq!((c.x, c.y), (0, 0));
}

#[test]
fn move_left_stops_at_hard_line_start() {
    let mut c = build("ab\ncd", 10);
    c.move_down(24);
    assert_eq!((c.x, c.y), (0, 1));
    c.move_left();
    assert_eq!((c.x, c.y), (0, 1));
}

#[test]
fn home_and_end_operate_on_logical_line() {
    // "abcdef" at width 2: three rows of one logical line.
    let mut c = build("abcdef", 2);
    c.move_down(24);
    c.move_down(24);
    assert_eq!(c.y, 2);
    c.move_end();
    assert_eq!((c.x, c.y), (2, 2));
    c.move_home();
    assert_eq!((c.x, c.y), (0, 0));
}

#[test]
fn home_end_home_returns_to_first_row() {
    let texts = ["abcdef\nxy", "a\nbcde\nf"];
    for text in texts {
        for start_row in 0..3usize {
            let mut c = build(text, 2);
            for _ in 0..start_row {
                c.move_down(24);
            }
            c.move_home();
            let home_x = c.x;
            let home_y = c.y;
            c.move_end();
            c.move_home();
            assert_eq!((c.x, c.y), (home_x, home_y));
            assert_eq!(home_x, 0);
        }
    }
}

#[test]
fn clamp_invariant_holds_under_any_move_sequence() {
    let text = "alpha beta\ngamma delta epsilon\n\nzeta";
    let width = 6usize;
    let lens = row_lengths(text, width);
    let max_y = lens.len().saturating_sub(1);
    let moves = [0usize, 1, 2, 3, 4, 5, 2, 3, 0, 1, 5, 4, 2, 2, 3, 3, 1, 0, 4, 5];
    let mut c = build(text, width);
    for m in moves {
        match m {
            0 => {
                c.move_up(4);
            }
            1 => {
                c.move_down(4);
            }
            2 => c.move_left(),
            3 => c.move_right(),
            4 => c.move_home(),
            _ => c.move_end(),
        }
        assert!(c.y <= max_y);
        assert!(c.x <= lens[c.y]);
    }
}

#[test]
fn vertical_scroll_follows_cursor() {
    let text = "a\nb\nc\nd\ne\nf";
    let mut c = build(text, 10);
    let h = 2usize;
    let mut scrolled_any = false;
    for _ in 0..5 {
        let scrolled = c.move_down(h);
        scrolled_any = scrolled_any || scrolled;
        assert!(c.vertical_offset <= c.y);
        assert!(c.y < c.vertical_offset + h);
    }
    assert!(scrolled_any);
    assert_eq!(c.y, 5);
    assert_eq!(c.vertical_offset, 4);
    c.move_up(h);
    c.move_up(h);
    assert_eq!(c.y, 3);
    assert_eq!(c.vertical_offset, 3);
}

#[test]
fn zero_height_viewport_treated_as_one() {
    let mut c = build("a\nb", 10);
    let scrolled = c.move_down(0);
    assert!(scrolled);
    assert_eq!(c.vertical_offset, 1);
}

#[test]
fn empty_document_moves_are_noops() {
    let mut c = build("", 10);
    c.move_right();
    c.move_left();
    c.move_up(24);
    c.move_down(24);
    c.move_home();
    c.move_end();
    c.move_token(Direction::Right);
    c.move_token(Direction::Left);
    assert_eq!((c.x, c.y), (0, 0));
}

#[test]
fn move_token_right_jumps_past_word() {
    let mut c = build("ab cd", 10);
    c.move_token(Direction::Right);
    assert_eq!((c.x, c.y), (2, 0));
    c.move_token(Direction::Right);
    assert_eq!((c.x, c.y), (5, 0));
}

#[test]
fn move_token_right_from_gap_finds_next_token() {
    let mut c = build("a  bc", 10);
    c.move_token(Direction::Right);
    assert_eq!((c.x, c.y), (1, 0));
    c.move_token(Direction::Right);
    assert_eq!((c.x, c.y), (5, 0));
}

#[test]
fn move_token_left_jumps_before_word() {
    let mut c = build("ab cd", 10);
    c.move_end();
    assert_eq!((c.x, c.y), (5, 0));
    c.move_token(Direction::Left);
    assert_eq!((c.x, c.y), (2, 0));
}

#[test]
fn move_token_crosses_soft_wrap() {
    // "ab cd" at width 3: rows "ab " and "cd"; a right jump from the end of
    // row 0 continues the probe into row 1 and lands past "cd".
    let mut c = build("ab cd", 3);
    c.move_token(Direction::Right);
    assert_eq!((c.x, c.y), (2, 0));
    c.move_token(Direction::Right);
    assert_eq!((c.x, c.y), (2, 1));
}

#[test]
fn move_token_does_not_cross_hard_boundary() {
    let mut c = build("ab\ncd", 10);
    c.move_token(Direction::Right);
    assert_eq!((c.x, c.y), (2, 0));
    // the next right jump probes past the hard line end and stops
    c.move_token(Direction::Right);
    assert_eq!((c.x, c.y), (2, 0));
}

#[test]
fn word_jump_round_trip_never_passes_token_start() {
    let texts = ["ab.cd ef", "one two three", "abcd", "a_b c-d"];
    for text in texts {
        let width = 4usize;
        for start in 0..3usize {
            let mut c = build(text, width);
            for _ in 0..start {
                c.move_right();
            }
            let before = c
                .get_token_on_cursor()
                .map(|t| (t.row_start, t.col_start));
            c.move_token(Direction::Right);
            let jumped = c.last_token.clone();
            c.move_token(Direction::Left);
            if let Some(t) = jumped {
                assert!(c.x <= t.col_start, "text {:?} start {}", text, start);
            }
            let _ = before;
        }
    }
}

#[test]
fn get_token_on_cursor_finds_containing_span() {
    let c = {
        let mut c = build("ab cd", 10);
        c.move_right();
        c
    };
    let t = c.get_token_on_cursor().expect("cursor is on a token");
    let value: String = t.token.value.iter().collect();
    assert_eq!(value, "ab");
}

#[test]
fn get_token_on_cursor_none_in_gap() {
    // cursor in the run of spaces between tokens
    let mut c = build("a   b", 10);
    c.move_right();
    c.move_right();
    assert!(c.get_token_on_cursor().is_none());
}

#[test]
fn cache_reversal_uses_cached_span() {
    // After a right jump over "ab", the cursor sits on the "." that follows
    // it.  A leftward jump reverses direction while still adjacent to the
    // cached span, so it reuses the cache and lands just before "ab".
    let mut c = build("ab.cd", 10);
    c.move_token(Direction::Right);
    assert_eq!((c.x, c.y), (2, 0));
    assert!(c.last_fast_right);
    c.move_token(Direction::Left);
    assert_eq!((c.x, c.y), (0, 0));
    assert!(!c.last_fast_right);
}

#[test]
fn uncached_left_jump_stops_at_adjacent_symbol() {
    // The same position without a cache: the leftward probe starts on the
    // "." span itself and lands just before it.
    let mut c = build("ab.cd", 10);
    c.x = 2;
    c.last_x = 2;
    c.last_token = None;
    c.move_token(Direction::Left);
    assert_eq!((c.x, c.y), (1, 0));
}

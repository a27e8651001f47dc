use textnav::cursor::CursorPos;
use textnav::tokenizer::tokenize_text;
use textnav::wrap::wrap_content;

fn cv(s: &str) -> Vec<char> {
    s.chars().collect()
}

fn sv(v: &[char]) -> String {
    v.iter().collect()
}

#[test]
fn scenario_ab_cd_width_three() {
    // "ab cd" at width 3 wraps to rows "ab " and "cd" of one logical line.
    let r = wrap_content(&cv("ab cd"), 3);
    assert_eq!(sv(&r.wrapped_text), "ab \ncd");
    assert_eq!(r.wrap_ids, vec![0, 0]);

    // tokens: "ab" at row 0, columns 0..1; "cd" at row 1, columns 0..1
    let spans = tokenize_text(&r.wrapped_text, &r.wrap_ids);
    assert_eq!(spans.len(), 2);
    assert_eq!(sv(&spans[0].token.value), "ab");
    assert_eq!(
        (spans[0].row_start, spans[0].col_start, spans[0].row_end, spans[0].col_end),
        (0, 0, 0, 1)
    );
    assert_eq!(sv(&spans[1].token.value), "cd");
    assert_eq!(
        (spans[1].row_start, spans[1].col_start, spans[1].row_end, spans[1].col_end),
        (1, 0, 1, 1)
    );

    // move_end from (0, 0) jumps to the end of the logical line, which spans
    // both rows: the end column of its last physical row
    let mut c = CursorPos::new(&r.wrapped_text, r.wrap_ids, spans);
    c.move_end();
    assert_eq!((c.x, c.y), (2, 1));
}

#[test]
fn scenario_move_right_at_row_end() {
    // Cursor at (x=2, y=0) on a row of length 2 whose next physical row
    // shares the wrap id: move_right wraps to (0, 1).
    let soft = wrap_content(&cv("abcd"), 2);
    assert_eq!(soft.wrap_ids, vec![0, 0]);
    let spans = tokenize_text(&soft.wrapped_text, &soft.wrap_ids);
    let mut c = CursorPos::new(&soft.wrapped_text, soft.wrap_ids, spans);
    c.x = 2;
    c.y = 0;
    c.move_right();
    assert_eq!((c.x, c.y), (0, 1));

    // The same position at a hard line end (different wrap id): no movement.
    let hard = wrap_content(&cv("ab\ncd"), 10);
    assert_eq!(hard.wrap_ids, vec![0, 1]);
    let spans = tokenize_text(&hard.wrapped_text, &hard.wrap_ids);
    let mut c = CursorPos::new(&hard.wrapped_text, hard.wrap_ids, spans);
    c.x = 2;
    c.y = 0;
    c.move_right();
    assert_eq!((c.x, c.y), (2, 0));
}

#[test]
fn scenario_resize_preserves_line_and_intended_column() {
    let text = "one\ntwo\nthree\nfour\nfive\nsix";
    let h = 2usize;

    // session at width 80
    let wide = wrap_content(&cv(text), 80);
    let spans = tokenize_text(&wide.wrapped_text, &wide.wrap_ids);
    let mut c = CursorPos::new(&wide.wrapped_text, wide.wrap_ids.clone(), spans);
    for _ in 0..5 {
        c.move_down(h);
    }
    c.move_right();
    c.move_right();
    assert_eq!((c.x, c.y), (2, 5));
    let logical_line = wide.wrap_ids[c.y];
    let (old_y, old_last_x) = (c.y, c.last_x);

    // resize to width 40: rebuild the maps, construct a fresh cursor, and
    // migrate the positional fields into it (with a stale viewport offset)
    let narrow = wrap_content(&cv(text), 40);
    let spans = tokenize_text(&narrow.wrapped_text, &narrow.wrap_ids);
    let mut c2 = CursorPos::new(&narrow.wrapped_text, narrow.wrap_ids.clone(), spans);
    c2.restore_position(old_y, old_last_x, 0, h);

    // the logical line under the cursor and the intended column survive
    assert_eq!(narrow.wrap_ids[c2.y], logical_line);
    assert_eq!(c2.last_x, old_last_x);
    assert_eq!(c2.x, 2);
    // the viewport offset is recomputed, not copied blindly: offset 0 would
    // leave row 5 outside a 2-row window
    assert_eq!(c2.vertical_offset, 4);
    assert!(c2.vertical_offset <= c2.y && c2.y < c2.vertical_offset + h);
}

#[test]
fn scenario_resize_clamps_row_to_new_document() {
    let text = "aaaa\nbbbb";
    // at width 2 the document has 4 rows; at width 80 only 2
    let narrow = wrap_content(&cv(text), 2);
    let spans = tokenize_text(&narrow.wrapped_text, &narrow.wrap_ids);
    let mut c = CursorPos::new(&narrow.wrapped_text, narrow.wrap_ids, spans);
    for _ in 0..3 {
        c.move_down(24);
    }
    assert_eq!(c.y, 3);

    let wide = wrap_content(&cv(text), 80);
    let spans = tokenize_text(&wide.wrapped_text, &wide.wrap_ids);
    let mut c2 = CursorPos::new(&wide.wrapped_text, wide.wrap_ids, spans);
    c2.restore_position(c.y, c.last_x, c.vertical_offset, 24);
    assert_eq!(c2.y, 1);
    assert!(c2.x <= 4);
    assert!(c2.vertical_offset <= c2.y);
}

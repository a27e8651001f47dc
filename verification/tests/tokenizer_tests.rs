use textnav::tokenizer::{map_tokens, tokenize_text, Token, TokenType};
use textnav::wrap::wrap_content;

fn cv(s: &str) -> Vec<char> {
    s.chars().collect()
}

fn sv(v: &[char]) -> String {
    v.iter().collect()
}

#[test]
fn tokenize_words_and_symbols() {
    let spans = tokenize_text(&cv("ab.cd"), &vec![0]);
    let values: Vec<String> = spans.iter().map(|s| sv(&s.token.value)).collect();
    assert_eq!(values, vec!["ab", ".", "cd"]);
    assert!(matches!(spans[0].token.token_type, TokenType::Word));
    assert!(matches!(spans[1].token.token_type, TokenType::Symbol));
    assert!(matches!(spans[2].token.token_type, TokenType::Word));
}

#[test]
fn tokenize_whitespace_separates_words() {
    let spans = tokenize_text(&cv("one two\tthree"), &vec![0]);
    let values: Vec<String> = spans.iter().map(|s| sv(&s.token.value)).collect();
    assert_eq!(values, vec!["one", "two", "three"]);
}

#[test]
fn tokenize_underscore_is_a_word_character() {
    let spans = tokenize_text(&cv("a_b c"), &vec![0]);
    let values: Vec<String> = spans.iter().map(|s| sv(&s.token.value)).collect();
    assert_eq!(values, vec!["a_b", "c"]);
    assert!(matches!(spans[0].token.token_type, TokenType::Word));
}

#[test]
fn tokenize_ids_are_ordinal() {
    let spans = tokenize_text(&cv("x y z"), &vec![0]);
    let ids: Vec<usize> = spans.iter().map(|s| s.token.id).collect();
    assert_eq!(ids, vec![0, 1, 2]);
}

#[test]
fn tokenize_single_line_spans() {
    let spans = tokenize_text(&cv("ab cd"), &vec![0]);
    assert_eq!(spans.len(), 2);
    assert_eq!(
        (spans[0].row_start, spans[0].col_start, spans[0].row_end, spans[0].col_end),
        (0, 0, 0, 1)
    );
    assert_eq!(
        (spans[1].row_start, spans[1].col_start, spans[1].row_end, spans[1].col_end),
        (0, 3, 0, 4)
    );
}

#[test]
fn tokenize_word_joined_across_soft_wrap() {
    // "abcd" wrapped at width 2 becomes two rows of the same logical line:
    // the tokenizer joins the pieces into one token spanning both rows.
    let r = wrap_content(&cv("abcd"), 2);
    assert_eq!(r.wrap_ids, vec![0, 0]);
    let spans = tokenize_text(&r.wrapped_text, &r.wrap_ids);
    assert_eq!(spans.len(), 1);
    assert_eq!(sv(&spans[0].token.value), "abcd");
    assert_eq!(
        (spans[0].row_start, spans[0].col_start, spans[0].row_end, spans[0].col_end),
        (0, 0, 1, 1)
    );
}

#[test]
fn tokenize_hard_boundary_splits_words() {
    // "ab\ncd" keeps two logical lines: the buffer is flushed at the hard
    // boundary, so the tokens stay separate.
    let r = wrap_content(&cv("ab\ncd"), 10);
    assert_eq!(r.wrap_ids, vec![0, 1]);
    let spans = tokenize_text(&r.wrapped_text, &r.wrap_ids);
    let values: Vec<String> = spans.iter().map(|s| sv(&s.token.value)).collect();
    assert_eq!(values, vec!["ab", "cd"]);
    assert_eq!((spans[0].row_start, spans[0].row_end), (0, 0));
    assert_eq!((spans[1].row_start, spans[1].row_end), (1, 1));
}

#[test]
fn tokenize_empty_text_has_no_tokens() {
    let spans = tokenize_text(&cv(""), &Vec::new());
    assert!(spans.is_empty());
}

#[test]
fn map_tokens_positions_follow_scan_order() {
    let tokens = vec![
        Token { id: 0, value: cv("aa"), token_type: TokenType::Word },
        Token { id: 1, value: cv("b"), token_type: TokenType::Word },
    ];
    let spans = map_tokens(&cv("aa b"), tokens);
    assert_eq!(spans.len(), 2);
    assert_eq!((spans[0].col_start, spans[0].col_end), (0, 1));
    assert_eq!((spans[1].col_start, spans[1].col_end), (3, 3));
}

#[test]
fn map_tokens_drops_unmatched_tokens() {
    let tokens = vec![
        Token { id: 0, value: cv("zz"), token_type: TokenType::Word },
    ];
    let spans = map_tokens(&cv("ab"), tokens);
    assert!(spans.is_empty());
}

#[test]
fn map_tokens_multi_row_span_ends_where_match_completes() {
    let tokens = vec![Token { id: 0, value: cv("abcde"), token_type: TokenType::Word }];
    let spans = map_tokens(&cv("ab\ncde"), tokens);
    assert_eq!(spans.len(), 1);
    assert_eq!(
        (spans[0].row_start, spans[0].col_start, spans[0].row_end, spans[0].col_end),
        (0, 0, 1, 2)
    );
}

#[test]
fn tokenize_unicode_words() {
    let spans = tokenize_text(&cv("über alles"), &vec![0]);
    let values: Vec<String> = spans.iter().map(|s| sv(&s.token.value)).collect();
    assert_eq!(values, vec!["über", "alles"]);
    assert!(matches!(spans[0].token.token_type, TokenType::Word));
}

#[test]
fn token_type_labels() {
    assert_eq!(TokenType::Word.label(), "word");
    assert_eq!(TokenType::Symbol.label(), "symbol");
}

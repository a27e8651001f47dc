use textnav::wrap::wrap_content;

fn cv(s: &str) -> Vec<char> {
    s.chars().collect()
}

fn sv(v: &[char]) -> String {
    v.iter().collect()
}

#[test]
fn wrap_two_rows_share_id() {
    let r = wrap_content(&cv("ab cd"), 3);
    assert_eq!(sv(&r.wrapped_text), "ab \ncd");
    assert_eq!(r.wrap_ids, vec![0, 0]);
}

#[test]
fn wrap_keeps_short_lines_whole() {
    let r = wrap_content(&cv("one\ntwo"), 10);
    assert_eq!(sv(&r.wrapped_text), "one\ntwo");
    assert_eq!(r.wrap_ids, vec![0, 1]);
}

#[test]
fn wrap_empty_line_gets_one_empty_row() {
    let r = wrap_content(&cv("a\n\nb"), 4);
    assert_eq!(sv(&r.wrapped_text), "a\n\nb");
    assert_eq!(r.wrap_ids, vec![0, 1, 2]);
}

#[test]
fn wrap_empty_content_has_no_rows() {
    let r = wrap_content(&cv(""), 5);
    assert_eq!(sv(&r.wrapped_text), "");
    assert!(r.wrap_ids.is_empty());
}

#[test]
fn wrap_trailing_newline_adds_no_line() {
    let r = wrap_content(&cv("ab\n"), 5);
    assert_eq!(sv(&r.wrapped_text), "ab");
    assert_eq!(r.wrap_ids, vec![0]);
}

#[test]
fn wrap_width_zero_treated_as_one() {
    let r = wrap_content(&cv("abc"), 0);
    assert_eq!(sv(&r.wrapped_text), "a\nb\nc");
    assert_eq!(r.wrap_ids, vec![0, 0, 0]);
}

#[test]
fn wrap_exact_width_is_one_row() {
    let r = wrap_content(&cv("abcd"), 4);
    assert_eq!(sv(&r.wrapped_text), "abcd");
    assert_eq!(r.wrap_ids, vec![0]);
}

#[test]
fn wrap_counts_unicode_scalars_not_bytes() {
    let r = wrap_content(&cv("áéíóú"), 2);
    assert_eq!(sv(&r.wrapped_text), "áé\níó\nú");
    assert_eq!(r.wrap_ids, vec![0, 0, 0]);
}

#[test]
fn wrap_idempotent_same_width() {
    for text in ["ab cd", "a long line that wraps a few times", "x\nyz\nlast", "abc"] {
        for w in [1usize, 2, 3, 5, 80] {
            let first = wrap_content(&cv(text), w);
            let again = wrap_content(&first.wrapped_text, w);
            assert_eq!(sv(&again.wrapped_text), sv(&first.wrapped_text));
        }
    }
}

#[test]
fn wrap_coverage_rebuilds_logical_lines() {
    let text = "alpha beta gamma\nshort\n\ndelta epsilon";
    let w = 5usize;
    let r = wrap_content(&cv(text), w);
    let joined = sv(&r.wrapped_text);
    let row_texts: Vec<String> = if joined.is_empty() {
        Vec::new()
    } else {
        joined.split('\n').map(|s| s.to_string()).collect()
    };
    let lines: Vec<&str> = text.split('\n').collect();
    for (li, line) in lines.iter().enumerate() {
        let mut rebuilt = String::new();
        for (ri, id) in r.wrap_ids.iter().enumerate() {
            if *id == li {
                rebuilt.push_str(&row_texts[ri]);
            }
        }
        assert_eq!(&rebuilt, line);
    }
}

#[test]
fn wrap_row_lengths_bounded_by_width() {
    let r = wrap_content(&cv("words of many different lengths here"), 7);
    for row in sv(&r.wrapped_text).split('\n') {
        assert!(row.chars().count() <= 7);
    }
}

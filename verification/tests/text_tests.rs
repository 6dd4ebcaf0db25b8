use region_dedup::brackets::get_list;
use region_dedup::pack::{merge, optimize_length};
use region_dedup::runs::get_longest_seq;

fn chars(s: &str) -> Vec<char> {
    s.chars().collect()
}

fn strings(v: &Vec<Vec<char>>) -> Vec<String> {
    v.iter().map(|c| c.iter().collect()).collect()
}

#[test]
fn get_list_extracts_first_balanced_region() {
    assert_eq!(get_list("x[a[b]c]y"), vec![String::from("[a[b]c]")]);
    assert_eq!(get_list("[1, 2, 3] and [4]"), vec![String::from("[1, 2, 3]")]);
}

#[test]
fn get_list_without_brackets_is_empty() {
    assert!(get_list("no brackets here").is_empty());
    assert!(get_list("").is_empty());
}

#[test]
fn get_list_unclosed_region_is_empty() {
    assert!(get_list("[never closed").is_empty());
}

#[test]
fn get_list_leading_close_poisons_the_counter() {
    // The counter goes negative on the unmatched closing bracket, so the
    // later pair only brings it back to zero and nothing is collected.
    assert!(get_list("]a[b]").is_empty());
}

#[test]
fn longest_seq_empty_is_minus_one() {
    assert_eq!(get_longest_seq(Vec::new()), (-1, -1));
}

#[test]
fn longest_seq_finds_first_longest_run() {
    assert_eq!(get_longest_seq(vec![1, 2, 3, 5, 6]), (1, 3));
    assert_eq!(get_longest_seq(vec![5, 1, 2]), (1, 2));
    assert_eq!(get_longest_seq(vec![7]), (7, 7));
    // a tie keeps the earliest run
    assert_eq!(get_longest_seq(vec![1, 2, 5, 6]), (1, 2));
    // all runs of length one: the first element is reported
    assert_eq!(get_longest_seq(vec![9, 7, 5]), (9, 9));
}

#[test]
fn optimize_buffers_short_texts_and_trims_the_flush() {
    // "ab " + "c " fills the buffer past the limit; the flush trims the end.
    let out = optimize_length(vec![chars("ab "), chars("c ")], 4);
    assert_eq!(strings(&out), vec![String::from("ab c")]);
}

#[test]
fn optimize_concatenates_until_limit() {
    let out = optimize_length(vec![chars("ab"), chars("cd"), chars("ef")], 5);
    assert_eq!(strings(&out), vec![String::from("abcdef")]);
}

#[test]
fn optimize_splits_long_text_into_sentences() {
    // The text reaches the limit, so it is split on the terminator; each
    // re-terminated sentence at the limit is emitted standalone and the
    // short leftover is flushed at the end.
    let out = optimize_length(vec![chars("ab\u{3002}cd\u{3002}e")], 3);
    assert_eq!(
        strings(&out),
        vec![
            String::from("ab\u{3002}"),
            String::from("cd\u{3002}"),
            String::from("e"),
        ]
    );
}

#[test]
fn optimize_empty_input_is_empty() {
    let out = optimize_length(Vec::new(), 10);
    assert!(out.is_empty());
}

#[test]
fn merge_joins_fragments_under_the_limit() {
    let out = merge(vec![chars("a\u{3002}b\u{3002}"), chars("c")], 3);
    assert_eq!(
        strings(&out),
        vec![String::from("a\u{3002}b\u{3002}"), String::from("c\u{3002}")]
    );
}

#[test]
fn merge_flushes_exactly_at_the_limit() {
    let out = merge(vec![chars("ab\u{3002}cd\u{3002}")], 3);
    assert_eq!(
        strings(&out),
        vec![String::from("ab\u{3002}"), String::from("cd\u{3002}")]
    );
}

#[test]
fn merge_trims_fragments_and_drops_empty_ones() {
    let out = merge(vec![chars(" \u{3002} a \u{3002}")], 10);
    assert_eq!(strings(&out), vec![String::from("a\u{3002}")]);
}

#[test]
fn merge_empty_input_is_empty() {
    let out = merge(Vec::new(), 5);
    assert!(out.is_empty());
}

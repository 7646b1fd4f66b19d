use librubyfmt::comment_block::CommentBlock;
use librubyfmt::comment_block::Merge;

fn block(start: u64, end: u64, lines: &[&str]) -> CommentBlock {
    CommentBlock::new(start..end, lines.iter().map(|s| s.to_string()).collect())
}

fn texts(b: CommentBlock) -> Vec<String> {
    b.into_line_tokens().into_iter().map(|t| t.into_ruby()).collect()
}

#[test]
fn block_knows_its_span_and_length() {
    let b = block(3, 6, &["# a", "# b"]);
    assert_eq!(b.span_start(), 3);
    assert_eq!(b.following_line_number(), 6);
    assert_eq!(b.len(), 2);
    assert!(b.has_comments());
    let empty = block(9, 4, &[]);
    assert_eq!(empty.len(), 0);
    assert!(!empty.has_comments());
}

#[test]
fn add_line_extends_the_span_by_one() {
    let mut b = block(1, 2, &["# a"]);
    b.add_line("# b".to_string());
    assert_eq!(b.following_line_number(), 3);
    assert_eq!(b.span_start(), 1);
    assert_eq!(texts(b), vec!["# a\n", "# b\n"]);
}

#[test]
fn into_line_tokens_makes_one_comment_token_per_line() {
    let ts = block(1, 3, &["# a", "# b"]).into_line_tokens();
    assert_eq!(ts.len(), 2);
    assert!(ts.iter().all(|t| t.is_comment()));
    assert!(block(1, 1, &[]).into_line_tokens().is_empty());
}

#[test]
fn apply_spaces_indents_every_line() {
    let b = block(1, 3, &["# a", "# b"]).apply_spaces(4);
    assert_eq!(b.following_line_number(), 3);
    assert_eq!(texts(b), vec!["    # a\n", "    # b\n"]);
    assert_eq!(texts(block(1, 2, &["# a"]).apply_spaces(0)), vec!["# a\n"]);
}

#[test]
fn merge_appends_the_lines_and_keeps_the_span() {
    let mut a = block(1, 3, &["# a", "# b"]);
    a.merge(block(7, 9, &["# c"]));
    assert_eq!(a.span_start(), 1);
    assert_eq!(a.following_line_number(), 3);
    assert_eq!(texts(a), vec!["# a\n", "# b\n", "# c\n"]);
}

#[test]
fn merge_into_an_empty_slot_fills_it() {
    let mut slot: Option<CommentBlock> = None;
    slot.merge(block(7, 9, &["# c"]));
    let b = slot.unwrap();
    assert_eq!(b.span_start(), 7);
    assert_eq!(texts(b), vec!["# c\n"]);
}

#[test]
fn merge_into_a_full_slot_appends() {
    let mut slot = Some(block(1, 2, &["# a"]));
    slot.merge(block(7, 9, &["# c"]));
    let b = slot.unwrap();
    assert_eq!(b.following_line_number(), 2);
    assert_eq!(texts(b), vec!["# a\n", "# c\n"]);
}

use librubyfmt::comment_block::CommentBlock;
use librubyfmt::file_comments::CommentError;
use librubyfmt::file_comments::FileComments;

fn store(pairs: &[(i64, &str)]) -> FileComments {
    FileComments::from_pairs(pairs.iter().map(|(l, s)| (*l, s.to_string())).collect()).unwrap()
}

fn fault(pairs: &[(i64, &str)]) -> CommentError {
    FileComments::from_pairs(pairs.iter().map(|(l, s)| (*l, s.to_string())).collect()).unwrap_err()
}

fn lines(b: CommentBlock) -> Vec<String> {
    b.into_line_tokens().into_iter().map(|t| t.into_ruby()).collect()
}

#[test]
fn default_store_is_empty() {
    let mut fc = FileComments::default();
    assert!(fc.is_empty());
    assert!(fc.take_start_of_file_contiguous_comment_lines().is_none());
    assert!(fc.extract_comments_to_line(100).is_none());
}

#[test]
fn header_comment_is_the_leading_block() {
    let mut fc = store(&[(1, "# header")]);
    assert!(!fc.is_empty());
    let b = fc.take_start_of_file_contiguous_comment_lines().unwrap();
    assert_eq!(b.len(), 1);
    assert_eq!(b.span_start(), 1);
    assert_eq!(b.following_line_number(), 2);
    assert_eq!(lines(b), vec!["# header\n"]);
    assert!(fc.take_start_of_file_contiguous_comment_lines().is_none());
    assert!(fc.extract_comments_to_line(1).is_none());
    assert!(fc.is_empty());
}

#[test]
fn leading_block_takes_the_lines_that_follow_line_one() {
    let mut fc = store(&[(1, "# a"), (2, "# b"), (3, "# c"), (5, "# e")]);
    let b = fc.take_start_of_file_contiguous_comment_lines().unwrap();
    assert_eq!(b.following_line_number(), 4);
    assert_eq!(lines(b), vec!["# a\n", "# b\n", "# c\n"]);
    let rest = fc.extract_comments_to_line(5).unwrap();
    assert_eq!(lines(rest), vec!["# e\n"]);
}

#[test]
fn without_line_one_there_is_no_leading_block() {
    let mut fc = store(&[(2, "# b"), (3, "# c")]);
    assert!(fc.take_start_of_file_contiguous_comment_lines().is_none());
    assert!(fc.holds_line(2));
    assert!(fc.holds_line(3));
    assert!(!fc.holds_line(1));
}

#[test]
fn comment_texts_are_trimmed() {
    let mut fc = store(&[(4, "  # padded \n")]);
    assert_eq!(lines(fc.extract_comments_to_line(4).unwrap()), vec!["# padded\n"]);
}

#[test]
fn extract_hands_out_the_lines_up_to_the_given_one_in_order() {
    let mut fc = store(&[(9, "# i"), (3, "# c"), (6, "# f"), (12, "# l")]);
    let b = fc.extract_comments_to_line(6).unwrap();
    assert_eq!(b.span_start(), 3);
    assert_eq!(b.following_line_number(), 7);
    assert_eq!(lines(b), vec!["# c\n", "# f\n"]);
    assert!(!fc.holds_line(3));
    assert!(!fc.holds_line(6));
    assert!(fc.holds_line(9));
    let b = fc.extract_comments_to_line(9).unwrap();
    assert_eq!(b.span_start(), 9);
    assert_eq!(lines(b), vec!["# i\n"]);
    let b = fc.extract_comments_to_line(1_000_000).unwrap();
    assert_eq!(lines(b), vec!["# l\n"]);
    assert!(fc.extract_comments_to_line(1_000_000).is_none());
    assert!(fc.is_empty());
}

#[test]
fn extract_before_the_lowest_line_hands_out_an_empty_block() {
    let mut fc = store(&[(8, "# h")]);
    let b = fc.extract_comments_to_line(5).unwrap();
    assert_eq!(b.len(), 0);
    assert_eq!(b.span_start(), 8);
    assert_eq!(b.following_line_number(), 6);
    assert!(fc.holds_line(8));
}

#[test]
fn extract_takes_a_comment_on_line_zero() {
    let mut fc = store(&[(0, "# z"), (2, "# b")]);
    let b = fc.extract_comments_to_line(0).unwrap();
    assert_eq!(lines(b), vec!["# z\n"]);
    assert!(fc.holds_line(2));
}

#[test]
fn negative_line_is_refused() {
    assert_eq!(fault(&[(-1, "# a")]), CommentError::NegativeLine);
    assert_eq!(fault(&[(3, "# a"), (i64::MIN, "# b")]), CommentError::NegativeLine);
}

#[test]
fn duplicate_line_is_refused() {
    assert_eq!(fault(&[(3, "# a"), (4, "# b"), (3, "# c")]), CommentError::DuplicateLine);
    assert_eq!(fault(&[(1, "# a"), (1, "# b")]), CommentError::DuplicateLine);
    assert_eq!(fault(&[(1, "# a"), (2, "# b"), (2, "# c")]), CommentError::DuplicateLine);
}

#[test]
fn line_one_behind_another_line_is_refused() {
    assert_eq!(fault(&[(3, "# a"), (1, "# b")]), CommentError::MisplacedFirstLine);
}

#[test]
fn the_first_fault_is_reported() {
    assert_eq!(fault(&[(3, "# a"), (3, "# b"), (-1, "# c")]), CommentError::DuplicateLine);
    assert_eq!(fault(&[(3, "# a"), (-2, "# b"), (3, "# c")]), CommentError::NegativeLine);
    assert_eq!(fault(&[(3, "# a"), (1, "# b"), (1, "# c")]), CommentError::MisplacedFirstLine);
}

#[test]
fn no_pairs_make_an_empty_store() {
    assert!(store(&[]).is_empty());
}

#[test]
fn push_comment_builds_the_store_line_by_line() {
    let mut fc = FileComments::default();
    fc.push_comment(1, "# a".to_string());
    fc.push_comment(2, "# b".to_string());
    fc.push_comment(7, "# g".to_string());
    fc.push_comment(3, "# c".to_string());
    assert!(fc.holds_line(1) && fc.holds_line(2) && fc.holds_line(3) && fc.holds_line(7));
    assert!(!fc.holds_line(4));
    let b = fc.take_start_of_file_contiguous_comment_lines().unwrap();
    assert_eq!(lines(b), vec!["# a\n", "# b\n", "# c\n"]);
    assert!(!fc.holds_line(1));
    assert_eq!(lines(fc.extract_comments_to_line(7).unwrap()), vec!["# g\n"]);
}

#[test]
fn no_comment_is_handed_out_twice() {
    let mut fc = store(&[(3, "# three"), (5, "# five"), (9, "# nine")]);
    assert_eq!(lines(fc.extract_comments_to_line(5).unwrap()), vec!["# three\n", "# five\n"]);
    // the same line again, and a line before it
    assert!(lines(fc.extract_comments_to_line(5).unwrap()).is_empty());
    assert!(lines(fc.extract_comments_to_line(2).unwrap()).is_empty());
    // only the lines behind the one that was asked for come next
    assert_eq!(lines(fc.extract_comments_to_line(20).unwrap()), vec!["# nine\n"]);
}

#[test]
fn an_empty_store_hands_nothing_out() {
    let mut fc = store(&[(3, "# three"), (5, "# five")]);
    assert_eq!(lines(fc.extract_comments_to_line(5).unwrap()).len(), 2);
    assert!(fc.is_empty());
    assert!(fc.extract_comments_to_line(5).is_none());
    assert!(fc.extract_comments_to_line(100).is_none());
    assert!(fc.extract_comments_to_line(0).is_none());
}

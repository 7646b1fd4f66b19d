use librubyfmt::delimiters::BreakableDelims;
use librubyfmt::line_tokens::LineToken;
use librubyfmt::render_targets::BaseQueue;
use librubyfmt::render_targets::BreakableEntry;
use librubyfmt::render_targets::ConvertType;

fn lit(s: &str) -> LineToken {
    LineToken::DirectPart { part: s.to_string() }
}

fn shown(ts: &Vec<LineToken>) -> Vec<String> {
    ts.iter().map(|t| format!("{:?}", t)).collect()
}

fn names(ss: &[&str]) -> Vec<String> {
    ss.iter().map(|s| s.to_string()).collect()
}

#[test]
fn base_queue_keeps_tokens_in_order() {
    let mut q = BaseQueue::new();
    assert_eq!(q.len(), 0);
    q.push(lit("a"));
    q.push(LineToken::HardNewLine);
    q.push(lit("b"));
    assert_eq!(q.len(), 3);
    let ts = q.into_tokens(ConvertType::SingleLine);
    assert_eq!(
        shown(&ts),
        names(&["DirectPart { part: \"a\" }", "HardNewLine", "DirectPart { part: \"b\" }"])
    );
}

#[test]
fn base_queue_is_never_converted() {
    let mut q = BaseQueue::new();
    q.push(LineToken::SoftNewline);
    q.push(LineToken::CollapsingNewLine);
    let ts = q.into_tokens(ConvertType::SingleLine);
    assert_eq!(shown(&ts), names(&["SoftNewline", "CollapsingNewLine"]));
}

#[test]
fn base_queue_insert_at_splices_and_empties_the_input() {
    let mut q = BaseQueue::new();
    q.push(lit("a"));
    q.push(lit("d"));
    let mut input = vec![lit("b"), lit("c")];
    q.insert_at(1, &mut input);
    assert!(input.is_empty());
    let text: String = q.into_tokens(ConvertType::MultiLine).into_iter().map(|t| t.into_ruby()).collect();
    assert_eq!(text, "abcd");
}

#[test]
fn base_queue_insert_at_both_ends() {
    let mut q = BaseQueue::new();
    q.push(lit("m"));
    q.insert_at(0, &mut vec![lit("a")]);
    q.insert_at(2, &mut vec![lit("z")]);
    let text: String = q.into_tokens(ConvertType::MultiLine).into_iter().map(|t| t.into_ruby()).collect();
    assert_eq!(text, "amz");
}

#[test]
fn last_token_is_a_newline_looks_at_the_last_token_only() {
    let mut q = BaseQueue::new();
    assert!(!q.last_token_is_a_newline());
    q.push(LineToken::HardNewLine);
    assert!(q.last_token_is_a_newline());
    q.push(lit("a"));
    assert!(!q.last_token_is_a_newline());
    q.push(LineToken::SoftNewline);
    assert!(q.last_token_is_a_newline());
    q.push(LineToken::Comment { contents: "# c".to_string() });
    assert!(!q.last_token_is_a_newline());
}

#[test]
fn index_of_prev_hard_newline_finds_the_last_line_end() {
    let mut q = BaseQueue::new();
    assert_eq!(q.index_of_prev_hard_newline(), None);
    q.push(lit("a"));
    assert_eq!(q.index_of_prev_hard_newline(), None);
    q.push(LineToken::HardNewLine);
    q.push(lit("b"));
    assert_eq!(q.index_of_prev_hard_newline(), Some(1));
    q.push(LineToken::Comment { contents: "# c".to_string() });
    q.push(lit("d"));
    q.push(lit("e"));
    assert_eq!(q.index_of_prev_hard_newline(), Some(3));
    q.push(LineToken::CollapsingNewLine);
    assert_eq!(q.index_of_prev_hard_newline(), Some(6));
}

#[test]
fn group_targets_behave_like_the_root() {
    let mut be = BreakableEntry::new(4, BreakableDelims::for_hash());
    assert_eq!(be.len(), 0);
    assert!(!be.last_token_is_a_newline());
    assert_eq!(be.index_of_prev_hard_newline(), None);
    be.push(lit("a"));
    be.push(LineToken::SoftNewline);
    be.push(lit("c"));
    assert_eq!(be.index_of_prev_hard_newline(), Some(1));
    be.insert_at(2, &mut vec![lit("b")]);
    assert_eq!(be.len(), 4);
    assert!(!be.last_token_is_a_newline());
    assert_eq!(be.single_line_ruby(), "{a bc}");
}

#[test]
fn into_tokens_single_line_wraps_and_converts() {
    let mut be = BreakableEntry::new(0, BreakableDelims::for_return_kw());
    be.push(LineToken::CollapsingNewLine);
    be.push(LineToken::SoftIndent { depth: 2 });
    be.push(lit("1"));
    be.push(LineToken::SoftNewline);
    let ts = be.into_tokens(ConvertType::SingleLine);
    assert_eq!(
        shown(&ts),
        names(&[
            "Delim { contents: \" \" }",
            "DirectPart { part: \"\" }",
            "DirectPart { part: \"\" }",
            "DirectPart { part: \"1\" }",
            "Space",
            "Delim { contents: \"\" }",
        ])
    );
}

#[test]
fn into_tokens_multi_line_wraps_and_keeps() {
    let mut be = BreakableEntry::new(0, BreakableDelims::for_return_kw());
    be.push(LineToken::CollapsingNewLine);
    be.push(LineToken::SoftIndent { depth: 2 });
    be.push(lit("1"));
    be.push(LineToken::SoftNewline);
    let ts = be.into_tokens(ConvertType::MultiLine);
    assert_eq!(
        shown(&ts),
        names(&[
            "Delim { contents: \" [\" }",
            "CollapsingNewLine",
            "SoftIndent { depth: 2 }",
            "DirectPart { part: \"1\" }",
            "SoftNewline",
            "Delim { contents: \"]\" }",
        ])
    );
}

#[test]
fn into_tokens_of_an_empty_group_is_its_delimiters() {
    let be = BreakableEntry::new(0, BreakableDelims::for_array());
    let ts = be.into_tokens(ConvertType::SingleLine);
    assert_eq!(shown(&ts), names(&["Delim { contents: \"[\" }", "Delim { contents: \"]\" }"]));
}

#[test]
fn single_line_string_length_sums_the_children_without_delimiters() {
    let mut be = BreakableEntry::new(0, BreakableDelims::for_method_call());
    assert_eq!(be.single_line_string_length(), 0);
    be.push(LineToken::CollapsingNewLine); // 0
    be.push(LineToken::SoftIndent { depth: 10 }); // 0
    be.push(lit("abc")); // 3
    be.push(LineToken::Comma); // 1
    be.push(LineToken::SoftNewline); // 1
    be.push(LineToken::Indent { depth: 4 }); // 4
    be.push(LineToken::Comment { contents: "# x".to_string() }); // 4
    assert_eq!(be.single_line_string_length(), 13);
}

#[test]
fn single_line_string_length_counts_bytes() {
    let mut be = BreakableEntry::new(0, BreakableDelims::for_method_call());
    be.push(lit("é")); // two bytes
    be.push(lit("日本")); // six bytes
    assert_eq!(be.single_line_string_length(), 8);
}

#[test]
fn single_line_string_length_counts_nested_groups_with_their_delimiters() {
    let mut inner = BreakableEntry::new(0, BreakableDelims::for_array());
    inner.push(lit("12"));
    inner.push(LineToken::SoftNewline);
    assert_eq!(inner.single_line_string_length(), 3);
    let mut outer = BreakableEntry::new(0, BreakableDelims::for_method_call());
    outer.push(LineToken::BreakableEntry(inner));
    assert_eq!(outer.single_line_string_length(), 5);
}

#[test]
fn group_is_multiline_once_it_touched_two_lines() {
    let mut be = BreakableEntry::new(0, BreakableDelims::for_array());
    assert!(!be.is_multiline());
    be.push_line_number(7);
    assert!(!be.is_multiline());
    be.push_line_number(7);
    assert!(!be.is_multiline());
    be.push_line_number(8);
    assert!(be.is_multiline());
}

#[test]
fn a_clone_of_a_group_holds_what_the_group_holds() {
    let mut inner = BreakableEntry::new(2, BreakableDelims::for_array());
    inner.push(lit("x"));
    inner.push_line_number(7);
    let mut be = BreakableEntry::new(4, BreakableDelims::for_method_call());
    be.push(lit("a"));
    be.push(LineToken::BreakableEntry(inner));
    be.push(LineToken::SoftNewline);
    be.push_line_number(3);
    let copy = be.clone();
    assert_eq!(format!("{:?}", copy), format!("{:?}", be));
    assert_eq!(copy.len(), 3);
    assert!(!copy.is_multiline());
    assert_eq!(copy.single_line_ruby(), be.single_line_ruby());
    // the copy is a value of its own
    let mut copy = copy;
    copy.push(lit("b"));
    copy.push_line_number(4);
    assert_eq!(be.len(), 3);
    assert!(!be.is_multiline());
    assert!(copy.is_multiline());
    assert_eq!(shown(&copy.into_tokens(ConvertType::MultiLine)).len(), 6);
}

#[test]
fn a_clone_of_the_root_queue_holds_the_same_tokens() {
    let mut q = BaseQueue::new();
    q.push(lit("a"));
    q.push(LineToken::HardNewLine);
    let mut copy = q.clone();
    copy.push(lit("b"));
    assert_eq!(q.len(), 2);
    assert_eq!(copy.len(), 3);
    assert_eq!(
        shown(&q.into_tokens(ConvertType::MultiLine)),
        names(&["DirectPart { part: \"a\" }", "HardNewLine"])
    );
}

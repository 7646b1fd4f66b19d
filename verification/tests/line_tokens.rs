use librubyfmt::delimiters::BreakableDelims;
use librubyfmt::line_tokens::LineToken;
use librubyfmt::render_targets::BreakableEntry;

fn part(s: &str) -> LineToken {
    LineToken::DirectPart { part: s.to_string() }
}

#[test]
fn every_fixed_token_renders_its_text() {
    assert_eq!(LineToken::CollapsingNewLine.into_ruby(), "\n");
    assert_eq!(LineToken::HardNewLine.into_ruby(), "\n");
    assert_eq!(LineToken::SoftNewline.into_ruby(), "\n");
    assert_eq!(LineToken::DoKeyword.into_ruby(), "do");
    assert_eq!(LineToken::ClassKeyword.into_ruby(), "class");
    assert_eq!(LineToken::DefKeyword.into_ruby(), "def");
    assert_eq!(LineToken::ModuleKeyword.into_ruby(), "module");
    assert_eq!(LineToken::CommaSpace.into_ruby(), ", ");
    assert_eq!(LineToken::Comma.into_ruby(), ",");
    assert_eq!(LineToken::Space.into_ruby(), " ");
    assert_eq!(LineToken::Dot.into_ruby(), ".");
    assert_eq!(LineToken::ColonColon.into_ruby(), "::");
    assert_eq!(LineToken::LonelyOperator.into_ruby(), "&.");
    assert_eq!(LineToken::OpenSquareBracket.into_ruby(), "[");
    assert_eq!(LineToken::CloseSquareBracket.into_ruby(), "]");
    assert_eq!(LineToken::OpenCurlyBracket.into_ruby(), "{");
    assert_eq!(LineToken::CloseCurlyBracket.into_ruby(), "}");
    assert_eq!(LineToken::OpenParen.into_ruby(), "(");
    assert_eq!(LineToken::CloseParen.into_ruby(), ")");
    assert_eq!(LineToken::DoubleQuote.into_ruby(), "\"");
    assert_eq!(LineToken::SingleSlash.into_ruby(), "\\");
    assert_eq!(LineToken::End.into_ruby(), "end");
}

#[test]
fn tokens_with_text_render_that_text() {
    assert_eq!(LineToken::Keyword { keyword: "case".to_string() }.into_ruby(), "case");
    assert_eq!(LineToken::ModKeyword { contents: "unless".to_string() }.into_ruby(), "unless");
    assert_eq!(LineToken::ConditionalKeyword { contents: "if".to_string() }.into_ruby(), "if");
    assert_eq!(part("foo").into_ruby(), "foo");
    assert_eq!(LineToken::Op { op: "+".to_string() }.into_ruby(), "+");
    assert_eq!(LineToken::LTStringContent { content: "héllo".to_string() }.into_ruby(), "héllo");
    assert_eq!(LineToken::Delim { contents: " [".to_string() }.into_ruby(), " [");
}

#[test]
fn indents_render_as_blanks() {
    assert_eq!(LineToken::Indent { depth: 0 }.into_ruby(), "");
    assert_eq!(LineToken::Indent { depth: 4 }.into_ruby(), "    ");
    assert_eq!(LineToken::SoftIndent { depth: 2 }.into_ruby(), "  ");
}

#[test]
fn comment_renders_with_a_newline_behind_it() {
    assert_eq!(LineToken::Comment { contents: "# hi".to_string() }.into_ruby(), "# hi\n");
}

#[test]
fn ruby_text_leaves_the_token_in_place() {
    let t = part("abc");
    assert_eq!(t.ruby_text(), "abc");
    assert_eq!(t.into_ruby(), "abc");
}

#[test]
fn single_line_conversion_collapses_soft_tokens() {
    assert_eq!(LineToken::CollapsingNewLine.into_single_line().into_ruby(), "");
    assert_eq!(LineToken::SoftNewline.into_single_line().into_ruby(), " ");
    assert_eq!(LineToken::SoftIndent { depth: 6 }.into_single_line().into_ruby(), "");
    assert!(matches!(
        LineToken::CollapsingNewLine.into_single_line(),
        LineToken::DirectPart { .. }
    ));
    assert!(matches!(LineToken::SoftNewline.into_single_line(), LineToken::Space));
}

#[test]
fn single_line_conversion_keeps_other_tokens() {
    assert!(matches!(LineToken::HardNewLine.into_single_line(), LineToken::HardNewLine));
    assert!(matches!(LineToken::Indent { depth: 3 }.into_single_line(), LineToken::Indent { depth: 3 }));
    assert_eq!(part("x").into_single_line().into_ruby(), "x");
    assert!(matches!(LineToken::Comma.into_single_line(), LineToken::Comma));
}

#[test]
fn single_line_ruby_text_matches_the_conversion() {
    assert_eq!(LineToken::SoftNewline.single_line_ruby_text(), " ");
    assert_eq!(LineToken::CollapsingNewLine.single_line_ruby_text(), "");
    assert_eq!(LineToken::SoftIndent { depth: 8 }.single_line_ruby_text(), "");
    assert_eq!(LineToken::Indent { depth: 2 }.single_line_ruby_text(), "  ");
    assert_eq!(part("y").single_line_ruby_text(), "y");
}

#[test]
fn multi_line_conversion_is_the_identity() {
    assert!(matches!(LineToken::SoftNewline.into_multi_line(), LineToken::SoftNewline));
    assert!(matches!(LineToken::CollapsingNewLine.into_multi_line(), LineToken::CollapsingNewLine));
    assert!(matches!(
        LineToken::SoftIndent { depth: 2 }.into_multi_line(),
        LineToken::SoftIndent { depth: 2 }
    ));
}

#[test]
fn only_indent_is_an_indent() {
    assert!(LineToken::Indent { depth: 0 }.is_indent());
    assert!(!LineToken::SoftIndent { depth: 0 }.is_indent());
    assert!(!LineToken::Space.is_indent());
}

#[test]
fn only_comment_is_a_comment() {
    assert!(LineToken::Comment { contents: "#".to_string() }.is_comment());
    assert!(!part("#").is_comment());
}

#[test]
fn the_three_newline_tokens_are_newlines() {
    assert!(LineToken::HardNewLine.is_newline());
    assert!(LineToken::SoftNewline.is_newline());
    assert!(LineToken::CollapsingNewLine.is_newline());
    assert!(!LineToken::Space.is_newline());
    assert!(!part("x").is_newline());
    assert!(!LineToken::Comment { contents: "# c".to_string() }.is_newline());
}

#[test]
fn text_that_holds_a_newline_is_no_newline_token() {
    assert!(!part("a\n").is_newline());
    assert!(!part("\n\n").is_newline());
    assert!(!part("").is_newline());
}

#[test]
fn a_lone_newline_as_text_is_told_apart() {
    assert!(part("\n").is_newline_part());
    assert!(!part("\n\n").is_newline_part());
    assert!(!part("").is_newline_part());
    assert!(!part("n").is_newline_part());
    assert!(!LineToken::HardNewLine.is_newline_part());
    assert!(!LineToken::Keyword { keyword: "\n".to_string() }.is_newline_part());
}

#[test]
fn walking_a_token_tells_the_indent_of_the_line() {
    assert_eq!(LineToken::Indent { depth: 2 }.walk_indents(false), Some(true));
    assert_eq!(LineToken::Indent { depth: 2 }.walk_indents(true), None);
    assert_eq!(LineToken::HardNewLine.walk_indents(true), Some(false));
    assert_eq!(LineToken::SoftNewline.walk_indents(true), Some(true));
    assert_eq!(LineToken::SoftIndent { depth: 2 }.walk_indents(true), Some(true));
    assert_eq!(part("a").walk_indents(false), Some(false));
}

#[test]
fn block_closing_tokens() {
    assert!(LineToken::End.is_block_closing_token());
    assert!(part("}").is_block_closing_token());
    assert!(part("]").is_block_closing_token());
    assert!(!part(")").is_block_closing_token());
    assert!(!LineToken::CloseCurlyBracket.is_block_closing_token());
    assert!(!LineToken::DefKeyword.is_block_closing_token());
}

#[test]
fn else_and_elsif_are_not_conditional_spaced() {
    let cond = |s: &str| LineToken::ConditionalKeyword { contents: s.to_string() };
    assert!(!cond("else").is_conditional_spaced_token());
    assert!(!cond("elsif").is_conditional_spaced_token());
    assert!(cond("if").is_conditional_spaced_token());
    assert!(cond("unless").is_conditional_spaced_token());
    assert!(LineToken::End.is_conditional_spaced_token());
    assert!(part("else").is_conditional_spaced_token());
}

#[test]
fn trailing_blankline_is_wanted_by_neither_else_nor_block_closers() {
    let cond = |s: &str| LineToken::ConditionalKeyword { contents: s.to_string() };
    assert!(part("foo").is_in_need_of_a_trailing_blankline());
    assert!(cond("if").is_in_need_of_a_trailing_blankline());
    assert!(LineToken::DefKeyword.is_in_need_of_a_trailing_blankline());
    assert!(!cond("else").is_in_need_of_a_trailing_blankline());
    assert!(!cond("elsif").is_in_need_of_a_trailing_blankline());
    assert!(!LineToken::End.is_in_need_of_a_trailing_blankline());
    assert!(!part("}").is_in_need_of_a_trailing_blankline());
    assert!(!part("]").is_in_need_of_a_trailing_blankline());
}

#[test]
fn single_line_breakable_garbage() {
    assert!(LineToken::Comma.is_single_line_breakable_garbage());
    assert!(LineToken::Space.is_single_line_breakable_garbage());
    assert!(LineToken::SoftNewline.is_single_line_breakable_garbage());
    assert!(part("").is_single_line_breakable_garbage());
    assert!(!part(" ").is_single_line_breakable_garbage());
    assert!(!LineToken::CommaSpace.is_single_line_breakable_garbage());
    assert!(!LineToken::Delim { contents: "".to_string() }.is_single_line_breakable_garbage());
    assert!(!LineToken::HardNewLine.is_single_line_breakable_garbage());
}

#[test]
fn nested_group_renders_on_one_line() {
    let mut be = BreakableEntry::new(0, BreakableDelims::for_array());
    be.push(LineToken::CollapsingNewLine);
    be.push(LineToken::SoftIndent { depth: 2 });
    be.push(part("1"));
    be.push(LineToken::Comma);
    be.push(LineToken::SoftNewline);
    be.push(LineToken::SoftIndent { depth: 2 });
    be.push(part("2"));
    be.push(LineToken::CollapsingNewLine);
    assert_eq!(LineToken::BreakableEntry(be).into_ruby(), "[1, 2]");
}

#[test]
fn group_within_group_renders_on_one_line() {
    let mut inner = BreakableEntry::new(2, BreakableDelims::for_hash());
    inner.push(part("a: 1"));
    let mut outer = BreakableEntry::new(0, BreakableDelims::for_method_call());
    outer.push(part("x"));
    outer.push(LineToken::Comma);
    outer.push(LineToken::SoftNewline);
    outer.push(LineToken::BreakableEntry(inner));
    assert_eq!(LineToken::BreakableEntry(outer).into_ruby(), "(x, {a: 1})");
}

#[test]
fn a_clone_of_a_token_is_the_same_token() {
    let tokens = vec![
        LineToken::HardNewLine,
        LineToken::Indent { depth: 4 },
        LineToken::Keyword { keyword: "yield".to_string() },
        LineToken::Comment { contents: "# c".to_string() },
        LineToken::Delim { contents: "(".to_string() },
        part("x"),
    ];
    for t in tokens {
        let copy = t.clone();
        assert_eq!(format!("{:?}", copy), format!("{:?}", t));
        assert_eq!(copy.into_ruby(), t.into_ruby());
    }
}

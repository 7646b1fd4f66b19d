use librubyfmt::intermediary::BlanklineReason;
use librubyfmt::intermediary::Intermediary;
use librubyfmt::line_tokens::LineToken;

fn word(s: &str) -> LineToken {
    LineToken::DirectPart { part: s.to_string() }
}

fn cond(s: &str) -> LineToken {
    LineToken::ConditionalKeyword { contents: s.to_string() }
}

fn pass(tokens: Vec<LineToken>) -> String {
    let mut acc = Intermediary::new();
    for t in tokens {
        acc.push(t);
    }
    acc.into_tokens().into_iter().map(|t| t.into_ruby()).collect()
}

fn kinds(acc: Intermediary) -> Vec<String> {
    acc.into_tokens().iter().map(|t| format!("{:?}", t)).collect()
}

#[test]
fn new_intermediary_is_empty() {
    let acc = Intermediary::new();
    assert_eq!(acc.len(), 0);
    assert!(acc.last_4().is_none());
    assert!(acc.into_tokens().is_empty());
}

#[test]
fn plain_tokens_pass_through() {
    assert_eq!(pass(vec![word("a"), LineToken::Space, word("b"), LineToken::HardNewLine]), "a b\n");
}

#[test]
fn last_4_hands_out_the_last_four_tokens() {
    let mut acc = Intermediary::new();
    acc.push(word("a"));
    acc.push(word("b"));
    acc.push(word("c"));
    assert!(acc.last_4().is_none());
    acc.push(word("d"));
    acc.push(word("e"));
    let (w, x, y, z) = acc.last_4().unwrap();
    assert_eq!(w.ruby_text(), "b");
    assert_eq!(x.ruby_text(), "c");
    assert_eq!(y.ruby_text(), "d");
    assert_eq!(z.ruby_text(), "e");
    assert_eq!(acc.len(), 5);
}

#[test]
fn two_hard_newlines_stay() {
    assert_eq!(pass(vec![word("a"), LineToken::HardNewLine, LineToken::HardNewLine, word("b")]), "a\n\nb");
}

#[test]
fn a_third_hard_newline_is_dropped() {
    assert_eq!(
        pass(vec![
            word("a"),
            LineToken::HardNewLine,
            LineToken::HardNewLine,
            LineToken::HardNewLine,
            LineToken::HardNewLine,
            word("b"),
        ]),
        "a\n\nb"
    );
}

#[test]
fn end_of_require_block_gets_a_blank_line() {
    let tokens = vec![
        LineToken::Indent { depth: 0 },
        word("require"),
        word(" 'a'"),
        LineToken::HardNewLine,
        LineToken::Indent { depth: 0 },
        word("require"),
        word(" 'b'"),
        LineToken::HardNewLine,
        LineToken::Indent { depth: 0 },
        word("foo"),
        LineToken::HardNewLine,
        LineToken::Indent { depth: 0 },
        word("bar"),
        LineToken::HardNewLine,
    ];
    assert_eq!(pass(tokens), "require 'a'\nrequire 'b'\n\nfoo\nbar\n");
}

#[test]
fn require_counts_only_directly_behind_the_indent() {
    let tokens = vec![
        LineToken::Indent { depth: 0 },
        word("x"),
        word("require"),
        LineToken::HardNewLine,
        LineToken::Indent { depth: 0 },
        word("foo"),
        LineToken::HardNewLine,
    ];
    assert_eq!(pass(tokens), "xrequire\nfoo\n");
}

#[test]
fn class_after_a_line_that_did_not_get_indented_gets_a_blank_line() {
    let tokens = vec![
        LineToken::Indent { depth: 0 },
        word("x = 1"),
        LineToken::HardNewLine,
        LineToken::Indent { depth: 0 },
        LineToken::ClassKeyword,
        word(" Foo"),
        LineToken::HardNewLine,
    ];
    assert_eq!(pass(tokens), "x = 1\n\nclass Foo\n");
}

#[test]
fn module_after_a_line_that_did_not_get_indented_gets_a_blank_line() {
    let tokens = vec![
        LineToken::Indent { depth: 2 },
        word("x"),
        LineToken::HardNewLine,
        LineToken::Indent { depth: 2 },
        LineToken::ModuleKeyword,
        word(" M"),
    ];
    assert_eq!(pass(tokens), "  x\n\n  module M");
}

#[test]
fn class_directly_inside_a_module_gets_no_blank_line() {
    let tokens = vec![
        LineToken::Indent { depth: 0 },
        LineToken::ModuleKeyword,
        word(" A"),
        LineToken::HardNewLine,
        LineToken::Indent { depth: 2 },
        LineToken::ClassKeyword,
        word(" B"),
        LineToken::HardNewLine,
    ];
    assert_eq!(pass(tokens), "module A\n  class B\n");
}

#[test]
fn class_on_the_first_line_gets_no_blank_line() {
    assert_eq!(pass(vec![LineToken::Indent { depth: 0 }, LineToken::ClassKeyword, word(" A")]), "class A");
}

#[test]
fn do_after_a_plain_line_gets_a_blank_line() {
    let tokens = vec![
        LineToken::Indent { depth: 0 },
        word("a"),
        LineToken::HardNewLine,
        LineToken::Indent { depth: 0 },
        word("b "),
        LineToken::DoKeyword,
        LineToken::HardNewLine,
    ];
    assert_eq!(pass(tokens), "a\n\nb do\n");
}

#[test]
fn do_after_end_def_do_or_a_conditional_gets_no_blank_line() {
    for opener in [LineToken::End, LineToken::DefKeyword, LineToken::DoKeyword, cond("unless")] {
        let tokens = vec![
            LineToken::Indent { depth: 0 },
            opener,
            LineToken::HardNewLine,
            LineToken::Indent { depth: 0 },
            word("b "),
            LineToken::DoKeyword,
        ];
        let text = pass(tokens);
        assert!(!text.contains("\n\n"), "{:?}", text);
    }
}

#[test]
fn if_after_a_plain_line_gets_a_blank_line() {
    let tokens = vec![
        LineToken::Indent { depth: 0 },
        word("a"),
        LineToken::HardNewLine,
        LineToken::Indent { depth: 0 },
        cond("if"),
        word(" x"),
    ];
    assert_eq!(pass(tokens), "a\n\nif x");
}

#[test]
fn other_conditionals_get_no_blank_line() {
    for kw in ["unless", "else", "elsif", "while", "case"] {
        let tokens = vec![
            LineToken::Indent { depth: 0 },
            word("a"),
            LineToken::HardNewLine,
            LineToken::Indent { depth: 0 },
            cond(kw),
        ];
        assert_eq!(pass(tokens), format!("a\n{}", kw));
    }
}

#[test]
fn if_on_a_deeper_line_gets_no_blank_line() {
    let tokens = vec![
        LineToken::Indent { depth: 0 },
        word("a"),
        LineToken::HardNewLine,
        LineToken::Indent { depth: 2 },
        cond("if"),
    ];
    assert_eq!(pass(tokens), "a\n  if");
}

#[test]
fn a_blank_line_is_put_in_once_when_two_rules_ask_for_it() {
    // the line ends a run of requires and the next starts with a class
    let tokens = vec![
        LineToken::Indent { depth: 0 },
        word("require"),
        LineToken::HardNewLine,
        LineToken::Indent { depth: 0 },
        LineToken::ClassKeyword,
        LineToken::HardNewLine,
    ];
    assert_eq!(pass(tokens), "require\n\nclass\n");
}

#[test]
fn insert_trailing_blankline_puts_a_hard_newline_behind_the_previous_line() {
    let mut acc = Intermediary::new();
    acc.push(word("a"));
    acc.push(LineToken::HardNewLine);
    acc.push(word("b"));
    acc.insert_trailing_blankline(BlanklineReason::Conditional);
    assert_eq!(
        kinds(acc),
        vec!["DirectPart { part: \"a\" }", "HardNewLine", "HardNewLine", "DirectPart { part: \"b\" }"]
    );
}

#[test]
fn insert_trailing_blankline_twice_is_once() {
    let mut acc = Intermediary::new();
    acc.push(word("a"));
    acc.push(LineToken::HardNewLine);
    acc.push(word("b"));
    acc.insert_trailing_blankline(BlanklineReason::DoKeyword);
    acc.insert_trailing_blankline(BlanklineReason::ClassOrModule);
    acc.insert_trailing_blankline(BlanklineReason::ComesAfterEnd);
    assert_eq!(acc.len(), 4);
    let text: String = acc.into_tokens().into_iter().map(|t| t.into_ruby()).collect();
    assert_eq!(text, "a\n\nb");
}

#[test]
fn insert_trailing_blankline_at_a_leading_hard_newline() {
    let mut acc = Intermediary::new();
    acc.push(LineToken::HardNewLine);
    acc.push(word("b"));
    acc.insert_trailing_blankline(BlanklineReason::EndOfRequireBlock);
    assert_eq!(kinds(acc), vec!["HardNewLine", "HardNewLine", "DirectPart { part: \"b\" }"]);
}

#[test]
fn clear_breakable_garbage_takes_the_separators_before_the_close_delimiter() {
    let mut acc = Intermediary::new();
    acc.push(LineToken::Delim { contents: "(".to_string() });
    acc.push(word("1"));
    acc.push(LineToken::Comma);
    acc.push(LineToken::Space);
    acc.push(word(""));
    acc.push(LineToken::SoftNewline);
    acc.push(LineToken::Delim { contents: ")".to_string() });
    acc.clear_breakable_garbage();
    assert_eq!(
        kinds(acc),
        vec!["Delim { contents: \"(\" }", "DirectPart { part: \"1\" }", "Delim { contents: \")\" }"]
    );
}

#[test]
fn clear_breakable_garbage_stops_at_the_first_token_that_is_no_separator() {
    let mut acc = Intermediary::new();
    acc.push(LineToken::Comma);
    acc.push(word("x"));
    acc.push(LineToken::Delim { contents: "]".to_string() });
    acc.clear_breakable_garbage();
    assert_eq!(acc.len(), 3);
}

#[test]
fn clear_breakable_garbage_may_leave_the_delimiter_alone() {
    let mut acc = Intermediary::new();
    acc.push(LineToken::Space);
    acc.push(LineToken::Comma);
    acc.push(LineToken::Delim { contents: "}".to_string() });
    acc.clear_breakable_garbage();
    assert_eq!(kinds(acc), vec!["Delim { contents: \"}\" }"]);
}

#[test]
fn a_line_knows_whether_it_holds_an_indent() {
    let mut acc = Intermediary::new();
    assert!(!acc.line_has_indent());
    acc.push(word("a"));
    assert!(!acc.line_has_indent());
    acc.push(LineToken::Indent { depth: 2 });
    assert!(acc.line_has_indent());
    acc.push(LineToken::SoftNewline);
    assert!(acc.line_has_indent());
    acc.push(LineToken::HardNewLine);
    assert!(!acc.line_has_indent());
    acc.push(LineToken::Indent { depth: 0 });
    acc.insert_trailing_blankline(BlanklineReason::ComesAfterEnd);
    assert!(acc.line_has_indent());
    assert_eq!(kinds(acc).len(), 6);
}

#[test]
fn clear_breakable_garbage_takes_the_run_before_any_last_token() {
    let mut acc = Intermediary::new();
    acc.push(LineToken::Comma);
    acc.push(word("a"));
    acc.push(LineToken::Space);
    acc.push(LineToken::HardNewLine);
    acc.push(LineToken::Comma);
    acc.push(LineToken::Space);
    acc.push(word("b"));
    acc.clear_breakable_garbage();
    // the run ends at the hard newline; what stands before it stays
    assert_eq!(
        kinds(acc),
        vec![
            "Comma",
            "DirectPart { part: \"a\" }",
            "Space",
            "HardNewLine",
            "DirectPart { part: \"b\" }"
        ]
    );
}

#[test]
fn clear_breakable_garbage_leaves_a_stream_of_one_or_no_token() {
    let mut acc = Intermediary::new();
    acc.clear_breakable_garbage();
    assert_eq!(acc.len(), 0);
    acc.push(LineToken::Comma);
    acc.clear_breakable_garbage();
    assert_eq!(kinds(acc), vec!["Comma"]);
}

use librubyfmt::delimiters::BreakableDelims;
use librubyfmt::intermediary::Intermediary;
use librubyfmt::line_tokens::LineToken;
use librubyfmt::render_queue_writer::RenderQueueWriter;
use librubyfmt::render_queue_writer::MAX_LINE_LENGTH;
use librubyfmt::render_targets::BreakableEntry;

fn text(s: &str) -> LineToken {
    LineToken::DirectPart { part: s.to_string() }
}

fn args_group(delims: BreakableDelims, args: &[&str], lines: &[u64]) -> BreakableEntry {
    let mut be = BreakableEntry::new(0, delims);
    for l in lines {
        be.push_line_number(*l);
    }
    be.push(LineToken::CollapsingNewLine);
    for (i, a) in args.iter().enumerate() {
        be.push(LineToken::SoftIndent { depth: 2 });
        be.push(text(a));
        if i + 1 != args.len() {
            be.push(LineToken::Comma);
            be.push(LineToken::SoftNewline);
        }
    }
    be.push(LineToken::CollapsingNewLine);
    be.push(LineToken::SoftIndent { depth: 0 });
    be
}

fn render(tokens: Vec<LineToken>) -> String {
    RenderQueueWriter::new(tokens).render(true)
}

#[test]
fn the_line_limit_is_120() {
    assert_eq!(MAX_LINE_LENGTH, 120);
}

#[test]
fn call_args_on_one_source_line_stay_on_one_line() {
    let be = args_group(BreakableDelims::for_method_call(), &["1", "2", "3"], &[1]);
    assert_eq!(render(vec![text("foo"), LineToken::BreakableEntry(be)]), "foo(1, 2, 3)");
}

#[test]
fn call_args_on_three_source_lines_go_one_per_line() {
    let be = args_group(BreakableDelims::for_method_call(), &["1", "2", "3"], &[1, 2, 3]);
    assert_eq!(render(vec![text("foo"), LineToken::BreakableEntry(be)]), "foo(\n  1,\n  2,\n  3\n)");
}

#[test]
fn group_without_any_source_line_stays_on_one_line() {
    let be = args_group(BreakableDelims::for_array(), &["a", "b"], &[]);
    assert_eq!(render(vec![LineToken::BreakableEntry(be)]), "[a, b]");
}

#[test]
fn children_of_120_bytes_stay_on_one_line() {
    // "x" * 117 + "," + " " + "y" is 120 bytes
    let long = "x".repeat(117);
    let be = args_group(BreakableDelims::for_array(), &[&long, "y"], &[1]);
    assert_eq!(be.single_line_string_length(), 120);
    assert_eq!(render(vec![LineToken::BreakableEntry(be)]), format!("[{}, y]", long));
}

#[test]
fn children_of_121_bytes_go_over_several_lines() {
    let long = "x".repeat(118);
    let be = args_group(BreakableDelims::for_array(), &[&long, "y"], &[1]);
    assert_eq!(be.single_line_string_length(), 121);
    assert_eq!(render(vec![LineToken::BreakableEntry(be)]), format!("[\n  {},\n  y\n]", long));
}

#[test]
fn keyword_args_use_a_blank_on_one_line_and_parens_on_several() {
    let one = args_group(BreakableDelims::for_kw(), &["a", "b"], &[4]);
    assert_eq!(render(vec![text("yield"), LineToken::BreakableEntry(one)]), "yield a, b");
    let several = args_group(BreakableDelims::for_kw(), &["a", "b"], &[4, 5]);
    assert_eq!(render(vec![text("yield"), LineToken::BreakableEntry(several)]), "yield(\n  a,\n  b\n)");
}

#[test]
fn return_args_use_square_brackets_on_several_lines() {
    let several = args_group(BreakableDelims::for_return_kw(), &["a", "b"], &[4, 5]);
    assert_eq!(render(vec![text("return"), LineToken::BreakableEntry(several)]), "return [\n  a,\n  b\n]");
}

#[test]
fn no_separator_is_left_before_the_close_delimiter() {
    let mut be = BreakableEntry::new(0, BreakableDelims::for_method_call());
    be.push(text("1"));
    be.push(LineToken::Comma);
    be.push(LineToken::SoftNewline);
    be.push(LineToken::Space);
    be.push(LineToken::CollapsingNewLine);
    assert_eq!(render(vec![LineToken::BreakableEntry(be)]), "(1)");
}

#[test]
fn nested_group_is_resolved_on_its_own() {
    let inner = args_group(BreakableDelims::for_array(), &["1", "2"], &[3]);
    let mut outer = BreakableEntry::new(0, BreakableDelims::for_method_call());
    outer.push_line_number(3);
    outer.push_line_number(4);
    outer.push(LineToken::CollapsingNewLine);
    outer.push(LineToken::SoftIndent { depth: 2 });
    outer.push(LineToken::BreakableEntry(inner));
    outer.push(LineToken::CollapsingNewLine);
    assert_eq!(render(vec![text("f"), LineToken::BreakableEntry(outer)]), "f(\n  [1, 2]\n)");
}

#[test]
fn multi_line_group_inside_a_single_line_group() {
    let inner = args_group(BreakableDelims::for_array(), &["1", "2"], &[3, 4]);
    let mut outer = BreakableEntry::new(0, BreakableDelims::for_method_call());
    outer.push_line_number(3);
    outer.push(LineToken::BreakableEntry(inner));
    outer.push(LineToken::Comma);
    assert_eq!(render(vec![text("f"), LineToken::BreakableEntry(outer)]), "f([\n  1,\n  2\n])");
}

#[test]
fn two_consecutive_hard_newlines_make_one_blank_line() {
    assert_eq!(
        render(vec![text("a"), LineToken::HardNewLine, LineToken::HardNewLine, text("b"), LineToken::HardNewLine]),
        "a\n\nb\n"
    );
}

#[test]
fn more_hard_newlines_still_make_one_blank_line() {
    assert_eq!(
        render(vec![
            text("a"),
            LineToken::HardNewLine,
            LineToken::HardNewLine,
            LineToken::HardNewLine,
            text("b"),
        ]),
        "a\n\nb"
    );
}

#[test]
fn class_after_a_line_that_did_not_get_indented() {
    let tokens = vec![
        LineToken::Indent { depth: 0 },
        text("puts 1"),
        LineToken::HardNewLine,
        LineToken::Indent { depth: 0 },
        LineToken::ClassKeyword,
        text(" Foo"),
        LineToken::HardNewLine,
        LineToken::Indent { depth: 0 },
        LineToken::End,
        LineToken::HardNewLine,
    ];
    assert_eq!(render(tokens), "puts 1\n\nclass Foo\nend\n");
}

#[test]
fn a_closed_block_is_set_off_from_what_follows() {
    let tokens = vec![
        LineToken::Indent { depth: 0 },
        LineToken::End,
        LineToken::HardNewLine,
        LineToken::Indent { depth: 0 },
        text("foo"),
        LineToken::HardNewLine,
    ];
    assert_eq!(render(tokens), "end\n\nfoo\n");
}

#[test]
fn a_closed_block_is_not_set_off_from_else_or_a_closer() {
    for next in [
        LineToken::End,
        LineToken::ConditionalKeyword { contents: "else".to_string() },
        LineToken::ConditionalKeyword { contents: "elsif".to_string() },
        text("}"),
        text("]"),
    ] {
        let tokens = vec![
            LineToken::Indent { depth: 2 },
            LineToken::End,
            LineToken::HardNewLine,
            LineToken::Indent { depth: 0 },
            next,
        ];
        assert!(!render(tokens).contains("\n\n"));
    }
}

#[test]
fn without_the_pipeline_the_raw_stream_is_written() {
    let be = args_group(BreakableDelims::for_method_call(), &["1", "2"], &[1, 2]);
    let tokens = vec![
        text("a"),
        LineToken::HardNewLine,
        LineToken::HardNewLine,
        LineToken::HardNewLine,
        LineToken::ClassKeyword,
        LineToken::BreakableEntry(be),
        LineToken::SoftNewline,
    ];
    assert_eq!(RenderQueueWriter::new(tokens).render(false), "a\n\n\nclass(1, 2)\n");
}

#[test]
fn rendering_the_final_tokens_is_stable() {
    let tokens = vec![
        LineToken::Indent { depth: 0 },
        text("require"),
        LineToken::HardNewLine,
        LineToken::Indent { depth: 0 },
        LineToken::End,
        LineToken::HardNewLine,
        LineToken::Indent { depth: 0 },
        LineToken::ClassKeyword,
        LineToken::HardNewLine,
        LineToken::HardNewLine,
        LineToken::Indent { depth: 2 },
        LineToken::DoKeyword,
        LineToken::HardNewLine,
        LineToken::Indent { depth: 0 },
        LineToken::ConditionalKeyword { contents: "if".to_string() },
        LineToken::HardNewLine,
    ];
    let once = RenderQueueWriter::new(tokens).into_final_tokens();
    let first: Vec<String> = once.iter().map(|t| format!("{:?}", t)).collect();
    let twice = RenderQueueWriter::new(once).into_final_tokens();
    let second: Vec<String> = twice.iter().map(|t| format!("{:?}", t)).collect();
    assert_eq!(first, second);
    let text: String = twice.into_iter().map(|t| t.into_ruby()).collect();
    assert_eq!(text, "require\n\nend\n\nclass\n\n  do\nif\n");
}

#[test]
fn render_as_resolves_into_a_given_accumulator() {
    let mut acc = Intermediary::new();
    acc.push(text("x"));
    let be = args_group(BreakableDelims::for_array(), &["1"], &[1]);
    RenderQueueWriter::render_as(&mut acc, vec![LineToken::BreakableEntry(be), text("y")]);
    let text: String = acc.into_tokens().into_iter().map(|t| t.into_ruby()).collect();
    assert_eq!(text, "x[1]y");
}

#[test]
fn format_breakable_entry_resolves_one_group() {
    let mut acc = Intermediary::new();
    let be = args_group(BreakableDelims::for_hash(), &["a: 1", "b: 2"], &[1, 9]);
    RenderQueueWriter::format_breakable_entry(&mut acc, be);
    let text: String = acc.into_tokens().into_iter().map(|t| t.into_ruby()).collect();
    assert_eq!(text, "{\n  a: 1,\n  b: 2\n}");
}

#[test]
fn write_final_tokens_concatenates_the_texts() {
    let s = RenderQueueWriter::write_final_tokens(vec![
        LineToken::Indent { depth: 2 },
        LineToken::DefKeyword,
        text(" a"),
        LineToken::HardNewLine,
        LineToken::Comment { contents: "# c".to_string() },
    ]);
    assert_eq!(s, "  def a\n# c\n");
    assert_eq!(RenderQueueWriter::write_final_tokens(vec![]), "");
}

#[test]
fn rendering_the_final_tokens_of_groups_is_stable() {
    let inner = args_group(BreakableDelims::for_array(), &["1", "2"], &[3, 4]);
    let mut outer = BreakableEntry::new(0, BreakableDelims::for_method_call());
    outer.push_line_number(3);
    outer.push(LineToken::End);
    outer.push(LineToken::HardNewLine);
    outer.push(LineToken::Indent { depth: 2 });
    outer.push(LineToken::Space);
    outer.push(LineToken::BreakableEntry(inner));
    outer.push(LineToken::Comma);
    outer.push(LineToken::SoftNewline);
    let tokens = vec![
        LineToken::Indent { depth: 0 },
        text("require"),
        LineToken::HardNewLine,
        LineToken::Indent { depth: 0 },
        text("f"),
        LineToken::BreakableEntry(outer),
        LineToken::HardNewLine,
        LineToken::Indent { depth: 0 },
        LineToken::ClassKeyword,
        LineToken::HardNewLine,
    ];
    let once = RenderQueueWriter::new(tokens).into_final_tokens();
    let first: Vec<String> = once.iter().map(|t| format!("{:?}", t)).collect();
    assert!(once.iter().all(|t| !matches!(t, LineToken::BreakableEntry(_))));
    let twice = RenderQueueWriter::new(once).into_final_tokens();
    let second: Vec<String> = twice.iter().map(|t| format!("{:?}", t)).collect();
    assert_eq!(first, second);
    let text: String = twice.into_iter().map(|t| t.into_ruby()).collect();
    assert_eq!(text, "require\n\nf(end\n\n   [\n  1,\n  2\n])\n\nclass\n");
}

#[test]
fn comments_pass_through_the_pipeline_once_each() {
    let mut be = BreakableEntry::new(0, BreakableDelims::for_array());
    be.push(LineToken::Comment { contents: "# in".to_string() });
    be.push(text("1"));
    be.push(LineToken::Comma);
    let tokens = vec![
        LineToken::Comment { contents: "# a".to_string() },
        LineToken::BreakableEntry(be),
        LineToken::HardNewLine,
        LineToken::HardNewLine,
        LineToken::HardNewLine,
        LineToken::Comment { contents: "# b".to_string() },
    ];
    let out = RenderQueueWriter::new(tokens).into_final_tokens();
    assert_eq!(out.iter().filter(|t| t.is_comment()).count(), 3);
    let text: String = out.into_iter().map(|t| t.into_ruby()).collect();
    assert_eq!(text, "# a\n[# in\n1]\n\n# b\n");
}

#[test]
fn a_second_indent_on_a_line_is_refused() {
    let twice = || vec![LineToken::Indent { depth: 0 }, text("a"), LineToken::Indent { depth: 2 }];
    assert!(!RenderQueueWriter::new(twice()).has_one_indent_a_line());
    assert_eq!(RenderQueueWriter::new(twice()).render_checked(true), None);
    // the raw stream is written whatever it holds
    assert_eq!(RenderQueueWriter::new(twice()).render_checked(false), Some("a  ".to_string()));
}

#[test]
fn one_indent_a_line_is_rendered() {
    let tokens = vec![
        LineToken::Indent { depth: 0 },
        text("a"),
        LineToken::HardNewLine,
        LineToken::Indent { depth: 2 },
        text("b"),
        LineToken::HardNewLine,
    ];
    assert_eq!(RenderQueueWriter::new(tokens).render_checked(true), Some("a\n  b\n".to_string()));
    assert_eq!(RenderQueueWriter::new(vec![]).render_checked(true), Some(String::new()));
}

#[test]
fn only_a_hard_newline_starts_a_line() {
    let tokens = vec![
        LineToken::Indent { depth: 0 },
        LineToken::SoftNewline,
        LineToken::Indent { depth: 0 },
    ];
    assert_eq!(RenderQueueWriter::new(tokens).render_checked(true), None);
    let tokens = vec![
        LineToken::Indent { depth: 0 },
        LineToken::CollapsingNewLine,
        LineToken::Indent { depth: 0 },
    ];
    assert!(!RenderQueueWriter::new(tokens).has_one_indent_a_line());
}

#[test]
fn the_indents_of_a_group_count_for_the_line_it_stands_on() {
    let group = |inner: Vec<LineToken>| {
        let mut be = BreakableEntry::new(0, BreakableDelims::for_array());
        for t in inner {
            be.push(t);
        }
        LineToken::BreakableEntry(be)
    };
    // the group stands on a line that holds an indent, and brings another
    let tokens = vec![LineToken::Indent { depth: 0 }, group(vec![LineToken::Indent { depth: 2 }])];
    assert!(!RenderQueueWriter::new(tokens).has_one_indent_a_line());
    // the group starts a line of its own before its indent
    let tokens = vec![
        LineToken::Indent { depth: 0 },
        group(vec![LineToken::HardNewLine, LineToken::Indent { depth: 2 }, text("a")]),
    ];
    assert_eq!(
        RenderQueueWriter::new(tokens).render_checked(true),
        Some("[\n  a]".to_string())
    );
    // what the group leaves counts behind it
    let tokens = vec![
        group(vec![LineToken::Indent { depth: 2 }, text("a")]),
        LineToken::Indent { depth: 0 },
    ];
    assert!(!RenderQueueWriter::new(tokens).has_one_indent_a_line());
    let tokens = vec![
        LineToken::Indent { depth: 0 },
        group(vec![text("a"), LineToken::HardNewLine]),
        LineToken::Indent { depth: 0 },
    ];
    assert!(RenderQueueWriter::new(tokens).has_one_indent_a_line());
}

#[test]
fn comments_keep_their_texts_and_their_order() {
    let comment = |s: &str| LineToken::Comment { contents: s.to_string() };
    let mut inner = BreakableEntry::new(0, BreakableDelims::for_array());
    inner.push(comment("# c"));
    inner.push(LineToken::Comma);
    inner.push(LineToken::SoftNewline);
    let mut outer = BreakableEntry::new(0, BreakableDelims::for_method_call());
    outer.push_line_number(1);
    outer.push_line_number(2);
    outer.push(comment("# b"));
    outer.push(LineToken::BreakableEntry(inner));
    outer.push(comment("# d"));
    outer.push(LineToken::Comma);
    let tokens = vec![
        comment("# a"),
        LineToken::End,
        LineToken::HardNewLine,
        LineToken::Indent { depth: 0 },
        LineToken::BreakableEntry(outer),
        LineToken::HardNewLine,
        LineToken::HardNewLine,
        LineToken::HardNewLine,
        comment("# e"),
        comment("# a"),
    ];
    let out = RenderQueueWriter::new(tokens).into_final_tokens();
    let texts: Vec<String> =
        out.into_iter().filter(|t| t.is_comment()).map(|t| t.into_ruby()).collect();
    assert_eq!(texts, vec!["# a\n", "# b\n", "# c\n", "# d\n", "# e\n", "# a\n"]);
}

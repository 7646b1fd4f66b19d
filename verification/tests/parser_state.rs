use librubyfmt::comment_block::CommentBlock;
use librubyfmt::delimiters::BreakableDelims;
use librubyfmt::emission_model::FormattingContext;
use librubyfmt::file_comments::FileComments;
use librubyfmt::parser_state::FinishError;
use librubyfmt::parser_state::ParserState;

fn fresh() -> ParserState {
    ParserState::new(FileComments::default())
}

fn with_comments(pairs: &[(i64, &str)]) -> ParserState {
    let fc = FileComments::from_pairs(pairs.iter().map(|(l, s)| (*l, s.to_string())).collect()).unwrap();
    ParserState::new(fc)
}

fn emit_args(ps: &mut ParserState, args: &[(u64, &str)]) {
    let n = args.len();
    for (i, (line, a)) in args.iter().enumerate() {
        ps.emit_soft_indent();
        ps.on_line(*line);
        ps.emit_ident(a.to_string());
        if i + 1 != n {
            ps.emit_comma();
            ps.emit_soft_newline();
        }
    }
    ps.emit_collapsing_newline();
}

#[test]
fn fresh_state_renders_nothing() {
    assert_eq!(fresh().render(), "");
}

#[test]
fn fresh_state_starts_at_the_start_of_a_line_in_the_main_context() {
    let ps = fresh();
    assert!(ps.at_start_of_line());
    assert_eq!(ps.current_formatting_context(), FormattingContext::Main);
    assert!(!ps.is_absorbing_indents());
    assert!(!ps.last_breakable_is_multiline());
    assert_eq!(ps.index_of_prev_hard_newline(), None);
}

#[test]
fn atomic_emissions_render_their_text() {
    let mut ps = fresh();
    ps.emit_indent();
    ps.emit_def("foo".to_string());
    ps.emit_open_paren();
    ps.emit_ident("a".to_string());
    ps.emit_comma_space();
    ps.emit_ident("b".to_string());
    ps.emit_close_paren();
    ps.emit_newline();
    ps.new_block(|ps| {
        ps.emit_indent();
        ps.emit_ident("a".to_string());
        ps.emit_dot();
        ps.emit_ident("b".to_string());
        ps.emit_space();
        ps.emit_op("+".to_string());
        ps.emit_space();
        ps.emit_double_quote();
        ps.emit_string_content("s".to_string());
        ps.emit_double_quote();
        ps.emit_newline();
    });
    ps.emit_end();
    ps.emit_newline();
    assert_eq!(ps.render(), "def foo(a, b)\n  a.b + \"s\"\nend\n");
}

#[test]
fn keyword_emissions_render_their_keyword() {
    let mut ps = fresh();
    ps.emit_case_keyword();
    ps.emit_space();
    ps.emit_when_keyword();
    ps.emit_space();
    ps.emit_rescue();
    ps.emit_space();
    ps.emit_ensure();
    ps.emit_space();
    ps.emit_begin();
    ps.emit_space();
    ps.emit_begin_block();
    ps.emit_space();
    ps.emit_end_block();
    ps.emit_space();
    ps.emit_keyword("yield".to_string());
    ps.emit_space();
    ps.emit_mod_keyword("unless".to_string());
    ps.emit_space();
    ps.emit_else();
    ps.emit_space();
    ps.emit_conditional_keyword("while".to_string());
    ps.emit_space();
    ps.emit_def_keyword();
    ps.emit_space();
    ps.emit_module_keyword();
    assert_eq!(
        ps.render(),
        "case when rescue ensure begin BEGIN END yield unless else while def module"
    );
}

#[test]
fn punctuation_emissions_render_their_sign() {
    let mut ps = fresh();
    ps.emit_open_square_bracket();
    ps.emit_close_square_bracket();
    ps.emit_open_curly_bracket();
    ps.emit_close_curly_bracket();
    ps.emit_slash();
    ps.emit_colon_colon();
    ps.emit_lonely_operator();
    ps.emit_comma();
    assert_eq!(ps.render(), "[]{}\\::&.,");
}

#[test]
fn call_args_on_one_line_render_on_one_line() {
    let mut ps = fresh();
    ps.on_line(1);
    ps.emit_ident("foo".to_string());
    ps.breakable_of(BreakableDelims::for_method_call(), |ps| {
        emit_args(ps, &[(1, "1"), (1, "2"), (1, "3")]);
    });
    assert_eq!(ps.render(), "foo(1, 2, 3)");
}

#[test]
fn call_args_on_three_lines_render_one_per_line() {
    let mut ps = fresh();
    ps.on_line(1);
    ps.emit_ident("foo".to_string());
    ps.breakable_of(BreakableDelims::for_method_call(), |ps| {
        emit_args(ps, &[(1, "1"), (2, "2"), (3, "3")]);
    });
    assert_eq!(ps.render(), "foo(\n  1,\n  2,\n  3\n)");
}

#[test]
fn on_line_attributes_the_line_to_every_open_group() {
    let mut ps = fresh();
    ps.on_line(1);
    ps.breakable_of(BreakableDelims::for_array(), |ps| {
        ps.emit_soft_indent();
        ps.breakable_of(BreakableDelims::for_hash(), |ps| {
            assert!(!ps.last_breakable_is_multiline());
            ps.emit_soft_indent();
            ps.emit_ident("a: 1".to_string());
            ps.on_line(2);
            assert!(ps.last_breakable_is_multiline());
            ps.emit_collapsing_newline();
        });
        assert!(ps.last_breakable_is_multiline());
        ps.emit_collapsing_newline();
    });
    assert_eq!(ps.render(), "[\n  {\n    a: 1\n  }\n]");
}

#[test]
fn on_line_before_the_current_line_changes_nothing() {
    let mut ps = fresh();
    ps.on_line(1);
    ps.on_line(2);
    ps.breakable_of(BreakableDelims::for_array(), |ps| {
        ps.on_line(1);
        assert!(!ps.last_breakable_is_multiline());
        ps.emit_ident("x".to_string());
    });
    assert_eq!(ps.render(), "[x]");
}

#[test]
fn skipped_source_lines_keep_one_blank_line() {
    let mut ps = fresh();
    ps.on_line(1);
    ps.emit_ident("a".to_string());
    ps.emit_newline();
    ps.on_line(5);
    ps.emit_ident("b".to_string());
    ps.emit_newline();
    ps.on_line(6);
    ps.emit_ident("c".to_string());
    ps.emit_newline();
    assert_eq!(ps.render(), "a\n\nb\nc\n");
}

#[test]
fn comments_are_shifted_in_behind_the_previous_line() {
    let mut ps = with_comments(&[(2, "# about b")]);
    ps.on_line(1);
    ps.emit_ident("a".to_string());
    ps.emit_newline();
    ps.on_line(3);
    ps.emit_ident("b".to_string());
    ps.emit_newline();
    assert_eq!(ps.render(), "a\n# about b\nb\n");
}

#[test]
fn comments_take_the_indent_of_the_line_before() {
    let mut ps = with_comments(&[(3, "# inner")]);
    ps.on_line(1);
    ps.emit_def("a".to_string());
    ps.new_block(|ps| {
        ps.emit_newline();
        ps.on_line(2);
        ps.emit_indent();
        ps.emit_ident("x".to_string());
        ps.emit_newline();
        ps.on_line(4);
        ps.emit_indent();
        ps.emit_ident("y".to_string());
        ps.emit_newline();
    });
    assert_eq!(ps.render(), "def a\n  x\n  # inner\n  y\n");
}

#[test]
fn header_comment_is_flushed_once() {
    let mut ps = with_comments(&[(1, "# header")]);
    ps.flush_start_of_file_comments();
    ps.on_line(1);
    ps.on_line(2);
    ps.emit_ident("a".to_string());
    ps.emit_newline();
    assert_eq!(ps.render(), "# header\na\n");
}

#[test]
fn flush_without_a_header_starts_on_line_one() {
    let mut ps = with_comments(&[(3, "# c")]);
    ps.flush_start_of_file_comments();
    ps.emit_ident("a".to_string());
    ps.emit_newline();
    ps.on_line(3);
    ps.emit_ident("b".to_string());
    ps.emit_newline();
    assert_eq!(ps.render(), "a\n# c\nb\n");
}

#[test]
fn the_first_line_far_down_keeps_a_blank_line_at_the_start() {
    let mut ps = fresh();
    ps.on_line(5);
    ps.emit_ident("x".to_string());
    assert_eq!(ps.render(), "\nx");
}

#[test]
fn suppressed_comments_are_not_emitted() {
    let mut ps = with_comments(&[(2, "# lost")]);
    ps.on_line(1);
    ps.with_surpress_comments(true, |ps| {
        ps.on_line(2);
        ps.emit_ident("a".to_string());
    });
    ps.emit_newline();
    assert_eq!(ps.render(), "a\n");
}

#[test]
fn heredoc_body_follows_the_next_newline() {
    let mut ps = fresh();
    ps.emit_ident("x = ".to_string());
    ps.emit_ident("<<~".to_string());
    ps.emit_ident("EOS".to_string());
    ps.push_heredoc_content("EOS".to_string(), true, |n| {
        n.emit_string_content("  hello\n".to_string());
    });
    ps.emit_newline();
    ps.emit_ident("y".to_string());
    ps.emit_newline();
    assert_eq!(ps.render(), "x = <<~EOS\n  hello\nEOS\ny\n");
}

#[test]
fn squiggly_heredoc_terminator_is_indented_with_the_code() {
    let mut ps = fresh();
    ps.new_block(|ps| {
        ps.emit_indent();
        ps.emit_ident("<<~'EOS'".to_string());
        ps.push_heredoc_content("'EOS'".to_string(), true, |n| {
            n.emit_string_content("body\n".to_string());
        });
        ps.emit_newline();
    });
    assert_eq!(ps.render(), "  <<~'EOS'\nbody\n  EOS\n");
}

#[test]
fn plain_heredoc_terminator_is_not_indented() {
    let mut ps = fresh();
    ps.new_block(|ps| {
        ps.emit_indent();
        ps.emit_ident("<<-EOS".to_string());
        ps.push_heredoc_content("EOS".to_string(), false, |n| {
            n.emit_string_content("body\n".to_string());
        });
        ps.emit_newline();
    });
    assert_eq!(ps.render(), "  <<-EOS\nbody\nEOS\n");
}

#[test]
fn render_heredocs_with_skip_leaves_out_the_last_newline() {
    let mut ps = fresh();
    ps.emit_ident("<<A".to_string());
    ps.push_heredoc_content("A".to_string(), false, |n| {
        n.emit_string_content("a\n".to_string());
    });
    ps.render_heredocs(true);
    ps.emit_ident("!".to_string());
    assert_eq!(ps.render(), "<<A\na\nA!");
}

#[test]
fn two_pending_heredocs_are_rendered_most_recent_first() {
    let mut ps = fresh();
    ps.emit_ident("f(<<A, <<B)".to_string());
    ps.push_heredoc_content("A".to_string(), false, |n| {
        n.emit_string_content("a\n".to_string());
    });
    ps.push_heredoc_content("B".to_string(), false, |n| {
        n.emit_string_content("b\n".to_string());
    });
    ps.emit_newline();
    assert_eq!(ps.render(), "f(<<A, <<B)\nb\na\nA\nB\n");
}

#[test]
fn emit_end_goes_on_a_line_of_its_own() {
    let mut ps = fresh();
    ps.emit_ident("x".to_string());
    ps.emit_end();
    assert_eq!(ps.render(), "x\nend");
    let mut ps = fresh();
    ps.emit_ident("x".to_string());
    ps.emit_newline();
    ps.with_start_of_line(false, |ps| ps.emit_end());
    assert_eq!(ps.render(), "x\nend");
}

#[test]
fn collapsing_newline_is_not_emitted_behind_a_newline() {
    let mut ps = fresh();
    ps.emit_ident("a".to_string());
    ps.emit_collapsing_newline();
    ps.emit_collapsing_newline();
    ps.emit_soft_newline();
    ps.emit_collapsing_newline();
    ps.emit_ident("b".to_string());
    assert_eq!(ps.render(), "a\n\nb");
}

#[test]
fn scoped_values_are_restored() {
    let mut ps = fresh();
    ps.with_start_of_line(false, |ps| {
        assert!(!ps.at_start_of_line());
        ps.with_start_of_line(true, |ps| assert!(ps.at_start_of_line()));
        assert!(!ps.at_start_of_line());
    });
    assert!(ps.at_start_of_line());
    ps.with_formatting_context(FormattingContext::Def, |ps| {
        assert_eq!(ps.current_formatting_context(), FormattingContext::Def);
        ps.with_formatting_context(FormattingContext::ArgsList, |ps| {
            assert_eq!(ps.current_formatting_context(), FormattingContext::ArgsList);
        });
        assert_eq!(ps.current_formatting_context(), FormattingContext::Def);
    });
    assert_eq!(ps.current_formatting_context(), FormattingContext::Main);
}

#[test]
fn blocks_indent_by_two_columns_a_level() {
    let mut ps = fresh();
    ps.new_block(|ps| {
        ps.new_block(|ps| {
            ps.emit_indent();
            ps.emit_ident("a".to_string());
            ps.emit_newline();
            ps.dedent(|ps| {
                ps.emit_indent();
                ps.emit_ident("b".to_string());
                ps.emit_newline();
            });
            ps.emit_indent();
            ps.emit_ident("c".to_string());
            ps.emit_newline();
        });
    });
    ps.emit_indent();
    ps.emit_ident("d".to_string());
    assert_eq!(ps.render(), "    a\n  b\n    c\nd");
}

#[test]
fn only_the_outermost_absorbing_block_indents() {
    let mut ps = fresh();
    ps.with_absorbing_indent_block(|ps| {
        assert!(ps.is_absorbing_indents());
        ps.with_absorbing_indent_block(|ps| {
            ps.emit_indent();
            ps.emit_ident("a".to_string());
        });
    });
    assert!(!ps.is_absorbing_indents());
    assert_eq!(ps.render(), "  a");
}

#[test]
fn will_render_as_multiline_looks_at_a_nested_state_only() {
    let mut ps = fresh();
    ps.emit_ident("kept".to_string());
    let one = ps.will_render_as_multiline(|n| {
        n.emit_ident("a".to_string());
        n.emit_newline();
    });
    assert!(!one);
    let two = ps.will_render_as_multiline(|n| {
        n.emit_ident("a".to_string());
        n.emit_newline();
        n.emit_ident("b".to_string());
    });
    assert!(two);
    let group = ps.will_render_as_multiline(|n| {
        n.on_line(1);
        n.breakable_of(BreakableDelims::for_array(), |n| {
            n.emit_soft_indent();
            n.emit_ident("1".to_string());
            n.on_line(2);
            n.emit_collapsing_newline()
        });
    });
    assert!(group);
    assert_eq!(ps.render(), "kept");
}

#[test]
fn render_with_blank_state_shares_only_the_indent() {
    let mut ps = fresh();
    ps.emit_ident("outer".to_string());
    ps.new_block(|ps| {
        let next = ParserState::render_with_blank_state(ps, |n| {
            n.emit_indent();
            n.emit_ident("inner".to_string());
        });
        assert_eq!(next.render(), "  inner");
    });
    assert_eq!(ps.render(), "outer");
}

#[test]
fn without_the_pipeline_the_raw_stream_is_rendered() {
    let mut ps = fresh();
    ps.set_run_pipeline(false);
    ps.on_line(1);
    ps.breakable_of(BreakableDelims::for_array(), |ps| {
        emit_args(ps, &[(1, "1"), (2, "2")]);
    });
    ps.emit_newline();
    ps.emit_newline();
    ps.emit_newline();
    assert_eq!(ps.render(), "[1, 2]\n\n\n");
}

#[test]
fn wind_line_forward_moves_one_line_on() {
    let mut ps = with_comments(&[(2, "# two"), (3, "# three")]);
    ps.on_line(1);
    ps.emit_ident("a".to_string());
    ps.emit_newline();
    ps.wind_line_forward();
    ps.emit_ident("b".to_string());
    ps.emit_newline();
    assert_eq!(ps.render(), "a\n# two\nb\n");
}

#[test]
fn array_elements_take_in_the_comment_behind_them() {
    let mut ps = with_comments(&[(2, "# first"), (4, "# last")]);
    ps.on_line(1);
    ps.breakable_of(BreakableDelims::for_array(), |ps| {
        ps.magic_handle_comments_for_mulitiline_arrays(|ps| {
            ps.emit_soft_indent();
            ps.on_line(3);
            ps.emit_ident("1".to_string());
        });
        ps.emit_collapsing_newline();
    });
    assert_eq!(ps.render(), "[\n  # first\n  # last\n  1\n]");
}

#[test]
fn insert_comment_collection_buffers_until_the_next_newline() {
    let mut ps = fresh();
    ps.emit_ident("a".to_string());
    ps.emit_newline();
    ps.emit_ident("b".to_string());
    ps.insert_comment_collection(CommentBlock::new(2..3, vec!["# c".to_string()]));
    ps.emit_ident("!".to_string());
    ps.shift_comments();
    ps.emit_newline();
    assert_eq!(ps.render(), "a\n# c\nb!\n");
}

#[test]
fn finish_renders_when_the_store_ran_empty() {
    let mut ps = with_comments(&[(2, "# c")]);
    ps.on_line(1);
    ps.emit_ident("a".to_string());
    ps.emit_newline();
    ps.on_line(2);
    ps.emit_ident("b".to_string());
    ps.emit_newline();
    assert_eq!(ps.finish(), Ok("a\n# c\nb\n".to_string()));
}

#[test]
fn finish_refuses_when_comments_are_left_in_the_store() {
    let mut ps = with_comments(&[(9, "# far")]);
    ps.on_line(1);
    ps.emit_ident("a".to_string());
    ps.emit_newline();
    assert_eq!(ps.finish(), Err(FinishError::UnemittedComments));
    let ps = with_comments(&[(1, "# header")]);
    assert_eq!(ps.finish(), Err(FinishError::UnemittedComments));
}

#[test]
fn finish_refuses_a_line_with_two_indents() {
    let mut ps = fresh();
    ps.emit_indent();
    ps.emit_ident("a".to_string());
    ps.emit_indent();
    assert!(!ps.is_renderable());
    assert_eq!(ps.finish(), Err(FinishError::RepeatedIndent));
}

#[test]
fn finish_names_the_comments_first() {
    let mut ps = with_comments(&[(9, "# far")]);
    ps.emit_indent();
    ps.emit_indent();
    assert_eq!(ps.finish(), Err(FinishError::UnemittedComments));
}

#[test]
fn two_indents_on_a_line_are_written_without_the_pipeline() {
    let mut ps = fresh();
    ps.set_run_pipeline(false);
    ps.new_block(|ps| {
        ps.emit_indent();
        ps.emit_indent();
        ps.emit_ident("a".to_string());
    });
    assert!(ps.is_renderable());
    assert_eq!(ps.finish(), Ok("    a".to_string()));
}

#[test]
fn every_comment_comes_out_once() {
    let mut ps = with_comments(&[(1, "# h1"), (2, "# h2"), (4, "# four"), (6, "# six"), (7, "# seven")]);
    ps.flush_start_of_file_comments();
    ps.on_line(3);
    ps.emit_ident("a".to_string());
    ps.breakable_of(BreakableDelims::for_method_call(), |ps| {
        ps.emit_soft_indent();
        ps.on_line(5);
        ps.emit_ident("1".to_string());
        ps.emit_comma();
        ps.emit_soft_newline();
        ps.emit_soft_indent();
        ps.on_line(8);
        ps.emit_ident("2".to_string());
        ps.emit_collapsing_newline();
    });
    ps.emit_newline();
    let text = ps.finish().unwrap();
    for c in ["# h1", "# h2", "# four", "# six", "# seven"] {
        assert_eq!(text.matches(c).count(), 1, "{:?}", text);
    }
    // comments that are still buffered at the end of the statement go before it
    assert_eq!(text, "# h1\n# h2\n  # six\n  # seven\na(\n  # four\n  1,\n  2\n)\n");
}

#[test]
fn buffered_comments_come_before_a_heredoc_body() {
    let mut ps = with_comments(&[(2, "# note")]);
    ps.on_line(1);
    ps.emit_ident("a".to_string());
    ps.emit_newline();
    ps.on_line(3);
    ps.emit_ident("<<A".to_string());
    ps.push_heredoc_content("A".to_string(), false, |n| {
        n.emit_string_content("body\n".to_string());
    });
    ps.emit_newline();
    assert_eq!(ps.render(), "a\n# note\n<<A\nbody\nA\n");
}

#[test]
fn a_comment_on_line_zero_is_emitted_like_any_other() {
    let mut ps = with_comments(&[(0, "# zero"), (2, "# two")]);
    ps.on_line(0);
    ps.emit_ident("a".to_string());
    ps.emit_newline();
    ps.on_line(2);
    ps.emit_ident("b".to_string());
    ps.emit_newline();
    assert_eq!(ps.finish(), Ok("# zero\na\n# two\nb\n".to_string()));
}

#[test]
fn more_comments_than_lines_passed_keep_no_blank_line() {
    let mut ps = with_comments(&[(0, "# zero"), (2, "# one"), (3, "# two")]);
    ps.emit_ident("a".to_string());
    ps.emit_newline();
    ps.on_line(3);
    ps.emit_ident("b".to_string());
    ps.emit_newline();
    assert_eq!(ps.finish(), Ok("a\n# zero\n# one\n# two\nb\n".to_string()));
}

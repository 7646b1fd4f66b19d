//! The emission state: the stateful builder that a tree walker drives. It
//! keeps the indent, the scoped flags, the comment store, the pending
//! heredocs and the stack of open groups, and turns the calls of the walker
//! into the token stream.
use vstd::prelude::*;
use vstd::string::*;
use crate::comment_block::CommentBlock;
use crate::comment_block::Merge;
use crate::comment_block::block_view;
use crate::delimiters::BreakableDelims;
pub use crate::emission_model::FormattingContext;
use crate::emission_model::HeredocView;
use crate::emission_model::MAX_DEPTH;
use crate::emission_model::ParserStateView;
use crate::emission_model::insertion_index;
use crate::emission_model::lemma_emit_newline_flushes;
use crate::emission_model::lemma_push_token_wf;
use crate::emission_model::lemma_spliced_wf;
use crate::emission_model::lemma_target_searchable;
use crate::emission_model::lemma_emit_newline_plain;
use crate::emission_model::lemma_on_line_scopes;
use crate::emission_model::lemma_render_heredocs_flushes;
use crate::emission_model::lemma_shift_comments_scopes;
use crate::file_comments::FileComments;
use crate::file_comments::FileCommentsView;
use crate::line_tokens::LineToken;
use crate::line_tokens::TokenView;
use crate::line_tokens::lemma_token_views;
use crate::line_tokens::token_views;
use crate::render_queue_writer::RenderQueueWriter;
use crate::render_queue_writer::rendered;
use crate::render_targets::BaseQueue;
use crate::render_targets::BreakableEntry;
use crate::render_targets::ConvertType;
use crate::render_targets::found_at;
use crate::render_targets::last_is_newline;
use crate::render_targets::prev_hard_newline;
use crate::render_targets::spliced;
use crate::text::has_newline;
use crate::text::strip_quotes;
use crate::text::strip_trailing_newline;
use crate::text::trim_text;

verus! {

#[derive(Clone, Copy)]
struct IndentDepth {
    depth: u32,
}

impl IndentDepth {
    fn new() -> (d: Self)
        ensures
            d.depth == 0,
    {
        IndentDepth { depth: 0 }
    }

    fn get(self) -> (d: u32)
        ensures
            d == self.depth,
    {
        self.depth
    }
}

/// A heredoc body that waits for the next hard newline: its terminator,
/// whether the terminator is indented with the code, and its rendered
/// content.
pub struct HeredocString {
    symbol: String,
    squiggly: bool,
    buf: String,
}

impl View for HeredocString {
    type V = HeredocView;

    closed spec fn view(&self) -> HeredocView {
        HeredocView { symbol: self.symbol@, squiggly: self.squiggly, content: self.buf@ }
    }
}

impl HeredocString {
    pub fn new(symbol: String, squiggly: bool, buf: String) -> (h: Self)
        ensures
            h@ == (HeredocView { symbol: symbol@, squiggly, content: buf@ }),
    {
        HeredocString { symbol, squiggly, buf }
    }
}

/// Why an emission cannot be ended.
#[derive(Debug, Clone, Copy, PartialEq, Eq)]
pub enum FinishError {
    /// The walk ended while comments were still in the store.
    UnemittedComments,
    /// A line of the root queue holds two indents.
    RepeatedIndent,
}

/// The emission state.
pub struct ParserState {
    depth_stack: Vec<IndentDepth>,
    start_of_line: Vec<bool>,
    surpress_comments_stack: Vec<bool>,
    render_queue: BaseQueue,
    current_orig_line_number: u64,
    comments_hash: FileComments,
    heredoc_strings: Vec<HeredocString>,
    comments_to_insert: Option<CommentBlock>,
    breakable_entry_stack: Vec<BreakableEntry>,
    formatting_context: Vec<FormattingContext>,
    absorbing_indents: i32,
    insert_user_newlines: bool,
    spaces_after_last_newline: u32,
    run_pipeline: bool,
}

impl View for ParserState {
    type V = ParserStateView;

    closed spec fn view(&self) -> ParserStateView {
        ParserStateView {
            depth_stack: Seq::new(self.depth_stack@.len(), |i: int| self.depth_stack@[i].depth),
            start_of_line: self.start_of_line@,
            surpress_comments_stack: self.surpress_comments_stack@,
            render_queue: self.render_queue@,
            current_orig_line_number: self.current_orig_line_number,
            comments_hash: self.comments_hash@,
            heredoc_strings: Seq::new(
                self.heredoc_strings@.len(),
                |i: int| self.heredoc_strings@[i]@,
            ),
            comments_to_insert: block_view(self.comments_to_insert),
            breakable_entry_stack: Seq::new(
                self.breakable_entry_stack@.len(),
                |i: int| self.breakable_entry_stack@[i]@,
            ),
            formatting_context: self.formatting_context@,
            absorbing_indents: self.absorbing_indents,
            insert_user_newlines: self.insert_user_newlines,
            spaces_after_last_newline: self.spaces_after_last_newline,
            run_pipeline: self.run_pipeline,
        }
    }
}

impl ParserState {
    /// The invariant of the emission state.
    pub open spec fn wf(&self) -> bool {
        self@.wf()
    }

    /// A state at the start of an emission over the comments `fc`.
    pub fn new(fc: FileComments) -> (ps: Self)
        ensures
            ps@ == ParserStateView::new(fc@),
            ps.wf(),
    {
        let ps = ParserState {
            depth_stack: vec![IndentDepth::new()],
            start_of_line: vec![true],
            surpress_comments_stack: vec![false],
            render_queue: BaseQueue::new(),
            current_orig_line_number: 0,
            comments_hash: fc,
            heredoc_strings: vec![],
            comments_to_insert: None,
            breakable_entry_stack: vec![],
            formatting_context: vec![FormattingContext::Main],
            absorbing_indents: 0,
            insert_user_newlines: true,
            spaces_after_last_newline: 0,
            run_pipeline: true,
        };
        proof {
            let v = ps@;
            let w = ParserStateView::new(fc@);
            assert(v.depth_stack =~= w.depth_stack);
            assert(v.start_of_line =~= w.start_of_line);
            assert(v.surpress_comments_stack =~= w.surpress_comments_stack);
            assert(v.heredoc_strings =~= w.heredoc_strings);
            assert(v.breakable_entry_stack =~= w.breakable_entry_stack);
            assert(v.formatting_context =~= w.formatting_context);
        }
        ps
    }

    /// Switches the layout resolver and the blank-line pass on or off for
    /// this emission and every emission nested in it.
    pub fn set_run_pipeline(&mut self, run_pipeline: bool)
        ensures
            final(self)@ == (ParserStateView { run_pipeline, ..old(self)@ }),
    {
        self.run_pipeline = run_pipeline;
    }

    fn consume_to_render_queue(self) -> (r: Vec<LineToken>)
        ensures
            token_views(r@) == self@.render_queue,
    {
        // the conversion type is arbitrary here
        self.render_queue.into_tokens(ConvertType::SingleLine)
    }

    pub fn last_breakable_is_multiline(&self) -> (b: bool)
        ensures
            b == (self@.breakable_entry_stack.len() > 0
                && self@.breakable_entry_stack.last().is_multiline()),
    {
        let n = self.breakable_entry_stack.len();
        if n == 0 {
            false
        } else {
            self.breakable_entry_stack[n - 1].is_multiline()
        }
    }

    /// Attributes source line `line_number` to every open group.
    fn attribute_line(&mut self, line_number: u64)
        ensures
            final(self)@ == (ParserStateView {
                breakable_entry_stack: Seq::new(
                    old(self)@.breakable_entry_stack.len(),
                    |i: int| old(self)@.breakable_entry_stack[i].with_line(line_number),
                ),
                ..old(self)@
            }),
    {
        let ghost before = self@;
        let n = self.breakable_entry_stack.len();
        let ghost groups = self.breakable_entry_stack@;
        let mut i: usize = 0;
        while i < n
            invariant
                i <= n,
                n == groups.len(),
                self.breakable_entry_stack@.len() == n,
                forall|k: int|
                    0 <= k < i ==> (#[trigger] self.breakable_entry_stack@[k])@
                        == groups[k]@.with_line(line_number),
                forall|k: int| i <= k < n ==> (#[trigger] self.breakable_entry_stack@[k]) == groups[k],
                self.depth_stack == old(self).depth_stack,
                self.start_of_line == old(self).start_of_line,
                self.surpress_comments_stack == old(self).surpress_comments_stack,
                self.render_queue == old(self).render_queue,
                self.current_orig_line_number == old(self).current_orig_line_number,
                self.comments_hash == old(self).comments_hash,
                self.heredoc_strings == old(self).heredoc_strings,
                self.comments_to_insert == old(self).comments_to_insert,
                self.formatting_context == old(self).formatting_context,
                self.absorbing_indents == old(self).absorbing_indents,
                self.insert_user_newlines == old(self).insert_user_newlines,
                self.spaces_after_last_newline == old(self).spaces_after_last_newline,
                self.run_pipeline == old(self).run_pipeline,
            decreases n - i,
        {
            self.breakable_entry_stack[i].push_line_number(line_number);
            i = i + 1;
        }
        proof {
            let now = self@;
            let want = ParserStateView {
                breakable_entry_stack: Seq::new(
                    before.breakable_entry_stack.len(),
                    |i: int| before.breakable_entry_stack[i].with_line(line_number),
                ),
                ..before
            };
            assert(now.depth_stack =~= want.depth_stack);
            assert(now.heredoc_strings =~= want.heredoc_strings);
            assert(now.breakable_entry_stack =~= want.breakable_entry_stack);
        }
    }

    /// Takes the comments up to `line_number` out of the store.
    fn extract_comments(&mut self, line_number: u64) -> (comments: Option<CommentBlock>)
        requires
            line_number < u64::MAX,
        ensures
            block_view(comments) == old(self)@.extracted_to(line_number),
            final(self)@ == (ParserStateView {
                comments_hash: old(self)@.comments_hash.without_lines_to(line_number),
                ..old(self)@
            }),
    {
        let ghost before = self@;
        let comments = self.comments_hash.extract_comments_to_line(line_number);
        proof {
            let now = self@;
            assert(now.depth_stack =~= before.depth_stack);
            assert(now.heredoc_strings =~= before.heredoc_strings);
            assert(now.breakable_entry_stack =~= before.breakable_entry_stack);
            if comments is None {
                assert(before.comments_hash.without_lines_to(line_number).others
                    =~= before.comments_hash.others);
            }
        }
        comments
    }

    /// The walk reaches source line `line_number`.
    pub fn on_line(&mut self, line_number: u64)
        requires
            old(self).wf(),
            line_number < u64::MAX,
        ensures
            final(self)@ == old(self)@.on_line(line_number),
            final(self).wf(),
    {
        if line_number < self.current_orig_line_number {
            return ;
        }
        self.attribute_line(line_number);
        let comments = self.extract_comments(line_number);
        self.push_comments(line_number, comments);
    }

    /// Buffers comments that left the store, keeps one blank line if the
    /// source skipped lines, and makes `line_number` the current line.
    fn push_comments(&mut self, line_number: u64, comments: Option<CommentBlock>)
        requires
            old(self).wf(),
        ensures
            final(self)@ == old(self)@.push_comments(line_number, block_view(comments)),
            final(self).wf(),
    {
        let ghost before = self@;
        // the line that the walk has accounted for, unless it lies beyond
        // every line number
        let mut reached: Option<u64> = Some(self.current_orig_line_number);
        match comments {
            None => {},
            Some(comments) => {
                let n = self.surpress_comments_stack.len();
                if !self.surpress_comments_stack[n - 1] {
                    let len = comments.len();
                    self.insert_comment_collection(comments);
                    reached = self.current_orig_line_number.checked_add(len as u64);
                }
            },
        }
        let skipped_lines = match reached {
            Some(line) => line_number >= line && line_number - line >= 2,
            None => false,
        };
        if skipped_lines && self.insert_user_newlines {
            self.insert_extra_newline_at_last_newline();
        }
        let ghost held = self@;
        self.current_orig_line_number = line_number;
        proof {
            let now = self@;
            assert(now.depth_stack =~= held.depth_stack);
            assert(now.heredoc_strings =~= held.heredoc_strings);
            assert(now.breakable_entry_stack =~= held.breakable_entry_stack);
            assert(skipped_lines == (before.skipped_lines(line_number, block_view(comments))
                >= 2));
        }
    }

    fn insert_extra_newline_at_last_newline(&mut self)
        requires
            old(self).wf(),
        ensures
            final(self)@ == old(self)@.insert_extra_newline_at_last_newline(),
            final(self).wf(),
    {
        proof {
            lemma_spliced_wf(self@, seq![TokenView::HardNewLine]);
        }
        let insert_idx = self.index_behind_prev_line();
        let mut tokens: Vec<LineToken> = Vec::new();
        tokens.push(LineToken::HardNewLine);
        proof {
            lemma_token_views(tokens@);
            assert(token_views(tokens@) =~= seq![TokenView::HardNewLine]);
        }
        self.insert_at_target(insert_idx, &mut tokens);
    }

    /// Buffers `comments`, indented like the current line, for the next
    /// newline.
    pub fn insert_comment_collection(&mut self, comments: CommentBlock)
        ensures
            final(self)@ == (ParserStateView {
                comments_to_insert: crate::comment_block::merged_into(
                    old(self)@.comments_to_insert,
                    comments@.with_spaces(old(self)@.spaces_after_last_newline),
                ),
                ..old(self)@
            }),
    {
        let ghost before = self@;
        self.comments_to_insert.merge(comments.apply_spaces(self.spaces_after_last_newline));
        proof {
            let now = self@;
            assert(now.depth_stack =~= before.depth_stack);
            assert(now.heredoc_strings =~= before.heredoc_strings);
            assert(now.breakable_entry_stack =~= before.breakable_entry_stack);
        }
    }

    /// Splices `tokens` into the current buffer before index `idx`.
    fn insert_at_target(&mut self, idx: usize, tokens: &mut Vec<LineToken>)
        requires
            idx <= old(self)@.target().len(),
        ensures
            final(self)@ == old(self)@.with_target(
                spliced(old(self)@.target(), idx as int, token_views(old(tokens)@)),
            ),
    {
        let ghost before = self@;
        let n = self.breakable_entry_stack.len();
        if n == 0 {
            self.render_queue.insert_at(idx, tokens);
        } else {
            self.breakable_entry_stack[n - 1].insert_at(idx, tokens);
        }
        proof {
            let now = self@;
            let want = before.with_target(
                spliced(before.target(), idx as int, token_views(old(tokens)@)),
            );
            assert(now.depth_stack =~= want.depth_stack);
            assert(now.heredoc_strings =~= want.heredoc_strings);
            assert(now.breakable_entry_stack =~= want.breakable_entry_stack);
        }
    }

    /// Puts `t` behind the tokens of the current buffer. Literal text that
    /// is a lone newline is no token to emit: a newline is emitted as one.
    pub fn push_token(&mut self, t: LineToken)
        requires
            old(self).wf(),
            !t@.is_newline_part(),
        ensures
            final(self)@ == old(self)@.push_token(t@),
            final(self).wf(),
    {
        let ghost before = self@;
        let n = self.breakable_entry_stack.len();
        if n == 0 {
            self.render_queue.push(t);
        } else {
            self.breakable_entry_stack[n - 1].push(t);
        }
        proof {
            let now = self@;
            let want = before.push_token(t@);
            lemma_push_token_wf(before, t@);
            assert(now.depth_stack =~= want.depth_stack);
            assert(now.heredoc_strings =~= want.heredoc_strings);
            assert(now.breakable_entry_stack =~= want.breakable_entry_stack);
        }
    }

    fn last_token_is_a_newline(&self) -> (b: bool)
        requires
            self.wf(),
        ensures
            b == last_is_newline(self@.target()),
    {
        proof {
            lemma_target_searchable(self@);
        }
        let n = self.breakable_entry_stack.len();
        if n == 0 {
            self.render_queue.last_token_is_a_newline()
        } else {
            self.breakable_entry_stack[n - 1].last_token_is_a_newline()
        }
    }

    /// Where something that belongs behind the previous line goes in the
    /// current buffer.
    fn index_behind_prev_line(&self) -> (idx: usize)
        requires
            self.wf(),
        ensures
            idx == insertion_index(self@.target()),
            idx <= self@.target().len(),
    {
        let n = self.breakable_entry_stack.len();
        let len = if n == 0 {
            self.render_queue.len()
        } else {
            self.breakable_entry_stack[n - 1].len()
        };
        match self.index_of_prev_hard_newline() {
            Some(idx) => {
                assert(idx < len);
                idx + 1
            },
            None => 0,
        }
    }

    /// The index of the last token of the current buffer that ends a line.
    pub fn index_of_prev_hard_newline(&self) -> (r: Option<usize>)
        requires
            self.wf(),
        ensures
            found_at(r) == prev_hard_newline(self@.target()),
            r matches Some(k) ==> k < self@.target().len(),
    {
        proof {
            lemma_target_searchable(self@);
        }
        let n = self.breakable_entry_stack.len();
        if n == 0 {
            self.render_queue.index_of_prev_hard_newline()
        } else {
            self.breakable_entry_stack[n - 1].index_of_prev_hard_newline()
        }
    }

    fn current_spaces(&self) -> (n: u32)
        requires
            self@.depth_stack.len() >= 1,
            self@.depth_stack.last() <= MAX_DEPTH,
        ensures
            n == self@.current_spaces(),
    {
        let k = self.depth_stack.len();
        2 * self.depth_stack[k - 1].get()
    }

    fn set_spaces_after_last_newline(&mut self)
        requires
            old(self)@.depth_stack.len() >= 1,
            old(self)@.depth_stack.last() <= MAX_DEPTH,
        ensures
            final(self)@ == old(self)@.with_spaces_after_last_newline(),
    {
        let ghost before = self@;
        self.spaces_after_last_newline = self.current_spaces();
        proof {
            let now = self@;
            assert(now.depth_stack =~= before.depth_stack);
            assert(now.heredoc_strings =~= before.heredoc_strings);
            assert(now.breakable_entry_stack =~= before.breakable_entry_stack);
        }
    }

    /// Moves the buffered comments into the current buffer, behind the
    /// previous line.
    pub fn shift_comments(&mut self)
        requires
            old(self).wf(),
        ensures
            final(self)@ == old(self)@.shift_comments(),
            final(self).wf(),
    {
        let ghost before = self@;
        let insert_index = self.index_behind_prev_line();
        if let Some(new_comments) = self.comments_to_insert.take() {
            proof {
                lemma_spliced_wf(
                    ParserStateView { comments_to_insert: None, ..before },
                    before.comments_to_insert->0.line_tokens(),
                );
                let now = self@;
                assert(now.depth_stack =~= before.depth_stack);
                assert(now.heredoc_strings =~= before.heredoc_strings);
                assert(now.breakable_entry_stack =~= before.breakable_entry_stack);
            }
            let mut tokens = new_comments.into_line_tokens();
            self.insert_at_target(insert_index, &mut tokens);
        }
    }

    pub fn emit_indent(&mut self)
        requires
            old(self).wf(),
        ensures
            final(self)@ == old(self)@.emit_indent(),
            final(self).wf(),
    {
        let depth = self.current_spaces();
        self.push_token(LineToken::Indent { depth });
    }

    pub fn emit_op(&mut self, op: String)
        requires
            old(self).wf(),
        ensures
            final(self)@ == old(self)@.push_token(TokenView::Op { op: op@ }),
            final(self).wf(),
    {
        self.push_token(LineToken::Op { op });
    }

    pub fn emit_double_quote(&mut self)
        requires
            old(self).wf(),
        ensures
            final(self)@ == old(self)@.push_token(TokenView::DoubleQuote),
            final(self).wf(),
    {
        self.push_token(LineToken::DoubleQuote);
    }

    pub fn emit_string_content(&mut self, s: String)
        requires
            old(self).wf(),
        ensures
            final(self)@ == old(self)@.push_token(TokenView::LTStringContent { content: s@ }),
            final(self).wf(),
    {
        self.push_token(LineToken::LTStringContent { content: s });
    }

    /// Literal text. A newline is not emitted as text.
    pub fn emit_ident(&mut self, ident: String)
        requires
            old(self).wf(),
            ident@ != "\n"@,
        ensures
            final(self)@ == old(self)@.push_token(TokenView::DirectPart { part: ident@ }),
            final(self).wf(),
    {
        self.push_token(LineToken::DirectPart { part: ident });
    }

    pub fn emit_keyword(&mut self, kw: String)
        requires
            old(self).wf(),
        ensures
            final(self)@ == old(self)@.push_token(TokenView::Keyword { keyword: kw@ }),
            final(self).wf(),
    {
        self.push_token(LineToken::Keyword { keyword: kw });
    }

    pub fn emit_mod_keyword(&mut self, contents: String)
        requires
            old(self).wf(),
        ensures
            final(self)@ == old(self)@.push_token(TokenView::ModKeyword { contents: contents@ }),
            final(self).wf(),
    {
        self.push_token(LineToken::ModKeyword { contents });
    }

    pub fn emit_conditional_keyword(&mut self, contents: String)
        requires
            old(self).wf(),
        ensures
            final(self)@ == old(self)@.push_token(
                TokenView::ConditionalKeyword { contents: contents@ },
            ),
            final(self).wf(),
    {
        self.push_token(LineToken::ConditionalKeyword { contents });
    }

    pub fn emit_def_keyword(&mut self)
        requires
            old(self).wf(),
        ensures
            final(self)@ == old(self)@.push_token(TokenView::DefKeyword),
            final(self).wf(),
    {
        self.push_token(LineToken::DefKeyword);
    }

    pub fn emit_case_keyword(&mut self)
        requires
            old(self).wf(),
        ensures
            final(self)@ == old(self)@.push_token(TokenView::Keyword { keyword: "case"@ }),
            final(self).wf(),
    {
        self.push_token(LineToken::Keyword { keyword: "case".to_string() });
    }

    pub fn emit_when_keyword(&mut self)
        requires
            old(self).wf(),
        ensures
            final(self)@ == old(self)@.push_token(TokenView::Keyword { keyword: "when"@ }),
            final(self).wf(),
    {
        self.push_token(LineToken::Keyword { keyword: "when".to_string() });
    }

    pub fn emit_do_keyword(&mut self)
        requires
            old(self).wf(),
        ensures
            final(self)@ == old(self)@.push_token(TokenView::DoKeyword),
            final(self).wf(),
    {
        self.push_token(LineToken::DoKeyword);
    }

    pub fn emit_class_keyword(&mut self)
        requires
            old(self).wf(),
        ensures
            final(self)@ == old(self)@.push_token(TokenView::ClassKeyword),
            final(self).wf(),
    {
        self.push_token(LineToken::ClassKeyword);
    }

    pub fn emit_module_keyword(&mut self)
        requires
            old(self).wf(),
        ensures
            final(self)@ == old(self)@.push_token(TokenView::ModuleKeyword),
            final(self).wf(),
    {
        self.push_token(LineToken::ModuleKeyword);
    }

    pub fn emit_rescue(&mut self)
        requires
            old(self).wf(),
        ensures
            final(self)@ == old(self)@.push_token(TokenView::Keyword { keyword: "rescue"@ }),
            final(self).wf(),
    {
        self.push_token(LineToken::Keyword { keyword: "rescue".to_string() });
    }

    pub fn emit_ensure(&mut self)
        requires
            old(self).wf(),
        ensures
            final(self)@ == old(self)@.push_token(TokenView::Keyword { keyword: "ensure"@ }),
            final(self).wf(),
    {
        self.push_token(LineToken::Keyword { keyword: "ensure".to_string() });
    }

    pub fn emit_begin(&mut self)
        requires
            old(self).wf(),
        ensures
            final(self)@ == old(self)@.push_token(TokenView::Keyword { keyword: "begin"@ }),
            final(self).wf(),
    {
        self.push_token(LineToken::Keyword { keyword: "begin".to_string() });
    }

    pub fn emit_begin_block(&mut self)
        requires
            old(self).wf(),
        ensures
            final(self)@ == old(self)@.push_token(TokenView::Keyword { keyword: "BEGIN"@ }),
            final(self).wf(),
    {
        self.push_token(LineToken::Keyword { keyword: "BEGIN".to_string() });
    }

    pub fn emit_end_block(&mut self)
        requires
            old(self).wf(),
        ensures
            final(self)@ == old(self)@.push_token(TokenView::Keyword { keyword: "END"@ }),
            final(self).wf(),
    {
        self.push_token(LineToken::Keyword { keyword: "END".to_string() });
    }

    pub fn emit_soft_indent(&mut self)
        requires
            old(self).wf(),
        ensures
            final(self)@ == old(self)@.emit_soft_indent(),
            final(self).wf(),
    {
        let depth = self.current_spaces();
        self.push_token(LineToken::SoftIndent { depth });
    }

    pub fn emit_comma(&mut self)
        requires
            old(self).wf(),
        ensures
            final(self)@ == old(self)@.push_token(TokenView::Comma),
            final(self).wf(),
    {
        self.push_token(LineToken::Comma);
    }

    /// A newline that becomes a blank when its group is rendered on one
    /// line. Buffered comments are shifted in first.
    pub fn emit_soft_newline(&mut self)
        requires
            old(self).wf(),
        ensures
            final(self)@ == old(self)@.emit_soft_newline(),
            final(self).wf(),
    {
        self.shift_comments();
        self.push_token(LineToken::SoftNewline);
        self.set_spaces_after_last_newline();
    }

    /// A newline that vanishes when its group is rendered on one line,
    /// unless the buffer ends with a newline already.
    pub fn emit_collapsing_newline(&mut self)
        requires
            old(self).wf(),
        ensures
            final(self)@ == old(self)@.emit_collapsing_newline(),
            final(self).wf(),
    {
        if !self.last_token_is_a_newline() {
            self.push_token(LineToken::CollapsingNewLine);
        }
        self.set_spaces_after_last_newline();
    }

    pub fn emit_def(&mut self, def_name: String)
        requires
            old(self).wf(),
        ensures
            final(self)@ == old(self)@.push_token(TokenView::DefKeyword).push_token(
                TokenView::DirectPart { part: " "@ + def_name@ },
            ),
            final(self).wf(),
    {
        self.emit_def_keyword();
        let mut part = " ".to_string();
        part.append(def_name.as_str());
        proof {
            reveal_strlit(" ");
            reveal_strlit("\n");
            assert(part@[0] == ' ');
            assert("\n"@[0] == '\n');
        }
        self.push_token(LineToken::DirectPart { part });
    }

    /// A hard newline: buffered comments are shifted in, the newline is
    /// emitted, and every pending heredoc is rendered behind it.
    pub fn emit_newline(&mut self)
        requires
            old(self).wf(),
        ensures
            final(self)@ == old(self)@.emit_newline(),
            final(self).wf(),
        decreases old(self)@.heredoc_strings.len(), 1nat,
    {
        proof {
            lemma_emit_newline_flushes(self@);
        }
        self.shift_comments();
        self.push_token(LineToken::HardNewLine);
        proof {
            lemma_render_heredocs_flushes(self@, false);
        }
        self.render_heredocs(false);
        self.set_spaces_after_last_newline();
    }

    /// `end` on a line of its own.
    pub fn emit_end(&mut self)
        requires
            old(self).wf(),
        ensures
            final(self)@ == old(self)@.emit_end(),
            final(self).wf(),
    {
        if !self.last_token_is_a_newline() {
            self.emit_newline();
        }
        if self.at_start_of_line() {
            self.emit_indent();
        }
        self.push_token(LineToken::End);
    }

    pub fn emit_else(&mut self)
        requires
            old(self).wf(),
        ensures
            final(self)@ == old(self)@.push_token(
                TokenView::ConditionalKeyword { contents: "else"@ },
            ),
            final(self).wf(),
    {
        self.emit_conditional_keyword("else".to_string());
    }

    pub fn emit_comma_space(&mut self)
        requires
            old(self).wf(),
        ensures
            final(self)@ == old(self)@.push_token(TokenView::CommaSpace),
            final(self).wf(),
    {
        self.push_token(LineToken::CommaSpace)
    }

    pub fn emit_space(&mut self)
        requires
            old(self).wf(),
        ensures
            final(self)@ == old(self)@.push_token(TokenView::Space),
            final(self).wf(),
    {
        self.push_token(LineToken::Space);
    }

    pub fn emit_dot(&mut self)
        requires
            old(self).wf(),
        ensures
            final(self)@ == old(self)@.push_token(TokenView::Dot),
            final(self).wf(),
    {
        self.push_token(LineToken::Dot);
    }

    pub fn emit_colon_colon(&mut self)
        requires
            old(self).wf(),
        ensures
            final(self)@ == old(self)@.push_token(TokenView::ColonColon),
            final(self).wf(),
    {
        self.push_token(LineToken::ColonColon);
    }

    pub fn emit_lonely_operator(&mut self)
        requires
            old(self).wf(),
        ensures
            final(self)@ == old(self)@.push_token(TokenView::LonelyOperator),
            final(self).wf(),
    {
        self.push_token(LineToken::LonelyOperator);
    }

    pub fn emit_open_square_bracket(&mut self)
        requires
            old(self).wf(),
        ensures
            final(self)@ == old(self)@.push_token(TokenView::OpenSquareBracket),
            final(self).wf(),
    {
        self.push_token(LineToken::OpenSquareBracket);
    }

    pub fn emit_close_square_bracket(&mut self)
        requires
            old(self).wf(),
        ensures
            final(self)@ == old(self)@.push_token(TokenView::CloseSquareBracket),
            final(self).wf(),
    {
        self.push_token(LineToken::CloseSquareBracket);
    }

    pub fn emit_open_curly_bracket(&mut self)
        requires
            old(self).wf(),
        ensures
            final(self)@ == old(self)@.push_token(TokenView::OpenCurlyBracket),
            final(self).wf(),
    {
        self.push_token(LineToken::OpenCurlyBracket);
    }

    pub fn emit_close_curly_bracket(&mut self)
        requires
            old(self).wf(),
        ensures
            final(self)@ == old(self)@.push_token(TokenView::CloseCurlyBracket),
            final(self).wf(),
    {
        self.push_token(LineToken::CloseCurlyBracket);
    }

    pub fn emit_slash(&mut self)
        requires
            old(self).wf(),
        ensures
            final(self)@ == old(self)@.push_token(TokenView::SingleSlash),
            final(self).wf(),
    {
        self.push_token(LineToken::SingleSlash);
    }

    pub fn emit_open_paren(&mut self)
        requires
            old(self).wf(),
        ensures
            final(self)@ == old(self)@.push_token(TokenView::OpenParen),
            final(self).wf(),
    {
        self.push_token(LineToken::OpenParen);
    }

    pub fn emit_close_paren(&mut self)
        requires
            old(self).wf(),
        ensures
            final(self)@ == old(self)@.push_token(TokenView::CloseParen),
            final(self).wf(),
    {
        self.push_token(LineToken::CloseParen);
    }

    pub fn at_start_of_line(&self) -> (b: bool)
        requires
            self@.start_of_line.len() >= 1,
        ensures
            b == self@.at_start_of_line(),
    {
        let n = self.start_of_line.len();
        self.start_of_line[n - 1]
    }

    pub fn current_formatting_context(&self) -> (fc: FormattingContext)
        requires
            self@.formatting_context.len() >= 1,
        ensures
            fc == self@.formatting_context.last(),
    {
        let n = self.formatting_context.len();
        self.formatting_context[n - 1]
    }

    pub fn is_absorbing_indents(&self) -> (b: bool)
        ensures
            b == (self@.absorbing_indents >= 1),
    {
        self.absorbing_indents >= 1
    }

    /// Renders every pending heredoc, the most recent first.
    pub fn render_heredocs(&mut self, skip: bool)
        requires
            old(self).wf(),
        ensures
            final(self)@ == old(self)@.render_heredocs(skip),
            final(self).wf(),
        decreases old(self)@.heredoc_strings.len(), 0nat,
    {
        let ghost before = self@;
        if self.heredoc_strings.len() == 0 {
            return ;
        }
        let next_heredoc = self.heredoc_strings.pop().unwrap();
        proof {
            let now = self@;
            let popped = ParserStateView {
                heredoc_strings: before.heredoc_strings.drop_last(),
                ..before
            };
            assert(now.depth_stack =~= popped.depth_stack);
            assert(now.heredoc_strings =~= popped.heredoc_strings);
            assert(now.breakable_entry_stack =~= popped.breakable_entry_stack);
            assert(next_heredoc@ == before.heredoc_strings.last());
        }
        let want_newline = !self.last_token_is_a_newline();
        if want_newline {
            self.push_token(LineToken::HardNewLine);
        }
        let HeredocString { symbol, squiggly, buf } = next_heredoc;
        let body = strip_trailing_newline(strip_trailing_newline(buf));
        self.push_token(LineToken::DirectPart { part: body });
        proof {
            lemma_emit_newline_flushes(self@);
        }
        self.emit_newline();
        if squiggly {
            self.emit_indent();
        } else {
            self.push_token(LineToken::Indent { depth: 0 });
        }
        self.emit_ident(strip_quotes(symbol.as_str()));
        if !skip {
            proof {
                lemma_emit_newline_plain(self@);
            }
            self.emit_newline();
        }
    }

    /// Opens a group with the delimiters `delims`.
    pub fn open_breakable(&mut self, delims: BreakableDelims)
        requires
            old(self).wf(),
        ensures
            final(self)@ == old(self)@.open_breakable(delims@),
            final(self).wf(),
    {
        self.shift_comments();
        let ghost shifted = self@;
        let mut be = BreakableEntry::new(self.current_spaces(), delims);
        be.push_line_number(self.current_orig_line_number);
        self.breakable_entry_stack.push(be);
        proof {
            let now = self@;
            let want = old(self)@.open_breakable(delims@);
            assert(now.depth_stack =~= want.depth_stack);
            assert(now.heredoc_strings =~= want.heredoc_strings);
            assert(now.breakable_entry_stack =~= want.breakable_entry_stack);
        }
    }

    /// Closes the innermost group and emits it as one token. There must be
    /// an open group.
    pub fn close_breakable(&mut self)
        requires
            old(self).wf(),
            old(self)@.breakable_entry_stack.len() > 0,
        ensures
            final(self)@ == old(self)@.close_breakable(),
            final(self).wf(),
    {
        let ghost before = self@;
        let insert_be = self.breakable_entry_stack.pop().unwrap();
        proof {
            let now = self@;
            let popped = ParserStateView {
                breakable_entry_stack: before.breakable_entry_stack.drop_last(),
                ..before
            };
            assert(now.depth_stack =~= popped.depth_stack);
            assert(now.heredoc_strings =~= popped.heredoc_strings);
            assert(now.breakable_entry_stack =~= popped.breakable_entry_stack);
            assert(insert_be@ == before.breakable_entry_stack.last());
        }
        self.push_token(LineToken::BreakableEntry(insert_be));
    }

    /// Moves the walk one source line on.
    pub fn wind_line_forward(&mut self)
        requires
            old(self).wf(),
            old(self)@.current_orig_line_number < u64::MAX - 1,
        ensures
            final(self)@ == old(self)@.on_line((old(self)@.current_orig_line_number + 1) as u64),
            final(self).wf(),
    {
        self.on_line(self.current_orig_line_number + 1);
    }

    /// Emits the comments that open the file. To be called before anything
    /// else.
    pub fn flush_start_of_file_comments(&mut self)
        requires
            old(self).wf(),
        ensures
            final(self)@ == old(self)@.flush_start_of_file_comments(),
            final(self).wf(),
    {
        let ghost before = self@;
        match self.comments_hash.take_start_of_file_contiguous_comment_lines() {
            None => {
                proof {
                    let now = self@;
                    assert(now.depth_stack =~= before.depth_stack);
                    assert(now.heredoc_strings =~= before.heredoc_strings);
                    assert(now.breakable_entry_stack =~= before.breakable_entry_stack);
                    assert(now.comments_hash == before.comments_hash);
                }
                self.on_line(1);
            },
            Some(comments) => {
                proof {
                    let now = self@;
                    let taken = ParserStateView {
                        comments_hash: FileCommentsView { leading: None, ..before.comments_hash },
                        ..before
                    };
                    assert(now.depth_stack =~= taken.depth_stack);
                    assert(now.heredoc_strings =~= taken.heredoc_strings);
                    assert(now.breakable_entry_stack =~= taken.breakable_entry_stack);
                }
                let len = comments.len();
                self.push_comments(len as u64, Some(comments));
                self.shift_comments();
            },
        }
    }

    /// A fresh state for a nested, isolated emission: only the indent and
    /// the current line are taken over.
    pub fn new_with_depth_stack_from(ps: &ParserState) -> (next_ps: Self)
        requires
            ps.wf(),
        ensures
            next_ps@ == ps@.new_with_depth_stack_from(),
            next_ps.wf(),
    {
        let mut next_ps = ParserState::new(FileComments::default());
        next_ps.depth_stack = ps.depth_stack.clone();
        next_ps.current_orig_line_number = ps.current_orig_line_number;
        next_ps.run_pipeline = ps.run_pipeline;
        proof {
            let now = next_ps@;
            let want = ps@.new_with_depth_stack_from();
            assert(now.depth_stack =~= want.depth_stack);
            assert(now.start_of_line =~= want.start_of_line);
            assert(now.surpress_comments_stack =~= want.surpress_comments_stack);
            assert(now.heredoc_strings =~= want.heredoc_strings);
            assert(now.breakable_entry_stack =~= want.breakable_entry_stack);
            assert(now.formatting_context =~= want.formatting_context);
        }
        next_ps
    }

    fn set_depth(&mut self, depth: u32)
        requires
            old(self)@.depth_stack.len() >= 1,
        ensures
            final(self)@ == old(self)@.with_depth(depth),
    {
        let ghost before = self@;
        let n = self.depth_stack.len();
        self.depth_stack[n - 1].depth = depth;
        proof {
            let now = self@;
            let want = before.with_depth(depth);
            assert(now.depth_stack =~= want.depth_stack);
            assert(now.heredoc_strings =~= want.heredoc_strings);
            assert(now.breakable_entry_stack =~= want.breakable_entry_stack);
        }
    }

    fn depth(&self) -> (d: u32)
        requires
            self@.depth_stack.len() >= 1,
        ensures
            d == self@.depth(),
    {
        let n = self.depth_stack.len();
        self.depth_stack[n - 1].get()
    }

    /// Runs `f` one level deeper and comes back to the level of before.
    pub fn new_block<F>(&mut self, f: F) where F: FnOnce(&mut ParserState)
        requires
            old(self).wf(),
            old(self)@.depth() < MAX_DEPTH,
            forall|s: &mut ParserState|
                s.wf() && s@ == old(self)@.indented() ==> #[trigger] call_requires(f, (s,)),
            forall|s: &mut ParserState| #[trigger]
                call_ensures(f, (s,), ()) ==> final(s).wf() && final(s)@.same_scopes(s@),
        ensures
            final(self).wf(),
            final(self)@.same_scopes(old(self)@),
            exists|s: &mut ParserState|
                s@ == old(self)@.indented() && #[trigger] call_ensures(f, (s,), ()) && final(self)@
                    == final(s)@.dedented(),
    {
        let d = self.depth();
        self.set_depth(d + 1);
        f(self);
        let d = self.depth();
        self.set_depth(d - 1);
        assert(self@.depth_stack =~= old(self)@.depth_stack);
    }

    /// Runs `f` one level less deep and comes back to the level of before.
    pub fn dedent<F>(&mut self, f: F) where F: FnOnce(&mut ParserState)
        requires
            old(self).wf(),
            old(self)@.depth() > 0,
            forall|s: &mut ParserState|
                s.wf() && s@ == old(self)@.dedented() ==> #[trigger] call_requires(f, (s,)),
            forall|s: &mut ParserState| #[trigger]
                call_ensures(f, (s,), ()) ==> final(s).wf() && final(s)@.same_scopes(s@),
        ensures
            final(self).wf(),
            final(self)@.same_scopes(old(self)@),
            exists|s: &mut ParserState|
                s@ == old(self)@.dedented() && #[trigger] call_ensures(f, (s,), ()) && final(self)@
                    == final(s)@.indented(),
    {
        let d = self.depth();
        self.set_depth(d - 1);
        f(self);
        let d = self.depth();
        self.set_depth(d + 1);
        assert(self@.depth_stack =~= old(self)@.depth_stack);
    }

    /// Runs `f` with the start-of-line flag set to `start_of_line` and
    /// restores the flag.
    pub fn with_start_of_line<F>(&mut self, start_of_line: bool, f: F) where
        F: FnOnce(&mut ParserState),

        requires
            old(self).wf(),
            forall|s: &mut ParserState|
                s.wf() && s@ == old(self)@.with_start_of_line(start_of_line)
                    ==> #[trigger] call_requires(f, (s,)),
            forall|s: &mut ParserState| #[trigger]
                call_ensures(f, (s,), ()) ==> final(s).wf() && final(s)@.same_scopes(s@),
        ensures
            final(self).wf(),
            final(self)@.same_scopes(old(self)@),
            exists|s: &mut ParserState|
                s@ == old(self)@.with_start_of_line(start_of_line) && #[trigger] call_ensures(
                    f,
                    (s,),
                    (),
                ) && final(self)@ == final(s)@.without_start_of_line(),
    {
        let ghost before = self@;
        self.start_of_line.push(start_of_line);
        proof {
            let now = self@;
            let want = before.with_start_of_line(start_of_line);
            assert(now.depth_stack =~= want.depth_stack);
            assert(now.heredoc_strings =~= want.heredoc_strings);
            assert(now.breakable_entry_stack =~= want.breakable_entry_stack);
        }
        f(self);
        let ghost mid = self@;
        self.start_of_line.pop();
        proof {
            let now = self@;
            let want = mid.without_start_of_line();
            assert(now.depth_stack =~= want.depth_stack);
            assert(now.heredoc_strings =~= want.heredoc_strings);
            assert(now.breakable_entry_stack =~= want.breakable_entry_stack);
            assert(now.start_of_line =~= before.start_of_line);
        }
    }

    /// Runs `f` with the formatting context `fc` and restores the context.
    pub fn with_formatting_context<F>(&mut self, fc: FormattingContext, f: F) where
        F: FnOnce(&mut ParserState),

        requires
            old(self).wf(),
            forall|s: &mut ParserState|
                s.wf() && s@ == old(self)@.with_formatting_context(fc) ==> #[trigger] call_requires(
                    f,
                    (s,),
                ),
            forall|s: &mut ParserState| #[trigger]
                call_ensures(f, (s,), ()) ==> final(s).wf() && final(s)@.same_scopes(s@),
        ensures
            final(self).wf(),
            final(self)@.same_scopes(old(self)@),
            exists|s: &mut ParserState|
                s@ == old(self)@.with_formatting_context(fc) && #[trigger] call_ensures(
                    f,
                    (s,),
                    (),
                ) && final(self)@ == final(s)@.without_formatting_context(),
    {
        let ghost before = self@;
        self.formatting_context.push(fc);
        proof {
            let now = self@;
            let want = before.with_formatting_context(fc);
            assert(now.depth_stack =~= want.depth_stack);
            assert(now.heredoc_strings =~= want.heredoc_strings);
            assert(now.breakable_entry_stack =~= want.breakable_entry_stack);
        }
        f(self);
        let ghost mid = self@;
        self.formatting_context.pop();
        proof {
            let now = self@;
            let want = mid.without_formatting_context();
            assert(now.depth_stack =~= want.depth_stack);
            assert(now.heredoc_strings =~= want.heredoc_strings);
            assert(now.breakable_entry_stack =~= want.breakable_entry_stack);
            assert(now.formatting_context =~= before.formatting_context);
        }
    }

    /// Runs `f` with comments suppressed or not and restores the flag.
    pub fn with_surpress_comments<F>(&mut self, surpress: bool, f: F) where
        F: FnOnce(&mut ParserState),

        requires
            old(self).wf(),
            forall|s: &mut ParserState|
                s.wf() && s@ == old(self)@.with_surpress_comments(surpress)
                    ==> #[trigger] call_requires(f, (s,)),
            forall|s: &mut ParserState| #[trigger]
                call_ensures(f, (s,), ()) ==> final(s).wf() && final(s)@.same_scopes(s@),
        ensures
            final(self).wf(),
            final(self)@.same_scopes(old(self)@),
            exists|s: &mut ParserState|
                s@ == old(self)@.with_surpress_comments(surpress) && #[trigger] call_ensures(
                    f,
                    (s,),
                    (),
                ) && final(self)@ == final(s)@.without_surpress_comments(),
    {
        let ghost before = self@;
        self.surpress_comments_stack.push(surpress);
        proof {
            let now = self@;
            let want = before.with_surpress_comments(surpress);
            assert(now.depth_stack =~= want.depth_stack);
            assert(now.heredoc_strings =~= want.heredoc_strings);
            assert(now.breakable_entry_stack =~= want.breakable_entry_stack);
        }
        f(self);
        let ghost mid = self@;
        self.surpress_comments_stack.pop();
        proof {
            let now = self@;
            let want = mid.without_surpress_comments();
            assert(now.depth_stack =~= want.depth_stack);
            assert(now.heredoc_strings =~= want.heredoc_strings);
            assert(now.breakable_entry_stack =~= want.breakable_entry_stack);
            assert(now.surpress_comments_stack =~= before.surpress_comments_stack);
        }
    }

    fn set_absorbing_indents(&mut self, absorbing_indents: i32)
        ensures
            final(self)@ == old(self)@.with_absorbing_indents(absorbing_indents),
    {
        let ghost before = self@;
        self.absorbing_indents = absorbing_indents;
        proof {
            let now = self@;
            assert(now.depth_stack =~= before.depth_stack);
            assert(now.heredoc_strings =~= before.heredoc_strings);
            assert(now.breakable_entry_stack =~= before.breakable_entry_stack);
        }
    }

    /// Runs `f` in a block that absorbs the indent of the blocks nested in
    /// it: only the outermost such block indents.
    pub fn with_absorbing_indent_block<F>(&mut self, f: F) where F: FnOnce(&mut ParserState)
        requires
            old(self).wf(),
            old(self)@.absorbing_indents < i32::MAX,
            old(self)@.depth() < MAX_DEPTH,
            forall|s: &mut ParserState|
                s.wf() && s@ == old(self)@.with_absorbing_indents(
                    (old(self)@.absorbing_indents + 1) as i32,
                ).indented() ==> #[trigger] call_requires(f, (s,)),
            forall|s: &mut ParserState|
                s.wf() && s@ == old(self)@.with_absorbing_indents(
                    (old(self)@.absorbing_indents + 1) as i32,
                ) ==> #[trigger] call_requires(f, (s,)),
            forall|s: &mut ParserState| #[trigger]
                call_ensures(f, (s,), ()) ==> final(s).wf() && final(s)@.same_scopes(s@),
        ensures
            final(self).wf(),
            final(self)@.same_scopes(old(self)@),
            exists|s: &mut ParserState|
                {
                    let entered = old(self)@.with_absorbing_indents(
                        (old(self)@.absorbing_indents + 1) as i32,
                    );
                    &&& #[trigger] call_ensures(f, (s,), ())
                    &&& if old(self)@.absorbing_indents != 0 {
                        s@ == entered && final(self)@ == final(s)@.with_absorbing_indents(
                            old(self)@.absorbing_indents,
                        )
                    } else {
                        s@ == entered.indented() && final(self)@
                            == final(s)@.dedented().with_absorbing_indents(
                            old(self)@.absorbing_indents,
                        )
                    }
                },
    {
        let was_absorbing = self.absorbing_indents != 0;
        let absorbing = self.absorbing_indents;
        self.set_absorbing_indents(absorbing + 1);
        if was_absorbing {
            f(self);
        } else {
            let d = self.depth();
            self.set_depth(d + 1);
            f(self);
            let d = self.depth();
            self.set_depth(d - 1);
        }
        let absorbing = self.absorbing_indents;
        self.set_absorbing_indents(absorbing - 1);
        assert(self@.depth_stack =~= old(self)@.depth_stack);
    }

    /// Emits a group: `f` emits its body, which is rendered on one line or
    /// on several, between the delimiters `delims`.
    pub fn breakable_of<F>(&mut self, delims: BreakableDelims, f: F) where
        F: FnOnce(&mut ParserState),

        requires
            old(self).wf(),
            old(self)@.depth() < MAX_DEPTH,
            forall|s: &mut ParserState|
                s.wf() && s@ == old(self)@.in_breakable(delims@) ==> #[trigger] call_requires(
                    f,
                    (s,),
                ),
            forall|s: &mut ParserState| #[trigger]
                call_ensures(f, (s,), ()) ==> final(s).wf() && final(s)@.same_scopes(s@),
        ensures
            final(self).wf(),
            final(self)@.same_scopes(old(self)@),
            exists|s: &mut ParserState|
                s@ == old(self)@.in_breakable(delims@) && #[trigger] call_ensures(f, (s,), ())
                    && final(self)@ == final(s)@.out_of_breakable(),
    {
        proof {
            lemma_shift_comments_scopes(self@);
        }
        self.open_breakable(delims);
        let d = self.depth();
        self.set_depth(d + 1);
        self.emit_collapsing_newline();
        f(self);
        let d = self.depth();
        self.set_depth(d - 1);
        self.emit_soft_indent();
        self.close_breakable();
        assert(self@.depth_stack =~= old(self)@.depth_stack);
    }

    /// Emits the elements of a multi-line array through `f`, with the
    /// comments before the first and behind the last element shifted in.
    pub fn magic_handle_comments_for_mulitiline_arrays<F>(&mut self, f: F) where
        F: FnOnce(&mut ParserState),

        requires
            old(self).wf(),
            forall|s: &mut ParserState|
                s.wf() && s@ == old(self)@.shift_comments() ==> #[trigger] call_requires(f, (s,)),
            forall|s: &mut ParserState| #[trigger]
                call_ensures(f, (s,), ()) ==> final(s).wf() && final(s)@.same_scopes(s@)
                    && final(s)@.current_orig_line_number < u64::MAX - 1,
        ensures
            final(self).wf(),
            final(self)@.same_scopes(old(self)@),
            exists|s: &mut ParserState|
                s@ == old(self)@.shift_comments() && #[trigger] call_ensures(f, (s,), ())
                    && final(self)@ == final(s)@.after_array_elements(
                    old(self)@.current_orig_line_number,
                ),
    {
        let current_line_number = self.current_orig_line_number;
        proof {
            lemma_shift_comments_scopes(self@);
        }
        self.shift_comments();
        f(self);
        let new_line_number = self.current_orig_line_number;
        if new_line_number > current_line_number {
            proof {
                lemma_on_line_scopes(self@, (new_line_number + 1) as u64);
            }
            self.wind_line_forward();
            proof {
                lemma_shift_comments_scopes(self@);
            }
            self.shift_comments();
            let ghost held = self@;
            self.current_orig_line_number = new_line_number;
            proof {
                let now = self@;
                assert(now.depth_stack =~= held.depth_stack);
                assert(now.heredoc_strings =~= held.heredoc_strings);
                assert(now.breakable_entry_stack =~= held.breakable_entry_stack);
            }
        }
    }

    /// Runs `f` on a fresh state that shares only the indent and the
    /// current line with `ps`, and hands that state out.
    pub fn render_with_blank_state<F>(ps: &mut ParserState, f: F) -> (next_ps: ParserState) where
        F: FnOnce(&mut ParserState),

        requires
            old(ps).wf(),
            forall|s: &mut ParserState|
                s.wf() && s@ == old(ps)@.new_with_depth_stack_from() ==> #[trigger] call_requires(
                    f,
                    (s,),
                ),
        ensures
            final(ps)@ == old(ps)@,
            exists|s: &mut ParserState|
                s@ == old(ps)@.new_with_depth_stack_from() && #[trigger] call_ensures(f, (s,), ())
                    && next_ps@ == final(s)@,
    {
        let mut next_ps = ParserState::new_with_depth_stack_from(ps);
        f(&mut next_ps);
        next_ps
    }

    fn set_insert_user_newlines(&mut self, insert_user_newlines: bool)
        ensures
            final(self)@ == (ParserStateView { insert_user_newlines, ..old(self)@ }),
    {
        let ghost before = self@;
        self.insert_user_newlines = insert_user_newlines;
        proof {
            let now = self@;
            assert(now.depth_stack =~= before.depth_stack);
            assert(now.heredoc_strings =~= before.heredoc_strings);
            assert(now.breakable_entry_stack =~= before.breakable_entry_stack);
        }
    }

    /// Queues a heredoc: `f` emits its content into a nested, isolated
    /// state, which is rendered at once; the body waits for the next hard
    /// newline. What `f` leaves must be a heredoc that can be taken: its
    /// content can be rendered, and neither body nor terminator is a lone
    /// newline.
    pub fn push_heredoc_content<F>(&mut self, symbol: String, is_squiggly: bool, f: F) where
        F: FnOnce(&mut ParserState),

        requires
            old(self).wf(),
            forall|s: &mut ParserState|
                s.wf() && s@ == old(self)@.for_heredoc_content() ==> #[trigger] call_requires(
                    f,
                    (s,),
                ),
            forall|s: &mut ParserState| #[trigger]
                call_ensures(f, (s,), ()) ==> final(s).wf() && old(self)@.takes_heredoc(
                    symbol@,
                    final(s)@,
                ),
        ensures
            final(self).wf(),
            exists|s: &mut ParserState|
                s@ == old(self)@.for_heredoc_content() && #[trigger] call_ensures(f, (s,), ())
                    && final(self)@ == old(self)@.push_heredoc_content(
                    symbol@,
                    is_squiggly,
                    final(s)@,
                ),
    {
        let ghost before = self@;
        let mut next_ps = ParserState::new_with_depth_stack_from(self);
        next_ps.set_insert_user_newlines(false);
        f(&mut next_ps);
        let ghost content = next_ps@;
        proof {
            lemma_emit_newline_flushes(content);
        }
        next_ps.emit_newline();
        let ghost ended = next_ps@;
        self.take_heredocs_of(&mut next_ps);
        assert(next_ps@.render_queue == ended.render_queue);
        let data = next_ps.render();
        let ghost held = self@;
        self.heredoc_strings.push(HeredocString::new(symbol, is_squiggly, data));
        proof {
            let now = self@;
            let want = before.push_heredoc_content(symbol@, is_squiggly, content);
            assert(now.depth_stack =~= want.depth_stack);
            assert(now.heredoc_strings =~= want.heredoc_strings);
            assert(now.breakable_entry_stack =~= want.breakable_entry_stack);
        }
    }

    /// Moves the heredocs that are pending in `other` behind the own ones.
    fn take_heredocs_of(&mut self, other: &mut ParserState)
        ensures
            final(self)@ == (ParserStateView {
                heredoc_strings: old(self)@.heredoc_strings + old(other)@.heredoc_strings,
                ..old(self)@
            }),
            final(other)@ == (ParserStateView {
                heredoc_strings: Seq::empty(),
                ..old(other)@
            }),
    {
        let ghost mine = self@;
        let ghost theirs = other@;
        self.heredoc_strings.append(&mut other.heredoc_strings);
        proof {
            let now = self@;
            assert(now.depth_stack =~= mine.depth_stack);
            assert(now.heredoc_strings =~= mine.heredoc_strings + theirs.heredoc_strings);
            assert(now.breakable_entry_stack =~= mine.breakable_entry_stack);
            let left = other@;
            assert(left.depth_stack =~= theirs.depth_stack);
            assert(left.heredoc_strings =~= Seq::<HeredocView>::empty());
            assert(left.breakable_entry_stack =~= theirs.breakable_entry_stack);
        }
    }

    /// Whether what `f` emits renders to more than one line. `f` runs on a
    /// state of its own, which is thrown away. What `f` leaves must be
    /// something that can be rendered.
    pub fn will_render_as_multiline<F>(&mut self, f: F) -> (b: bool) where
        F: FnOnce(&mut ParserState),

        requires
            old(self).wf(),
            forall|s: &mut ParserState|
                s.wf() && s@ == old(self)@.new_with_depth_stack_from() ==> #[trigger] call_requires(
                    f,
                    (s,),
                ),
            forall|s: &mut ParserState| #[trigger]
                call_ensures(f, (s,), ()) ==> final(s)@.renderable(),
        ensures
            final(self)@ == old(self)@,
            final(self).wf(),
            exists|s: &mut ParserState|
                s@ == old(self)@.new_with_depth_stack_from() && #[trigger] call_ensures(f, (s,), ())
                    && b == final(s)@.renders_as_multiline(),
    {
        let mut next_ps = ParserState::new_with_depth_stack_from(self);
        f(&mut next_ps);
        let data = next_ps.render();
        let s = trim_text(data.as_str());
        has_newline(s.as_str())
    }

    /// Ends the emission: the final text, if every comment left the store
    /// and the root queue can be rendered. Comments that are still in the
    /// store show that the walk did not reach their lines; then nothing is
    /// rendered.
    pub fn finish(self) -> (r: Result<String, FinishError>)
        ensures
            r is Ok <==> self@.comments_hash.is_empty() && self@.renderable(),
            r matches Ok(s) ==> s@ == self@.render(),
            r matches Err(e) ==> (e is UnemittedComments <==> !self@.comments_hash.is_empty()),
    {
        if !self.comments_hash.is_empty() {
            Err(FinishError::UnemittedComments)
        } else if !self.is_renderable() {
            Err(FinishError::RepeatedIndent)
        } else {
            Ok(self.render())
        }
    }

    /// Whether the root queue can be rendered.
    pub fn is_renderable(&self) -> (b: bool)
        ensures
            b == self@.renderable(),
    {
        !self.run_pipeline || self.render_queue.has_one_indent_a_line()
    }

    /// The final text of what was emitted into the root queue. If the queue
    /// is to go through the blank-line pass, none of its lines may hold two
    /// indents.
    pub fn render(self) -> (s: String)
        requires
            self@.renderable(),
        ensures
            s@ == self@.render(),
    {
        let run = self.run_pipeline;
        let rqw = RenderQueueWriter::new(self.consume_to_render_queue());
        rqw.render(run)
    }
}

} // verus!

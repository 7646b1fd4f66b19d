//! The mathematical model of the emission state: what each operation of the
//! emission API does to the state, as functions on its view.
use vstd::prelude::*;
use crate::comment_block::CommentBlockView;
use crate::comment_block::merged_into;
use crate::delimiters::DelimsView;
use crate::file_comments::FileCommentsView;
use crate::line_tokens::TokenView;
use crate::line_tokens::one_indent_a_line;
use crate::line_tokens::text_of;
use crate::render_queue_writer::rendered;
use crate::render_targets::GroupView;
use crate::render_targets::last_is_askable;
use crate::render_targets::last_is_newline;
use crate::render_targets::lemma_prev_hard_newline;
use crate::render_targets::line_end_searchable;
use crate::render_targets::prev_hard_newline;
use crate::render_targets::spliced;
use crate::text::trimmed;
use crate::text::without_quotes;
use crate::text::without_trailing_newline;

verus! {

/// What the tree walker is formatting. The engine only keeps it.
#[derive(Clone, Copy, Debug, PartialEq, Eq, Structural)]
pub enum FormattingContext {
    Main,
    Assign,
    Binary,
    ClassOrModule,
    Def,
    CurlyBlock,
    ArgsList,
}

/// The greatest nesting depth of blocks. Every level indents by two columns,
/// and a column is a `u32`.
pub const MAX_DEPTH: u32 = 2147483647;

/// The mathematical value of a pending heredoc body.
pub struct HeredocView {
    pub symbol: Seq<char>,
    pub squiggly: bool,
    pub content: Seq<char>,
}

impl HeredocView {
    /// Neither the body nor the terminator is emitted as a lone newline.
    pub open spec fn emits_no_newline_part(self) -> bool {
        heredoc_body(self.content) != "\n"@ && heredoc_terminator(self.symbol) != "\n"@
    }
}

/// No token of `ts` is literal text that is a lone newline. Nested groups
/// are not looked into.
pub open spec fn free_of_newline_parts(ts: Seq<TokenView>) -> bool {
    forall|i: int| 0 <= i < ts.len() ==> !(#[trigger] ts[i]).is_newline_part()
}

/// The mathematical value of the emission state.
pub struct ParserStateView {
    pub depth_stack: Seq<u32>,
    pub start_of_line: Seq<bool>,
    pub surpress_comments_stack: Seq<bool>,
    pub render_queue: Seq<TokenView>,
    pub current_orig_line_number: u64,
    pub comments_hash: FileCommentsView,
    pub heredoc_strings: Seq<HeredocView>,
    pub comments_to_insert: Option<CommentBlockView>,
    pub breakable_entry_stack: Seq<GroupView>,
    pub formatting_context: Seq<FormattingContext>,
    pub absorbing_indents: i32,
    pub insert_user_newlines: bool,
    pub spaces_after_last_newline: u32,
    pub run_pipeline: bool,
}

/// The body of a heredoc as it is emitted: without up to two newlines at its
/// end.
pub open spec fn heredoc_body(content: Seq<char>) -> Seq<char> {
    without_trailing_newline(without_trailing_newline(content))
}

/// The terminator of a heredoc as it is emitted: without its quotes.
pub open spec fn heredoc_terminator(symbol: Seq<char>) -> Seq<char> {
    without_quotes(symbol)
}

/// Where something that belongs behind the previous line goes: behind the
/// last token that ends a line, or at the start.
pub open spec fn insertion_index(ts: Seq<TokenView>) -> int {
    match prev_hard_newline(ts) {
        Some(k) => k + 1,
        None => 0,
    }
}

impl ParserStateView {
    /// The state at the start of an emission over the store `fc`.
    pub open spec fn new(fc: FileCommentsView) -> ParserStateView {
        ParserStateView {
            depth_stack: seq![0u32],
            start_of_line: seq![true],
            surpress_comments_stack: seq![false],
            render_queue: Seq::empty(),
            current_orig_line_number: 0,
            comments_hash: fc,
            heredoc_strings: Seq::empty(),
            comments_to_insert: None,
            breakable_entry_stack: Seq::empty(),
            formatting_context: seq![FormattingContext::Main],
            absorbing_indents: 0,
            insert_user_newlines: true,
            spaces_after_last_newline: 0,
            run_pipeline: true,
        }
    }

    /// The invariant of the emission state: none of the four scoped stacks
    /// is empty, the indent fits a column, and no lone newline stands as
    /// literal text in a buffer or waits in a heredoc, so that every buffer
    /// can be asked for its newlines.
    pub open spec fn wf(self) -> bool {
        &&& self.depth_stack.len() >= 1
        &&& self.depth_stack.last() <= MAX_DEPTH
        &&& self.start_of_line.len() >= 1
        &&& self.surpress_comments_stack.len() >= 1
        &&& self.formatting_context.len() >= 1
        &&& self.absorbing_indents >= 0
        &&& free_of_newline_parts(self.render_queue)
        &&& forall|i: int|
            0 <= i < self.breakable_entry_stack.len() ==> free_of_newline_parts(
                (#[trigger] self.breakable_entry_stack[i]).tokens,
            )
        &&& forall|i: int|
            0 <= i < self.heredoc_strings.len() ==> (
            #[trigger] self.heredoc_strings[i]).emits_no_newline_part()
    }

    /// Whether the root queue can be rendered: if it is to go through the
    /// blank-line pass, each of its lines holds at most one indent.
    pub open spec fn renderable(self) -> bool {
        self.run_pipeline ==> one_indent_a_line(self.render_queue)
    }

    /// The current nesting depth.
    pub open spec fn depth(self) -> u32 {
        self.depth_stack.last()
    }

    /// The current indent, in columns.
    pub open spec fn current_spaces(self) -> u32 {
        (2 * self.depth()) as u32
    }

    pub open spec fn at_start_of_line(self) -> bool {
        self.start_of_line.last()
    }

    pub open spec fn surpresses_comments(self) -> bool {
        self.surpress_comments_stack.last()
    }

    /// The tokens of the buffer that takes the next token: the innermost
    /// open group, or the root queue.
    pub open spec fn target(self) -> Seq<TokenView> {
        if self.breakable_entry_stack.len() == 0 {
            self.render_queue
        } else {
            self.breakable_entry_stack.last().tokens
        }
    }

    /// The state with `ts` as the tokens of the current buffer.
    pub open spec fn with_target(self, ts: Seq<TokenView>) -> ParserStateView {
        if self.breakable_entry_stack.len() == 0 {
            ParserStateView { render_queue: ts, ..self }
        } else {
            ParserStateView {
                breakable_entry_stack: self.breakable_entry_stack.update(
                    self.breakable_entry_stack.len() - 1,
                    self.breakable_entry_stack.last().with_tokens(ts),
                ),
                ..self
            }
        }
    }

    /// The state with `t` behind the tokens of the current buffer.
    pub open spec fn push_token(self, t: TokenView) -> ParserStateView {
        self.with_target(self.target().push(t))
    }

    pub open spec fn with_depth(self, depth: u32) -> ParserStateView {
        ParserStateView {
            depth_stack: self.depth_stack.update(self.depth_stack.len() - 1, depth),
            ..self
        }
    }

    pub open spec fn with_spaces_after_last_newline(self) -> ParserStateView {
        ParserStateView { spaces_after_last_newline: self.current_spaces(), ..self }
    }

    /// The buffered comments move into the current buffer, behind the
    /// previous line.
    pub open spec fn shift_comments(self) -> ParserStateView {
        match self.comments_to_insert {
            Some(block) => ParserStateView { comments_to_insert: None, ..self }.with_target(
                spliced(self.target(), insertion_index(self.target()), block.line_tokens()),
            ),
            None => self,
        }
    }

    /// One hard newline goes behind the previous line: the blank line that
    /// the author left in the source.
    pub open spec fn insert_extra_newline_at_last_newline(self) -> ParserStateView {
        self.with_target(
            spliced(
                self.target(),
                insertion_index(self.target()),
                seq![TokenView::HardNewLine],
            ),
        )
    }

    /// A hard newline when no heredoc is pending.
    pub open spec fn emit_plain_newline(self) -> ParserStateView {
        self.shift_comments().push_token(TokenView::HardNewLine).with_spaces_after_last_newline()
    }

    /// A hard newline: the buffered comments are shifted in, the newline is
    /// emitted, and every pending heredoc is rendered behind it.
    pub open spec fn emit_newline(self) -> ParserStateView
        decreases self.heredoc_strings.len(), 1nat,
    {
        self.shift_comments().push_token(TokenView::HardNewLine).render_heredocs(
            false,
        ).with_spaces_after_last_newline()
    }

    /// Every pending heredoc is rendered, the most recent first: its body on
    /// a line of its own, a newline, which renders the older ones, then its
    /// terminator behind the indent that it asks for, and a newline unless
    /// `skip`.
    pub open spec fn render_heredocs(self, skip: bool) -> ParserStateView
        decreases self.heredoc_strings.len(), 0nat,
    {
        if self.heredoc_strings.len() == 0 {
            self
        } else {
            let next = self.heredoc_strings.last();
            let popped = ParserStateView {
                heredoc_strings: self.heredoc_strings.drop_last(),
                ..self
            };
            let on_new_line = if last_is_newline(popped.target()) {
                popped
            } else {
                popped.push_token(TokenView::HardNewLine)
            };
            let with_body = on_new_line.push_token(
                TokenView::DirectPart { part: heredoc_body(next.content) },
            );
            let flushed = with_body.emit_newline();
            let with_terminator = flushed.push_token(
                TokenView::Indent {
                    depth: if next.squiggly {
                        flushed.current_spaces()
                    } else {
                        0
                    },
                },
            ).push_token(TokenView::DirectPart { part: heredoc_terminator(next.symbol) });
            if skip {
                with_terminator
            } else {
                with_terminator.emit_plain_newline()
            }
        }
    }

    /// Whether `comments`, taken from the store, are buffered: there are
    /// some, and comments are not suppressed.
    pub open spec fn buffers(self, comments: Option<CommentBlockView>) -> bool {
        comments is Some && !self.surpresses_comments()
    }

    /// The source lines between the last line that the walk accounted for
    /// and `line_number`. Every buffered comment accounts for one line.
    pub open spec fn skipped_lines(self, line_number: u64, comments: Option<CommentBlockView>) -> int {
        line_number - self.current_orig_line_number - (if self.buffers(comments) {
            comments->0.comments.len() as int
        } else {
            0
        })
    }

    /// Comments that were taken from the store are buffered, indented like
    /// the current line, unless comments are suppressed. If two or more
    /// source lines were skipped, one blank line is kept. The current line
    /// becomes `line_number`.
    pub open spec fn push_comments(self, line_number: u64, comments: Option<CommentBlockView>) -> ParserStateView {
        let buffered = if self.buffers(comments) {
            ParserStateView {
                comments_to_insert: merged_into(
                    self.comments_to_insert,
                    comments->0.with_spaces(self.spaces_after_last_newline),
                ),
                ..self
            }
        } else {
            self
        };
        let spaced = if self.skipped_lines(line_number, comments) >= 2
            && self.insert_user_newlines {
            buffered.insert_extra_newline_at_last_newline()
        } else {
            buffered
        };
        ParserStateView { current_orig_line_number: line_number, ..spaced }
    }

    /// What the store hands out for lines up to `line_number`.
    pub open spec fn extracted_to(self, line_number: u64) -> Option<CommentBlockView> {
        if self.comments_hash.others.dom() =~= Set::<u64>::empty() {
            None
        } else {
            Some(
                CommentBlockView {
                    span_start: self.comments_hash.lowest_line(),
                    span_end: (line_number + 1) as u64,
                    comments: self.comments_hash.comments_to_line(line_number),
                },
            )
        }
    }

    /// The walk reaches source line `line_number`: every open group is
    /// attributed the line, and the comments up to it leave the store. A
    /// line before the current one changes nothing.
    pub open spec fn on_line(self, line_number: u64) -> ParserStateView {
        if line_number < self.current_orig_line_number {
            self
        } else {
            ParserStateView {
                breakable_entry_stack: Seq::new(
                    self.breakable_entry_stack.len(),
                    |i: int| self.breakable_entry_stack[i].with_line(line_number),
                ),
                comments_hash: self.comments_hash.without_lines_to(line_number),
                ..self
            }.push_comments(line_number, self.extracted_to(line_number))
        }
    }

    /// The comments that open the file are buffered and shifted in; without
    /// such comments the walk is on line 1.
    pub open spec fn flush_start_of_file_comments(self) -> ParserStateView {
        match self.comments_hash.leading {
            None => self.on_line(1),
            Some(block) => ParserStateView {
                comments_hash: FileCommentsView { leading: None, ..self.comments_hash },
                ..self
            }.push_comments(block.comments.len() as u64, Some(block)).shift_comments(),
        }
    }

    /// A group is opened: buffered comments are shifted in first, and the
    /// group is attributed the current line.
    pub open spec fn open_breakable(self, delims: DelimsView) -> ParserStateView {
        let shifted = self.shift_comments();
        ParserStateView {
            breakable_entry_stack: shifted.breakable_entry_stack.push(
                GroupView::empty(shifted.current_spaces(), delims).with_line(
                    shifted.current_orig_line_number,
                ),
            ),
            ..shifted
        }
    }

    /// The innermost group is closed and becomes one token of the buffer
    /// below it.
    pub open spec fn close_breakable(self) -> ParserStateView {
        ParserStateView {
            breakable_entry_stack: self.breakable_entry_stack.drop_last(),
            ..self
        }.push_token(TokenView::BreakableEntry(self.breakable_entry_stack.last()))
    }

    pub open spec fn emit_indent(self) -> ParserStateView {
        self.push_token(TokenView::Indent { depth: self.current_spaces() })
    }

    pub open spec fn emit_soft_indent(self) -> ParserStateView {
        self.push_token(TokenView::SoftIndent { depth: self.current_spaces() })
    }

    pub open spec fn emit_soft_newline(self) -> ParserStateView {
        self.shift_comments().push_token(TokenView::SoftNewline).with_spaces_after_last_newline()
    }

    pub open spec fn emit_collapsing_newline(self) -> ParserStateView {
        (if last_is_newline(self.target()) {
            self
        } else {
            self.push_token(TokenView::CollapsingNewLine)
        }).with_spaces_after_last_newline()
    }

    /// `end` on a line of its own.
    pub open spec fn emit_end(self) -> ParserStateView {
        let on_new_line = if last_is_newline(self.target()) {
            self
        } else {
            self.emit_newline()
        };
        (if on_new_line.at_start_of_line() {
            on_new_line.emit_indent()
        } else {
            on_new_line
        }).push_token(TokenView::End)
    }

    /// The state of a nested, isolated emission: only the indent and the
    /// current line are taken over.
    pub open spec fn new_with_depth_stack_from(self) -> ParserStateView {
        ParserStateView {
            depth_stack: self.depth_stack,
            current_orig_line_number: self.current_orig_line_number,
            run_pipeline: self.run_pipeline,
            ..ParserStateView::new(FileCommentsView::empty())
        }
    }

    pub open spec fn with_start_of_line(self, start_of_line: bool) -> ParserStateView {
        ParserStateView { start_of_line: self.start_of_line.push(start_of_line), ..self }
    }

    pub open spec fn without_start_of_line(self) -> ParserStateView {
        ParserStateView { start_of_line: self.start_of_line.drop_last(), ..self }
    }

    pub open spec fn with_formatting_context(self, fc: FormattingContext) -> ParserStateView {
        ParserStateView { formatting_context: self.formatting_context.push(fc), ..self }
    }

    pub open spec fn without_formatting_context(self) -> ParserStateView {
        ParserStateView { formatting_context: self.formatting_context.drop_last(), ..self }
    }

    pub open spec fn with_surpress_comments(self, surpress: bool) -> ParserStateView {
        ParserStateView {
            surpress_comments_stack: self.surpress_comments_stack.push(surpress),
            ..self
        }
    }

    pub open spec fn without_surpress_comments(self) -> ParserStateView {
        ParserStateView {
            surpress_comments_stack: self.surpress_comments_stack.drop_last(),
            ..self
        }
    }

    pub open spec fn with_absorbing_indents(self, absorbing_indents: i32) -> ParserStateView {
        ParserStateView { absorbing_indents, ..self }
    }

    /// One level deeper.
    pub open spec fn indented(self) -> ParserStateView {
        self.with_depth((self.depth() + 1) as u32)
    }

    /// One level less deep.
    pub open spec fn dedented(self) -> ParserStateView {
        self.with_depth((self.depth() - 1) as u32)
    }

    /// The state in which the body of a group is emitted: the group is
    /// open, the indent is one level deeper, and a collapsing newline stands
    /// behind the open delimiter.
    pub open spec fn in_breakable(self, delims: DelimsView) -> ParserStateView {
        self.open_breakable(delims).indented().emit_collapsing_newline()
    }

    /// The state after the body of a group: the indent is back, a soft
    /// indent stands before the close delimiter, and the group is one token
    /// of the buffer below.
    pub open spec fn out_of_breakable(self) -> ParserStateView {
        self.dedented().emit_soft_indent().close_breakable()
    }

    /// The state in which the content of a heredoc is emitted: nested and
    /// isolated, and without blank lines for skipped source lines.
    pub open spec fn for_heredoc_content(self) -> ParserStateView {
        ParserStateView { insert_user_newlines: false, ..self.new_with_depth_stack_from() }
    }

    /// The final text of what was emitted into the root queue.
    pub open spec fn render(self) -> Seq<char> {
        text_of(
            if self.run_pipeline {
                rendered(self.render_queue)
            } else {
                self.render_queue
            },
        )
    }

    /// The state with one more pending heredoc, whose content is what the
    /// nested emission `content` renders to behind a last newline. Heredocs
    /// that the nested emission left pending come first.
    pub open spec fn push_heredoc_content(
        self,
        symbol: Seq<char>,
        squiggly: bool,
        content: ParserStateView,
    ) -> ParserStateView {
        let ended = content.emit_newline();
        ParserStateView {
            heredoc_strings: (self.heredoc_strings + ended.heredoc_strings).push(
                HeredocView { symbol, squiggly, content: ended.render() },
            ),
            ..self
        }
    }

    /// Whether the nested emission `content` makes a heredoc that can be
    /// queued under the terminator `symbol`: behind a last newline it can be
    /// rendered, and neither the body nor the terminator is a lone newline.
    pub open spec fn takes_heredoc(self, symbol: Seq<char>, content: ParserStateView) -> bool {
        let ended = content.emit_newline();
        &&& ended.renderable()
        &&& (HeredocView { symbol, squiggly: false, content: ended.render() }).emits_no_newline_part()
    }

    /// Whether the emission renders to more than one line, whitespace at
    /// its two ends aside.
    pub open spec fn renders_as_multiline(self) -> bool {
        trimmed(self.render()).contains('\n')
    }

    /// The state after the elements of a multi-line array: if the walk moved
    /// on, the comments of one more line are taken in, and the current line
    /// stays where the elements left it.
    pub open spec fn after_array_elements(self, line_before: u64) -> ParserStateView {
        if self.current_orig_line_number > line_before {
            ParserStateView {
                current_orig_line_number: self.current_orig_line_number,
                ..self.on_line((self.current_orig_line_number + 1) as u64).shift_comments()
            }
        } else {
            self
        }
    }

    /// The scoped values are what they were in `before`: a body that was run
    /// in a scope left every scope that it entered.
    pub open spec fn same_scopes(self, before: ParserStateView) -> bool {
        &&& self.depth_stack == before.depth_stack
        &&& self.start_of_line == before.start_of_line
        &&& self.surpress_comments_stack == before.surpress_comments_stack
        &&& self.formatting_context == before.formatting_context
        &&& self.absorbing_indents == before.absorbing_indents
        &&& self.breakable_entry_stack.len() == before.breakable_entry_stack.len()
        &&& self.insert_user_newlines == before.insert_user_newlines
        &&& self.run_pipeline == before.run_pipeline
    }
}

/// A buffer without a lone newline as literal text can be asked for its
/// newlines.
pub proof fn lemma_free_is_searchable(ts: Seq<TokenView>)
    requires
        free_of_newline_parts(ts),
    ensures
        line_end_searchable(ts),
        last_is_askable(ts),
        0 <= insertion_index(ts) <= ts.len(),
{
    lemma_prev_hard_newline(ts);
}

/// The current buffer of a state that is well formed can be asked for its
/// newlines.
pub proof fn lemma_target_searchable(s: ParserStateView)
    requires
        s.wf(),
    ensures
        free_of_newline_parts(s.target()),
        line_end_searchable(s.target()),
        last_is_askable(s.target()),
        0 <= insertion_index(s.target()) <= s.target().len(),
{
    if s.breakable_entry_stack.len() > 0 {
        let last = s.breakable_entry_stack.len() - 1;
        assert(free_of_newline_parts(s.breakable_entry_stack[last].tokens));
    }
    lemma_free_is_searchable(s.target());
}

/// A state that is well formed stays so with other tokens in the current
/// buffer, if none of them is a lone newline as literal text.
pub proof fn lemma_with_target_wf(s: ParserStateView, ts: Seq<TokenView>)
    requires
        s.wf(),
        free_of_newline_parts(ts),
    ensures
        s.with_target(ts).wf(),
{
    let out = s.with_target(ts);
    if s.breakable_entry_stack.len() > 0 {
        let last = s.breakable_entry_stack.len() - 1;
        assert forall|i: int| 0 <= i < out.breakable_entry_stack.len() implies free_of_newline_parts(
            (#[trigger] out.breakable_entry_stack[i]).tokens,
        ) by {
            if i != last {
                assert(out.breakable_entry_stack[i] == s.breakable_entry_stack[i]);
            }
        }
    }
}

/// A state that is well formed stays so with one more token that is no lone
/// newline as literal text.
pub proof fn lemma_push_token_wf(s: ParserStateView, t: TokenView)
    requires
        s.wf(),
        !t.is_newline_part(),
    ensures
        s.push_token(t).wf(),
{
    lemma_target_searchable(s);
    lemma_with_target_wf(s, s.target().push(t));
}

/// A state that is well formed stays so with tokens spliced into the
/// current buffer behind the previous line.
pub proof fn lemma_spliced_wf(s: ParserStateView, input: Seq<TokenView>)
    requires
        s.wf(),
        free_of_newline_parts(input),
    ensures
        s.with_target(spliced(s.target(), insertion_index(s.target()), input)).wf(),
{
    lemma_target_searchable(s);
    lemma_with_target_wf(s, spliced(s.target(), insertion_index(s.target()), input));
}

/// After a newline no heredoc is pending, and the scoped values are as they
/// were.
pub proof fn lemma_emit_newline_flushes(s: ParserStateView)
    ensures
        s.emit_newline().heredoc_strings.len() == 0,
        s.emit_newline().same_scopes(s),
        s.emit_newline().comments_hash == s.comments_hash,
        s.emit_newline().current_orig_line_number == s.current_orig_line_number,
        s.emit_newline().comments_to_insert is None,
    decreases s.heredoc_strings.len(), 1nat,
{
    let t = s.shift_comments().push_token(TokenView::HardNewLine);
    lemma_render_heredocs_flushes(t, false);
}

/// After the heredocs were rendered none is pending, and the scoped values
/// are as they were.
pub proof fn lemma_render_heredocs_flushes(s: ParserStateView, skip: bool)
    ensures
        s.render_heredocs(skip).heredoc_strings.len() == 0,
        s.render_heredocs(skip).same_scopes(s),
        s.render_heredocs(skip).comments_hash == s.comments_hash,
        s.render_heredocs(skip).current_orig_line_number == s.current_orig_line_number,
        s.comments_to_insert is None ==> s.render_heredocs(skip).comments_to_insert is None,
    decreases s.heredoc_strings.len(), 0nat,
{
    if s.heredoc_strings.len() > 0 {
        let next = s.heredoc_strings.last();
        let popped = ParserStateView { heredoc_strings: s.heredoc_strings.drop_last(), ..s };
        let on_new_line = if last_is_newline(popped.target()) {
            popped
        } else {
            popped.push_token(TokenView::HardNewLine)
        };
        let with_body = on_new_line.push_token(
            TokenView::DirectPart { part: heredoc_body(next.content) },
        );
        lemma_emit_newline_flushes(with_body);
    }
}

/// Reaching a line leaves the scoped values as they were.
pub proof fn lemma_on_line_scopes(s: ParserStateView, line_number: u64)
    ensures
        s.on_line(line_number).same_scopes(s),
        s.on_line(line_number).heredoc_strings == s.heredoc_strings,
{
}

/// Shifting the comments in leaves the scoped values, the store and the
/// current line as they were.
pub proof fn lemma_shift_comments_scopes(s: ParserStateView)
    ensures
        s.shift_comments().same_scopes(s),
        s.shift_comments().comments_hash == s.comments_hash,
        s.shift_comments().current_orig_line_number == s.current_orig_line_number,
        s.shift_comments().heredoc_strings == s.heredoc_strings,
{
}

/// With one heredoc pending, a newline is followed by the body of the
/// heredoc, a newline, the indent that the terminator asks for, the
/// terminator, and a newline, in that order: the body comes before its
/// terminator, each on a line of its own.
pub proof fn lemma_heredoc_follows_newline(s: ParserStateView)
    requires
        s.heredoc_strings.len() == 1,
    ensures
        ({
            let next = s.heredoc_strings[0];
            s.emit_newline().target() == s.shift_comments().target() + seq![
                TokenView::HardNewLine,
                TokenView::DirectPart { part: heredoc_body(next.content) },
                TokenView::HardNewLine,
                TokenView::Indent {
                    depth: if next.squiggly {
                        s.current_spaces()
                    } else {
                        0
                    },
                },
                TokenView::DirectPart { part: heredoc_terminator(next.symbol) },
                TokenView::HardNewLine,
            ]
        }),
        s.emit_newline().heredoc_strings.len() == 0,
{
    let next = s.heredoc_strings[0];
    let shifted = s.shift_comments();
    let first = shifted.push_token(TokenView::HardNewLine);
    assert(first.heredoc_strings == s.heredoc_strings);
    let popped = ParserStateView { heredoc_strings: first.heredoc_strings.drop_last(), ..first };
    assert(last_is_newline(popped.target())) by {
        assert(popped.target() == shifted.target().push(TokenView::HardNewLine));
    }
    let with_body = popped.push_token(TokenView::DirectPart { part: heredoc_body(next.content) });
    assert(with_body.heredoc_strings.len() == 0);
    lemma_emit_newline_plain(with_body);
    let flushed = with_body.emit_newline();
    assert(with_body.comments_to_insert is None);
    assert(flushed == with_body.push_token(
        TokenView::HardNewLine,
    ).with_spaces_after_last_newline());
    let with_terminator = flushed.push_token(
        TokenView::Indent {
            depth: if next.squiggly {
                flushed.current_spaces()
            } else {
                0
            },
        },
    ).push_token(TokenView::DirectPart { part: heredoc_terminator(next.symbol) });
    assert(first.render_heredocs(false) == with_terminator.emit_plain_newline());
    let done = s.emit_newline();
    assert(done == with_terminator.emit_plain_newline().with_spaces_after_last_newline());
    assert(flushed.current_spaces() == s.current_spaces());
    assert(done.target() =~= shifted.target() + seq![
        TokenView::HardNewLine,
        TokenView::DirectPart { part: heredoc_body(next.content) },
        TokenView::HardNewLine,
        TokenView::Indent {
            depth: if next.squiggly {
                s.current_spaces()
            } else {
                0
            },
        },
        TokenView::DirectPart { part: heredoc_terminator(next.symbol) },
        TokenView::HardNewLine,
    ]);
}

/// When no heredoc is pending, a newline is a plain newline.
pub proof fn lemma_emit_newline_plain(s: ParserStateView)
    requires
        s.heredoc_strings.len() == 0,
    ensures
        s.emit_newline() == s.emit_plain_newline(),
{
}

} // verus!

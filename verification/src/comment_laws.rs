//! Conservation of comments: no operation of the engine loses or doubles a
//! comment. Comments are counted in the store, in the buffer that waits for
//! the next newline, and in the token buffers, nested groups included.
use vstd::prelude::*;
use crate::comment_block::CommentBlockView;
use crate::emission_model::ParserStateView;
use crate::file_comments::FileCommentsView;
use crate::file_comments::comments_between;
use crate::file_comments::lemma_comments_between_agree;
use crate::file_comments::lemma_comments_between_none;
use crate::file_comments::lemma_comments_between_split;
use crate::file_comments::line_limit;
use crate::intermediary::IntermediaryView;
use crate::intermediary::strip_garbage;
use crate::line_tokens::TokenView;
use crate::line_tokens::comment_count_upto;
use crate::line_tokens::comments_in;
use crate::render_queue_writer::after_end_rule;
use crate::render_queue_writer::rendered;
use crate::render_queue_writer::rendered_group;
use crate::render_queue_writer::rendered_token;
use crate::render_queue_writer::rendered_upto;
use crate::render_targets::GroupView;
use crate::render_targets::spliced;

verus! {

/// One step of the count.
pub proof fn lemma_comment_count_step(ts: Seq<TokenView>, n: nat)
    requires
        0 < n <= ts.len(),
    ensures
        comment_count_upto(ts, n) == comment_count_upto(ts, (n - 1) as nat) + ts[n
            - 1].comment_count(),
{
}

/// The count looks at the first `n` tokens only.
pub proof fn lemma_comment_count_prefix(a: Seq<TokenView>, b: Seq<TokenView>, n: nat)
    requires
        n <= a.len(),
        n <= b.len(),
        forall|i: int| 0 <= i < n ==> a[i] == b[i],
    ensures
        comment_count_upto(a, n) == comment_count_upto(b, n),
    decreases n,
{
    if n > 0 {
        lemma_comment_count_prefix(a, b, (n - 1) as nat);
        lemma_comment_count_step(a, n);
        lemma_comment_count_step(b, n);
    }
}

/// The comments of two sequences one after another are those of the one
/// and those of the other.
pub proof fn lemma_comments_in_concat(a: Seq<TokenView>, b: Seq<TokenView>)
    ensures
        comments_in(a + b) == comments_in(a) + comments_in(b),
    decreases b.len(),
{
    if b.len() == 0 {
        assert(a + b =~= a);
    } else {
        let c = a + b;
        lemma_comment_count_step(c, c.len());
        lemma_comment_count_step(b, b.len());
        lemma_comments_in_concat(a, b.drop_last());
        lemma_comment_count_prefix(c, a + b.drop_last(), (c.len() - 1) as nat);
        lemma_comment_count_prefix(b, b.drop_last(), (b.len() - 1) as nat);
        assert((a + b.drop_last()).len() == c.len() - 1);
    }
}

/// A sequence of one token holds the comments of that token.
pub proof fn lemma_comments_in_one(t: TokenView)
    ensures
        comments_in(seq![t]) == t.comment_count(),
{
    lemma_comment_count_step(seq![t], 1);
}

/// Appending a token adds its comments.
pub proof fn lemma_comments_in_push(ts: Seq<TokenView>, t: TokenView)
    ensures
        comments_in(ts.push(t)) == comments_in(ts) + t.comment_count(),
{
    lemma_comments_in_concat(ts, seq![t]);
    lemma_comments_in_one(t);
    assert(ts.push(t) =~= ts + seq![t]);
}

/// Splicing tokens in adds their comments.
pub proof fn lemma_comments_in_spliced(ts: Seq<TokenView>, idx: int, input: Seq<TokenView>)
    requires
        0 <= idx <= ts.len(),
    ensures
        comments_in(spliced(ts, idx, input)) == comments_in(ts) + comments_in(input),
{
    let head = ts.subrange(0, idx);
    let tail = ts.subrange(idx, ts.len() as int);
    lemma_comments_in_concat(head, input);
    lemma_comments_in_concat(head + input, tail);
    lemma_comments_in_concat(head, tail);
    assert(head + tail =~= ts);
}

/// Inserting a token adds its comments.
pub proof fn lemma_comments_in_insert(ts: Seq<TokenView>, idx: int, t: TokenView)
    requires
        0 <= idx <= ts.len(),
    ensures
        comments_in(ts.insert(idx, t)) == comments_in(ts) + t.comment_count(),
{
    lemma_comments_in_spliced(ts, idx, seq![t]);
    lemma_comments_in_one(t);
    assert(ts.insert(idx, t) =~= spliced(ts, idx, seq![t]));
}

/// Removing a token takes its comments away.
pub proof fn lemma_comments_in_remove(ts: Seq<TokenView>, idx: int)
    requires
        0 <= idx < ts.len(),
    ensures
        comments_in(ts.remove(idx)) + ts[idx].comment_count() == comments_in(ts),
{
    lemma_comments_in_insert(ts.remove(idx), idx, ts[idx]);
    assert(ts.remove(idx).insert(idx, ts[idx]) =~= ts);
}

/// The comment tokens of a block are as many as its lines.
pub proof fn lemma_comments_in_block(block: CommentBlockView)
    ensures
        comments_in(block.line_tokens()) == block.comments.len(),
    decreases block.comments.len(),
{
    let ts = block.line_tokens();
    if block.comments.len() > 0 {
        let rest = CommentBlockView { comments: block.comments.drop_last(), ..block };
        lemma_comments_in_block(rest);
        lemma_comment_count_step(ts, ts.len());
        lemma_comment_count_prefix(ts, rest.line_tokens(), (ts.len() - 1) as nat);
    }
}

/// Taking the separators out before the last token takes no comment out.
pub proof fn lemma_comments_in_strip_garbage(ts: Seq<TokenView>)
    ensures
        comments_in(strip_garbage(ts)) == comments_in(ts),
    decreases ts.len(),
{
    if ts.len() >= 2 && ts[ts.len() - 2].is_single_line_breakable_garbage() {
        lemma_comments_in_remove(ts, ts.len() - 2);
        lemma_comments_in_strip_garbage(ts.remove(ts.len() - 2));
    }
}

/// The blank-line pass neither loses nor makes a comment: what it does to
/// the stream are hard newlines put in and left out.
pub proof fn lemma_pushed_keeps_comments(s: IntermediaryView, t: TokenView)
    requires
        s.wf(),
    ensures
        comments_in(s.pushed(t).tokens) == comments_in(s.tokens) + t.comment_count(),
{
    match t {
        TokenView::HardNewLine => {
            let a = s.blank_line_if(s.ends_require_block());
            lemma_blank_line_keeps_comments(s, s.ends_require_block());
            lemma_comments_in_push(a.tokens, t);
        },
        TokenView::ModuleKeyword | TokenView::ClassKeyword => {
            let a = s.blank_line_if(s.follows_unindented_line());
            lemma_blank_line_keeps_comments(s, s.follows_unindented_line());
            lemma_comments_in_push(a.tokens, t);
        },
        TokenView::DoKeyword => {
            let b = s.with_current(
                crate::line_metadata::LineFlags { do_keyword: true, ..s.current },
            );
            lemma_blank_line_keeps_comments(b, s.follows_plain_line());
            lemma_comments_in_push(b.blank_line_if(s.follows_plain_line()).tokens, t);
        },
        TokenView::ConditionalKeyword { contents } => {
            let b = s.with_current(
                crate::line_metadata::LineFlags { conditional: true, ..s.current },
            );
            let wanted = s.follows_plain_line() && contents == "if"@;
            lemma_blank_line_keeps_comments(b, wanted);
            lemma_comments_in_push(b.blank_line_if(wanted).tokens, t);
        },
        _ => {
            lemma_comments_in_push(s.tokens, t);
        },
    }
}

/// Putting a blank line in adds no comment.
pub proof fn lemma_blank_line_keeps_comments(s: IntermediaryView, wanted: bool)
    requires
        wanted ==> 0 <= s.index_of_last_hard_newline <= s.tokens.len(),
    ensures
        comments_in(s.blank_line_if(wanted).tokens) == comments_in(s.tokens),
{
    if wanted && !s.blank_line_in_place() {
        lemma_comments_in_insert(s.tokens, s.index_of_last_hard_newline, TokenView::HardNewLine);
    }
}

/// The rule that follows every token adds no comment.
pub proof fn lemma_after_end_rule_keeps_comments(s: IntermediaryView)
    requires
        s.wf(),
    ensures
        comments_in(after_end_rule(s).tokens) == comments_in(s.tokens),
{
    if s.closes_block_before_last() {
        let n = s.tokens.len() as int;
        assert(s.tokens[n - 3] is HardNewLine);
        assert(s.index_of_last_hard_newline >= n - 3);
    }
    lemma_blank_line_keeps_comments(s, s.closes_block_before_last());
}

/// Resolving one token adds its comments to the stream.
pub proof fn lemma_rendered_token_keeps_comments(s: IntermediaryView, t: TokenView, multi_line: bool)
    requires
        s.wf(),
    ensures
        comments_in(rendered_token(s, t, multi_line).tokens) == comments_in(s.tokens)
            + t.comment_count(),
    decreases t,
{
    match t {
        TokenView::BreakableEntry(g) => {
            lemma_rendered_group_keeps_comments(s, g);
            crate::render_queue_writer::lemma_rendered_group_wf(s, g);
            lemma_after_end_rule_keeps_comments(rendered_group(s, g));
        },
        x => {
            let y = if multi_line {
                x.multi_line()
            } else {
                x.single_line()
            };
            lemma_pushed_keeps_comments(s, y);
            crate::intermediary::lemma_pushed_wf(s, y);
            lemma_after_end_rule_keeps_comments(s.pushed(y));
        },
    }
}

/// Resolving a run of tokens adds their comments to the stream.
pub proof fn lemma_rendered_upto_keeps_comments(
    s: IntermediaryView,
    ts: Seq<TokenView>,
    n: nat,
    multi_line: bool,
)
    requires
        s.wf(),
        n <= ts.len(),
    ensures
        comments_in(rendered_upto(s, ts, n, multi_line).tokens) == comments_in(s.tokens)
            + comment_count_upto(ts, n),
    decreases ts, n,
{
    if n > 0 {
        lemma_rendered_upto_keeps_comments(s, ts, (n - 1) as nat, multi_line);
        crate::render_queue_writer::lemma_rendered_upto_wf(s, ts, (n - 1) as nat, multi_line);
        lemma_rendered_token_keeps_comments(
            rendered_upto(s, ts, (n - 1) as nat, multi_line),
            ts[n - 1],
            multi_line,
        );
    }
}

/// Resolving a group adds the comments of its children to the stream.
pub proof fn lemma_rendered_group_keeps_comments(s: IntermediaryView, g: GroupView)
    requires
        s.wf(),
    ensures
        comments_in(rendered_group(s, g).tokens) == comments_in(s.tokens) + comments_in(g.tokens),
    decreases g,
{
    let multi_line = g.renders_multi_line();
    let open = TokenView::Delim { contents: g.delims.open_for(multi_line) };
    let close = TokenView::Delim { contents: g.delims.close_for(multi_line) };
    lemma_pushed_keeps_comments(s, open);
    crate::intermediary::lemma_pushed_wf(s, open);
    lemma_after_end_rule_keeps_comments(s.pushed(open));
    crate::render_queue_writer::lemma_after_end_rule_wf(s.pushed(open));
    let opened = after_end_rule(s.pushed(open));
    lemma_rendered_upto_keeps_comments(opened, g.tokens, g.tokens.len(), multi_line);
    crate::render_queue_writer::lemma_rendered_upto_wf(opened, g.tokens, g.tokens.len(), multi_line);
    let filled = rendered_upto(opened, g.tokens, g.tokens.len(), multi_line);
    lemma_pushed_keeps_comments(filled, close);
    crate::intermediary::lemma_pushed_wf(filled, close);
    lemma_after_end_rule_keeps_comments(filled.pushed(close));
    let closed = after_end_rule(filled.pushed(close));
    if !multi_line {
        lemma_comments_in_strip_garbage(closed.tokens);
    }
}

/// The final stream holds every comment of the emitted tokens exactly once:
/// the layout resolver and the blank-line pass neither lose nor double a
/// comment.
pub proof fn lemma_rendering_keeps_comments(ts: Seq<TokenView>)
    ensures
        comments_in(rendered(ts)) == comments_in(ts),
{
    lemma_rendered_upto_keeps_comments(IntermediaryView::empty(), ts, ts.len(), true);
    assert(comments_in(IntermediaryView::empty().tokens) == 0);
}

impl FileCommentsView {
    /// How many comments the store holds.
    pub open spec fn comment_count(self) -> nat {
        self.all_comments().len()
    }
}

/// What the store hands out for the lines up to `line` and what it keeps
/// are, one after the other, what it held: every comment outside the
/// opening block is handed out exactly once, in line order, and none before
/// the walk reached its line.
pub proof fn lemma_extract_conserves(store: FileCommentsView, line: u64)
    requires
        line < u64::MAX,
    ensures
        comments_between(store.others, 0, line_limit()) == store.comments_to_line(line)
            + comments_between(store.without_lines_to(line).others, 0, line_limit()),
        forall|l: u64|
            store.without_lines_to(line).others.contains_key(l) <==> store.others.contains_key(l)
                && l > line,
        store.comments_to_line(line) == comments_between(store.others, 0, line + 1),
{
    let m = store.others;
    let kept = store.without_lines_to(line).others;
    lemma_comments_between_split(m, 0, line + 1, line_limit());
    lemma_comments_between_split(kept, 0, line + 1, line_limit());
    assert forall|k: u64| 0 <= k < line + 1 implies !kept.contains_key(k) by {}
    lemma_comments_between_none(kept, 0, line + 1);
    assert forall|k: u64| line + 1 <= k < line_limit() implies (#[trigger] kept.contains_key(k))
        == m.contains_key(k) && (kept.contains_key(k) ==> kept[k] == m[k]) by {}
    lemma_comments_between_agree(kept, m, line + 1, line_limit());
}

/// No comment is handed out twice. After the store handed out the lines up
/// to `first`, asking for the lines up to `second` hands out the comments of
/// the lines behind `first` up to `second` and no others: none at all if
/// `second` does not lie behind `first`. Asking twice leaves what asking for
/// the greater line leaves.
pub proof fn lemma_no_comment_twice(store: FileCommentsView, first: u64, second: u64)
    requires
        first < u64::MAX,
        second < u64::MAX,
    ensures
        second <= first ==> store.without_lines_to(first).comments_to_line(second) == Seq::<
            Seq<char>,
        >::empty(),
        second > first ==> store.without_lines_to(first).comments_to_line(second)
            == comments_between(store.others, first + 1, second + 1),
        store.without_lines_to(first).without_lines_to(second) == store.without_lines_to(
            if first >= second {
                first
            } else {
                second
            },
        ),
{
    let m = store.others;
    let kept = store.without_lines_to(first).others;
    if second <= first {
        assert forall|k: u64| 0 <= k < second + 1 implies !kept.contains_key(k) by {}
        lemma_comments_between_none(kept, 0, second + 1);
    } else {
        lemma_comments_between_split(kept, 0, first + 1, second + 1);
        assert forall|k: u64| 0 <= k < first + 1 implies !kept.contains_key(k) by {}
        lemma_comments_between_none(kept, 0, first + 1);
        assert forall|k: u64| first + 1 <= k < second + 1 implies (#[trigger] kept.contains_key(k))
            == m.contains_key(k) && (kept.contains_key(k) ==> kept[k] == m[k]) by {}
        lemma_comments_between_agree(kept, m, first + 1, second + 1);
        assert(Seq::<Seq<char>>::empty() + comments_between(kept, first + 1, second + 1)
            =~= comments_between(kept, first + 1, second + 1));
    }
    let both = store.without_lines_to(first).without_lines_to(second);
    let once = store.without_lines_to(
        if first >= second {
            first
        } else {
            second
        },
    );
    assert(both.others =~= once.others);
}

/// Once the store has run empty it hands nothing out: after the lines up to
/// the last commented line were asked for, no line is left, and whatever
/// line is asked for then, no comment comes.
pub proof fn lemma_empty_store_hands_nothing_out(store: FileCommentsView, line: u64, next: u64)
    requires
        forall|l: u64| store.others.contains_key(l) ==> l <= line,
    ensures
        store.without_lines_to(line).others.dom() =~= Set::<u64>::empty(),
        store.without_lines_to(line).comments_to_line(next) == Seq::<Seq<char>>::empty(),
        store.without_lines_to(line).without_lines_to(next) == store.without_lines_to(line),
{
    let kept = store.without_lines_to(line).others;
    assert forall|k: u64| 0 <= k < next + 1 implies !kept.contains_key(k) by {}
    lemma_comments_between_none(kept, 0, next + 1);
    assert(store.without_lines_to(line).without_lines_to(next).others =~= kept);
}

/// Once the walk has reached the last commented line, no comment is left
/// outside the opening block.
pub proof fn lemma_store_runs_empty(store: FileCommentsView, line: u64)
    requires
        forall|l: u64| store.others.contains_key(l) ==> l <= line,
    ensures
        store.without_lines_to(line).others =~= Map::<u64, Seq<char>>::empty(),
{
}

impl ParserStateView {
    /// How many comments wait in the buffer for the next newline.
    pub open spec fn pending_comment_count(self) -> nat {
        match self.comments_to_insert {
            Some(block) => block.comments.len(),
            None => 0,
        }
    }

    /// How many comments the open groups hold, the first `n` of them.
    pub open spec fn open_group_comment_count(self, n: nat) -> nat
        decreases n,
    {
        if n == 0 || n > self.breakable_entry_stack.len() {
            0
        } else {
            self.open_group_comment_count((n - 1) as nat) + comments_in(
                self.breakable_entry_stack[n - 1].tokens,
            )
        }
    }

    /// How many comments were emitted: those of the root queue and of every
    /// open group.
    pub open spec fn emitted_comment_count(self) -> nat {
        comments_in(self.render_queue) + self.open_group_comment_count(
            self.breakable_entry_stack.len(),
        )
    }

    /// How many comments the state holds in all: in the store, in the
    /// buffer, and emitted.
    pub open spec fn comment_count(self) -> nat {
        self.comments_hash.comment_count() + self.pending_comment_count()
            + self.emitted_comment_count()
    }
}

/// The count over the open groups looks at the tokens of the first `n`
/// groups only.
pub proof fn lemma_open_group_count_agrees(a: ParserStateView, b: ParserStateView, n: nat)
    requires
        n <= a.breakable_entry_stack.len(),
        n <= b.breakable_entry_stack.len(),
        forall|i: int|
            0 <= i < n ==> a.breakable_entry_stack[i].tokens == b.breakable_entry_stack[i].tokens,
    ensures
        a.open_group_comment_count(n) == b.open_group_comment_count(n),
    decreases n,
{
    if n > 0 {
        lemma_open_group_count_agrees(a, b, (n - 1) as nat);
    }
}

/// New tokens for the current buffer change the emitted comments by what
/// the new tokens hold more than the old.
pub proof fn lemma_with_target_comments(s: ParserStateView, ts: Seq<TokenView>)
    ensures
        s.with_target(ts).emitted_comment_count() + comments_in(s.target())
            == s.emitted_comment_count() + comments_in(ts),
        s.with_target(ts).comments_hash == s.comments_hash,
        s.with_target(ts).comments_to_insert == s.comments_to_insert,
{
    let n = s.breakable_entry_stack.len();
    if n > 0 {
        let out = s.with_target(ts);
        lemma_open_group_count_agrees(s, out, (n - 1) as nat);
    }
}

/// Emitting a token adds its comments, and only them.
pub proof fn lemma_push_token_comments(s: ParserStateView, t: TokenView)
    ensures
        s.push_token(t).comment_count() == s.comment_count() + t.comment_count(),
{
    lemma_with_target_comments(s, s.target().push(t));
    lemma_comments_in_push(s.target(), t);
}

/// Shifting the buffered comments in moves every one of them from the
/// buffer into the token stream: none is lost, none is doubled.
pub proof fn lemma_shift_comments_conserves(s: ParserStateView)
    ensures
        s.shift_comments().comment_count() == s.comment_count(),
        s.shift_comments().pending_comment_count() == 0,
        s.shift_comments().emitted_comment_count() == s.emitted_comment_count()
            + s.pending_comment_count(),
{
    match s.comments_to_insert {
        Some(block) => {
            let cleared = ParserStateView { comments_to_insert: None, ..s };
            let idx = crate::emission_model::insertion_index(s.target());
            crate::render_targets::lemma_prev_hard_newline(s.target());
            let ts = spliced(s.target(), idx, block.line_tokens());
            lemma_with_target_comments(cleared, ts);
            lemma_comments_in_spliced(s.target(), idx, block.line_tokens());
            lemma_comments_in_block(block);
            lemma_open_group_count_agrees(s, cleared, s.breakable_entry_stack.len());
        },
        None => {},
    }
}

/// Keeping a blank line of the source adds no comment.
pub proof fn lemma_extra_newline_conserves(s: ParserStateView)
    ensures
        s.insert_extra_newline_at_last_newline().comment_count() == s.comment_count(),
{
    let idx = crate::emission_model::insertion_index(s.target());
    crate::render_targets::lemma_prev_hard_newline(s.target());
    let ts = spliced(s.target(), idx, seq![TokenView::HardNewLine]);
    lemma_with_target_comments(s, ts);
    lemma_comments_in_spliced(s.target(), idx, seq![TokenView::HardNewLine]);
    lemma_comments_in_one(TokenView::HardNewLine);
}

/// Buffering comments that left the store adds them to the state, unless
/// comments are suppressed.
pub proof fn lemma_push_comments_adds(
    s: ParserStateView,
    line_number: u64,
    comments: Option<CommentBlockView>,
)
    requires
        !s.surpresses_comments(),
    ensures
        s.push_comments(line_number, comments).comment_count() == s.comment_count() + (
        match comments {
            Some(block) => block.comments.len(),
            None => 0,
        }),
{
    let buffered = if s.buffers(comments) {
        ParserStateView {
            comments_to_insert: crate::comment_block::merged_into(
                s.comments_to_insert,
                comments->0.with_spaces(s.spaces_after_last_newline),
            ),
            ..s
        }
    } else {
        s
    };
    lemma_open_group_count_agrees(s, buffered, s.breakable_entry_stack.len());
    assert(buffered.comment_count() == s.comment_count() + (match comments {
        Some(block) => block.comments.len(),
        None => 0,
    }));
    let wanted = s.skipped_lines(line_number, comments) >= 2 && s.insert_user_newlines;
    if wanted {
        lemma_extra_newline_conserves(buffered);
    }
    let spaced = if wanted {
        buffered.insert_extra_newline_at_last_newline()
    } else {
        buffered
    };
    let done = ParserStateView { current_orig_line_number: line_number, ..spaced };
    lemma_open_group_count_agrees(spaced, done, spaced.breakable_entry_stack.len());
    assert(done.comment_count() == spaced.comment_count());
}

/// Taking the comments up to a line out of the store takes them out of the
/// state.
pub proof fn lemma_extracted_leaves(s: ParserStateView, line_number: u64)
    requires
        line_number < u64::MAX,
    ensures
        ({
            let attributed = ParserStateView {
                breakable_entry_stack: Seq::new(
                    s.breakable_entry_stack.len(),
                    |i: int| s.breakable_entry_stack[i].with_line(line_number),
                ),
                comments_hash: s.comments_hash.without_lines_to(line_number),
                ..s
            };
            attributed.comment_count() + (match s.extracted_to(line_number) {
                Some(block) => block.comments.len(),
                None => 0,
            }) == s.comment_count()
        }),
{
    let attributed = ParserStateView {
        breakable_entry_stack: Seq::new(
            s.breakable_entry_stack.len(),
            |i: int| s.breakable_entry_stack[i].with_line(line_number),
        ),
        comments_hash: s.comments_hash.without_lines_to(line_number),
        ..s
    };
    lemma_open_group_count_agrees(s, attributed, s.breakable_entry_stack.len());
    lemma_extract_conserves(s.comments_hash, line_number);
    if s.comments_hash.others.dom() =~= Set::<u64>::empty() {
        lemma_comments_between_none(s.comments_hash.others, 0, line_number + 1);
    }
}

/// When the walk reaches a line and comments are not suppressed, every
/// comment up to that line moves from the store into the buffer: the state
/// holds as many comments as before.
pub proof fn lemma_on_line_conserves(s: ParserStateView, line_number: u64)
    requires
        !s.surpresses_comments(),
        line_number < u64::MAX,
    ensures
        s.on_line(line_number).comment_count() == s.comment_count(),
{
    if line_number >= s.current_orig_line_number {
        let attributed = ParserStateView {
            breakable_entry_stack: Seq::new(
                s.breakable_entry_stack.len(),
                |i: int| s.breakable_entry_stack[i].with_line(line_number),
            ),
            comments_hash: s.comments_hash.without_lines_to(line_number),
            ..s
        };
        lemma_extracted_leaves(s, line_number);
        lemma_push_comments_adds(attributed, line_number, s.extracted_to(line_number));
    }
}

/// Flushing the comments that open the file moves them from the store into
/// the token stream: the state holds as many comments as before, unless
/// comments are suppressed.
pub proof fn lemma_flush_conserves(s: ParserStateView)
    requires
        !s.surpresses_comments(),
    ensures
        s.flush_start_of_file_comments().comment_count() == s.comment_count(),
{
    match s.comments_hash.leading {
        None => {
            lemma_on_line_conserves(s, 1);
        },
        Some(block) => {
            let taken = ParserStateView {
                comments_hash: FileCommentsView { leading: None, ..s.comments_hash },
                ..s
            };
            lemma_open_group_count_agrees(s, taken, s.breakable_entry_stack.len());
            assert(taken.comment_count() + block.comments.len() == s.comment_count()) by {
                assert(taken.comments_hash.all_comments() =~= comments_between(
                    s.comments_hash.others,
                    0,
                    line_limit(),
                ));
            }
            lemma_push_comments_adds(taken, block.comments.len() as u64, Some(block));
            lemma_shift_comments_conserves(
                taken.push_comments(block.comments.len() as u64, Some(block)),
            );
        },
    }
}

/// A hard newline, with every heredoc that it flushes, emits every buffered
/// comment and makes none.
pub proof fn lemma_emit_newline_conserves(s: ParserStateView)
    ensures
        s.emit_newline().comment_count() == s.comment_count(),
    decreases s.heredoc_strings.len(), 1nat,
{
    lemma_shift_comments_conserves(s);
    let shifted = s.shift_comments();
    lemma_push_token_comments(shifted, TokenView::HardNewLine);
    let pushed = shifted.push_token(TokenView::HardNewLine);
    lemma_render_heredocs_conserves(pushed, false);
    let done = pushed.render_heredocs(false);
    lemma_open_group_count_agrees(
        done,
        done.with_spaces_after_last_newline(),
        done.breakable_entry_stack.len(),
    );
}

/// Rendering the pending heredocs emits no comment but the buffered ones.
pub proof fn lemma_render_heredocs_conserves(s: ParserStateView, skip: bool)
    ensures
        s.render_heredocs(skip).comment_count() == s.comment_count(),
    decreases s.heredoc_strings.len(), 0nat,
{
    if s.heredoc_strings.len() > 0 {
        let next = s.heredoc_strings.last();
        let popped = ParserStateView { heredoc_strings: s.heredoc_strings.drop_last(), ..s };
        lemma_open_group_count_agrees(s, popped, s.breakable_entry_stack.len());
        let on_new_line = if crate::render_targets::last_is_newline(popped.target()) {
            popped
        } else {
            popped.push_token(TokenView::HardNewLine)
        };
        lemma_push_token_comments(popped, TokenView::HardNewLine);
        let body = TokenView::DirectPart {
            part: crate::emission_model::heredoc_body(next.content),
        };
        lemma_push_token_comments(on_new_line, body);
        let with_body = on_new_line.push_token(body);
        lemma_emit_newline_conserves(with_body);
        let flushed = with_body.emit_newline();
        let indent = TokenView::Indent {
            depth: if next.squiggly {
                flushed.current_spaces()
            } else {
                0
            },
        };
        lemma_push_token_comments(flushed, indent);
        let terminator = TokenView::DirectPart {
            part: crate::emission_model::heredoc_terminator(next.symbol),
        };
        lemma_push_token_comments(flushed.push_token(indent), terminator);
        let with_terminator = flushed.push_token(indent).push_token(terminator);
        if !skip {
            lemma_shift_comments_conserves(with_terminator);
            let shifted = with_terminator.shift_comments();
            lemma_push_token_comments(shifted, TokenView::HardNewLine);
            let pushed = shifted.push_token(TokenView::HardNewLine);
            lemma_open_group_count_agrees(
                pushed,
                pushed.with_spaces_after_last_newline(),
                pushed.breakable_entry_stack.len(),
            );
        }
    }
}

/// Closing a group moves its comments, with the group, into the buffer
/// below: the state holds as many comments as before.
pub proof fn lemma_close_breakable_conserves(s: ParserStateView)
    requires
        s.breakable_entry_stack.len() > 0,
    ensures
        s.close_breakable().comment_count() == s.comment_count(),
{
    let g = s.breakable_entry_stack.last();
    let popped = ParserStateView { breakable_entry_stack: s.breakable_entry_stack.drop_last(), ..s };
    lemma_open_group_count_agrees(s, popped, popped.breakable_entry_stack.len());
    lemma_push_token_comments(popped, TokenView::BreakableEntry(g));
}

/// Opening a group emits the buffered comments first and makes none.
pub proof fn lemma_open_breakable_conserves(s: ParserStateView, delims: crate::delimiters::DelimsView)
    ensures
        s.open_breakable(delims).comment_count() == s.comment_count(),
{
    lemma_shift_comments_conserves(s);
    let shifted = s.shift_comments();
    let opened = s.open_breakable(delims);
    lemma_open_group_count_agrees(shifted, opened, shifted.breakable_entry_stack.len());
    assert(comments_in(opened.breakable_entry_stack.last().tokens) == 0);
}

/// One call of the emission API that does not run a body.
pub enum Emission {
    /// A token is emitted.
    Token(TokenView),
    /// The walk reaches a source line.
    OnLine(u64),
    /// The comments that open the file are flushed.
    FlushStartOfFileComments,
    /// The buffered comments are shifted in.
    ShiftComments,
    /// A hard newline.
    Newline,
    /// A soft newline.
    SoftNewline,
    /// A collapsing newline.
    CollapsingNewline,
    /// `end` on a line of its own.
    End,
    /// The pending heredocs are rendered.
    RenderHeredocs { skip: bool },
    /// A group is opened.
    OpenBreakable(crate::delimiters::DelimsView),
    /// The innermost group is closed.
    CloseBreakable,
}

impl ParserStateView {
    /// Whether the call keeps every comment: comments are taken from the
    /// store only while they are not suppressed, and a group is closed only
    /// while one is open.
    #[verifier::opaque]
    pub open spec fn admits(self, e: Emission) -> bool {
        match e {
            Emission::OnLine(n) => !self.surpresses_comments() && n < u64::MAX,
            Emission::FlushStartOfFileComments => !self.surpresses_comments(),
            Emission::CloseBreakable => self.breakable_entry_stack.len() > 0,
            _ => true,
        }
    }

    /// The state after the call.
    #[verifier::opaque]
    pub open spec fn after(self, e: Emission) -> ParserStateView {
        match e {
            Emission::Token(t) => self.push_token(t),
            Emission::OnLine(n) => self.on_line(n),
            Emission::FlushStartOfFileComments => self.flush_start_of_file_comments(),
            Emission::ShiftComments => self.shift_comments(),
            Emission::Newline => self.emit_newline(),
            Emission::SoftNewline => self.emit_soft_newline(),
            Emission::CollapsingNewline => self.emit_collapsing_newline(),
            Emission::End => self.emit_end(),
            Emission::RenderHeredocs { skip } => self.render_heredocs(skip),
            Emission::OpenBreakable(delims) => self.open_breakable(delims),
            Emission::CloseBreakable => self.close_breakable(),
        }
    }

    /// Whether every call of `es`, made one after another, keeps every
    /// comment.
    pub open spec fn admits_all(self, es: Seq<Emission>) -> bool
        decreases es.len(),
    {
        es.len() == 0 || (self.admits_all(es.drop_last()) && self.after_all(
            es.drop_last(),
        ).admits(es.last()))
    }

    /// The state after the calls of `es`, made one after another.
    pub open spec fn after_all(self, es: Seq<Emission>) -> ParserStateView
        decreases es.len(),
    {
        if es.len() == 0 {
            self
        } else {
            self.after_all(es.drop_last()).after(es.last())
        }
    }
}

/// The comments that the calls of `es` emit as tokens of their own.
pub open spec fn comments_emitted_by(es: Seq<Emission>) -> nat
    decreases es.len(),
{
    if es.len() == 0 {
        0
    } else {
        comments_emitted_by(es.drop_last()) + (match es.last() {
            Emission::Token(t) => t.comment_count(),
            _ => 0,
        })
    }
}

/// A soft newline emits every buffered comment and makes none.
pub proof fn lemma_soft_newline_conserves(s: ParserStateView)
    ensures
        s.emit_soft_newline().comment_count() == s.comment_count(),
{
    lemma_shift_comments_conserves(s);
    let shifted = s.shift_comments();
    lemma_push_token_comments(shifted, TokenView::SoftNewline);
    let pushed = shifted.push_token(TokenView::SoftNewline);
    lemma_open_group_count_agrees(
        pushed,
        pushed.with_spaces_after_last_newline(),
        pushed.breakable_entry_stack.len(),
    );
}

/// A collapsing newline makes no comment.
pub proof fn lemma_collapsing_newline_conserves(s: ParserStateView)
    ensures
        s.emit_collapsing_newline().comment_count() == s.comment_count(),
{
    lemma_push_token_comments(s, TokenView::CollapsingNewLine);
    let pushed = if crate::render_targets::last_is_newline(s.target()) {
        s
    } else {
        s.push_token(TokenView::CollapsingNewLine)
    };
    lemma_open_group_count_agrees(
        pushed,
        pushed.with_spaces_after_last_newline(),
        pushed.breakable_entry_stack.len(),
    );
}

/// `end` on a line of its own emits every buffered comment that its
/// newline shifts in, and makes none.
pub proof fn lemma_emit_end_conserves(s: ParserStateView)
    ensures
        s.emit_end().comment_count() == s.comment_count(),
{
    lemma_emit_newline_conserves(s);
    let on_new_line = if crate::render_targets::last_is_newline(s.target()) {
        s
    } else {
        s.emit_newline()
    };
    lemma_push_token_comments(
        on_new_line,
        TokenView::Indent { depth: on_new_line.current_spaces() },
    );
    let indented = if on_new_line.at_start_of_line() {
        on_new_line.emit_indent()
    } else {
        on_new_line
    };
    lemma_push_token_comments(indented, TokenView::End);
}

/// One call of the emission API keeps every comment of the state and adds
/// those of the token that it emits.
pub proof fn lemma_emission_conserves(s: ParserStateView, e: Emission)
    requires
        s.admits(e),
    ensures
        s.after(e).comment_count() == s.comment_count() + (match e {
            Emission::Token(t) => t.comment_count(),
            _ => 0,
        }),
{
    reveal(ParserStateView::after);
    reveal(ParserStateView::admits);
    match e {
        Emission::Token(t) => {
            lemma_push_token_comments(s, t);
        },
        Emission::OnLine(n) => {
            lemma_on_line_conserves(s, n);
        },
        Emission::FlushStartOfFileComments => {
            lemma_flush_conserves(s);
        },
        Emission::ShiftComments => {
            lemma_shift_comments_conserves(s);
        },
        Emission::Newline => {
            lemma_emit_newline_conserves(s);
        },
        Emission::SoftNewline => {
            lemma_soft_newline_conserves(s);
        },
        Emission::CollapsingNewline => {
            lemma_collapsing_newline_conserves(s);
        },
        Emission::End => {
            lemma_emit_end_conserves(s);
        },
        Emission::RenderHeredocs { skip } => {
            lemma_render_heredocs_conserves(s, skip);
        },
        Emission::OpenBreakable(delims) => {
            lemma_open_breakable_conserves(s, delims);
        },
        Emission::CloseBreakable => {
            lemma_close_breakable_conserves(s);
        },
    }
}

/// Comment conservation: whatever calls the walker makes, every comment of
/// the state stays in the state, in the store, in the buffer or among the
/// emitted tokens, and none is doubled, as long as no comment is taken from
/// the store while comments are suppressed.
pub proof fn lemma_emissions_conserve(s: ParserStateView, es: Seq<Emission>)
    requires
        s.admits_all(es),
    ensures
        s.after_all(es).comment_count() == s.comment_count() + comments_emitted_by(es),
    decreases es.len(),
{
    if es.len() > 0 {
        lemma_emissions_conserve(s, es.drop_last());
        lemma_emission_conserves(s.after_all(es.drop_last()), es.last());
    }
}

/// Every comment of the file comes out exactly once: when the walk over a
/// fresh state has emptied the store and the buffer and closed every group,
/// the final stream holds as many comments as the store held, and those
/// that the walker emitted as tokens of its own.
pub proof fn lemma_every_comment_comes_out_once(fc: FileCommentsView, es: Seq<Emission>)
    requires
        ParserStateView::new(fc).admits_all(es),
        ParserStateView::new(fc).after_all(es).comments_hash.is_empty(),
        ParserStateView::new(fc).after_all(es).comments_to_insert is None,
        ParserStateView::new(fc).after_all(es).breakable_entry_stack.len() == 0,
    ensures
        comments_in(rendered(ParserStateView::new(fc).after_all(es).render_queue))
            == fc.comment_count() + comments_emitted_by(es),
{
    let s = ParserStateView::new(fc);
    let done = s.after_all(es);
    lemma_emissions_conserve(s, es);
    lemma_rendering_keeps_comments(done.render_queue);
    assert(comments_in(s.render_queue) == 0);
    assert(done.comments_hash.all_comments() =~= Seq::<Seq<char>>::empty()) by {
        assert forall|k: u64| 0 <= k < line_limit() implies !done.comments_hash.others.contains_key(
            k,
        ) by {
            assert(!done.comments_hash.others.dom().contains(k));
        }
        lemma_comments_between_none(done.comments_hash.others, 0, line_limit());
    }
}

} // verus!

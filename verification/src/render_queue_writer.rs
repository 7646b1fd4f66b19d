//! The layout resolver and the serializer: every breakable group is
//! resolved to one line or several, depth first, while the flat stream goes
//! through the blank-line pass.
use vstd::prelude::*;
use vstd::string::*;
use crate::intermediary::BlanklineReason;
use crate::intermediary::Intermediary;
use crate::intermediary::IntermediaryView;
use crate::intermediary::lemma_cleared_of_garbage_wf;
use crate::intermediary::lemma_insert_trailing_blankline_wf;
use crate::intermediary::lemma_pushed_wf;
use crate::intermediary::lemma_strip_garbage;
use crate::intermediary::without_garbage_run;
use crate::line_tokens::LineToken;
use crate::line_tokens::TokenView;
use crate::line_tokens::group_count_upto;
use crate::line_tokens::indents_once_upto;
use crate::line_tokens::lemma_indents_once_prefix;
use crate::line_tokens::line_has_indent_upto;
use crate::line_tokens::one_indent_a_line;
use crate::line_tokens::walk_indents;
use crate::intermediary::lemma_pushed_line_has_indent;
use crate::line_tokens::lemma_group_count_member;
use crate::line_tokens::lemma_token_views;
use crate::line_tokens::single_line_text_upto;
use crate::line_tokens::text_of;
use crate::line_tokens::text_upto;
use crate::line_tokens::token_views;
use crate::render_targets::BreakableEntry;
use crate::render_targets::ConvertType;
use crate::render_targets::GroupView;
use crate::render_targets::lemma_single_line_width;
use crate::text::byte_len;
use crate::text::lemma_byte_len_concat;

verus! {

/// The widest that the children of a group may be, in bytes, for the group
/// to stay on one line.
pub const MAX_LINE_LENGTH: usize = 120;

impl GroupView {
    /// The layout rule: a group goes over several lines when its children
    /// are wider than the limit on one line, or when its content touched two
    /// or more source lines.
    pub open spec fn renders_multi_line(self) -> bool {
        self.single_line_string_length() > MAX_LINE_LENGTH || self.is_multiline()
    }
}

/// The rule that follows every token: a closed block directly above the
/// line of the last token gets a blank line.
pub open spec fn after_end_rule(s: IntermediaryView) -> IntermediaryView {
    s.blank_line_if(s.closes_block_before_last())
}

/// The state after one token of a group went through: a nested group is
/// resolved in place, any other token is converted for the layout of the
/// group it stands in and sent through the blank-line pass.
pub open spec fn rendered_token(s: IntermediaryView, t: TokenView, multi_line: bool) -> IntermediaryView
    decreases t,
{
    match t {
        TokenView::BreakableEntry(g) => after_end_rule(rendered_group(s, g)),
        x => after_end_rule(
            s.pushed(
                if multi_line {
                    x.multi_line()
                } else {
                    x.single_line()
                },
            ),
        ),
    }
}

/// The state after the first `n` tokens of `ts` went through, `ts` being
/// the children of a group of the given layout.
pub open spec fn rendered_upto(s: IntermediaryView, ts: Seq<TokenView>, n: nat, multi_line: bool) -> IntermediaryView
    decreases ts, n,
{
    if n == 0 || n > ts.len() {
        s
    } else {
        rendered_token(rendered_upto(s, ts, (n - 1) as nat, multi_line), ts[n - 1], multi_line)
    }
}

/// The state after group `g` was resolved: its delimiters round its
/// children, in the layout that the rule picks; on one line, the separators
/// before the close delimiter are taken out.
pub open spec fn rendered_group(s: IntermediaryView, g: GroupView) -> IntermediaryView
    decreases g,
{
    let multi_line = g.renders_multi_line();
    let opened = after_end_rule(
        s.pushed(TokenView::Delim { contents: g.delims.open_for(multi_line) }),
    );
    let filled = rendered_upto(opened, g.tokens, g.tokens.len(), multi_line);
    let closed = after_end_rule(
        filled.pushed(TokenView::Delim { contents: g.delims.close_for(multi_line) }),
    );
    if multi_line {
        closed
    } else {
        closed.cleared_of_garbage()
    }
}

/// The final flat stream of the root tokens `ts`.
pub open spec fn rendered(ts: Seq<TokenView>) -> Seq<TokenView> {
    rendered_upto(IntermediaryView::empty(), ts, ts.len(), true).tokens
}

/// One step of `rendered_upto`.
pub proof fn lemma_rendered_step(s: IntermediaryView, ts: Seq<TokenView>, n: nat, multi_line: bool)
    requires
        0 < n <= ts.len(),
    ensures
        rendered_upto(s, ts, n, multi_line) == rendered_token(
            rendered_upto(s, ts, (n - 1) as nat, multi_line),
            ts[n - 1],
            multi_line,
        ),
{
}

/// Converting the children of a group first and sending them through as
/// they are gives what sending them through in the layout of the group
/// gives.
pub proof fn lemma_rendered_converted(s: IntermediaryView, g: GroupView, multi_line: bool, k: nat)
    requires
        k <= g.tokens.len(),
    ensures
        rendered_upto(s, g.converted(multi_line), k + 1, true) == rendered_upto(
            after_end_rule(s.pushed(TokenView::Delim { contents: g.delims.open_for(multi_line) })),
            g.tokens,
            k,
            multi_line,
        ),
    decreases k,
{
    let conv = g.converted(multi_line);
    let opened = after_end_rule(
        s.pushed(TokenView::Delim { contents: g.delims.open_for(multi_line) }),
    );
    if k == 0 {
        lemma_rendered_step(s, conv, 1, true);
        assert(rendered_upto(s, conv, 0, true) == s);
        assert(conv[0] == TokenView::Delim { contents: g.delims.open_for(multi_line) });
    } else {
        lemma_rendered_converted(s, g, multi_line, (k - 1) as nat);
        lemma_rendered_step(s, conv, k + 1, true);
        lemma_rendered_step(opened, g.tokens, k, multi_line);
        let t = g.tokens[k - 1];
        assert(conv[k as int] == if multi_line {
            t.multi_line()
        } else {
            t.single_line()
        });
    }
}

/// The group count of the converted children is that of the children.
pub proof fn lemma_group_count_converted(g: GroupView, multi_line: bool, k: nat)
    requires
        k <= g.tokens.len(),
    ensures
        group_count_upto(g.converted(multi_line), k + 1) == group_count_upto(g.tokens, k),
        k == g.tokens.len() ==> group_count_upto(g.converted(multi_line), k + 2)
            == group_count_upto(g.tokens, k),
    decreases k,
{
    let conv = g.converted(multi_line);
    assert(group_count_upto(conv, 1) == group_count_upto(conv, 0) + conv[0].group_count());
    if k > 0 {
        lemma_group_count_converted(g, multi_line, (k - 1) as nat);
        assert(group_count_upto(conv, k + 1) == group_count_upto(conv, k) + conv[k as int].group_count());
        assert(group_count_upto(g.tokens, k) == group_count_upto(g.tokens, (k - 1) as nat)
            + g.tokens[k - 1].group_count());
        let t = g.tokens[k - 1];
        assert(conv[k as int] == if multi_line {
            t.multi_line()
        } else {
            t.single_line()
        });
    }
    if k == g.tokens.len() {
        assert(group_count_upto(conv, k + 2) == group_count_upto(conv, k + 1) + conv[k as int
            + 1].group_count());
    }
}

/// The rule that follows every token keeps the invariant of the pass and
/// the last token.
pub proof fn lemma_after_end_rule_wf(s: IntermediaryView)
    requires
        s.wf(),
    ensures
        after_end_rule(s).wf(),
        s.tokens.len() > 0 ==> after_end_rule(s).tokens.len() > 0 && after_end_rule(
            s,
        ).tokens.last() == s.tokens.last(),
{
    if s.closes_block_before_last() {
        let n = s.tokens.len() as int;
        assert(s.tokens[n - 3] is HardNewLine);
        assert(s.index_of_last_hard_newline >= n - 3);
        lemma_insert_trailing_blankline_wf(s);
    }
}

/// Resolving one token keeps the invariant of the pass.
pub proof fn lemma_rendered_token_wf(s: IntermediaryView, t: TokenView, multi_line: bool)
    requires
        s.wf(),
    ensures
        rendered_token(s, t, multi_line).wf(),
    decreases t,
{
    match t {
        TokenView::BreakableEntry(g) => {
            lemma_rendered_group_wf(s, g);
            lemma_after_end_rule_wf(rendered_group(s, g));
        },
        x => {
            let y = if multi_line {
                x.multi_line()
            } else {
                x.single_line()
            };
            lemma_pushed_wf(s, y);
            lemma_after_end_rule_wf(s.pushed(y));
        },
    }
}

/// Resolving a run of tokens keeps the invariant of the pass.
pub proof fn lemma_rendered_upto_wf(s: IntermediaryView, ts: Seq<TokenView>, n: nat, multi_line: bool)
    requires
        s.wf(),
    ensures
        rendered_upto(s, ts, n, multi_line).wf(),
    decreases ts, n,
{
    if !(n == 0 || n > ts.len()) {
        lemma_rendered_upto_wf(s, ts, (n - 1) as nat, multi_line);
        lemma_rendered_token_wf(
            rendered_upto(s, ts, (n - 1) as nat, multi_line),
            ts[n - 1],
            multi_line,
        );
    }
}

/// Resolving a group keeps the invariant of the pass and leaves the close
/// delimiter of the group as the last token. If the group is resolved to one
/// line, no separator stands before that delimiter.
pub proof fn lemma_rendered_group_wf(s: IntermediaryView, g: GroupView)
    requires
        s.wf(),
    ensures
        rendered_group(s, g).wf(),
        rendered_group(s, g).tokens.len() > 0,
        rendered_group(s, g).tokens.last() == (TokenView::Delim {
            contents: g.delims.close_for(g.renders_multi_line()),
        }),
        !g.renders_multi_line() && rendered_group(s, g).tokens.len() >= 2 ==> !rendered_group(
            s,
            g,
        ).tokens[rendered_group(s, g).tokens.len() - 2].is_single_line_breakable_garbage(),
    decreases g,
{
    let multi_line = g.renders_multi_line();
    let open = TokenView::Delim { contents: g.delims.open_for(multi_line) };
    let close = TokenView::Delim { contents: g.delims.close_for(multi_line) };
    lemma_pushed_wf(s, open);
    lemma_after_end_rule_wf(s.pushed(open));
    let opened = after_end_rule(s.pushed(open));
    lemma_rendered_upto_wf(opened, g.tokens, g.tokens.len(), multi_line);
    let filled = rendered_upto(opened, g.tokens, g.tokens.len(), multi_line);
    lemma_pushed_wf(filled, close);
    lemma_after_end_rule_wf(filled.pushed(close));
    let closed = after_end_rule(filled.pushed(close));
    if !multi_line {
        lemma_cleared_of_garbage_wf(closed);
    }
}

/// A group that is resolved to one line fits the line: the single-line text
/// of its children is at most `MAX_LINE_LENGTH` bytes wide, and its content
/// touched at most one source line. A group whose content touched two or
/// more source lines goes over several lines, whatever its width.
pub proof fn lemma_single_line_group_fits(g: GroupView)
    ensures
        !g.renders_multi_line() ==> byte_len(single_line_text_upto(g.tokens, g.tokens.len()))
            <= MAX_LINE_LENGTH && g.line_numbers.len() <= 1,
        g.line_numbers.len() > 1 ==> g.renders_multi_line(),
        g.renders_multi_line() <==> byte_len(single_line_text_upto(g.tokens, g.tokens.len()))
            > MAX_LINE_LENGTH || g.line_numbers.len() > 1,
{
    lemma_single_line_width(g.tokens, g.tokens.len());
}

/// The text of a group on one line is as wide as its delimiters and the
/// width that decides its layout.
pub proof fn lemma_group_text_width(g: GroupView)
    ensures
        byte_len(g.single_line_text()) == byte_len(g.delims.single_open)
            + g.single_line_string_length() + byte_len(g.delims.single_close),
{
    lemma_single_line_width(g.tokens, g.tokens.len());
    let body = single_line_text_upto(g.tokens, g.tokens.len());
    lemma_byte_len_concat(g.delims.single_open, body);
    lemma_byte_len_concat(g.delims.single_open + body, g.delims.single_close);
}

/// The stream with a group on one line written out, its close delimiter
/// included, before the separators are taken out.
pub open spec fn rendered_group_unstripped(s: IntermediaryView, g: GroupView) -> IntermediaryView {
    let opened = after_end_rule(s.pushed(TokenView::Delim { contents: g.delims.open_for(false) }));
    let filled = rendered_upto(opened, g.tokens, g.tokens.len(), false);
    after_end_rule(filled.pushed(TokenView::Delim { contents: g.delims.close_for(false) }))
}

/// In a group that is resolved to one line no separator is left dangling:
/// the last token of the stream is the close delimiter of the group, and the
/// token before it is neither a comma, a blank, a soft newline nor an empty
/// part. What is taken out is exactly the longest run of such separators
/// before the close delimiter: the tokens before the run and the delimiter
/// stay as they are.
pub proof fn lemma_no_dangling_separator(s: IntermediaryView, g: GroupView)
    requires
        s.wf(),
        !g.renders_multi_line(),
    ensures
        ({
            let out = rendered_group(s, g).tokens;
            &&& out.len() >= 1
            &&& out.last() == TokenView::Delim { contents: g.delims.single_close }
            &&& out.len() >= 2 ==> !out[out.len() - 2].is_single_line_breakable_garbage()
            &&& without_garbage_run(rendered_group_unstripped(s, g).tokens, out)
        }),
{
    lemma_rendered_group_wf(s, g);
    let open = TokenView::Delim { contents: g.delims.open_for(false) };
    let close = TokenView::Delim { contents: g.delims.close_for(false) };
    lemma_pushed_wf(s, open);
    lemma_after_end_rule_wf(s.pushed(open));
    let opened = after_end_rule(s.pushed(open));
    lemma_rendered_upto_wf(opened, g.tokens, g.tokens.len(), false);
    let filled = rendered_upto(opened, g.tokens, g.tokens.len(), false);
    lemma_pushed_wf(filled, close);
    lemma_after_end_rule_wf(filled.pushed(close));
    lemma_strip_garbage(rendered_group_unstripped(s, g).tokens);
}

/// The rule that follows every token leaves the indent of the line alone.
pub proof fn lemma_after_end_rule_line_has_indent(s: IntermediaryView)
    ensures
        after_end_rule(s).line_has_indent() == s.line_has_indent(),
{
}

/// Resolving one token does to the indent of the line what the token says.
pub proof fn lemma_rendered_token_line_has_indent(s: IntermediaryView, t: TokenView, multi_line: bool)
    ensures
        rendered_token(s, t, multi_line).line_has_indent() == t.line_has_indent_after(
            s.line_has_indent(),
        ),
    decreases t,
{
    match t {
        TokenView::BreakableEntry(g) => {
            lemma_rendered_group_line_has_indent(s, g);
        },
        x => {
            let y = if multi_line {
                x.multi_line()
            } else {
                x.single_line()
            };
            lemma_pushed_line_has_indent(s, y);
        },
    }
}

/// Resolving a run of tokens does to the indent of the line what the tokens
/// say.
pub proof fn lemma_rendered_upto_line_has_indent(
    s: IntermediaryView,
    ts: Seq<TokenView>,
    n: nat,
    multi_line: bool,
)
    ensures
        rendered_upto(s, ts, n, multi_line).line_has_indent() == line_has_indent_upto(
            s.line_has_indent(),
            ts,
            n,
        ),
    decreases ts, n,
{
    if !(n == 0 || n > ts.len()) {
        lemma_rendered_upto_line_has_indent(s, ts, (n - 1) as nat, multi_line);
        lemma_rendered_token_line_has_indent(
            rendered_upto(s, ts, (n - 1) as nat, multi_line),
            ts[n - 1],
            multi_line,
        );
    }
}

/// Resolving a group does to the indent of the line what its children say:
/// the delimiters do not touch it.
pub proof fn lemma_rendered_group_line_has_indent(s: IntermediaryView, g: GroupView)
    ensures
        rendered_group(s, g).line_has_indent() == line_has_indent_upto(
            s.line_has_indent(),
            g.tokens,
            g.tokens.len(),
        ),
    decreases g,
{
    let multi_line = g.renders_multi_line();
    let open = TokenView::Delim { contents: g.delims.open_for(multi_line) };
    let close = TokenView::Delim { contents: g.delims.close_for(multi_line) };
    lemma_pushed_line_has_indent(s, open);
    let opened = after_end_rule(s.pushed(open));
    lemma_rendered_upto_line_has_indent(opened, g.tokens, g.tokens.len(), multi_line);
    let filled = rendered_upto(opened, g.tokens, g.tokens.len(), multi_line);
    lemma_pushed_line_has_indent(filled, close);
}

/// The converted children of a group, between its delimiters, bring a line
/// a second indent exactly if the children do.
pub proof fn lemma_indents_converted(seen: bool, g: GroupView, multi_line: bool, k: nat)
    requires
        k <= g.tokens.len(),
    ensures
        line_has_indent_upto(seen, g.converted(multi_line), k + 1) == line_has_indent_upto(
            seen,
            g.tokens,
            k,
        ),
        indents_once_upto(seen, g.converted(multi_line), k + 1) == indents_once_upto(
            seen,
            g.tokens,
            k,
        ),
        k == g.tokens.len() ==> indents_once_upto(seen, g.converted(multi_line), k + 2)
            == indents_once_upto(seen, g.tokens, k),
    decreases k,
{
    let conv = g.converted(multi_line);
    assert(conv[0] is Delim);
    assert(line_has_indent_upto(seen, conv, 1) == conv[0].line_has_indent_after(
        line_has_indent_upto(seen, conv, 0),
    ));
    assert(indents_once_upto(seen, conv, 1) == (indents_once_upto(seen, conv, 0)
        && conv[0].indents_once(line_has_indent_upto(seen, conv, 0))));
    if k > 0 {
        lemma_indents_converted(seen, g, multi_line, (k - 1) as nat);
        let t = g.tokens[k - 1];
        assert(conv[k as int] == if multi_line {
            t.multi_line()
        } else {
            t.single_line()
        });
        let before = line_has_indent_upto(seen, g.tokens, (k - 1) as nat);
        assert(conv[k as int].line_has_indent_after(before) == t.line_has_indent_after(before));
        assert(conv[k as int].indents_once(before) == t.indents_once(before));
        assert(line_has_indent_upto(seen, conv, k + 1) == conv[k as int].line_has_indent_after(
            line_has_indent_upto(seen, conv, k),
        ));
        assert(indents_once_upto(seen, conv, k + 1) == (indents_once_upto(seen, conv, k)
            && conv[k as int].indents_once(line_has_indent_upto(seen, conv, k))));
    }
    if k == g.tokens.len() {
        assert(conv[k as int + 1] is Delim);
        assert(indents_once_upto(seen, conv, k + 2) == (indents_once_upto(seen, conv, k + 1)
            && conv[k as int + 1].indents_once(line_has_indent_upto(seen, conv, k + 1))));
    }
}

/// The tokens of `v` in reverse order.
fn reversed(v: Vec<LineToken>) -> (r: Vec<LineToken>)
    ensures
        r@ == v@.reverse(),
{
    let mut v = v;
    let ghost src = v@;
    let mut r: Vec<LineToken> = Vec::new();
    while v.len() > 0
        invariant
            v@.len() + r@.len() == src.len(),
            v@ == src.subrange(0, v@.len() as int),
            forall|k: int| 0 <= k < r@.len() ==> r@[k] == src[src.len() - 1 - k],
        decreases v@.len(),
    {
        let t = v.pop().unwrap();
        r.push(t);
    }
    assert(r@ =~= src.reverse());
    r
}

/// A token stream that is ready to be resolved and written.
pub struct RenderQueueWriter {
    tokens: Vec<LineToken>,
}

impl View for RenderQueueWriter {
    type V = Seq<TokenView>;

    closed spec fn view(&self) -> Seq<TokenView> {
        token_views(self.tokens@)
    }
}

impl RenderQueueWriter {
    pub fn new(tokens: Vec<LineToken>) -> (r: Self)
        ensures
            r@ == token_views(tokens@),
    {
        RenderQueueWriter { tokens }
    }

    /// Whether every line of the stream holds at most one indent, as the
    /// blank-line pass asks.
    pub fn has_one_indent_a_line(&self) -> (b: bool)
        ensures
            b == one_indent_a_line(self@),
    {
        proof {
            lemma_token_views(self.tokens@);
        }
        walk_indents(&self.tokens, false).is_some()
    }

    /// The final text, or `None` if the stream is to go through the
    /// blank-line pass and one of its lines holds two indents.
    pub fn render_checked(self, run_pipeline: bool) -> (r: Option<String>)
        ensures
            r is Some <==> (run_pipeline ==> one_indent_a_line(self@)),
            r matches Some(s) ==> s@ == text_of(
                if run_pipeline {
                    rendered(self@)
                } else {
                    self@
                },
            ),
    {
        if run_pipeline && !self.has_one_indent_a_line() {
            None
        } else {
            Some(self.render(run_pipeline))
        }
    }

    /// The final text. With `run_pipeline` every group is resolved and the
    /// stream goes through the blank-line pass; without it the raw stream is
    /// written as it stands, each group on one line.
    pub fn render(self, run_pipeline: bool) -> (s: String)
        requires
            run_pipeline ==> one_indent_a_line(self@),
        ensures
            s@ == text_of(
                if run_pipeline {
                    rendered(self@)
                } else {
                    self@
                },
            ),
    {
        if run_pipeline {
            let mut accum = Intermediary::new();
            proof {
                lemma_token_views(self.tokens@);
            }
            Self::render_as(&mut accum, self.tokens);
            Self::write_final_tokens(accum.into_tokens())
        } else {
            Self::write_final_tokens(self.tokens)
        }
    }

    /// The resolved and post-processed stream, as tokens.
    pub fn into_final_tokens(self) -> (r: Vec<LineToken>)
        requires
            one_indent_a_line(self@),
        ensures
            token_views(r@) == rendered(self@),
    {
        let mut accum = Intermediary::new();
        proof {
            lemma_token_views(self.tokens@);
        }
        Self::render_as(&mut accum, self.tokens);
        accum.into_tokens()
    }

    /// Sends `tokens` through, resolving every group on the way. No line
    /// may get a second indent.
    pub fn render_as(accum: &mut Intermediary, tokens: Vec<LineToken>)
        requires
            old(accum).wf(),
            indents_once_upto(
                old(accum)@.line_has_indent(),
                token_views(tokens@),
                tokens@.len(),
            ),
        ensures
            final(accum)@ == rendered_upto(
                old(accum)@,
                token_views(tokens@),
                tokens@.len(),
                true,
            ),
            final(accum).wf(),
            tokens@.len() > 0 && tokens@.last()@ is Delim ==> final(accum)@.tokens.len() > 0
                && final(accum)@.tokens.last() is Delim,
        decreases group_count_upto(token_views(tokens@), tokens@.len()), 1nat,
    {
        let ghost ts = token_views(tokens@);
        let ghost total = tokens@.len();
        let ghost src = tokens@;
        proof {
            lemma_token_views(tokens@);
        }
        let mut rest = reversed(tokens);
        while rest.len() > 0
            invariant
                src == tokens@,
                ts == token_views(src),
                ts.len() == src.len(),
                total == src.len(),
                rest@.len() <= total,
                forall|k: int| 0 <= k < rest@.len() ==> rest@[k] == src[total - 1 - k],
                accum@ == rendered_upto(old(accum)@, ts, (total - rest@.len()) as nat, true),
                accum.wf(),
                indents_once_upto(old(accum)@.line_has_indent(), ts, total as nat),
                rest@.len() < total && ts[total - rest@.len() - 1] is Delim ==> accum@.tokens.len() > 0
                    && accum@.tokens.last() is Delim,
            decreases rest@.len(),
        {
            let ghost done = (total - rest@.len()) as nat;
            let next_token = rest.pop().unwrap();
            proof {
                lemma_token_views(src);
                assert(next_token == src[done as int]);
                assert(next_token@ == ts[done as int]);
                lemma_rendered_step(old(accum)@, ts, done + 1, true);
                lemma_group_count_member(ts, total, done as int);
                lemma_indents_once_prefix(
                    old(accum)@.line_has_indent(),
                    ts,
                    done + 1,
                    total as nat,
                );
                lemma_rendered_upto_line_has_indent(old(accum)@, ts, done, true);
                assert(ts[done as int].indents_once(accum@.line_has_indent()));
            }
            let ghost is_delim = next_token@ is Delim;
            match next_token {
                LineToken::BreakableEntry(be) => {
                    assert(TokenView::BreakableEntry(be@) == ts[done as int]);
                    Self::format_breakable_entry(accum, be)
                },
                x => accum.push(x),
            }
            assert(is_delim ==> accum@.tokens.len() > 0 && accum@.tokens.last() is Delim);
            Self::insert_blankline_after_end(accum);
        }
    }

    /// The rule that follows every token: if the stream ends with `end`, a
    /// hard newline, an indent and a token that wants to be set off, a blank
    /// line goes behind the closed block.
    fn insert_blankline_after_end(accum: &mut Intermediary)
        requires
            old(accum).wf(),
        ensures
            final(accum)@ == after_end_rule(old(accum)@),
            final(accum).wf(),
            old(accum)@.tokens.len() > 0 ==> final(accum)@.tokens.len() > 0
                && final(accum)@.tokens.last() == old(accum)@.tokens.last(),
    {
        let wanted = if accum.len() >= 4 {
            match accum.last_4() {
                Some((LineToken::End, LineToken::HardNewLine, LineToken::Indent { .. }, x)) => {
                    x.is_in_need_of_a_trailing_blankline()
                },
                _ => false,
            }
        } else {
            false
        };
        if wanted {
            proof {
                let s = accum@;
                let n = s.tokens.len() as int;
                assert(s.tokens[n - 3] is HardNewLine);
                assert(s.index_of_last_hard_newline >= n - 3);
            }
            accum.insert_trailing_blankline(BlanklineReason::ComesAfterEnd);
        }
    }

    /// Resolves one group: over several lines if its children are too wide
    /// for one or its content touched several source lines, on one line
    /// otherwise.
    pub fn format_breakable_entry(accum: &mut Intermediary, be: BreakableEntry)
        requires
            old(accum).wf(),
            indents_once_upto(old(accum)@.line_has_indent(), be@.tokens, be@.tokens.len()),
        ensures
            final(accum)@ == rendered_group(old(accum)@, be@),
            final(accum).wf(),
        decreases TokenView::BreakableEntry(be@).group_count(), 0nat,
    {
        let length = be.single_line_string_length();
        let ghost g = be@;
        let ghost s0 = accum@;
        if length > MAX_LINE_LENGTH || be.is_multiline() {
            let tokens = be.into_tokens(ConvertType::MultiLine);
            proof {
                lemma_token_views(tokens@);
                lemma_rendered_converted(s0, g, true, g.tokens.len());
                lemma_rendered_step(s0, g.converted(true), g.tokens.len() + 2, true);
                lemma_group_count_converted(g, true, g.tokens.len());
                lemma_indents_converted(s0.line_has_indent(), g, true, g.tokens.len());
            }
            Self::render_as(accum, tokens);
        } else {
            let tokens = be.into_tokens(ConvertType::SingleLine);
            proof {
                lemma_token_views(tokens@);
                lemma_rendered_converted(s0, g, false, g.tokens.len());
                lemma_rendered_step(s0, g.converted(false), g.tokens.len() + 2, true);
                lemma_group_count_converted(g, false, g.tokens.len());
                lemma_indents_converted(s0.line_has_indent(), g, false, g.tokens.len());
            }
            Self::render_as(accum, tokens);
            accum.clear_breakable_garbage();
        }
    }

    /// The texts of `tokens`, one after another.
    pub fn write_final_tokens(tokens: Vec<LineToken>) -> (s: String)
        ensures
            s@ == text_of(token_views(tokens@)),
    {
        let ghost ts = token_views(tokens@);
        proof {
            lemma_token_views(tokens@);
        }
        let mut s = String::new();
        let mut i: usize = 0;
        assert(s@ =~= text_upto(ts, 0));
        while i < tokens.len()
            invariant
                i <= tokens.len(),
                ts == token_views(tokens@),
                ts.len() == tokens@.len(),
                s@ == text_upto(ts, i as nat),
            decreases tokens.len() - i,
        {
            proof {
                lemma_token_views(tokens@);
            }
            let piece = tokens[i].ruby_text();
            s.append(piece.as_str());
            i = i + 1;
        }
        s
    }
}

} // verus!

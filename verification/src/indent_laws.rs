//! One indent a line: a stream in which no line holds two indents can be
//! rendered, and what comes out is such a stream again.
use vstd::prelude::*;
use crate::intermediary::IntermediaryView;
use crate::intermediary::lemma_cleared_of_garbage_wf;
use crate::intermediary::lemma_insert_trailing_blankline_wf;
use crate::intermediary::lemma_pushed_wf;
use crate::intermediary::strip_garbage;
use crate::line_tokens::TokenView;
use crate::line_tokens::indents_once_upto;
use crate::line_tokens::line_has_indent_upto;
use crate::line_tokens::one_indent_a_line;
use crate::render_queue_writer::after_end_rule;
use crate::render_queue_writer::lemma_after_end_rule_wf;
use crate::render_queue_writer::lemma_rendered_group_wf;
use crate::render_queue_writer::lemma_rendered_upto_line_has_indent;
use crate::render_queue_writer::lemma_rendered_upto_wf;
use crate::render_queue_writer::rendered;
use crate::render_queue_writer::rendered_group;
use crate::render_queue_writer::rendered_token;
use crate::render_queue_writer::rendered_upto;
use crate::render_targets::GroupView;

verus! {

/// What the first `n` tokens do to the indents of the lines depends on those
/// tokens only.
pub proof fn lemma_indents_prefix(seen: bool, a: Seq<TokenView>, b: Seq<TokenView>, n: nat)
    requires
        n <= a.len(),
        n <= b.len(),
        forall|i: int| 0 <= i < n ==> a[i] == b[i],
    ensures
        line_has_indent_upto(seen, a, n) == line_has_indent_upto(seen, b, n),
        indents_once_upto(seen, a, n) == indents_once_upto(seen, b, n),
    decreases n,
{
    if n > 0 {
        lemma_indents_prefix(seen, a, b, (n - 1) as nat);
    }
}

/// Whether the line at the end of `ts` holds an indent, `seen` saying
/// whether the line at its start held one.
pub open spec fn line_has_indent_at_end(seen: bool, ts: Seq<TokenView>) -> bool {
    line_has_indent_upto(seen, ts, ts.len())
}

/// Whether `ts` brings no line a second indent.
pub open spec fn indents_once_in(seen: bool, ts: Seq<TokenView>) -> bool {
    indents_once_upto(seen, ts, ts.len())
}

/// The lines of two sequences one after another: the second goes on where
/// the first ends.
pub proof fn lemma_indents_concat(seen: bool, a: Seq<TokenView>, b: Seq<TokenView>)
    ensures
        line_has_indent_at_end(seen, a + b) == line_has_indent_at_end(
            line_has_indent_at_end(seen, a),
            b,
        ),
        indents_once_in(seen, a + b) == (indents_once_in(seen, a) && indents_once_in(
            line_has_indent_at_end(seen, a),
            b,
        )),
    decreases b.len(),
{
    if b.len() == 0 {
        assert(a + b =~= a);
    } else {
        let c = a + b;
        let rest = b.drop_last();
        lemma_indents_concat(seen, a, rest);
        lemma_indents_prefix(seen, c, a + rest, (c.len() - 1) as nat);
        lemma_indents_prefix(line_has_indent_at_end(seen, a), b, rest, (b.len() - 1) as nat);
        assert((a + rest).len() == c.len() - 1);
        assert(c[c.len() - 1] == b[b.len() - 1]);
    }
}

/// A sequence of one token does to the lines what the token does.
pub proof fn lemma_indents_one(seen: bool, t: TokenView)
    ensures
        line_has_indent_at_end(seen, seq![t]) == t.line_has_indent_after(seen),
        indents_once_in(seen, seq![t]) == t.indents_once(seen),
{
    let one = seq![t];
    assert(line_has_indent_upto(seen, one, 1) == one[0].line_has_indent_after(
        line_has_indent_upto(seen, one, 0),
    ));
    assert(indents_once_upto(seen, one, 1) == (indents_once_upto(seen, one, 0)
        && one[0].indents_once(line_has_indent_upto(seen, one, 0))));
}

/// A second hard newline beside a hard newline changes no line's indent.
pub proof fn lemma_indents_insert_newline(ts: Seq<TokenView>, idx: int)
    requires
        0 <= idx < ts.len(),
        ts[idx] is HardNewLine,
    ensures
        line_has_indent_at_end(false, ts.insert(idx, TokenView::HardNewLine))
            == line_has_indent_at_end(false, ts),
        indents_once_in(false, ts.insert(idx, TokenView::HardNewLine)) == indents_once_in(
            false,
            ts,
        ),
{
    let head = ts.subrange(0, idx);
    let tail = ts.subrange(idx + 1, ts.len() as int);
    let one = seq![TokenView::HardNewLine];
    let two = seq![TokenView::HardNewLine, TokenView::HardNewLine];
    assert(ts =~= head + one + tail);
    assert(ts.insert(idx, TokenView::HardNewLine) =~= head + two + tail);
    lemma_indents_concat(false, head + one, tail);
    lemma_indents_concat(false, head + two, tail);
    lemma_indents_concat(false, head, one);
    lemma_indents_concat(false, head, two);
    let at = line_has_indent_at_end(false, head);
    lemma_indents_one(at, TokenView::HardNewLine);
    lemma_indents_one(false, TokenView::HardNewLine);
    lemma_indents_concat(at, one, one);
    assert(two =~= one + one);
}

/// Taking a separator out changes no line's indent.
pub proof fn lemma_indents_remove_separator(ts: Seq<TokenView>, idx: int)
    requires
        0 <= idx < ts.len(),
        ts[idx].is_single_line_breakable_garbage(),
    ensures
        line_has_indent_at_end(false, ts.remove(idx)) == line_has_indent_at_end(false, ts),
        indents_once_in(false, ts.remove(idx)) == indents_once_in(false, ts),
{
    let head = ts.subrange(0, idx);
    let tail = ts.subrange(idx + 1, ts.len() as int);
    let one = seq![ts[idx]];
    assert(ts =~= head + one + tail);
    assert(ts.remove(idx) =~= head + tail);
    lemma_indents_concat(false, head + one, tail);
    lemma_indents_concat(false, head, tail);
    lemma_indents_concat(false, head, one);
    let at = line_has_indent_at_end(false, head);
    lemma_indents_one(at, ts[idx]);
}

/// Taking the separators out before the last token changes no line's
/// indent.
pub proof fn lemma_indents_strip_garbage(ts: Seq<TokenView>)
    ensures
        line_has_indent_at_end(false, strip_garbage(ts)) == line_has_indent_at_end(false, ts),
        indents_once_in(false, strip_garbage(ts)) == indents_once_in(false, ts),
    decreases ts.len(),
{
    if ts.len() >= 2 && ts[ts.len() - 2].is_single_line_breakable_garbage() {
        lemma_indents_remove_separator(ts, ts.len() - 2);
        lemma_indents_strip_garbage(ts.remove(ts.len() - 2));
    }
}

impl IntermediaryView {
    /// No line of the stream holds two indents, and the state knows whether
    /// the line that is being written holds one.
    pub open spec fn indents_in_place(self) -> bool {
        &&& indents_once_in(false, self.tokens)
        &&& line_has_indent_at_end(false, self.tokens) == self.line_has_indent()
    }
}

/// A blank line that is put in changes no line's indent.
pub proof fn lemma_blank_line_indents(s: IntermediaryView, wanted: bool)
    requires
        s.wf(),
        s.indents_in_place(),
        wanted ==> s.has_boundary(),
    ensures
        s.blank_line_if(wanted).indents_in_place(),
{
    if wanted && !s.blank_line_in_place() {
        lemma_indents_insert_newline(s.tokens, s.index_of_last_hard_newline);
    }
}

/// A token that goes through the pass on a line that can take it leaves a
/// stream in which no line holds two indents.
pub proof fn lemma_pushed_indents(s: IntermediaryView, t: TokenView)
    requires
        s.wf(),
        s.indents_in_place(),
        !(t is BreakableEntry),
        t.indents_once(s.line_has_indent()),
    ensures
        s.pushed(t).indents_in_place(),
{
    let a = match t {
        TokenView::HardNewLine => s.blank_line_if(s.ends_require_block()),
        TokenView::ModuleKeyword | TokenView::ClassKeyword => s.blank_line_if(
            s.follows_unindented_line(),
        ),
        TokenView::DoKeyword => s.with_current(
            crate::line_metadata::LineFlags { do_keyword: true, ..s.current },
        ).blank_line_if(s.follows_plain_line()),
        TokenView::ConditionalKeyword { contents } => s.with_current(
            crate::line_metadata::LineFlags { conditional: true, ..s.current },
        ).blank_line_if(s.follows_plain_line() && contents == "if"@),
        _ => s,
    };
    match t {
        TokenView::HardNewLine => {
            lemma_blank_line_indents(s, s.ends_require_block());
        },
        TokenView::ModuleKeyword | TokenView::ClassKeyword => {
            lemma_blank_line_indents(s, s.follows_unindented_line());
        },
        TokenView::DoKeyword => {
            let b = s.with_current(
                crate::line_metadata::LineFlags { do_keyword: true, ..s.current },
            );
            lemma_blank_line_indents(b, s.follows_plain_line());
        },
        TokenView::ConditionalKeyword { contents } => {
            let b = s.with_current(
                crate::line_metadata::LineFlags { conditional: true, ..s.current },
            );
            lemma_blank_line_indents(b, s.follows_plain_line() && contents == "if"@);
        },
        _ => {},
    }
    assert(a.indents_in_place());
    assert(a.line_has_indent() == s.line_has_indent());
    let one = seq![t];
    lemma_indents_concat(false, a.tokens, one);
    let at = line_has_indent_at_end(false, a.tokens);
    lemma_indents_one(at, t);
    assert(a.tokens.push(t) =~= a.tokens + one);
    if t is HardNewLine {
        let n = a.tokens.len() as int;
        if n >= 2 && a.tokens[n - 2] is HardNewLine && a.tokens[n - 1] is HardNewLine {
            assert(line_has_indent_upto(false, a.tokens, n as nat) == a.tokens[n
                - 1].line_has_indent_after(line_has_indent_upto(false, a.tokens, (n - 1) as nat)));
        }
    }
}

/// The rule that follows every token changes no line's indent.
pub proof fn lemma_after_end_rule_indents(s: IntermediaryView)
    requires
        s.wf(),
        s.indents_in_place(),
    ensures
        after_end_rule(s).indents_in_place(),
{
    if s.closes_block_before_last() {
        let n = s.tokens.len() as int;
        assert(s.tokens[n - 3] is HardNewLine);
        assert(s.index_of_last_hard_newline >= n - 3);
    }
    lemma_blank_line_indents(s, s.closes_block_before_last());
}

/// Resolving one token that brings no line a second indent leaves a stream
/// in which no line holds two.
pub proof fn lemma_rendered_token_indents(s: IntermediaryView, t: TokenView, multi_line: bool)
    requires
        s.wf(),
        s.indents_in_place(),
        t.indents_once(s.line_has_indent()),
    ensures
        rendered_token(s, t, multi_line).indents_in_place(),
    decreases t,
{
    match t {
        TokenView::BreakableEntry(g) => {
            lemma_rendered_group_indents(s, g);
            lemma_rendered_group_wf(s, g);
            lemma_after_end_rule_indents(rendered_group(s, g));
        },
        x => {
            let y = if multi_line {
                x.multi_line()
            } else {
                x.single_line()
            };
            lemma_pushed_indents(s, y);
            lemma_pushed_wf(s, y);
            lemma_after_end_rule_indents(s.pushed(y));
        },
    }
}

/// Resolving a run of tokens that brings no line a second indent leaves a
/// stream in which no line holds two.
pub proof fn lemma_rendered_upto_indents(
    s: IntermediaryView,
    ts: Seq<TokenView>,
    n: nat,
    multi_line: bool,
)
    requires
        s.wf(),
        s.indents_in_place(),
        n <= ts.len(),
        indents_once_upto(s.line_has_indent(), ts, n),
    ensures
        rendered_upto(s, ts, n, multi_line).indents_in_place(),
    decreases ts, n,
{
    if n > 0 {
        lemma_rendered_upto_indents(s, ts, (n - 1) as nat, multi_line);
        lemma_rendered_upto_wf(s, ts, (n - 1) as nat, multi_line);
        lemma_rendered_upto_line_has_indent(s, ts, (n - 1) as nat, multi_line);
        lemma_rendered_token_indents(
            rendered_upto(s, ts, (n - 1) as nat, multi_line),
            ts[n - 1],
            multi_line,
        );
    }
}

/// Resolving a group whose children bring no line a second indent leaves a
/// stream in which no line holds two.
pub proof fn lemma_rendered_group_indents(s: IntermediaryView, g: GroupView)
    requires
        s.wf(),
        s.indents_in_place(),
        indents_once_upto(s.line_has_indent(), g.tokens, g.tokens.len()),
    ensures
        rendered_group(s, g).indents_in_place(),
    decreases g,
{
    let multi_line = g.renders_multi_line();
    let open = TokenView::Delim { contents: g.delims.open_for(multi_line) };
    let close = TokenView::Delim { contents: g.delims.close_for(multi_line) };
    lemma_pushed_indents(s, open);
    lemma_pushed_wf(s, open);
    lemma_after_end_rule_indents(s.pushed(open));
    lemma_after_end_rule_wf(s.pushed(open));
    let opened = after_end_rule(s.pushed(open));
    assert(opened.line_has_indent() == s.line_has_indent());
    lemma_rendered_upto_indents(opened, g.tokens, g.tokens.len(), multi_line);
    lemma_rendered_upto_wf(opened, g.tokens, g.tokens.len(), multi_line);
    let filled = rendered_upto(opened, g.tokens, g.tokens.len(), multi_line);
    lemma_pushed_indents(filled, close);
    lemma_pushed_wf(filled, close);
    lemma_after_end_rule_indents(filled.pushed(close));
    lemma_after_end_rule_wf(filled.pushed(close));
    let closed = after_end_rule(filled.pushed(close));
    if !multi_line {
        lemma_indents_strip_garbage(closed.tokens);
    }
}

/// A stream in which no line holds two indents is rendered to a stream in
/// which no line holds two indents: what was rendered can be rendered
/// again.
pub proof fn lemma_final_stream_renders_again(ts: Seq<TokenView>)
    requires
        one_indent_a_line(ts),
    ensures
        one_indent_a_line(rendered(ts)),
{
    lemma_rendered_upto_indents(IntermediaryView::empty(), ts, ts.len(), true);
}

} // verus!

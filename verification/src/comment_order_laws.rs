//! The order of comments: the layout resolver and the blank-line pass hand
//! every comment on with its text, and the comments in the order in which
//! they were emitted.
use vstd::prelude::*;
use crate::intermediary::IntermediaryView;
use crate::intermediary::lemma_pushed_wf;
use crate::intermediary::strip_garbage;
use crate::line_tokens::TokenView;
use crate::line_tokens::comment_texts_in;
use crate::line_tokens::comment_texts_upto;
use crate::render_queue_writer::after_end_rule;
use crate::render_queue_writer::lemma_after_end_rule_wf;
use crate::render_queue_writer::lemma_rendered_group_wf;
use crate::render_queue_writer::lemma_rendered_upto_wf;
use crate::render_queue_writer::rendered;
use crate::render_queue_writer::rendered_group;
use crate::render_queue_writer::rendered_token;
use crate::render_queue_writer::rendered_upto;
use crate::render_targets::GroupView;

verus! {

/// One step of the texts.
pub proof fn lemma_comment_texts_step(ts: Seq<TokenView>, n: nat)
    requires
        0 < n <= ts.len(),
    ensures
        comment_texts_upto(ts, n) == comment_texts_upto(ts, (n - 1) as nat) + ts[n
            - 1].comment_texts(),
{
}

/// The texts are those of the first `n` tokens only.
pub proof fn lemma_comment_texts_prefix(a: Seq<TokenView>, b: Seq<TokenView>, n: nat)
    requires
        n <= a.len(),
        n <= b.len(),
        forall|i: int| 0 <= i < n ==> a[i] == b[i],
    ensures
        comment_texts_upto(a, n) == comment_texts_upto(b, n),
    decreases n,
{
    if n > 0 {
        lemma_comment_texts_prefix(a, b, (n - 1) as nat);
        lemma_comment_texts_step(a, n);
        lemma_comment_texts_step(b, n);
    }
}

/// The comments of two sequences one after another are those of the one,
/// then those of the other.
pub proof fn lemma_comment_texts_concat(a: Seq<TokenView>, b: Seq<TokenView>)
    ensures
        comment_texts_in(a + b) == comment_texts_in(a) + comment_texts_in(b),
    decreases b.len(),
{
    if b.len() == 0 {
        assert(a + b =~= a);
        assert(comment_texts_in(a) + comment_texts_in(b) =~= comment_texts_in(a));
    } else {
        let c = a + b;
        lemma_comment_texts_step(c, c.len());
        lemma_comment_texts_step(b, b.len());
        lemma_comment_texts_concat(a, b.drop_last());
        lemma_comment_texts_prefix(c, a + b.drop_last(), (c.len() - 1) as nat);
        lemma_comment_texts_prefix(b, b.drop_last(), (b.len() - 1) as nat);
        assert((a + b.drop_last()).len() == c.len() - 1);
        assert(c[c.len() - 1] == b[b.len() - 1]);
        assert(comment_texts_in(c) =~= comment_texts_in(a) + comment_texts_in(b));
    }
}

/// A sequence of one token holds the comments of that token.
pub proof fn lemma_comment_texts_one(t: TokenView)
    ensures
        comment_texts_in(seq![t]) == t.comment_texts(),
{
    lemma_comment_texts_step(seq![t], 1);
    assert(comment_texts_in(seq![t]) =~= t.comment_texts());
}

/// Appending a token puts its comments last.
pub proof fn lemma_comment_texts_push(ts: Seq<TokenView>, t: TokenView)
    ensures
        comment_texts_in(ts.push(t)) == comment_texts_in(ts) + t.comment_texts(),
{
    lemma_comment_texts_concat(ts, seq![t]);
    lemma_comment_texts_one(t);
    assert(ts.push(t) =~= ts + seq![t]);
}

/// Inserting a token that holds no comment changes neither the comments nor
/// their order.
pub proof fn lemma_comment_texts_insert(ts: Seq<TokenView>, idx: int, t: TokenView)
    requires
        0 <= idx <= ts.len(),
        t.comment_texts() == Seq::<Seq<char>>::empty(),
    ensures
        comment_texts_in(ts.insert(idx, t)) == comment_texts_in(ts),
{
    let head = ts.subrange(0, idx);
    let tail = ts.subrange(idx, ts.len() as int);
    lemma_comment_texts_push(head, t);
    lemma_comment_texts_concat(head.push(t), tail);
    lemma_comment_texts_concat(head, tail);
    assert(head + tail =~= ts);
    assert(ts.insert(idx, t) =~= head.push(t) + tail);
    assert(comment_texts_in(head) + t.comment_texts() =~= comment_texts_in(head));
}

/// Removing a token that holds no comment changes neither the comments nor
/// their order.
pub proof fn lemma_comment_texts_remove(ts: Seq<TokenView>, idx: int)
    requires
        0 <= idx < ts.len(),
        ts[idx].comment_texts() == Seq::<Seq<char>>::empty(),
    ensures
        comment_texts_in(ts.remove(idx)) == comment_texts_in(ts),
{
    lemma_comment_texts_insert(ts.remove(idx), idx, ts[idx]);
    assert(ts.remove(idx).insert(idx, ts[idx]) =~= ts);
}

/// Taking the separators out before the last token touches no comment.
pub proof fn lemma_comment_texts_strip_garbage(ts: Seq<TokenView>)
    ensures
        comment_texts_in(strip_garbage(ts)) == comment_texts_in(ts),
    decreases ts.len(),
{
    if ts.len() >= 2 && ts[ts.len() - 2].is_single_line_breakable_garbage() {
        lemma_comment_texts_remove(ts, ts.len() - 2);
        lemma_comment_texts_strip_garbage(ts.remove(ts.len() - 2));
    }
}

/// Putting a blank line in touches no comment.
pub proof fn lemma_blank_line_keeps_comment_texts(s: IntermediaryView, wanted: bool)
    requires
        wanted ==> 0 <= s.index_of_last_hard_newline <= s.tokens.len(),
    ensures
        comment_texts_in(s.blank_line_if(wanted).tokens) == comment_texts_in(s.tokens),
{
    if wanted && !s.blank_line_in_place() {
        lemma_comment_texts_insert(s.tokens, s.index_of_last_hard_newline, TokenView::HardNewLine);
    }
}

/// The blank-line pass hands a token on with its comments: what it does to
/// the stream are hard newlines put in and left out.
pub proof fn lemma_pushed_keeps_comment_texts(s: IntermediaryView, t: TokenView)
    requires
        s.wf(),
    ensures
        comment_texts_in(s.pushed(t).tokens) == comment_texts_in(s.tokens) + t.comment_texts(),
{
    match t {
        TokenView::HardNewLine => {
            let a = s.blank_line_if(s.ends_require_block());
            lemma_blank_line_keeps_comment_texts(s, s.ends_require_block());
            lemma_comment_texts_push(a.tokens, t);
            assert(comment_texts_in(s.tokens) + t.comment_texts() =~= comment_texts_in(s.tokens));
        },
        TokenView::ModuleKeyword | TokenView::ClassKeyword => {
            let a = s.blank_line_if(s.follows_unindented_line());
            lemma_blank_line_keeps_comment_texts(s, s.follows_unindented_line());
            lemma_comment_texts_push(a.tokens, t);
        },
        TokenView::DoKeyword => {
            let b = s.with_current(
                crate::line_metadata::LineFlags { do_keyword: true, ..s.current },
            );
            lemma_blank_line_keeps_comment_texts(b, s.follows_plain_line());
            lemma_comment_texts_push(b.blank_line_if(s.follows_plain_line()).tokens, t);
        },
        TokenView::ConditionalKeyword { contents } => {
            let b = s.with_current(
                crate::line_metadata::LineFlags { conditional: true, ..s.current },
            );
            let wanted = s.follows_plain_line() && contents == "if"@;
            lemma_blank_line_keeps_comment_texts(b, wanted);
            lemma_comment_texts_push(b.blank_line_if(wanted).tokens, t);
        },
        _ => {
            lemma_comment_texts_push(s.tokens, t);
        },
    }
}

/// The rule that follows every token touches no comment.
pub proof fn lemma_after_end_rule_keeps_comment_texts(s: IntermediaryView)
    requires
        s.wf(),
    ensures
        comment_texts_in(after_end_rule(s).tokens) == comment_texts_in(s.tokens),
{
    if s.closes_block_before_last() {
        let n = s.tokens.len() as int;
        assert(s.tokens[n - 3] is HardNewLine);
        assert(s.index_of_last_hard_newline >= n - 3);
    }
    lemma_blank_line_keeps_comment_texts(s, s.closes_block_before_last());
}

/// Resolving one token puts its comments behind those of the stream, in
/// their order.
pub proof fn lemma_rendered_token_keeps_comment_texts(
    s: IntermediaryView,
    t: TokenView,
    multi_line: bool,
)
    requires
        s.wf(),
    ensures
        comment_texts_in(rendered_token(s, t, multi_line).tokens) == comment_texts_in(s.tokens)
            + t.comment_texts(),
    decreases t,
{
    match t {
        TokenView::BreakableEntry(g) => {
            lemma_rendered_group_keeps_comment_texts(s, g);
            lemma_rendered_group_wf(s, g);
            lemma_after_end_rule_keeps_comment_texts(rendered_group(s, g));
        },
        x => {
            let y = if multi_line {
                x.multi_line()
            } else {
                x.single_line()
            };
            assert(y.comment_texts() == x.comment_texts());
            lemma_pushed_keeps_comment_texts(s, y);
            lemma_pushed_wf(s, y);
            lemma_after_end_rule_keeps_comment_texts(s.pushed(y));
        },
    }
}

/// Resolving a run of tokens puts their comments behind those of the
/// stream, in their order.
pub proof fn lemma_rendered_upto_keeps_comment_texts(
    s: IntermediaryView,
    ts: Seq<TokenView>,
    n: nat,
    multi_line: bool,
)
    requires
        s.wf(),
        n <= ts.len(),
    ensures
        comment_texts_in(rendered_upto(s, ts, n, multi_line).tokens) == comment_texts_in(s.tokens)
            + comment_texts_upto(ts, n),
    decreases ts, n,
{
    if n > 0 {
        lemma_rendered_upto_keeps_comment_texts(s, ts, (n - 1) as nat, multi_line);
        lemma_rendered_upto_wf(s, ts, (n - 1) as nat, multi_line);
        lemma_rendered_token_keeps_comment_texts(
            rendered_upto(s, ts, (n - 1) as nat, multi_line),
            ts[n - 1],
            multi_line,
        );
        assert(comment_texts_in(s.tokens) + comment_texts_upto(ts, (n - 1) as nat) + ts[n
            - 1].comment_texts() =~= comment_texts_in(s.tokens) + comment_texts_upto(ts, n));
    } else {
        assert(comment_texts_in(s.tokens) + comment_texts_upto(ts, n) =~= comment_texts_in(
            s.tokens,
        ));
    }
}

/// Resolving a group puts the comments of its children behind those of the
/// stream, in their order.
pub proof fn lemma_rendered_group_keeps_comment_texts(s: IntermediaryView, g: GroupView)
    requires
        s.wf(),
    ensures
        comment_texts_in(rendered_group(s, g).tokens) == comment_texts_in(s.tokens)
            + comment_texts_in(g.tokens),
    decreases g,
{
    let multi_line = g.renders_multi_line();
    let open = TokenView::Delim { contents: g.delims.open_for(multi_line) };
    let close = TokenView::Delim { contents: g.delims.close_for(multi_line) };
    let none = Seq::<Seq<char>>::empty();
    lemma_pushed_keeps_comment_texts(s, open);
    lemma_pushed_wf(s, open);
    lemma_after_end_rule_keeps_comment_texts(s.pushed(open));
    lemma_after_end_rule_wf(s.pushed(open));
    let opened = after_end_rule(s.pushed(open));
    assert(comment_texts_in(opened.tokens) =~= comment_texts_in(s.tokens)) by {
        assert(open.comment_texts() == none);
    }
    lemma_rendered_upto_keeps_comment_texts(opened, g.tokens, g.tokens.len(), multi_line);
    lemma_rendered_upto_wf(opened, g.tokens, g.tokens.len(), multi_line);
    let filled = rendered_upto(opened, g.tokens, g.tokens.len(), multi_line);
    lemma_pushed_keeps_comment_texts(filled, close);
    lemma_pushed_wf(filled, close);
    lemma_after_end_rule_keeps_comment_texts(filled.pushed(close));
    let closed = after_end_rule(filled.pushed(close));
    assert(comment_texts_in(closed.tokens) =~= comment_texts_in(filled.tokens)) by {
        assert(close.comment_texts() == none);
    }
    if !multi_line {
        lemma_comment_texts_strip_garbage(closed.tokens);
    }
}

/// The final stream holds the comments of the emitted tokens with their
/// texts and in their order: the layout resolver and the blank-line pass
/// neither lose, double, change nor reorder a comment.
pub proof fn lemma_rendering_keeps_comment_order(ts: Seq<TokenView>)
    ensures
        comment_texts_in(rendered(ts)) == comment_texts_in(ts),
{
    lemma_rendered_upto_keeps_comment_texts(IntermediaryView::empty(), ts, ts.len(), true);
    assert(comment_texts_in(IntermediaryView::empty().tokens) =~= Seq::<Seq<char>>::empty());
    assert(Seq::<Seq<char>>::empty() + comment_texts_in(ts) =~= comment_texts_in(ts));
}

} // verus!

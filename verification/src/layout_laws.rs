//! What a group on one line looks like in the final stream, and how wide
//! it is there.
use vstd::prelude::*;
use crate::blank_line_laws::lemma_step_shape;
use crate::blank_line_laws::one_line;
use crate::blank_line_laws::step;
use crate::intermediary::lemma_cleared_of_garbage_wf;
use crate::intermediary::lemma_strip_garbage;
use crate::intermediary::strip_garbage;
use crate::intermediary::IntermediaryView;
use crate::line_tokens::lemma_single_line_text_step;
use crate::line_tokens::single_line_text_upto;
use crate::line_tokens::text_of;
use crate::line_tokens::text_upto;
use crate::line_tokens::TokenView;
use crate::render_queue_writer::after_end_rule;
use crate::render_queue_writer::lemma_group_text_width;
use crate::render_queue_writer::rendered_group;
use crate::render_queue_writer::rendered_token;
use crate::render_queue_writer::rendered_upto;
use crate::render_queue_writer::MAX_LINE_LENGTH;
use crate::render_targets::GroupView;
use crate::text::byte_len;
use crate::text::lemma_byte_len_concat;

verus! {

impl TokenView {
    /// The token can stand in a group that stays on one line: it is no hard
    /// newline, and if it is a group, that group stays on one line too.
    pub open spec fn stays_on_line(self) -> bool
        decreases self,
    {
        match self {
            TokenView::HardNewLine => false,
            TokenView::BreakableEntry(g) => !g.renders_multi_line() && all_stay_on_line(
                g.tokens,
                g.tokens.len(),
            ),
            _ => true,
        }
    }

    /// The tokens that stand for this token in the final stream, when it
    /// stands in a group on one line.
    pub open spec fn on_one_line(self) -> Seq<TokenView>
        decreases self,
    {
        match self {
            TokenView::BreakableEntry(g) => strip_garbage(
                seq![TokenView::Delim { contents: g.delims.single_open }] + on_one_line_upto(
                    g.tokens,
                    g.tokens.len(),
                ) + seq![TokenView::Delim { contents: g.delims.single_close }],
            ),
            x => seq![x.single_line()],
        }
    }
}

/// The first `n` tokens of `ts` can stand in a group that stays on one line.
pub open spec fn all_stay_on_line(ts: Seq<TokenView>, n: nat) -> bool
    decreases ts, n,
{
    n == 0 || n > ts.len() || (all_stay_on_line(ts, (n - 1) as nat) && ts[n - 1].stays_on_line())
}

/// The tokens that stand for the first `n` tokens of `ts` in the final
/// stream.
pub open spec fn on_one_line_upto(ts: Seq<TokenView>, n: nat) -> Seq<TokenView>
    decreases ts, n,
{
    if n == 0 || n > ts.len() {
        Seq::empty()
    } else {
        on_one_line_upto(ts, (n - 1) as nat) + ts[n - 1].on_one_line()
    }
}

impl GroupView {
    /// The group stays on one line, with everything in it.
    pub open spec fn stays_on_line(self) -> bool {
        TokenView::BreakableEntry(self).stays_on_line()
    }

    /// The tokens that stand for the group in the final stream: its
    /// delimiters round what stands for its children, without the
    /// separators before the close delimiter.
    pub open spec fn on_one_line(self) -> Seq<TokenView> {
        TokenView::BreakableEntry(self).on_one_line()
    }
}

/// State `after` holds what state `before` held and `run` behind it, and
/// at most one blank line more, at the boundary of `before`.
pub open spec fn appends(before: IntermediaryView, after: IntermediaryView, run: Seq<TokenView>) -> bool {
    let i = before.index_of_last_hard_newline;
    &&& after.wf()
    &&& one_line(run)
    &&& {
        ||| {
            &&& after.tokens == before.tokens + run
            &&& after.index_of_last_hard_newline == i
        }
        ||| {
            &&& before.has_boundary()
            &&& !before.blank_line_in_place()
            &&& after.tokens == before.tokens.insert(i, TokenView::HardNewLine) + run
            &&& after.index_of_last_hard_newline == i + 1
        }
    }
}

/// A state appends nothing to itself.
pub proof fn lemma_appends_nothing(s: IntermediaryView)
    requires
        s.wf(),
    ensures
        appends(s, s, Seq::empty()),
{
    assert(s.tokens + Seq::<TokenView>::empty() =~= s.tokens);
}

/// Appending one run and then another is appending the two.
pub proof fn lemma_appends_twice(
    a: IntermediaryView,
    b: IntermediaryView,
    c: IntermediaryView,
    first: Seq<TokenView>,
    second: Seq<TokenView>,
)
    requires
        a.wf(),
        appends(a, b, first),
        appends(b, c, second),
    ensures
        appends(a, c, first + second),
{
    let hnl = TokenView::HardNewLine;
    let i = a.index_of_last_hard_newline;
    let j = b.index_of_last_hard_newline;
    if b.tokens == a.tokens + first && j == i {
        if c.tokens == b.tokens + second && c.index_of_last_hard_newline == j {
            assert(c.tokens =~= a.tokens + (first + second));
        } else {
            // the boundary of `b` is that of `a`: the first run holds no hard newline
            assert(b.tokens[j] is HardNewLine);
            assert(j < a.tokens.len()) by {
                if j >= a.tokens.len() {
                    assert(b.tokens[j] == first[j - a.tokens.len()]);
                }
            }
            assert(a.tokens[i] == b.tokens[i]);
            if i >= 1 {
                assert(a.tokens[i - 1] == b.tokens[i - 1]);
            }
            assert(c.tokens =~= a.tokens.insert(i, hnl) + (first + second));
        }
    } else {
        assert(b.tokens[j] is HardNewLine);
        assert(b.tokens[j - 1] is HardNewLine);
        assert(b.blank_line_in_place());
        assert(c.tokens =~= a.tokens.insert(i, hnl) + (first + second));
    }
}

/// A step with a token that is no hard newline appends that token.
pub proof fn lemma_step_appends(s: IntermediaryView, t: TokenView)
    requires
        s.wf(),
        !(t is HardNewLine),
    ensures
        appends(s, step(s, t), seq![t]),
{
    lemma_step_shape(s, t);
    assert(s.tokens.push(t) =~= s.tokens + seq![t]);
    assert(s.tokens.insert(s.index_of_last_hard_newline, TokenView::HardNewLine).push(t)
        =~= s.tokens.insert(s.index_of_last_hard_newline, TokenView::HardNewLine) + seq![t]);
}

/// Separators are taken out of the end of a stream only: what stands before
/// a part that holds a token that is no separator before its last stays.
pub proof fn lemma_strip_garbage_behind(head: Seq<TokenView>, tail: Seq<TokenView>)
    requires
        tail.len() >= 2,
        !tail[0].is_single_line_breakable_garbage(),
    ensures
        strip_garbage(head + tail) == head + strip_garbage(tail),
        strip_garbage(tail).len() >= 2,
        strip_garbage(tail)[0] == tail[0],
    decreases tail.len(),
{
    let all = head + tail;
    let n = tail.len() as int;
    assert(all[all.len() - 2] == tail[n - 2]);
    if tail[n - 2].is_single_line_breakable_garbage() {
        assert(n >= 3);
        let rest = tail.remove(n - 2);
        assert(all.remove(all.len() - 2) =~= head + rest);
        assert(rest[0] == tail[0]);
        lemma_strip_garbage_behind(head, rest);
    }
}

/// A group on one line with everything in it is rendered as one run of
/// tokens: what came before it stays, but for one blank line that a rule
/// may put in before the line, and behind it stand the tokens of the group
/// on one line.
pub proof fn lemma_group_on_one_line(s: IntermediaryView, g: GroupView)
    requires
        s.wf(),
        g.stays_on_line(),
    ensures
        appends(s, rendered_group(s, g), g.on_one_line()),
        g.on_one_line().len() >= 2,
        g.on_one_line()[0] == (TokenView::Delim { contents: g.delims.single_open }),
        g.on_one_line().last() == (TokenView::Delim { contents: g.delims.single_close }),
    decreases g, 0nat,
{
    let open = TokenView::Delim { contents: g.delims.single_open };
    let close = TokenView::Delim { contents: g.delims.single_close };
    let n = g.tokens.len();
    lemma_step_appends(s, open);
    let opened = step(s, open);
    lemma_upto_on_one_line(opened, g.tokens, n);
    let filled = rendered_upto(opened, g.tokens, n, false);
    let body = on_one_line_upto(g.tokens, n);
    lemma_step_appends(filled, close);
    let closed = step(filled, close);
    lemma_appends_twice(s, opened, filled, seq![open], body);
    lemma_appends_twice(s, filled, closed, seq![open] + body, seq![close]);
    let run = seq![open] + body + seq![close];
    assert(appends(s, closed, run));
    // the separators before the close delimiter
    let head = if closed.tokens == s.tokens + run {
        s.tokens
    } else {
        s.tokens.insert(s.index_of_last_hard_newline, TokenView::HardNewLine)
    };
    assert(run[0] == open);
    assert(run.last() == close);
    lemma_strip_garbage_behind(head, run);
    lemma_strip_garbage(run);
    lemma_cleared_of_garbage_wf(closed);
    let out = strip_garbage(run);
    assert forall|k: int| 0 <= k < out.len() implies !(#[trigger] out[k] is HardNewLine) by {
        if k < out.len() - 1 {
            assert(out.drop_last()[k] == run.subrange(0, out.len() - 1)[k]);
            assert(out[k] == run[k]);
        }
    }
}

/// A token in a group on one line is rendered as one run of tokens.
pub proof fn lemma_token_on_one_line(s: IntermediaryView, t: TokenView)
    requires
        s.wf(),
        t.stays_on_line(),
    ensures
        appends(s, rendered_token(s, t, false), t.on_one_line()),
    decreases t, 1nat,
{
    match t {
        TokenView::BreakableEntry(g) => {
            lemma_group_on_one_line(s, g);
            lemma_idle_behind_group(s, rendered_group(s, g), g.on_one_line());
        },
        x => {
            assert(!(x.single_line() is HardNewLine));
            lemma_step_appends(s, x.single_line());
        },
    }
}

/// Behind a group on one line the rule that follows every token has nothing
/// to do: the last tokens are the delimiters of the group and what stands
/// between them, and no hard newline is among them.
pub proof fn lemma_idle_behind_group(s: IntermediaryView, r: IntermediaryView, run: Seq<TokenView>)
    requires
        appends(s, r, run),
        run.len() >= 2,
        run[0] is Delim,
        run.last() is Delim,
    ensures
        after_end_rule(r) == r,
{
    let m = r.tokens.len() as int;
    let k = run.len() as int;
    assert(r.tokens[m - 1] == run[k - 1]);
    assert(r.tokens[m - 2] == run[k - 2]);
    if k >= 3 {
        assert(r.tokens[m - 3] == run[k - 3]);
        assert(!(run[k - 3] is HardNewLine));
    }
    assert(!r.closes_block_before_last());
}

/// The children of a group on one line are rendered as one run of tokens.
pub proof fn lemma_upto_on_one_line(s: IntermediaryView, ts: Seq<TokenView>, n: nat)
    requires
        s.wf(),
        n <= ts.len(),
        all_stay_on_line(ts, n),
    ensures
        appends(s, rendered_upto(s, ts, n, false), on_one_line_upto(ts, n)),
    decreases ts, n,
{
    if n == 0 {
        lemma_appends_nothing(s);
    } else {
        lemma_upto_on_one_line(s, ts, (n - 1) as nat);
        let before = rendered_upto(s, ts, (n - 1) as nat, false);
        let t = ts[n - 1];
        lemma_token_on_one_line(before, t);
        lemma_appends_twice(
            s,
            before,
            rendered_token(before, t, false),
            on_one_line_upto(ts, (n - 1) as nat),
            t.on_one_line(),
        );
    }
}

/// The text of two streams one after another is the text of the one and
/// the text of the other.
pub proof fn lemma_text_of_concat(a: Seq<TokenView>, b: Seq<TokenView>)
    ensures
        text_of(a + b) == text_of(a) + text_of(b),
    decreases b.len(),
{
    if b.len() == 0 {
        assert(a + b =~= a);
        assert(text_of(a) + text_of(b) =~= text_of(a));
    } else {
        let c = a + b;
        let rest = b.drop_last();
        lemma_text_of_concat(a, rest);
        lemma_text_upto_prefix(c, a + rest, (c.len() - 1) as nat);
        lemma_text_upto_prefix(b, rest, (b.len() - 1) as nat);
        assert(c.last() == b.last());
        assert(text_of(c) == text_upto(c, (c.len() - 1) as nat) + c.last().text());
        assert(text_of(b) == text_upto(b, (b.len() - 1) as nat) + b.last().text());
        assert(text_of(a + rest) == text_upto(a + rest, (c.len() - 1) as nat));
        assert((text_of(a) + text_of(rest)) + b.last().text() =~= text_of(a) + (text_of(rest)
            + b.last().text()));
    }
}

/// The text of the first `n` tokens depends on those tokens only.
pub proof fn lemma_text_upto_prefix(a: Seq<TokenView>, b: Seq<TokenView>, n: nat)
    requires
        n <= a.len(),
        n <= b.len(),
        forall|i: int| 0 <= i < n ==> a[i] == b[i],
    ensures
        text_upto(a, n) == text_upto(b, n),
    decreases n,
{
    if n > 0 {
        lemma_text_upto_prefix(a, b, (n - 1) as nat);
    }
}

/// The text of one token as a stream is the text of the token.
pub proof fn lemma_text_of_one(t: TokenView)
    ensures
        text_of(seq![t]) == t.text(),
{
    assert(text_upto(seq![t], 0) =~= Seq::<char>::empty());
    assert(text_of(seq![t]) =~= t.text());
}

/// A stream without its separators before the last token is no wider than
/// the stream.
pub proof fn lemma_strip_garbage_width(ts: Seq<TokenView>)
    ensures
        byte_len(text_of(strip_garbage(ts))) <= byte_len(text_of(ts)),
    decreases ts.len(),
{
    if ts.len() >= 2 && ts[ts.len() - 2].is_single_line_breakable_garbage() {
        let i = ts.len() - 2;
        let rest = ts.remove(i);
        lemma_strip_garbage_width(rest);
        let head = ts.subrange(0, i);
        let tail = ts.subrange(i + 1, ts.len() as int);
        assert(ts =~= head + seq![ts[i]] + tail);
        assert(rest =~= head + tail);
        lemma_text_of_concat(head, seq![ts[i]]);
        lemma_text_of_concat(head + seq![ts[i]], tail);
        lemma_text_of_concat(head, tail);
        lemma_byte_len_concat(text_of(head), text_of(seq![ts[i]]));
        lemma_byte_len_concat(text_of(head) + text_of(seq![ts[i]]), text_of(tail));
        lemma_byte_len_concat(text_of(head), text_of(tail));
    }
}

/// What stands for a token of a group on one line is no wider than the
/// single-line text of the token.
pub proof fn lemma_token_width(t: TokenView)
    requires
        t.stays_on_line(),
    ensures
        byte_len(text_of(t.on_one_line())) <= byte_len(t.single_line_text()),
    decreases t, 1nat,
{
    match t {
        TokenView::BreakableEntry(g) => {
            lemma_group_width(g);
        },
        x => {
            lemma_text_of_one(x.single_line());
        },
    }
}

/// What stands for the children of a group on one line is no wider than
/// their single-line text.
pub proof fn lemma_upto_width(ts: Seq<TokenView>, n: nat)
    requires
        n <= ts.len(),
        all_stay_on_line(ts, n),
    ensures
        byte_len(text_of(on_one_line_upto(ts, n))) <= byte_len(single_line_text_upto(ts, n)),
    decreases ts, n,
{
    if n == 0 {
        assert(text_of(on_one_line_upto(ts, n)) =~= Seq::<char>::empty());
    } else {
        lemma_upto_width(ts, (n - 1) as nat);
        lemma_token_width(ts[n - 1]);
        lemma_single_line_text_step(ts, n);
        lemma_text_of_concat(on_one_line_upto(ts, (n - 1) as nat), ts[n - 1].on_one_line());
        lemma_byte_len_concat(
            text_of(on_one_line_upto(ts, (n - 1) as nat)),
            text_of(ts[n - 1].on_one_line()),
        );
        lemma_byte_len_concat(
            single_line_text_upto(ts, (n - 1) as nat),
            ts[n - 1].single_line_text(),
        );
    }
}

/// What stands for a group on one line is no wider than the text of the
/// group on one line.
pub proof fn lemma_group_width(g: GroupView)
    requires
        g.stays_on_line(),
    ensures
        byte_len(text_of(g.on_one_line())) <= byte_len(g.single_line_text()),
    decreases g, 0nat,
{
    let open = TokenView::Delim { contents: g.delims.single_open };
    let close = TokenView::Delim { contents: g.delims.single_close };
    let n = g.tokens.len();
    let body = on_one_line_upto(g.tokens, n);
    let run = seq![open] + body + seq![close];
    lemma_upto_width(g.tokens, n);
    lemma_strip_garbage_width(run);
    lemma_text_of_concat(seq![open], body);
    lemma_text_of_concat(seq![open] + body, seq![close]);
    lemma_text_of_one(open);
    lemma_text_of_one(close);
    lemma_byte_len_concat(g.delims.single_open, text_of(body));
    lemma_byte_len_concat(g.delims.single_open + text_of(body), g.delims.single_close);
    let text = single_line_text_upto(g.tokens, n);
    lemma_byte_len_concat(g.delims.single_open, text);
    lemma_byte_len_concat(g.delims.single_open + text, g.delims.single_close);
}

/// The width of a group on one line in the final stream: the tokens that
/// stand for it spell at most its two delimiters and `MAX_LINE_LENGTH`
/// bytes between them.
pub proof fn lemma_one_line_group_width(g: GroupView)
    requires
        g.stays_on_line(),
    ensures
        byte_len(text_of(g.on_one_line())) <= byte_len(g.delims.single_open) + MAX_LINE_LENGTH
            + byte_len(g.delims.single_close),
{
    lemma_group_width(g);
    lemma_group_text_width(g);
}

} // verus!

//! The blank-line pass is idempotent: sent through the pass a second time,
//! its own output comes out as it went in.
use vstd::prelude::*;
use crate::intermediary::IntermediaryView;
use crate::intermediary::lemma_insert_trailing_blankline_wf;
use crate::intermediary::lemma_pushed_wf;
use crate::line_metadata::LineFlags;
use crate::line_tokens::TokenView;
use crate::render_queue_writer::after_end_rule;
use crate::render_queue_writer::lemma_after_end_rule_wf;
use crate::render_queue_writer::lemma_rendered_step;
use crate::render_queue_writer::rendered;
use crate::render_queue_writer::rendered_upto;

verus! {

/// A stream without groups: what the layout resolver hands to the
/// blank-line pass.
pub open spec fn flat(ts: Seq<TokenView>) -> bool {
    forall|i: int| 0 <= i < ts.len() ==> !(#[trigger] ts[i] is BreakableEntry)
}

/// One step of the pass on a flat stream: the token goes through, and the
/// rule that follows every token is applied.
pub open spec fn step(s: IntermediaryView, t: TokenView) -> IntermediaryView {
    after_end_rule(s.pushed(t))
}

/// The state after the tokens of `ts` went through the pass from state `s`.
pub open spec fn passed(s: IntermediaryView, ts: Seq<TokenView>) -> IntermediaryView
    decreases ts.len(),
{
    if ts.len() == 0 {
        s
    } else {
        step(passed(s, ts.drop_last()), ts.last())
    }
}

/// The output of the blank-line pass on the flat stream `ts`.
pub open spec fn post_processed(ts: Seq<TokenView>) -> Seq<TokenView> {
    passed(IntermediaryView::empty(), ts).tokens
}

/// On a flat stream, resolving is passing.
pub proof fn lemma_rendered_flat(s: IntermediaryView, ts: Seq<TokenView>, n: nat)
    requires
        flat(ts),
        n <= ts.len(),
    ensures
        rendered_upto(s, ts, n, true) == passed(s, ts.take(n as int)),
    decreases n,
{
    if n > 0 {
        lemma_rendered_flat(s, ts, (n - 1) as nat);
        lemma_rendered_step(s, ts, n, true);
        assert(ts.take(n as int).drop_last() =~= ts.take(n - 1));
        assert(ts.take(n as int).last() == ts[n - 1]);
        assert(!(ts[n - 1] is BreakableEntry));
    }
}

/// Passing two streams one after the other is passing their concatenation.
pub proof fn lemma_passed_concat(s: IntermediaryView, a: Seq<TokenView>, b: Seq<TokenView>)
    ensures
        passed(s, a + b) == passed(passed(s, a), b),
    decreases b.len(),
{
    if b.len() == 0 {
        assert(a + b =~= a);
    } else {
        lemma_passed_concat(s, a, b.drop_last());
        assert((a + b).drop_last() =~= a + b.drop_last());
        assert((a + b).last() == b.last());
    }
}

/// Passing one more token is one more step.
pub proof fn lemma_passed_push(s: IntermediaryView, a: Seq<TokenView>, t: TokenView)
    ensures
        passed(s, a.push(t)) == step(passed(s, a), t),
{
    assert(a.push(t).drop_last() =~= a);
}

/// Every step keeps the invariant of the pass.
pub proof fn lemma_step_wf(s: IntermediaryView, t: TokenView)
    requires
        s.wf(),
    ensures
        step(s, t).wf(),
{
    lemma_pushed_wf(s, t);
    lemma_after_end_rule_wf(s.pushed(t));
}

/// Passing a stream keeps the invariant of the pass.
pub proof fn lemma_passed_wf(s: IntermediaryView, ts: Seq<TokenView>)
    requires
        s.wf(),
    ensures
        passed(s, ts).wf(),
    decreases ts.len(),
{
    if ts.len() > 0 {
        lemma_passed_wf(s, ts.drop_last());
        lemma_step_wf(passed(s, ts.drop_last()), ts.last());
    }
}

/// Two states that the pass cannot tell apart: they hold the same stream,
/// the same boundary and the same flags of the current line, and the same
/// flags of the previous line unless a blank line stands at the boundary,
/// in which case those flags decide nothing.
pub open spec fn agrees(x: IntermediaryView, y: IntermediaryView) -> bool {
    &&& x.tokens == y.tokens
    &&& x.index_of_last_hard_newline == y.index_of_last_hard_newline
    &&& x.current == y.current
    &&& x.blank_line_in_place() || x.previous == y.previous
}

/// The flags of the current line after a token that is no hard newline.
pub open spec fn flags_after(current: LineFlags, behind_indent: bool, t: TokenView) -> LineFlags {
    match t {
        TokenView::DoKeyword => LineFlags { do_keyword: true, ..current },
        TokenView::ConditionalKeyword { .. } => LineFlags { conditional: true, ..current },
        TokenView::End => LineFlags { end: true, ..current },
        TokenView::DefKeyword => LineFlags { def: true, ..current },
        TokenView::Indent { depth } => LineFlags { indent_level: Some(depth), ..current },
        TokenView::DirectPart { part } => if part == "require"@ && behind_indent {
            LineFlags { require: true, ..current }
        } else {
            current
        },
        _ => current,
    }
}

/// Whether the last token of the stream is an indent.
pub open spec fn ends_with_indent(ts: Seq<TokenView>) -> bool {
    ts.len() > 0 && ts.last().is_indent()
}

/// The flags of a line that holds the tokens of `l`.
pub open spec fn line_flags(l: Seq<TokenView>) -> LineFlags
    decreases l.len(),
{
    if l.len() == 0 {
        LineFlags::fresh()
    } else {
        flags_after(line_flags(l.drop_last()), ends_with_indent(l.drop_last()), l.last())
    }
}

/// No token of `l` is a hard newline.
pub open spec fn one_line(l: Seq<TokenView>) -> bool {
    forall|i: int| 0 <= i < l.len() ==> !(#[trigger] l[i] is HardNewLine)
}

/// A step with a token that is no hard newline appends the token, behind a
/// blank line put in at the boundary or not, and updates the flags of the
/// current line.
pub proof fn lemma_step_shape(s: IntermediaryView, t: TokenView)
    requires
        s.wf(),
        !(t is HardNewLine),
    ensures
        step(s, t).wf(),
        step(s, t).current == flags_after(s.current, ends_with_indent(s.tokens), t),
        step(s, t).tokens.len() > 0,
        step(s, t).tokens.last() == t,
        step(s, t).has_boundary() == s.has_boundary(),
        ({
            ||| {
                &&& step(s, t).tokens == s.tokens.push(t)
                &&& step(s, t).index_of_last_hard_newline == s.index_of_last_hard_newline
            }
            ||| {
                &&& s.has_boundary()
                &&& !s.blank_line_in_place()
                &&& step(s, t).tokens == s.tokens.insert(
                    s.index_of_last_hard_newline,
                    TokenView::HardNewLine,
                ).push(t)
                &&& step(s, t).index_of_last_hard_newline == s.index_of_last_hard_newline + 1
                &&& step(s, t).blank_line_in_place()
            }
        }),
{
    lemma_step_wf(s, t);
    let p = s.pushed(t);
    lemma_pushed_wf(s, t);
    lemma_pushed_shape(s, t);
    if p.closes_block_before_last() {
        let n = p.tokens.len() as int;
        assert(p.tokens[n - 3] is HardNewLine);
        assert(p.index_of_last_hard_newline >= n - 3);
        lemma_insert_trailing_blankline_wf(p);
        if !p.blank_line_in_place() {
            let i = p.index_of_last_hard_newline;
            assert(p.index_of_last_hard_newline == s.index_of_last_hard_newline) by {
                if p.tokens != s.tokens.push(t) {
                    assert(p.blank_line_in_place());
                }
            }
            assert(p.tokens.insert(i, TokenView::HardNewLine) =~= s.tokens.insert(
                i,
                TokenView::HardNewLine,
            ).push(t));
        }
    }
}

/// What a token that is no hard newline does to the state, before the rule
/// that follows every token.
pub proof fn lemma_pushed_shape(s: IntermediaryView, t: TokenView)
    requires
        s.wf(),
        !(t is HardNewLine),
    ensures
        s.pushed(t).current == flags_after(s.current, ends_with_indent(s.tokens), t),
        s.pushed(t).has_boundary() == s.has_boundary(),
        ({
            ||| {
                &&& s.pushed(t).tokens == s.tokens.push(t)
                &&& s.pushed(t).index_of_last_hard_newline == s.index_of_last_hard_newline
            }
            ||| {
                &&& s.has_boundary()
                &&& !s.blank_line_in_place()
                &&& s.pushed(t).tokens == s.tokens.insert(
                    s.index_of_last_hard_newline,
                    TokenView::HardNewLine,
                ).push(t)
                &&& s.pushed(t).index_of_last_hard_newline == s.index_of_last_hard_newline + 1
                &&& s.pushed(t).blank_line_in_place()
            }
        }),
{
    match t {
        TokenView::ModuleKeyword | TokenView::ClassKeyword => {
            if s.follows_unindented_line() {
                lemma_insert_trailing_blankline_wf(s);
            }
        },
        TokenView::DoKeyword => {
            let a = s.with_current(LineFlags { do_keyword: true, ..s.current });
            if s.follows_plain_line() {
                lemma_insert_trailing_blankline_wf(a);
            }
        },
        TokenView::ConditionalKeyword { contents } => {
            let a = s.with_current(LineFlags { conditional: true, ..s.current });
            if s.follows_plain_line() && contents == "if"@ {
                lemma_insert_trailing_blankline_wf(a);
            }
        },
        _ => {},
    }
}

/// A hard newline resets the flags: whatever the flags of the previous line
/// were, the state after a hard newline is the same for two states that the
/// pass cannot tell apart.
pub proof fn lemma_step_congruent(x: IntermediaryView, y: IntermediaryView, t: TokenView)
    requires
        x.wf(),
        y.wf(),
        agrees(x, y),
    ensures
        agrees(step(x, t), step(y, t)),
{
    if !x.blank_line_in_place() {
        assert(x == y);
    } else {
        if t is HardNewLine {
            assert(x.blank_line_if(x.ends_require_block()) == x);
            assert(y.blank_line_if(y.ends_require_block()) == y);
            assert(x.pushed(t) == y.pushed(t));
        } else {
            lemma_step_shape(x, t);
            lemma_step_shape(y, t);
            let i = x.index_of_last_hard_newline;
            assert(step(x, t).tokens[i - 1] == x.tokens[i - 1]);
            assert(step(x, t).tokens[i] == x.tokens[i]);
        }
    }
}

/// Behind a blank line, a token that is no hard newline is appended and
/// nothing else happens to the stream.
pub proof fn lemma_step_behind_blank_line(x: IntermediaryView, t: TokenView)
    requires
        x.wf(),
        x.blank_line_in_place(),
        !(t is HardNewLine),
    ensures
        step(x, t).tokens == x.tokens.push(t),
        step(x, t).index_of_last_hard_newline == x.index_of_last_hard_newline,
        step(x, t).blank_line_in_place(),
        step(x, t).wf(),
        step(x, t).current == flags_after(x.current, ends_with_indent(x.tokens), t),
{
    lemma_step_shape(x, t);
    let i = x.index_of_last_hard_newline;
    assert(step(x, t).tokens[i - 1] == x.tokens[i - 1]);
    assert(step(x, t).tokens[i] == x.tokens[i]);
}

/// Behind a blank line, a whole line is appended and nothing else happens
/// to the stream.
pub proof fn lemma_passed_behind_blank_line(x: IntermediaryView, l: Seq<TokenView>)
    requires
        x.wf(),
        x.blank_line_in_place(),
        one_line(l),
    ensures
        passed(x, l).tokens == x.tokens + l,
        passed(x, l).index_of_last_hard_newline == x.index_of_last_hard_newline,
        passed(x, l).blank_line_in_place(),
        passed(x, l).wf(),
    decreases l.len(),
{
    if l.len() == 0 {
        assert(x.tokens + l =~= x.tokens);
    } else {
        let rest = l.drop_last();
        assert forall|i: int| 0 <= i < rest.len() implies !(#[trigger] rest[i] is HardNewLine) by {
            assert(rest[i] == l[i]);
        }
        lemma_passed_behind_blank_line(x, rest);
        lemma_step_behind_blank_line(passed(x, rest), l.last());
        assert((x.tokens + rest).push(l.last()) =~= x.tokens + l);
    }
}

/// The flags of the current line are those of its tokens: they do not
/// depend on what came before the line.
pub proof fn lemma_passed_line_flags(x: IntermediaryView, l: Seq<TokenView>)
    requires
        x.wf(),
        x.current == LineFlags::fresh(),
        !ends_with_indent(x.tokens),
        one_line(l),
    ensures
        passed(x, l).current == line_flags(l),
        l.len() > 0 ==> passed(x, l).tokens.len() > 0 && passed(x, l).tokens.last() == l.last(),
        passed(x, l).wf(),
    decreases l.len(),
{
    if l.len() > 0 {
        let rest = l.drop_last();
        assert forall|i: int| 0 <= i < rest.len() implies !(#[trigger] rest[i] is HardNewLine) by {
            assert(rest[i] == l[i]);
        }
        lemma_passed_line_flags(x, rest);
        lemma_step_shape(passed(x, rest), l.last());
        if rest.len() == 0 {
            assert(passed(x, rest) == x);
        }
    }
}

/// A hard newline behind a hard newline that has no blank line before it
/// is appended: the two make a blank line.
pub proof fn lemma_step_makes_blank_line(x: IntermediaryView)
    requires
        x.wf(),
        x.tokens.len() > 0,
        x.tokens.last() is HardNewLine,
        x.current == LineFlags::fresh(),
        !x.blank_line_in_place(),
    ensures
        step(x, TokenView::HardNewLine).tokens == x.tokens.push(TokenView::HardNewLine),
        step(x, TokenView::HardNewLine).index_of_last_hard_newline == x.tokens.len(),
        step(x, TokenView::HardNewLine).current == LineFlags::fresh(),
        step(x, TokenView::HardNewLine).blank_line_in_place(),
        step(x, TokenView::HardNewLine).wf(),
{
    let t = TokenView::HardNewLine;
    lemma_step_wf(x, t);
    let n = x.tokens.len() as int;
    assert(x.index_of_last_hard_newline == n - 1);
    if x.ends_require_block() {
        assert(x.tokens.insert(n - 1, t) =~= x.tokens.push(t));
    }
    let p = x.pushed(t);
    assert(p.tokens =~= x.tokens.push(t));
    assert(p.tokens[n - 1] is HardNewLine);
    assert(!p.closes_block_before_last());
}

/// A hard newline behind a blank line is dropped.
pub proof fn lemma_step_absorbed(x: IntermediaryView)
    requires
        x.wf(),
        x.blank_line_in_place(),
        x.index_of_last_hard_newline == x.tokens.len() - 1,
    ensures
        step(x, TokenView::HardNewLine).tokens == x.tokens,
        step(x, TokenView::HardNewLine).index_of_last_hard_newline
            == x.index_of_last_hard_newline,
        step(x, TokenView::HardNewLine).current == LineFlags::fresh(),
        step(x, TokenView::HardNewLine).blank_line_in_place(),
{
    let p = x.pushed(TokenView::HardNewLine);
    let n = x.tokens.len() as int;
    assert(p.tokens[n - 2] is HardNewLine);
    assert(!p.closes_block_before_last());
}

/// A hard newline at the end of a line that stands behind a blank line is
/// appended, and the flags of the line become those of the previous line.
pub proof fn lemma_step_ends_line_behind_blank_line(x: IntermediaryView)
    requires
        x.wf(),
        x.blank_line_in_place(),
        x.index_of_last_hard_newline < x.tokens.len() - 1,
    ensures
        x.pushed(TokenView::HardNewLine) == (IntermediaryView {
            tokens: x.tokens.push(TokenView::HardNewLine),
            index_of_last_hard_newline: x.tokens.len() as int,
            current: LineFlags::fresh(),
            previous: Some(x.current),
        }),
{
    let n = x.tokens.len() as int;
    assert(!(x.tokens[n - 1] is HardNewLine));
}

/// What a hard newline does to the state: it is appended, or dropped
/// behind a blank line, or appended twice over when it closes a block, or
/// appended behind a line before which a blank line is put in.
pub proof fn lemma_step_newline_shape(s: IntermediaryView)
    requires
        s.wf(),
    ensures
        ({
            let t = TokenView::HardNewLine;
            let s2 = step(s, t);
            &&& s2.wf()
            &&& s2.current == LineFlags::fresh()
            &&& s2.has_boundary()
            &&& s2.index_of_last_hard_newline == s2.tokens.len() - 1
            &&& {
                ||| s2.tokens == s.tokens.push(t)
                ||| {
                    &&& s2.tokens == s.tokens
                    &&& s.blank_line_in_place()
                    &&& s.index_of_last_hard_newline == s.tokens.len() - 1
                }
                ||| s2.tokens == s.tokens.push(t).push(t)
                ||| {
                    &&& s.has_boundary()
                    &&& !s.blank_line_in_place()
                    &&& s.index_of_last_hard_newline < s.tokens.len() - 1
                    &&& s.pushed(t) == (IntermediaryView {
                        tokens: s.tokens.insert(s.index_of_last_hard_newline, t).push(t),
                        index_of_last_hard_newline: (s.tokens.len() + 1) as int,
                        current: LineFlags::fresh(),
                        previous: Some(s.current),
                    })
                }
            }
        }),
{
    let t = TokenView::HardNewLine;
    lemma_step_wf(s, t);
    lemma_pushed_wf(s, t);
    let n = s.tokens.len() as int;
    let i = s.index_of_last_hard_newline;
    let a = s.blank_line_if(s.ends_require_block());
    if s.ends_require_block() {
        lemma_insert_trailing_blankline_wf(s);
    }
    let p = s.pushed(t);
    let m = a.tokens.len() as int;
    let dropped = m >= 2 && a.tokens[m - 2] is HardNewLine && a.tokens[m - 1] is HardNewLine;
    if a.tokens == s.tokens {
        if dropped {
            assert(a.index_of_last_hard_newline == m - 1);
            assert(!p.closes_block_before_last());
        } else {
            assert(p.tokens == s.tokens.push(t));
            if p.closes_block_before_last() {
                assert(!p.blank_line_in_place());
                assert(p.tokens.insert(n, t) =~= s.tokens.push(t).push(t));
            }
        }
    } else {
        // a blank line was put in before the line that ends here
        assert(a.tokens == s.tokens.insert(i, t));
        assert(a.tokens[i] is HardNewLine);
        assert(a.tokens[i + 1] is HardNewLine);
        if dropped {
            assert(a.tokens[m - 1] == s.tokens[n - 1]);
            assert(i == n - 1);
            assert(s.tokens.insert(i, t) =~= s.tokens.push(t));
            assert(!p.closes_block_before_last());
        } else {
            assert(i < n - 1) by {
                if i == n - 1 {
                    assert(a.tokens[m - 1] is HardNewLine);
                    assert(a.tokens[m - 2] is HardNewLine);
                }
            }
        }
    }
}

/// Where the current line starts: behind the last hard newline.
pub open spec fn line_start(s: IntermediaryView) -> int {
    if s.has_boundary() {
        s.index_of_last_hard_newline + 1
    } else {
        0
    }
}

/// The stream up to the start of the current line.
pub open spec fn settled_part(s: IntermediaryView) -> Seq<TokenView> {
    s.tokens.subrange(0, line_start(s))
}

/// The tokens of the current line.
pub open spec fn current_line(s: IntermediaryView) -> Seq<TokenView> {
    s.tokens.subrange(line_start(s), s.tokens.len() as int)
}

/// The stream of the state can be sent through the pass again and comes out
/// as it is: up to the start of the current line it is reproduced token by
/// token, and the current line leads to a state that the pass cannot tell
/// from this one.
pub open spec fn replayable(s: IntermediaryView) -> bool {
    let q = passed(IntermediaryView::empty(), settled_part(s));
    &&& s.wf()
    &&& q.tokens == settled_part(s)
    &&& s.has_boundary() ==> q.index_of_last_hard_newline == s.index_of_last_hard_newline
        && q.current == LineFlags::fresh()
    &&& agrees(passed(q, current_line(s)), s)
    &&& s.current == line_flags(current_line(s))
}

/// The current line holds no hard newline.
pub proof fn lemma_current_line_is_one_line(s: IntermediaryView)
    requires
        s.wf(),
    ensures
        one_line(current_line(s)),
        s.tokens == settled_part(s) + current_line(s),
        0 <= line_start(s) <= s.tokens.len(),
        ends_with_indent(s.tokens) == ends_with_indent(current_line(s)),
{
    let l = current_line(s);
    let b = line_start(s);
    assert forall|i: int| 0 <= i < l.len() implies !(#[trigger] l[i] is HardNewLine) by {
        assert(l[i] == s.tokens[b + i]);
    }
    assert(s.tokens =~= settled_part(s) + l);
    if l.len() == 0 && s.tokens.len() > 0 {
        assert(s.tokens.last() is HardNewLine);
    }
    if l.len() > 0 {
        assert(l.last() == s.tokens.last());
    }
}

/// The state before any token is replayable.
pub proof fn lemma_empty_replayable()
    ensures
        replayable(IntermediaryView::empty()),
{
    let s = IntermediaryView::empty();
    assert(settled_part(s) =~= Seq::<TokenView>::empty());
    assert(current_line(s) =~= Seq::<TokenView>::empty());
}

/// A step with a token that is no hard newline keeps a state replayable.
pub proof fn lemma_step_keeps_replayable(s: IntermediaryView, t: TokenView)
    requires
        replayable(s),
        !(t is HardNewLine),
    ensures
        replayable(step(s, t)),
{
    let empty = IntermediaryView::empty();
    let hnl = TokenView::HardNewLine;
    let s2 = step(s, t);
    let b = line_start(s);
    let p = settled_part(s);
    let l = current_line(s);
    let q = passed(empty, p);
    let i = s.index_of_last_hard_newline;
    lemma_step_shape(s, t);
    lemma_current_line_is_one_line(s);
    lemma_current_line_is_one_line(s2);
    lemma_passed_wf(empty, p);
    lemma_passed_wf(q, l);
    assert(line_flags(l.push(t)) == flags_after(line_flags(l), ends_with_indent(l), t)) by {
        assert(l.push(t).drop_last() =~= l);
    }
    if s2.tokens == s.tokens.push(t) && s2.index_of_last_hard_newline == i {
        assert(line_start(s2) == b);
        assert(settled_part(s2) =~= p);
        assert(current_line(s2) =~= l.push(t));
        lemma_passed_push(q, l, t);
        lemma_step_congruent(passed(q, l), s, t);
    } else {
        // a blank line was put in before the current line
        assert(s.tokens[i] is HardNewLine);
        assert(p.len() == i + 1);
        assert(p.last() == s.tokens[i]);
        assert(settled_part(s2) =~= p.push(hnl));
        assert(current_line(s2) =~= l.push(t));
        lemma_passed_push(empty, p, hnl);
        assert(!q.blank_line_in_place()) by {
            if i >= 1 {
                assert(q.tokens[i - 1] == s.tokens[i - 1]);
            }
        }
        lemma_step_makes_blank_line(q);
        let q2 = step(q, hnl);
        assert(q2 == passed(empty, settled_part(s2)));
        lemma_passed_behind_blank_line(q2, l);
        lemma_passed_line_flags(q2, l);
        lemma_passed_push(q2, l, t);
        lemma_step_behind_blank_line(passed(q2, l), t);
        assert((p.push(hnl) + l).push(t) =~= s.tokens.insert(i, hnl).push(t));
        assert(ends_with_indent(p.push(hnl) + l) == ends_with_indent(l)) by {
            if l.len() > 0 {
                assert((p.push(hnl) + l).last() == l.last());
            } else {
                assert(p.push(hnl) + l =~= p.push(hnl));
            }
        }
    }
}

/// A hard newline keeps a state replayable.
pub proof fn lemma_newline_keeps_replayable(s: IntermediaryView)
    requires
        replayable(s),
    ensures
        replayable(step(s, TokenView::HardNewLine)),
{
    let empty = IntermediaryView::empty();
    let hnl = TokenView::HardNewLine;
    let s2 = step(s, hnl);
    let p = settled_part(s);
    let l = current_line(s);
    let q = passed(empty, p);
    let i = s.index_of_last_hard_newline;
    let n = s.tokens.len() as int;
    lemma_step_newline_shape(s);
    lemma_current_line_is_one_line(s);
    lemma_passed_wf(empty, p);
    lemma_passed_wf(q, l);
    let r = passed(q, l);
    lemma_passed_concat(empty, p, l);
    assert(r == passed(empty, s.tokens));
    assert(line_start(s2) == s2.tokens.len());
    assert(settled_part(s2) =~= s2.tokens);
    assert(current_line(s2) =~= Seq::<TokenView>::empty());
    let q2 = passed(empty, s2.tokens);
    lemma_step_congruent(r, s, hnl);
    let x1 = step(r, hnl);
    lemma_step_wf(r, hnl);
    if s2.tokens == s.tokens.push(hnl) {
        lemma_passed_push(empty, s.tokens, hnl);
        assert(q2 == x1);
    } else if s2.tokens == s.tokens {
        assert(l =~= Seq::<TokenView>::empty());
        assert(r.blank_line_in_place());
    } else if s2.tokens == s.tokens.push(hnl).push(hnl) {
        lemma_passed_push(empty, s.tokens, hnl);
        lemma_passed_push(empty, s.tokens.push(hnl), hnl);
        assert(q2 == step(x1, hnl));
        let m = s2.tokens.len() as int;
        assert(x1.tokens[m - 1] is HardNewLine);
        assert(x1.tokens[m - 2] is HardNewLine);
        lemma_step_absorbed(x1);
    } else {
        // a blank line was put in before the line that ends here
        assert(s.tokens[i] is HardNewLine);
        assert(p.len() == i + 1);
        assert(p.last() == s.tokens[i]);
        lemma_passed_push(empty, p, hnl);
        assert(!q.blank_line_in_place()) by {
            if i >= 1 {
                assert(q.tokens[i - 1] == s.tokens[i - 1]);
            }
        }
        lemma_step_makes_blank_line(q);
        let y0 = step(q, hnl);
        lemma_passed_behind_blank_line(y0, l);
        lemma_passed_line_flags(y0, l);
        let y = passed(y0, l);
        assert(y.tokens =~= s.tokens.insert(i, hnl));
        lemma_step_ends_line_behind_blank_line(y);
        assert(y.pushed(hnl) == s.pushed(hnl));
        lemma_passed_concat(empty, p.push(hnl), l);
        assert(p.push(hnl) + l =~= s.tokens.insert(i, hnl));
        lemma_passed_push(empty, s.tokens.insert(i, hnl), hnl);
        assert(s2.tokens == s.tokens.insert(i, hnl).push(hnl)) by {
            let w = s.pushed(hnl);
            let k = w.tokens.len() as int;
            // the blank line stands before the line: no block closes here
            assert(w.tokens[i] is HardNewLine);
            assert(w.tokens[i + 1] is HardNewLine);
            if w.closes_block_before_last() {
                assert(w.tokens[k - 3] is HardNewLine);
                assert(w.tokens[k - 3] == s.tokens.insert(i, hnl)[k - 3]);
                if k - 3 > i + 1 {
                    assert(s.tokens.insert(i, hnl)[k - 3] == s.tokens[k - 4]);
                    assert(!(s.tokens[k - 4] is HardNewLine));
                } else if k - 3 == i + 1 {
                    assert(w.tokens[k - 4] is HardNewLine);
                } else {
                    assert(k - 3 <= i);
                    assert(i + 1 >= k - 2);
                    assert(i < n - 1);
                }
            }
        }
        assert(q2 == step(y, hnl));
        assert(q2 == s2);
    }
}

/// Every state that the pass reaches on a flat stream is replayable.
pub proof fn lemma_passed_replayable(ts: Seq<TokenView>)
    requires
        flat(ts),
    ensures
        replayable(passed(IntermediaryView::empty(), ts)),
    decreases ts.len(),
{
    if ts.len() == 0 {
        lemma_empty_replayable();
    } else {
        let rest = ts.drop_last();
        assert forall|i: int| 0 <= i < rest.len() implies !(#[trigger] rest[i] is BreakableEntry) by {
            assert(rest[i] == ts[i]);
        }
        lemma_passed_replayable(rest);
        if ts.last() is HardNewLine {
            lemma_newline_keeps_replayable(passed(IntermediaryView::empty(), rest));
            assert(ts.last() == TokenView::HardNewLine);
        } else {
            lemma_step_keeps_replayable(passed(IntermediaryView::empty(), rest), ts.last());
        }
    }
}

/// A step on a flat stream with a token that is no group leaves the stream
/// flat.
pub proof fn lemma_step_flat(s: IntermediaryView, t: TokenView)
    requires
        s.wf(),
        flat(s.tokens),
        !(t is BreakableEntry),
    ensures
        flat(step(s, t).tokens),
{
    let hnl = TokenView::HardNewLine;
    let i = s.index_of_last_hard_newline;
    let out = step(s, t).tokens;
    if t is HardNewLine {
        lemma_step_newline_shape(s);
        assert(t == hnl);
        assert forall|k: int| 0 <= k < out.len() implies !(#[trigger] out[k] is BreakableEntry) by {
            if out == s.tokens.push(hnl) {
                if k < s.tokens.len() {
                    assert(out[k] == s.tokens[k]);
                }
            } else if out == s.tokens {
            } else if out == s.tokens.push(hnl).push(hnl) {
                if k < s.tokens.len() {
                    assert(out[k] == s.tokens[k]);
                }
            } else {
                assert(out.last() is HardNewLine);
                let w = s.pushed(hnl).tokens;
                assert(w == s.tokens.insert(i, hnl).push(hnl));
                lemma_pushed_wf(s, hnl);
                lemma_after_end_rule_flat(s.pushed(hnl));
                assert forall|j: int| 0 <= j < w.len() implies !(#[trigger] w[j] is BreakableEntry) by {
                    if j < i {
                        assert(w[j] == s.tokens[j]);
                    } else if j > i && j < w.len() - 1 {
                        assert(w[j] == s.tokens[j - 1]);
                    }
                }
            }
        }
    } else {
        lemma_step_shape(s, t);
        assert forall|k: int| 0 <= k < out.len() implies !(#[trigger] out[k] is BreakableEntry) by {
            if out == s.tokens.push(t) {
                if k < s.tokens.len() {
                    assert(out[k] == s.tokens[k]);
                }
            } else {
                if k < i {
                    assert(out[k] == s.tokens[k]);
                } else if k > i && k < out.len() - 1 {
                    assert(out[k] == s.tokens[k - 1]);
                }
            }
        }
    }
}

/// The rule that follows every token leaves a flat stream flat.
pub proof fn lemma_after_end_rule_flat(s: IntermediaryView)
    requires
        s.wf(),
        flat(s.tokens),
    ensures
        flat(after_end_rule(s).tokens),
{
    let out = after_end_rule(s).tokens;
    let i = s.index_of_last_hard_newline;
    if s.closes_block_before_last() && !s.blank_line_in_place() {
        let n = s.tokens.len() as int;
        assert(s.tokens[n - 3] is HardNewLine);
        assert(i >= n - 3);
        assert forall|k: int| 0 <= k < out.len() implies !(#[trigger] out[k] is BreakableEntry) by {
            if k < i {
                assert(out[k] == s.tokens[k]);
            } else if k > i {
                assert(out[k] == s.tokens[k - 1]);
            }
        }
    }
}

/// The pass leaves a flat stream flat.
pub proof fn lemma_passed_flat(ts: Seq<TokenView>)
    requires
        flat(ts),
    ensures
        flat(post_processed(ts)),
        passed(IntermediaryView::empty(), ts).wf(),
    decreases ts.len(),
{
    if ts.len() > 0 {
        let rest = ts.drop_last();
        assert forall|i: int| 0 <= i < rest.len() implies !(#[trigger] rest[i] is BreakableEntry) by {
            assert(rest[i] == ts[i]);
        }
        lemma_passed_flat(rest);
        lemma_step_flat(passed(IntermediaryView::empty(), rest), ts.last());
        lemma_step_wf(passed(IntermediaryView::empty(), rest), ts.last());
    }
}

/// On a stream without groups the whole pipeline is the blank-line pass,
/// and rendering the final stream again changes nothing.
pub proof fn lemma_rendering_flat_idempotent(ts: Seq<TokenView>)
    requires
        flat(ts),
    ensures
        rendered(ts) == post_processed(ts),
        flat(rendered(ts)),
        rendered(rendered(ts)) == rendered(ts),
{
    lemma_rendered_flat(IntermediaryView::empty(), ts, ts.len());
    assert(ts.take(ts.len() as int) =~= ts);
    lemma_passed_flat(ts);
    let out = post_processed(ts);
    lemma_rendered_flat(IntermediaryView::empty(), out, out.len());
    assert(out.take(out.len() as int) =~= out);
    lemma_post_processing_idempotent(ts);
}

/// The blank-line pass is idempotent: its output, sent through the pass
/// again, comes out unchanged. Run a second time, the pass adds no blank
/// line and takes none away.
pub proof fn lemma_post_processing_idempotent(ts: Seq<TokenView>)
    requires
        flat(ts),
    ensures
        post_processed(post_processed(ts)) == post_processed(ts),
{
    let s = passed(IntermediaryView::empty(), ts);
    lemma_passed_replayable(ts);
    lemma_current_line_is_one_line(s);
    lemma_passed_concat(IntermediaryView::empty(), settled_part(s), current_line(s));
}

} // verus!

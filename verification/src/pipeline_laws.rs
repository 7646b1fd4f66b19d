//! The whole pipeline is stable: the final stream of any tokens, groups
//! included, comes out of the blank-line pass as it went in.
use vstd::prelude::*;
use crate::blank_line_laws::current_line;
use crate::blank_line_laws::flags_after;
use crate::blank_line_laws::flat;
use crate::blank_line_laws::lemma_current_line_is_one_line;
use crate::blank_line_laws::lemma_empty_replayable;
use crate::blank_line_laws::lemma_newline_keeps_replayable;
use crate::blank_line_laws::lemma_passed_concat;
use crate::blank_line_laws::lemma_passed_push;
use crate::blank_line_laws::lemma_passed_wf;
use crate::blank_line_laws::lemma_pushed_shape;
use crate::blank_line_laws::lemma_rendered_flat;
use crate::blank_line_laws::lemma_step_flat;
use crate::blank_line_laws::lemma_step_keeps_replayable;
use crate::blank_line_laws::lemma_step_newline_shape;
use crate::blank_line_laws::lemma_step_shape;
use crate::blank_line_laws::line_flags;
use crate::blank_line_laws::line_start;
use crate::blank_line_laws::one_line;
use crate::blank_line_laws::passed;
use crate::blank_line_laws::post_processed;
use crate::blank_line_laws::replayable;
use crate::blank_line_laws::settled_part;
use crate::blank_line_laws::step;
use crate::intermediary::IntermediaryView;
use crate::intermediary::lemma_cleared_of_garbage_wf;
use crate::intermediary::lemma_insert_trailing_blankline_wf;
use crate::intermediary::lemma_pushed_wf;
use crate::intermediary::lemma_strip_garbage;
use crate::intermediary::strip_garbage;
use crate::line_metadata::LineFlags;
use crate::line_tokens::TokenView;
use crate::render_queue_writer::after_end_rule;
use crate::render_queue_writer::lemma_after_end_rule_wf;
use crate::render_queue_writer::rendered;
use crate::render_queue_writer::rendered_group;
use crate::render_queue_writer::rendered_token;
use crate::render_queue_writer::rendered_upto;
use crate::render_targets::GroupView;

verus! {

/// A block closes at index `k - 3` of `ts` and the token at `k`, which
/// stands behind the indent of the next line, wants to be set off from it.
pub open spec fn closes_block_at(ts: Seq<TokenView>, k: int) -> bool {
    &&& 3 <= k < ts.len()
    &&& ts[k - 3] is End
    &&& ts[k - 2] is HardNewLine
    &&& ts[k - 1] is Indent
    &&& ts[k].is_in_need_of_a_trailing_blankline()
    &&& !(ts[k] is HardNewLine)
}

/// Up to index `n`, every closed block is set off from what follows it.
pub open spec fn blocks_attended_upto(ts: Seq<TokenView>, n: int) -> bool {
    forall|k: int| 3 <= k < n ==> !#[trigger] closes_block_at(ts, k)
}

/// Every closed block is set off from what follows it.
pub open spec fn blocks_attended(ts: Seq<TokenView>) -> bool {
    blocks_attended_upto(ts, ts.len() as int)
}

/// Appending a token leaves the closed blocks before it attended.
pub proof fn lemma_attended_push(ts: Seq<TokenView>, t: TokenView)
    requires
        blocks_attended(ts),
    ensures
        blocks_attended_upto(ts.push(t), ts.len() as int),
        !closes_block_at(ts.push(t), ts.len() as int) ==> blocks_attended(ts.push(t)),
{
    let out = ts.push(t);
    assert forall|k: int| 3 <= k < ts.len() implies !#[trigger] closes_block_at(out, k) by {
        assert(!closes_block_at(ts, k));
    }
}

/// A hard newline put in before a hard newline leaves the closed blocks
/// attended.
pub proof fn lemma_attended_insert(ts: Seq<TokenView>, i: int, n: int)
    requires
        0 <= i < n <= ts.len(),
        ts[i] is HardNewLine,
        blocks_attended_upto(ts, n),
    ensures
        blocks_attended_upto(ts.insert(i, TokenView::HardNewLine), n + 1),
{
    let out = ts.insert(i, TokenView::HardNewLine);
    assert forall|k: int| 3 <= k < n + 1 implies !#[trigger] closes_block_at(out, k) by {
        if k < i {
            assert(!closes_block_at(ts, k));
        } else if k - 3 > i {
            assert(!closes_block_at(ts, k - 1));
            assert(out[k] == ts[k - 1]);
            assert(out[k - 1] == ts[k - 2]);
            assert(out[k - 2] == ts[k - 3]);
            assert(out[k - 3] == ts[k - 4]);
        } else if i == k {
            assert(out[k] is HardNewLine);
        } else if i == k - 1 {
            assert(out[k - 1] is HardNewLine);
        } else if i == k - 2 {
            assert(out[k - 1] == ts[i]);
        } else {
            assert(out[k - 3] is HardNewLine);
        }
    }
}

/// The rule that follows every token leaves the closed blocks attended.
pub proof fn lemma_after_end_rule_attended(s: IntermediaryView)
    requires
        s.wf(),
        blocks_attended_upto(s.tokens, s.tokens.len() - 1),
    ensures
        blocks_attended(after_end_rule(s).tokens),
{
    let m = s.tokens.len() as int;
    let out = after_end_rule(s).tokens;
    if s.closes_block_before_last() {
        assert(s.tokens[m - 3] is HardNewLine);
        let i = s.index_of_last_hard_newline;
        assert(i >= m - 3);
        if s.tokens[m - 1] is HardNewLine {
            assert(i == m - 1);
            assert(!closes_block_at(s.tokens, m - 1));
            if !s.blank_line_in_place() {
                lemma_attended_insert(s.tokens, i, m);
            }
        } else {
            assert(i == m - 3);
            assert(!s.blank_line_in_place());
            lemma_attended_insert(s.tokens, i, m - 1);
            assert(out[m - 3] is HardNewLine);
            assert(!closes_block_at(out, m));
        }
    } else {
        assert(!closes_block_at(s.tokens, m - 1));
    }
}

/// Every step of the pass leaves the closed blocks attended.
pub proof fn lemma_step_attended(s: IntermediaryView, t: TokenView)
    requires
        s.wf(),
        blocks_attended(s.tokens),
    ensures
        blocks_attended(step(s, t).tokens),
{
    let hnl = TokenView::HardNewLine;
    let i = s.index_of_last_hard_newline;
    let n = s.tokens.len() as int;
    let p = s.pushed(t);
    lemma_pushed_wf(s, t);
    if t is HardNewLine {
        assert(t == hnl);
        lemma_step_newline_shape(s);
        let a = s.blank_line_if(s.ends_require_block());
        if s.ends_require_block() {
            lemma_insert_trailing_blankline_wf(s);
            if !s.blank_line_in_place() {
                lemma_attended_insert(s.tokens, i, n);
            }
        }
        assert(blocks_attended(a.tokens));
        if p.tokens != a.tokens {
            lemma_attended_push(a.tokens, hnl);
        }
        assert(blocks_attended(p.tokens));
        lemma_after_end_rule_attended(p);
    } else {
        lemma_pushed_shape(s, t);
        if p.tokens == s.tokens.push(t) {
            lemma_attended_push(s.tokens, t);
        } else {
            lemma_attended_insert(s.tokens, i, n);
            lemma_attended_push(s.tokens.insert(i, hnl), t);
        }
        lemma_after_end_rule_attended(p);
    }
}

/// Taking the separators out before a close delimiter leaves the closed
/// blocks attended.
pub proof fn lemma_cleared_attended(s: IntermediaryView)
    requires
        s.tokens.len() > 0,
        s.tokens.last() is Delim,
        blocks_attended(s.tokens),
    ensures
        blocks_attended(s.cleared_of_garbage().tokens),
{
    let ts = s.tokens;
    let out = strip_garbage(ts);
    lemma_strip_garbage(ts);
    let k0 = out.len() - 1;
    assert forall|j: int| 0 <= j < k0 implies out[j] == ts[j] by {
        assert(out.drop_last()[j] == ts.subrange(0, k0)[j]);
    }
    assert forall|k: int| 3 <= k < out.len() implies !#[trigger] closes_block_at(out, k) by {
        if k < k0 {
            assert(!closes_block_at(ts, k));
        } else if out.len() < ts.len() {
            // the first separator that was taken out stood at this index
            assert(ts[k].is_single_line_breakable_garbage());
            assert(!closes_block_at(ts, k));
            lemma_garbage_wants_blank_line(ts[k]);
        } else {
            assert(out =~= ts);
        }
    }
}

/// A separator wants to be set off from a closed block like any token that
/// closes no block.
pub proof fn lemma_garbage_wants_blank_line(t: TokenView)
    requires
        t.is_single_line_breakable_garbage(),
    ensures
        t.is_in_need_of_a_trailing_blankline(),
        !(t is HardNewLine),
{
    reveal_strlit("}");
    reveal_strlit("]");
}

/// When every closed block is attended and the stream does not end with a
/// hard newline, the rule that follows every token has nothing to do.
pub proof fn lemma_after_end_rule_idle(s: IntermediaryView)
    requires
        blocks_attended(s.tokens),
        s.tokens.len() > 0,
        !(s.tokens.last() is HardNewLine),
    ensures
        after_end_rule(s) == s,
{
    assert(!closes_block_at(s.tokens, s.tokens.len() - 1));
}

/// A token that leaves the flags of a line alone and asks for no blank
/// line: a separator or a delimiter.
pub open spec fn is_quiet(t: TokenView) -> bool {
    t.is_single_line_breakable_garbage() || t is Delim
}

/// A quiet token changes nothing but the stream.
pub proof fn lemma_quiet_pushed(s: IntermediaryView, t: TokenView)
    requires
        is_quiet(t),
        !(t is HardNewLine),
    ensures
        s.pushed(t) == s.appended(t),
        forall|cur: LineFlags, b: bool| flags_after(cur, b, t) == cur,
{
    match t {
        TokenView::DirectPart { part } => {
            assert(part.len() == 0);
            reveal_strlit("require");
            assert(part != "require"@);
        },
        _ => {},
    }
}

/// The pass never shortens the stream on a line, and where it adds as many
/// tokens as the line is long, it has put in no blank line: every part of
/// the line was appended as it stands, and nothing else changed but the
/// flags.
pub proof fn lemma_line_replay(q: IntermediaryView, l: Seq<TokenView>, k: int)
    requires
        q.wf(),
        one_line(l),
        0 <= k <= l.len(),
    ensures
        passed(q, l).tokens.len() >= q.tokens.len() + l.len(),
        passed(q, l).wf(),
        passed(q, l).tokens.len() == q.tokens.len() + l.len() ==> {
            &&& passed(q, l.take(k)).tokens == q.tokens + l.take(k)
            &&& passed(q, l.take(k)).index_of_last_hard_newline == q.index_of_last_hard_newline
            &&& passed(q, l.take(k)).wf()
        },
    decreases l.len(),
{
    lemma_passed_wf(q, l);
    if l.len() == 0 {
        assert(l.take(k) =~= l);
        assert(q.tokens + l =~= q.tokens);
    } else {
        let rest = l.drop_last();
        assert forall|i: int| 0 <= i < rest.len() implies !(#[trigger] rest[i] is HardNewLine) by {
            assert(rest[i] == l[i]);
        }
        lemma_line_replay(q, rest, if k < l.len() {
            k
        } else {
            rest.len() as int
        });
        lemma_step_shape(passed(q, rest), l.last());
        if passed(q, l).tokens.len() == q.tokens.len() + l.len() {
            if k < l.len() {
                assert(l.take(k) =~= rest.take(k));
            } else {
                assert(rest.take(rest.len() as int) =~= rest);
                assert(l.take(k) =~= l);
                assert((q.tokens + rest).push(l.last()) =~= q.tokens + l);
            }
        }
    }
}

/// Quiet tokens that were appended as they stand left the state alone.
pub proof fn lemma_quiet_replay(x: IntermediaryView, g: Seq<TokenView>)
    requires
        x.wf(),
        one_line(g),
        forall|i: int| 0 <= i < g.len() ==> is_quiet(#[trigger] g[i]),
        passed(x, g).tokens.len() == x.tokens.len() + g.len(),
    ensures
        passed(x, g).tokens == x.tokens + g,
        passed(x, g).index_of_last_hard_newline == x.index_of_last_hard_newline,
        passed(x, g).current == x.current,
        passed(x, g).previous == x.previous,
    decreases g.len(),
{
    if g.len() == 0 {
        assert(x.tokens + g =~= x.tokens);
    } else {
        let rest = g.drop_last();
        assert forall|i: int| 0 <= i < rest.len() implies !(#[trigger] rest[i] is HardNewLine) by {
            assert(rest[i] == g[i]);
        }
        assert forall|i: int| 0 <= i < rest.len() implies is_quiet(#[trigger] rest[i]) by {
            assert(rest[i] == g[i]);
        }
        lemma_line_replay(x, rest, 0);
        let y = passed(x, rest);
        lemma_step_shape(y, g.last());
        lemma_quiet_replay(x, rest);
        lemma_quiet_pushed(y, g.last());
        assert((x.tokens + rest).push(g.last()) =~= x.tokens + g);
        let p = y.pushed(g.last());
        if p.closes_block_before_last() {
            assert(p.tokens[p.tokens.len() - 3] is HardNewLine);
            lemma_pushed_wf(y, g.last());
            lemma_insert_trailing_blankline_wf(p);
        }
    }
}

/// The flags of a line do not change when quiet tokens are taken out of it
/// before its last token, which is quiet too.
pub proof fn lemma_line_flags_quiet(b: Seq<TokenView>, g: Seq<TokenView>)
    requires
        forall|i: int| 0 <= i < g.len() ==> is_quiet(#[trigger] g[i]) && !(g[i] is HardNewLine),
    ensures
        line_flags(b + g) == line_flags(b),
    decreases g.len(),
{
    if g.len() == 0 {
        assert(b + g =~= b);
    } else {
        let rest = g.drop_last();
        assert forall|i: int| 0 <= i < rest.len() implies is_quiet(#[trigger] rest[i]) && !(
        rest[i] is HardNewLine) by {
            assert(rest[i] == g[i]);
        }
        lemma_line_flags_quiet(b, rest);
        assert((b + g).drop_last() =~= b + rest);
        assert((b + g).last() == g.last());
        lemma_quiet_pushed(IntermediaryView::empty(), g.last());
    }
}

/// How the stream falls into parts when the separators before its close
/// delimiter are taken out: what is settled stays settled, and the current
/// line loses quiet tokens only.
pub proof fn lemma_cleared_parts(s: IntermediaryView)
    requires
        s.wf(),
        s.tokens.len() > 0,
        s.tokens.last() is Delim,
    ensures
        ({
            let c = s.cleared_of_garbage();
            let k0 = c.tokens.len() - 1;
            let b = line_start(s);
            let kept = s.tokens.subrange(b, k0);
            let quiet = s.tokens.subrange(k0, s.tokens.len() - 1).push(s.tokens.last());
            &&& c.wf()
            &&& 0 <= b <= k0 <= s.tokens.len() - 1
            &&& line_start(c) == b
            &&& settled_part(c) == settled_part(s)
            &&& current_line(c) == kept.push(s.tokens.last())
            &&& current_line(s) == kept + quiet
            &&& c.tokens == settled_part(s) + kept.push(s.tokens.last())
            &&& c.blank_line_in_place() == s.blank_line_in_place()
            &&& forall|j: int|
                0 <= j < quiet.len() ==> is_quiet(#[trigger] quiet[j]) && !(quiet[j]
                    is HardNewLine)
        }),
{
    let c = s.cleared_of_garbage();
    let ts = s.tokens;
    let out = c.tokens;
    let d = ts.last();
    lemma_strip_garbage(ts);
    lemma_cleared_of_garbage_wf(s);
    let b = line_start(s);
    let k0 = out.len() - 1;
    assert forall|j: int| 0 <= j < k0 implies out[j] == ts[j] by {
        assert(out.drop_last()[j] == ts.subrange(0, k0)[j]);
    }
    assert(b <= k0) by {
        if s.has_boundary() {
            let i = s.index_of_last_hard_newline;
            if i >= k0 {
                assert(ts[i].is_single_line_breakable_garbage());
            }
        }
    }
    assert(c.has_boundary() == s.has_boundary());
    assert(settled_part(c) =~= settled_part(s));
    let kept = ts.subrange(b, k0);
    let gone = ts.subrange(k0, ts.len() - 1);
    let quiet = gone.push(d);
    assert(current_line(c) =~= kept.push(d));
    assert(current_line(s) =~= kept + quiet);
    assert(out =~= settled_part(s) + kept.push(d));
    assert forall|j: int| 0 <= j < quiet.len() implies is_quiet(#[trigger] quiet[j]) && !(
    quiet[j] is HardNewLine) by {
        if j < gone.len() {
            assert(quiet[j] == ts[k0 + j]);
            lemma_garbage_wants_blank_line(ts[k0 + j]);
        }
    }
    let i = s.index_of_last_hard_newline;
    if s.has_boundary() && i >= 1 {
        assert(out[i] == ts[i]);
        assert(out[i - 1] == ts[i - 1]);
    }
}

/// Taking the separators out before a close delimiter keeps a state
/// replayable.
pub proof fn lemma_cleared_replayable(s: IntermediaryView)
    requires
        replayable(s),
        blocks_attended(s.tokens),
        s.tokens.len() > 0,
        s.tokens.last() is Delim,
    ensures
        replayable(s.cleared_of_garbage()),
{
    let empty = IntermediaryView::empty();
    let c = s.cleared_of_garbage();
    let ts = s.tokens;
    let d = ts.last();
    lemma_cleared_parts(s);
    lemma_cleared_attended(s);
    lemma_current_line_is_one_line(s);
    let b = line_start(s);
    let k0 = c.tokens.len() - 1;
    let p = settled_part(s);
    let l = current_line(s);
    let q = passed(empty, p);
    let kept = ts.subrange(b, k0);
    let quiet = ts.subrange(k0, ts.len() - 1).push(d);
    lemma_passed_wf(empty, p);
    // what was kept is replayed as it stands
    lemma_line_replay(q, l, kept.len() as int);
    assert(l.take(kept.len() as int) =~= kept);
    let x = passed(q, kept);
    // what was taken out, and the delimiter, left the state alone
    lemma_passed_concat(q, kept, quiet);
    assert(one_line(quiet));
    lemma_quiet_replay(x, quiet);
    let r = passed(q, l);
    // the delimiter behind what was kept
    lemma_passed_push(q, kept, d);
    lemma_replayed_delimiter(x, d, c);
    lemma_line_flags_quiet(kept, quiet);
    lemma_line_flags_quiet(kept, seq![d]);
    assert(kept + seq![d] =~= kept.push(d));
    assert(r.blank_line_in_place() == s.blank_line_in_place());
}

/// A delimiter that is appended to a state whose closed blocks stay
/// attended changes nothing but the stream.
pub proof fn lemma_replayed_delimiter(x: IntermediaryView, d: TokenView, c: IntermediaryView)
    requires
        d is Delim,
        c.tokens == x.tokens.push(d),
        blocks_attended(c.tokens),
    ensures
        step(x, d) == x.appended(d),
{
    lemma_quiet_pushed(x, d);
    lemma_after_end_rule_idle(x.appended(d));
}

/// The stream of the state is stable: it can be sent through the pass again
/// and comes out as it is, and every closed block in it is attended.
pub open spec fn stable(s: IntermediaryView) -> bool {
    &&& replayable(s)
    &&& blocks_attended(s.tokens)
    &&& flat(s.tokens)
}

/// Every step with a token that is no group keeps a state stable.
pub proof fn lemma_step_stable(s: IntermediaryView, t: TokenView)
    requires
        stable(s),
        !(t is BreakableEntry),
    ensures
        stable(step(s, t)),
{
    lemma_step_attended(s, t);
    lemma_step_flat(s, t);
    if t is HardNewLine {
        assert(t == TokenView::HardNewLine);
        lemma_newline_keeps_replayable(s);
    } else {
        lemma_step_keeps_replayable(s, t);
    }
}

/// Resolving one token keeps a state stable.
pub proof fn lemma_rendered_token_stable(s: IntermediaryView, t: TokenView, multi_line: bool)
    requires
        stable(s),
    ensures
        stable(rendered_token(s, t, multi_line)),
    decreases t,
{
    match t {
        TokenView::BreakableEntry(g) => {
            lemma_rendered_group_stable(s, g);
            crate::render_queue_writer::lemma_rendered_group_wf(s, g);
            lemma_after_end_rule_idle(rendered_group(s, g));
        },
        x => {
            let y = if multi_line {
                x.multi_line()
            } else {
                x.single_line()
            };
            lemma_step_stable(s, y);
        },
    }
}

/// Resolving a run of tokens keeps a state stable.
pub proof fn lemma_rendered_upto_stable(s: IntermediaryView, ts: Seq<TokenView>, n: nat, multi_line: bool)
    requires
        stable(s),
    ensures
        stable(rendered_upto(s, ts, n, multi_line)),
    decreases ts, n,
{
    if !(n == 0 || n > ts.len()) {
        lemma_rendered_upto_stable(s, ts, (n - 1) as nat, multi_line);
        lemma_rendered_token_stable(
            rendered_upto(s, ts, (n - 1) as nat, multi_line),
            ts[n - 1],
            multi_line,
        );
    }
}

/// Resolving a group keeps a state stable.
pub proof fn lemma_rendered_group_stable(s: IntermediaryView, g: GroupView)
    requires
        stable(s),
    ensures
        stable(rendered_group(s, g)),
    decreases g,
{
    let multi_line = g.renders_multi_line();
    let open = TokenView::Delim { contents: g.delims.open_for(multi_line) };
    let close = TokenView::Delim { contents: g.delims.close_for(multi_line) };
    lemma_step_stable(s, open);
    let opened = after_end_rule(s.pushed(open));
    lemma_rendered_upto_stable(opened, g.tokens, g.tokens.len(), multi_line);
    let filled = rendered_upto(opened, g.tokens, g.tokens.len(), multi_line);
    lemma_step_stable(filled, close);
    let closed = after_end_rule(filled.pushed(close));
    if !multi_line {
        lemma_pushed_wf(filled, close);
        lemma_after_end_rule_wf(filled.pushed(close));
        lemma_cleared_replayable(closed);
        lemma_cleared_attended(closed);
        lemma_strip_garbage(closed.tokens);
        let out = closed.cleared_of_garbage().tokens;
        let k0 = out.len() - 1;
        assert forall|j: int| 0 <= j < out.len() implies !(#[trigger] out[j] is BreakableEntry) by {
            if j < k0 {
                assert(out.drop_last()[j] == closed.tokens.subrange(0, k0)[j]);
                assert(out[j] == closed.tokens[j]);
            }
        }
    }
}

/// The final stream of any tokens is stable: it holds no group, and sent
/// through the blank-line pass again it comes out unchanged. Rendering what
/// was rendered adds no blank line and takes none away.
pub proof fn lemma_rendering_idempotent(ts: Seq<TokenView>)
    ensures
        flat(rendered(ts)),
        post_processed(rendered(ts)) == rendered(ts),
        rendered(rendered(ts)) == rendered(ts),
{
    let empty = IntermediaryView::empty();
    lemma_empty_replayable();
    assert(stable(empty));
    lemma_rendered_upto_stable(empty, ts, ts.len(), true);
    let s = rendered_upto(empty, ts, ts.len(), true);
    lemma_current_line_is_one_line(s);
    lemma_passed_concat(empty, settled_part(s), current_line(s));
    let out = rendered(ts);
    lemma_rendered_flat(empty, out, out.len());
    assert(out.take(out.len() as int) =~= out);
}

} // verus!

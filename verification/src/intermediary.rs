//! The blank-line pass: one forward pass over the resolved flat stream that
//! inserts and collapses blank lines.
use vstd::prelude::*;
use crate::line_metadata::LineFlags;
use crate::line_metadata::LineMetadata;
use crate::line_tokens::LineToken;
use crate::line_tokens::TokenView;
use crate::line_tokens::lemma_token_views;
use crate::line_tokens::lemma_token_views_insert;
use crate::line_tokens::lemma_token_views_push;
use crate::line_tokens::lemma_token_views_remove;
use crate::line_tokens::token_views;
use crate::text::same_text;

verus! {

/// Why a blank line is asked for.
#[derive(Debug)]
pub enum BlanklineReason {
    ComesAfterEnd,
    Conditional,
    ClassOrModule,
    DoKeyword,
    EndOfRequireBlock,
}

/// The stream so far, where its last hard newline stands, and the flags of
/// the current and the previous line.
pub struct Intermediary {
    tokens: Vec<LineToken>,
    index_of_last_hard_newline: usize,
    current_line_metadata: LineMetadata,
    previous_line_metadata: Option<LineMetadata>,
}

/// The mathematical value of the pass's state.
pub struct IntermediaryView {
    pub tokens: Seq<TokenView>,
    pub index_of_last_hard_newline: int,
    pub current: LineFlags,
    pub previous: Option<LineFlags>,
}

impl View for Intermediary {
    type V = IntermediaryView;

    closed spec fn view(&self) -> IntermediaryView {
        IntermediaryView {
            tokens: token_views(self.tokens@),
            index_of_last_hard_newline: self.index_of_last_hard_newline as int,
            current: self.current_line_metadata@,
            previous: match self.previous_line_metadata {
                Some(m) => Some(m@),
                None => None,
            },
        }
    }
}

/// `ts` with every separator taken out that stands immediately before its
/// last token.
pub open spec fn strip_garbage(ts: Seq<TokenView>) -> Seq<TokenView>
    decreases ts.len(),
{
    if ts.len() >= 2 && ts[ts.len() - 2].is_single_line_breakable_garbage() {
        strip_garbage(ts.remove(ts.len() - 2))
    } else {
        ts
    }
}

impl IntermediaryView {
    /// The state before any token.
    pub open spec fn empty() -> IntermediaryView {
        IntermediaryView {
            tokens: Seq::empty(),
            index_of_last_hard_newline: 0,
            current: LineFlags::fresh(),
            previous: None,
        }
    }

    /// The index of the last hard newline points at a hard newline: there
    /// is a line boundary at which a blank line can be put.
    pub open spec fn has_boundary(self) -> bool {
        0 <= self.index_of_last_hard_newline < self.tokens.len()
            && self.tokens[self.index_of_last_hard_newline] is HardNewLine
    }

    /// The invariant of the pass: the index is 0 before the first hard
    /// newline and points at the last hard newline afterwards, and a
    /// previous line is known only once a hard newline was seen.
    pub open spec fn wf(self) -> bool {
        &&& self.index_of_last_hard_newline == 0 || self.has_boundary()
        &&& self.previous is Some ==> self.has_boundary()
        &&& forall|j: int|
            self.index_of_last_hard_newline < j < self.tokens.len() ==> !(
            #[trigger] self.tokens[j] is HardNewLine)
    }

    /// Whether a blank line already stands at the boundary: the two tokens
    /// round the place of insertion are both hard newlines.
    pub open spec fn blank_line_in_place(self) -> bool {
        let i = self.index_of_last_hard_newline;
        &&& 1 <= i < self.tokens.len()
        &&& self.tokens[i - 1] is HardNewLine
        &&& self.tokens[i] is HardNewLine
    }

    /// Puts a blank line after the previous line, unless one is there.
    pub open spec fn insert_trailing_blankline(self) -> IntermediaryView {
        if self.blank_line_in_place() {
            self
        } else {
            IntermediaryView {
                tokens: self.tokens.insert(self.index_of_last_hard_newline, TokenView::HardNewLine),
                index_of_last_hard_newline: self.index_of_last_hard_newline + 1,
                ..self
            }
        }
    }

    /// `self` with a blank line put in if `wanted`.
    pub open spec fn blank_line_if(self, wanted: bool) -> IntermediaryView {
        if wanted {
            self.insert_trailing_blankline()
        } else {
            self
        }
    }

    pub open spec fn with_current(self, current: LineFlags) -> IntermediaryView {
        IntermediaryView { current, ..self }
    }

    pub open spec fn appended(self, t: TokenView) -> IntermediaryView {
        IntermediaryView { tokens: self.tokens.push(t), ..self }
    }

    /// The previous line had `require`, the current one has not.
    pub open spec fn ends_require_block(self) -> bool {
        self.previous matches Some(prev) && !self.current.require && prev.require
    }

    /// The previous line was not followed by a deeper indent.
    pub open spec fn follows_unindented_line(self) -> bool {
        self.previous matches Some(prev) && !prev.gets_indented
    }

    /// The previous line neither opens, closes nor continues a block.
    pub open spec fn follows_plain_line(self) -> bool {
        self.previous matches Some(prev) && prev.wants_spacer_for_conditional()
    }

    /// Whether the line that is being written holds an indent already.
    pub open spec fn line_has_indent(self) -> bool {
        self.current.indent_level is Some
    }

    /// The step for a hard newline: the end of a run of `require` lines gets
    /// a blank line, the line's flags become the previous ones, and a third
    /// hard newline in a row is dropped.
    pub open spec fn pushed_hard_newline(self) -> IntermediaryView {
        let s = self.blank_line_if(self.ends_require_block());
        let n = s.tokens.len() as int;
        if n >= 2 && s.tokens[n - 2] is HardNewLine && s.tokens[n - 1] is HardNewLine {
            IntermediaryView {
                tokens: s.tokens,
                index_of_last_hard_newline: n - 1,
                current: LineFlags::fresh(),
                previous: Some(s.current),
            }
        } else {
            IntermediaryView {
                tokens: s.tokens.push(TokenView::HardNewLine),
                index_of_last_hard_newline: n,
                current: LineFlags::fresh(),
                previous: Some(s.current),
            }
        }
    }

    /// The step for an indent: the depth is recorded, and a previous line
    /// that lies less deep is marked as followed by an indent.
    pub open spec fn observed_indent(self, depth: u32) -> IntermediaryView {
        let current = LineFlags { indent_level: Some(depth), ..self.current };
        IntermediaryView {
            current,
            previous: match self.previous {
                Some(prev) => Some(
                    if LineFlags::indent_level_increases_between(prev, current) {
                        LineFlags { gets_indented: true, ..prev }
                    } else {
                        prev
                    },
                ),
                None => None,
            },
            ..self
        }
    }

    /// The step for a literal part: `require` directly behind the indent
    /// marks the line.
    pub open spec fn observed_part(self, part: Seq<char>) -> IntermediaryView {
        if part == "require"@ && self.tokens.len() > 0 && self.tokens.last().is_indent() {
            self.with_current(LineFlags { require: true, ..self.current })
        } else {
            self
        }
    }

    /// The state after token `t` went through the pass.
    pub open spec fn pushed(self, t: TokenView) -> IntermediaryView {
        match t {
            TokenView::HardNewLine => self.pushed_hard_newline(),
            TokenView::ModuleKeyword | TokenView::ClassKeyword => self.blank_line_if(
                self.follows_unindented_line(),
            ).appended(t),
            TokenView::DoKeyword => self.with_current(
                LineFlags { do_keyword: true, ..self.current },
            ).blank_line_if(self.follows_plain_line()).appended(t),
            TokenView::ConditionalKeyword { contents } => self.with_current(
                LineFlags { conditional: true, ..self.current },
            ).blank_line_if(self.follows_plain_line() && contents == "if"@).appended(t),
            TokenView::End => self.with_current(LineFlags { end: true, ..self.current }).appended(
                t,
            ),
            TokenView::DefKeyword => self.with_current(
                LineFlags { def: true, ..self.current },
            ).appended(t),
            TokenView::Indent { depth } => self.observed_indent(depth).appended(t),
            TokenView::DirectPart { part } => self.observed_part(part).appended(t),
            _ => self.appended(t),
        }
    }

    /// The stream ends with `end`, a hard newline, an indent and a token
    /// that wants a blank line between itself and the closed block.
    pub open spec fn closes_block_before_last(self) -> bool {
        let n = self.tokens.len() as int;
        &&& n >= 4
        &&& self.tokens[n - 4] is End
        &&& self.tokens[n - 3] is HardNewLine
        &&& self.tokens[n - 2] is Indent
        &&& self.tokens[n - 1].is_in_need_of_a_trailing_blankline()
    }

    /// The state with the separators before its last token taken out.
    pub open spec fn cleared_of_garbage(self) -> IntermediaryView {
        IntermediaryView { tokens: strip_garbage(self.tokens), ..self }
    }
}

/// Whether `out` is `ts` without the longest run of separators that stands
/// immediately before its last token: the tokens before the run, then the
/// last token. Nothing else is taken out, and no separator of the run is
/// left.
pub open spec fn without_garbage_run(ts: Seq<TokenView>, out: Seq<TokenView>) -> bool {
    &&& 1 <= out.len() <= ts.len()
    &&& out == ts.subrange(0, out.len() - 1).push(ts.last())
    &&& forall|j: int|
        out.len() - 1 <= j < ts.len() - 1 ==> (#[trigger] ts[j]).is_single_line_breakable_garbage()
    &&& out.len() >= 2 ==> !ts[out.len() - 2].is_single_line_breakable_garbage()
}

/// After `strip_garbage`, no separator stands before the last token, the
/// last token is the old one, and what is left is a prefix of the old
/// stream followed by that last token: exactly the longest run of
/// separators before the last token is gone.
pub proof fn lemma_strip_garbage(ts: Seq<TokenView>)
    requires
        ts.len() >= 1,
    ensures
        strip_garbage(ts).len() >= 1,
        strip_garbage(ts).len() <= ts.len(),
        strip_garbage(ts).last() == ts.last(),
        strip_garbage(ts).len() >= 2 ==> !strip_garbage(ts)[strip_garbage(ts).len()
            - 2].is_single_line_breakable_garbage(),
        strip_garbage(ts).drop_last() == ts.subrange(0, strip_garbage(ts).len() - 1),
        forall|j: int|
            strip_garbage(ts).len() - 1 <= j < ts.len() - 1 ==> (
            #[trigger] ts[j]).is_single_line_breakable_garbage(),
        without_garbage_run(ts, strip_garbage(ts)),
    decreases ts.len(),
{
    if ts.len() >= 2 && ts[ts.len() - 2].is_single_line_breakable_garbage() {
        let rest = ts.remove(ts.len() - 2);
        lemma_strip_garbage(rest);
        let out = strip_garbage(rest);
        assert(out.drop_last() =~= ts.subrange(0, out.len() - 1)) by {
            assert(out.drop_last() == rest.subrange(0, out.len() - 1));
            assert(rest.subrange(0, out.len() - 1) =~= ts.subrange(0, out.len() - 1));
        }
        assert forall|j: int| out.len() - 1 <= j < ts.len() - 1 implies (
        #[trigger] ts[j]).is_single_line_breakable_garbage() by {
            if j < ts.len() - 2 {
                assert(rest[j] == ts[j]);
            }
        }
    } else {
        assert(ts.drop_last() =~= ts.subrange(0, ts.len() - 1));
    }
    let out = strip_garbage(ts);
    assert(out =~= out.drop_last().push(out.last()));
    if out.len() >= 2 {
        assert(out[out.len() - 2] == out.drop_last()[out.len() - 2]);
    }
}

/// Putting a blank line in keeps the invariant and the boundary, adds at
/// most one token, and leaves the last token the last.
pub proof fn lemma_insert_trailing_blankline_wf(s: IntermediaryView)
    requires
        s.wf(),
        s.has_boundary(),
    ensures
        s.insert_trailing_blankline().wf(),
        s.insert_trailing_blankline().has_boundary(),
        s.insert_trailing_blankline().blank_line_in_place(),
        s.insert_trailing_blankline().tokens.last() == s.tokens.last(),
        s.insert_trailing_blankline().current == s.current,
        s.insert_trailing_blankline().previous == s.previous,
{
    if !s.blank_line_in_place() {
        let i = s.index_of_last_hard_newline;
        let out = s.insert_trailing_blankline();
        assert(out.tokens[i + 1] == s.tokens[i]);
        assert(out.tokens[i] is HardNewLine);
        assert forall|j: int| i + 1 < j < out.tokens.len() implies !(
        #[trigger] out.tokens[j] is HardNewLine) by {
            assert(out.tokens[j] == s.tokens[j - 1]);
        }
    }
}

/// Putting a blank line in a second time changes nothing.
pub proof fn lemma_insert_trailing_blankline_idempotent(s: IntermediaryView)
    requires
        s.wf(),
        s.has_boundary(),
    ensures
        s.insert_trailing_blankline().insert_trailing_blankline() == s.insert_trailing_blankline(),
{
    lemma_insert_trailing_blankline_wf(s);
}

/// Sending a token through the pass keeps the invariant.
pub proof fn lemma_pushed_wf(s: IntermediaryView, t: TokenView)
    requires
        s.wf(),
    ensures
        s.pushed(t).wf(),
        !(t is HardNewLine) ==> s.pushed(t).tokens.len() > 0 && s.pushed(t).tokens.last() == t,
{
    match t {
        TokenView::HardNewLine => {
            let a = s.blank_line_if(s.ends_require_block());
            if s.ends_require_block() {
                lemma_insert_trailing_blankline_wf(s);
            }
            assert(a.wf());
        },
        TokenView::ModuleKeyword | TokenView::ClassKeyword => {
            if s.follows_unindented_line() {
                lemma_insert_trailing_blankline_wf(s);
            }
            lemma_appended_wf(s.blank_line_if(s.follows_unindented_line()), t);
        },
        TokenView::DoKeyword => {
            let a = s.with_current(LineFlags { do_keyword: true, ..s.current });
            if s.follows_plain_line() {
                lemma_insert_trailing_blankline_wf(a);
            }
            lemma_appended_wf(a.blank_line_if(s.follows_plain_line()), t);
        },
        TokenView::ConditionalKeyword { contents } => {
            let a = s.with_current(LineFlags { conditional: true, ..s.current });
            if s.follows_plain_line() && contents == "if"@ {
                lemma_insert_trailing_blankline_wf(a);
            }
            lemma_appended_wf(a.blank_line_if(s.follows_plain_line() && contents == "if"@), t);
        },
        TokenView::End => {
            lemma_appended_wf(s.with_current(LineFlags { end: true, ..s.current }), t);
        },
        TokenView::DefKeyword => {
            lemma_appended_wf(s.with_current(LineFlags { def: true, ..s.current }), t);
        },
        TokenView::Indent { depth } => {
            lemma_appended_wf(s.observed_indent(depth), t);
        },
        TokenView::DirectPart { part } => {
            lemma_appended_wf(s.observed_part(part), t);
        },
        _ => {
            lemma_appended_wf(s, t);
        },
    }
}

/// What a token does to the indent of the line that is being written: a hard
/// newline starts a line without one, an indent marks the line, and no other
/// token touches it. A blank line that is put in does not count.
pub proof fn lemma_pushed_line_has_indent(s: IntermediaryView, t: TokenView)
    requires
        !(t is BreakableEntry),
    ensures
        s.pushed(t).line_has_indent() == t.line_has_indent_after(s.line_has_indent()),
        s.blank_line_if(true).line_has_indent() == s.line_has_indent(),
        s.cleared_of_garbage().line_has_indent() == s.line_has_indent(),
{
}

/// Appending a token that is no hard newline keeps the invariant.
pub proof fn lemma_appended_wf(s: IntermediaryView, t: TokenView)
    requires
        s.wf(),
        !(t is HardNewLine),
    ensures
        s.appended(t).wf(),
        s.appended(t).tokens.last() == t,
        s.appended(t).has_boundary() == s.has_boundary(),
{
}

/// Taking the separators out before the last token keeps the invariant,
/// if that token is no hard newline.
pub proof fn lemma_cleared_of_garbage_wf(s: IntermediaryView)
    requires
        s.wf(),
        s.tokens.len() > 0,
        !(s.tokens.last() is HardNewLine),
    ensures
        s.cleared_of_garbage().wf(),
        s.cleared_of_garbage().tokens.len() > 0,
        s.cleared_of_garbage().tokens.last() == s.tokens.last(),
        s.cleared_of_garbage().tokens.len() >= 2 ==> !s.cleared_of_garbage().tokens[s.cleared_of_garbage().tokens.len()
            - 2].is_single_line_breakable_garbage(),
{
    let ts = s.tokens;
    let out = strip_garbage(ts);
    lemma_strip_garbage(ts);
    let i = s.index_of_last_hard_newline;
    let k = out.len() - 1;
    // what is left before the delimiter is a prefix of the stream
    assert forall|j: int| 0 <= j < k implies out[j] == ts[j] by {
        assert(out.drop_last()[j] == ts.subrange(0, k)[j]);
    }
    if i != 0 || s.previous is Some {
        assert(ts[i] is HardNewLine);
        assert(i < ts.len() - 1);
        if i >= k {
            assert(ts[i].is_single_line_breakable_garbage());
        }
        assert(out[i] == ts[i]);
    }
    assert forall|j: int| i < j < out.len() implies !(#[trigger] out[j] is HardNewLine) by {
        if j < k {
            assert(out[j] == ts[j]);
        }
    }
}

impl Intermediary {
    /// The invariant of the pass, of the executable state.
    pub open spec fn wf(&self) -> bool {
        self@.wf()
    }

    pub fn new() -> (r: Self)
        ensures
            r@ == IntermediaryView::empty(),
            r.wf(),
    {
        let r = Intermediary {
            tokens: vec![],
            current_line_metadata: LineMetadata::new(),
            previous_line_metadata: None,
            index_of_last_hard_newline: 0,
        };
        proof {
            lemma_token_views(r.tokens@);
            assert(r@.tokens =~= Seq::<TokenView>::empty());
        }
        r
    }

    pub fn len(&self) -> (n: usize)
        ensures
            n == self@.tokens.len(),
    {
        proof {
            lemma_token_views(self.tokens@);
        }
        self.tokens.len()
    }

    /// The last four tokens, oldest first, if there are four.
    pub fn last_4(&self) -> (r: Option<(&LineToken, &LineToken, &LineToken, &LineToken)>)
        ensures
            r is Some <==> self@.tokens.len() >= 4,
            r matches Some(q) ==> {
                let n = self@.tokens.len() as int;
                &&& q.0@ == self@.tokens[n - 4]
                &&& q.1@ == self@.tokens[n - 3]
                &&& q.2@ == self@.tokens[n - 2]
                &&& q.3@ == self@.tokens[n - 1]
            },
    {
        proof {
            lemma_token_views(self.tokens@);
        }
        if self.len() < 4 {
            return None;
        }
        Some(
            (
                &self.tokens[self.len() - 4],
                &self.tokens[self.len() - 3],
                &self.tokens[self.len() - 2],
                &self.tokens[self.len() - 1],
            ),
        )
    }

    pub fn into_tokens(self) -> (r: Vec<LineToken>)
        ensures
            token_views(r@) == self@.tokens,
    {
        self.tokens
    }

    /// Whether the token at `idx` is a hard newline.
    fn hard_newline_at(&self, idx: usize) -> (b: bool)
        requires
            idx < self@.tokens.len(),
        ensures
            b == (self@.tokens[idx as int] is HardNewLine),
    {
        proof {
            lemma_token_views(self.tokens@);
        }
        match &self.tokens[idx] {
            LineToken::HardNewLine => true,
            _ => false,
        }
    }

    /// Whether the line that is being written holds an indent already.
    pub fn line_has_indent(&self) -> (b: bool)
        ensures
            b == self@.line_has_indent(),
    {
        self.current_line_metadata.has_indent_level()
    }

    /// Sends one token through the pass. An indent goes through only on a
    /// line that holds none yet.
    pub fn push(&mut self, lt: LineToken)
        requires
            old(self).wf(),
            lt@ is Indent ==> old(self)@.current.indent_level is None,
        ensures
            final(self)@ == old(self)@.pushed(lt@),
            final(self).wf(),
    {
        let mut do_push = true;
        match &lt {
            LineToken::HardNewLine => {
                let ends_block = match &self.previous_line_metadata {
                    Some(prev) => !self.current_line_metadata.has_require() && prev.has_require(),
                    None => false,
                };
                if ends_block {
                    self.insert_trailing_blankline(BlanklineReason::EndOfRequireBlock);
                }
                let mut md = LineMetadata::new();
                std::mem::swap(&mut md, &mut self.current_line_metadata);
                self.previous_line_metadata = Some(md);
                self.index_of_last_hard_newline = self.tokens.len();
                proof {
                    lemma_token_views(self.tokens@);
                }
                if self.tokens.len() >= 2 {
                    let n = self.tokens.len();
                    if self.hard_newline_at(n - 2) && self.hard_newline_at(n - 1) {
                        do_push = false;
                        self.index_of_last_hard_newline = n - 1;
                    }
                }
            },
            LineToken::ModuleKeyword | LineToken::ClassKeyword => {
                self.handle_class_or_module();
            },
            LineToken::DoKeyword => {
                self.handle_do_keyword();
            },
            LineToken::ConditionalKeyword { contents } => self.handle_conditional(contents),
            LineToken::End => self.handle_end(),
            LineToken::DefKeyword => self.handle_def(),
            LineToken::Indent { depth } => self.handle_indent(*depth),
            LineToken::DirectPart { part } => self.handle_part(part),
            _ => {},
        }
        if do_push {
            proof {
                lemma_token_views_push(self.tokens@, lt);
                lemma_token_views(self.tokens@);
            }
            self.tokens.push(lt);
        }
        proof {
            lemma_token_views(self.tokens@);
        }
    }

    fn handle_indent(&mut self, depth: u32)
        requires
            old(self)@.current.indent_level is None,
        ensures
            final(self)@ == old(self)@.observed_indent(depth),
    {
        self.current_line_metadata.observe_indent_level(depth);
        let increases = match &self.previous_line_metadata {
            Some(prev) => LineMetadata::indent_level_increases_between(
                prev,
                &self.current_line_metadata,
            ),
            None => false,
        };
        if increases {
            match &mut self.previous_line_metadata {
                Some(prev) => prev.set_gets_indented(),
                None => {},
            }
        }
    }

    fn handle_part(&mut self, part: &String)
        ensures
            final(self)@ == old(self)@.observed_part(part@),
    {
        let n = self.tokens.len();
        proof {
            lemma_token_views(self.tokens@);
        }
        if same_text(part, "require") && n > 0 && self.tokens[n - 1].is_indent() {
            self.current_line_metadata.set_has_require();
        }
    }

    fn handle_end(&mut self)
        ensures
            final(self)@ == old(self)@.with_current(
                LineFlags { end: true, ..old(self)@.current },
            ),
    {
        self.current_line_metadata.set_has_end();
    }

    fn handle_def(&mut self)
        ensures
            final(self)@ == old(self)@.with_current(
                LineFlags { def: true, ..old(self)@.current },
            ),
    {
        self.current_line_metadata.set_has_def();
    }

    fn handle_do_keyword(&mut self)
        requires
            old(self).wf(),
        ensures
            final(self)@ == old(self)@.with_current(
                LineFlags { do_keyword: true, ..old(self)@.current },
            ).blank_line_if(old(self)@.follows_plain_line()),
            final(self).wf(),
    {
        self.current_line_metadata.set_has_do_keyword();
        let wanted = match &self.previous_line_metadata {
            Some(prev) => prev.wants_spacer_for_conditional(),
            None => false,
        };
        if wanted {
            self.insert_trailing_blankline(BlanklineReason::DoKeyword);
        }
    }

    fn handle_class_or_module(&mut self)
        requires
            old(self).wf(),
        ensures
            final(self)@ == old(self)@.blank_line_if(old(self)@.follows_unindented_line()),
            final(self).wf(),
    {
        let wanted = match &self.previous_line_metadata {
            Some(prev) => !prev.gets_indented(),
            None => false,
        };
        if wanted {
            self.insert_trailing_blankline(BlanklineReason::ClassOrModule);
        }
    }

    fn handle_conditional(&mut self, cond: &String)
        requires
            old(self).wf(),
        ensures
            final(self)@ == old(self)@.with_current(
                LineFlags { conditional: true, ..old(self)@.current },
            ).blank_line_if(old(self)@.follows_plain_line() && cond@ == "if"@),
            final(self).wf(),
    {
        self.current_line_metadata.set_has_conditional();
        let wanted = match &self.previous_line_metadata {
            Some(prev) => prev.wants_spacer_for_conditional() && same_text(cond, "if"),
            None => false,
        };
        if wanted {
            self.insert_trailing_blankline(BlanklineReason::Conditional);
        }
    }

    /// Takes out the longest run of separators that stands immediately
    /// before the last token, and nothing else. The last token is the close
    /// delimiter of a group, or any token but a hard newline.
    pub fn clear_breakable_garbage(&mut self)
        requires
            old(self).wf(),
            old(self)@.tokens.len() > 0 ==> !(old(self)@.tokens.last() is HardNewLine),
        ensures
            final(self)@ == old(self)@.cleared_of_garbage(),
            final(self).wf(),
            old(self)@.tokens.len() > 0 ==> without_garbage_run(
                old(self)@.tokens,
                final(self)@.tokens,
            ),
            old(self)@.tokens.len() == 0 ==> final(self)@ == old(self)@,
    {
        proof {
            lemma_token_views(self.tokens@);
        }
        while self.tokens.len() >= 2 && self.tokens[self.tokens.len()
            - 2].is_single_line_breakable_garbage()
            invariant
                self.wf(),
                self@.tokens.len() > 0 ==> !(self@.tokens.last() is HardNewLine),
                strip_garbage(self@.tokens) == strip_garbage(old(self)@.tokens),
                self@.index_of_last_hard_newline == old(self)@.index_of_last_hard_newline,
                self@.current == old(self)@.current,
                self@.previous == old(self)@.previous,
                self@.tokens == token_views(self.tokens@),
                self@.tokens.len() == self.tokens@.len(),
            decreases self.tokens@.len(),
        {
            let ghost before = self.tokens@;
            let n = self.tokens.len();
            proof {
                lemma_token_views(self.tokens@);
                lemma_token_views_remove(self.tokens@, n - 2);
            }
            self.tokens.remove(n - 2);
            proof {
                lemma_token_views(self.tokens@);
                let ts = token_views(before);
                let rest = ts.remove(n - 2);
                assert(self@.tokens == rest);
                assert forall|j: int|
                    self@.index_of_last_hard_newline < j < rest.len() implies !(
                #[trigger] rest[j] is HardNewLine) by {
                    if j < n - 2 {
                        assert(rest[j] == ts[j]);
                    } else {
                        assert(rest[j] == ts[j + 1]);
                    }
                }
                if self@.index_of_last_hard_newline != 0 || self@.previous is Some {
                    let i = self@.index_of_last_hard_newline;
                    assert(ts[i] is HardNewLine);
                    assert(i != n - 2);
                    assert(i != n - 1);
                    assert(rest[i] == ts[i]);
                }
            }
        }
        proof {
            lemma_token_views(self.tokens@);
            if old(self)@.tokens.len() > 0 {
                lemma_strip_garbage(old(self)@.tokens);
            }
        }
    }

    /// Puts a blank line after the previous line, unless one is there.
    /// There must be a line boundary to put it at.
    pub fn insert_trailing_blankline(&mut self, _bl: BlanklineReason)
        requires
            old(self).wf(),
            old(self)@.has_boundary(),
        ensures
            final(self)@ == old(self)@.insert_trailing_blankline(),
            final(self).wf(),
            final(self)@.has_boundary(),
    {
        let idx = self.index_of_last_hard_newline;
        proof {
            lemma_token_views(self.tokens@);
        }
        let in_place = idx >= 1 && self.hard_newline_at(idx - 1) && self.hard_newline_at(idx);
        if !in_place {
            proof {
                lemma_token_views_insert(self.tokens@, idx as int, LineToken::HardNewLine);
            }
            self.tokens.insert(idx, LineToken::HardNewLine);
            let n = self.tokens.len();
            assert(idx < n);
            self.index_of_last_hard_newline = idx + 1;
            proof {
                lemma_token_views(self.tokens@);
                let ts = old(self)@.tokens;
                let out = ts.insert(idx as int, TokenView::HardNewLine);
                assert(self@.tokens == out);
                assert(out[idx + 1] == ts[idx as int]);
                assert forall|j: int| idx + 1 < j < out.len() implies !(
                #[trigger] out[j] is HardNewLine) by {
                    assert(out[j] == ts[j - 1]);
                }
            }
        }
    }
}

} // verus!

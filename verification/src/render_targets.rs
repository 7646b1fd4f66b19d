//! The buffers that take tokens during emission: the root queue and the
//! breakable group.
use vstd::prelude::*;
use vstd::string::*;
use std::collections::HashSet;
use vstd::std_specs::hash::axiom_spec_hash_keys_iter;
use vstd::std_specs::hash::spec_hash_keys_iter;
use vstd::std_specs::iter::IteratorSpec;
use crate::delimiters::BreakableDelims;
use crate::delimiters::DelimsView;
use crate::line_tokens::LineToken;
use crate::line_tokens::TokenView;
use crate::line_tokens::indent_walk;
use crate::line_tokens::indents_once_upto;
use crate::line_tokens::lemma_indents_once_prefix;
use crate::line_tokens::lemma_single_line_text_step;
use crate::line_tokens::lemma_token_views;
use crate::line_tokens::lemma_token_views_push;
use crate::line_tokens::line_has_indent_upto;
use crate::line_tokens::one_indent_a_line;
use crate::line_tokens::single_line_text_upto;
use crate::line_tokens::token_views;
use crate::line_tokens::walk_indents;
use crate::text::byte_len;
use crate::text::lemma_byte_len_concat;

verus! {

/// The two layouts of a group.
#[derive(Copy, Clone, Debug)]
pub enum ConvertType {
    MultiLine,
    SingleLine,
}

impl ConvertType {
    pub open spec fn is_multi_line(self) -> bool {
        self is MultiLine
    }
}

/// A token sequence that is rendered on one line or on several, with its
/// delimiter policy, the indent at its creation and the source lines that
/// its content touched.
#[derive(Debug)]
pub struct BreakableEntry {
    spaces: u32,
    tokens: Vec<LineToken>,
    line_numbers: HashSet<u64>,
    delims: BreakableDelims,
}

impl Clone for BreakableEntry {
    fn clone(&self) -> (r: Self)
        ensures
            r@ == self@,
    {
        self.duplicate()
    }
}

/// A copy of the line numbers `lines`.
fn copied_lines(lines: &HashSet<u64>) -> (r: HashSet<u64>)
    ensures
        r@ == lines@,
{
    proof {
        axiom_spec_hash_keys_iter(lines);
    }
    let ghost ks: Seq<&u64> = spec_hash_keys_iter(lines).remaining();
    let mut r: HashSet<u64> = HashSet::new();
    for k in it: lines.iter()
        invariant
            it.seq() == ks,
            r@ == ks.unref().take(it.index()).to_set(),
    {
        proof {
            let i = it.index();
            assert(ks.unref().take(i + 1) =~= ks.unref().take(i).push(*ks[i]));
            ks.unref().take(i).lemma_push_to_set_commute(*ks[i]);
        }
        r.insert(*k);
    }
    proof {
        assert(ks.unref().take(ks.len() as int) =~= ks.unref());
    }
    r
}

/// The mathematical value of a group.
pub struct GroupView {
    pub spaces: u32,
    pub tokens: Seq<TokenView>,
    pub line_numbers: Set<u64>,
    pub delims: DelimsView,
}

impl View for BreakableEntry {
    type V = GroupView;

    closed spec fn view(&self) -> GroupView
        decreases self,
    {
        GroupView {
            spaces: self.spaces,
            tokens: token_views(self.tokens@),
            line_numbers: self.line_numbers@,
            delims: self.delims@,
        }
    }
}

impl BreakableEntry {
    /// The tokens of the group, each by its view.
    pub closed spec fn token_seq(&self) -> Seq<LineToken> {
        self.tokens@
    }

    /// The view of a group holds its indent, lines and delimiters as they
    /// are.
    proof fn lemma_view_rest(&self)
        ensures
            self@.spaces == self.spaces,
            self@.line_numbers == self.line_numbers@,
            self@.delims == self.delims@,
    {
    }

    /// The view of a group holds the views of its tokens, position by
    /// position.
    pub proof fn lemma_view_tokens(&self)
        ensures
            self@.tokens == token_views(self.token_seq()),
            self@.tokens.len() == self.token_seq().len(),
            forall|i: int|
                #![trigger self@.tokens[i]]
                #![trigger self.token_seq()[i]]
                0 <= i < self.token_seq().len() ==> self@.tokens[i] == self.token_seq()[i]@,
    {
        lemma_token_views(self.tokens@);
        assert(self@.tokens == token_views(self.tokens@));
    }
}

/// The summed byte widths of the single-line texts of the first `n` tokens
/// of `ts`.
pub open spec fn single_line_width_upto(ts: Seq<TokenView>, n: nat) -> nat
    decreases n,
{
    if n == 0 || n > ts.len() {
        0
    } else {
        single_line_width_upto(ts, (n - 1) as nat) + byte_len(ts[n - 1].single_line_text())
    }
}

/// The summed widths of the single-line texts are the width of the texts
/// one after another.
pub proof fn lemma_single_line_width(ts: Seq<TokenView>, n: nat)
    requires
        n <= ts.len(),
    ensures
        single_line_width_upto(ts, n) == byte_len(single_line_text_upto(ts, n)),
    decreases n,
{
    if n > 0 {
        lemma_single_line_width(ts, (n - 1) as nat);
        lemma_single_line_text_step(ts, n);
        lemma_byte_len_concat(
            single_line_text_upto(ts, (n - 1) as nat),
            ts[n - 1].single_line_text(),
        );
    }
}

impl GroupView {
    /// A group with no tokens and no lines yet.
    pub open spec fn empty(spaces: u32, delims: DelimsView) -> GroupView {
        GroupView { spaces, tokens: Seq::empty(), line_numbers: Set::empty(), delims }
    }

    /// The width that decides the layout: the sum of the byte widths of the
    /// children's single-line texts. The delimiters do not count.
    pub open spec fn single_line_string_length(self) -> nat {
        single_line_width_upto(self.tokens, self.tokens.len())
    }

    /// The content touched two or more source lines.
    pub open spec fn is_multiline(self) -> bool {
        self.line_numbers.len() > 1
    }

    /// The text of the group rendered on one line.
    pub open spec fn single_line_text(self) -> Seq<char> {
        TokenView::BreakableEntry(self).text()
    }

    /// The tokens of the group in the given layout: the open delimiter, the
    /// children converted for that layout, the close delimiter.
    pub open spec fn converted(self, multi_line: bool) -> Seq<TokenView> {
        seq![TokenView::Delim { contents: self.delims.open_for(multi_line) }] + Seq::new(
            self.tokens.len(),
            |i: int|
                if multi_line {
                    self.tokens[i].multi_line()
                } else {
                    self.tokens[i].single_line()
                },
        ) + seq![TokenView::Delim { contents: self.delims.close_for(multi_line) }]
    }

    pub open spec fn with_token(self, t: TokenView) -> GroupView {
        GroupView { tokens: self.tokens.push(t), ..self }
    }

    pub open spec fn with_tokens(self, tokens: Seq<TokenView>) -> GroupView {
        GroupView { tokens, ..self }
    }

    pub open spec fn with_line(self, number: u64) -> GroupView {
        GroupView { line_numbers: self.line_numbers.insert(number), ..self }
    }
}

/// Whether the last token of `ts` is a newline token.
pub open spec fn last_is_newline(ts: Seq<TokenView>) -> bool {
    ts.len() > 0 && ts.last().is_newline()
}

/// Whether `ts[i]` ends a line: a newline token or a comment.
pub open spec fn ends_line(ts: Seq<TokenView>, i: int) -> bool {
    ts[i].is_newline() || ts[i].is_comment()
}

/// The index of the last token of `ts` that ends a line, if there is one.
pub open spec fn prev_hard_newline(ts: Seq<TokenView>) -> Option<int>
    decreases ts.len(),
{
    if ts.len() == 0 {
        None
    } else if ends_line(ts, ts.len() - 1) {
        Some(ts.len() - 1)
    } else {
        prev_hard_newline(ts.drop_last())
    }
}

/// Whether the last line of `ts` can be searched for its end: no token
/// behind the last one that ends a line is a lone newline as literal text.
pub open spec fn line_end_searchable(ts: Seq<TokenView>) -> bool {
    forall|j: int|
        0 <= j < ts.len() && (forall|k: int| j <= k < ts.len() ==> !ends_line(ts, k)) ==> !(#[trigger] ts[j]).is_newline_part()
}

/// Whether the last token of `ts`, if there is one, can be asked whether it
/// is a newline.
pub open spec fn last_is_askable(ts: Seq<TokenView>) -> bool {
    ts.len() > 0 ==> !ts.last().is_newline_part()
}

/// An index found by a search, as a mathematical integer.
pub open spec fn found_at(r: Option<usize>) -> Option<int> {
    match r {
        Some(k) => Some(k as int),
        None => None,
    }
}

/// `prev_hard_newline` finds the greatest index that ends a line.
pub proof fn lemma_prev_hard_newline(ts: Seq<TokenView>)
    ensures
        match prev_hard_newline(ts) {
            Some(k) => 0 <= k < ts.len() && ends_line(ts, k) && forall|j: int|
                k < j < ts.len() ==> !ends_line(ts, j),
            None => forall|j: int| 0 <= j < ts.len() ==> !ends_line(ts, j),
        },
    decreases ts.len(),
{
    if ts.len() > 0 && !ends_line(ts, ts.len() - 1) {
        lemma_prev_hard_newline(ts.drop_last());
        let rest = ts.drop_last();
        assert forall|j: int| 0 <= j < rest.len() implies rest[j] == ts[j] by {}
        match prev_hard_newline(rest) {
            Some(k) => {
                assert forall|j: int| k < j < ts.len() implies !ends_line(ts, j) by {
                    if j < rest.len() {
                        assert(!ends_line(rest, j));
                    }
                }
            },
            None => {
                assert forall|j: int| 0 <= j < ts.len() implies !ends_line(ts, j) by {
                    if j < rest.len() {
                        assert(!ends_line(rest, j));
                    }
                }
            },
        }
    }
}

/// `input` spliced into `target` before index `idx`.
pub open spec fn spliced<T>(target: Seq<T>, idx: int, input: Seq<T>) -> Seq<T> {
    target.subrange(0, idx) + input + target.subrange(idx, target.len() as int)
}

/// Views commute with splicing.
pub proof fn lemma_spliced_views(target: Seq<LineToken>, idx: int, input: Seq<LineToken>)
    requires
        0 <= idx <= target.len(),
    ensures
        token_views(spliced(target, idx, input)) == spliced(
            token_views(target),
            idx,
            token_views(input),
        ),
{
    lemma_token_views(target);
    lemma_token_views(input);
    lemma_token_views(spliced(target, idx, input));
    assert(token_views(spliced(target, idx, input)) =~= spliced(
        token_views(target),
        idx,
        token_views(input),
    ));
}

/// Moves all of `input` into `target` before index `idx`.
fn insert_at(idx: usize, target: &mut Vec<LineToken>, input: &mut Vec<LineToken>)
    requires
        idx <= old(target)@.len(),
    ensures
        final(target)@ == spliced(old(target)@, idx as int, old(input)@),
        final(input)@.len() == 0,
{
    let mut tail = target.split_off(idx);
    target.append(input);
    target.append(&mut tail);
}

/// The index of the last token of `tokens` that ends a line.
fn last_line_end(tokens: &Vec<LineToken>) -> (r: Option<usize>)
    requires
        line_end_searchable(token_views(tokens@)),
    ensures
        found_at(r) == prev_hard_newline(token_views(tokens@)),
        r matches Some(k) ==> k < tokens@.len(),
{
    proof {
        lemma_prev_hard_newline(token_views(tokens@));
    }
    let ghost ts = token_views(tokens@);
    let mut i: usize = tokens.len();
    proof {
        lemma_token_views(tokens@);
    }
    while i > 0
        invariant
            i <= tokens.len(),
            ts == token_views(tokens@),
            line_end_searchable(ts),
            forall|j: int| i <= j < ts.len() ==> !ends_line(ts, j),
        decreases i,
    {
        i = i - 1;
        let t = &tokens[i];
        proof {
            lemma_token_views(tokens@);
        }
        assert(t@ == ts[i as int]);
        proof {
            lemma_prev_hard_newline(ts);
        }
        if t.is_comment() {
            assert(ends_line(ts, i as int));
            return Some(i);
        }
        assert(!ts[i as int].is_newline_part()) by {
            if !ts[i as int].is_newline() {
                assert(forall|k: int| i <= k < ts.len() ==> !ends_line(ts, k));
            }
        }
        if t.is_newline() {
            assert(ends_line(ts, i as int));
            return Some(i);
        }
        assert(!ends_line(ts, i as int));
    }
    proof {
        lemma_prev_hard_newline(ts);
    }
    None
}

/// The root buffer of an emission.
#[derive(Debug, Default)]
pub struct BaseQueue {
    tokens: Vec<LineToken>,
}

impl Clone for BaseQueue {
    fn clone(&self) -> (r: Self)
        ensures
            r@ == self@,
    {
        let mut tokens: Vec<LineToken> = Vec::new();
        let mut i: usize = 0;
        while i < self.tokens.len()
            invariant
                i <= self.tokens.len(),
                tokens@.len() == i,
                forall|k: int| 0 <= k < i ==> (#[trigger] tokens@[k])@ == self.tokens@[k]@,
            decreases self.tokens.len() - i,
        {
            tokens.push(self.tokens[i].duplicate());
            i = i + 1;
        }
        let r = BaseQueue { tokens };
        proof {
            lemma_token_views(self.tokens@);
            lemma_token_views(r.tokens@);
            assert(r@ =~= self@);
        }
        r
    }
}

impl View for BaseQueue {
    type V = Seq<TokenView>;

    closed spec fn view(&self) -> Seq<TokenView> {
        token_views(self.tokens@)
    }
}

impl BaseQueue {
    /// An empty queue.
    pub fn new() -> (q: Self)
        ensures
            q@ == Seq::<TokenView>::empty(),
    {
        let q = BaseQueue { tokens: Vec::new() };
        proof {
            lemma_token_views(q.tokens@);
            assert(q@ =~= Seq::<TokenView>::empty());
        }
        q
    }

    pub fn push(&mut self, lt: LineToken)
        ensures
            final(self)@ == old(self)@.push(lt@),
    {
        self.tokens.push(lt);
        proof {
            lemma_token_views_push(old(self).tokens@, lt);
        }
    }

    /// Splices `tokens` in before index `idx` and leaves `tokens` empty.
    pub fn insert_at(&mut self, idx: usize, tokens: &mut Vec<LineToken>)
        requires
            idx <= old(self)@.len(),
        ensures
            final(self)@ == spliced(old(self)@, idx as int, token_views(old(tokens)@)),
            final(tokens)@.len() == 0,
    {
        proof {
            lemma_token_views(old(self).tokens@);
        }
        insert_at(idx, &mut self.tokens, tokens);
        proof {
            lemma_spliced_views(old(self).tokens@, idx as int, old(tokens)@);
        }
    }

    /// Hands the tokens out. The root is never converted, whatever `ct`.
    pub fn into_tokens(self, ct: ConvertType) -> (r: Vec<LineToken>)
        ensures
            token_views(r@) == self@,
    {
        self.tokens
    }

    /// Whether the last token is a newline token.
    pub fn last_token_is_a_newline(&self) -> (b: bool)
        requires
            last_is_askable(self@),
        ensures
            b == last_is_newline(self@),
    {
        proof {
            lemma_token_views(self.tokens@);
        }
        let n = self.tokens.len();
        if n == 0 {
            false
        } else {
            self.tokens[n - 1].is_newline()
        }
    }

    /// The index of the last token that ends a line.
    pub fn index_of_prev_hard_newline(&self) -> (r: Option<usize>)
        requires
            line_end_searchable(self@),
        ensures
            found_at(r) == prev_hard_newline(self@),
            r matches Some(k) ==> k < self@.len(),
    {
        proof {
            lemma_token_views(self.tokens@);
        }
        last_line_end(&self.tokens)
    }

    /// Whether every line of the queue holds at most one indent.
    pub fn has_one_indent_a_line(&self) -> (b: bool)
        ensures
            b == one_indent_a_line(self@),
    {
        proof {
            lemma_token_views(self.tokens@);
        }
        walk_indents(&self.tokens, false).is_some()
    }

    pub fn len(&self) -> (n: usize)
        ensures
            n == self@.len(),
    {
        proof {
            lemma_token_views(self.tokens@);
        }
        self.tokens.len()
    }
}

impl BreakableEntry {
    /// An empty group.
    pub fn new(spaces: u32, delims: BreakableDelims) -> (be: Self)
        ensures
            be@ == GroupView::empty(spaces, delims@),
    {
        let be = BreakableEntry { spaces, tokens: Vec::new(), line_numbers: HashSet::new(), delims };
        proof {
            be.lemma_view_tokens();
            be.lemma_view_rest();
            assert(be@.tokens =~= Seq::<TokenView>::empty());
        }
        be
    }

    pub fn push(&mut self, lt: LineToken)
        ensures
            final(self)@ == old(self)@.with_token(lt@),
    {
        self.tokens.push(lt);
        proof {
            old(self).lemma_view_tokens();
            self.lemma_view_tokens();
            old(self).lemma_view_rest();
            self.lemma_view_rest();
            lemma_token_views_push(old(self).tokens@, lt);
        }
    }

    /// Splices `tokens` in before index `idx` and leaves `tokens` empty.
    pub fn insert_at(&mut self, idx: usize, tokens: &mut Vec<LineToken>)
        requires
            idx <= old(self)@.tokens.len(),
        ensures
            final(self)@ == old(self)@.with_tokens(
                spliced(old(self)@.tokens, idx as int, token_views(old(tokens)@)),
            ),
            final(tokens)@.len() == 0,
    {
        proof {
            old(self).lemma_view_tokens();
        }
        insert_at(idx, &mut self.tokens, tokens);
        proof {
            self.lemma_view_tokens();
            old(self).lemma_view_rest();
            self.lemma_view_rest();
            lemma_spliced_views(old(self).tokens@, idx as int, old(tokens)@);
        }
    }

    /// The tokens of the group in the layout `ct`.
    pub fn into_tokens(self, ct: ConvertType) -> (r: Vec<LineToken>)
        ensures
            token_views(r@) == self@.converted(ct.is_multi_line()),
    {
        let ghost g = self@;
        proof {
            self.lemma_view_tokens();
            self.lemma_view_rest();
        }
        let BreakableEntry { spaces: _, tokens, line_numbers: _, delims } = self;
        let multi = match ct {
            ConvertType::MultiLine => true,
            ConvertType::SingleLine => false,
        };
        let ghost src = tokens@;
        // The children are moved out from the back, converted, and put back
        // in order behind the open delimiter.
        let mut rest = tokens;
        let mut converted: Vec<LineToken> = Vec::new();
        while rest.len() > 0
            invariant
                rest@.len() + converted@.len() == src.len(),
                rest@ == src.subrange(0, rest@.len() as int),
                forall|k: int|
                    0 <= k < converted@.len() ==> (#[trigger] converted@[k])@ == (if multi {
                        src[src.len() - 1 - k]@.multi_line()
                    } else {
                        src[src.len() - 1 - k]@.single_line()
                    }),
            decreases rest@.len(),
        {
            let t = rest.pop().unwrap();
            let c = if multi {
                t.into_multi_line()
            } else {
                t.into_single_line()
            };
            converted.push(c);
        }
        let mut out: Vec<LineToken> = Vec::new();
        if multi {
            out.push(delims.multi_line_open());
        } else {
            out.push(delims.single_line_open());
        }
        while converted.len() > 0
            invariant
                converted@.len() <= src.len(),
                out@.len() == 1 + src.len() - converted@.len(),
                out@[0]@ == (TokenView::Delim { contents: g.delims.open_for(multi) }),
                forall|k: int|
                    0 <= k < converted@.len() ==> (#[trigger] converted@[k])@ == (if multi {
                        src[src.len() - 1 - k]@.multi_line()
                    } else {
                        src[src.len() - 1 - k]@.single_line()
                    }),
                forall|k: int|
                    1 <= k < out@.len() ==> (#[trigger] out@[k])@ == (if multi {
                        src[k - 1]@.multi_line()
                    } else {
                        src[k - 1]@.single_line()
                    }),
            decreases converted@.len(),
        {
            let c = converted.pop().unwrap();
            out.push(c);
        }
        if multi {
            out.push(delims.multi_line_close());
        } else {
            out.push(delims.single_line_close());
        }
        proof {
            lemma_token_views(out@);
            lemma_token_views(src);
            assert(token_views(out@) =~= g.converted(multi));
        }
        out
    }

    /// Whether the last token is a newline token.
    pub fn last_token_is_a_newline(&self) -> (b: bool)
        requires
            last_is_askable(self@.tokens),
        ensures
            b == last_is_newline(self@.tokens),
    {
        proof {
            self.lemma_view_tokens();
        }
        let n = self.tokens.len();
        if n == 0 {
            false
        } else {
            self.tokens[n - 1].is_newline()
        }
    }

    /// The index of the last token that ends a line.
    pub fn index_of_prev_hard_newline(&self) -> (r: Option<usize>)
        requires
            line_end_searchable(self@.tokens),
        ensures
            found_at(r) == prev_hard_newline(self@.tokens),
            r matches Some(k) ==> k < self@.tokens.len(),
    {
        proof {
            self.lemma_view_tokens();
        }
        last_line_end(&self.tokens)
    }

    /// The width that decides the layout, cut off at `usize::MAX`.
    pub fn single_line_string_length(&self) -> (n: usize)
        ensures
            n == if self@.single_line_string_length() <= usize::MAX {
                self@.single_line_string_length()
            } else {
                usize::MAX as nat
            },
    {
        proof {
            self.lemma_view_tokens();
        }
        let mut total: usize = 0;
        let mut i: usize = 0;
        let ghost ts = self@.tokens;
        while i < self.tokens.len()
            invariant
                i <= self.tokens.len(),
                ts == token_views(self.tokens@),
                total == if single_line_width_upto(ts, i as nat) <= usize::MAX {
                    single_line_width_upto(ts, i as nat)
                } else {
                    usize::MAX as nat
                },
            decreases self.tokens.len() - i,
        {
            proof {
                lemma_token_views(self.tokens@);
            }
            let text = self.tokens[i].single_line_ruby_text();
            let width = text.as_str().as_bytes().len();
            assert(width == byte_len(ts[i as int].single_line_text()));
            total = total.saturating_add(width);
            i = i + 1;
        }
        total
    }

    /// Records that the content of the group touched source line `number`.
    pub fn push_line_number(&mut self, number: u64)
        ensures
            final(self)@ == old(self)@.with_line(number),
    {
        self.line_numbers.insert(number);
        proof {
            old(self).lemma_view_tokens();
            self.lemma_view_tokens();
            old(self).lemma_view_rest();
            self.lemma_view_rest();
        }
    }

    pub fn is_multiline(&self) -> (b: bool)
        ensures
            b == self@.is_multiline(),
    {
        proof {
            self.lemma_view_rest();
        }
        self.line_numbers.len() > 1
    }

    /// The text of the group rendered on one line.
    pub fn single_line_ruby(&self) -> (s: String)
        ensures
            s@ == self@.single_line_text(),
        decreases self, 0nat,
    {
        proof {
            self.lemma_view_tokens();
            self.lemma_view_rest();
        }
        let mut s = self.delims.single_open_text();
        let ghost ts = self@.tokens;
        let mut i: usize = 0;
        while i < self.tokens.len()
            invariant
                i <= self.tokens.len(),
                ts == token_views(self.tokens@),
                ts == self@.tokens,
                s@ == self@.delims.single_open + single_line_text_upto(ts, i as nat),
            decreases self.tokens.len() - i,
        {
            proof {
                lemma_token_views(self.tokens@);
            }
            let piece = self.tokens[i].single_line_ruby_text();
            proof {
                lemma_single_line_text_step(ts, (i + 1) as nat);
            }
            s.append(piece.as_str());
            i = i + 1;
            assert(s@ =~= self@.delims.single_open + single_line_text_upto(ts, i as nat));
        }
        let close = self.delims.single_close_text();
        s.append(close.as_str());
        s
    }

    /// A copy of the group, nested groups included.
    pub fn duplicate(&self) -> (r: Self)
        ensures
            r@ == self@,
        decreases self, 0nat,
    {
        let mut tokens: Vec<LineToken> = Vec::new();
        let mut i: usize = 0;
        while i < self.tokens.len()
            invariant
                i <= self.tokens.len(),
                tokens@.len() == i,
                forall|k: int| 0 <= k < i ==> (#[trigger] tokens@[k])@ == self.tokens@[k]@,
            decreases self.tokens.len() - i,
        {
            tokens.push(self.tokens[i].duplicate());
            i = i + 1;
        }
        let r = BreakableEntry {
            spaces: self.spaces,
            tokens,
            line_numbers: copied_lines(&self.line_numbers),
            delims: self.delims.duplicate(),
        };
        proof {
            self.lemma_view_tokens();
            self.lemma_view_rest();
            r.lemma_view_tokens();
            r.lemma_view_rest();
            assert(r@.tokens =~= self@.tokens);
        }
        r
    }

    /// Walks over the children and tells whether a line gets a second
    /// indent.
    pub fn walk_indents(&self, seen: bool) -> (r: Option<bool>)
        ensures
            r == indent_walk(seen, self@.tokens, self@.tokens.len()),
        decreases self, 0nat,
    {
        proof {
            self.lemma_view_tokens();
        }
        let ghost ts = self@.tokens;
        let mut now: bool = seen;
        let mut i: usize = 0;
        while i < self.tokens.len()
            invariant
                i <= self.tokens.len(),
                ts == token_views(self.tokens@),
                ts == self@.tokens,
                ts.len() == self.tokens@.len(),
                indents_once_upto(seen, ts, i as nat),
                now == line_has_indent_upto(seen, ts, i as nat),
            decreases self.tokens.len() - i,
        {
            proof {
                lemma_token_views(self.tokens@);
            }
            match self.tokens[i].walk_indents(now) {
                None => {
                    assert(!indents_once_upto(seen, ts, (i + 1) as nat));
                    proof {
                        if indents_once_upto(seen, ts, ts.len()) {
                            lemma_indents_once_prefix(seen, ts, (i + 1) as nat, ts.len());
                        }
                    }
                    return None;
                },
                Some(h) => {
                    now = h;
                },
            }
            i = i + 1;
        }
        Some(now)
    }

    pub fn len(&self) -> (n: usize)
        ensures
            n == self@.tokens.len(),
    {
        proof {
            self.lemma_view_tokens();
        }
        self.tokens.len()
    }
}

} // verus!

//! A run of comment lines with the span of source lines that it covers.
use vstd::prelude::*;
use vstd::string::*;
use std::ops::Range;
use crate::line_tokens::LineToken;
use crate::line_tokens::TokenView;
use crate::line_tokens::lemma_token_views;
use crate::line_tokens::token_views;
use crate::text::blanks;
use crate::text::spaces;

verus! {

/// Comment lines, in source order, and the half-open span of lines that
/// they were taken from.
#[derive(Debug)]
pub struct CommentBlock {
    span: Range<u64>,
    comments: Vec<String>,
}

/// The mathematical value of a comment block.
pub struct CommentBlockView {
    pub span_start: u64,
    pub span_end: u64,
    pub comments: Seq<Seq<char>>,
}

/// The texts of `s`, in order.
pub open spec fn texts_of(s: Seq<String>) -> Seq<Seq<char>> {
    Seq::new(s.len(), |i: int| s[i]@)
}

impl View for CommentBlock {
    type V = CommentBlockView;

    closed spec fn view(&self) -> CommentBlockView {
        CommentBlockView {
            span_start: self.span.start,
            span_end: self.span.end,
            comments: texts_of(self.comments@),
        }
    }
}

impl CommentBlockView {
    /// The block with one more line behind it.
    pub open spec fn with_line(self, line: Seq<char>) -> CommentBlockView {
        CommentBlockView {
            span_end: (self.span_end + 1) as u64,
            comments: self.comments.push(line),
            ..self
        }
    }

    /// The block with `depth` blanks before every line.
    pub open spec fn with_spaces(self, depth: u32) -> CommentBlockView {
        CommentBlockView {
            comments: Seq::new(
                self.comments.len(),
                |i: int| spaces(depth as nat) + self.comments[i],
            ),
            ..self
        }
    }

    /// The block with the lines of `other` behind its own. The span stays.
    pub open spec fn merged(self, other: CommentBlockView) -> CommentBlockView {
        CommentBlockView { comments: self.comments + other.comments, ..self }
    }

    /// One comment token for each line.
    pub open spec fn line_tokens(self) -> Seq<TokenView> {
        Seq::new(self.comments.len(), |i: int| TokenView::Comment { contents: self.comments[i] })
    }

    /// Whether source line `line` lies in the span.
    pub open spec fn covers(self, line: u64) -> bool {
        self.span_start <= line < self.span_end
    }
}

/// `slot` with `other` merged in: behind the block that is there, or as the
/// block if there is none.
pub open spec fn merged_into(slot: Option<CommentBlockView>, other: CommentBlockView) -> Option<
    CommentBlockView,
> {
    match slot {
        Some(this) => Some(this.merged(other)),
        None => Some(other),
    }
}

impl CommentBlock {
    pub fn new(span: Range<u64>, comments: Vec<String>) -> (b: Self)
        ensures
            b@ == (CommentBlockView {
                span_start: span.start,
                span_end: span.end,
                comments: texts_of(comments@),
            }),
    {
        CommentBlock { span, comments }
    }

    /// The first source line of the block.
    pub fn span_start(&self) -> (n: u64)
        ensures
            n == self@.span_start,
    {
        self.span.start
    }

    /// The first source line behind the block.
    pub fn following_line_number(&self) -> (n: u64)
        ensures
            n == self@.span_end,
    {
        self.span.end
    }

    /// Puts one more line behind the block.
    pub fn add_line(&mut self, line: String)
        requires
            old(self)@.span_end < u64::MAX,
        ensures
            final(self)@ == old(self)@.with_line(line@),
    {
        self.span.end += 1;
        self.comments.push(line);
        assert(self@.comments =~= old(self)@.comments.push(line@));
    }

    /// One comment token for each line.
    pub fn into_line_tokens(self) -> (r: Vec<LineToken>)
        ensures
            token_views(r@) == self@.line_tokens(),
    {
        let ghost lines = self@.comments;
        let mut out: Vec<LineToken> = Vec::new();
        let mut i: usize = 0;
        while i < self.comments.len()
            invariant
                i <= self.comments.len(),
                lines == self@.comments,
                out@.len() == i,
                forall|k: int|
                    0 <= k < i ==> (#[trigger] out@[k])@ == (TokenView::Comment {
                        contents: lines[k],
                    }),
            decreases self.comments.len() - i,
        {
            out.push(LineToken::Comment { contents: self.comments[i].clone() });
            i = i + 1;
        }
        proof {
            lemma_token_views(out@);
            assert(token_views(out@) =~= self@.line_tokens());
        }
        out
    }

    /// Puts `indent_depth` blanks before every line.
    pub fn apply_spaces(self, indent_depth: u32) -> (r: Self)
        ensures
            r@ == self@.with_spaces(indent_depth),
    {
        let mut this = self;
        let ghost lines = this@.comments;
        let mut i: usize = 0;
        while i < this.comments.len()
            invariant
                i <= this.comments.len(),
                this.span == self.span,
                this@.comments.len() == lines.len(),
                lines == self@.comments,
                forall|k: int|
                    0 <= k < i ==> #[trigger] this@.comments[k] == spaces(indent_depth as nat)
                        + lines[k],
                forall|k: int| i <= k < lines.len() ==> #[trigger] this@.comments[k] == lines[k],
            decreases this.comments.len() - i,
        {
            let ghost held = this@.comments;
            assert(held[i as int] == lines[i as int]);
            let mut padded = blanks(indent_depth);
            padded.append(this.comments[i].as_str());
            this.comments.set(i, padded);
            assert(this@.comments =~= held.update(i as int, padded@));
            i = i + 1;
        }
        assert(this@.comments =~= self@.with_spaces(indent_depth).comments);
        this
    }

    pub fn has_comments(&self) -> (b: bool)
        ensures
            b == (self@.comments.len() > 0),
    {
        !self.comments.is_empty()
    }

    pub fn len(&self) -> (n: usize)
        ensures
            n == self@.comments.len(),
    {
        self.comments.len()
    }
}

/// Types that take another value into themselves.
pub trait Merge<Other> {
    fn merge(&mut self, other: Other);
}

impl Merge<CommentBlock> for CommentBlock {
    fn merge(&mut self, other: CommentBlock)
        ensures
            final(self)@ == old(self)@.merged(other@),
    {
        let ghost lines = other@.comments;
        let mut other = other;
        self.comments.append(&mut other.comments);
        assert(self@.comments =~= old(self)@.comments + lines);
    }
}

impl Merge<CommentBlock> for Option<CommentBlock> {
    fn merge(&mut self, other: CommentBlock)
        ensures
            block_view(*final(self)) == merged_into(block_view(*old(self)), other@),
    {
        match self {
            Some(this) => {
                this.merge(other);
            },
            None => {
                *self = Some(other);
            },
        }
    }
}

/// The view of an optional block.
pub open spec fn block_view(slot: Option<CommentBlock>) -> Option<CommentBlockView> {
    match slot {
        Some(b) => Some(b@),
        None => None,
    }
}

} // verus!

//! The comment store: the comments of a source file by line, taken out of
//! the way before the tree is walked and handed back as the walk passes
//! their lines.
use vstd::prelude::*;
use vstd::string::*;
use std::collections::BTreeMap;
use crate::comment_block::CommentBlock;
use crate::comment_block::CommentBlockView;
use crate::comment_block::block_view;
use crate::ordered_lines::first_line;
use crate::text::trim_text;
use crate::text::trimmed;

verus! {

/// The comments of one file: the block that opens the file, if it opens with
/// comments, and every other comment by its line.
#[derive(Debug)]
pub struct FileComments {
    start_of_file_contiguous_comment_lines: Option<CommentBlock>,
    other_comments: BTreeMap<u64, String>,
}

/// The mathematical value of a comment store.
pub struct FileCommentsView {
    pub leading: Option<CommentBlockView>,
    pub others: Map<u64, Seq<char>>,
}

/// Why a list of comments is no comment store.
#[derive(Debug, PartialEq, Eq, Clone, Copy)]
pub enum CommentError {
    /// A line number below zero.
    NegativeLine,
    /// A line number that came before.
    DuplicateLine,
    /// Line 1 behind another line: the opening block must come first.
    MisplacedFirstLine,
}

impl View for FileComments {
    type V = FileCommentsView;

    closed spec fn view(&self) -> FileCommentsView {
        FileCommentsView {
            leading: block_view(self.start_of_file_contiguous_comment_lines),
            others: self.other_comments@.map_values(|s: String| s@),
        }
    }
}

/// The comments of `m` on the lines from `lo` up to, not including, `hi`,
/// in line order.
pub open spec fn comments_between(m: Map<u64, Seq<char>>, lo: int, hi: int) -> Seq<Seq<char>>
    decreases hi - lo,
{
    if hi <= lo {
        Seq::empty()
    } else {
        comments_between(m, lo, hi - 1) + (if 0 <= hi - 1 <= u64::MAX && m.contains_key(
            (hi - 1) as u64,
        ) {
            seq![m[(hi - 1) as u64]]
        } else {
            Seq::empty()
        })
    }
}

/// The comments of a range are those of its two halves.
pub proof fn lemma_comments_between_split(m: Map<u64, Seq<char>>, lo: int, mid: int, hi: int)
    requires
        lo <= mid <= hi,
    ensures
        comments_between(m, lo, hi) == comments_between(m, lo, mid) + comments_between(
            m,
            mid,
            hi,
        ),
    decreases hi - mid,
{
    if hi > mid {
        lemma_comments_between_split(m, lo, mid, hi - 1);
        assert(comments_between(m, lo, hi) =~= comments_between(m, lo, mid) + comments_between(
            m,
            mid,
            hi,
        ));
    } else {
        assert(comments_between(m, lo, hi) =~= comments_between(m, lo, mid) + comments_between(
            m,
            mid,
            hi,
        ));
    }
}

/// A range without a commented line holds no comments.
pub proof fn lemma_comments_between_none(m: Map<u64, Seq<char>>, lo: int, hi: int)
    requires
        forall|k: u64| lo <= k < hi ==> !m.contains_key(k),
    ensures
        comments_between(m, lo, hi) == Seq::<Seq<char>>::empty(),
    decreases hi - lo,
{
    if hi > lo {
        lemma_comments_between_none(m, lo, hi - 1);
    }
}

/// The comments of a range depend on the lines of that range only.
pub proof fn lemma_comments_between_agree(
    a: Map<u64, Seq<char>>,
    b: Map<u64, Seq<char>>,
    lo: int,
    hi: int,
)
    requires
        forall|k: u64|
            lo <= k < hi ==> (#[trigger] a.contains_key(k)) == b.contains_key(k) && (
            a.contains_key(k) ==> a[k] == b[k]),
    ensures
        comments_between(a, lo, hi) == comments_between(b, lo, hi),
    decreases hi - lo,
{
    if hi > lo {
        lemma_comments_between_agree(a, b, lo, hi - 1);
    }
}

/// One past the greatest line number.
pub open spec fn line_limit() -> int {
    u64::MAX + 1
}

impl FileCommentsView {
    /// The store without any comment.
    pub open spec fn empty() -> FileCommentsView {
        FileCommentsView { leading: None, others: Map::empty() }
    }

    /// Whether a comment of line `line` is in the store.
    pub open spec fn holds_line(self, line: u64) -> bool {
        self.others.contains_key(line) || (self.leading matches Some(b) && b.covers(line))
    }

    /// The least line of the comments outside the opening block.
    pub open spec fn lowest_line(self) -> u64 {
        choose|k: u64|
            self.others.contains_key(k) && forall|j: u64| self.others.contains_key(j) ==> k <= j
    }

    /// The store with the comment `text` of line `line` put in. Line 1
    /// opens the opening block, the line behind that block continues it, and
    /// every other line stands alone.
    pub open spec fn pushed(self, line: u64, text: Seq<char>) -> FileCommentsView {
        match self.leading {
            None => if line == 1 {
                FileCommentsView {
                    leading: Some(
                        CommentBlockView { span_start: 1, span_end: 2, comments: seq![text] },
                    ),
                    ..self
                }
            } else {
                FileCommentsView { others: self.others.insert(line, text), ..self }
            },
            Some(block) => if block.span_end == line {
                FileCommentsView { leading: Some(block.with_line(text)), ..self }
            } else {
                FileCommentsView { others: self.others.insert(line, text), ..self }
            },
        }
    }

    /// Every comment of the store, the opening block first, the others in
    /// line order.
    pub open spec fn all_comments(self) -> Seq<Seq<char>> {
        (match self.leading {
            Some(b) => b.comments,
            None => Seq::empty(),
        }) + comments_between(self.others, 0, line_limit())
    }

    /// The comments outside the opening block on lines up to `line`, in line
    /// order.
    pub open spec fn comments_to_line(self, line: u64) -> Seq<Seq<char>> {
        comments_between(self.others, 0, line + 1)
    }

    /// The store without the comments outside the opening block on lines up
    /// to `line`.
    pub open spec fn without_lines_to(self, line: u64) -> FileCommentsView {
        FileCommentsView {
            others: self.others.restrict(Set::new(|k: u64| k > line)),
            ..self
        }
    }

    /// The invariant of the store: the opening block starts at line 1 and
    /// covers one line for each of its comments, and no other comment lies
    /// on a line of the block.
    pub open spec fn wf(self) -> bool {
        self.leading matches Some(b) ==> {
            &&& b.span_start == 1
            &&& b.span_end == 1 + b.comments.len()
            &&& forall|l: u64| self.others.contains_key(l) ==> !b.covers(l)
        }
    }

    /// No comment is left.
    pub open spec fn is_empty(self) -> bool {
        self.leading is None && self.others.dom() =~= Set::empty()
    }
}

/// Raw pairs of line and text, the text not yet trimmed.
pub type RawComments = Seq<(i64, Seq<char>)>;

/// Whether pair `i` of `pairs` breaks a rule for what came before it.
pub open spec fn bad_pair(pairs: RawComments, i: int) -> bool {
    ||| pairs[i].0 < 0
    ||| exists|j: int| 0 <= j < i && pairs[j].0 == pairs[i].0
    ||| (pairs[i].0 == 1 && i > 0)
}

/// The rule that pair `i` breaks, the first that applies.
pub open spec fn fault_of(pairs: RawComments, i: int) -> CommentError {
    if pairs[i].0 < 0 {
        CommentError::NegativeLine
    } else if exists|j: int| 0 <= j < i && pairs[j].0 == pairs[i].0 {
        CommentError::DuplicateLine
    } else {
        CommentError::MisplacedFirstLine
    }
}

/// No line number is negative, none occurs twice, and line 1, if it is
/// there, comes first.
pub open spec fn valid_pairs(pairs: RawComments) -> bool {
    forall|i: int| 0 <= i < pairs.len() ==> !bad_pair(pairs, i)
}

/// The store that holds the first `n` of `pairs`, put in one after another,
/// each text trimmed.
pub open spec fn store_of(pairs: RawComments, n: nat) -> FileCommentsView
    decreases n,
{
    if n == 0 || n > pairs.len() {
        FileCommentsView::empty()
    } else {
        store_of(pairs, (n - 1) as nat).pushed(pairs[n - 1].0 as u64, trimmed(pairs[n - 1].1))
    }
}

/// The views of raw pairs.
pub open spec fn raw_view(pairs: Seq<(i64, String)>) -> RawComments {
    Seq::new(pairs.len(), |i: int| (pairs[i].0, pairs[i].1@))
}

impl Default for FileComments {
    fn default() -> (r: Self)
        ensures
            r@ == FileCommentsView::empty(),
            r@.wf(),
    {
        let r = FileComments {
            start_of_file_contiguous_comment_lines: None,
            other_comments: BTreeMap::new(),
        };
        assert(r@.others =~= Map::<u64, Seq<char>>::empty());
        r
    }
}

impl FileComments {
    /// Builds the store from raw pairs of line and text, in the order in
    /// which the comments stand in the file. Each text is trimmed. The pairs
    /// are refused if a line number is negative or occurs twice, or if line
    /// 1 does not come first.
    pub fn from_pairs(pairs: Vec<(i64, String)>) -> (r: Result<Self, CommentError>)
        ensures
            r is Ok <==> valid_pairs(raw_view(pairs@)),
            r matches Ok(fc) ==> fc@ == store_of(raw_view(pairs@), pairs@.len()) && fc@.wf(),
            r matches Err(e) ==> exists|i: int|
                0 <= i < pairs@.len() && #[trigger] bad_pair(raw_view(pairs@), i) && e == fault_of(
                    raw_view(pairs@),
                    i,
                ) && forall|j: int| 0 <= j < i ==> !bad_pair(raw_view(pairs@), j),
    {
        let ghost raw = raw_view(pairs@);
        let mut fc = FileComments::default();
        let mut i: usize = 0;
        while i < pairs.len()
            invariant
                i <= pairs.len(),
                raw == raw_view(pairs@),
                fc@ == store_of(raw, i as nat),
                fc@.wf(),
                forall|j: int| 0 <= j < i ==> !bad_pair(raw, j),
                forall|l: u64|
                    fc@.holds_line(l) <==> exists|j: int| 0 <= j < i && #[trigger] raw[j].0 == l,
                fc@.leading matches Some(b) ==> b.span_start == 1 && 2 <= b.span_end <= i + 1,
                fc@.leading is None ==> forall|j: int| 0 <= j < i ==> #[trigger] raw[j].0 != 1,
            decreases pairs.len() - i,
        {
            let lineno = pairs[i].0;
            assert(raw[i as int] == (pairs@[i as int].0, pairs@[i as int].1@));
            if lineno < 0 {
                assert(bad_pair(raw, i as int));
                return Err(CommentError::NegativeLine);
            }
            let line = lineno as u64;
            if fc.holds_line(line) {
                let ghost j = choose|j: int| 0 <= j < i && #[trigger] raw[j].0 == line;
                assert(raw[j].0 == raw[i as int].0);
                assert(bad_pair(raw, i as int));
                return Err(CommentError::DuplicateLine);
            }
            assert(!exists|j: int| 0 <= j < i && raw[j].0 == raw[i as int].0) by {
                if exists|j: int| 0 <= j < i && raw[j].0 == raw[i as int].0 {
                    let j = choose|j: int| 0 <= j < i && raw[j].0 == raw[i as int].0;
                    assert(raw[j].0 == line);
                    assert(fc@.holds_line(line));
                }
            }
            if line == 1 && i > 0 {
                assert(bad_pair(raw, i as int));
                return Err(CommentError::MisplacedFirstLine);
            }
            assert(!bad_pair(raw, i as int));
            let comment = trim_text(pairs[i].1.as_str());
            let ghost before = fc@;
            proof {
                if line == 1 {
                    assert(i == 0);
                    assert(fc@.leading is None);
                    assert(fc@.others =~= Map::<u64, Seq<char>>::empty());
                }
            }
            fc.push_comment(line, comment);
            proof {
                assert(fc@ == store_of(raw, (i + 1) as nat));
                assert(fc@ == before.pushed(line, comment@));
                assert forall|l: u64| fc@.holds_line(l) == (before.holds_line(l) || l
                    == line) by {
                    match before.leading {
                        None => {
                            if line == 1 {
                                assert(fc@.others == before.others);
                            } else {
                                assert(fc@.others == before.others.insert(line, comment@));
                            }
                        },
                        Some(block) => {
                            if block.span_end == line {
                                assert(fc@.leading == Some(block.with_line(comment@)));
                                assert(line == lineno);
                                assert(block.with_line(comment@).covers(l) == (block.covers(l)
                                    || l == line));
                            } else {
                                assert(fc@.others == before.others.insert(line, comment@));
                            }
                        },
                    }
                }
                assert forall|l: u64| fc@.holds_line(l) implies exists|j: int|
                    0 <= j < i + 1 && #[trigger] raw[j].0 == l by {
                    if before.holds_line(l) {
                        let j = choose|j: int| 0 <= j < i && #[trigger] raw[j].0 == l;
                        assert(0 <= j < i + 1 && raw[j].0 == l);
                    } else {
                        assert(raw[i as int].0 == l);
                    }
                }
                assert forall|l: u64|
                    (exists|j: int| 0 <= j < i + 1 && #[trigger] raw[j].0 == l) implies fc@.holds_line(
                    l,
                ) by {
                    let j = choose|j: int| 0 <= j < i + 1 && #[trigger] raw[j].0 == l;
                    if j < i {
                        assert(before.holds_line(l));
                    }
                }
            }
            i = i + 1;
        }
        Ok(fc)
    }

    /// Whether a comment of line `line` is in the store.
    pub fn holds_line(&self, line: u64) -> (b: bool)
        ensures
            b == self@.holds_line(line),
    {
        let in_block = match &self.start_of_file_contiguous_comment_lines {
            Some(block) => block.span_start() <= line && line < block.following_line_number(),
            None => false,
        };
        let in_others = self.other_comments.contains_key(&line);
        proof {
            broadcast use vstd::std_specs::btree::group_btree_axioms;

            assert(in_others == self@.others.contains_key(line));
        }
        in_others || in_block
    }

    /// Whether no comment is left in the store.
    pub fn is_empty(&self) -> (b: bool)
        ensures
            b == self@.is_empty(),
    {
        let none_left = self.other_comments.is_empty();
        proof {
            assert(self@.others.dom() =~= self.other_comments@.dom());
        }
        self.start_of_file_contiguous_comment_lines.is_none() && none_left
    }

    /// Adds a comment. If the file opens with a comment block, each of its
    /// lines must be put in before any other line: line 1 may only come
    /// while the store is empty. No line may come twice.
    pub fn push_comment(&mut self, line_number: u64, l: String)
        requires
            !old(self)@.holds_line(line_number),
            line_number == 1 && old(self)@.leading is None ==> old(self)@.others.dom()
                =~= Set::<u64>::empty(),
            line_number < u64::MAX,
        ensures
            final(self)@ == old(self)@.pushed(line_number, l@),
            old(self)@.wf() ==> final(self)@.wf(),
    {
        let ghost before = self@;
        let continues_block = match &self.start_of_file_contiguous_comment_lines {
            Some(sled) => sled.following_line_number() == line_number,
            None => false,
        };
        if self.start_of_file_contiguous_comment_lines.is_none() && line_number == 1 {
            let mut lines: Vec<String> = Vec::new();
            lines.push(l);
            let block = CommentBlock::new(1..2, lines);
            assert(block@.comments =~= seq![l@]);
            self.start_of_file_contiguous_comment_lines = Some(block);
            assert forall|k: u64| self@.others.contains_key(k) implies false by {
                assert(before.others.dom().contains(k));
            }
        } else if continues_block {
            match &mut self.start_of_file_contiguous_comment_lines {
                Some(sled) => {
                    sled.add_line(l);
                },
                None => {},
            }
            proof {
                let b = before.leading->0;
                let nb = b.with_line(l@);
                assert(self@.leading == Some(nb));
                if before.wf() {
                    assert forall|k: u64| self@.others.contains_key(k) implies !nb.covers(k) by {
                        assert(before.others.contains_key(k));
                        assert(!b.covers(k));
                        assert(k != line_number);
                    }
                }
            }
        } else {
            proof {
                broadcast use vstd::std_specs::btree::group_btree_axioms;

            }
            self.other_comments.insert(line_number, l);
            assert(self@.others =~= before.others.insert(line_number, l@));
        }
    }

    /// Hands out the block that opens the file, once.
    pub fn take_start_of_file_contiguous_comment_lines(&mut self) -> (r: Option<CommentBlock>)
        ensures
            block_view(r) == old(self)@.leading,
            final(self)@ == (FileCommentsView { leading: None, ..old(self)@ }),
            final(self)@.wf(),
    {
        self.start_of_file_contiguous_comment_lines.take()
    }

    /// Takes out every comment outside the opening block on a line up to
    /// `line_number` and hands them out in line order, as one block that
    /// spans from the lowest remaining line to `line_number`. Nothing is
    /// handed out if there is no such comment on any line. What is left are
    /// comments of lines behind `line_number`: none is handed out again.
    pub fn extract_comments_to_line(&mut self, line_number: u64) -> (r: Option<CommentBlock>)
        requires
            line_number < u64::MAX,
        ensures
            r is None <==> old(self)@.others.dom() =~= Set::<u64>::empty(),
            r is None ==> final(self)@ == old(self)@,
            r matches Some(b) ==> {
                &&& b@.span_start == old(self)@.lowest_line()
                &&& b@.span_end == line_number + 1
                &&& b@.comments == old(self)@.comments_to_line(line_number)
                &&& final(self)@ == old(self)@.without_lines_to(line_number)
            },
            old(self)@.wf() ==> final(self)@.wf(),
            forall|l: u64|
                final(self)@.others.contains_key(l) ==> l > line_number
                    && old(self)@.others.contains_key(l),
    {
        let ghost before = self@;
        let lowest_line = match first_line(&self.other_comments) {
            Some(k) => k,
            None => {
                assert(self@.others.dom() =~= Set::<u64>::empty());
                return None;
            },
        };
        assert(before.others.contains_key(lowest_line));
        assert(before.lowest_line() == lowest_line) by {
            let k = before.lowest_line();
            assert(before.others.contains_key(k) && forall|j: u64|
                before.others.contains_key(j) ==> k <= j);
        }
        let mut comments: Vec<String> = Vec::new();
        let ghost mut bound: int = 0;
        proof {
            lemma_comments_between_none(before.others, 0, 0);
            assert(self@.others =~= before.others.restrict(Set::new(|k: u64| k >= bound)));
        }
        loop
            invariant
                0 <= bound <= line_number + 1,
                self@.leading == before.leading,
                self@.others == before.others.restrict(Set::new(|k: u64| k >= bound)),
                crate::comment_block::texts_of(comments@) == comments_between(
                    before.others,
                    0,
                    bound,
                ),
            ensures
                self@.leading == before.leading,
                self@.others == before.others.restrict(Set::new(|k: u64| k > line_number)),
                crate::comment_block::texts_of(comments@) == comments_between(
                    before.others,
                    0,
                    line_number + 1,
                ),
            decreases line_number + 1 - bound,
        {
            let next = first_line(&self.other_comments);
            let take = match next {
                Some(k) => k <= line_number,
                None => false,
            };
            if !take {
                proof {
                    assert forall|k: u64| bound <= k < line_number + 1 implies !before.others.contains_key(
                        k,
                    ) by {
                        if before.others.contains_key(k) {
                            assert(self@.others.contains_key(k));
                            assert(self.other_comments@.contains_key(k));
                        }
                    }
                    lemma_comments_between_none(before.others, bound, line_number + 1);
                    lemma_comments_between_split(before.others, 0, bound, line_number + 1);
                    assert(self@.others =~= before.others.restrict(
                        Set::new(|k: u64| k > line_number),
                    ));
                }
                break ;
            }
            let ghost held = self@.others;
            let ghost stored = self.other_comments@;
            let k = match next {
                Some(k) => k,
                None => 0,
            };
            proof {
                broadcast use vstd::std_specs::btree::group_btree_axioms;

            }
            match self.other_comments.remove(&k) {
                Some(v) => {
                    proof {
                        broadcast use vstd::std_specs::btree::group_btree_axioms;

                        assert(stored.contains_key(k) && stored[k] == v);
                        assert(self.other_comments@ == stored.remove(k));
                        assert(held.contains_key(k));
                        assert(held[k] == v@);
                        assert(held.dom().contains(k));
                        assert(before.others.contains_key(k) && before.others[k] == v@);
                        assert(bound <= k <= line_number);
                        assert forall|j: u64| bound <= j < k implies !before.others.contains_key(
                            j,
                        ) by {
                            if before.others.contains_key(j) {
                                assert(held.contains_key(j));
                            }
                        }
                        lemma_comments_between_none(before.others, bound, k as int);
                        lemma_comments_between_split(before.others, 0, bound, k as int);
                        assert(comments_between(before.others, 0, k + 1) == comments_between(
                            before.others,
                            0,
                            k as int,
                        ) + seq![v@]);
                        let now = self@.others;
                        let target = before.others.restrict(Set::new(|j: u64| j >= k + 1));
                        assert(now =~= held.remove(k));
                        assert forall|j: u64| now.dom().contains(j) == target.dom().contains(
                            j,
                        ) by {
                            if j < k && before.others.contains_key(j) && j >= bound {
                                assert(held.contains_key(j));
                            }
                        }
                        assert(now =~= target);
                        bound = k + 1;
                    }
                    comments.push(v);
                    assert(crate::comment_block::texts_of(comments@) =~= comments_between(
                        before.others,
                        0,
                        bound,
                    ));
                },
                None => {
                    proof {
                        assert(false);
                    }
                    break ;
                },
            }
        }
        Some(CommentBlock::new(lowest_line..line_number + 1, comments))
    }
}

} // verus!

//! The rendering IR: a token is either finished text or a nested breakable
//! group. Every contract here speaks of a token through its view, in which
//! strings are sequences of characters and a group is a sequence of views.
use vstd::prelude::*;
use vstd::string::*;
use crate::render_targets::BreakableEntry;
use crate::render_targets::GroupView;
use crate::text::blanks;
use crate::text::joined;
use crate::text::same_text;
use crate::text::spaces;

verus! {

/// One unit of output.
#[derive(Debug)]
pub enum LineToken {
    CollapsingNewLine,
    HardNewLine,
    SoftNewline,
    Indent { depth: u32 },
    SoftIndent { depth: u32 },
    Keyword { keyword: String },
    DefKeyword,
    ClassKeyword,
    ModuleKeyword,
    DoKeyword,
    ModKeyword { contents: String },
    ConditionalKeyword { contents: String },
    DirectPart { part: String },
    CommaSpace,
    Comma,
    Space,
    Dot,
    ColonColon,
    LonelyOperator,
    OpenSquareBracket,
    CloseSquareBracket,
    OpenCurlyBracket,
    CloseCurlyBracket,
    OpenParen,
    CloseParen,
    BreakableEntry(BreakableEntry),
    Op { op: String },
    DoubleQuote,
    LTStringContent { content: String },
    SingleSlash,
    Comment { contents: String },
    Delim { contents: String },
    End,
}

impl Clone for LineToken {
    fn clone(&self) -> (r: Self)
        ensures
            r@ == self@,
    {
        self.duplicate()
    }
}

/// The mathematical value of a token.
pub enum TokenView {
    CollapsingNewLine,
    HardNewLine,
    SoftNewline,
    Indent { depth: u32 },
    SoftIndent { depth: u32 },
    Keyword { keyword: Seq<char> },
    DefKeyword,
    ClassKeyword,
    ModuleKeyword,
    DoKeyword,
    ModKeyword { contents: Seq<char> },
    ConditionalKeyword { contents: Seq<char> },
    DirectPart { part: Seq<char> },
    CommaSpace,
    Comma,
    Space,
    Dot,
    ColonColon,
    LonelyOperator,
    OpenSquareBracket,
    CloseSquareBracket,
    OpenCurlyBracket,
    CloseCurlyBracket,
    OpenParen,
    CloseParen,
    BreakableEntry(GroupView),
    Op { op: Seq<char> },
    DoubleQuote,
    LTStringContent { content: Seq<char> },
    SingleSlash,
    Comment { contents: Seq<char> },
    Delim { contents: Seq<char> },
    End,
}

impl View for LineToken {
    type V = TokenView;

    open spec fn view(&self) -> TokenView
        decreases self,
    {
        match self {
            LineToken::CollapsingNewLine => TokenView::CollapsingNewLine,
            LineToken::HardNewLine => TokenView::HardNewLine,
            LineToken::SoftNewline => TokenView::SoftNewline,
            LineToken::Indent { depth } => TokenView::Indent { depth: *depth },
            LineToken::SoftIndent { depth } => TokenView::SoftIndent { depth: *depth },
            LineToken::Keyword { keyword } => TokenView::Keyword { keyword: keyword@ },
            LineToken::DefKeyword => TokenView::DefKeyword,
            LineToken::ClassKeyword => TokenView::ClassKeyword,
            LineToken::ModuleKeyword => TokenView::ModuleKeyword,
            LineToken::DoKeyword => TokenView::DoKeyword,
            LineToken::ModKeyword { contents } => TokenView::ModKeyword { contents: contents@ },
            LineToken::ConditionalKeyword { contents } => TokenView::ConditionalKeyword {
                contents: contents@,
            },
            LineToken::DirectPart { part } => TokenView::DirectPart { part: part@ },
            LineToken::CommaSpace => TokenView::CommaSpace,
            LineToken::Comma => TokenView::Comma,
            LineToken::Space => TokenView::Space,
            LineToken::Dot => TokenView::Dot,
            LineToken::ColonColon => TokenView::ColonColon,
            LineToken::LonelyOperator => TokenView::LonelyOperator,
            LineToken::OpenSquareBracket => TokenView::OpenSquareBracket,
            LineToken::CloseSquareBracket => TokenView::CloseSquareBracket,
            LineToken::OpenCurlyBracket => TokenView::OpenCurlyBracket,
            LineToken::CloseCurlyBracket => TokenView::CloseCurlyBracket,
            LineToken::OpenParen => TokenView::OpenParen,
            LineToken::CloseParen => TokenView::CloseParen,
            LineToken::BreakableEntry(be) => TokenView::BreakableEntry(be@),
            LineToken::Op { op } => TokenView::Op { op: op@ },
            LineToken::DoubleQuote => TokenView::DoubleQuote,
            LineToken::LTStringContent { content } => TokenView::LTStringContent {
                content: content@,
            },
            LineToken::SingleSlash => TokenView::SingleSlash,
            LineToken::Comment { contents } => TokenView::Comment { contents: contents@ },
            LineToken::Delim { contents } => TokenView::Delim { contents: contents@ },
            LineToken::End => TokenView::End,
        }
    }
}

/// The views of the first `n` tokens of `s`, in order.
pub open spec fn token_views_upto(s: Seq<LineToken>, n: nat) -> Seq<TokenView>
    decreases s, n,
{
    if n == 0 || n > s.len() {
        Seq::empty()
    } else {
        token_views_upto(s, (n - 1) as nat).push(s[n - 1]@)
    }
}

/// The views of the tokens of `s`, in order.
pub open spec fn token_views(s: Seq<LineToken>) -> Seq<TokenView>
    decreases s, s.len() + 1,
{
    token_views_upto(s, s.len())
}

/// `token_views_upto` keeps length and order.
pub proof fn lemma_token_views_upto(s: Seq<LineToken>, n: nat)
    requires
        n <= s.len(),
    ensures
        token_views_upto(s, n).len() == n,
        forall|i: int|
            #![trigger token_views_upto(s, n)[i]]
            #![trigger s[i]]
            0 <= i < n ==> token_views_upto(s, n)[i] == s[i]@,
    decreases n,
{
    if n > 0 {
        lemma_token_views_upto(s, (n - 1) as nat);
        assert(token_views_upto(s, n) == token_views_upto(s, (n - 1) as nat).push(s[n - 1]@));
    }
}

/// `token_views` maps position by position.
pub broadcast proof fn lemma_token_views(s: Seq<LineToken>)
    ensures
        (#[trigger] token_views(s)).len() == s.len(),
        forall|i: int|
            #![trigger token_views(s)[i]]
            #![trigger s[i]]
            0 <= i < s.len() ==> token_views(s)[i] == s[i]@,
{
    lemma_token_views_upto(s, s.len());
}

/// Views commute with `push`.
pub proof fn lemma_token_views_push(s: Seq<LineToken>, t: LineToken)
    ensures
        token_views(s.push(t)) == token_views(s).push(t@),
{
    lemma_token_views(s);
    lemma_token_views(s.push(t));
    assert(token_views(s.push(t)) =~= token_views(s).push(t@));
}

/// Views commute with `insert`.
pub proof fn lemma_token_views_insert(s: Seq<LineToken>, i: int, t: LineToken)
    requires
        0 <= i <= s.len(),
    ensures
        token_views(s.insert(i, t)) == token_views(s).insert(i, t@),
{
    lemma_token_views(s);
    lemma_token_views(s.insert(i, t));
    assert(token_views(s.insert(i, t)) =~= token_views(s).insert(i, t@));
}

/// Views commute with `remove`.
pub proof fn lemma_token_views_remove(s: Seq<LineToken>, i: int)
    requires
        0 <= i < s.len(),
    ensures
        token_views(s.remove(i)) == token_views(s).remove(i),
{
    lemma_token_views(s);
    lemma_token_views(s.remove(i));
    assert(token_views(s.remove(i)) =~= token_views(s).remove(i));
}

impl TokenView {
    /// The token as it stands in a group rendered on one line: a collapsing
    /// newline and a soft indent vanish, a soft newline becomes a blank.
    pub open spec fn single_line(self) -> TokenView {
        match self {
            TokenView::CollapsingNewLine => TokenView::DirectPart { part: Seq::empty() },
            TokenView::SoftNewline => TokenView::Space,
            TokenView::SoftIndent { .. } => TokenView::DirectPart { part: Seq::empty() },
            x => x,
        }
    }

    /// The token as it stands in a group rendered over several lines.
    pub open spec fn multi_line(self) -> TokenView {
        self
    }

    pub open spec fn is_indent(self) -> bool {
        self is Indent
    }

    pub open spec fn is_comment(self) -> bool {
        self is Comment
    }

    /// One of the three newline tokens.
    pub open spec fn is_newline(self) -> bool {
        self is HardNewLine || self is SoftNewline || self is CollapsingNewLine
    }

    /// Literal text that is one newline and nothing else. No emitter makes
    /// such a token, and the newline queries do not take one.
    pub open spec fn is_newline_part(self) -> bool {
        self matches TokenView::DirectPart { part } && part == "\n"@
    }

    /// `end`, or a literal closing bracket.
    pub open spec fn is_block_closing_token(self) -> bool {
        match self {
            TokenView::End => true,
            TokenView::DirectPart { part } => part == "}"@ || part == "]"@,
            _ => false,
        }
    }

    /// Anything but `else` and `elsif`.
    pub open spec fn is_conditional_spaced_token(self) -> bool {
        match self {
            TokenView::ConditionalKeyword { contents } => !(contents == "else"@ || contents
                == "elsif"@),
            _ => true,
        }
    }

    /// Whether a blank line belongs between a closed block and this token.
    pub open spec fn is_in_need_of_a_trailing_blankline(self) -> bool {
        self.is_conditional_spaced_token() && !self.is_block_closing_token()
    }

    /// A separator that may not stand before the close delimiter of a group
    /// rendered on one line.
    pub open spec fn is_single_line_breakable_garbage(self) -> bool {
        match self {
            TokenView::Comma => true,
            TokenView::Space => true,
            TokenView::SoftNewline => true,
            TokenView::DirectPart { part } => part.len() == 0,
            _ => false,
        }
    }

    /// The literal text of the token. A nested group stands for itself on
    /// one line: its single-line delimiters round the single-line text of
    /// its children.
    pub open spec fn text(self) -> Seq<char>
        decreases self,
    {
        match self {
            TokenView::CollapsingNewLine => "\n"@,
            TokenView::HardNewLine => "\n"@,
            TokenView::SoftNewline => "\n"@,
            TokenView::Indent { depth } => spaces(depth as nat),
            TokenView::SoftIndent { depth } => spaces(depth as nat),
            TokenView::Keyword { keyword } => keyword,
            TokenView::ModKeyword { contents } => contents,
            TokenView::ConditionalKeyword { contents } => contents,
            TokenView::DoKeyword => "do"@,
            TokenView::ClassKeyword => "class"@,
            TokenView::DefKeyword => "def"@,
            TokenView::ModuleKeyword => "module"@,
            TokenView::DirectPart { part } => part,
            TokenView::CommaSpace => ", "@,
            TokenView::Comma => ","@,
            TokenView::Space => " "@,
            TokenView::Dot => "."@,
            TokenView::ColonColon => "::"@,
            TokenView::LonelyOperator => "&."@,
            TokenView::OpenSquareBracket => "["@,
            TokenView::CloseSquareBracket => "]"@,
            TokenView::OpenCurlyBracket => "{"@,
            TokenView::CloseCurlyBracket => "}"@,
            TokenView::OpenParen => "("@,
            TokenView::CloseParen => ")"@,
            TokenView::BreakableEntry(g) => g.delims.single_open + single_line_text_upto(
                g.tokens,
                g.tokens.len(),
            ) + g.delims.single_close,
            TokenView::Op { op } => op,
            TokenView::DoubleQuote => "\""@,
            TokenView::LTStringContent { content } => content,
            TokenView::SingleSlash => "\\"@,
            TokenView::Comment { contents } => contents + "\n"@,
            TokenView::Delim { contents } => contents,
            TokenView::End => "end"@,
        }
    }

    /// The text of the token in a group rendered on one line.
    pub open spec fn single_line_text(self) -> Seq<char> {
        self.single_line().text()
    }
}

/// The single-line texts of the first `n` tokens of `ts`, one after another.
pub open spec fn single_line_text_upto(ts: Seq<TokenView>, n: nat) -> Seq<char>
    decreases ts, n,
{
    if n == 0 || n > ts.len() {
        Seq::empty()
    } else {
        single_line_text_upto(ts, (n - 1) as nat) + (match ts[n - 1] {
            TokenView::CollapsingNewLine => Seq::empty(),
            TokenView::SoftNewline => " "@,
            TokenView::SoftIndent { .. } => Seq::empty(),
            t => t.text(),
        })
    }
}

/// Each step of `single_line_text_upto` adds the single-line text of one
/// token.
pub proof fn lemma_single_line_text_step(ts: Seq<TokenView>, n: nat)
    requires
        0 < n <= ts.len(),
    ensures
        single_line_text_upto(ts, n) == single_line_text_upto(ts, (n - 1) as nat) + ts[n
            - 1].single_line_text(),
{
}

impl TokenView {
    /// How many groups the token holds, itself included.
    pub open spec fn group_count(self) -> nat
        decreases self,
    {
        match self {
            TokenView::BreakableEntry(g) => 1 + group_count_upto(g.tokens, g.tokens.len()),
            _ => 0,
        }
    }
}

/// How many groups the first `n` tokens of `ts` hold.
pub open spec fn group_count_upto(ts: Seq<TokenView>, n: nat) -> nat
    decreases ts, n,
{
    if n == 0 || n > ts.len() {
        0
    } else {
        group_count_upto(ts, (n - 1) as nat) + ts[n - 1].group_count()
    }
}

/// A token holds no more groups than the sequence it stands in.
pub proof fn lemma_group_count_member(ts: Seq<TokenView>, n: nat, i: int)
    requires
        0 <= i < n <= ts.len(),
    ensures
        ts[i].group_count() <= group_count_upto(ts, n),
    decreases n,
{
    assert(group_count_upto(ts, n) == group_count_upto(ts, (n - 1) as nat) + ts[n
        - 1].group_count());
    if i < n - 1 {
        lemma_group_count_member(ts, (n - 1) as nat, i);
    }
}

impl TokenView {
    /// How many comments the token holds: one for a comment, those of its
    /// children for a group.
    pub open spec fn comment_count(self) -> nat
        decreases self,
    {
        match self {
            TokenView::Comment { .. } => 1,
            TokenView::BreakableEntry(g) => comment_count_upto(g.tokens, g.tokens.len()),
            _ => 0,
        }
    }
}

/// How many comments the first `n` tokens of `ts` hold.
pub open spec fn comment_count_upto(ts: Seq<TokenView>, n: nat) -> nat
    decreases ts, n,
{
    if n == 0 || n > ts.len() {
        0
    } else {
        comment_count_upto(ts, (n - 1) as nat) + ts[n - 1].comment_count()
    }
}

/// How many comments the tokens of `ts` hold, nested groups included.
pub open spec fn comments_in(ts: Seq<TokenView>) -> nat {
    comment_count_upto(ts, ts.len())
}

impl TokenView {
    /// The texts of the comments that the token holds, in order: its own
    /// for a comment, those of its children for a group.
    pub open spec fn comment_texts(self) -> Seq<Seq<char>>
        decreases self,
    {
        match self {
            TokenView::Comment { contents } => seq![contents],
            TokenView::BreakableEntry(g) => comment_texts_upto(g.tokens, g.tokens.len()),
            _ => Seq::empty(),
        }
    }
}

/// The texts of the comments that the first `n` tokens of `ts` hold, in
/// order.
pub open spec fn comment_texts_upto(ts: Seq<TokenView>, n: nat) -> Seq<Seq<char>>
    decreases ts, n,
{
    if n == 0 || n > ts.len() {
        Seq::empty()
    } else {
        comment_texts_upto(ts, (n - 1) as nat) + ts[n - 1].comment_texts()
    }
}

/// The texts of the comments of `ts` in order, nested groups included.
pub open spec fn comment_texts_in(ts: Seq<TokenView>) -> Seq<Seq<char>> {
    comment_texts_upto(ts, ts.len())
}

impl TokenView {
    /// Whether the line that is being written holds an indent once the
    /// token went through, `seen` saying whether it held one before. A hard
    /// newline starts a line, an indent marks it, and a group passes on
    /// what its children leave.
    pub open spec fn line_has_indent_after(self, seen: bool) -> bool
        decreases self,
    {
        match self {
            TokenView::BreakableEntry(g) => line_has_indent_upto(seen, g.tokens, g.tokens.len()),
            TokenView::HardNewLine => false,
            TokenView::Indent { .. } => true,
            _ => seen,
        }
    }

    /// Whether the token brings no line a second indent, `seen` saying
    /// whether the line that is being written holds one.
    pub open spec fn indents_once(self, seen: bool) -> bool
        decreases self,
    {
        match self {
            TokenView::BreakableEntry(g) => indents_once_upto(seen, g.tokens, g.tokens.len()),
            TokenView::Indent { .. } => !seen,
            _ => true,
        }
    }
}

/// Whether the line that is being written holds an indent once the first
/// `n` tokens of `ts` went through.
pub open spec fn line_has_indent_upto(seen: bool, ts: Seq<TokenView>, n: nat) -> bool
    decreases ts, n,
{
    if n == 0 || n > ts.len() {
        seen
    } else {
        ts[n - 1].line_has_indent_after(line_has_indent_upto(seen, ts, (n - 1) as nat))
    }
}

/// Whether the first `n` tokens of `ts` bring no line a second indent.
pub open spec fn indents_once_upto(seen: bool, ts: Seq<TokenView>, n: nat) -> bool
    decreases ts, n,
{
    if n == 0 || n > ts.len() {
        true
    } else {
        indents_once_upto(seen, ts, (n - 1) as nat) && ts[n - 1].indents_once(
            line_has_indent_upto(seen, ts, (n - 1) as nat),
        )
    }
}

/// Whether every line of `ts` holds at most one indent, nested groups
/// included. Only a hard newline starts a line.
pub open spec fn one_indent_a_line(ts: Seq<TokenView>) -> bool {
    indents_once_upto(false, ts, ts.len())
}

/// What a walk over a stream found: `None` if a line got a second indent,
/// else whether the line that is being written holds one.
pub open spec fn indent_walk(seen: bool, ts: Seq<TokenView>, n: nat) -> Option<bool> {
    if indents_once_upto(seen, ts, n) {
        Some(line_has_indent_upto(seen, ts, n))
    } else {
        None
    }
}

/// Walks over `tokens` and tells whether a line gets a second indent.
pub fn walk_indents(tokens: &Vec<LineToken>, seen: bool) -> (r: Option<bool>)
    ensures
        r == indent_walk(seen, token_views(tokens@), tokens@.len()),
{
    let ghost ts = token_views(tokens@);
    proof {
        lemma_token_views(tokens@);
    }
    let mut now: bool = seen;
    let mut i: usize = 0;
    while i < tokens.len()
        invariant
            i <= tokens.len(),
            ts == token_views(tokens@),
            ts.len() == tokens@.len(),
            indents_once_upto(seen, ts, i as nat),
            now == line_has_indent_upto(seen, ts, i as nat),
        decreases tokens.len() - i,
    {
        proof {
            lemma_token_views(tokens@);
        }
        match tokens[i].walk_indents(now) {
            None => {
                assert(!indents_once_upto(seen, ts, (i + 1) as nat));
                proof {
                    if indents_once_upto(seen, ts, ts.len()) {
                        lemma_indents_once_prefix(seen, ts, (i + 1) as nat, ts.len());
                    }
                }
                return None;
            },
            Some(h) => {
                now = h;
            },
        }
        i = i + 1;
    }
    Some(now)
}

/// If the first `m` tokens bring no line a second indent, neither do the
/// first `n` of them.
pub proof fn lemma_indents_once_prefix(seen: bool, ts: Seq<TokenView>, n: nat, m: nat)
    requires
        n <= m <= ts.len(),
        indents_once_upto(seen, ts, m),
    ensures
        indents_once_upto(seen, ts, n),
    decreases m,
{
    if n < m {
        lemma_indents_once_prefix(seen, ts, n, (m - 1) as nat);
    }
}

impl LineToken {
    /// A copy of the token, nested groups included.
    pub fn duplicate(&self) -> (r: Self)
        ensures
            r@ == self@,
        decreases self, 1nat,
    {
        match self {
            LineToken::CollapsingNewLine => LineToken::CollapsingNewLine,
            LineToken::HardNewLine => LineToken::HardNewLine,
            LineToken::SoftNewline => LineToken::SoftNewline,
            LineToken::Indent { depth } => LineToken::Indent { depth: *depth },
            LineToken::SoftIndent { depth } => LineToken::SoftIndent { depth: *depth },
            LineToken::Keyword { keyword } => LineToken::Keyword { keyword: keyword.clone() },
            LineToken::DefKeyword => LineToken::DefKeyword,
            LineToken::ClassKeyword => LineToken::ClassKeyword,
            LineToken::ModuleKeyword => LineToken::ModuleKeyword,
            LineToken::DoKeyword => LineToken::DoKeyword,
            LineToken::ModKeyword { contents } => LineToken::ModKeyword {
                contents: contents.clone(),
            },
            LineToken::ConditionalKeyword { contents } => LineToken::ConditionalKeyword {
                contents: contents.clone(),
            },
            LineToken::DirectPart { part } => LineToken::DirectPart { part: part.clone() },
            LineToken::CommaSpace => LineToken::CommaSpace,
            LineToken::Comma => LineToken::Comma,
            LineToken::Space => LineToken::Space,
            LineToken::Dot => LineToken::Dot,
            LineToken::ColonColon => LineToken::ColonColon,
            LineToken::LonelyOperator => LineToken::LonelyOperator,
            LineToken::OpenSquareBracket => LineToken::OpenSquareBracket,
            LineToken::CloseSquareBracket => LineToken::CloseSquareBracket,
            LineToken::OpenCurlyBracket => LineToken::OpenCurlyBracket,
            LineToken::CloseCurlyBracket => LineToken::CloseCurlyBracket,
            LineToken::OpenParen => LineToken::OpenParen,
            LineToken::CloseParen => LineToken::CloseParen,
            LineToken::BreakableEntry(be) => LineToken::BreakableEntry(be.duplicate()),
            LineToken::Op { op } => LineToken::Op { op: op.clone() },
            LineToken::DoubleQuote => LineToken::DoubleQuote,
            LineToken::LTStringContent { content } => LineToken::LTStringContent {
                content: content.clone(),
            },
            LineToken::SingleSlash => LineToken::SingleSlash,
            LineToken::Comment { contents } => LineToken::Comment { contents: contents.clone() },
            LineToken::Delim { contents } => LineToken::Delim { contents: contents.clone() },
            LineToken::End => LineToken::End,
        }
    }

    /// Walks over the token and tells whether a line gets a second indent.
    pub fn walk_indents(&self, seen: bool) -> (r: Option<bool>)
        ensures
            r == (if self@.indents_once(seen) {
                Some(self@.line_has_indent_after(seen))
            } else {
                None
            }),
        decreases self, 1nat,
    {
        match self {
            LineToken::BreakableEntry(be) => be.walk_indents(seen),
            LineToken::HardNewLine => Some(false),
            LineToken::Indent { .. } => if seen {
                None
            } else {
                Some(true)
            },
            _ => Some(seen),
        }
    }
}

/// The texts of the first `n` tokens of `ts`, one after another.
pub open spec fn text_upto(ts: Seq<TokenView>, n: nat) -> Seq<char>
    decreases n,
{
    if n == 0 || n > ts.len() {
        Seq::empty()
    } else {
        text_upto(ts, (n - 1) as nat) + ts[n - 1].text()
    }
}

/// The texts of all tokens of `ts`, one after another: what the serializer
/// writes for a flat stream.
pub open spec fn text_of(ts: Seq<TokenView>) -> Seq<char> {
    text_upto(ts, ts.len())
}

impl LineToken {
    /// Converts the token for a group rendered on one line.
    pub fn into_single_line(self) -> (r: LineToken)
        ensures
            r@ == self@.single_line(),
    {
        match self {
            LineToken::CollapsingNewLine => LineToken::DirectPart { part: String::new() },
            LineToken::SoftNewline => LineToken::Space,
            LineToken::SoftIndent { .. } => LineToken::DirectPart { part: String::new() },
            x => x,
        }
    }

    /// Converts the token for a group rendered over several lines: it stays
    /// as it is.
    pub fn into_multi_line(self) -> (r: LineToken)
        ensures
            r@ == self@.multi_line(),
    {
        self
    }

    pub fn is_indent(&self) -> (b: bool)
        ensures
            b == self@.is_indent(),
    {
        match self {
            LineToken::Indent { .. } => true,
            _ => false,
        }
    }

    pub fn is_comment(&self) -> (b: bool)
        ensures
            b == self@.is_comment(),
    {
        match self {
            LineToken::Comment { .. } => true,
            _ => false,
        }
    }

    /// Whether this is literal text that is one newline and nothing else.
    pub fn is_newline_part(&self) -> (b: bool)
        ensures
            b == self@.is_newline_part(),
    {
        match self {
            LineToken::DirectPart { part } => {
                proof {
                    reveal_strlit("\n");
                }
                same_text(part, "\n")
            },
            _ => false,
        }
    }

    /// Whether this is one of the three newline tokens. Literal text that
    /// is a lone newline is not to be asked.
    pub fn is_newline(&self) -> (b: bool)
        requires
            !self@.is_newline_part(),
        ensures
            b == self@.is_newline(),
    {
        match self {
            LineToken::HardNewLine => true,
            LineToken::SoftNewline => true,
            LineToken::CollapsingNewLine => true,
            _ => false,
        }
    }

    /// The literal text of the token.
    pub fn into_ruby(self) -> (s: String)
        ensures
            s@ == self@.text(),
    {
        self.ruby_text()
    }

    /// The literal text of the token, leaving the token in place.
    pub fn ruby_text(&self) -> (s: String)
        ensures
            s@ == self@.text(),
        decreases self, 0nat,
    {
        match self {
            LineToken::CollapsingNewLine => "\n".to_string(),
            LineToken::HardNewLine => "\n".to_string(),
            LineToken::SoftNewline => "\n".to_string(),
            LineToken::Indent { depth } => blanks(*depth),
            LineToken::SoftIndent { depth } => blanks(*depth),
            LineToken::Keyword { keyword } => keyword.clone(),
            LineToken::ModKeyword { contents } => contents.clone(),
            LineToken::ConditionalKeyword { contents } => contents.clone(),
            LineToken::DoKeyword => "do".to_string(),
            LineToken::ClassKeyword => "class".to_string(),
            LineToken::DefKeyword => "def".to_string(),
            LineToken::ModuleKeyword => "module".to_string(),
            LineToken::DirectPart { part } => part.clone(),
            LineToken::CommaSpace => ", ".to_string(),
            LineToken::Comma => ",".to_string(),
            LineToken::Space => " ".to_string(),
            LineToken::Dot => ".".to_string(),
            LineToken::ColonColon => "::".to_string(),
            LineToken::LonelyOperator => "&.".to_string(),
            LineToken::OpenSquareBracket => "[".to_string(),
            LineToken::CloseSquareBracket => "]".to_string(),
            LineToken::OpenCurlyBracket => "{".to_string(),
            LineToken::CloseCurlyBracket => "}".to_string(),
            LineToken::OpenParen => "(".to_string(),
            LineToken::CloseParen => ")".to_string(),
            LineToken::BreakableEntry(be) => be.single_line_ruby(),
            LineToken::Op { op } => op.clone(),
            LineToken::DoubleQuote => "\"".to_string(),
            LineToken::LTStringContent { content } => content.clone(),
            LineToken::SingleSlash => "\\".to_string(),
            LineToken::Comment { contents } => joined(contents, "\n"),
            LineToken::Delim { contents } => contents.clone(),
            LineToken::End => "end".to_string(),
        }
    }

    /// The text of the token in a group rendered on one line, leaving the
    /// token in place.
    pub fn single_line_ruby_text(&self) -> (s: String)
        ensures
            s@ == self@.single_line_text(),
        decreases self, 1nat,
    {
        match self {
            LineToken::CollapsingNewLine => String::new(),
            LineToken::SoftNewline => " ".to_string(),
            LineToken::SoftIndent { .. } => String::new(),
            x => x.ruby_text(),
        }
    }

    pub fn is_in_need_of_a_trailing_blankline(&self) -> (b: bool)
        ensures
            b == self@.is_in_need_of_a_trailing_blankline(),
    {
        self.is_conditional_spaced_token() && !self.is_block_closing_token()
    }

    pub fn is_block_closing_token(&self) -> (b: bool)
        ensures
            b == self@.is_block_closing_token(),
    {
        match self {
            LineToken::End => true,
            LineToken::DirectPart { part } => same_text(part, "}") || same_text(part, "]"),
            _ => false,
        }
    }

    pub fn is_conditional_spaced_token(&self) -> (b: bool)
        ensures
            b == self@.is_conditional_spaced_token(),
    {
        match self {
            LineToken::ConditionalKeyword { contents } => !(same_text(contents, "else")
                || same_text(contents, "elsif")),
            _ => true,
        }
    }

    pub fn is_single_line_breakable_garbage(&self) -> (b: bool)
        ensures
            b == self@.is_single_line_breakable_garbage(),
    {
        match self {
            LineToken::Comma => true,
            LineToken::Space => true,
            LineToken::SoftNewline => true,
            LineToken::DirectPart { part } => part.as_str().is_empty(),
            _ => false,
        }
    }
}

} // verus!

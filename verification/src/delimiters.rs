//! Delimiter policies: the open and close strings of a breakable group, one
//! pair for each of its two layouts.
use vstd::prelude::*;
use crate::line_tokens::LineToken;
use crate::line_tokens::TokenView;

verus! {

#[derive(Debug, Clone)]
struct DelimiterPair {
    open: String,
    close: String,
}

impl DelimiterPair {
    fn new(open: String, close: String) -> (p: Self)
        ensures
            p.open@ == open@,
            p.close@ == close@,
    {
        DelimiterPair { open, close }
    }
}

/// The four delimiter strings of a group.
#[derive(Debug, Clone)]
pub struct BreakableDelims {
    single_line: DelimiterPair,
    multi_line: DelimiterPair,
}

/// What a delimiter policy holds: the four strings.
pub struct DelimsView {
    pub single_open: Seq<char>,
    pub single_close: Seq<char>,
    pub multi_open: Seq<char>,
    pub multi_close: Seq<char>,
}

impl View for BreakableDelims {
    type V = DelimsView;

    closed spec fn view(&self) -> DelimsView {
        DelimsView {
            single_open: self.single_line.open@,
            single_close: self.single_line.close@,
            multi_open: self.multi_line.open@,
            multi_close: self.multi_line.close@,
        }
    }
}

impl DelimsView {
    /// The policy with the given four strings.
    pub open spec fn of(
        single_open: Seq<char>,
        single_close: Seq<char>,
        multi_open: Seq<char>,
        multi_close: Seq<char>,
    ) -> DelimsView {
        DelimsView { single_open, single_close, multi_open, multi_close }
    }

    /// The open delimiter of the chosen layout.
    pub open spec fn open_for(self, multi_line: bool) -> Seq<char> {
        if multi_line {
            self.multi_open
        } else {
            self.single_open
        }
    }

    /// The close delimiter of the chosen layout.
    pub open spec fn close_for(self, multi_line: bool) -> Seq<char> {
        if multi_line {
            self.multi_close
        } else {
            self.single_close
        }
    }
}

impl BreakableDelims {
    fn build(single_open: &str, single_close: &str, multi_open: &str, multi_close: &str) -> (d: Self)
        ensures
            d@ == DelimsView::of(single_open@, single_close@, multi_open@, multi_close@),
    {
        BreakableDelims {
            single_line: DelimiterPair::new(single_open.to_string(), single_close.to_string()),
            multi_line: DelimiterPair::new(multi_open.to_string(), multi_close.to_string()),
        }
    }

    /// Arguments of a method call: parentheses in both layouts.
    pub fn for_method_call() -> (d: Self)
        ensures
            d@ == DelimsView::of("("@, ")"@, "("@, ")"@),
    {
        Self::build("(", ")", "(", ")")
    }

    /// Arguments of `return`: a blank on one line, square brackets on several.
    pub fn for_return_kw() -> (d: Self)
        ensures
            d@ == DelimsView::of(" "@, ""@, " ["@, "]"@),
    {
        Self::build(" ", "", " [", "]")
    }

    /// Arguments of a keyword such as `yield`: a blank on one line,
    /// parentheses on several.
    pub fn for_kw() -> (d: Self)
        ensures
            d@ == DelimsView::of(" "@, ""@, "("@, ")"@),
    {
        Self::build(" ", "", "(", ")")
    }

    /// Block parameters: pipes in both layouts.
    pub fn for_block_params() -> (d: Self)
        ensures
            d@ == DelimsView::of(" |"@, "|"@, " |"@, "|"@),
    {
        Self::build(" |", "|", " |", "|")
    }

    /// Array literal: square brackets in both layouts.
    pub fn for_array() -> (d: Self)
        ensures
            d@ == DelimsView::of("["@, "]"@, "["@, "]"@),
    {
        Self::build("[", "]", "[", "]")
    }

    /// Values of a `when` clause: a blank on one line, nothing on several.
    pub fn for_when() -> (d: Self)
        ensures
            d@ == DelimsView::of(" "@, ""@, ""@, ""@),
    {
        Self::build(" ", "", "", "")
    }

    /// Hash literal: curly brackets in both layouts.
    pub fn for_hash() -> (d: Self)
        ensures
            d@ == DelimsView::of("{"@, "}"@, "{"@, "}"@),
    {
        Self::build("{", "}", "{", "}")
    }

    /// The token that opens the group on one line.
    pub fn single_line_open(&self) -> (t: LineToken)
        ensures
            t@ == (TokenView::Delim { contents: self@.single_open }),
    {
        LineToken::Delim { contents: self.single_line.open.clone() }
    }

    /// The token that closes the group on one line.
    pub fn single_line_close(&self) -> (t: LineToken)
        ensures
            t@ == (TokenView::Delim { contents: self@.single_close }),
    {
        LineToken::Delim { contents: self.single_line.close.clone() }
    }

    /// The token that opens the group over several lines.
    pub fn multi_line_open(&self) -> (t: LineToken)
        ensures
            t@ == (TokenView::Delim { contents: self@.multi_open }),
    {
        LineToken::Delim { contents: self.multi_line.open.clone() }
    }

    /// The token that closes the group over several lines.
    pub fn multi_line_close(&self) -> (t: LineToken)
        ensures
            t@ == (TokenView::Delim { contents: self@.multi_close }),
    {
        LineToken::Delim { contents: self.multi_line.close.clone() }
    }

    /// The open delimiter for one line, as text.
    pub fn single_open_text(&self) -> (s: String)
        ensures
            s@ == self@.single_open,
    {
        self.single_line.open.clone()
    }

    /// The close delimiter for one line, as text.
    pub fn single_close_text(&self) -> (s: String)
        ensures
            s@ == self@.single_close,
    {
        self.single_line.close.clone()
    }

    /// A copy of this policy.
    pub fn duplicate(&self) -> (d: Self)
        ensures
            d@ == self@,
    {
        BreakableDelims {
            single_line: DelimiterPair::new(self.single_line.open.clone(), self.single_line.close.clone()),
            multi_line: DelimiterPair::new(self.multi_line.open.clone(), self.multi_line.close.clone()),
        }
    }
}

} // verus!

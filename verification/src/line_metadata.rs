//! What the blank-line pass remembers of one logical line.
use vstd::prelude::*;

verus! {

/// Flags of one logical line, made fresh at every hard newline.
#[derive(Debug)]
pub struct LineMetadata {
    gets_indented: bool,
    conditional: bool,
    end: bool,
    def: bool,
    do_keyword: bool,
    indent_level: Option<u32>,
    require: bool,
}

/// The mathematical value of a line's flags.
pub struct LineFlags {
    pub gets_indented: bool,
    pub conditional: bool,
    pub end: bool,
    pub def: bool,
    pub do_keyword: bool,
    pub indent_level: Option<u32>,
    pub require: bool,
}

impl View for LineMetadata {
    type V = LineFlags;

    closed spec fn view(&self) -> LineFlags {
        LineFlags {
            gets_indented: self.gets_indented,
            conditional: self.conditional,
            end: self.end,
            def: self.def,
            do_keyword: self.do_keyword,
            indent_level: self.indent_level,
            require: self.require,
        }
    }
}

impl LineFlags {
    /// The flags of a line of which nothing is known yet.
    pub open spec fn fresh() -> LineFlags {
        LineFlags {
            gets_indented: false,
            conditional: false,
            end: false,
            def: false,
            do_keyword: false,
            indent_level: None,
            require: false,
        }
    }

    /// Whether `current` is indented deeper than `prev`. A line without an
    /// indent lies left of every indented line.
    pub open spec fn indent_level_increases_between(prev: LineFlags, current: LineFlags) -> bool {
        match (prev.indent_level, current.indent_level) {
            (None, Some(_)) => true,
            (Some(a), Some(b)) => a < b,
            _ => false,
        }
    }

    /// A line after which a conditional or a `do` block is set off by a
    /// blank line: one that neither opens, closes nor continues a block.
    pub open spec fn wants_spacer_for_conditional(self) -> bool {
        !(self.conditional || self.gets_indented || self.end || self.def || self.do_keyword)
    }
}

impl LineMetadata {
    pub fn indent_level_increases_between(prev: &LineMetadata, current: &LineMetadata) -> (b: bool)
        ensures
            b == LineFlags::indent_level_increases_between(prev@, current@),
    {
        match (prev.indent_level, current.indent_level) {
            (None, Some(_)) => true,
            (Some(a), Some(b)) => a < b,
            _ => false,
        }
    }

    pub fn new() -> (m: Self)
        ensures
            m@ == LineFlags::fresh(),
    {
        LineMetadata {
            gets_indented: false,
            conditional: false,
            end: false,
            def: false,
            do_keyword: false,
            indent_level: None,
            require: false,
        }
    }

    pub fn set_has_require(&mut self)
        ensures
            final(self)@ == (LineFlags { require: true, ..old(self)@ }),
    {
        self.require = true;
    }

    pub fn has_require(&self) -> (b: bool)
        ensures
            b == self@.require,
    {
        self.require
    }

    /// Whether an indent was recorded for the line.
    pub fn has_indent_level(&self) -> (b: bool)
        ensures
            b == (self@.indent_level is Some),
    {
        self.indent_level.is_some()
    }

    /// Records the indent of the line. A line has one indent: none may have
    /// been recorded before.
    pub fn observe_indent_level(&mut self, level: u32)
        requires
            old(self)@.indent_level is None,
        ensures
            final(self)@ == (LineFlags { indent_level: Some(level), ..old(self)@ }),
    {
        self.indent_level = Some(level);
    }

    pub fn gets_indented(&self) -> (b: bool)
        ensures
            b == self@.gets_indented,
    {
        self.gets_indented
    }

    pub fn set_gets_indented(&mut self)
        ensures
            final(self)@ == (LineFlags { gets_indented: true, ..old(self)@ }),
    {
        self.gets_indented = true;
    }

    pub fn set_has_conditional(&mut self)
        ensures
            final(self)@ == (LineFlags { conditional: true, ..old(self)@ }),
    {
        self.conditional = true;
    }

    pub fn set_has_end(&mut self)
        ensures
            final(self)@ == (LineFlags { end: true, ..old(self)@ }),
    {
        self.end = true;
    }

    pub fn set_has_def(&mut self)
        ensures
            final(self)@ == (LineFlags { def: true, ..old(self)@ }),
    {
        self.def = true;
    }

    pub fn set_has_do_keyword(&mut self)
        ensures
            final(self)@ == (LineFlags { do_keyword: true, ..old(self)@ }),
    {
        self.do_keyword = true;
    }

    pub fn wants_spacer_for_conditional(&self) -> (b: bool)
        ensures
            b == self@.wants_spacer_for_conditional(),
    {
        !(self.conditional || self.gets_indented || self.end || self.def || self.do_keyword)
    }
}

} // verus!

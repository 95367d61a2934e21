//! Which counts a report shows.

use vstd::prelude::*;

verus! {

/// One of the five counts, named in the order in which a row shows them.
#[derive(Clone, Copy, Debug, PartialEq, Eq, Structural)]
pub enum Column {
    Lines,
    Words,
    Chars,
    Bytes,
    MaxLineLength,
}

/// The counts that were asked for. With none asked for, a report shows
/// lines, words and bytes.
#[derive(Clone, Copy, Debug)]
pub struct ShowOptions {
    pub lines: bool,
    pub chars: bool,
    pub bytes: bool,
    pub words: bool,
    pub max_line_length: bool,
}

/// 1 where `shown` holds, 0 where it does not.
pub open spec fn one_if(shown: bool) -> nat {
    if shown {
        1
    } else {
        0
    }
}

impl ShowOptions {
    /// True when no count was asked for.
    pub open spec fn spec_is_default(&self) -> bool {
        !(self.chars || self.words || self.bytes || self.max_line_length || self.lines)
    }

    /// True when a row shows the count `column`.
    pub open spec fn spec_shows(&self, column: Column) -> bool {
        match column {
            Column::Lines => self.spec_is_default() || self.lines,
            Column::Words => self.spec_is_default() || self.words,
            Column::Chars => self.chars,
            Column::Bytes => self.spec_is_default() || self.bytes,
            Column::MaxLineLength => self.max_line_length,
        }
    }

    /// The number of counts that a row shows.
    pub open spec fn spec_shown(&self) -> nat {
        one_if(self.spec_shows(Column::Lines)) + one_if(self.spec_shows(Column::Words)) + one_if(
            self.spec_shows(Column::Chars),
        ) + one_if(self.spec_shows(Column::Bytes)) + one_if(self.spec_shows(Column::MaxLineLength))
    }

    /// True when no count was asked for.
    #[verifier::when_used_as_spec(spec_is_default)]
    pub fn is_default(&self) -> (r: bool)
        ensures
            r == self.spec_is_default(),
    {
        !(self.chars || self.words || self.bytes || self.max_line_length || self.lines)
    }

    /// True when a row shows the count `column`.
    #[verifier::when_used_as_spec(spec_shows)]
    pub fn shows(&self, column: Column) -> (r: bool)
        ensures
            r == self.spec_shows(column),
    {
        match column {
            Column::Lines => self.is_default() || self.lines,
            Column::Words => self.is_default() || self.words,
            Column::Chars => self.chars,
            Column::Bytes => self.is_default() || self.bytes,
            Column::MaxLineLength => self.max_line_length,
        }
    }

    /// True when a row shows exactly one count.
    pub fn is_single(&self) -> (r: bool)
        ensures
            r == (self.spec_shown() == 1),
    {
        let mut shown: u8 = 0;
        if self.lines {
            shown = shown + 1;
        }
        if self.words {
            shown = shown + 1;
        }
        if self.chars {
            shown = shown + 1;
        }
        if self.bytes {
            shown = shown + 1;
        }
        if self.max_line_length {
            shown = shown + 1;
        }
        shown == 1
    }
}

} // verus!

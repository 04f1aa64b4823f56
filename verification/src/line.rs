//! A line of text paired with its 1-based position in the source text.

use vstd::prelude::*;

verus! {

/// One line of the searched text, with its line terminator stripped,
/// together with its 1-based ordinal position among the lines.
#[derive(Debug)]
pub struct Line {
    pub line: String,
    pub number: u32,
}

impl Line {
    /// Pairs a line of text with its 1-based line number.
    pub fn new(line: String, number: u32) -> (l: Line)
        ensures
            l.line == line,
            l.number == number,
    {
        Line { line, number }
    }
}

impl PartialEq for Line {
    /// Two lines are equal iff both the text and the line number are equal.
    fn eq(&self, other: &Line) -> (r: bool) {
        self.line == other.line && self.number == other.number
    }
}

impl vstd::std_specs::cmp::PartialEqSpecImpl for Line {
    open spec fn obeys_eq_spec() -> bool {
        true
    }

    open spec fn eq_spec(&self, other: &Line) -> bool {
        self.line@ == other.line@ && self.number == other.number
    }
}

} // verus!

//! The lines of a document, as the passes of the reflow engine see them.

use vstd::prelude::*;

verus! {

/// What the contracts say a line is: its text and whether it may be
/// reflowed.
pub struct LineView {
    pub should_format: bool,
    pub contents: Seq<char>,
}

/// One physical line of the document. `should_format` is false for a line
/// that must be written back as it stands.
#[derive(Clone, Copy, Debug)]
pub struct Line<'a> {
    pub should_format: bool,
    pub contents: &'a str,
}

/// A logical line: one or more physical lines merged into a single unit of
/// reflow, holding its own text.
#[derive(Clone, Debug)]
pub struct OwnedLine {
    pub should_format: bool,
    pub contents: String,
}

impl<'a> View for Line<'a> {
    type V = LineView;

    open spec fn view(&self) -> LineView {
        LineView { should_format: self.should_format, contents: self.contents@ }
    }
}

impl View for OwnedLine {
    type V = LineView;

    open spec fn view(&self) -> LineView {
        LineView { should_format: self.should_format, contents: self.contents@ }
    }
}

/// The document that a vector of physical lines stands for.
pub open spec fn line_views<'a>(lines: Seq<Line<'a>>) -> Seq<LineView> {
    Seq::new(lines.len(), |i: int| lines[i]@)
}

/// The logical lines that a vector of owned lines stands for.
pub open spec fn owned_views(lines: Seq<OwnedLine>) -> Seq<LineView> {
    Seq::new(lines.len(), |i: int| lines[i]@)
}

/// The texts that a vector of strings stands for.
pub open spec fn string_views(lines: Seq<String>) -> Seq<Seq<char>> {
    Seq::new(lines.len(), |i: int| lines[i]@)
}

/// The texts of a document, flags left aside.
pub open spec fn contents_of(lines: Seq<LineView>) -> Seq<Seq<char>> {
    Seq::new(lines.len(), |i: int| lines[i].contents)
}

/// The flags of a document, texts left aside.
pub open spec fn flags_of(lines: Seq<LineView>) -> Seq<bool> {
    Seq::new(lines.len(), |i: int| lines[i].should_format)
}

} // verus!

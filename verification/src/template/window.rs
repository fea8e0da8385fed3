use std::ops::Range;
use vstd::prelude::*;
use vstd::std_specs::convert::FromSpecImpl;

verus! {

/// A span of a source text: the bytes from `offset` up to, and not including,
/// `offset + length`. A window holds positions only, never the text itself.
#[derive(Debug, PartialEq, Eq, Structural, Clone, Copy)]
pub struct Window {
    pub offset: usize,
    pub length: usize,
}

impl Window {
    /// The position just past the last byte of the window.
    pub open spec fn spec_end(self) -> int {
        self.offset + self.length
    }

    /// Whether the window lies within a text of `size` bytes.
    pub open spec fn within(self, size: int) -> bool {
        self.spec_end() <= size
    }

    /// The bytes of `source` that the window denotes.
    pub open spec fn of(self, source: Seq<u8>) -> Seq<u8>
        recommends
            self.within(source.len() as int),
    {
        source.subrange(self.offset as int, self.spec_end())
    }

    /// The window of `length` bytes from `offset` on.
    pub fn new(offset: usize, length: usize) -> (window: Window)
        ensures
            window == (Window { offset, length }),
    {
        Window { offset, length }
    }

    /// The position just past the last byte of the window.
    pub fn end(&self) -> (end: usize)
        requires
            self.spec_end() <= usize::MAX,
        ensures
            end == self.spec_end(),
    {
        self.offset + self.length
    }

    /// The positions of the bytes of the window.
    pub fn range(&self) -> (range: Range<usize>)
        requires
            self.spec_end() <= usize::MAX,
        ensures
            range.start == self.offset,
            range.end == self.spec_end(),
    {
        Range { start: self.offset, end: self.offset + self.length }
    }
}

impl From<(usize, usize)> for Window {
    fn from(data: (usize, usize)) -> (window: Window) {
        Window { offset: data.0, length: data.1 }
    }
}

impl FromSpecImpl<(usize, usize)> for Window {
    open spec fn obeys_from_spec() -> bool {
        true
    }

    open spec fn from_spec(data: (usize, usize)) -> Window {
        Window { offset: data.0, length: data.1 }
    }
}

} // verus!

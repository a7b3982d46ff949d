//! Byte positions and byte ranges into the source string.

use vstd::prelude::*;

verus! {

/// Mathematical value of a span: a byte range `[start, end)` over the
/// UTF-8 encoding of the source.
pub ghost struct SpanV {
    pub start: int,
    pub end: int,
}

/// Byte position in the markup source.
#[derive(Clone, Copy, Debug, PartialEq, Eq, Structural)]
pub struct Pos(pub usize);

/// Byte range `[start, end)` over the source.
#[derive(Clone, Copy, Debug, PartialEq, Eq, Structural)]
pub struct SpanRange {
    pub start: Pos,
    pub end: Pos,
}

impl View for SpanRange {
    type V = SpanV;

    open spec fn view(&self) -> SpanV {
        SpanV { start: self.start.0 as int, end: self.end.0 as int }
    }
}

pub open spec fn spanv(start: int, end: int) -> SpanV {
    SpanV { start, end }
}

impl SpanRange {
    pub fn new(start: usize, end: usize) -> (r: Self)
        ensures
            r@ == spanv(start as int, end as int),
    {
        Self { start: Pos(start), end: Pos(end) }
    }
}

} // verus!

use vstd::prelude::*;

verus! {

/// A half-open range `start..end` of source offsets.
#[derive(Debug, Clone, Copy, PartialEq, Eq, Hash, Structural)]
pub struct SimpleSpan {
    /// The first offset covered by the span.
    pub start: usize,
    /// The offset just past the last one covered by the span.
    pub end: usize,
}

impl SimpleSpan {
    /// Creates the span `start..end`.
    pub fn new(start: usize, end: usize) -> (r: SimpleSpan)
        ensures
            r.start == start,
            r.end == end,
    {
        SimpleSpan { start, end }
    }

    /// The start offset.
    pub fn start(&self) -> (r: usize)
        ensures
            r == self.start,
    {
        self.start
    }

    /// The end offset.
    pub fn end(&self) -> (r: usize)
        ensures
            r == self.end,
    {
        self.end
    }

    /// The number of offsets covered; an inverted span covers none.
    pub fn len(&self) -> (r: usize)
        ensures
            r == (if self.start <= self.end { self.end - self.start } else { 0 }),
    {
        if self.start <= self.end {
            self.end - self.start
        } else {
            0
        }
    }

    /// Whether the span covers no offset at all.
    pub fn is_empty(&self) -> (r: bool)
        ensures
            r == (self.end <= self.start),
    {
        self.end <= self.start
    }
}

/// A value together with the span of source it was read from.
#[derive(Debug, Clone, PartialEq, Eq)]
pub struct Spanned<D> {
    /// Where the value sits in the source.
    pub span: SimpleSpan,
    /// The value itself.
    pub data: D,
}

impl<D> Spanned<D> {
    /// Pairs `data` with `span`.
    pub fn new(span: SimpleSpan, data: D) -> (r: Spanned<D>)
        ensures
            r.span == span,
            r.data == data,
    {
        Spanned { span, data }
    }

    /// The span of the value.
    pub fn span(&self) -> (r: &SimpleSpan)
        ensures
            *r == self.span,
    {
        &self.span
    }

    /// The span of the value, by reference.
    pub fn span_ref(&self) -> (r: &SimpleSpan)
        ensures
            *r == self.span,
    {
        &self.span
    }

    /// The value, by reference.
    pub fn data(&self) -> (r: &D)
        ensures
            *r == self.data,
    {
        &self.data
    }

    /// Splits into the span and the value.
    pub fn into_components(self) -> (r: (SimpleSpan, D))
        ensures
            r.0 == self.span,
            r.1 == self.data,
    {
        (self.span, self.data)
    }

    /// Drops the value and keeps the span.
    pub fn into_span(self) -> (r: SimpleSpan)
        ensures
            r == self.span,
    {
        self.span
    }

    /// Drops the span and keeps the value.
    pub fn into_data(self) -> (r: D)
        ensures
            r == self.data,
    {
        self.data
    }
}

} // verus!

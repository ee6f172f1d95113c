//! Source positions carried by the nodes of a statement tree.

use vstd::prelude::*;

verus! {

/// A place in the source text, by line and column.
#[derive(Debug, Clone, Copy)]
pub struct Position {
    line: usize,
    col: usize,
}

impl Position {
    /// The line recorded in this position.
    pub closed spec fn line_spec(&self) -> usize {
        self.line
    }

    /// The column recorded in this position.
    pub closed spec fn col_spec(&self) -> usize {
        self.col
    }

    /// A position at the given line and column.
    pub fn new(line: usize, col: usize) -> (r: Position)
        ensures
            r@ == (line, col),
            r.line_spec() == line,
            r.col_spec() == col,
    {
        Position { line, col }
    }

    /// The line, counted from one.
    pub fn line(&self) -> (r: usize)
        ensures
            r == self.line_spec(),
    {
        self.line
    }

    /// The column, counted from one.
    pub fn col(&self) -> (r: usize)
        ensures
            r == self.col_spec(),
    {
        self.col
    }
}

impl Default for Position {
    /// Line zero, column zero: no place in any source.
    fn default() -> (r: Position)
        ensures
            r@ == (0usize, 0usize),
            r.line_spec() == 0,
            r.col_spec() == 0,
    {
        Position { line: 0, col: 0 }
    }
}

/// The stretch of source text that a node was read from.
#[derive(Debug)]
pub struct Span {
    input: String,
    start: Position,
    _end: Position,
}

/// What a position says: its line and its column.
pub type PositionView = (usize, usize);

impl View for Position {
    type V = PositionView;

    open spec fn view(&self) -> PositionView {
        (self.line_spec(), self.col_spec())
    }
}

/// What a span says: its text, and where it begins and ends.
pub type SpanView = (Seq<char>, PositionView, PositionView);

impl View for Span {
    type V = SpanView;

    open spec fn view(&self) -> SpanView {
        (self.input_view(), self.start_spec()@, self.end_spec()@)
    }
}

impl Span {
    /// The text of the stretch.
    pub closed spec fn input_view(&self) -> Seq<char> {
        self.input@
    }

    /// Where the stretch begins.
    pub closed spec fn start_spec(&self) -> Position {
        self.start
    }

    /// Where the stretch ends.
    pub closed spec fn end_spec(&self) -> Position {
        self._end
    }

    /// The stretch of `input` between `start` and `end`.
    pub fn new(input: &str, start: Position, end: Position) -> (r: Span)
        ensures
            r.input_view() == input@,
            r.start_spec() == start,
            r.end_spec() == end,
    {
        Span { input: input.to_owned(), start, _end: end }
    }

    /// Where the stretch begins.
    pub fn start(&self) -> (r: &Position)
        ensures
            *r == self.start_spec(),
    {
        &self.start
    }

    /// Where the stretch ends.
    pub fn _end(&self) -> (r: &Position)
        ensures
            *r == self.end_spec(),
    {
        &self._end
    }

    /// The text of the stretch.
    pub fn input(&self) -> (r: &str)
        ensures
            r@ == self.input_view(),
    {
        self.input.as_str()
    }

    /// A copy of this span.
    pub fn duplicate(&self) -> (r: Span)
        ensures
            r@ == self@,
            r.input_view() == self.input_view(),
            r.start_spec() == self.start_spec(),
            r.end_spec() == self.end_spec(),
    {
        Span {
            input: self.input.clone(),
            start: self.start,
            _end: self._end,
        }
    }
}

impl Default for Span {
    /// The empty stretch at no place.
    fn default() -> (r: Span)
        ensures
            r@ == (Seq::<char>::empty(), (0usize, 0usize), (0usize, 0usize)),
            r.input_view() == Seq::<char>::empty(),
            r.start_spec().line_spec() == 0,
            r.start_spec().col_spec() == 0,
            r.end_spec().line_spec() == 0,
            r.end_spec().col_spec() == 0,
    {
        Span { input: String::new(), start: Position::default(), _end: Position::default() }
    }
}

} // verus!

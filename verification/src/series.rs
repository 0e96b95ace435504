//! Named series of points, and the numbers that points are made of.

use crate::number::is_float_literal;
use vstd::prelude::*;

verus! {

/// A coordinate of a point: a running count, or the text of a numeric literal
/// as it stood in the fetched file.
#[derive(Clone, Debug, PartialEq, Eq)]
pub enum Number {
    Count(u64),
    Literal(String),
}

/// What a `Number` stands for.
pub enum NumberView {
    Count(nat),
    Literal(Seq<char>),
}

impl NumberView {
    /// A literal is the text of a floating-point number.
    pub open spec fn wf(self) -> bool {
        match self {
            NumberView::Count(_) => true,
            NumberView::Literal(text) => is_float_literal(text),
        }
    }
}

impl View for Number {
    type V = NumberView;

    open spec fn view(&self) -> NumberView {
        match self {
            Number::Count(n) => NumberView::Count(*n as nat),
            Number::Literal(text) => NumberView::Literal(text@),
        }
    }
}

/// One point of a series.
#[derive(Clone, Debug, PartialEq, Eq)]
pub struct Point {
    pub x: Number,
    pub y: Number,
}

/// What a `Point` stands for.
pub struct PointView {
    pub x: NumberView,
    pub y: NumberView,
}

impl View for Point {
    type V = PointView;

    open spec fn view(&self) -> PointView {
        PointView { x: self.x@, y: self.y@ }
    }
}

/// What a list of points stands for, point by point.
pub open spec fn points_view(points: Seq<Point>) -> Seq<PointView> {
    Seq::new(points.len(), |i: int| points[i]@)
}

/// A named series of points, in the order in which they are plotted.
#[derive(Clone, Debug, PartialEq, Eq)]
pub struct DataSet {
    pub name: String,
    pub data: Vec<Point>,
}

/// What a `DataSet` stands for.
pub struct DataSetView {
    pub name: Seq<char>,
    pub data: Seq<PointView>,
}

impl DataSetView {
    /// Every coordinate of every point is well formed.
    pub open spec fn wf(self) -> bool {
        forall|i: int|
            0 <= i < self.data.len() ==> (#[trigger] self.data[i]).x.wf() && self.data[i].y.wf()
    }
}

impl View for DataSet {
    type V = DataSetView;

    open spec fn view(&self) -> DataSetView {
        DataSetView { name: self.name@, data: points_view(self.data@) }
    }
}

/// What a list of series stands for, series by series.
pub open spec fn datasets_view(sets: Seq<DataSet>) -> Seq<DataSetView> {
    Seq::new(sets.len(), |i: int| sets[i]@)
}

/// A list that grows by a point stands for what it stood for, and the point.
pub proof fn lemma_points_view_push(points: Seq<Point>, p: Point)
    ensures
        points_view(points.push(p)) == points_view(points).push(p@),
{
    assert(points_view(points.push(p)) =~= points_view(points).push(p@));
}

/// `String::push` of std: the string grows by the one character at its end.
#[verifier::external_body]
fn push_char(s: &mut String, c: char)
    ensures
        final(s)@ == old(s)@.push(c),
{
    s.push(c)
}

/// A string of the given characters.
pub fn string_of(chars: &[char]) -> (s: String)
    ensures
        s@ == chars@,
{
    let mut s = String::new();
    let mut i: usize = 0;
    while i < chars.len()
        invariant
            i <= chars@.len(),
            s@ == chars@.subrange(0, i as int),
        decreases chars@.len() - i,
    {
        push_char(&mut s, chars[i]);
        assert(chars@.subrange(0, i + 1) =~= chars@.subrange(0, i as int).push(chars@[i as int]));
        i += 1;
    }
    assert(chars@.subrange(0, i as int) =~= chars@);
    s
}

} // verus!

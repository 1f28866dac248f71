use vstd::prelude::*;
use crate::point::Point;

verus! {

/// One pen stroke: the points it visits, in drawing order. It may be empty.
#[derive(Clone, Debug, PartialEq, Eq)]
pub struct Path {
    pub points: Vec<Point>,
}

impl View for Path {
    type V = Seq<Point>;

    open spec fn view(&self) -> Seq<Point> {
        self.points@
    }
}

impl Path {
    /// A stroke without points.
    pub fn new() -> (p: Path)
        ensures
            p@ == Seq::<Point>::empty(),
    {
        Path { points: Vec::new() }
    }

    /// The stroke through `points`, in the order given.
    pub fn from_points(points: Vec<Point>) -> (p: Path)
        ensures
            p@ == points@,
    {
        Path { points }
    }

    /// Where the stroke begins, if it has a point at all.
    pub fn start(&self) -> (r: Option<Point>)
        ensures
            self@.len() == 0 ==> r is None,
            self@.len() > 0 ==> r == Some(self@.first()),
    {
        if self.points.len() == 0 {
            None
        } else {
            Some(self.points[0])
        }
    }

    /// Where the stroke finishes, if it has a point at all.
    pub fn end(&self) -> (r: Option<Point>)
        ensures
            self@.len() == 0 ==> r is None,
            self@.len() > 0 ==> r == Some(self@.last()),
    {
        let n: usize = self.points.len();
        if n == 0 {
            None
        } else {
            Some(self.points[n - 1])
        }
    }

    /// A stroke through the same points in the same order.
    pub fn duplicate(&self) -> (r: Path)
        ensures
            r@ == self@,
    {
        let n: usize = self.points.len();
        let mut points: Vec<Point> = Vec::with_capacity(n);
        let mut i: usize = 0;
        while i < n
            invariant
                n == self.points.len(),
                i <= n,
                points@ == self@.take(i as int),
            decreases n - i,
        {
            points.push(self.points[i]);
            assert(self@.take(i + 1) =~= self@.take(i as int).push(self@[i as int]));
            i += 1;
        }
        assert(self@.take(n as int) =~= self@);
        Path { points }
    }

    /// A stroke through the same points, last point first.
    pub fn reversed(&self) -> (r: Path)
        ensures
            r@ == self@.reverse(),
    {
        let n: usize = self.points.len();
        let mut points: Vec<Point> = Vec::with_capacity(n);
        let mut i: usize = 0;
        while i < n
            invariant
                n == self.points.len(),
                i <= n,
                points@.len() == i,
                forall|k: int| 0 <= k < i ==> #[trigger] points@[k] == self@[n - 1 - k],
            decreases n - i,
        {
            points.push(self.points[n - 1 - i]);
            i += 1;
        }
        assert(points@ =~= self@.reverse());
        Path { points }
    }

    /// Reverses the drawing direction in place.
    pub fn flip(&mut self)
        ensures
            final(self)@ == old(self)@.reverse(),
    {
        let turned = self.reversed();
        self.points = turned.points;
    }
}

impl From<Vec<Point>> for Path {
    fn from(points: Vec<Point>) -> (p: Path) {
        Path { points }
    }
}

impl vstd::std_specs::convert::FromSpecImpl<Vec<Point>> for Path {
    open spec fn obeys_from_spec() -> bool {
        true
    }

    open spec fn from_spec(points: Vec<Point>) -> Path {
        Path { points }
    }
}

/// Orientation as it is drawn: the points themselves, or the points back to
/// front when the stroke is taken from its far end.
pub open spec fn oriented(points: Seq<Point>, reversed: bool) -> Seq<Point> {
    if reversed {
        points.reverse()
    } else {
        points
    }
}

/// Reversing a stroke swaps its two ends, keeps its length and its points,
/// and undoes itself when done twice.
pub proof fn lemma_flip(points: Seq<Point>)
    ensures
        points.reverse().len() == points.len(),
        points.reverse().reverse() == points,
        points.reverse().to_multiset() == points.to_multiset(),
        points.len() > 0 ==> points.reverse().first() == points.last(),
        points.len() > 0 ==> points.reverse().last() == points.first(),
{
    assert(points.reverse().reverse() =~= points);
    points.lemma_reverse_to_multiset();
}

} // verus!

use vstd::prelude::*;
use crate::path::oriented;
use crate::point::Point;

verus! {

/// An indexed stroke: its position in the layer and its two ends as they were
/// when the index was built.
#[derive(Clone, Copy, Debug, PartialEq, Eq, Structural)]
pub struct PathItem {
    pub handle: usize,
    pub start: Point,
    pub end: Point,
}

/// One entry of a drawing order: which stroke of the layer comes next, and
/// whether it is drawn back to front.
#[derive(Clone, Copy, Debug, PartialEq, Eq, Structural)]
pub struct Step {
    pub handle: usize,
    pub reversed: bool,
}

impl PathItem {
    /// The stroke is entered at its far end: only when both directions are
    /// allowed and the far end is strictly closer to `from` than the start.
    pub open spec fn needs_flip(self, from: Point, bidirectional: bool) -> bool {
        bidirectional && from.dist2(self.end) < from.dist2(self.start)
    }

    /// Squared pen-up travel from `from` to the end at which the stroke is entered.
    pub open spec fn reach(self, from: Point, bidirectional: bool) -> int {
        if self.needs_flip(from, bidirectional) {
            from.dist2(self.end)
        } else {
            from.dist2(self.start)
        }
    }

    /// Where the pen is lifted after the stroke has been drawn.
    pub open spec fn leaves_at(self, from: Point, bidirectional: bool) -> Point {
        if self.needs_flip(from, bidirectional) {
            self.start
        } else {
            self.end
        }
    }

    /// How the stroke is best entered from `from`: the squared pen-up travel,
    /// and whether it is entered at its far end.
    pub fn approach(&self, from: &Point, bidirectional: bool) -> (r: (u128, bool))
        ensures
            r.0 == self.reach(*from, bidirectional),
            r.1 == self.needs_flip(*from, bidirectional),
    {
        let to_start: u128 = from.distance_squared(&self.start);
        if bidirectional {
            let to_end: u128 = from.distance_squared(&self.end);
            if to_end < to_start {
                (to_end, true)
            } else {
                (to_start, false)
            }
        } else {
            (to_start, false)
        }
    }

    /// The step that draws this stroke when the pen comes from `from`.
    pub open spec fn step(self, from: Point, bidirectional: bool) -> Step {
        Step { handle: self.handle, reversed: self.needs_flip(from, bidirectional) }
    }
}

/// The travel to a stroke is the distance to its start where only forward
/// drawing is allowed, and the distance to its closer end otherwise.
pub proof fn lemma_reach_is_closest_end(item: PathItem, from: Point, bidirectional: bool)
    ensures
        !bidirectional ==> item.reach(from, bidirectional) == from.dist2(item.start),
        !bidirectional ==> item.leaves_at(from, bidirectional) == item.end,
        bidirectional ==> item.reach(from, bidirectional) <= from.dist2(item.start),
        bidirectional ==> item.reach(from, bidirectional) <= from.dist2(item.end),
        item.reach(from, bidirectional) == from.dist2(item.start) || item.reach(
            from,
            bidirectional,
        ) == from.dist2(item.end),
{
}

/// Position in `items` of the stroke with the least pen-up travel from `from`.
/// Among strokes at the same distance the one that stands first wins.
pub open spec fn nearest(items: Seq<PathItem>, from: Point, bidirectional: bool) -> int
    decreases items.len(),
{
    if items.len() <= 1 {
        0
    } else {
        let best = nearest(items.drop_last(), from, bidirectional);
        if items.last().reach(from, bidirectional) < items[best].reach(from, bidirectional) {
            items.len() - 1
        } else {
            best
        }
    }
}

/// `nearest` names a position of a non-empty sequence whose stroke is at least
/// as close as every other and strictly closer than every one before it.
pub proof fn lemma_nearest_is_first_minimum(items: Seq<PathItem>, from: Point, bidirectional: bool)
    requires
        items.len() > 0,
    ensures
        0 <= nearest(items, from, bidirectional) < items.len(),
        forall|j: int|
            0 <= j < items.len() ==> items[nearest(items, from, bidirectional)].reach(
                from,
                bidirectional,
            ) <= (#[trigger] items[j]).reach(from, bidirectional),
        forall|j: int|
            0 <= j < nearest(items, from, bidirectional) ==> items[nearest(
                items,
                from,
                bidirectional,
            )].reach(from, bidirectional) < (#[trigger] items[j]).reach(from, bidirectional),
    decreases items.len(),
{
    if items.len() > 1 {
        let front = items.drop_last();
        lemma_nearest_is_first_minimum(front, from, bidirectional);
        assert(forall|j: int| 0 <= j < front.len() ==> front[j] == items[j]);
    }
}

/// The greedy drawing order of the indexed strokes: always the nearest one
/// that is left, seen from where the previous stroke ended.
pub open spec fn greedy_order(items: Seq<PathItem>, from: Point, bidirectional: bool) -> Seq<Step>
    decreases items.len(),
    via greedy_order_decreases
{
    if items.len() == 0 {
        Seq::empty()
    } else {
        let i = nearest(items, from, bidirectional);
        seq![items[i].step(from, bidirectional)] + greedy_order(
            items.remove(i),
            items[i].leaves_at(from, bidirectional),
            bidirectional,
        )
    }
}

#[via_fn]
proof fn greedy_order_decreases(items: Seq<PathItem>, from: Point, bidirectional: bool) {
    if items.len() > 0 {
        lemma_nearest_is_first_minimum(items, from, bidirectional);
    }
}

/// The index entry of stroke `h` of a layer.
pub open spec fn item_of(paths: Seq<Seq<Point>>, h: int) -> PathItem {
    PathItem { handle: h as usize, start: paths[h].first(), end: paths[h].last() }
}

/// The strokes of a layer that have a start and an end, in layer order.
pub open spec fn indexable(paths: Seq<Seq<Point>>) -> Seq<PathItem>
    decreases paths.len(),
{
    if paths.len() == 0 {
        Seq::empty()
    } else if paths.last().len() > 0 {
        indexable(paths.drop_last()).push(item_of(paths, paths.len() - 1))
    } else {
        indexable(paths.drop_last())
    }
}

/// The handles of the empty strokes of a layer, in layer order.
pub open spec fn degenerate(paths: Seq<Seq<Point>>) -> Seq<usize>
    decreases paths.len(),
{
    if paths.len() == 0 {
        Seq::empty()
    } else if paths.last().len() > 0 {
        degenerate(paths.drop_last())
    } else {
        degenerate(paths.drop_last()).push((paths.len() - 1) as usize)
    }
}

/// Steps that take the given strokes as they are, one after the other.
pub open spec fn untouched(handles: Seq<usize>) -> Seq<Step> {
    Seq::new(handles.len(), |k: int| Step { handle: handles[k], reversed: false })
}

/// The drawing order of a whole layer: the greedy order of its indexable
/// strokes, starting at the origin, followed by its empty strokes.
pub open spec fn sorted_plan(paths: Seq<Seq<Point>>, bidirectional: bool) -> Seq<Step> {
    greedy_order(indexable(paths), Point { x: 0, y: 0 }, bidirectional) + untouched(
        degenerate(paths),
    )
}

/// The strokes that a drawing order yields from the strokes of a layer.
pub open spec fn apply_plan(paths: Seq<Seq<Point>>, plan: Seq<Step>) -> Seq<Seq<Point>> {
    Seq::new(plan.len(), |k: int| oriented(paths[plan[k].handle as int], plan[k].reversed))
}

/// The handles that a drawing order visits, in order.
pub open spec fn handles_of(plan: Seq<Step>) -> Seq<usize> {
    Seq::new(plan.len(), |k: int| plan[k].handle)
}

/// The handles of the given entries, in order.
pub open spec fn item_handles(items: Seq<PathItem>) -> Seq<usize> {
    Seq::new(items.len(), |k: int| items[k].handle)
}

/// Every entry stands for a non-empty stroke of `paths` and caches its ends.
pub open spec fn items_match(items: Seq<PathItem>, paths: Seq<Seq<Point>>) -> bool {
    forall|j: int|
        0 <= j < items.len() ==> {
            &&& (#[trigger] items[j]).handle < paths.len()
            &&& paths[items[j].handle as int].len() > 0
            &&& items[j] == item_of(paths, items[j].handle as int)
        }
}

} // verus!

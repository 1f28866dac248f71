use vstd::prelude::*;
use crate::layer::paths_view;
use crate::path::Path;
use crate::point::Point;
use crate::tour::{degenerate, indexable, item_of, nearest, PathItem};

verus! {

/// The strokes of one layer that are still to be drawn.
///
/// Strokes with a start and an end are kept by their ends and are taken out
/// nearest first; empty strokes wait in a queue of their own, in layer order.
/// Strokes are known by their position in the layer, not held.
pub struct PathIndex {
    items: Vec<PathItem>,
    overflow: Vec<usize>,
    drained: usize,
    bidirectional: bool,
}

impl PathIndex {
    /// The queue position never runs past the queue.
    pub closed spec fn wf(&self) -> bool {
        self.drained <= self.overflow@.len()
    }

    /// The indexed strokes that have not been taken out, in layer order.
    pub closed spec fn remaining(&self) -> Seq<PathItem> {
        self.items@
    }

    /// The empty strokes that have not been handed out, in layer order.
    pub closed spec fn unindexed(&self) -> Seq<usize> {
        self.overflow@.skip(self.drained as int)
    }

    /// Whether a stroke may be entered at either end.
    pub closed spec fn is_bidirectional(&self) -> bool {
        self.bidirectional
    }

    /// Indexes the strokes of a layer.
    pub fn new(paths: &Vec<Path>, bidirectional: bool) -> (index: PathIndex)
        ensures
            index.wf(),
            index.remaining() == indexable(paths_view(paths@)),
            index.unindexed() == degenerate(paths_view(paths@)),
            index.is_bidirectional() == bidirectional,
    {
        let ghost all = paths_view(paths@);
        let n: usize = paths.len();
        let mut items: Vec<PathItem> = Vec::new();
        let mut overflow: Vec<usize> = Vec::new();
        let mut i: usize = 0;
        while i < n
            invariant
                n == paths.len(),
                all == paths_view(paths@),
                i <= n,
                items@ == indexable(all.take(i as int)),
                overflow@ == degenerate(all.take(i as int)),
            decreases n - i,
        {
            let ghost upto = all.take(i + 1);
            assert(upto.drop_last() =~= all.take(i as int));
            assert(upto.last() == paths[i as int]@);
            match (paths[i].start(), paths[i].end()) {
                (Some(start), Some(end)) => {
                    assert(item_of(upto, i as int) == (PathItem { handle: i, start, end }));
                    items.push(PathItem { handle: i, start, end });
                },
                _ => {
                    overflow.push(i);
                },
            }
            i += 1;
        }
        assert(all.take(n as int) =~= all);
        let index = PathIndex { items, overflow, drained: 0, bidirectional };
        assert(index.unindexed() =~= overflow@);
        index
    }

    /// Takes out the stroke that is entered with the least pen-up travel from
    /// `from`, and says whether it is entered at its far end. Among strokes
    /// at the same distance the one that stands first in the layer is taken,
    /// and a stroke whose two ends are equally far is entered at its start.
    /// The stroke leaves the index with both of its ends, so it is never
    /// handed out twice.
    pub fn pop_nearest(&mut self, from: &Point) -> (r: Option<(PathItem, bool)>)
        requires
            old(self).wf(),
        ensures
            final(self).wf(),
            final(self).unindexed() == old(self).unindexed(),
            final(self).is_bidirectional() == old(self).is_bidirectional(),
            old(self).remaining().len() == 0 ==> r is None && final(self).remaining() == old(
                self,
            ).remaining(),
            old(self).remaining().len() > 0 ==> ({
                let items = old(self).remaining();
                let i = nearest(items, *from, old(self).is_bidirectional());
                &&& r == Some((items[i], items[i].needs_flip(*from, old(self).is_bidirectional())))
                &&& final(self).remaining() == items.remove(i)
            }),
    {
        let n: usize = self.items.len();
        if n == 0 {
            return None;
        }
        let ghost items = self.items@;
        let first = self.items[0].approach(from, self.bidirectional);
        let mut best: usize = 0;
        let mut best_reach: u128 = first.0;
        let mut best_flip: bool = first.1;
        let mut i: usize = 1;
        assert(items.take(1).len() == 1);
        while i < n
            invariant
                n == self.items.len(),
                items == self.items@,
                1 <= i <= n,
                best < i,
                best == nearest(items.take(i as int), *from, self.bidirectional),
                best_reach == items[best as int].reach(*from, self.bidirectional),
                best_flip == items[best as int].needs_flip(*from, self.bidirectional),
            decreases n - i,
        {
            let ghost upto = items.take(i + 1);
            assert(upto.drop_last() =~= items.take(i as int));
            assert(upto.last() == items[i as int]);
            assert(upto[best as int] == items[best as int]);
            let here = self.items[i].approach(from, self.bidirectional);
            if here.0 < best_reach {
                best = i;
                best_reach = here.0;
                best_flip = here.1;
            }
            i += 1;
        }
        assert(items.take(n as int) =~= items);
        let item = self.items.remove(best);
        Some((item, best_flip))
    }

    /// Hands out the next empty stroke, in layer order.
    pub fn pop_first(&mut self) -> (r: Option<usize>)
        requires
            old(self).wf(),
        ensures
            final(self).wf(),
            final(self).remaining() == old(self).remaining(),
            final(self).is_bidirectional() == old(self).is_bidirectional(),
            old(self).unindexed().len() == 0 ==> r is None && final(self).unindexed() == old(
                self,
            ).unindexed(),
            old(self).unindexed().len() > 0 ==> r == Some(old(self).unindexed().first())
                && final(self).unindexed() == old(self).unindexed().drop_first(),
    {
        if self.drained < self.overflow.len() {
            let handle: usize = self.overflow[self.drained];
            self.drained = self.drained + 1;
            assert(self.unindexed() =~= old(self).unindexed().drop_first());
            Some(handle)
        } else {
            None
        }
    }
}

} // verus!

use vstd::prelude::*;
use crate::laws::lemma_sort_conserves;
use crate::layer::LayerImpl;
use crate::path::Path;
use crate::point::Point;
use crate::spatial_index::PathIndex;
use crate::tour::{
    apply_plan, degenerate, greedy_order, indexable, lemma_nearest_is_first_minimum, sorted_plan,
    untouched, Step,
};

verus! {

impl LayerImpl {
    /// The order in which the strokes are drawn with little pen-up travel.
    ///
    /// Starting at the origin, the pen always goes on to the closest stroke
    /// that is left; with `flip`, a stroke may be entered at either end.
    /// Strokes without points come last, in layer order.
    pub fn plan(&self, flip: bool) -> (steps: Vec<Step>)
        ensures
            steps@ == sorted_plan(self@, flip),
            steps@.len() == self@.len(),
    {
        let ghost origin = Point { x: 0, y: 0 };
        let total: usize = self.paths.len();
        assert(self@.len() == total);
        let mut index = PathIndex::new(&self.paths, flip);
        let mut steps: Vec<Step> = Vec::with_capacity(total);
        let mut pos = Point::origin();
        assert(steps@ + greedy_order(index.remaining(), pos, flip) =~= greedy_order(
            indexable(self@),
            origin,
            flip,
        ));
        loop
            invariant
                index.wf(),
                index.is_bidirectional() == flip,
                index.unindexed() == degenerate(self@),
                steps@ + greedy_order(index.remaining(), pos, flip) == greedy_order(
                    indexable(self@),
                    origin,
                    flip,
                ),
            ensures
                index.remaining().len() == 0,
            decreases index.remaining().len(),
        {
            let ghost before = index.remaining();
            let ghost done = steps@;
            let ghost from = pos;
            match index.pop_nearest(&pos) {
                None => {
                    break ;
                },
                Some((item, reverse)) => {
                    proof {
                        lemma_nearest_is_first_minimum(before, from, flip);
                    }
                    steps.push(Step { handle: item.handle, reversed: reverse });
                    pos = if reverse {
                        item.start
                    } else {
                        item.end
                    };
                    assert(steps@ + greedy_order(index.remaining(), pos, flip) =~= done
                        + greedy_order(before, from, flip));
                },
            }
        }
        assert(steps@ =~= greedy_order(indexable(self@), origin, flip));
        assert(steps@ + untouched(index.unindexed()) =~= sorted_plan(self@, flip));
        loop
            invariant
                index.wf(),
                steps@ + untouched(index.unindexed()) == sorted_plan(self@, flip),
            ensures
                index.unindexed().len() == 0,
            decreases index.unindexed().len(),
        {
            let ghost queue = index.unindexed();
            let ghost done = steps@;
            match index.pop_first() {
                None => {
                    break ;
                },
                Some(handle) => {
                    steps.push(Step { handle, reversed: false });
                    assert(steps@ + untouched(index.unindexed()) =~= done + untouched(queue));
                },
            }
        }
        assert(steps@ =~= sorted_plan(self@, flip));
        proof {
            lemma_sort_conserves(self@, flip);
        }
        steps
    }

    /// Sorts the strokes so as to keep the pen-up travel small.
    ///
    /// The strokes are put in the order that `plan` gives, and each stroke
    /// that is entered at its far end is reversed. Strokes without points are
    /// moved to the end.
    pub fn sort(&mut self, flip: bool)
        ensures
            final(self)@ == apply_plan(old(self)@, sorted_plan(old(self)@, flip)),
            final(self)@.len() == old(self)@.len(),
    {
        let steps = self.plan(flip);
        let n: usize = self.paths.len();
        proof {
            assert(self@.len() == n);
            lemma_sort_conserves(self@, flip);
        }
        let mut new_paths: Vec<Path> = Vec::with_capacity(n);
        let mut k: usize = 0;
        while k < n
            invariant
                n == steps@.len(),
                n == self.paths@.len(),
                k <= n,
                steps@ == sorted_plan(self@, flip),
                forall|j: int| 0 <= j < n ==> (#[trigger] steps@[j]).handle < n,
                new_paths@.len() == k,
                forall|j: int|
                    0 <= j < k ==> (#[trigger] new_paths@[j])@ == apply_plan(self@, steps@)[j],
            decreases n - k,
        {
            let step = steps[k];
            let path = &self.paths[step.handle];
            if step.reversed {
                new_paths.push(path.reversed());
            } else {
                new_paths.push(path.duplicate());
            }
            k += 1;
        }
        let ghost before = self@;
        self.paths = new_paths;
        assert(self@ =~= apply_plan(before, steps@));
    }
}

} // verus!

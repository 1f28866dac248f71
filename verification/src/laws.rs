use vstd::prelude::*;
use vstd::multiset::Multiset;
use vstd::seq_lib::{
    lemma_multiset_commutative, to_multiset_build, to_multiset_contains, to_multiset_remove,
};
use crate::path::oriented;
use crate::point::Point;
use crate::tour::{
    apply_plan, degenerate, greedy_order, handles_of, indexable, item_handles, item_of,
    items_match, lemma_nearest_is_first_minimum, nearest, sorted_plan, untouched, PathItem,
};

verus! {

/// The handles `0, 1, .., n - 1`.
pub open spec fn all_handles(n: nat) -> Seq<usize> {
    Seq::new(n, |h: int| h as usize)
}

/// The greedy order takes every indexed stroke exactly once, and enters a
/// stroke at its far end only where both directions are allowed.
pub proof fn lemma_greedy_order_visits_each_once(
    items: Seq<PathItem>,
    from: Point,
    bidirectional: bool,
)
    ensures
        greedy_order(items, from, bidirectional).len() == items.len(),
        handles_of(greedy_order(items, from, bidirectional)).to_multiset() == item_handles(
            items,
        ).to_multiset(),
        forall|k: int|
            0 <= k < items.len() && (#[trigger] greedy_order(
                items,
                from,
                bidirectional,
            )[k]).reversed ==> bidirectional,
    decreases items.len(),
{
    broadcast use vstd::multiset::group_multiset_axioms;

    let order = greedy_order(items, from, bidirectional);
    if items.len() == 0 {
        assert(handles_of(order) =~= item_handles(items));
    } else {
        lemma_nearest_is_first_minimum(items, from, bidirectional);
        let i = nearest(items, from, bidirectional);
        let head = items[i].step(from, bidirectional);
        let rest = items.remove(i);
        let tail = greedy_order(rest, items[i].leaves_at(from, bidirectional), bidirectional);
        lemma_greedy_order_visits_each_once(
            rest,
            items[i].leaves_at(from, bidirectional),
            bidirectional,
        );
        assert(order == seq![head] + tail);
        assert forall|k: int| 0 <= k < items.len() && (#[trigger] order[k]).reversed implies
            bidirectional by {
            if k > 0 {
                assert(order[k] == tail[k - 1]);
            }
        }
        let hs = item_handles(items);
        assert(handles_of(order) =~= seq![head.handle] + handles_of(tail));
        assert(item_handles(rest) =~= hs.remove(i));
        lemma_multiset_commutative(seq![head.handle], handles_of(tail));
        to_multiset_remove(hs, i);
        hs.to_multiset_ensures();
        assert(hs.contains(hs[i]));
        assert(seq![head.handle] =~= Seq::<usize>::empty().push(head.handle));
        to_multiset_build(Seq::<usize>::empty(), head.handle);
        Seq::<usize>::empty().to_multiset_ensures();
        assert(seq![head.handle].to_multiset() =~= Multiset::<usize>::empty().insert(hs[i]));
        assert(handles_of(order).to_multiset() =~= hs.to_multiset());
    }
}

/// Every step of the greedy order draws one of the indexed strokes.
pub proof fn lemma_step_names_an_item(
    items: Seq<PathItem>,
    from: Point,
    bidirectional: bool,
    k: int,
) -> (j: int)
    requires
        0 <= k < items.len(),
    ensures
        0 <= j < items.len(),
        items[j].handle == greedy_order(items, from, bidirectional)[k].handle,
{
    let order = greedy_order(items, from, bidirectional);
    lemma_greedy_order_visits_each_once(items, from, bidirectional);
    assert(handles_of(order)[k] == order[k].handle);
    assert(handles_of(order).contains(order[k].handle));
    to_multiset_contains(handles_of(order), order[k].handle);
    to_multiset_contains(item_handles(items), order[k].handle);
    assert(item_handles(items).contains(order[k].handle));
    let j = choose|j: int|
        0 <= j < item_handles(items).len() && item_handles(items)[j] == order[k].handle;
    j
}

/// Indexable and empty strokes together are all strokes of the layer, each
/// once; an index entry caches the ends of a non-empty stroke, and the queued
/// handles are those of the empty ones.
pub proof fn lemma_layer_split(paths: Seq<Seq<Point>>)
    requires
        paths.len() <= usize::MAX,
    ensures
        indexable(paths).len() + degenerate(paths).len() == paths.len(),
        item_handles(indexable(paths)).to_multiset().add(degenerate(paths).to_multiset())
            == all_handles(paths.len()).to_multiset(),
        items_match(indexable(paths), paths),
        forall|k: int|
            0 <= k < degenerate(paths).len() ==> (#[trigger] degenerate(paths)[k]) < paths.len()
                && paths[degenerate(paths)[k] as int].len() == 0,
    decreases paths.len(),
{
    broadcast use vstd::multiset::group_multiset_axioms;

    if paths.len() == 0 {
        assert(item_handles(indexable(paths)) =~= Seq::<usize>::empty());
        assert(all_handles(0) =~= Seq::<usize>::empty());
        Seq::<usize>::empty().to_multiset_ensures();
        assert(item_handles(indexable(paths)).to_multiset().add(degenerate(paths).to_multiset())
            =~= all_handles(paths.len()).to_multiset());
    } else {
        let front = paths.drop_last();
        let h = (paths.len() - 1) as usize;
        lemma_layer_split(front);
        assert(all_handles(paths.len()) =~= all_handles(front.len()).push(h));
        to_multiset_build(all_handles(front.len()), h);
        let before = indexable(front);
        assert forall|j: int| 0 <= j < before.len() implies {
            &&& (#[trigger] before[j]).handle < paths.len()
            &&& paths[before[j].handle as int].len() > 0
            &&& before[j] == item_of(paths, before[j].handle as int)
        } by {
            assert(front[before[j].handle as int] == paths[before[j].handle as int]);
        }
        assert forall|k: int| 0 <= k < degenerate(front).len() implies (#[trigger] degenerate(
            front,
        )[k]) < paths.len() && paths[degenerate(front)[k] as int].len() == 0 by {
            assert(front[degenerate(front)[k] as int] == paths[degenerate(front)[k] as int]);
        }
        if paths.last().len() > 0 {
            assert(indexable(paths) == before.push(item_of(paths, h as int)));
            assert(item_handles(indexable(paths)) =~= item_handles(before).push(h));
            to_multiset_build(item_handles(before), h);
        } else {
            assert(degenerate(paths) == degenerate(front).push(h));
            to_multiset_build(degenerate(front), h);
        }
        assert(item_handles(indexable(paths)).to_multiset().add(degenerate(paths).to_multiset())
            =~= all_handles(paths.len()).to_multiset());
    }
}

/// Sorting conserves the layer: the drawing order has one step for each
/// stroke and visits every stroke exactly once; each stroke of the result is
/// the stroke that its step names, as it was or back to front; and only a
/// stroke that has points is ever turned.
pub proof fn lemma_sort_conserves(paths: Seq<Seq<Point>>, bidirectional: bool)
    requires
        paths.len() <= usize::MAX,
    ensures
        sorted_plan(paths, bidirectional).len() == paths.len(),
        apply_plan(paths, sorted_plan(paths, bidirectional)).len() == paths.len(),
        handles_of(sorted_plan(paths, bidirectional)).to_multiset() == all_handles(
            paths.len(),
        ).to_multiset(),
        forall|k: int|
            0 <= k < paths.len() ==> {
                let step = #[trigger] sorted_plan(paths, bidirectional)[k];
                let after = apply_plan(paths, sorted_plan(paths, bidirectional))[k];
                &&& step.handle < paths.len()
                &&& after == oriented(paths[step.handle as int], step.reversed)
                &&& after.len() == paths[step.handle as int].len()
                &&& after.to_multiset() == paths[step.handle as int].to_multiset()
                &&& step.reversed ==> bidirectional && paths[step.handle as int].len() > 0
            },
{
    broadcast use vstd::multiset::group_multiset_axioms;

    let origin = Point { x: 0, y: 0 };
    let items = indexable(paths);
    let order = greedy_order(items, origin, bidirectional);
    let queue = degenerate(paths);
    let plan = sorted_plan(paths, bidirectional);
    lemma_layer_split(paths);
    lemma_greedy_order_visits_each_once(items, origin, bidirectional);
    assert(plan == order + untouched(queue));
    assert(handles_of(plan) =~= handles_of(order) + queue);
    lemma_multiset_commutative(handles_of(order), queue);
    assert(handles_of(plan).to_multiset() =~= all_handles(paths.len()).to_multiset());
    assert forall|k: int| 0 <= k < paths.len() implies {
        let step = #[trigger] plan[k];
        let after = apply_plan(paths, plan)[k];
        &&& step.handle < paths.len()
        &&& after == oriented(paths[step.handle as int], step.reversed)
        &&& after.len() == paths[step.handle as int].len()
        &&& after.to_multiset() == paths[step.handle as int].to_multiset()
        &&& step.reversed ==> bidirectional && paths[step.handle as int].len() > 0
    } by {
        let step = plan[k];
        if k < order.len() {
            assert(step == order[k]);
            let j = lemma_step_names_an_item(items, origin, bidirectional, k);
            assert(items[j].handle == step.handle);
        } else {
            assert(step == untouched(queue)[k - order.len()]);
            assert(step.handle == queue[k - order.len()]);
        }
        paths[step.handle as int].lemma_reverse_to_multiset();
    }
}

/// The queue of empty strokes holds their handles in rising order.
pub proof fn lemma_empty_strokes_keep_order(paths: Seq<Seq<Point>>)
    requires
        paths.len() <= usize::MAX,
    ensures
        forall|a: int, b: int|
            0 <= a < b < degenerate(paths).len() ==> (#[trigger] degenerate(paths)[a]) < (
            #[trigger] degenerate(paths)[b]),
    decreases paths.len(),
{
    if paths.len() > 0 {
        lemma_empty_strokes_keep_order(paths.drop_last());
        lemma_layer_split(paths.drop_last());
    }
}

/// Strokes with points are drawn first. The empty strokes follow, none of
/// them turned, in the order in which they stand in the layer.
pub proof fn lemma_sort_puts_empty_strokes_last(paths: Seq<Seq<Point>>, bidirectional: bool)
    requires
        paths.len() <= usize::MAX,
    ensures
        indexable(paths).len() <= paths.len(),
        forall|k: int|
            0 <= k < indexable(paths).len() ==> paths[(#[trigger] sorted_plan(
                paths,
                bidirectional,
            )[k]).handle as int].len() > 0,
        forall|k: int|
            indexable(paths).len() <= k < paths.len() ==> {
                let step = #[trigger] sorted_plan(paths, bidirectional)[k];
                &&& paths[step.handle as int].len() == 0
                &&& !step.reversed
                &&& apply_plan(paths, sorted_plan(paths, bidirectional))[k] == Seq::<Point>::empty()
            },
        forall|a: int, b: int|
            indexable(paths).len() <= a < b < paths.len() ==> (#[trigger] sorted_plan(
                paths,
                bidirectional,
            )[a]).handle < (#[trigger] sorted_plan(paths, bidirectional)[b]).handle,
{
    let origin = Point { x: 0, y: 0 };
    let items = indexable(paths);
    let order = greedy_order(items, origin, bidirectional);
    let queue = degenerate(paths);
    let plan = sorted_plan(paths, bidirectional);
    let m = items.len() as int;
    lemma_layer_split(paths);
    lemma_empty_strokes_keep_order(paths);
    lemma_greedy_order_visits_each_once(items, origin, bidirectional);
    lemma_sort_conserves(paths, bidirectional);
    assert(plan == order + untouched(queue));
    assert forall|k: int| 0 <= k < m implies paths[(#[trigger] plan[k]).handle as int].len()
        > 0 by {
        assert(plan[k] == order[k]);
        let j = lemma_step_names_an_item(items, origin, bidirectional, k);
        assert(items[j].handle == plan[k].handle);
    }
    assert forall|k: int| m <= k < paths.len() implies {
        let step = #[trigger] plan[k];
        &&& step.handle == queue[k - m]
        &&& paths[step.handle as int].len() == 0
        &&& !step.reversed
        &&& apply_plan(paths, plan)[k] == Seq::<Point>::empty()
    } by {
        assert(plan[k] == untouched(queue)[k - m]);
        assert(paths[queue[k - m] as int] =~= Seq::<Point>::empty());
    }
    assert forall|a: int, b: int| m <= a < b < paths.len() implies (#[trigger] plan[a]).handle < (
    #[trigger] plan[b]).handle by {
        assert(plan[a].handle == queue[a - m]);
        assert(plan[b].handle == queue[b - m]);
    }
}

/// A layer of empty strokes only is left as it is.
pub proof fn lemma_sort_keeps_empty_layer(paths: Seq<Seq<Point>>, bidirectional: bool)
    requires
        paths.len() <= usize::MAX,
        forall|i: int| 0 <= i < paths.len() ==> (#[trigger] paths[i]).len() == 0,
    ensures
        apply_plan(paths, sorted_plan(paths, bidirectional)) == paths,
{
    lemma_only_empty_strokes(paths);
    let plan = sorted_plan(paths, bidirectional);
    assert(plan =~= untouched(all_handles(paths.len())));
    assert(apply_plan(paths, plan) =~= paths);
}

/// In a layer of empty strokes only nothing is indexed and every stroke is
/// queued, in layer order.
pub proof fn lemma_only_empty_strokes(paths: Seq<Seq<Point>>)
    requires
        paths.len() <= usize::MAX,
        forall|i: int| 0 <= i < paths.len() ==> (#[trigger] paths[i]).len() == 0,
    ensures
        indexable(paths) == Seq::<PathItem>::empty(),
        degenerate(paths) == all_handles(paths.len()),
    decreases paths.len(),
{
    if paths.len() > 0 {
        let front = paths.drop_last();
        assert forall|i: int| 0 <= i < front.len() implies (#[trigger] front[i]).len() == 0 by {
            assert(front[i] == paths[i]);
        }
        lemma_only_empty_strokes(front);
        assert(paths.last() == paths[paths.len() - 1]);
        assert(degenerate(paths) =~= all_handles(paths.len()));
    } else {
        assert(degenerate(paths) =~= all_handles(paths.len()));
    }
}

/// Where strokes may only be drawn forwards, none is turned: every stroke of
/// the result is a stroke of the layer with its points in their own order.
pub proof fn lemma_one_way_sort_never_flips(paths: Seq<Seq<Point>>)
    requires
        paths.len() <= usize::MAX,
    ensures
        forall|k: int|
            0 <= k < paths.len() ==> {
                let step = #[trigger] sorted_plan(paths, false)[k];
                &&& !step.reversed
                &&& step.handle < paths.len()
                &&& apply_plan(paths, sorted_plan(paths, false))[k] == paths[step.handle as int]
            },
{
    lemma_sort_conserves(paths, false);
}

/// The result of sorting depends on the strokes and the mode alone: equal
/// layers sorted in the same mode come out equal.
pub proof fn lemma_sort_deterministic(
    first: Seq<Seq<Point>>,
    second: Seq<Seq<Point>>,
    bidirectional: bool,
)
    requires
        first == second,
    ensures
        sorted_plan(first, bidirectional) == sorted_plan(second, bidirectional),
        apply_plan(first, sorted_plan(first, bidirectional)) == apply_plan(
            second,
            sorted_plan(second, bidirectional),
        ),
{
}

} // verus!

use vstd::prelude::*;
use crate::path::Path;
use crate::point::Point;

verus! {

/// A drawing layer: strokes in the order in which they are plotted.
#[derive(Clone, Debug, PartialEq, Eq)]
pub struct LayerImpl {
    pub paths: Vec<Path>,
}

/// The point sequences of a list of strokes.
pub open spec fn paths_view(paths: Seq<Path>) -> Seq<Seq<Point>> {
    Seq::new(paths.len(), |i: int| paths[i]@)
}

impl View for LayerImpl {
    type V = Seq<Seq<Point>>;

    open spec fn view(&self) -> Seq<Seq<Point>> {
        paths_view(self.paths@)
    }
}

impl LayerImpl {
    /// A layer without strokes.
    pub fn new() -> (layer: LayerImpl)
        ensures
            layer.paths@ == Seq::<Path>::empty(),
            layer@ == Seq::<Seq<Point>>::empty(),
    {
        let layer = LayerImpl { paths: Vec::new() };
        assert(layer@ =~= Seq::<Seq<Point>>::empty());
        layer
    }
}

} // verus!

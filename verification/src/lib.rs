//! Pen-up travel optimisation for plotter drawings.
//!
//! A drawing layer is an ordered list of polylines on an integer grid. Sorting a
//! layer reorders its polylines, and optionally reverses some of them, so that a
//! plotter starting at the origin always continues with the closest stroke that
//! is still to be drawn. Strokes without points cannot be placed and come last.
//!
//! Ties are settled by layer order: of several strokes at the same distance the
//! one that stands first in the layer is drawn first, and a stroke whose two
//! ends are equally far is drawn from its start.

pub mod point;
pub mod path;
pub mod layer;
pub mod tour;
pub mod laws;
pub mod spatial_index;
pub mod optimization;

pub use layer::LayerImpl;
pub use path::Path;
pub use point::Point;
pub use spatial_index::PathIndex;
pub use tour::PathItem;
pub use tour::Step;

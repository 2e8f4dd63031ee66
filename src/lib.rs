//! A static, bulk-loaded spatial index for two-dimensional containment queries.
//!
//! Items are inserted into a builder together with a point, sorted along a Hilbert
//! curve, and packed into a tree of fixed fan-out stored as one flat, layered array
//! of bounding boxes. A query by bounding box walks that array from the root and
//! skips every subtree whose bounds miss the query box.
//!
//! [`HPRTreeBuilder`] and [`HPRTree`] form the engine; [`HPRTreeWrappingBuilder`]
//! and [`HPRTreeWrapping`] are the same engine for items that do not carry their
//! point. The module `laws` states what every built tree answers.
pub mod footprint;
pub mod geometry;
pub mod hilbert;
pub mod hprtree;
pub mod hprtree_wrapping;
pub mod index_item;
pub mod laws;
pub mod layers;
pub mod removelist;

pub use crate::geometry::{BBox, CoordinateType, Point, SpatiallyIndexable};
pub use crate::hprtree::{HPRTree, HPRTreeBuilder};
pub use crate::hprtree_wrapping::{HPRTreeWrapping, HPRTreeWrappingBuilder};
pub use crate::index_item::IndexItem;
pub use crate::layers::NODE_CAPACITY;
pub use crate::removelist::RemoveList;

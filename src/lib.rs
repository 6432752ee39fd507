//! Verified core of an offline ray tracer.
//!
//! - `octree`: a lazily subdivided spatial index over bounded items. It is
//!   generic over the region type and the item type; the geometric tests
//!   (does an item overlap a region, does a ray meet a region, how a region
//!   splits into octants) come in as closures, so the index logic is proved
//!   independently of the arithmetic those tests use.
//! - `coord`: integer triples and the octant numbering used for splitting.
//! - `render`: the partition of the image into worker chunks, the order of
//!   the camera's rays, the background rule for pixels, and the merge of
//!   the workers' chunks keyed by chunk position.
//! - `scene`: the line grammar of scene files (words, line kinds, faces).
pub mod coord;
pub mod octree;
pub mod render;
pub mod scene;

//! Integer core of a tile-scheduled path tracer: the partition of an image
//! into render tasks and the merge of their pixel blocks into the frame, the
//! shape of the bounding-volume hierarchy, the noise permutation table and the
//! render options.
pub mod permutation_table;
pub mod render;
pub mod bvh;
pub mod scene;

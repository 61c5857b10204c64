//! Integer core of a CPU path tracer: the layout of the bounding-volume
//! hierarchy and its nearest-hit traversal, the brute-force nearest-hit scan,
//! progressive frame accumulation, packed material tags and framebuffer pixel
//! packing. Hit distances reach the library as order-preserving integer keys.
use vstd::prelude::*;

pub mod accumulation;
pub mod bvh;
pub mod material_type;
pub mod nearest;
pub mod pixel;

pub use accumulation::Accumulation;
pub use bvh::{BVHNode, BvhLayout, LEAF_CAPACITY};
pub use material_type::MaterialType;
pub use nearest::{closer, nearest_hit};
pub use pixel::rgb_to_u32;

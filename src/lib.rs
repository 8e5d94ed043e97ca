//! Ordering logic of a path tracer: bounding boxes, the bounding volume hierarchy
//! and the flat object list with their nearest-hit queries, the root choice of a
//! sphere, the stretch of a ray inside a participating medium, and the recursive
//! integrator.
//!
//! Every coordinate and every ray parameter is handled here as an order key: an
//! unsigned integer whose order is the order of the value it stands for. The
//! geometry that needs arithmetic on the values themselves is handed in by the
//! caller, as closures or as the keys of what it computed; what only compares them
//! is here and proved.

pub mod aabb;
pub mod aarect;
pub mod bvh;
pub mod integrator;
pub mod medium;
pub mod sphere;
pub mod world;

pub use aabb::{slab_hit, AABB};
pub use aarect::rect_hit;
pub use bvh::{Bvh, BvhError, BvhNode, Child};
pub use integrator::{ray_color, Bounce};
pub use medium::medium_span;
pub use sphere::nearest_root;
pub use world::{world_bounding_box, world_hit};

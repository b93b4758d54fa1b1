//! An index for three-dimensional points that lives in an ordered key-value
//! store: order-homomorphic encodings of points, the 3d-ish zip-tree over
//! ranked points, and the layout of that tree as key-value entries.

pub mod backend;
pub mod bytes;
pub mod conformance;
pub mod dimension;
pub mod kv_tree;
pub mod monoid;
pub mod point;
pub mod scalars;
pub mod schedule;
pub mod tree;
pub mod tree_check;
pub mod tree_laws;
pub mod triple;

pub use backend::{find_left_child, find_right_child, store_tree, BackEnd};
pub use conformance::{assert_dimension_works, assert_point3d_works, assert_tree_works};
pub use dimension::Dimension;
pub use kv_tree::{left_child_bound, right_child_bound, vertex_key, KvValue, NO_CHILD};
pub use monoid::LiftingCommutativeMonoid;
pub use point::{Point3d, Rotation};
pub use scalars::{U8FixedWidth, U8VariableWidth};
pub use tree::{cmp_points_at_rank, ControlNode};

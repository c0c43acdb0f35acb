//! A bounding volume hierarchy (BVH) for ray tracing over exact integer
//! coordinates, with a surface-area-heuristic builder that supports both
//! object splits and spatial (split-primitive) splits, and a stack-based
//! front-to-back traversal proved equivalent to a brute-force scan.

pub mod aabb;
pub mod boxprim;
pub mod bvh;
pub mod hit;
pub mod hit_list;
pub mod interval;
pub mod rat;
pub mod ray;
pub mod vec3;

//! The integer core of an offline path tracer.
//!
//! Everything here is exact: pixel stores, the shape of the bounding-volume
//! hierarchy, permutation tables, the material-library grammar and the
//! control skeleton of the light-transport estimator. Coordinates enter as
//! order keys, 64-bit integers whose order is the order of the numbers they
//! stand for, so that sorting, unions and containment are decided here while
//! the arithmetic on the numbers themselves stays with the caller.

pub mod aabb;
pub mod bvh;
pub mod hit_checker;
pub mod interval;
pub mod material;
pub mod modeling;
pub mod mtl;
pub mod my_image;
pub mod obj;
pub mod pdf;
pub mod perlin;
pub mod random;
pub mod raytracer;
pub mod sketchpad;
pub mod sorting;
pub mod texture;

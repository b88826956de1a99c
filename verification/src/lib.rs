//! A path tracer: rays from a camera, their nearest hits on spheres and
//! meshes, the light that comes back along them, and the frame that the
//! samples of all pixels add up to.
//!
//! Every number is an IEEE 754 binary64 value held as its bit pattern and
//! computed in integer arithmetic, so that each function has a contract
//! that is checked by machine.
pub mod scalar;
pub mod coord;
pub mod error;
pub mod scene;

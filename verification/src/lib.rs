//! The decisions of a face verification loop, verified.
//!
//! A camera is read frame by frame; a network locates the faces in a frame,
//! a second one turns each face into an embedding, and the embedding is
//! compared with one enrolled reference. This crate holds what is decided on
//! the way: how the locator's output becomes regions in pixels, when two
//! embeddings match, what the reference is, and what the loop does next
//! after each outcome. Cameras, networks, files and windows are the
//! caller's.
//!
//! Numbers that arrive in floating point are taken as their bits, and what
//! is computed on them is what the hardware computes: `single` and `double`
//! read, order, scale and write them over the whole numbers of `rounding`,
//! `packed` and `decimal`.

pub mod comparator;
pub mod decimal;
pub mod decoder;
pub mod double;
pub mod enrollment;
pub mod geometry;
pub mod locator;
pub mod orchestrator;
pub mod packed;
pub mod rounding;
pub mod single;

//! Simulation core of a falling-block "pillars" puzzle: a vertical grid (the
//! well) into which a three-gem piece falls at constant speed, lands, and is
//! replaced by a freshly sampled piece.
//!
//! The library is host-independent: time, speed and fall progress are held as
//! fixed-point integers, gem identities are plain counters, and the settled
//! grid is a dense vector. A presentation layer drives it by feeding elapsed
//! time into [`well::Well::advance`] and reading interpolated positions back
//! from [`well::Well::piece_offsets`].

pub mod gems;
pub mod well;

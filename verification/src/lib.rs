//! Routing and key-placement core of a Chord ring: a circle of `2^8`
//! identifiers, peers that each own the slice of keys ending at their own
//! identifier, and per-peer finger tables that let any peer locate the owner
//! of any key.
//!
//! All peers of one ring live in a [`node::NodeStore`], one for each
//! identifier; a [`node::Node`] is a handle on one of them, and the protocol
//! is written as methods of the handle that take the store. What the
//! protocol prints elsewhere it hands out here as lines of text.
//!
//! - [`ring_math`]: distances and intervals on the circle.
//! - [`model`]: the store as sequences and maps, over which every contract
//!   is stated.
//! - [`node`]: finger tables, peers, the store and the handle.
//! - [`routing`], [`lookup`]: the walk to the owner of a key, and `find`,
//!   `insert`, `remove`.
//! - [`join`], [`leave`], [`keys`]: the two protocols and the migration of
//!   keys.
//! - [`text`], [`report`]: records, traces and dumps.
//! - [`ring`]: what a sound ring is, and that lookups on it find the owners.
//! - [`hops`]: the bound on the length of a lookup.
//! - [`join_proof`], [`leave_proof`], [`round_trip`]: what joins and leaves
//!   keep of a sound ring, and when they keep every finger exact.
//! - [`frame`]: what each update of the model leaves alone.

pub mod frame;
pub mod hops;
pub mod join;
pub mod join_proof;
pub mod keys;
pub mod leave;
pub mod leave_proof;
pub mod lookup;
pub mod model;
pub mod node;
pub mod report;
pub mod ring;
pub mod ring_math;
pub mod round_trip;
pub mod routing;
pub mod text;

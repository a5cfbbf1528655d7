//! Authoritative state core of a small multiplayer space simulation.
//!
//! The [`world`] module tracks per-player cargo inventories and derelict
//! wreck containers, and exposes the atomic operations that move item
//! stacks between them under a cargo-volume constraint. The [`session`]
//! module holds the collaborator state at the same store: display names,
//! ship positions and presence flags. The [`laws`] module states and
//! proves the cross-operation properties of the core.
//!
//! World coordinates are carried through the core as raw IEEE 754 bit
//! patterns (`u64`); the core stores and compares them but never does
//! arithmetic on them, so callers convert at the boundary.

use vstd::prelude::*;

pub mod laws;
pub mod session;
pub mod world;

verus! {

/// Opaque, externally issued principal id; compared only by equality.
pub type Identity = u64;

/// Why an operation was rejected; on any error the state is unchanged.
#[derive(Clone, Copy, PartialEq, Eq, Structural, Debug)]
pub enum Error {
    /// A referenced wreck, player, user, or ship does not exist.
    NotFound,
    /// A numeric field was non-finite, or a name was empty or too long
    /// after trimming.
    InvalidInput,
}

} // verus!

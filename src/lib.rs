//! Reverse-mode automatic differentiation over fixed-shape tensors.
//!
//! `shape` holds tensor extents, `ids` issues tensor ids, `tensor` couples
//! elements to an id and a shape, `tape` records operations and plans the
//! backward pass, and `gradients` runs that plan and holds the results.
//! Element arithmetic is supplied by the caller as closures.

pub mod gradients;
pub mod ids;
pub mod shape;
pub mod tape;
pub mod tensor;

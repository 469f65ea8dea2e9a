//! A fixed-capacity pool of reference-counted slots carved out of one byte
//! buffer, with handles that stand for one reference each.
//!
//! The buffer is cut into slots of equal size. A slot is a reference count,
//! one platform word wide, followed by the bytes of one value; both are
//! written least significant byte first. A slot is claimed from the free
//! list or, while that is empty, from the untouched space behind the
//! high-water mark, and goes back to the free list when its last reference
//! is given up. The buffer never grows and no slot ever moves.
//!
//! * [`codec`]: numbers as little-endian bytes.
//! * [`payload`]: the types a slot can hold.
//! * [`model`]: the pool as mathematical values, and its state changes.
//! * [`pool`]: the pool itself.
//! * [`handle`]: the handles.
//! * [`text`]: the text that describes a handle.
//! * [`laws`]: what holds across several operations.

pub mod codec;
pub mod handle;
pub mod laws;
pub mod model;
pub mod payload;
pub mod pool;
pub mod text;

pub use crate::handle::Arc;
pub use crate::pool::Pool;

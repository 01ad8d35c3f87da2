//! Orbit: strict, ring-based rate limiting.
//!
//! The nodes of a ring hand a table of recent usage from each node to the next, once
//! per epoch. Each node admits requests against what the table leaves of the limit,
//! so that no round trip is on the path of a request.

pub mod archive;
pub mod bytes;
pub mod epoch;
pub mod load;
pub mod node;
pub mod pull;
pub mod ring;
pub mod stream;
pub mod sum;
pub mod usage;

pub use node::{Orbit, OrbitConfig};
pub use usage::Uuid;

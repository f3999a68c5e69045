//! Verified core of a container-registry housekeeping tool.
//!
//! The library drains a cursor-paginated remote listing into one aggregated
//! list, imposes the service's canonical orderings (repositories by name
//! ascending, images by push time descending), applies a threshold/count
//! retention policy to pick the oldest images, and turns the picked images
//! into batched, digest-addressed delete requests.  All remote I/O lives in
//! the surrounding shell; the shell feeds plain values in and takes plain
//! values back.

pub mod delete;
pub mod error;
pub mod order;
pub mod page;
pub mod registry;
pub mod retention;
pub mod service;
pub mod sort;

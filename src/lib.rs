//! Bookkeeping core of a GPU resource layer: a first-fit sub-allocator for
//! large device buffers, per-queue-family command pool tracking, the
//! synchronous transfer protocol and bindless descriptor slot allocation.
//!
//! Every native handle is carried as a plain integer; the native calls are
//! made by the caller, which hands the results back to these types.

pub mod bindless;
pub mod command;
pub mod config;
pub mod megabuffer;
pub mod shader_data;
pub mod transfer;

//! Memory-management and request-scheduling core of a local large-language-model
//! inference engine.
//!
//! The core keeps per-token attention state (the key/value cache) bounded in
//! memory, reusable across requests that share a prefix, and shared across
//! concurrently served generation requests:
//!
//! - [`paged_cache`]: fixed-size block storage for per-sequence attention state;
//! - [`prefix_cache`]: content-addressed reuse of previously computed key/value
//!   state for repeated prompts, evicted least-recently-used under a budget;
//! - [`dynamic_batcher`]: aggregation of independent generation requests into
//!   joint forward-pass batches, first-in-first-out.
//!
//! Around them, [`simd_dispatch`] and [`tiled_attention`] carry the
//! performance knobs of the CPU kernels, and [`model_meta`] the facts a model
//! loader reports. Model loading, tokenization and the forward pass itself
//! are external collaborators; the core treats a key/value entry as an opaque
//! buffer.

pub mod dynamic_batcher;
pub mod model_meta;
pub mod paged_cache;
pub mod prefix_cache;
pub mod simd_dispatch;
pub mod tiled_attention;

//! Metadata a model loader reports about a GGUF model file.
//!
//! Loading the weights themselves — opening the file, parsing the container
//! format, building the tensors — is the work of an external collaborator;
//! the core only carries the plain facts it reports.

use vstd::prelude::*;

verus! {

/// The facts a loader reports about a GGUF model file.
#[derive(Debug, Clone)]
pub struct GgufMetadata {
    pub name: String,
    pub architecture: String,
    pub n_layer: usize,
    pub n_embd: usize,
    pub vocab_size: usize,
    pub context_length: usize,
    pub file_size: u64,
}

impl GgufMetadata {
    /// Whether a prompt of `n` tokens fits the model's context window.
    pub fn fits_context(&self, n: usize) -> (r: bool)
        ensures
            r == (n <= self.context_length),
    {
        n <= self.context_length
    }
}

} // verus!

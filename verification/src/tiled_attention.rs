//! Tile-based attention configuration.
//!
//! Tiling improves cache locality of the attention computation for long
//! sequences. The tensor math itself is external; this module only carries
//! the tiling parameters and their selection rule.

use vstd::prelude::*;

verus! {

/// Tiling parameters for the attention computation.
#[derive(Debug, Clone, Copy, PartialEq, Eq, Structural)]
pub struct TiledAttentionConfig {
    pub tile_size: usize,
    pub head_dim: usize,
    pub num_heads: usize,
}

/// What [`TiledAttentionConfig::new`] picks: a 16-position tile for wide
/// heads, an 8-position tile for narrow ones.
pub open spec fn spec_tile_config(head_dim: usize, num_heads: usize) -> TiledAttentionConfig {
    TiledAttentionConfig {
        tile_size: if head_dim >= 128 {
            16
        } else {
            8
        },
        head_dim,
        num_heads,
    }
}

impl Default for TiledAttentionConfig {
    /// A 16-position tile over 32 heads of dimension 128.
    fn default() -> (r: Self)
        ensures
            r.tile_size == 16,
            r.head_dim == 128,
            r.num_heads == 32,
    {
        TiledAttentionConfig { tile_size: 16, head_dim: 128, num_heads: 32 }
    }
}

impl TiledAttentionConfig {
    /// Picks the tile size for the given head geometry.
    pub fn new(head_dim: usize, num_heads: usize) -> (r: Self)
        ensures
            r == spec_tile_config(head_dim, num_heads),
    {
        let tile_size: usize = if head_dim >= 128 {
            16
        } else {
            8
        };
        TiledAttentionConfig { tile_size, head_dim, num_heads }
    }
}

/// Tile-based attention over a fixed configuration.
pub struct TiledAttention {
    config: TiledAttentionConfig,
}

impl View for TiledAttention {
    type V = TiledAttentionConfig;

    closed spec fn view(&self) -> TiledAttentionConfig {
        self.config
    }
}

impl TiledAttention {
    pub fn new(config: TiledAttentionConfig) -> (r: TiledAttention)
        ensures
            r@ == config,
    {
        TiledAttention { config }
    }

    /// Attention with the tile size picked for the given head geometry.
    pub fn new_auto(head_dim: usize, num_heads: usize) -> (r: TiledAttention)
        ensures
            r@ == spec_tile_config(head_dim, num_heads),
    {
        TiledAttention { config: TiledAttentionConfig::new(head_dim, num_heads) }
    }

    pub fn config(&self) -> (r: &TiledAttentionConfig)
        ensures
            *r == self@,
    {
        &self.config
    }
}

/// Attention with the tile size picked for the given head geometry.
pub fn create_tiled_attention(head_dim: usize, num_heads: usize) -> (r: TiledAttention)
    ensures
        r@ == spec_tile_config(head_dim, num_heads),
{
    TiledAttention::new_auto(head_dim, num_heads)
}

} // verus!

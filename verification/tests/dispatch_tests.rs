use oxide_rs::model_meta::GgufMetadata;
use oxide_rs::simd_dispatch::{CpuFeatures, SimdLevel, get_simd, init_simd};
use oxide_rs::tiled_attention::{TiledAttentionConfig, create_tiled_attention};

#[test]
fn test_cpu_features_detection() {
    let features = CpuFeatures::detect();
    assert!(features.num_cores > 0);
}

#[test]
fn test_simd_level_from_str() {
    assert_eq!(SimdLevel::from_str("avx512"), SimdLevel::Avx512);
    assert_eq!(SimdLevel::from_str("AVX2"), SimdLevel::Avx2);
    assert_eq!(SimdLevel::from_str("auto"), SimdLevel::Auto);
    assert_eq!(SimdLevel::from_str("none"), SimdLevel::Scalar);
}

#[test]
fn test_tiled_attention_config_defaults() {
    let config = TiledAttentionConfig::default();
    assert_eq!(config.tile_size, 16);
    assert_eq!(config.head_dim, 128);
    assert_eq!(config.num_heads, 32);
}

#[test]
fn test_tiled_attention_config_auto() {
    let config = TiledAttentionConfig::new(256, 32);
    assert_eq!(config.tile_size, 16);
    assert_eq!(config.head_dim, 256);
}

#[test]
fn test_narrow_heads_get_small_tiles() {
    let att = create_tiled_attention(64, 8);
    assert_eq!(att.config().tile_size, 8);
    assert_eq!(att.config().num_heads, 8);
}

#[test]
fn test_simd_dispatch_resolution() {
    // An explicit level stands; `Auto` resolves to the recommendation.
    let explicit = init_simd(SimdLevel::Scalar);
    assert_eq!(explicit.level, SimdLevel::Scalar);

    let auto = init_simd(SimdLevel::Auto);
    assert_eq!(auto.level, auto.cpu_features.recommended_simd());
    assert_eq!(get_simd().level, auto.level);
}

#[test]
fn test_recommended_simd_ordering() {
    let mut f = CpuFeatures::detect_arm(true, 4, 2);
    assert_eq!(f.recommended_simd(), SimdLevel::Neon);
    f.has_neon = false;
    assert_eq!(f.recommended_simd(), SimdLevel::Scalar);
    let x = CpuFeatures::detect_x86(8, 4);
    assert_eq!(x.recommended_simd(), SimdLevel::Avx2);
}

#[test]
fn test_metadata_context_fit() {
    let md = GgufMetadata {
        name: "LLaMA".to_string(),
        architecture: "llama".to_string(),
        n_layer: 16,
        n_embd: 2048,
        vocab_size: 32000,
        context_length: 4096,
        file_size: 1234,
    };
    assert!(md.fits_context(4096));
    assert!(!md.fits_context(4097));
}

//! Runtime selection of a SIMD dispatch level for CPU inference.
//!
//! Detects what the processor offers and resolves a requested level —
//! possibly `Auto` — to the concrete code path the kernels should take.
//! These are pure performance knobs: no correctness contract of the core
//! depends on the chosen level. The process-wide once-initialized dispatch
//! table belongs to the embedding application; this module computes its
//! value.

use vstd::prelude::*;

verus! {

/// The lowercase form of a string, as std's `to_lowercase` computes it: a
/// function of the characters alone.
pub uninterp spec fn lower_of(s: Seq<char>) -> Seq<char>;

/// A vector extension the processor may offer.
#[derive(Debug, Clone, Copy, PartialEq, Eq, Structural)]
pub enum CpuFeature {
    Avx512,
    Avx2,
    Neon,
    NoSimd,
}

/// The dispatch level inference kernels run at.
#[derive(Debug, Clone, Copy, PartialEq, Eq, Structural)]
pub enum SimdLevel {
    /// Pick the best level the processor offers.
    Auto,
    Avx512,
    Avx2,
    Neon,
    /// No vector extensions.
    Scalar,
}

/// What [`SimdLevel::from_str`] returns for the lowercase form of its input.
pub open spec fn spec_simd_level_from(lowered: Seq<char>) -> SimdLevel {
    if lowered == "avx512"@ {
        SimdLevel::Avx512
    } else if lowered == "avx2"@ {
        SimdLevel::Avx2
    } else if lowered == "neon"@ {
        SimdLevel::Neon
    } else if lowered == "none"@ || lowered == "scalar"@ {
        SimdLevel::Scalar
    } else {
        SimdLevel::Auto
    }
}

/// Relies on std's `str::to_lowercase`: the result depends on the
/// characters alone, named `lower_of`.
#[verifier::external_body]
fn lowercase(s: &str) -> (r: String)
    ensures
        r@ == lower_of(s@),
{
    s.to_lowercase()
}

impl SimdLevel {
    /// Parses a requested dispatch level, case-insensitively; anything
    /// unrecognized selects automatic detection.
    pub fn from_str(s: &str) -> (r: SimdLevel)
        ensures
            r == spec_simd_level_from(lower_of(s@)),
    {
        let low = lowercase(s);
        if low == "avx512".to_owned() {
            SimdLevel::Avx512
        } else if low == "avx2".to_owned() {
            SimdLevel::Avx2
        } else if low == "neon".to_owned() {
            SimdLevel::Neon
        } else if low == "none".to_owned() || low == "scalar".to_owned() {
            SimdLevel::Scalar
        } else {
            SimdLevel::Auto
        }
    }
}

/// What the processor offers: vector extensions and core counts.
#[derive(Debug, Clone, Copy, PartialEq, Eq, Structural)]
pub struct CpuFeatures {
    pub has_avx512: bool,
    pub has_avx2: bool,
    pub has_avx: bool,
    pub has_neon: bool,
    pub num_cores: usize,
    pub num_physical_cores: usize,
}

/// Relies on num_cpus's `get`: the number of logical CPUs available to the
/// process, documented to be at least 1.
#[verifier::external_body]
fn logical_cpu_count() -> (r: usize)
    ensures
        r >= 1,
{
    num_cpus::get()
}

/// Relies on num_cpus's `get_physical`: the number of physical CPU cores,
/// documented to be at least 1.
#[verifier::external_body]
fn physical_cpu_count() -> (r: usize)
    ensures
        r >= 1,
{
    num_cpus::get_physical()
}

/// The best dispatch level for the given features.
pub open spec fn spec_recommended(f: CpuFeatures) -> SimdLevel {
    if f.has_avx512 {
        SimdLevel::Avx512
    } else if f.has_avx2 {
        SimdLevel::Avx2
    } else if f.has_neon {
        SimdLevel::Neon
    } else {
        SimdLevel::Scalar
    }
}

impl CpuFeatures {
    /// Features on x86-64. Probing AVX-512 at runtime needs unstable
    /// toolchain features, so modern vector extensions up to AVX2 are
    /// assumed present.
    pub fn detect_x86(num_cores: usize, num_physical_cores: usize) -> (r: CpuFeatures)
        ensures
            r == (CpuFeatures {
                has_avx512: false,
                has_avx2: true,
                has_avx: true,
                has_neon: false,
                num_cores,
                num_physical_cores,
            }),
    {
        CpuFeatures {
            has_avx512: false,
            has_avx2: true,
            has_avx: true,
            has_neon: false,
            num_cores,
            num_physical_cores,
        }
    }

    /// Features on AArch64, from the probed NEON flag.
    pub fn detect_arm(has_neon: bool, num_cores: usize, num_physical_cores: usize) -> (r:
        CpuFeatures)
        ensures
            r == (CpuFeatures {
                has_avx512: false,
                has_avx2: false,
                has_avx: false,
                has_neon,
                num_cores,
                num_physical_cores,
            }),
    {
        CpuFeatures {
            has_avx512: false,
            has_avx2: false,
            has_avx: false,
            has_neon,
            num_cores,
            num_physical_cores,
        }
    }

    /// Probes the machine this x86-64 build runs on: core counts from the
    /// system, vector extensions per [`Self::detect_x86`].
    pub fn detect() -> (r: CpuFeatures)
        ensures
            r.num_cores >= 1,
            r.num_physical_cores >= 1,
            !r.has_avx512,
            r.has_avx2,
            r.has_avx,
            !r.has_neon,
    {
        let num_cores = logical_cpu_count();
        let num_physical_cores = physical_cpu_count();
        CpuFeatures::detect_x86(num_cores, num_physical_cores)
    }

    /// The best dispatch level these features support.
    pub fn recommended_simd(&self) -> (r: SimdLevel)
        ensures
            r == spec_recommended(*self),
    {
        if self.has_avx512 {
            SimdLevel::Avx512
        } else if self.has_avx2 {
            SimdLevel::Avx2
        } else if self.has_neon {
            SimdLevel::Neon
        } else {
            SimdLevel::Scalar
        }
    }
}

/// A resolved dispatch decision: the level the kernels will take and the
/// features it was decided on.
#[derive(Debug, Clone, Copy, PartialEq, Eq, Structural)]
pub struct SimdDispatch {
    pub level: SimdLevel,
    pub cpu_features: CpuFeatures,
}

impl SimdDispatch {
    /// Resolves a requested level against the detected features: `Auto`
    /// becomes the recommendation, any explicit level stands.
    pub fn init(level: SimdLevel) -> (r: SimdDispatch)
        ensures
            r.level == (if level is Auto {
                spec_recommended(r.cpu_features)
            } else {
                level
            }),
            r.cpu_features.num_cores >= 1,
            r.cpu_features.num_physical_cores >= 1,
    {
        let cpu_features = CpuFeatures::detect();
        let actual_level = match level {
            SimdLevel::Auto => cpu_features.recommended_simd(),
            _ => level,
        };
        SimdDispatch { level: actual_level, cpu_features }
    }

    /// The dispatch decision from detection alone.
    pub fn get() -> (r: SimdDispatch)
        ensures
            r.level == spec_recommended(r.cpu_features),
            r.cpu_features.num_cores >= 1,
            r.cpu_features.num_physical_cores >= 1,
    {
        let cpu_features = CpuFeatures::detect();
        let level = cpu_features.recommended_simd();
        SimdDispatch { level, cpu_features }
    }
}

/// Resolves a requested dispatch level; see [`SimdDispatch::init`].
pub fn init_simd(level: SimdLevel) -> (r: SimdDispatch)
    ensures
        r.level == (if level is Auto {
            spec_recommended(r.cpu_features)
        } else {
            level
        }),
        r.cpu_features.num_cores >= 1,
{
    SimdDispatch::init(level)
}

/// The dispatch decision from detection alone; see [`SimdDispatch::get`].
pub fn get_simd() -> (r: SimdDispatch)
    ensures
        r.level == spec_recommended(r.cpu_features),
        r.cpu_features.num_cores >= 1,
{
    SimdDispatch::get()
}

} // verus!

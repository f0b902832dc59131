//! Prefix caching for repeated prompts.
//!
//! A prefix cache is keyed by a content hash of (prompt text, optional system
//! prompt, model configuration) and stores the token list of a previously
//! computed prefix together with its key/value state, so that a repeated
//! prompt skips its prefill cost. Entries are kept in recency order (least
//! recently used first) and evicted from the front under a fixed memory
//! budget; an entry that cannot fit even in an otherwise empty cache is
//! silently not cached.

use vstd::prelude::*;

verus! {

/// Fixed per-entry bookkeeping overhead charged against the memory budget.
pub const ENTRY_OVERHEAD_BYTES: usize = 1024;

/// Bytes charged per cached token.
pub const BYTES_PER_TOKEN: usize = 4;

/// Bytes in one megabyte.
pub const BYTES_PER_MB: usize = 1048576;

/// The 64-bit value that std's `DefaultHasher` computes for a string.
/// `DefaultHasher::new()` builds a fixed-key hasher, so the result is a
/// function of the characters alone.
pub uninterp spec fn hash64_of(s: Seq<char>) -> u64;

/// The first eight bytes, read little-endian, of the SHA-256 digest of a
/// string's UTF-8 bytes: a function of the characters alone.
pub uninterp spec fn sha256_head64(s: Seq<char>) -> u64;

/// Configuration of a [`PrefixCache`]: memory budget in megabytes and an
/// enable flag. A disabled cache stores nothing and always misses.
#[derive(Clone, Copy, Debug)]
pub struct PrefixCacheConfig {
    pub memory_budget_mb: usize,
    pub enabled: bool,
}

impl Default for PrefixCacheConfig {
    /// 512 MB budget, enabled.
    fn default() -> (r: Self)
        ensures
            r.memory_budget_mb == 512,
            r.enabled,
    {
        PrefixCacheConfig { memory_budget_mb: 512, enabled: true }
    }
}

/// Key identifying a cached prefix: three independent content hashes.
/// Equality is structural hash equality; hash collisions are accepted as
/// (overwhelmingly improbable) false-positive cache hits.
#[derive(Clone, Copy, Debug, PartialEq, Eq, Hash, Structural)]
pub struct CacheKey {
    pub prompt_hash: u64,
    pub system_hash: u64,
    pub model_config_hash: u64,
}

/// What it means for a key to have been built from the three inputs of
/// [`CacheKey::new`]: each field holds the hash of the matching input,
/// a missing system prompt hashing like the empty string.
pub open spec fn key_built_from(
    k: CacheKey,
    prompt: Seq<char>,
    system_prompt: Option<Seq<char>>,
    model_config: Seq<char>,
) -> bool {
    &&& k.prompt_hash == hash64_of(prompt)
    &&& k.system_hash == (match system_prompt {
        Some(s) => hash64_of(s),
        None => hash64_of(Seq::<char>::empty()),
    })
    &&& k.model_config_hash == hash64_of(model_config)
}

impl CacheKey {
    /// Builds the key for a (prompt, system prompt, model configuration)
    /// triple by hashing each part independently.
    pub fn new(prompt: &str, system_prompt: Option<&str>, model_config: &str) -> (r: CacheKey)
        ensures
            key_built_from(
                r,
                prompt@,
                match system_prompt {
                    Some(s) => Some(s@),
                    None => None,
                },
                model_config@,
            ),
    {
        let prompt_hash = Self::hash_string(prompt);
        let system_hash = match system_prompt {
            Some(s) => Self::hash_string(s),
            None => {
                let h = Self::hash_string("");
                proof {
                    assert(""@ =~= Seq::<char>::empty()) by {
                        reveal_strlit("");
                    }
                }
                h
            },
        };
        let model_config_hash = Self::hash_string(model_config);

        CacheKey { prompt_hash, system_hash, model_config_hash }
    }

    /// Relies on std's `DefaultHasher`: `DefaultHasher::new()` is a fixed-key
    /// hasher, so hashing a string returns a value that depends on its
    /// characters alone, named `hash64_of`.
    #[verifier::external_body]
    fn hash_string(s: &str) -> (r: u64)
        ensures
            r == hash64_of(s@),
    {
        let mut hasher = std::collections::hash_map::DefaultHasher::new();
        std::hash::Hash::hash(s, &mut hasher);
        std::hash::Hasher::finish(&hasher)
    }
}

/// Keys built from identical (prompt, system prompt, model configuration)
/// inputs are equal. Keys of differing inputs differ only with overwhelming
/// probability, which no proof can state; a collision is an accepted
/// false-positive cache hit.
pub proof fn lemma_cache_key_equality(
    k1: CacheKey,
    k2: CacheKey,
    prompt: Seq<char>,
    system_prompt: Option<Seq<char>>,
    model_config: Seq<char>,
)
    requires
        key_built_from(k1, prompt, system_prompt, model_config),
        key_built_from(k2, prompt, system_prompt, model_config),
    ensures
        k1 == k2,
{
}

/// Relies on sha2's `Sha256`: the digest is a function of the input bytes
/// alone. The returned value is the first eight digest bytes read
/// little-endian, named `sha256_head64`.
#[verifier::external_body]
pub fn hash_prompt(prompt: &str) -> (r: u64)
    ensures
        r == sha256_head64(prompt@),
{
    let mut hasher = <sha2::Sha256 as sha2::Digest>::new();
    sha2::Digest::update(&mut hasher, prompt.as_bytes());
    let result = sha2::Digest::finalize(hasher);
    let mut bytes = [0u8; 8];
    bytes.copy_from_slice(&result[0..8]);
    u64::from_le_bytes(bytes)
}

/// Relies on std's `Arc::clone`: the clone is another handle to the same
/// allocation, hence the same value.
#[verifier::external_body]
fn arc_clone<T>(a: &std::sync::Arc<T>) -> (r: std::sync::Arc<T>)
    ensures
        r == *a,
{
    std::sync::Arc::clone(a)
}

/// The key/value state of one attention layer of a cached prefix. The core
/// treats the buffers as opaque bytes; it never inspects them.
pub struct CachedLayer {
    pub k_cache: Vec<u8>,
    pub v_cache: Vec<u8>,
}

/// A computed prefix held by the cache: its key, the tokens it covers, its
/// per-layer key/value state, an access counter and the logical insertion
/// time. Shared read-only with consumers through `Arc`.
pub struct CachedPrefix {
    pub key: CacheKey,
    pub tokens: Vec<u32>,
    pub kv_cache: Vec<CachedLayer>,
    pub access_count: u64,
    pub last_access: u64,
}

/// Mathematical image of one cached prefix.
pub struct PrefixModel {
    pub key: CacheKey,
    pub tokens: Seq<u32>,
    pub kv_layers: Seq<(Seq<u8>, Seq<u8>)>,
    pub access_count: u64,
    pub last_access: u64,
}

/// Mathematical image of the whole cache. `entries` is in recency order,
/// least recently used first; `used` is the bytes charged against `budget`.
pub struct PrefixCacheModel {
    pub config: PrefixCacheConfig,
    pub budget: int,
    pub used: int,
    pub entries: Seq<PrefixModel>,
    pub tick: u64,
}

pub open spec fn layer_model(l: CachedLayer) -> (Seq<u8>, Seq<u8>) {
    (l.k_cache@, l.v_cache@)
}

pub open spec fn layers_model(ls: Seq<CachedLayer>) -> Seq<(Seq<u8>, Seq<u8>)> {
    ls.map(|i: int, l: CachedLayer| layer_model(l))
}

pub open spec fn model_of(p: CachedPrefix) -> PrefixModel {
    PrefixModel {
        key: p.key,
        tokens: p.tokens@,
        kv_layers: layers_model(p.kv_cache@),
        access_count: p.access_count,
        last_access: p.last_access,
    }
}

/// Bytes charged against the budget for an entry with these tokens.
pub open spec fn entry_cost(tokens: Seq<u32>) -> int {
    tokens.len() * BYTES_PER_TOKEN + ENTRY_OVERHEAD_BYTES
}

/// Total bytes charged for a sequence of entries.
pub open spec fn sum_cost(es: Seq<PrefixModel>) -> int
    decreases es.len(),
{
    if es.len() == 0 {
        0
    } else {
        entry_cost(es.first().tokens) + sum_cost(es.drop_first())
    }
}

pub open spec fn has_key(es: Seq<PrefixModel>, k: CacheKey) -> bool {
    exists|i: int| 0 <= i < es.len() && es[i].key == k
}

/// The index of the entry with key `k` (meaningful only when `has_key` and
/// keys are unique).
pub open spec fn key_index(es: Seq<PrefixModel>, k: CacheKey) -> int {
    choose|i: int| 0 <= i < es.len() && es[i].key == k
}

pub open spec fn unique_keys(es: Seq<PrefixModel>) -> bool {
    forall|i: int, j: int|
        0 <= i < j < es.len() ==> #[trigger] es[i].key != #[trigger] es[j].key
}

/// Well-formedness of a cache model: the budget is the configured megabytes,
/// the byte accounting is exact, it never exceeds the budget, and keys are
/// unique.
pub open spec fn inv(m: PrefixCacheModel) -> bool {
    &&& m.budget == m.config.memory_budget_mb * BYTES_PER_MB
    &&& m.used == sum_cost(m.entries)
    &&& m.used <= m.budget
    &&& unique_keys(m.entries)
}

/// Dropping the least recently used entry and its cost.
pub open spec fn spec_evict_lru(m: PrefixCacheModel) -> PrefixCacheModel {
    if m.entries.len() == 0 {
        m
    } else {
        PrefixCacheModel {
            entries: m.entries.drop_first(),
            used: m.used - entry_cost(m.entries.first().tokens),
            ..m
        }
    }
}

/// Evicting least-recently-used entries one at a time until `need` more
/// bytes fit the budget or the cache is empty.
pub open spec fn spec_evict_until(m: PrefixCacheModel, need: int) -> PrefixCacheModel
    decreases m.entries.len(),
{
    if m.used + need <= m.budget || m.entries.len() == 0 {
        m
    } else {
        spec_evict_until(spec_evict_lru(m), need)
    }
}

/// Removing the entry with key `k`, if present, and its cost.
pub open spec fn spec_remove_key(m: PrefixCacheModel, k: CacheKey) -> PrefixCacheModel {
    if has_key(m.entries, k) {
        let i = key_index(m.entries, k);
        PrefixCacheModel {
            entries: m.entries.remove(i),
            used: m.used - entry_cost(m.entries[i].tokens),
            ..m
        }
    } else {
        m
    }
}

/// The entry that [`PrefixCache::insert`] builds.
pub open spec fn new_entry_model(
    key: CacheKey,
    tokens: Seq<u32>,
    kv: Seq<(Seq<u8>, Seq<u8>)>,
    tick: u64,
) -> PrefixModel {
    PrefixModel { key, tokens, kv_layers: kv, access_count: 1, last_access: tick }
}

/// The full effect of [`PrefixCache::insert`]: nothing on a disabled cache;
/// otherwise any entry under the same key is dropped, least-recently-used
/// entries are evicted until the new entry's cost fits, and the entry is
/// appended at the most-recently-used end — unless it does not fit even
/// then, in which case it is silently not cached.
pub open spec fn spec_insert(
    m: PrefixCacheModel,
    key: CacheKey,
    tokens: Seq<u32>,
    kv: Seq<(Seq<u8>, Seq<u8>)>,
) -> PrefixCacheModel {
    if !m.config.enabled {
        m
    } else {
        let m1 = spec_evict_until(spec_remove_key(m, key), entry_cost(tokens));
        if m1.used + entry_cost(tokens) <= m1.budget {
            PrefixCacheModel {
                entries: m1.entries.push(new_entry_model(key, tokens, kv, m.tick)),
                used: m1.used + entry_cost(tokens),
                tick: if m.tick == u64::MAX {
                    m.tick
                } else {
                    (m.tick + 1) as u64
                },
                ..m1
            }
        } else {
            m1
        }
    }
}

/// The effect of [`PrefixCache::touch`]: a present entry moves to the
/// most-recently-used end; a missing key changes nothing.
pub open spec fn spec_touch(m: PrefixCacheModel, k: CacheKey) -> PrefixCacheModel {
    if has_key(m.entries, k) {
        let i = key_index(m.entries, k);
        PrefixCacheModel { entries: m.entries.remove(i).push(m.entries[i]), ..m }
    } else {
        m
    }
}

/// The result of [`PrefixCache::get`]: the entry under the key, on an
/// enabled cache; a disabled cache always misses.
pub open spec fn spec_get(m: PrefixCacheModel, k: CacheKey) -> Option<PrefixModel> {
    if m.config.enabled && has_key(m.entries, k) {
        Some(m.entries[key_index(m.entries, k)])
    } else {
        None
    }
}

proof fn lemma_sum_cost_nonneg(es: Seq<PrefixModel>)
    ensures
        sum_cost(es) >= 0,
    decreases es.len(),
{
    if es.len() > 0 {
        lemma_sum_cost_nonneg(es.drop_first());
    }
}

proof fn lemma_sum_cost_push(es: Seq<PrefixModel>, e: PrefixModel)
    ensures
        sum_cost(es.push(e)) == sum_cost(es) + entry_cost(e.tokens),
    decreases es.len(),
{
    if es.len() == 0 {
        assert(es.push(e).first() == e);
        assert(es.push(e).drop_first() =~= Seq::<PrefixModel>::empty());
        assert(sum_cost(es) == 0);
        assert(sum_cost(es.push(e).drop_first()) == 0);
        assert(sum_cost(es.push(e)) == entry_cost(e.tokens));
    } else {
        lemma_sum_cost_push(es.drop_first(), e);
        assert(es.push(e).first() == es.first());
        assert(es.push(e).drop_first() =~= es.drop_first().push(e));
        assert(sum_cost(es.push(e)) == entry_cost(es.first().tokens) + sum_cost(
            es.drop_first().push(e),
        ));
        assert(sum_cost(es) == entry_cost(es.first().tokens) + sum_cost(es.drop_first()));
    }
}

proof fn lemma_sum_cost_remove(es: Seq<PrefixModel>, i: int)
    requires
        0 <= i < es.len(),
    ensures
        sum_cost(es.remove(i)) == sum_cost(es) - entry_cost(es[i].tokens),
    decreases es.len(),
{
    if i == 0 {
        assert(es.remove(0) =~= es.drop_first());
    } else {
        lemma_sum_cost_remove(es.drop_first(), i - 1);
        assert(es.remove(i).drop_first() =~= es.drop_first().remove(i - 1));
    }
}

/// Within a unique-keyed sequence, the index found by a scan is the index
/// `key_index` denotes.
proof fn lemma_key_index_unique(es: Seq<PrefixModel>, k: CacheKey, i: int)
    requires
        unique_keys(es),
        0 <= i < es.len(),
        es[i].key == k,
    ensures
        key_index(es, k) == i,
        has_key(es, k),
{
    assert(has_key(es, k));
    let j = key_index(es, k);
    assert(0 <= j < es.len() && es[j].key == k);
    if i < j {
        assert(es[i].key != es[j].key);
    } else if j < i {
        assert(es[j].key != es[i].key);
    }
}

/// Eviction from the front preserves well-formedness and never touches the
/// configuration, the budget or the logical clock.
proof fn lemma_evict_lru_inv(m: PrefixCacheModel)
    requires
        inv(m),
    ensures
        inv(spec_evict_lru(m)),
        spec_evict_lru(m).config == m.config,
        spec_evict_lru(m).budget == m.budget,
        spec_evict_lru(m).tick == m.tick,
        spec_evict_lru(m).used <= m.used,
{
    if m.entries.len() > 0 {
        lemma_sum_cost_nonneg(m.entries.drop_first());
        assert(unique_keys(m.entries.drop_first())) by {
            assert(forall|i: int, j: int|
                0 <= i < j < m.entries.drop_first().len() ==> #[trigger] m.entries.drop_first()[i].key
                    != #[trigger] m.entries.drop_first()[j].key) by {
                assert(forall|i: int|
                    0 <= i < m.entries.drop_first().len() ==> m.entries.drop_first()[i]
                        == m.entries[i + 1]);
            }
        }
    }
}

proof fn lemma_evict_until_inv(m: PrefixCacheModel, need: int)
    requires
        inv(m),
    ensures
        inv(spec_evict_until(m, need)),
        spec_evict_until(m, need).config == m.config,
        spec_evict_until(m, need).budget == m.budget,
        spec_evict_until(m, need).tick == m.tick,
        spec_evict_until(m, need).used <= m.used,
    decreases m.entries.len(),
{
    if !(m.used + need <= m.budget || m.entries.len() == 0) {
        lemma_evict_lru_inv(m);
        lemma_evict_until_inv(spec_evict_lru(m), need);
    }
}

/// A key absent before eviction is absent after it.
proof fn lemma_evict_until_no_key(m: PrefixCacheModel, need: int, k: CacheKey)
    requires
        !has_key(m.entries, k),
    ensures
        !has_key(spec_evict_until(m, need).entries, k),
    decreases m.entries.len(),
{
    if !(m.used + need <= m.budget || m.entries.len() == 0) {
        let m1 = spec_evict_lru(m);
        assert(!has_key(m1.entries, k)) by {
            assert(forall|i: int|
                0 <= i < m1.entries.len() ==> #[trigger] m1.entries[i] == m.entries[i + 1]);
        }
        lemma_evict_until_no_key(m1, need, k);
    }
}

/// Removing a key from a unique-keyed cache leaves a well-formed cache
/// without that key.
proof fn lemma_remove_key_inv(m: PrefixCacheModel, k: CacheKey)
    requires
        inv(m),
    ensures
        inv(spec_remove_key(m, k)),
        !has_key(spec_remove_key(m, k).entries, k),
        spec_remove_key(m, k).config == m.config,
        spec_remove_key(m, k).budget == m.budget,
        spec_remove_key(m, k).tick == m.tick,
        spec_remove_key(m, k).used <= m.used,
{
    if has_key(m.entries, k) {
        let i = key_index(m.entries, k);
        assert(0 <= i < m.entries.len() && m.entries[i].key == k);
        lemma_sum_cost_remove(m.entries, i);
        lemma_sum_cost_nonneg(m.entries.remove(i));
        let es = m.entries.remove(i);
        assert(unique_keys(es)) by {
            assert(forall|a: int|
                0 <= a < es.len() ==> #[trigger] es[a] == (if a < i {
                    m.entries[a]
                } else {
                    m.entries[a + 1]
                }));
        }
        assert(!has_key(es, k)) by {
            assert(forall|a: int|
                0 <= a < es.len() ==> #[trigger] es[a] == (if a < i {
                    m.entries[a]
                } else {
                    m.entries[a + 1]
                }));
        }
    }
}

/// Budget invariant: on a well-formed cache, `insert` always leaves the
/// bytes in use at or below the configured budget, whatever was inserted
/// before, and leaves the cache well formed.
pub proof fn lemma_insert_respects_budget(
    m: PrefixCacheModel,
    key: CacheKey,
    tokens: Seq<u32>,
    kv: Seq<(Seq<u8>, Seq<u8>)>,
)
    requires
        inv(m),
    ensures
        inv(spec_insert(m, key, tokens, kv)),
        spec_insert(m, key, tokens, kv).used <= m.budget,
        spec_insert(m, key, tokens, kv).budget == m.budget,
        spec_insert(m, key, tokens, kv).config == m.config,
{
    if m.config.enabled {
        lemma_remove_key_inv(m, key);
        let m0 = spec_remove_key(m, key);
        lemma_evict_until_inv(m0, entry_cost(tokens));
        lemma_evict_until_no_key(m0, entry_cost(tokens), key);
        let m1 = spec_evict_until(m0, entry_cost(tokens));
        if m1.used + entry_cost(tokens) <= m1.budget {
            let e = new_entry_model(key, tokens, kv, m.tick);
            lemma_sum_cost_push(m1.entries, e);
            let es = m1.entries.push(e);
            assert(unique_keys(es)) by {
                assert(forall|a: int| 0 <= a < m1.entries.len() ==> #[trigger] es[a] == m1.entries[a]);
            }
        }
    }
}

/// Least-recently-used eviction is exact: when a fresh entry does not fit
/// but fits once the single least-recently-used entry is gone, `insert`
/// evicts exactly that entry and no other.
pub proof fn lemma_lru_evicts_least_recent(
    m: PrefixCacheModel,
    key: CacheKey,
    tokens: Seq<u32>,
    kv: Seq<(Seq<u8>, Seq<u8>)>,
)
    requires
        inv(m),
        m.config.enabled,
        !has_key(m.entries, key),
        m.entries.len() >= 1,
        m.used + entry_cost(tokens) > m.budget,
        m.used - entry_cost(m.entries.first().tokens) + entry_cost(tokens) <= m.budget,
    ensures
        spec_insert(m, key, tokens, kv).entries == m.entries.drop_first().push(
            new_entry_model(key, tokens, kv, m.tick),
        ),
{
    assert(spec_remove_key(m, key) == m);
    let m1 = spec_evict_lru(m);
    assert(spec_evict_until(m, entry_cost(tokens)) == spec_evict_until(m1, entry_cost(tokens)));
    assert(spec_evict_until(m1, entry_cost(tokens)) == m1);
}

/// A touched entry is the most recently used afterwards, so the next
/// eviction takes some other, more stale entry whenever one exists.
pub proof fn lemma_touch_prevents_next_eviction(m: PrefixCacheModel, k: CacheKey)
    requires
        inv(m),
        has_key(m.entries, k),
        m.entries.len() >= 2,
    ensures
        spec_touch(m, k).entries.last().key == k,
        has_key(spec_evict_lru(spec_touch(m, k)).entries, k),
{
    let i = key_index(m.entries, k);
    let es = m.entries.remove(i).push(m.entries[i]);
    assert(es.last() == m.entries[i]);
    let dropped = spec_evict_lru(spec_touch(m, k)).entries;
    assert(dropped =~= es.drop_first());
    assert(dropped[dropped.len() - 1].key == k);
    assert(has_key(dropped, k));
}

/// Content-addressed cache of computed prefixes with least-recently-used
/// eviction under a fixed memory budget.
pub struct PrefixCache {
    config: PrefixCacheConfig,
    /// Recency order: least recently used first.
    entries: Vec<std::sync::Arc<CachedPrefix>>,
    current_memory_bytes: usize,
    memory_budget_bytes: usize,
    tick: u64,
}

impl View for PrefixCache {
    type V = PrefixCacheModel;

    closed spec fn view(&self) -> PrefixCacheModel {
        PrefixCacheModel {
            config: self.config,
            budget: self.memory_budget_bytes as int,
            used: self.current_memory_bytes as int,
            entries: self.entries@.map(|i: int, e: std::sync::Arc<CachedPrefix>| model_of(*e)),
            tick: self.tick,
        }
    }
}

impl PrefixCache {
    pub open spec fn wf(&self) -> bool {
        inv(self@)
    }

    /// An empty cache with the given configuration. The budget must be
    /// expressible in bytes on this machine.
    pub fn new(config: PrefixCacheConfig) -> (r: PrefixCache)
        requires
            config.memory_budget_mb * BYTES_PER_MB <= usize::MAX,
        ensures
            r.wf(),
            r@.config == config,
            r@.entries == Seq::<PrefixModel>::empty(),
            r@.used == 0,
    {
        let memory_budget_bytes = config.memory_budget_mb * BYTES_PER_MB;
        let r = PrefixCache {
            config,
            entries: Vec::new(),
            current_memory_bytes: 0,
            memory_budget_bytes,
            tick: 0,
        };
        proof {
            assert(r@.entries =~= Seq::<PrefixModel>::empty());
        }
        r
    }

    pub fn config(&self) -> (r: &PrefixCacheConfig)
        ensures
            *r == self@.config,
    {
        &self.config
    }

    pub fn is_enabled(&self) -> (r: bool)
        ensures
            r == self@.config.enabled,
    {
        self.config.enabled
    }

    /// Looks the key up; a disabled cache always misses. A hit does not
    /// change recency: callers call [`Self::touch`].
    pub fn get(&self, key: &CacheKey) -> (r: Option<std::sync::Arc<CachedPrefix>>)
        requires
            self.wf(),
        ensures
            match r {
                Some(p) => spec_get(self@, *key) == Some(model_of(*p)),
                None => spec_get(self@, *key) is None,
            },
    {
        if !self.config.enabled {
            return None;
        }
        let n = self.entries.len();
        let mut i: usize = 0;
        while i < n
            invariant
                self.wf(),
                self@.config.enabled,
                n == self.entries.len(),
                0 <= i <= n,
                forall|j: int| 0 <= j < i ==> self@.entries[j].key != *key,
            decreases n - i,
        {
            if self.entries[i].key == *key {
                proof {
                    assert(self@.entries[i as int] == model_of(*self.entries@[i as int]));
                    lemma_key_index_unique(self@.entries, *key, i as int);
                }
                let r = arc_clone(&self.entries[i]);
                proof {
                    assert(self@.entries[i as int] == model_of(*self.entries@[i as int]));
                    assert(model_of(*r) == self@.entries[i as int]);
                }
                return Some(r);
            }
            i += 1;
        }
        proof {
            assert(!has_key(self@.entries, *key));
        }
        None
    }

    /// Removes the entry under `key`, if any, adjusting the byte count.
    fn remove_entry(&mut self, key: &CacheKey)
        requires
            old(self).wf(),
        ensures
            final(self).wf(),
            final(self)@ == spec_remove_key(old(self)@, *key),
    {
        let n = self.entries.len();
        let mut i: usize = 0;
        while i < n
            invariant
                self.wf(),
                *self == *old(self),
                n == self.entries.len(),
                0 <= i <= n,
                forall|j: int| 0 <= j < i ==> self@.entries[j].key != *key,
            decreases n - i,
        {
            if self.entries[i].key == *key {
                proof {
                    lemma_key_index_unique(self@.entries, *key, i as int);
                    lemma_sum_cost_remove(self@.entries, i as int);
                    lemma_sum_cost_nonneg(self@.entries.remove(i as int));
                    lemma_sum_cost_nonneg(self@.entries);
                }
                let cost = self.entries[i].tokens.len() * BYTES_PER_TOKEN + ENTRY_OVERHEAD_BYTES;
                self.current_memory_bytes = self.current_memory_bytes - cost;
                let _ = self.entries.remove(i);
                proof {
                    assert(self@.entries =~= old(self)@.entries.remove(i as int));
                }
                return ;
            }
            i += 1;
        }
        proof {
            assert(!has_key(self@.entries, *key));
        }
    }

    /// Drops the least recently used entry, if any.
    fn evict_lru(&mut self)
        requires
            old(self).wf(),
        ensures
            final(self).wf(),
            final(self)@ == spec_evict_lru(old(self)@),
    {
        if self.entries.len() > 0 {
            proof {
                lemma_sum_cost_nonneg(self@.entries.drop_first());
                lemma_evict_lru_inv(self@);
            }
            let cost = self.entries[0].tokens.len() * BYTES_PER_TOKEN + ENTRY_OVERHEAD_BYTES;
            self.current_memory_bytes = self.current_memory_bytes - cost;
            let _ = self.entries.remove(0);
            proof {
                assert(self@.entries =~= old(self)@.entries.drop_first());
            }
        }
    }

    /// Caches a computed prefix under `key`, evicting least-recently-used
    /// entries until it fits the budget; if it cannot fit even in an empty
    /// cache it is silently not cached. An entry already under the same key
    /// is replaced.
    pub fn insert(&mut self, key: CacheKey, tokens: Vec<u32>, kv_cache: Vec<CachedLayer>)
        requires
            old(self).wf(),
            tokens@.len() * BYTES_PER_TOKEN + ENTRY_OVERHEAD_BYTES <= usize::MAX,
        ensures
            final(self).wf(),
            final(self)@ == spec_insert(old(self)@, key, tokens@, layers_model(kv_cache@)),
            final(self)@.used <= old(self)@.budget,
    {
        proof {
            lemma_insert_respects_budget(old(self)@, key, tokens@, layers_model(kv_cache@));
        }
        if !self.config.enabled {
            return ;
        }
        self.remove_entry(&key);
        let ghost m0 = self@;
        let estimated_size: usize = tokens.len() * BYTES_PER_TOKEN + ENTRY_OVERHEAD_BYTES;
        proof {
            lemma_remove_key_inv(old(self)@, key);
        }

        while estimated_size > self.memory_budget_bytes - self.current_memory_bytes
            && self.entries.len() > 0
            invariant
                self.wf(),
                estimated_size == entry_cost(tokens@),
                !has_key(self@.entries, key),
                self@.config == m0.config,
                self@.budget == m0.budget,
                self@.tick == m0.tick,
                spec_evict_until(self@, estimated_size as int) == spec_evict_until(
                    m0,
                    estimated_size as int,
                ),
            decreases self.entries.len(),
        {
            let ghost before = self@;
            self.evict_lru();
            proof {
                lemma_evict_lru_inv(before);
                assert(forall|i: int|
                    0 <= i < self@.entries.len() ==> #[trigger] self@.entries[i] == before.entries[
                        i + 1
                    ]);
                assert(!has_key(self@.entries, key));
                assert(spec_evict_until(before, estimated_size as int) == spec_evict_until(
                    self@,
                    estimated_size as int,
                ));
            }
        }
        proof {
            assert(spec_evict_until(m0, estimated_size as int) == self@);
        }

        if estimated_size > self.memory_budget_bytes - self.current_memory_bytes {
            // Too large to cache even with everything else evicted: a
            // cache-miss outcome, not an error.
            return ;
        }

        let ghost m1 = self@;
        let prefix = std::sync::Arc::new(
            CachedPrefix { key, tokens, kv_cache, access_count: 1, last_access: self.tick },
        );
        self.current_memory_bytes = self.current_memory_bytes + estimated_size;
        self.entries.push(prefix);
        if self.tick < u64::MAX {
            self.tick = self.tick + 1;
        }
        proof {
            lemma_sum_cost_push(
                m1.entries,
                new_entry_model(key, tokens@, layers_model(kv_cache@), m0.tick),
            );
            assert(self@.entries =~= m1.entries.push(
                new_entry_model(key, tokens@, layers_model(kv_cache@), m0.tick),
            ));
            assert(self@ == spec_insert(old(self)@, key, tokens@, layers_model(kv_cache@)));
        }
    }

    /// Moves the entry under `key`, if any, to the most-recently-used end of
    /// the recency order.
    pub fn touch(&mut self, key: &CacheKey)
        requires
            old(self).wf(),
        ensures
            final(self).wf(),
            final(self)@ == spec_touch(old(self)@, *key),
    {
        let n = self.entries.len();
        let mut i: usize = 0;
        while i < n
            invariant
                self.wf(),
                *self == *old(self),
                n == self.entries.len(),
                0 <= i <= n,
                forall|j: int| 0 <= j < i ==> self@.entries[j].key != *key,
            decreases n - i,
        {
            if self.entries[i].key == *key {
                proof {
                    lemma_key_index_unique(self@.entries, *key, i as int);
                    lemma_sum_cost_remove(self@.entries, i as int);
                    lemma_sum_cost_push(self@.entries.remove(i as int), self@.entries[i as int]);
                }
                let e = self.entries.remove(i);
                self.entries.push(e);
                proof {
                    let es0 = old(self)@.entries;
                    assert(self@.entries =~= es0.remove(i as int).push(es0[i as int]));
                    assert(unique_keys(self@.entries)) by {
                        assert(forall|a: int|
                            0 <= a < es0.remove(i as int).len() ==> #[trigger] es0.remove(
                                i as int,
                            )[a] == (if a < i as int {
                                es0[a]
                            } else {
                                es0[a + 1]
                            }));
                    }
                }
                return ;
            }
            i += 1;
        }
        proof {
            assert(!has_key(self@.entries, *key));
        }
    }

    /// Drops every entry and resets the accounting to zero.
    pub fn clear(&mut self)
        requires
            old(self).wf(),
        ensures
            final(self).wf(),
            final(self)@.entries == Seq::<PrefixModel>::empty(),
            final(self)@.used == 0,
            final(self)@.config == old(self)@.config,
            final(self)@.budget == old(self)@.budget,
    {
        self.entries.clear();
        self.current_memory_bytes = 0;
        proof {
            assert(self@.entries =~= Seq::<PrefixModel>::empty());
        }
    }

    /// Read-only snapshot: entry count, memory in use and the budget, in
    /// megabytes.
    pub fn stats(&self) -> (r: PrefixCacheStats)
        requires
            self.wf(),
        ensures
            r.num_entries == self@.entries.len(),
            r.memory_used_mb == self@.used / (BYTES_PER_MB as int),
            r.memory_budget_mb == self@.config.memory_budget_mb,
    {
        PrefixCacheStats {
            num_entries: self.entries.len(),
            memory_used_mb: self.current_memory_bytes / BYTES_PER_MB,
            memory_budget_mb: self.config.memory_budget_mb,
        }
    }
}

/// Observability snapshot of a [`PrefixCache`].
pub struct PrefixCacheStats {
    pub num_entries: usize,
    pub memory_used_mb: usize,
    pub memory_budget_mb: usize,
}

} // verus!

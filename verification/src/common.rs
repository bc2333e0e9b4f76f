//! Keys, entries and the packed forms in which they are stored.

use vstd::prelude::*;

use crate::error::{Result, StorageError};
use crate::outside::{be_bytes, write_u32_be};

verus! {

/// Unique identifier for a phrase (supports up to 4 billion phrases).
pub type PhraseId = u32;

/// 128-bit bitfield representing language support.
/// Each bit represents a language. In a query, empty (0) asks for any language; in a key it names
/// none, and `ALL_LANGUAGES` names all.
pub type LanguageSet = u128;

/// Default zoom level for tile coordinate system (approximately 150m resolution with S2 Level 16)
pub const DEFAULT_ZOOM: u16 = 16;

/// Maximum expected size of a database key in bytes.
/// Format: 1 (type_marker) + 4 (phrase_id) + 16 (max lang_set)
pub const MAX_DB_KEY_SIZE: usize = 21;

/// Language set value indicating all languages are supported.
pub const ALL_LANGUAGES: LanguageSet = u128::MAX;

/// Language set value indicating no specific languages.
pub const NO_LANGUAGES: LanguageSet = 0;

/// Number of bytes of a database key that hold the type marker and the phrase.
pub const DB_KEY_HEAD: usize = 5;

/// Type marker for database key entries.
///
/// Distinguishes between exact phrase lookups and prefix bin aggregations.
#[derive(Copy, Clone, Debug, PartialEq, Eq, Structural)]
pub enum TypeMarker {
    /// Exact phrase entry - stores all entries for a specific phrase
    SinglePhrase,
    /// Prefix bin entry - aggregated entries for a range of phrases
    PrefixBin,
}

/// The byte by which a type marker is stored.
pub open spec fn marker_byte(marker: TypeMarker) -> u8 {
    match marker {
        TypeMarker::SinglePhrase => 0,
        TypeMarker::PrefixBin => 1,
    }
}

impl TypeMarker {
    /// The byte by which the marker is stored.
    pub fn to_byte(self) -> (b: u8)
        ensures
            b == marker_byte(self),
    {
        match self {
            TypeMarker::SinglePhrase => 0,
            TypeMarker::PrefixBin => 1,
        }
    }
}

// ---------------------------------------------------------------------------------------------
// Database keys
// ---------------------------------------------------------------------------------------------

/// Key for indexing phrases in the spatial grid store.
///
/// Combines a phrase identifier with a language set to enable
/// multi-language phrase lookups.
#[derive(Copy, Clone, Debug, PartialOrd, Ord, PartialEq, Eq, Structural)]
pub struct GridKey {
    /// Unique identifier for the phrase
    pub phrase_id: PhraseId,
    /// 128-bit bitfield representing supported languages (0 = none, `ALL_LANGUAGES` = all)
    pub lang_set: LanguageSet,
}

/// The bytes of `v`, most significant first and without leading zeros.
pub open spec fn minimal_be(v: nat) -> Seq<u8>
    decreases v,
{
    if v == 0 {
        Seq::empty()
    } else {
        minimal_be(v / 256).push((v % 256) as u8)
    }
}

/// The number whose bytes, most significant first, are `bytes`.
pub open spec fn be_value(bytes: Seq<u8>) -> nat
    decreases bytes.len(),
{
    if bytes.len() == 0 {
        0
    } else {
        be_value(bytes.drop_last()) * 256 + bytes.last() as nat
    }
}

/// The stored form of a language set: nothing for all languages, a single zero byte for none, and
/// the bytes without leading zeros otherwise.
pub open spec fn lang_bytes(lang_set: LanguageSet) -> Seq<u8> {
    if lang_set == ALL_LANGUAGES {
        Seq::empty()
    } else if lang_set == NO_LANGUAGES {
        seq![0u8]
    } else {
        minimal_be(lang_set as nat)
    }
}

/// The database key of a phrase and a language set.
pub open spec fn db_key(marker: TypeMarker, key: GridKey) -> Seq<u8> {
    seq![marker_byte(marker)] + be_bytes(key.phrase_id) + lang_bytes(key.lang_set)
}

/// Appends the bytes of `v` without leading zeros.
fn push_minimal_be(out: &mut Vec<u8>, v: u128)
    ensures
        final(out)@ == old(out)@ + minimal_be(v as nat),
    decreases v,
{
    if v > 0 {
        push_minimal_be(out, v / 256);
        out.push((v % 256) as u8);
    }
}

/// 256 to the power of `n`.
pub open spec fn pow256(n: nat) -> nat
    decreases n,
{
    if n == 0 {
        1
    } else {
        256 * pow256((n - 1) as nat)
    }
}

proof fn minimal_be_len(v: nat, n: nat)
    requires
        v < pow256(n),
    ensures
        minimal_be(v).len() <= n,
    decreases n,
{
    if v > 0 {
        assert(n > 0);
        minimal_be_len(v / 256, (n - 1) as nat);
    }
}

proof fn pow256_16()
    ensures
        pow256(16) == u128::MAX + 1,
{
    reveal_with_fuel(pow256, 17);
}

impl GridKey {
    /// Serializes the key to database format.
    ///
    /// # Format
    /// `[type_marker: 1 byte][phrase_id: 4 bytes][lang_set: 0-16 bytes]`
    ///
    /// ## Type Marker
    /// - `TypeMarker::SinglePhrase` (0) - Exact phrase entry
    /// - `TypeMarker::PrefixBin` (1) - Prefix bin for range queries
    ///
    /// ## Phrase ID
    /// - 4 bytes, big-endian u32
    /// - Fixed width for lexicographic sorting
    ///
    /// ## Language Set
    /// - Variable length (0-16 bytes), compressed by skipping leading zeros
    /// - `u128::MAX` - All languages (writes nothing, empty = universal)
    /// - `0` - No languages (writes single 0 byte)
    /// - Other values - Specific language bits (compressed)
    pub fn to_db_key(&self, type_marker: TypeMarker) -> (key: Vec<u8>)
        ensures
            key@ == db_key(type_marker, *self),
            DB_KEY_HEAD <= key@.len() <= MAX_DB_KEY_SIZE,
    {
        let mut key: Vec<u8> = Vec::with_capacity(MAX_DB_KEY_SIZE);
        key.push(type_marker.to_byte());
        write_u32_be(&mut key, self.phrase_id);
        if self.lang_set == ALL_LANGUAGES {
            // All languages - write nothing (empty = universal)
        } else if self.lang_set == NO_LANGUAGES {
            key.push(0);
        } else {
            push_minimal_be(&mut key, self.lang_set);
        }
        proof {
            db_key_len(type_marker, *self);
            assert(key@ =~= db_key(type_marker, *self));
        }
        key
    }
}

/// The number whose four bytes, most significant first, begin at `at`.
pub open spec fn be_u32_at(bytes: Seq<u8>, at: int) -> nat {
    bytes[at] as nat * 0x100_0000 + bytes[at + 1] as nat * 0x1_0000 + bytes[at + 2] as nat * 0x100
        + bytes[at + 3] as nat
}

/// The phrase that a database key names.
pub open spec fn key_phrase(key: Seq<u8>) -> nat {
    be_u32_at(key, 1)
}

/// The language set that a database key names.
pub open spec fn key_langs(key: Seq<u8>) -> nat {
    if key.len() == DB_KEY_HEAD {
        ALL_LANGUAGES as nat
    } else {
        be_value(key.skip(DB_KEY_HEAD as int))
    }
}

/// The bytes of a phrase identifier give it back.
pub proof fn be_bytes_round_trip(v: u32)
    ensures
        be_bytes(v).len() == 4,
        be_u32_at(be_bytes(v), 0) == v,
{
}

/// The minimal bytes of a number give it back.
pub proof fn minimal_be_round_trip(v: nat)
    ensures
        be_value(minimal_be(v)) == v,
    decreases v,
{
    if v > 0 {
        minimal_be_round_trip(v / 256);
        let b = minimal_be(v / 256);
        assert(b.push((v % 256) as u8).drop_last() =~= b);
    }
}

/// The length of a database key.
pub proof fn db_key_len(marker: TypeMarker, key: GridKey)
    ensures
        DB_KEY_HEAD <= db_key(marker, key).len() <= MAX_DB_KEY_SIZE,
{
    pow256_16();
    minimal_be_len(key.lang_set as nat, 16);
}

proof fn minimal_be_first(v: nat)
    requires
        v > 0,
    ensures
        minimal_be(v).len() > 0,
        minimal_be(v)[0] != 0,
    decreases v,
{
    if v / 256 > 0 {
        minimal_be_first(v / 256);
    } else {
        assert(minimal_be(v / 256) =~= Seq::empty());
    }
}

/// A database key gives back the marker, the phrase and the language set that it was made of.
pub proof fn db_key_round_trip(marker: TypeMarker, key: GridKey)
    ensures
        db_key(marker, key).len() >= DB_KEY_HEAD,
        db_key(marker, key)[0] == marker_byte(marker),
        key_phrase(db_key(marker, key)) == key.phrase_id,
        key_langs(db_key(marker, key)) == key.lang_set,
{
    let bytes = db_key(marker, key);
    be_bytes_round_trip(key.phrase_id);
    assert(bytes.skip(DB_KEY_HEAD as int) =~= lang_bytes(key.lang_set));
    if key.lang_set == ALL_LANGUAGES {
    } else if key.lang_set == NO_LANGUAGES {
        reveal_with_fuel(be_value, 2);
    } else {
        minimal_be_round_trip(key.lang_set as nat);
        minimal_be_first(key.lang_set as nat);
    }
}

/// Distinct markers, phrases or language sets have distinct database keys.
pub proof fn db_key_is_injective(m1: TypeMarker, k1: GridKey, m2: TypeMarker, k2: GridKey)
    requires
        db_key(m1, k1) == db_key(m2, k2),
    ensures
        m1 == m2,
        k1 == k2,
{
    db_key_round_trip(m1, k1);
    db_key_round_trip(m2, k2);
}

/// The order of byte strings: by the first byte in which they differ, a prefix before what it is
/// a prefix of.
pub open spec fn bytes_lt(a: Seq<u8>, b: Seq<u8>) -> bool
    decreases a.len(),
{
    if b.len() == 0 {
        false
    } else if a.len() == 0 {
        true
    } else if a[0] != b[0] {
        a[0] < b[0]
    } else {
        bytes_lt(a.skip(1), b.skip(1))
    }
}

/// The order of byte strings is transitive.
pub proof fn bytes_lt_transitive(a: Seq<u8>, b: Seq<u8>, c: Seq<u8>)
    requires
        bytes_lt(a, b),
        bytes_lt(b, c),
    ensures
        bytes_lt(a, c),
    decreases a.len(),
{
    if a.len() > 0 && a[0] == b[0] && b[0] == c[0] {
        bytes_lt_transitive(a.skip(1), b.skip(1), c.skip(1));
    }
}

/// Of two byte strings one comes before the other, or they are the same, but never two of these.
pub proof fn bytes_lt_total(a: Seq<u8>, b: Seq<u8>)
    ensures
        bytes_lt(a, b) || bytes_lt(b, a) || a == b,
        !(bytes_lt(a, b) && bytes_lt(b, a)),
        a == b ==> !bytes_lt(a, b),
    decreases a.len(),
{
    if a.len() == 0 || b.len() == 0 {
        assert(a.len() == 0 && b.len() == 0 ==> a =~= b);
    } else {
        bytes_lt_total(a.skip(1), b.skip(1));
        if a[0] == b[0] && a.skip(1) == b.skip(1) {
            assert(a =~= seq![a[0]] + a.skip(1));
            assert(b =~= seq![b[0]] + b.skip(1));
        }
    }
}

/// Whether `a` comes before `b`.
pub(crate) fn bytes_before(a: &Vec<u8>, b: &Vec<u8>) -> (r: bool)
    ensures
        r == bytes_lt(a@, b@),
{
    let mut i: usize = 0;
    assert(a@.skip(0) =~= a@);
    assert(b@.skip(0) =~= b@);
    while i < a.len() && i < b.len()
        invariant
            i <= a@.len(),
            i <= b@.len(),
            bytes_lt(a@, b@) == bytes_lt(a@.skip(i as int), b@.skip(i as int)),
        decreases a@.len() - i,
    {
        if a[i] != b[i] {
            return a[i] < b[i];
        }
        proof {
            assert(a@.skip(i as int).skip(1) =~= a@.skip(i + 1));
            assert(b@.skip(i as int).skip(1) =~= b@.skip(i + 1));
        }
        i += 1;
    }
    i < b.len()
}

/// Byte strings that differ first at `n` are ordered by the byte there.
pub proof fn bytes_lt_at(a: Seq<u8>, b: Seq<u8>, n: int)
    requires
        0 <= n < a.len(),
        n < b.len(),
        a.take(n) == b.take(n),
        a[n] < b[n],
    ensures
        bytes_lt(a, b),
        !bytes_lt(b, a),
    decreases n,
{
    if n > 0 {
        assert(a.take(n)[0] == a[0] && b.take(n)[0] == b[0]);
        assert(a.skip(1).take(n - 1) =~= a.take(n).skip(1));
        assert(b.skip(1).take(n - 1) =~= b.take(n).skip(1));
        bytes_lt_at(a.skip(1), b.skip(1), n - 1);
    }
}

/// Within one marker the database keys are ordered by phrase.
pub proof fn db_keys_are_ordered_by_phrase(marker: TypeMarker, k1: GridKey, k2: GridKey)
    requires
        k1.phrase_id < k2.phrase_id,
    ensures
        bytes_lt(db_key(marker, k1), db_key(marker, k2)),
{
    let a = db_key(marker, k1);
    let b = db_key(marker, k2);
    let pa = be_bytes(k1.phrase_id);
    let pb = be_bytes(k2.phrase_id);
    assert(a[1] == pa[0] && a[2] == pa[1] && a[3] == pa[2] && a[4] == pa[3]);
    assert(b[1] == pb[0] && b[2] == pb[1] && b[3] == pb[2] && b[4] == pb[3]);
    let n: int = if pa[0] != pb[0] {
        1
    } else if pa[1] != pb[1] {
        2
    } else if pa[2] != pb[2] {
        3
    } else {
        4
    };
    assert(a.take(n) =~= b.take(n));
    be_bytes_round_trip(k1.phrase_id);
    be_bytes_round_trip(k2.phrase_id);
    bytes_lt_at(a, b, n);
}

// ---------------------------------------------------------------------------------------------
// Queries
// ---------------------------------------------------------------------------------------------

/// Specifies which phrase(s) to match in a query.
///
/// Supports both exact phrase lookups and range queries for efficient
/// prefix matching and autocomplete functionality.
#[derive(Copy, Clone, Debug, PartialOrd, Ord, PartialEq, Eq, Structural)]
pub enum MatchPhrase {
    /// Match a single exact phrase
    Exact(PhraseId),
    /// Match a range of phrases [start, end) - half-open interval
    Range { start: PhraseId, end: PhraseId },
}

/// Query key combining phrase matching with language filtering.
///
/// Used to search the grid store for phrases in specific languages. A language set of zero asks
/// for any language.
#[derive(Copy, Clone, Debug, PartialOrd, Ord, PartialEq, Eq, Structural)]
pub struct MatchKey {
    pub match_phrase: MatchPhrase,
    pub lang_set: LanguageSet,
}

/// The first phrase that a query asks for.
pub open spec fn first_phrase(phrase: MatchPhrase) -> PhraseId {
    match phrase {
        MatchPhrase::Exact(id) => id,
        MatchPhrase::Range { start, .. } => start,
    }
}

/// The query asks for the phrase.
pub open spec fn phrase_matches(phrase: MatchPhrase, id: nat) -> bool {
    match phrase {
        MatchPhrase::Exact(exact) => id == exact,
        MatchPhrase::Range { start, end } => start <= id < end,
    }
}

/// A database key can be read as one: it has a marker, a phrase and at most a language set.
pub open spec fn key_has_head(key: Seq<u8>) -> bool {
    key.len() >= DB_KEY_HEAD
}

/// The key is under the marker and names a phrase that the query asks for.
pub open spec fn key_matches(query: MatchKey, marker: TypeMarker, key: Seq<u8>) -> bool {
    key[0] == marker_byte(marker) && phrase_matches(query.match_phrase, key_phrase(key))
}

/// The key is for a language that the query asks for.
pub open spec fn language_matches(query: MatchKey, key: Seq<u8>) -> bool {
    query.lang_set == NO_LANGUAGES || key.len() == DB_KEY_HEAD || (query.lang_set
        & key_langs(key) as u128) != 0
}

impl MatchKey {
    /// The database key at which a scan for the query begins: no matching key comes before it.
    pub fn to_start_key(&self, type_marker: TypeMarker) -> (r: Result<Vec<u8>>)
        ensures
            r is Ok,
            r->Ok_0@ == seq![marker_byte(type_marker)] + be_bytes(first_phrase(self.match_phrase)),
    {
        let start: PhraseId = match self.match_phrase {
            MatchPhrase::Exact(id) => id,
            MatchPhrase::Range { start, .. } => start,
        };
        let mut key: Vec<u8> = Vec::with_capacity(DB_KEY_HEAD);
        key.push(type_marker.to_byte());
        write_u32_be(&mut key, start);
        Ok(key)
    }

    /// Whether the key is under the marker and names a phrase that the query asks for. A key too
    /// short to name a phrase is an error.
    pub fn matches_key(&self, type_marker: TypeMarker, key: &Vec<u8>) -> (r: Result<bool>)
        ensures
            r is Ok <==> key_has_head(key@),
            r is Ok ==> r->Ok_0 == key_matches(*self, type_marker, key@),
            r is Err ==> r->Err_0 is InvalidData,
    {
        if key.len() < DB_KEY_HEAD {
            return Err(StorageError::InvalidData("database key without a phrase".to_owned()));
        }
        if key[0] != type_marker.to_byte() {
            return Ok(false);
        }
        let phrase: u32 = key[1] as u32 * 0x100_0000 + key[2] as u32 * 0x1_0000 + key[3] as u32
            * 0x100 + key[4] as u32;
        match self.match_phrase {
            MatchPhrase::Exact(id) => Ok(phrase == id),
            MatchPhrase::Range { start, end } => Ok(start <= phrase && phrase < end),
        }
    }

    /// Whether the key is for a language that the query asks for: the query asks for any, the key
    /// is for all, or the two sets have a language in common. A key that is too short to name a
    /// phrase or too long to name a language set is an error.
    pub fn matches_language(&self, key: &Vec<u8>) -> (r: Result<bool>)
        ensures
            r is Ok <==> DB_KEY_HEAD <= key@.len() <= MAX_DB_KEY_SIZE,
            r is Ok ==> r->Ok_0 == language_matches(*self, key@),
            r is Err ==> r->Err_0 is InvalidData,
    {
        if key.len() < DB_KEY_HEAD {
            return Err(StorageError::InvalidData("database key without a phrase".to_owned()));
        }
        if key.len() > MAX_DB_KEY_SIZE {
            return Err(StorageError::InvalidData("database key too long".to_owned()));
        }
        if key.len() == DB_KEY_HEAD {
            return Ok(true);
        }
        let mut langs: u128 = 0;
        let mut i: usize = DB_KEY_HEAD;
        let ghost tail = key@.skip(DB_KEY_HEAD as int);
        proof {
            assert(tail.take(0) =~= Seq::empty());
        }
        while i < key.len()
            invariant
                DB_KEY_HEAD <= i <= key@.len() <= MAX_DB_KEY_SIZE,
                tail == key@.skip(DB_KEY_HEAD as int),
                langs == be_value(tail.take(i - DB_KEY_HEAD)),
            decreases key@.len() - i,
        {
            proof {
                let n = i - DB_KEY_HEAD;
                be_value_bound(tail.take(n));
                pow256_16();
                pow256_monotonic(n as nat + 1, 16);
                assert(tail.take(n + 1).drop_last() =~= tail.take(n));
            }
            langs = langs * 256 + key[i] as u128;
            i += 1;
        }
        proof {
            assert(tail.take(tail.len() as int) =~= tail);
        }
        Ok(self.lang_set == NO_LANGUAGES || (self.lang_set & langs) != 0)
    }
}

proof fn be_value_bound(bytes: Seq<u8>)
    ensures
        be_value(bytes) < pow256(bytes.len()),
    decreases bytes.len(),
{
    if bytes.len() > 0 {
        be_value_bound(bytes.drop_last());
    }
}

proof fn pow256_monotonic(a: nat, b: nat)
    requires
        a <= b,
    ensures
        pow256(a) <= pow256(b),
    decreases b,
{
    if a < b {
        pow256_monotonic(a, (b - 1) as nat);
    }
}

/// A stored key is found by exactly the queries that ask for its marker and phrase.
pub proof fn stored_key_matches(query: MatchKey, marker: TypeMarker, of: TypeMarker, key: GridKey)
    ensures
        key_has_head(db_key(of, key)),
        key_matches(query, marker, db_key(of, key)) <==> marker == of && phrase_matches(
            query.match_phrase,
            key.phrase_id as nat,
        ),
{
    db_key_round_trip(of, key);
}

/// A stored key is for a language of the query exactly if the query asks for any language, the
/// key is for all of them, or the two sets have a language in common.
pub proof fn stored_language_matches(query: MatchKey, marker: TypeMarker, key: GridKey)
    ensures
        language_matches(query, db_key(marker, key)) <==> query.lang_set == NO_LANGUAGES
            || key.lang_set == ALL_LANGUAGES || (query.lang_set & key.lang_set) != 0,
{
    db_key_round_trip(marker, key);
    if key.lang_set != ALL_LANGUAGES && key.lang_set != NO_LANGUAGES {
        minimal_be_first(key.lang_set as nat);
    }
}

/// Query options for spatial filtering and proximity ranking.
///
/// Controls geographic constraints and zoom level for grid queries.
#[derive(Copy, Clone, Debug, PartialEq, Eq)]
pub struct MatchOpts {
    /// Optional bounding box [min_x, min_y, max_x, max_y] in tile coordinates
    pub bbox: Option<[u16; 4]>,
    /// Optional proximity point [x, y] for distance-based ranking
    pub proximity: Option<[u16; 2]>,
    /// Zoom level for tile coordinate system (default: 16)
    pub zoom: u16,
}

impl Default for MatchOpts {
    fn default() -> (opts: MatchOpts)
        ensures
            opts.bbox is None,
            opts.proximity is None,
            opts.zoom == DEFAULT_ZOOM,
    {
        MatchOpts { bbox: None, proximity: None, zoom: DEFAULT_ZOOM }
    }
}

// ---------------------------------------------------------------------------------------------
// Entries
// ---------------------------------------------------------------------------------------------

/// Unique identifier for a feature (truncated to 24 bits in storage).
pub type FeatureId = u32;

/// Entry in the spatial grid store representing a feature at a location.
///
/// Stores spatial coordinates, relevance scoring, and feature identification.
/// Uses tile coordinates (x, y) at a specific zoom level.
///
/// # Deduplication
/// The `source_phrase_hash` enables deduplication when the same feature matches
/// multiple query phrases.
///
/// # Storage Optimization
/// - `relev` is quantized to 4 levels (400, 600, 800, 1000)
/// - `id` is truncated to 24 bits (supports ~16 million features)
/// - `source_phrase_hash` uses 8 bits (256 values, collisions acceptable)
#[derive(Copy, Clone, Debug, PartialOrd, Ord, PartialEq, Eq, Structural)]
pub struct GridEntry {
    /// Relevance in thousandths (0-1000), quantized to 4 levels in storage
    pub relev: u16,
    /// Importance score (0-255)
    pub score: u8,
    /// X coordinate in tile space
    pub x: u16,
    /// Y coordinate in tile space
    pub y: u16,
    /// Feature ID, truncated to 24 bits in storage
    pub id: FeatureId,
    /// Hash of source phrase for deduplication (8 bits)
    pub source_phrase_hash: u8,
}

/// The quantization level of a relevance in thousandths: the number of the levels 400, 600 and
/// 800 that it exceeds.
pub open spec fn relev_level(relev: u16) -> u8 {
    if relev <= 400 {
        0
    } else if relev <= 600 {
        1
    } else if relev <= 800 {
        2
    } else {
        3
    }
}

/// The relevance in thousandths that a quantization level stands for.
pub open spec fn level_relev(level: u8) -> u16 {
    match level {
        0 => 400,
        1 => 600,
        2 => 800,
        _ => 1000,
    }
}

/// Converts relevance in thousandths to a 2-bit integer (0-3).
///
/// Relevance values are quantized to 4 discrete levels during indexing
/// for storage efficiency.
///
/// # Quantization Levels
/// - 400 -> 0 (very common terms, low relevance)
/// - 600 -> 1 (common terms, medium-low relevance)
/// - 800 -> 2 (uncommon terms, medium-high relevance)
/// - 1000 -> 3 (rare terms, high relevance)
pub fn relev_float_to_int(relev: u16) -> (level: u8)
    ensures
        level == relev_level(relev),
{
    if relev <= 400 {
        0
    } else if relev <= 600 {
        1
    } else if relev <= 800 {
        2
    } else {
        3
    }
}

/// Converts quantized relevance back to thousandths.
pub fn relev_int_to_float(relev: u8) -> (milli: u16)
    ensures
        milli == level_relev(relev),
{
    match relev {
        0 => 400,
        1 => 600,
        2 => 800,
        _ => 1000,
    }
}

/// Combined relevance and score key (4 bits each, stored in u8).
/// Upper 4 bits: relevance (0-3)
/// Lower 4 bits: score (0-15)
pub type RelevScore = u8;

/// The combined key of a relevance and a score.
pub open spec fn relev_score(relev: u16, score: u8) -> RelevScore {
    (relev_level(relev) * 16 + score % 16) as u8
}

/// The low 4 bits of a score, which are what is stored of it.
pub fn truncate_score(score: u8) -> (r: u8)
    ensures
        r == score % 16,
{
    score % 16
}

/// Combines relevance and score into a single byte for efficient grouping.
///
/// Creates a composite key used to group entries by importance:
/// - Upper 4 bits: relevance (0-3, quantized)
/// - Lower 4 bits: score (0-15, truncated from 0-255)
pub fn encode_relev_score(relev: u16, score: u8) -> (key: RelevScore)
    ensures
        key == relev_score(relev, score),
{
    relev_float_to_int(relev) * 16 + truncate_score(score)
}

/// Decodes relevance and score from packed RelevScore.
pub fn decode_relev_score(relev_score: RelevScore) -> (r: (u16, u8))
    ensures
        r.0 == level_relev(relev_score / 16),
        r.1 == relev_score % 16,
{
    (relev_int_to_float(relev_score / 16), relev_score % 16)
}

/// Packed feature identifier with source phrase hash for deduplication.
///
/// Format: [feature_id: 24 bits][source_phrase_hash: 8 bits]
pub type PackedFeatureId = u32;

/// Morton-encoded spatial coordinate: the bits of x and y interleaved, so that nearby coordinates
/// have nearby codes.
pub type MortonCode = u32;

/// The packed form of a feature identifier and a source phrase hash.
pub open spec fn packed_id(id: FeatureId, source_phrase_hash: u8) -> PackedFeatureId {
    ((id % 0x100_0000) * 0x100 + source_phrase_hash) as u32
}

/// Packs feature ID (24 bits) and source phrase hash (8 bits) into u32.
pub fn pack_feature_id(id: FeatureId, source_phrase_hash: u8) -> (packed: PackedFeatureId)
    ensures
        packed == packed_id(id, source_phrase_hash),
{
    (id % 0x100_0000) * 0x100 + source_phrase_hash as u32
}

/// Unpacks feature ID and source phrase hash from PackedFeatureId.
pub fn unpack_feature_id(packed: PackedFeatureId) -> (r: (FeatureId, u8))
    ensures
        r.0 == packed / 0x100,
        r.1 == packed % 0x100,
{
    (packed / 0x100, (packed % 0x100) as u8)
}

/// Unpacking gives back the low 24 bits of the identifier, and the hash.
pub proof fn pack_round_trip(id: FeatureId, source_phrase_hash: u8)
    ensures
        packed_id(id, source_phrase_hash) / 0x100 == id % 0x100_0000,
        packed_id(id, source_phrase_hash) % 0x100 == source_phrase_hash,
{
}

/// Packing gives back what was unpacked.
pub proof fn unpack_round_trip(packed: PackedFeatureId)
    ensures
        packed_id(packed / 0x100, (packed % 0x100) as u8) == packed,
{
}

/// Decoding a combined key gives the quantized relevance and the low bits of the score.
pub proof fn relev_score_round_trip(relev: u16, score: u8)
    ensures
        relev_score(relev, score) / 16 == relev_level(relev),
        relev_score(relev, score) % 16 == score % 16,
{
}

/// Quantizing rounds a relevance up to the next of four levels: two, three or four fifths, or the
/// whole.
pub proof fn quantizing_rounds_up(relev: u16)
    requires
        relev <= 1000,
    ensures
        ({
            let level = level_relev(relev_level(relev));
            &&& level == 400 || level == 600 || level == 800 || level == 1000
            &&& relev <= level
            &&& level > 400 ==> level - relev < 200
        }),
{
}

/// Quantizing is idempotent: a quantized relevance keeps its level.
pub proof fn quantizing_is_idempotent(relev: u16)
    ensures
        relev_level(level_relev(relev_level(relev))) == relev_level(relev),
{
}

/// A higher combined key never stands for a lower relevance, nor, at the same level, for a lower
/// score.
pub proof fn relev_score_order(r1: u16, s1: u8, r2: u16, s2: u8)
    requires
        relev_score(r1, s1) <= relev_score(r2, s2),
    ensures
        relev_level(r1) <= relev_level(r2),
        relev_level(r1) == relev_level(r2) ==> s1 % 16 <= s2 % 16,
{
}

// ---------------------------------------------------------------------------------------------
// Bin boundaries
// ---------------------------------------------------------------------------------------------

/// The database key under which the bin boundaries are stored.
pub open spec fn bounds_key_bytes() -> Seq<u8> {
    seq![126u8, 66u8, 79u8, 85u8, 78u8, 68u8, 83u8]
}

/// The database key under which the bin boundaries are stored: the letters `~BOUNDS`.
pub fn bounds_key() -> (key: Vec<u8>)
    ensures
        key@ == bounds_key_bytes(),
{
    let key: Vec<u8> = vec![126, 66, 79, 85, 78, 68, 83];
    assert(key@ =~= bounds_key_bytes());
    key
}

/// The byte of `v` at `place`, the least significant being at place 0.
pub open spec fn le_byte(v: u32, place: int) -> u8 {
    if place == 0 {
        (v % 0x100) as u8
    } else if place == 1 {
        (v / 0x100 % 0x100) as u8
    } else if place == 2 {
        (v / 0x1_0000 % 0x100) as u8
    } else {
        (v / 0x100_0000) as u8
    }
}

/// The stored form of bin boundaries: four bytes each, the least significant first.
pub open spec fn boundary_bytes(bounds: Seq<PhraseId>) -> Seq<u8> {
    Seq::new(4 * bounds.len(), |i: int| le_byte(bounds[i / 4], i % 4))
}

/// The number whose four bytes, least significant first, begin at `at`.
pub open spec fn le_u32_at(bytes: Seq<u8>, at: int) -> u32 {
    (bytes[at] + bytes[at + 1] * 0x100 + bytes[at + 2] * 0x1_0000 + bytes[at + 3]
        * 0x100_0000) as u32
}

/// The bin boundaries that stored bytes hold. Bytes that do not fill a boundary are left out.
pub open spec fn boundaries_of(bytes: Seq<u8>) -> Seq<PhraseId> {
    Seq::new(bytes.len() / 4, |i: int| le_u32_at(bytes, 4 * i))
}

/// Encodes bin boundaries for storage.
pub fn encode_boundaries(bounds: &Vec<PhraseId>) -> (bytes: Vec<u8>)
    ensures
        bytes@ == boundary_bytes(bounds@),
{
    let mut bytes: Vec<u8> = Vec::new();
    let mut i: usize = 0;
    while i < bounds.len()
        invariant
            i <= bounds@.len(),
            bytes@ == boundary_bytes(bounds@.take(i as int)),
        decreases bounds@.len() - i,
    {
        let v: u32 = bounds[i];
        bytes.push((v % 0x100) as u8);
        bytes.push((v / 0x100 % 0x100) as u8);
        bytes.push((v / 0x1_0000 % 0x100) as u8);
        bytes.push((v / 0x100_0000) as u8);
        i += 1;
        assert(bytes@ =~= boundary_bytes(bounds@.take(i as int)));
    }
    assert(bounds@.take(i as int) =~= bounds@);
    bytes
}

/// Decodes stored bin boundaries.
pub fn decode_boundaries(bytes: &Vec<u8>) -> (bounds: Vec<PhraseId>)
    ensures
        bounds@ == boundaries_of(bytes@),
{
    let mut bounds: Vec<PhraseId> = Vec::new();
    let n: usize = bytes.len() / 4;
    let mut i: usize = 0;
    while i < n
        invariant
            i <= n == bytes@.len() / 4,
            4 * n <= usize::MAX,
            bounds@ == boundaries_of(bytes@).take(i as int),
        decreases n - i,
    {
        let at: usize = 4 * i;
        let v: u32 = bytes[at] as u32 + bytes[at + 1] as u32 * 0x100 + bytes[at + 2] as u32
            * 0x1_0000 + bytes[at + 3] as u32 * 0x100_0000;
        bounds.push(v);
        i += 1;
        assert(bounds@ =~= boundaries_of(bytes@).take(i as int));
    }
    assert(bounds@ =~= boundaries_of(bytes@));
    bounds
}

/// Decoding gives back the bin boundaries that were encoded.
pub proof fn boundaries_round_trip(bounds: Seq<PhraseId>)
    ensures
        boundaries_of(boundary_bytes(bounds)) == bounds,
{
    let bytes = boundary_bytes(bounds);
    assert forall|i: int| 0 <= i < bounds.len() implies le_u32_at(bytes, 4 * i) == bounds[i] by {
        assert((4 * i) / 4 == i && (4 * i + 1) / 4 == i && (4 * i + 2) / 4 == i && (4 * i + 3) / 4
            == i);
    }
    assert(boundaries_of(bytes) =~= bounds);
}

} // verus!

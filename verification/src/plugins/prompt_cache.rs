//! A bounded cache of answers.
//!
//! An answer is kept under the digest of the request that it answers, until its time is over or
//! room is needed: then the entry that has gone unused longest goes. Every operation that needs
//! the time takes it, in UNIX milliseconds.

use crate::float::finite_single;
use crate::json::json_text;
use crate::request::{RequestView, ResponseView, UnifiedRequest, UnifiedResponse};
use crate::string_map::{strictly_sorted, StringMap};
use crate::text::{decimal, decimal_text, str_eq};
use crate::time::TimeSpan;
use crate::wire::{request_json, request_value};
use vstd::prelude::*;
use vstd::string::*;
use vstd::utf8::encode_utf8;

verus! {

/// Why the cache refuses something.
#[derive(Clone, Debug, PartialEq)]
pub enum PromptCacheError {
    /// The configuration cannot be honoured.
    Config(String),
    /// An entry or a snapshot is not as it should be.
    Validation {
        /// Which field.
        field: String,
        /// What is wrong with it.
        message: String,
    },
    /// A request has no JSON form.
    Json(String),
    /// The cache is locked for good.
    Lock(String),
}

/// The text of a [`PromptCacheError`].
pub open spec fn cache_error_text(e: PromptCacheError) -> Seq<char> {
    match e {
        PromptCacheError::Config(m) => "prompt cache configuration error: "@ + m@,
        PromptCacheError::Validation { field, message } => "prompt cache validation failed for "@
            + field@ + ": "@ + message@,
        PromptCacheError::Json(m) => "prompt cache JSON error: "@ + m@,
        PromptCacheError::Lock(m) => "prompt cache lock error: "@ + m@,
    }
}

impl PromptCacheError {
    /// The text of the error.
    pub fn to_text(&self) -> (r: String)
        ensures
            r@ == cache_error_text(*self),
    {
        match self {
            PromptCacheError::Config(m) => "prompt cache configuration error: ".to_owned().concat(
                m.as_str(),
            ),
            PromptCacheError::Validation {
                field,
                message,
            } => "prompt cache validation failed for ".to_owned().concat(field.as_str()).concat(
                ": ",
            ).concat(message.as_str()),
            PromptCacheError::Json(m) => "prompt cache JSON error: ".to_owned().concat(m.as_str()),
            PromptCacheError::Lock(m) => "prompt cache lock error: ".to_owned().concat(m.as_str()),
        }
    }
}

/// How large a cache is, and how long it keeps an entry.
#[derive(Debug, Clone, Copy, PartialEq, Eq, Structural)]
pub struct PromptCacheConfig {
    /// How many entries it holds; not zero.
    pub capacity: usize,
    /// How long it keeps one; not zero.
    pub ttl: TimeSpan,
}

impl PromptCacheConfig {
    /// A configuration, or why it cannot be honoured.
    pub fn new(capacity: usize, ttl: TimeSpan) -> (r: Result<PromptCacheConfig, PromptCacheError>)
        ensures
            if capacity == 0 {
                r matches Err(PromptCacheError::Config(m)) && m@ == "capacity must be non-zero"@
            } else if ttl.nanos == 0 {
                r matches Err(PromptCacheError::Config(m)) && m@ == "ttl must be positive"@
            } else {
                r == Ok::<_, PromptCacheError>(PromptCacheConfig { capacity, ttl })
            },
    {
        if capacity == 0 {
            return Err(PromptCacheError::Config("capacity must be non-zero".to_owned()));
        }
        if ttl.is_zero() {
            return Err(PromptCacheError::Config("ttl must be positive".to_owned()));
        }
        Ok(PromptCacheConfig { capacity, ttl })
    }
}

/// An answer and the request that it answers.
#[derive(Debug, PartialEq)]
pub struct PromptCacheEntry {
    /// The digest of the request.
    pub key: String,
    /// The request.
    pub request: UnifiedRequest,
    /// The answer.
    pub response: UnifiedResponse,
    /// When the entry was stored.
    pub stored_at_unix_ms: u64,
    /// When its time is over.
    pub expires_at_unix_ms: u64,
    /// How many entries have gone unused longer.
    pub lru_rank: usize,
}

/// What a [`PromptCacheEntry`] is.
#[verifier::ext_equal]
pub struct EntryView {
    pub key: Seq<char>,
    pub request: RequestView,
    pub response: ResponseView,
    pub stored_at: u64,
    pub expires_at: u64,
    pub lru_rank: nat,
}

impl View for PromptCacheEntry {
    type V = EntryView;

    open spec fn view(&self) -> EntryView {
        EntryView {
            key: self.key@,
            request: self.request@,
            response: self.response@,
            stored_at: self.stored_at_unix_ms,
            expires_at: self.expires_at_unix_ms,
            lru_rank: self.lru_rank as nat,
        }
    }
}

impl Clone for PromptCacheEntry {
    fn clone(&self) -> (r: PromptCacheEntry)
        ensures
            r@ == self@,
    {
        PromptCacheEntry {
            key: self.key.clone(),
            request: self.request.clone(),
            response: self.response.clone(),
            stored_at_unix_ms: self.stored_at_unix_ms,
            expires_at_unix_ms: self.expires_at_unix_ms,
            lru_rank: self.lru_rank,
        }
    }
}

/// What entries are.
pub open spec fn entry_views(v: Seq<PromptCacheEntry>) -> Seq<EntryView> {
    Seq::new(v.len(), |i: int| v[i]@)
}

/// The keys of entries.
pub open spec fn entry_keys(s: Seq<EntryView>) -> Seq<Seq<char>> {
    Seq::new(s.len(), |i: int| s[i].key)
}

/// The live entries of a cache, in the order of their keys.
#[derive(Clone, Debug, PartialEq)]
pub struct PromptCacheSnapshot {
    /// The entries.
    pub entries: Vec<PromptCacheEntry>,
}

impl View for PromptCacheSnapshot {
    type V = Seq<EntryView>;

    open spec fn view(&self) -> Seq<EntryView> {
        entry_views(self.entries@)
    }
}

impl Default for PromptCacheSnapshot {
    fn default() -> (r: PromptCacheSnapshot)
        ensures
            r@ == Seq::<EntryView>::empty(),
    {
        let r = PromptCacheSnapshot { entries: Vec::new() };
        assert(r@ =~= Seq::<EntryView>::empty());
        r
    }
}

/// What became of a snapshot.
#[derive(Debug, Clone, Copy, PartialEq, Eq, Structural)]
pub struct PromptCacheImportReport {
    /// How many entries are in the cache now.
    pub imported_entries: usize,
    /// How many were over their time.
    pub expired_entries: usize,
    /// For how many there was no room.
    pub capacity_evictions: usize,
}

/// The hexadecimal digits.
pub const HEX_DIGITS: &'static str = "0123456789abcdef";

/// Bytes in hexadecimal, two digits each.
pub open spec fn lower_hex(bytes: Seq<u8>) -> Seq<char>
    decreases bytes.len(),
{
    if bytes.len() == 0 {
        Seq::empty()
    } else {
        lower_hex(bytes.drop_last()) + seq![
            HEX_DIGITS@[(bytes.last() / 16) as int],
            HEX_DIGITS@[(bytes.last() % 16) as int],
        ]
    }
}

/// Bytes in hexadecimal, two digits each.
fn to_lower_hex(bytes: &Vec<u8>) -> (r: String)
    ensures
        r@ == lower_hex(bytes@),
{
    let mut out = String::new();
    let mut i: usize = 0;
    assert(bytes@.take(0) =~= Seq::<u8>::empty());
    proof {
        reveal_strlit("0123456789abcdef");
    }
    while i < bytes.len()
        invariant
            i <= bytes@.len(),
            HEX_DIGITS@.len() == 16,
            out@ == lower_hex(bytes@.take(i as int)),
        decreases bytes@.len() - i,
    {
        let b: u8 = bytes[i];
        let high: usize = (b / 16) as usize;
        let low: usize = (b % 16) as usize;
        let ghost before = out@;
        let first = HEX_DIGITS.substring_char(high, high + 1);
        let second = HEX_DIGITS.substring_char(low, low + 1);
        out.append(first);
        out.append(second);
        proof {
            assert(bytes@.take(i + 1).drop_last() =~= bytes@.take(i as int));
            assert(bytes@.take(i + 1).last() == b);
            assert(out@ =~= before + seq![HEX_DIGITS@[high as int], HEX_DIGITS@[low as int]]);
        }
        i = i + 1;
    }
    assert(bytes@.take(i as int) =~= bytes@);
    out
}

/// The SHA-256 digest of bytes.
pub uninterp spec fn sha256(bytes: Seq<u8>) -> Seq<u8>;

/// `sha2::Sha256::digest`, the SHA-256 digest: thirty-two bytes that depend on the bytes alone.
#[verifier::external_body]
fn sha256_digest(bytes: &[u8]) -> (r: Vec<u8>)
    ensures
        r@ == sha256(bytes@),
        r@.len() == 32,
{
    <sha2::Sha256 as sha2::Digest>::digest(bytes).to_vec()
}

/// Why a request or a snapshot is refused.
pub enum CacheRefusal {
    /// A field is not as it should be.
    Validation { field: Seq<char>, message: Seq<char> },
    /// A request has no JSON form.
    Json(Seq<char>),
}

/// An error says what a refusal says.
pub open spec fn says(e: PromptCacheError, why: CacheRefusal) -> bool {
    match why {
        CacheRefusal::Validation { field, message } => e matches PromptCacheError::Validation {
            field: f,
            message: m,
        } && f@ == field && m@ == message,
        CacheRefusal::Json(message) => e matches PromptCacheError::Json(m) && m@ == message,
    }
}

/// The digest of a request: of the JSON text of the whole of it, or why it has none.
pub open spec fn request_digest(req: RequestView) -> Result<Seq<char>, CacheRefusal> {
    if req.temperature is Some && !finite_single(req.temperature->0.bits) {
        Err(
            CacheRefusal::Validation {
                field: "temperature"@,
                message: "temperature must be finite"@,
            },
        )
    } else {
        match request_value(req) {
            None => Err(CacheRefusal::Json("temperature is not a JSON number"@)),
            Some(v) => Ok(lower_hex(sha256(encode_utf8(json_text(v))))),
        }
    }
}

/// The digest of a request.
pub fn digest_request(request: &UnifiedRequest) -> (r: Result<String, PromptCacheError>)
    ensures
        match request_digest(request@) {
            Ok(d) => r matches Ok(text) && text@ == d && is_hex_key(d),
            Err(why) => r matches Err(e) && says(e, why),
        },
{
    if let Some(t) = &request.temperature {
        if !t.is_finite() {
            return Err(
                PromptCacheError::Validation {
                    field: "temperature".to_owned(),
                    message: "temperature must be finite".to_owned(),
                },
            );
        }
    }
    match request_json(request) {
        None => Err(PromptCacheError::Json("temperature is not a JSON number".to_owned())),
        Some(value) => {
            let text = value.to_text();
            let digest = sha256_digest(text.as_str().as_bytes());
            proof {
                lemma_lower_hex(digest@);
            }
            Ok(to_lower_hex(&digest))
        },
    }
}

/// A lowercase hexadecimal digit.
pub open spec fn is_hex(c: char) -> bool {
    '0' <= c <= '9' || 'a' <= c <= 'f'
}

/// The form of a digest: sixty-four lowercase hexadecimal digits.
pub open spec fn is_hex_key(s: Seq<char>) -> bool {
    s.len() == 64 && forall|i: int| 0 <= i < s.len() ==> is_hex(#[trigger] s[i])
}

/// Whether a text has the form of a digest.
fn is_lowercase_sha256_hex(s: &str) -> (r: bool)
    ensures
        r == is_hex_key(s@),
{
    if s.unicode_len() != 64 {
        return false;
    }
    for c in it: s.chars()
        invariant
            it.seq() == s@,
            forall|i: int| 0 <= i < it.index() ==> is_hex(#[trigger] s@[i]),
    {
        if !(('0' <= c && c <= '9') || ('a' <= c && c <= 'f')) {
            assert(!is_hex(s@[it.index()]));
            return false;
        }
    }
    true
}

/// Every digest has the form of a digest.
proof fn lemma_lower_hex(bytes: Seq<u8>)
    ensures
        lower_hex(bytes).len() == 2 * bytes.len(),
        forall|i: int| 0 <= i < lower_hex(bytes).len() ==> is_hex(#[trigger] lower_hex(bytes)[i]),
    decreases bytes.len(),
{
    reveal_strlit("0123456789abcdef");
    if bytes.len() > 0 {
        lemma_lower_hex(bytes.drop_last());
        let before = lower_hex(bytes.drop_last());
        let high = (bytes.last() / 16) as int;
        let low = (bytes.last() % 16) as int;
        assert(is_hex(HEX_DIGITS@[high]));
        assert(is_hex(HEX_DIGITS@[low]));
        assert forall|i: int| 0 <= i < lower_hex(bytes).len() implies is_hex(
            #[trigger] lower_hex(bytes)[i],
        ) by {
            if i < before.len() {
                assert(lower_hex(bytes)[i] == before[i]);
            }
        }
    }
}

/// The entries that are not over their time.
pub open spec fn live(s: Seq<EntryView>, now: u64) -> Seq<EntryView>
    decreases s.len(),
{
    if s.len() == 0 {
        Seq::empty()
    } else if s.last().expires_at > now {
        live(s.drop_last(), now).push(s.last())
    } else {
        live(s.drop_last(), now)
    }
}

/// The entries under other keys.
pub open spec fn other_keys(s: Seq<EntryView>, key: Seq<char>) -> Seq<EntryView>
    decreases s.len(),
{
    if s.len() == 0 {
        Seq::empty()
    } else if s.last().key != key {
        other_keys(s.drop_last(), key).push(s.last())
    } else {
        other_keys(s.drop_last(), key)
    }
}

/// The last `n` entries.
pub open spec fn newest(s: Seq<EntryView>, n: nat) -> Seq<EntryView> {
    if s.len() > n {
        s.skip(s.len() - n)
    } else {
        s
    }
}

/// The entry under the key, by its position.
pub open spec fn key_index(s: Seq<EntryView>, key: Seq<char>, i: int) -> Option<int>
    decreases s.len() - i,
{
    if i < 0 || i >= s.len() {
        None
    } else if s[i].key == key {
        Some(i)
    } else {
        key_index(s, key, i + 1)
    }
}

/// No two entries are under one key.
pub open spec fn distinct_keys(s: Seq<EntryView>) -> bool {
    forall|i: int, j: int|
        0 <= i < s.len() && 0 <= j < s.len() && i != j ==> (#[trigger] s[i]).key != (
        #[trigger] s[j]).key
}

/// An entry is under the digest of its request, which has the form of a digest.
pub open spec fn is_keyed(e: EntryView) -> bool {
    is_hex_key(e.key) && request_digest(e.request) == Ok::<Seq<char>, CacheRefusal>(e.key)
}

/// Every entry is under the digest of its request.
pub open spec fn keyed_by_digest(s: Seq<EntryView>) -> bool {
    forall|i: int| 0 <= i < s.len() ==> is_keyed(#[trigger] s[i])
}

/// What a cache may hold.
pub open spec fn is_cache(s: Seq<EntryView>, capacity: nat) -> bool {
    s.len() <= capacity && distinct_keys(s) && keyed_by_digest(s)
}

/// The cache after a look for the key: a live entry moves to the end, one that is over its time
/// goes.
pub open spec fn looked_up(s: Seq<EntryView>, key: Seq<char>, now: u64) -> Seq<EntryView> {
    match key_index(s, key, 0) {
        None => s,
        Some(i) => if s[i].expires_at <= now {
            s.remove(i)
        } else {
            s.remove(i).push(s[i])
        },
    }
}

/// What a look for the key finds.
pub open spec fn hit(s: Seq<EntryView>, key: Seq<char>, now: u64) -> Option<EntryView> {
    match key_index(s, key, 0) {
        None => None,
        Some(i) => if s[i].expires_at <= now {
            None
        } else {
            Some(EntryView { lru_rank: (s.len() - 1) as nat, ..s[i] })
        },
    }
}

/// The milliseconds of a span, as a 64-bit count.
pub open spec fn span_millis(ttl: TimeSpan) -> u64 {
    ((ttl.nanos / 1_000_000) % 0x1_0000_0000_0000_0000) as u64
}

/// When the time of an entry is over that is stored now.
pub open spec fn expiry(now: u64, ttl: TimeSpan) -> u64 {
    if now + span_millis(ttl) <= u64::MAX {
        (now + span_millis(ttl)) as u64
    } else {
        u64::MAX
    }
}

/// The cache after an entry is put in: what is over its time goes, and an entry under the same
/// key, and the entry that has gone unused longest where there is no room.
pub open spec fn put_in(s: Seq<EntryView>, e: EntryView, now: u64, capacity: nat) -> Seq<
    EntryView,
> {
    newest(other_keys(live(s, now), e.key).push(e), capacity)
}

/// The live entries with their ranks.
pub open spec fn ranked(s: Seq<EntryView>) -> Seq<EntryView> {
    Seq::new(s.len(), |i: int| EntryView { lru_rank: i as nat, ..s[i] })
}

/// A snapshot holds the live entries with their ranks, in the order of their keys.
pub open spec fn is_export(snapshot: Seq<EntryView>, s: Seq<EntryView>, now: u64) -> bool {
    let entries = ranked(live(s, now));
    &&& snapshot.len() == entries.len()
    &&& strictly_sorted(entry_keys(snapshot))
    &&& forall|i: int| 0 <= i < entries.len() ==> snapshot.contains(#[trigger] entries[i])
}

/// A field of an entry.
pub open spec fn entry_field(key: Seq<char>, field: Seq<char>) -> Seq<char> {
    "entries["@ + key + "]."@ + field
}

/// An earlier entry has the key.
pub open spec fn key_before(s: Seq<EntryView>, i: int) -> bool {
    exists|j: int| 0 <= j < i && (#[trigger] s[j]).key == s[i].key
}

/// An earlier entry has the rank.
pub open spec fn rank_before(s: Seq<EntryView>, i: int) -> bool {
    exists|j: int| 0 <= j < i && (#[trigger] s[j]).lru_rank == s[i].lru_rank
}

/// Why an entry of a snapshot is refused.
pub open spec fn entry_refusal(s: Seq<EntryView>, i: int) -> Option<CacheRefusal> {
    let e = s[i];
    if !is_hex_key(e.key) {
        Some(
            CacheRefusal::Validation {
                field: entry_field(e.key, "key"@),
                message: "key must be a lowercase 64-character SHA-256 hex digest"@,
            },
        )
    } else if key_before(s, i) {
        Some(
            CacheRefusal::Validation {
                field: entry_field(e.key, "key"@),
                message: "duplicate key in imported snapshot"@,
            },
        )
    } else if e.stored_at >= e.expires_at {
        Some(
            CacheRefusal::Validation {
                field: entry_field(e.key, "stored_at_unix_ms"@),
                message: "stored_at_unix_ms must be less than expires_at_unix_ms"@,
            },
        )
    } else {
        match request_digest(e.request) {
            Err(why) => Some(why),
            Ok(d) => if d != e.key {
                Some(
                    CacheRefusal::Validation {
                        field: entry_field(e.key, "key"@),
                        message: "key does not match the digest of its request"@,
                    },
                )
            } else if rank_before(s, i) {
                Some(
                    CacheRefusal::Validation {
                        field: entry_field(e.key, "lru_rank"@),
                        message: "duplicate lru_rank in imported snapshot"@,
                    },
                )
            } else {
                None
            },
        }
    }
}

/// Why the first of the first `n` entries that is refused is.
pub open spec fn entries_refusal(s: Seq<EntryView>, n: int) -> Option<CacheRefusal>
    decreases n,
{
    if n <= 0 {
        None
    } else {
        match entries_refusal(s, n - 1) {
            Some(why) => Some(why),
            None => entry_refusal(s, n - 1),
        }
    }
}

/// A rank is beyond the number of entries.
pub open spec fn rank_beyond(s: Seq<EntryView>) -> bool {
    exists|i: int| 0 <= i < s.len() && (#[trigger] s[i]).lru_rank >= s.len()
}

/// Why a snapshot is refused.
pub open spec fn import_refusal(s: Seq<EntryView>) -> Option<CacheRefusal> {
    match entries_refusal(s, s.len() as int) {
        Some(why) => Some(why),
        None => if rank_beyond(s) {
            Some(
                CacheRefusal::Validation {
                    field: "entries[].lru_rank"@,
                    message: "ranks must be contiguous from 0.."@ + decimal(s.len()),
                },
            )
        } else {
            None
        },
    }
}

/// The entry with the rank.
pub open spec fn at_rank(s: Seq<EntryView>, rank: nat) -> Option<EntryView>
    decreases s.len(),
{
    if s.len() == 0 {
        None
    } else if s.last().lru_rank == rank {
        Some(s.last())
    } else {
        at_rank(s.drop_last(), rank)
    }
}

/// The entries with ranks below `n`, in the order of their ranks.
pub open spec fn by_rank(s: Seq<EntryView>, n: nat) -> Seq<EntryView>
    decreases n,
{
    if n == 0 {
        Seq::empty()
    } else {
        match at_rank(s, (n - 1) as nat) {
            Some(e) => by_rank(s, (n - 1) as nat).push(e),
            None => by_rank(s, (n - 1) as nat),
        }
    }
}

/// What the cache holds after a snapshot is brought in: the live entries in the order of their
/// ranks, the newest of them where there is no room for all, with new ranks.
pub open spec fn brought_in(s: Seq<EntryView>, now: u64, capacity: nat) -> Seq<EntryView> {
    ranked(newest(by_rank(live(s, now), s.len()), capacity))
}

/// Live entries are among the entries, in order.
proof fn lemma_live_subset(s: Seq<EntryView>, now: u64)
    ensures
        live(s, now).len() <= s.len(),
        forall|i: int|
            0 <= i < live(s, now).len() ==> s.contains(#[trigger] live(s, now)[i]) && live(
                s,
                now,
            )[i].expires_at > now,
        distinct_keys(s) ==> distinct_keys(live(s, now)),
    decreases s.len(),
{
    if s.len() > 0 {
        let before = s.drop_last();
        let lb = live(before, now);
        let la = live(s, now);
        lemma_live_subset(before, now);
        assert forall|i: int| 0 <= i < la.len() implies s.contains(#[trigger] la[i])
            && la[i].expires_at > now by {
            if i < lb.len() {
                assert(la[i] == lb[i]);
                let k = choose|k: int| 0 <= k < before.len() && before[k] == lb[i];
                assert(s[k] == la[i]);
            } else {
                assert(la[i] == s[s.len() - 1]);
            }
        }
        if distinct_keys(s) {
            assert(distinct_keys(before)) by {
                assert forall|i: int, j: int|
                    0 <= i < before.len() && 0 <= j < before.len() && i != j implies (
                #[trigger] before[i]).key != (#[trigger] before[j]).key by {
                    assert(s[i].key != s[j].key);
                }
            }
            assert forall|i: int, j: int|
                0 <= i < la.len() && 0 <= j < la.len() && i != j implies (#[trigger] la[i]).key != (
            #[trigger] la[j]).key by {
                if i < lb.len() && j < lb.len() {
                    assert(lb[i].key != lb[j].key);
                } else {
                    let o = if i < lb.len() {
                        i
                    } else {
                        j
                    };
                    assert(before.contains(lb[o]));
                    let k = choose|k: int| 0 <= k < before.len() && before[k] == lb[o];
                    assert(s[k].key != s[s.len() - 1].key);
                }
            }
        }
    }
}

/// The entries under other keys are among the entries, in order.
proof fn lemma_other_keys_subset(s: Seq<EntryView>, key: Seq<char>)
    ensures
        other_keys(s, key).len() <= s.len(),
        forall|i: int|
            0 <= i < other_keys(s, key).len() ==> s.contains(#[trigger] other_keys(s, key)[i])
                && other_keys(s, key)[i].key != key,
        distinct_keys(s) ==> distinct_keys(other_keys(s, key)),
    decreases s.len(),
{
    if s.len() > 0 {
        let before = s.drop_last();
        let lb = other_keys(before, key);
        let la = other_keys(s, key);
        lemma_other_keys_subset(before, key);
        assert forall|i: int| 0 <= i < la.len() implies s.contains(#[trigger] la[i]) && la[i].key
            != key by {
            if i < lb.len() {
                assert(la[i] == lb[i]);
                let k = choose|k: int| 0 <= k < before.len() && before[k] == lb[i];
                assert(s[k] == la[i]);
            } else {
                assert(la[i] == s[s.len() - 1]);
            }
        }
        if distinct_keys(s) {
            assert(distinct_keys(before)) by {
                assert forall|i: int, j: int|
                    0 <= i < before.len() && 0 <= j < before.len() && i != j implies (
                #[trigger] before[i]).key != (#[trigger] before[j]).key by {
                    assert(s[i].key != s[j].key);
                }
            }
            assert forall|i: int, j: int|
                0 <= i < la.len() && 0 <= j < la.len() && i != j implies (#[trigger] la[i]).key != (
            #[trigger] la[j]).key by {
                if i < lb.len() && j < lb.len() {
                    assert(lb[i].key != lb[j].key);
                } else {
                    let o = if i < lb.len() {
                        i
                    } else {
                        j
                    };
                    assert(before.contains(lb[o]));
                    let k = choose|k: int| 0 <= k < before.len() && before[k] == lb[o];
                    assert(s[k].key != s[s.len() - 1].key);
                }
            }
        }
    }
}

/// The position of a key that is found is right, and a key that is not found is not there.
proof fn lemma_key_index(s: Seq<EntryView>, key: Seq<char>, i: int)
    requires
        0 <= i,
    ensures
        match key_index(s, key, i) {
            Some(k) => i <= k < s.len() && s[k].key == key,
            None => forall|k: int| i <= k < s.len() ==> (#[trigger] s[k]).key != key,
        },
    decreases s.len() - i,
{
    if i < s.len() {
        lemma_key_index(s, key, i + 1);
    }
}

/// In a cache, a look for a key leaves a cache.
pub proof fn lemma_looked_up(s: Seq<EntryView>, key: Seq<char>, now: u64, capacity: nat)
    requires
        is_cache(s, capacity),
    ensures
        is_cache(looked_up(s, key, now), capacity),
{
    lemma_key_index(s, key, 0);
    if let Some(k) = key_index(s, key, 0) {
        let rest = s.remove(k);
        assert forall|i: int, j: int|
            0 <= i < rest.len() && 0 <= j < rest.len() && i != j implies (#[trigger] rest[i]).key
            != (#[trigger] rest[j]).key by {
            let a = if i < k {
                i
            } else {
                i + 1
            };
            let b = if j < k {
                j
            } else {
                j + 1
            };
            assert(s[a].key != s[b].key);
        }
        assert forall|i: int| 0 <= i < rest.len() implies is_keyed(#[trigger] rest[i]) by {
            let a = if i < k {
                i
            } else {
                i + 1
            };
            assert(rest[i] == s[a]);
        }
        let after = rest.push(s[k]);
        assert forall|i: int, j: int|
            0 <= i < after.len() && 0 <= j < after.len() && i != j implies (#[trigger] after[i]).key
            != (#[trigger] after[j]).key by {
            if i < rest.len() && j < rest.len() {
                assert(rest[i].key != rest[j].key);
            } else {
                let o = if i < rest.len() {
                    i
                } else {
                    j
                };
                let a = if o < k {
                    o
                } else {
                    o + 1
                };
                assert(s[a].key != s[k].key);
            }
        }
        assert forall|i: int| 0 <= i < after.len() implies is_keyed(#[trigger] after[i]) by {
            if i < rest.len() {
                assert(after[i] == rest[i]);
            } else {
                assert(after[i] == s[k]);
            }
        }
    }
}

/// In a cache, putting an entry in under its digest leaves a cache.
pub proof fn lemma_put_in(s: Seq<EntryView>, e: EntryView, now: u64, capacity: nat)
    requires
        is_cache(s, capacity),
        is_keyed(e),
    ensures
        is_cache(put_in(s, e, now, capacity), capacity),
{
    let l = live(s, now);
    let o = other_keys(l, e.key);
    let q = o.push(e);
    let after = newest(q, capacity);
    lemma_live_subset(s, now);
    lemma_other_keys_subset(l, e.key);
    let d = q.len() - after.len();
    assert forall|i: int| 0 <= i < after.len() implies #[trigger] after[i] == q[i + d] by {}
    assert forall|i: int, j: int|
        0 <= i < after.len() && 0 <= j < after.len() && i != j implies (#[trigger] after[i]).key
        != (#[trigger] after[j]).key by {
        let a = i + d;
        let b = j + d;
        if a < o.len() && b < o.len() {
            assert(o[a].key != o[b].key);
        } else if a < o.len() {
            assert(o[a].key != e.key);
        } else {
            assert(o[b].key != e.key);
        }
    }
    assert forall|i: int| 0 <= i < after.len() implies is_keyed(#[trigger] after[i]) by {
        let a = i + d;
        if a < o.len() {
            assert(l.contains(o[a]));
            let b = choose|b: int| 0 <= b < l.len() && l[b] == o[a];
            assert(s.contains(l[b]));
            let c = choose|c: int| 0 <= c < s.len() && s[c] == l[b];
            assert(is_keyed(s[c]));
        }
    }
}

/// The entries that are not over their time.
fn keep_live(entries: Vec<PromptCacheEntry>, now: u64) -> (r: Vec<PromptCacheEntry>)
    ensures
        entry_views(r@) == live(entry_views(entries@), now),
{
    let ghost all = entry_views(entries@);
    let mut r: Vec<PromptCacheEntry> = Vec::new();
    assert(all.take(0) =~= Seq::<EntryView>::empty());
    assert(entry_views(r@) =~= live(all.take(0), now));
    for entry in it: entries
        invariant
            it.seq() == entries@,
            all == entry_views(entries@),
            entry_views(r@) == live(all.take(it.index() as int), now),
    {
        let ghost i = it.index() as int;
        let ghost before = entry_views(r@);
        assert(entry@ == all[i]);
        assert(all.take(i + 1).drop_last() =~= all.take(i));
        assert(all.take(i + 1).last() == all[i]);
        if entry.expires_at_unix_ms > now {
            r.push(entry);
            assert(entry_views(r@) =~= before.push(all[i]));
        }
    }
    assert(all.take(all.len() as int) =~= all);
    r
}

/// The entries under other keys.
fn drop_key(entries: Vec<PromptCacheEntry>, key: &str) -> (r: Vec<PromptCacheEntry>)
    ensures
        entry_views(r@) == other_keys(entry_views(entries@), key@),
{
    let ghost all = entry_views(entries@);
    let mut r: Vec<PromptCacheEntry> = Vec::new();
    assert(all.take(0) =~= Seq::<EntryView>::empty());
    assert(entry_views(r@) =~= other_keys(all.take(0), key@));
    for entry in it: entries
        invariant
            it.seq() == entries@,
            all == entry_views(entries@),
            entry_views(r@) == other_keys(all.take(it.index() as int), key@),
    {
        let ghost i = it.index() as int;
        let ghost before = entry_views(r@);
        assert(entry@ == all[i]);
        assert(all.take(i + 1).drop_last() =~= all.take(i));
        assert(all.take(i + 1).last() == all[i]);
        if !str_eq(entry.key.as_str(), key) {
            r.push(entry);
            assert(entry_views(r@) =~= before.push(all[i]));
        }
    }
    assert(all.take(all.len() as int) =~= all);
    r
}

/// Drops entries from the front until at most `n` are left.
fn keep_newest(entries: &mut Vec<PromptCacheEntry>, n: usize)
    ensures
        entry_views(final(entries)@) == newest(entry_views(old(entries)@), n as nat),
{
    let ghost all = entry_views(entries@);
    assert(all.skip(0) =~= all);
    while entries.len() > n
        invariant
            entries@.len() <= all.len(),
            entries@.len() >= n || entries@.len() == all.len(),
            entry_views(entries@) == all.skip(all.len() - entries@.len()),
        decreases entries@.len(),
    {
        let ghost before = entries@;
        entries.remove(0);
        assert(entry_views(entries@) =~= entry_views(before).skip(1));
        assert(entry_views(before).skip(1) =~= all.skip(all.len() - before.len() + 1));
    }
    assert(entry_views(entries@).len() == entries@.len());
    assert(all.skip(0) =~= all);
}

/// Gives entries their ranks.
fn renumber(entries: &mut Vec<PromptCacheEntry>)
    ensures
        entry_views(final(entries)@) == ranked(entry_views(old(entries)@)),
{
    let ghost all = entry_views(entries@);
    let mut i: usize = 0;
    while i < entries.len()
        invariant
            entries@.len() == all.len(),
            i <= all.len(),
            forall|k: int| 0 <= k < i ==> (#[trigger] entries@[k])@ == ranked(all)[k],
            forall|k: int| i <= k < all.len() ==> (#[trigger] entries@[k])@ == all[k],
        decreases all.len() - i,
    {
        let ghost before = entries@;
        assert(before[i as int]@ == all[i as int]);
        entries[i].lru_rank = i;
        assert(entries@[i as int]@ =~= ranked(all)[i as int]);
        i = i + 1;
    }
    assert(entry_views(entries@) =~= ranked(all));
}

/// The entry under the key.
fn find_key(entries: &Vec<PromptCacheEntry>, key: &str) -> (r: Option<usize>)
    ensures
        match r {
            Some(i) => key_index(entry_views(entries@), key@, 0) == Some(i as int) && i
                < entries@.len(),
            None => key_index(entry_views(entries@), key@, 0) is None,
        },
{
    let ghost all = entry_views(entries@);
    let mut i: usize = 0;
    while i < entries.len()
        invariant
            all == entry_views(entries@),
            i <= all.len(),
            key_index(all, key@, 0) == key_index(all, key@, i as int),
        decreases entries@.len() - i,
    {
        assert(all[i as int] == entries@[i as int]@);
        if str_eq(entries[i].key.as_str(), key) {
            return Some(i);
        }
        i = i + 1;
    }
    None
}

/// A field of an entry is refused.
fn refuse(key: &str, field: &str, message: &str) -> (r: PromptCacheError)
    ensures
        says(
            r,
            CacheRefusal::Validation { field: entry_field(key@, field@), message: message@ },
        ),
{
    PromptCacheError::Validation {
        field: "entries[".to_owned().concat(key).concat("].").concat(field),
        message: message.to_owned(),
    }
}

/// Whether an earlier entry has the key.
fn has_key_before(entries: &Vec<PromptCacheEntry>, i: usize) -> (r: bool)
    requires
        i < entries@.len(),
    ensures
        r == key_before(entry_views(entries@), i as int),
{
    let ghost all = entry_views(entries@);
    let mut j: usize = 0;
    while j < i
        invariant
            all == entry_views(entries@),
            j <= i < all.len(),
            forall|k: int| 0 <= k < j ==> (#[trigger] all[k]).key != all[i as int].key,
        decreases i - j,
    {
        if str_eq(entries[j].key.as_str(), entries[i].key.as_str()) {
            assert(all[j as int].key == all[i as int].key);
            return true;
        }
        assert(all[j as int].key != all[i as int].key);
        j = j + 1;
    }
    false
}

/// Whether an earlier entry has the rank.
fn has_rank_before(entries: &Vec<PromptCacheEntry>, i: usize) -> (r: bool)
    requires
        i < entries@.len(),
    ensures
        r == rank_before(entry_views(entries@), i as int),
{
    let ghost all = entry_views(entries@);
    let mut j: usize = 0;
    while j < i
        invariant
            all == entry_views(entries@),
            j <= i < all.len(),
            forall|k: int| 0 <= k < j ==> (#[trigger] all[k]).lru_rank != all[i as int].lru_rank,
        decreases i - j,
    {
        if entries[j].lru_rank == entries[i].lru_rank {
            assert(all[j as int].lru_rank == all[i as int].lru_rank);
            return true;
        }
        assert(all[j as int].lru_rank != all[i as int].lru_rank);
        j = j + 1;
    }
    false
}

/// Refuses an entry that is not as it should be.
fn validate_entry(entries: &Vec<PromptCacheEntry>, i: usize) -> (r: Result<(), PromptCacheError>)
    requires
        i < entries@.len(),
    ensures
        match entry_refusal(entry_views(entries@), i as int) {
            Some(why) => r matches Err(e) && says(e, why),
            None => r is Ok,
        },
{
    let entry = &entries[i];
    let key = entry.key.as_str();
    if !is_lowercase_sha256_hex(key) {
        return Err(
            refuse(key, "key", "key must be a lowercase 64-character SHA-256 hex digest"),
        );
    }
    if has_key_before(entries, i) {
        return Err(refuse(key, "key", "duplicate key in imported snapshot"));
    }
    if entry.stored_at_unix_ms >= entry.expires_at_unix_ms {
        return Err(
            refuse(
                key,
                "stored_at_unix_ms",
                "stored_at_unix_ms must be less than expires_at_unix_ms",
            ),
        );
    }
    let expected = digest_request(&entry.request)?;
    if !str_eq(expected.as_str(), key) {
        return Err(refuse(key, "key", "key does not match the digest of its request"));
    }
    if has_rank_before(entries, i) {
        return Err(refuse(key, "lru_rank", "duplicate lru_rank in imported snapshot"));
    }
    Ok(())
}

/// An entry that is refused has the snapshot refused.
proof fn lemma_refusal_stays(s: Seq<EntryView>, n: int, m: int)
    requires
        entries_refusal(s, n) is Some,
        n <= m,
    ensures
        entries_refusal(s, m) == entries_refusal(s, n),
    decreases m - n,
{
    if n < m {
        lemma_refusal_stays(s, n, m - 1);
        if m <= 0 {
            assert(entries_refusal(s, n) is None);
        }
    }
}

/// Refuses a snapshot that is not as it should be.
pub fn validate_snapshot(snapshot: &PromptCacheSnapshot) -> (r: Result<(), PromptCacheError>)
    ensures
        match import_refusal(snapshot@) {
            Some(why) => r matches Err(e) && says(e, why),
            None => r is Ok,
        },
{
    let ghost all = snapshot@;
    let entries = &snapshot.entries;
    let count: usize = entries.len();
    let mut i: usize = 0;
    while i < count
        invariant
            all == entry_views(entries@),
            all == snapshot@,
            i <= count == all.len(),
            entries_refusal(all, i as int) is None,
        decreases count - i,
    {
        match validate_entry(entries, i) {
            Ok(_) => {},
            Err(e) => {
                proof {
                    lemma_refusal_stays(all, i + 1, count as int);
                }
                return Err(e);
            },
        }
        i = i + 1;
    }
    let mut k: usize = 0;
    while k < count
        invariant
            all == entry_views(entries@),
            k <= count == all.len(),
            entries_refusal(all, count as int) is None,
            all == snapshot@,
            forall|j: int| 0 <= j < k ==> (#[trigger] all[j]).lru_rank < count,
        decreases count - k,
    {
        assert(all[k as int] == entries@[k as int]@);
        if entries[k].lru_rank >= count {
            assert(rank_beyond(all));
            return Err(
                PromptCacheError::Validation {
                    field: "entries[].lru_rank".to_owned(),
                    message: "ranks must be contiguous from 0..".to_owned().concat(
                        decimal_text(count as u128).as_str(),
                    ),
                },
            );
        }
        k = k + 1;
    }
    Ok(())
}

/// Entries none of which is refused have distinct keys and ranks, and are under their digests.
proof fn lemma_accepted(s: Seq<EntryView>, n: int)
    requires
        0 <= n <= s.len(),
        entries_refusal(s, n) is None,
    ensures
        forall|i: int, j: int|
            0 <= i < j < n ==> (#[trigger] s[i]).key != (#[trigger] s[j]).key && s[i].lru_rank
                != s[j].lru_rank,
        forall|i: int| 0 <= i < n ==> is_keyed(#[trigger] s[i]),
    decreases n,
{
    if n > 0 {
        lemma_accepted(s, n - 1);
        assert(entry_refusal(s, n - 1) is None);
        assert forall|i: int, j: int| 0 <= i < j < n implies (#[trigger] s[i]).key != (
        #[trigger] s[j]).key && s[i].lru_rank != s[j].lru_rank by {
            if j == n - 1 {
                assert(!key_before(s, j));
                assert(!rank_before(s, j));
            }
        }
    }
}

/// Ranks are distinct.
pub open spec fn distinct_ranks(s: Seq<EntryView>) -> bool {
    forall|i: int, j: int|
        0 <= i < s.len() && 0 <= j < s.len() && i != j ==> (#[trigger] s[i]).lru_rank != (
        #[trigger] s[j]).lru_rank
}

/// The entry with a rank is there.
proof fn lemma_at_rank(s: Seq<EntryView>, rank: nat)
    ensures
        match at_rank(s, rank) {
            Some(e) => s.contains(e) && e.lru_rank == rank,
            None => forall|i: int| 0 <= i < s.len() ==> (#[trigger] s[i]).lru_rank != rank,
        },
    decreases s.len(),
{
    if s.len() > 0 && s.last().lru_rank != rank {
        lemma_at_rank(s.drop_last(), rank);
        match at_rank(s.drop_last(), rank) {
            Some(e) => {
                let k = choose|k: int| 0 <= k < s.drop_last().len() && s.drop_last()[k] == e;
                assert(s[k] == e);
            },
            None => {
                assert forall|i: int| 0 <= i < s.len() implies (#[trigger] s[i]).lru_rank
                    != rank by {
                    if i < s.len() - 1 {
                        assert(s.drop_last()[i].lru_rank != rank);
                    }
                }
            },
        }
    } else if s.len() > 0 {
        assert(s[s.len() - 1] == s.last());
    }
}

/// Entries in the order of their ranks are entries, and none comes twice.
proof fn lemma_by_rank(s: Seq<EntryView>, n: nat)
    ensures
        forall|i: int|
            0 <= i < by_rank(s, n).len() ==> s.contains(#[trigger] by_rank(s, n)[i]) && by_rank(
                s,
                n,
            )[i].lru_rank < n,
        forall|i: int, j: int|
            0 <= i < j < by_rank(s, n).len() ==> (#[trigger] by_rank(s, n)[i]).lru_rank < (
            #[trigger] by_rank(s, n)[j]).lru_rank,
    decreases n,
{
    if n > 0 {
        lemma_by_rank(s, (n - 1) as nat);
        lemma_at_rank(s, (n - 1) as nat);
        let before = by_rank(s, (n - 1) as nat);
        let after = by_rank(s, n);
        assert forall|i: int| 0 <= i < after.len() implies s.contains(#[trigger] after[i])
            && after[i].lru_rank < n by {
            if i < before.len() {
                assert(after[i] == before[i]);
                assert(s.contains(before[i]));
            }
        }
        assert forall|i: int, j: int| 0 <= i < j < after.len() implies (#[trigger] after[i]).lru_rank
            < (#[trigger] after[j]).lru_rank by {
            assert(after[i] == before[i]);
            if j < before.len() {
                assert(after[j] == before[j]);
            } else {
                assert(before[i].lru_rank < n - 1);
            }
        }
    }
}

/// What a snapshot that is not refused brings in is a cache.
pub proof fn lemma_brought_in(s: Seq<EntryView>, now: u64, capacity: nat)
    requires
        import_refusal(s) is None,
    ensures
        is_cache(brought_in(s, now, capacity), capacity),
{
    let l = live(s, now);
    let b = by_rank(l, s.len());
    let q = newest(b, capacity);
    let after = ranked(q);
    lemma_accepted(s, s.len() as int);
    lemma_live_subset(s, now);
    lemma_by_rank(l, s.len());
    let d = b.len() - q.len();
    assert forall|i: int| 0 <= i < after.len() implies (#[trigger] after[i]).key == b[i + d].key
        && after[i].request == b[i + d].request by {
        assert(q[i] == b[i + d]);
    }
    assert forall|i: int, j: int|
        0 <= i < after.len() && 0 <= j < after.len() && i != j implies (#[trigger] after[i]).key
        != (#[trigger] after[j]).key by {
        lemma_distinct_members(s, l, b, i + d, j + d);
    }
    assert forall|i: int| 0 <= i < after.len() implies is_keyed(#[trigger] after[i]) by {
        assert(l.contains(b[i + d]));
        let x = choose|x: int| 0 <= x < l.len() && l[x] == b[i + d];
        assert(s.contains(l[x]));
        let y = choose|y: int| 0 <= y < s.len() && s[y] == l[x];
        assert(is_keyed(s[y]));
    }
}

/// Two entries at different places in the order of ranks are under different keys.
proof fn lemma_distinct_members(
    s: Seq<EntryView>,
    l: Seq<EntryView>,
    b: Seq<EntryView>,
    i: int,
    j: int,
)
    requires
        forall|i: int, j: int|
            0 <= i < j < s.len() ==> (#[trigger] s[i]).key != (#[trigger] s[j]).key && s[i].lru_rank
                != s[j].lru_rank,
        forall|i: int| 0 <= i < l.len() ==> s.contains(#[trigger] l[i]),
        forall|i: int| 0 <= i < b.len() ==> l.contains(#[trigger] b[i]),
        forall|i: int, j: int|
            0 <= i < j < b.len() ==> (#[trigger] b[i]).lru_rank < (#[trigger] b[j]).lru_rank,
        0 <= i < b.len(),
        0 <= j < b.len(),
        i != j,
    ensures
        b[i].key != b[j].key,
{
    assert(l.contains(b[i]));
    let x = choose|x: int| 0 <= x < l.len() && l[x] == b[i];
    assert(s.contains(l[x]));
    let p = choose|p: int| 0 <= p < s.len() && s[p] == l[x];
    assert(l.contains(b[j]));
    let y = choose|y: int| 0 <= y < l.len() && l[y] == b[j];
    assert(s.contains(l[y]));
    let q = choose|q: int| 0 <= q < s.len() && s[q] == l[y];
    if i < j {
        assert(b[i].lru_rank < b[j].lru_rank);
    } else {
        assert(b[j].lru_rank < b[i].lru_rank);
    }
    if p < q {
        assert(s[p].key != s[q].key);
    } else {
        assert(q < p);
        assert(s[q].key != s[p].key);
    }
}

/// What a slot holds.
pub open spec fn slot_view(slot: Option<PromptCacheEntry>) -> Option<EntryView> {
    match slot {
        Some(e) => Some(e@),
        None => None,
    }
}

/// One entry more in the order of ranks.
proof fn lemma_at_rank_push(s: Seq<EntryView>, e: EntryView, rank: nat)
    ensures
        at_rank(s.push(e), rank) == if e.lru_rank == rank {
            Some(e)
        } else {
            at_rank(s, rank)
        },
{
    assert(s.push(e).drop_last() =~= s);
}

/// The live entries in the order of their ranks.
fn order_by_rank(entries: Vec<PromptCacheEntry>, now: u64) -> (r: Vec<PromptCacheEntry>)
    requires
        forall|i: int| 0 <= i < entries@.len() ==> (#[trigger] entries@[i]).lru_rank < entries@.len(),
    ensures
        entry_views(r@) == by_rank(
            live(entry_views(entries@), now),
            entries@.len(),
        ),
{
    let ghost all = entry_views(entries@);
    let count: usize = entries.len();
    let mut slots: Vec<Option<PromptCacheEntry>> = Vec::new();
    let mut n: usize = 0;
    while n < count
        invariant
            n <= count,
            slots@.len() == n,
            forall|k: int| 0 <= k < n ==> #[trigger] slots@[k] is None,
        decreases count - n,
    {
        slots.push(None);
        n = n + 1;
    }
    assert(all.take(0) =~= Seq::<EntryView>::empty());
    for entry in it: entries
        invariant
            it.seq() == entries@,
            all == entry_views(entries@),
            count == entries@.len(),
            slots@.len() == count,
            forall|i: int| 0 <= i < entries@.len() ==> (#[trigger] entries@[i]).lru_rank < count,
            forall|k: int|
                0 <= k < count ==> slot_view(#[trigger] slots@[k]) == at_rank(
                    live(all.take(it.index() as int), now),
                    k as nat,
                ),
    {
        let ghost i = it.index() as int;
        assert(entry == entries@[i]);
        assert(entry@ == all[i]);
        assert(all.take(i + 1).drop_last() =~= all.take(i));
        assert(all.take(i + 1).last() == all[i]);
        if entry.expires_at_unix_ms > now {
            let rank: usize = entry.lru_rank;
            let ghost before = slots@;
            let ghost e = entry@;
            slots.set(rank, Some(entry));
            proof {
                assert forall|k: int| 0 <= k < count implies slot_view(#[trigger] slots@[k])
                    == at_rank(live(all.take(i + 1), now), k as nat) by {
                    lemma_at_rank_push(live(all.take(i), now), e, k as nat);
                    if k != rank {
                        assert(slots@[k] == before[k]);
                    }
                }
            }
        }
    }
    assert(all.take(all.len() as int) =~= all);
    let ghost l = live(all, now);
    let ghost filled = slots@;
    let mut r: Vec<PromptCacheEntry> = Vec::new();
    assert(entry_views(r@) =~= by_rank(l, 0));
    for slot in it: slots
        invariant
            it.seq() == filled,
            filled.len() == count,
            forall|k: int|
                0 <= k < count ==> slot_view(#[trigger] filled[k]) == at_rank(l, k as nat),
            entry_views(r@) == by_rank(l, it.index() as nat),
    {
        let ghost i = it.index() as int;
        let ghost before = entry_views(r@);
        assert(slot == filled[i]);
        assert(slot_view(filled[i]) == at_rank(l, i as nat));
        assert(((i + 1) as nat - 1) as nat == i as nat);
        match slot {
            Some(entry) => {
                r.push(entry);
                assert(entry_views(r@) =~= before.push(entry@));
            },
            None => {},
        }
    }
    r
}

/// A bounded cache of answers.
pub struct PromptCache {
    config: PromptCacheConfig,
    entries: Vec<PromptCacheEntry>,
}

impl View for PromptCache {
    type V = Seq<EntryView>;

    closed spec fn view(&self) -> Seq<EntryView> {
        entry_views(self.entries@)
    }
}

impl PromptCache {
    /// How large the cache is, and how long it keeps an entry.
    pub closed spec fn config(&self) -> PromptCacheConfig {
        self.config
    }

    #[verifier::type_invariant]
    spec fn wf(self) -> bool {
        is_cache(entry_views(self.entries@), self.config.capacity as nat)
    }

    /// An empty cache.
    pub fn new(config: PromptCacheConfig) -> (r: Result<PromptCache, PromptCacheError>)
        ensures
            r matches Ok(cache) && cache.config() == config && cache@ == Seq::<EntryView>::empty(),
    {
        let cache = PromptCache { config, entries: Vec::new() };
        assert(cache@ =~= Seq::<EntryView>::empty());
        Ok(cache)
    }

    /// Looks for the answer under a digest. A live entry becomes the newest; one that is over
    /// its time goes.
    pub fn lookup(&mut self, key: &str, now_unix_ms: u64) -> (r: Option<PromptCacheEntry>)
        ensures
            final(self).config() == old(self).config(),
            final(self)@ == looked_up(old(self)@, key@, now_unix_ms),
            match hit(old(self)@, key@, now_unix_ms) {
                Some(e) => r matches Some(entry) && entry@ == e,
                None => r is None,
            },
    {
        proof {
            use_type_invariant(&*self);
            lemma_looked_up(self@, key@, now_unix_ms, self.config.capacity as nat);
        }
        let ghost all = self@;
        match find_key(&self.entries, key) {
            None => None,
            Some(i) => {
                let mut entries: Vec<PromptCacheEntry> = Vec::new();
                assert(entry_views(entries@) =~= Seq::<EntryView>::empty());
                std::mem::swap(&mut entries, &mut self.entries);
                let stored = entries.remove(i);
                assert(stored@ == all[i as int]);
                assert(entry_views(entries@) =~= all.remove(i as int));
                if stored.expires_at_unix_ms <= now_unix_ms {
                    self.entries = entries;
                    return None;
                }
                let mut found = stored.clone();
                found.lru_rank = entries.len();
                entries.push(stored);
                assert(entry_views(entries@) =~= all.remove(i as int).push(all[i as int]));
                self.entries = entries;
                assert(found@ == EntryView { lru_rank: (all.len() - 1) as nat, ..all[i as int] });
                Some(found)
            },
        }
    }

    /// Stores an answer under the digest of its request.
    pub fn insert(
        &mut self,
        request: UnifiedRequest,
        response: UnifiedResponse,
        now_unix_ms: u64,
    ) -> (r: Result<(), PromptCacheError>)
        ensures
            final(self).config() == old(self).config(),
            match request_digest(request@) {
                Err(why) => {
                    &&& r matches Err(e) && says(e, why)
                    &&& final(self)@ == old(self)@
                },
                Ok(key) => {
                    &&& r is Ok
                    &&& final(self)@ == put_in(
                        old(self)@,
                        EntryView {
                            key,
                            request: request@,
                            response: response@,
                            stored_at: now_unix_ms,
                            expires_at: expiry(now_unix_ms, old(self).config().ttl),
                            lru_rank: 0,
                        },
                        now_unix_ms,
                        old(self).config().capacity as nat,
                    )
                },
            },
    {
        proof {
            use_type_invariant(&*self);
        }
        let key = digest_request(&request)?;
        let ghost all = self@;
        let mut entries: Vec<PromptCacheEntry> = Vec::new();
        assert(entry_views(entries@) =~= Seq::<EntryView>::empty());
        std::mem::swap(&mut entries, &mut self.entries);
        let millis: u64 = ((self.config.ttl.nanos / 1_000_000) % 0x1_0000_0000_0000_0000) as u64;
        let live = keep_live(entries, now_unix_ms);
        let mut rest = drop_key(live, key.as_str());
        let entry = PromptCacheEntry {
            key,
            request,
            response,
            stored_at_unix_ms: now_unix_ms,
            expires_at_unix_ms: now_unix_ms.saturating_add(millis),
            lru_rank: 0,
        };
        let ghost e = entry@;
        let ghost others = entry_views(rest@);
        rest.push(entry);
        assert(entry_views(rest@) =~= others.push(e));
        keep_newest(&mut rest, self.config.capacity);
        proof {
            lemma_put_in(all, e, now_unix_ms, self.config.capacity as nat);
        }
        self.entries = rest;
        Ok(())
    }

    /// How many entries the cache holds, those over their time included.
    pub fn len(&self) -> (r: usize)
        ensures
            r == self@.len(),
            is_cache(self@, self.config().capacity as nat),
    {
        proof {
            use_type_invariant(self);
        }
        self.entries.len()
    }

    /// Whether the cache holds no entry.
    pub fn is_empty(&self) -> (r: bool)
        ensures
            r == (self@.len() == 0),
    {
        self.entries.len() == 0
    }

    /// How many entries the cache holds at most.
    pub fn capacity(&self) -> (r: usize)
        ensures
            r == self.config().capacity,
    {
        self.config.capacity
    }

    /// The entries, those over their time included, the one that has gone unused longest first.
    pub fn entries(&self) -> (r: &Vec<PromptCacheEntry>)
        ensures
            entry_views(r@) == self@,
    {
        &self.entries
    }

    /// The live entries, in the order of their keys.
    pub fn snapshot(&self, now_unix_ms: u64) -> (r: PromptCacheSnapshot)
        ensures
            is_export(r@, self@, now_unix_ms),
    {
        proof {
            use_type_invariant(self);
            lemma_live_subset(self@, now_unix_ms);
        }
        let mut copies: Vec<PromptCacheEntry> = Vec::new();
        let mut i: usize = 0;
        while i < self.entries.len()
            invariant
                i <= self.entries@.len(),
                copies@.len() == i,
                forall|k: int| 0 <= k < i ==> (#[trigger] copies@[k])@ == self.entries@[k]@,
            decreases self.entries@.len() - i,
        {
            copies.push(self.entries[i].clone());
            i = i + 1;
        }
        assert(entry_views(copies@) =~= self@);
        let mut live = keep_live(copies, now_unix_ms);
        renumber(&mut live);
        sort_by_key(live)
    }

    /// Puts the live entries of a snapshot in place of the entries, unless the snapshot is
    /// refused: then the cache stays as it is.
    pub fn replace_snapshot(&mut self, snapshot: PromptCacheSnapshot, now_unix_ms: u64) -> (r: Result<
        PromptCacheImportReport,
        PromptCacheError,
    >)
        ensures
            final(self).config() == old(self).config(),
            match import_refusal(snapshot@) {
                Some(why) => {
                    &&& r matches Err(e) && says(e, why)
                    &&& final(self)@ == old(self)@
                },
                None => {
                    let ordered = by_rank(live(snapshot@, now_unix_ms), snapshot@.len());
                    let capacity = old(self).config().capacity as nat;
                    &&& final(self)@ == brought_in(snapshot@, now_unix_ms, capacity)
                    &&& r matches Ok(report)
                    &&& report.imported_entries == final(self)@.len()
                    &&& report.expired_entries == snapshot@.len() - ordered.len()
                    &&& report.capacity_evictions == ordered.len() - final(self)@.len()
                },
            },
    {
        proof {
            use_type_invariant(&*self);
        }
        validate_snapshot(&snapshot)?;
        let total: usize = snapshot.entries.len();
        let ghost all = snapshot@;
        proof {
            lemma_brought_in(all, now_unix_ms, self.config.capacity as nat);
            assert forall|i: int| 0 <= i < snapshot.entries@.len() implies (
            #[trigger] snapshot.entries@[i]).lru_rank < snapshot.entries@.len() by {
                assert(all[i].lru_rank == snapshot.entries@[i].lru_rank);
                assert(!rank_beyond(all));
            }
            law_ranks_order_all(all, now_unix_ms);
        }
        let mut entries = order_by_rank(snapshot.entries, now_unix_ms);
        let ghost ordered = entry_views(entries@);
        let alive: usize = entries.len();
        keep_newest(&mut entries, self.config.capacity);
        let ghost kept = entry_views(entries@);
        renumber(&mut entries);
        let imported: usize = entries.len();
        assert(entry_views(entries@).len() == imported);
        assert(ordered.len() == alive);
        self.entries = entries;
        Ok(
            PromptCacheImportReport {
                imported_entries: imported,
                expired_entries: total - alive,
                capacity_evictions: alive - imported,
            },
        )
    }
}

/// One entry more adds one to the entries in the order of ranks below `n`, where its rank is.
proof fn lemma_by_rank_grows(s: Seq<EntryView>, e: EntryView, n: nat)
    requires
        forall|i: int| 0 <= i < s.len() ==> (#[trigger] s[i]).lru_rank != e.lru_rank,
    ensures
        by_rank(s.push(e), n).len() == by_rank(s, n).len() + if e.lru_rank < n {
            1nat
        } else {
            0nat
        },
    decreases n,
{
    if n > 0 {
        let r = (n - 1) as nat;
        lemma_by_rank_grows(s, e, r);
        lemma_at_rank_push(s, e, r);
        lemma_at_rank(s, r);
        if e.lru_rank == r {
            if let Some(x) = at_rank(s, r) {
                let k = choose|k: int| 0 <= k < s.len() && s[k] == x;
                assert(s[k].lru_rank != e.lru_rank);
            }
        }
    }
}

/// Without entries there are none in the order of ranks.
proof fn lemma_by_rank_empty(n: nat)
    ensures
        by_rank(Seq::empty(), n).len() == 0,
    decreases n,
{
    if n > 0 {
        lemma_by_rank_empty((n - 1) as nat);
    }
}

/// Entries with distinct ranks below `n` are all in the order of ranks.
proof fn lemma_by_rank_len(s: Seq<EntryView>, n: nat)
    requires
        distinct_ranks(s),
        forall|i: int| 0 <= i < s.len() ==> (#[trigger] s[i]).lru_rank < n,
    ensures
        by_rank(s, n).len() == s.len(),
    decreases s.len(),
{
    if s.len() == 0 {
        lemma_by_rank_empty(n);
        assert(s =~= Seq::empty());
    } else {
        let before = s.drop_last();
        assert forall|i: int, j: int|
            0 <= i < before.len() && 0 <= j < before.len() && i != j implies (
        #[trigger] before[i]).lru_rank != (#[trigger] before[j]).lru_rank by {
            assert(s[i].lru_rank != s[j].lru_rank);
        }
        assert forall|i: int| 0 <= i < before.len() implies (#[trigger] before[i]).lru_rank < n by {
            assert(s[i].lru_rank < n);
        }
        lemma_by_rank_len(before, n);
        assert forall|i: int| 0 <= i < before.len() implies (#[trigger] before[i]).lru_rank
            != s.last().lru_rank by {
            assert(s[i].lru_rank != s[s.len() - 1].lru_rank);
        }
        lemma_by_rank_grows(before, s.last(), n);
        assert(before.push(s.last()) =~= s);
        assert(s[s.len() - 1].lru_rank < n);
    }
}

/// Live entries of distinct ranks have distinct ranks.
proof fn lemma_live_ranks(s: Seq<EntryView>, now: u64)
    requires
        distinct_ranks(s),
    ensures
        distinct_ranks(live(s, now)),
    decreases s.len(),
{
    if s.len() > 0 {
        let before = s.drop_last();
        assert(distinct_ranks(before)) by {
            assert forall|i: int, j: int|
                0 <= i < before.len() && 0 <= j < before.len() && i != j implies (
            #[trigger] before[i]).lru_rank != (#[trigger] before[j]).lru_rank by {
                assert(s[i].lru_rank != s[j].lru_rank);
            }
        }
        lemma_live_ranks(before, now);
        lemma_live_subset(before, now);
        let lb = live(before, now);
        let la = live(s, now);
        assert forall|i: int, j: int|
            0 <= i < la.len() && 0 <= j < la.len() && i != j implies (#[trigger] la[i]).lru_rank
            != (#[trigger] la[j]).lru_rank by {
            if i < lb.len() && j < lb.len() {
                assert(lb[i].lru_rank != lb[j].lru_rank);
            } else {
                let o = if i < lb.len() {
                    i
                } else {
                    j
                };
                assert(before.contains(lb[o]));
                let k = choose|k: int| 0 <= k < before.len() && before[k] == lb[o];
                assert(s[k].lru_rank != s[s.len() - 1].lru_rank);
            }
        }
    }
}

/// The ranks of a snapshot that is not refused order all its live entries: what is brought in,
/// what is over its time and what there is no room for are all that there is.
pub proof fn law_ranks_order_all(s: Seq<EntryView>, now: u64)
    requires
        import_refusal(s) is None,
    ensures
        by_rank(live(s, now), s.len()).len() == live(s, now).len(),
        live(s, now).len() <= s.len(),
{
    lemma_accepted(s, s.len() as int);
    lemma_live_subset(s, now);
    assert(distinct_ranks(s)) by {
        assert forall|i: int, j: int|
            0 <= i < s.len() && 0 <= j < s.len() && i != j implies (#[trigger] s[i]).lru_rank != (
        #[trigger] s[j]).lru_rank by {
            if i < j {
                assert(s[i].lru_rank != s[j].lru_rank);
            } else {
                assert(s[j].lru_rank != s[i].lru_rank);
            }
        }
    }
    lemma_live_ranks(s, now);
    let l = live(s, now);
    assert forall|i: int| 0 <= i < l.len() implies (#[trigger] l[i]).lru_rank < s.len() by {
        assert(s.contains(l[i]));
        let k = choose|k: int| 0 <= k < s.len() && s[k] == l[i];
        assert(!rank_beyond(s));
        assert(s[k].lru_rank < s.len());
    }
    lemma_by_rank_len(l, s.len());
}

/// Entries in the order of their keys.
fn sort_by_key(entries: Vec<PromptCacheEntry>) -> (r: PromptCacheSnapshot)
    requires
        distinct_keys(entry_views(entries@)),
    ensures
        r@.len() == entries@.len(),
        strictly_sorted(entry_keys(r@)),
        forall|i: int|
            0 <= i < entries@.len() ==> r@.contains(#[trigger] entry_views(entries@)[i]),
{
    let ghost all = entry_views(entries@);
    let mut map: StringMap<PromptCacheEntry> = StringMap::new();
    for entry in it: entries
        invariant
            it.seq() == entries@,
            all == entry_views(entries@),
            distinct_keys(all),
            map@.dom().finite(),
            map@.dom().len() == it.index(),
            forall|k: Seq<char>| #[trigger]
                map@.dom().contains(k) ==> exists|i: int|
                    0 <= i < it.index() && (#[trigger] all[i]).key == k,
            forall|i: int|
                0 <= i < it.index() ==> map@.dom().contains((#[trigger] all[i]).key)
                    && map@[all[i].key]@ == all[i],
    {
        let ghost i = it.index() as int;
        let ghost before = map@;
        assert(entry@ == all[i]);
        let key = entry.key.clone();
        proof {
            if before.dom().contains(key@) {
                let j = choose|j: int| 0 <= j < i && (#[trigger] all[j]).key == key@;
                assert(all[j].key != all[i].key);
            }
        }
        map.insert(key, entry);
        proof {
            assert forall|k: Seq<char>| #[trigger] map@.dom().contains(k) implies exists|j: int|
                0 <= j < i + 1 && (#[trigger] all[j]).key == k by {
                if k == all[i].key {
                    assert(all[i].key == k);
                } else {
                    assert(before.dom().contains(k));
                }
            }
            assert forall|j: int| 0 <= j < i + 1 implies map@.dom().contains(
                (#[trigger] all[j]).key,
            ) && map@[all[j].key]@ == all[j] by {
                if j < i {
                    assert(all[j].key != all[i].key);
                }
            }
        }
    }
    let ghost full = map;
    proof {
        use_type_invariant(&map);
        StringMap::lemma_view_len(map);
    }
    let sorted = map.into_entries();
    let ghost pairs = sorted@;
    let mut r: Vec<PromptCacheEntry> = Vec::new();
    for pair in it: sorted
        invariant
            it.seq() == pairs,
            r@.len() == it.index(),
            forall|k: int| 0 <= k < it.index() ==> (#[trigger] r@[k]) == pairs[k].1,
    {
        r.push(pair.1);
    }
    let snapshot = PromptCacheSnapshot { entries: r };
    proof {
        let view = snapshot@;
        assert forall|i: int| 0 <= i < all.len() implies view.contains(#[trigger] all[i]) by {
            let k = full.keys().index_of(all[i].key);
            assert(full@.dom().contains(all[i].key));
            assert(full.keys().contains(all[i].key));
            StringMap::lemma_view_at(full, k);
            assert(pairs[k].1 == full.values()[k]);
            assert(view[k] == all[i]);
        }
        assert forall|k: int| 0 <= k < view.len() implies #[trigger] entry_keys(view)[k]
            == full.keys()[k] by {
            StringMap::lemma_view_at(full, k);
            let key = full.keys()[k];
            assert(full@.dom().contains(key));
            let i = choose|i: int| 0 <= i < all.len() && (#[trigger] all[i]).key == key;
            assert(full@[all[i].key]@ == all[i]);
            assert(view[k] == pairs[k].1@);
        }
        assert(entry_keys(view) =~= full.keys());
    }
    snapshot
}

/// What was stored is found: a look for the digest of a request finds the answer that was
/// stored last, until its time is over.
pub proof fn law_stored_answers_are_found(
    s: Seq<EntryView>,
    e: EntryView,
    now: u64,
    later: u64,
    capacity: nat,
)
    requires
        is_cache(s, capacity),
        is_keyed(e),
        capacity > 0,
        later < e.expires_at,
    ensures
        hit(put_in(s, e, now, capacity), e.key, later) matches Some(found) && found.request
            == e.request && found.response == e.response && found.key == e.key,
{
    let after = put_in(s, e, now, capacity);
    lemma_put_in(s, e, now, capacity);
    let last = after.len() - 1;
    assert(after[last] == e);
    lemma_key_index(after, e.key, 0);
    if let Some(k) = key_index(after, e.key, 0) {
        if k != last {
            assert(after[k].key != after[last].key);
        }
    } else {
        assert(after[last].key != e.key);
    }
}

/// A look changes which entries there are only where the entry is over its time, and then that
/// entry alone goes; a look that finds nothing changes nothing else.
pub proof fn law_misses_change_nothing_else(s: Seq<EntryView>, key: Seq<char>, now: u64)
    requires
        distinct_keys(s),
        hit(s, key, now) is None,
    ensures
        key_index(s, key, 0) is None ==> looked_up(s, key, now) == s,
        key_index(s, key, 0) is Some ==> looked_up(s, key, now) == other_keys(s, key),
{
    lemma_key_index(s, key, 0);
    if let Some(k) = key_index(s, key, 0) {
        lemma_other_is_remove(s, key, k);
    }
}

/// Where one entry is under the key, the others are all but that one.
proof fn lemma_other_is_remove(s: Seq<EntryView>, key: Seq<char>, k: int)
    requires
        distinct_keys(s),
        0 <= k < s.len(),
        s[k].key == key,
    ensures
        other_keys(s, key) == s.remove(k),
    decreases s.len(),
{
    let before = s.drop_last();
    assert(distinct_keys(before)) by {
        assert forall|i: int, j: int|
            0 <= i < before.len() && 0 <= j < before.len() && i != j implies (
        #[trigger] before[i]).key != (#[trigger] before[j]).key by {
            assert(s[i].key != s[j].key);
        }
    }
    if k == s.len() - 1 {
        assert forall|i: int| 0 <= i < before.len() implies (#[trigger] before[i]).key != key by {
            assert(s[i].key != s[k].key);
        }
        lemma_others_are_all(before, key);
        assert(s.remove(k) =~= before);
    } else {
        lemma_other_is_remove(before, key, k);
        assert(s[s.len() - 1].key != s[k].key);
        assert(s.remove(k) =~= before.remove(k).push(s.last()));
    }
}

/// Where no entry is under the key, the others are all.
proof fn lemma_others_are_all(s: Seq<EntryView>, key: Seq<char>)
    requires
        forall|i: int| 0 <= i < s.len() ==> (#[trigger] s[i]).key != key,
    ensures
        other_keys(s, key) == s,
    decreases s.len(),
{
    if s.len() > 0 {
        let before = s.drop_last();
        assert forall|i: int| 0 <= i < before.len() implies (#[trigger] before[i]).key != key by {
            assert(s[i].key != key);
        }
        lemma_others_are_all(before, key);
        assert(s[s.len() - 1].key != key);
        assert(before.push(s.last()) =~= s);
    }
    assert(other_keys(s, key) =~= s);
}

/// The live entries of live entries are all of them.
proof fn lemma_live_again(s: Seq<EntryView>, now: u64)
    requires
        forall|i: int| 0 <= i < s.len() ==> (#[trigger] s[i]).expires_at > now,
    ensures
        live(s, now) == s,
    decreases s.len(),
{
    if s.len() > 0 {
        let before = s.drop_last();
        assert forall|i: int| 0 <= i < before.len() implies (#[trigger] before[i]).expires_at
            > now by {
            assert(s[i].expires_at > now);
        }
        lemma_live_again(before, now);
        assert(s[s.len() - 1].expires_at > now);
        assert(before.push(s.last()) =~= s);
    }
    assert(live(s, now) =~= s);
}

/// A snapshot holds nothing but the live entries with their ranks.
proof fn lemma_export_members(snapshot: Seq<EntryView>, s: Seq<EntryView>, now: u64)
    requires
        is_export(snapshot, s, now),
        distinct_keys(s),
    ensures
        forall|i: int|
            0 <= i < snapshot.len() ==> ranked(live(s, now)).contains(#[trigger] snapshot[i]),
        distinct_keys(snapshot),
{
    let entries = ranked(live(s, now));
    lemma_live_subset(s, now);
    assert(distinct_keys(snapshot)) by {
        assert forall|i: int, j: int|
            0 <= i < snapshot.len() && 0 <= j < snapshot.len() && i != j implies (
        #[trigger] snapshot[i]).key != (#[trigger] snapshot[j]).key by {
            if snapshot[i].key == snapshot[j].key {
                assert(entry_keys(snapshot)[i] == entry_keys(snapshot)[j]);
                crate::string_map::lemma_strictly_sorted_distinct(entry_keys(snapshot), i, j);
            }
        }
    }
    assert(entries.no_duplicates()) by {
        assert forall|i: int, j: int|
            0 <= i < entries.len() && 0 <= j < entries.len() && i != j implies entries[i]
            != entries[j] by {
            assert(live(s, now)[i].key != live(s, now)[j].key);
        }
    }
    assert(snapshot.no_duplicates()) by {
        assert forall|i: int, j: int|
            0 <= i < snapshot.len() && 0 <= j < snapshot.len() && i != j implies snapshot[i]
            != snapshot[j] by {
            assert(snapshot[i].key != snapshot[j].key);
        }
    }
    entries.unique_seq_to_set();
    snapshot.unique_seq_to_set();
    vstd::seq_lib::seq_to_set_is_finite(entries);
    vstd::seq_lib::seq_to_set_is_finite(snapshot);
    assert(entries.to_set().subset_of(snapshot.to_set())) by {
        assert forall|x: EntryView| entries.to_set().contains(x) implies snapshot.to_set().contains(
            x,
        ) by {
            assert(entries.contains(x));
            let i = choose|i: int| 0 <= i < entries.len() && entries[i] == x;
            assert(snapshot.contains(entries[i]));
        }
    }
    vstd::set_lib::lemma_subset_equality(entries.to_set(), snapshot.to_set());
    assert forall|i: int| 0 <= i < snapshot.len() implies entries.contains(
        #[trigger] snapshot[i],
    ) by {
        assert(snapshot.to_set().contains(snapshot[i]));
        assert(entries.to_set().contains(snapshot[i]));
    }
}

/// Entries whose ranks are their places are in the order of their ranks.
proof fn lemma_by_rank_places(snapshot: Seq<EntryView>, entries: Seq<EntryView>, n: nat)
    requires
        n <= entries.len(),
        forall|i: int| 0 <= i < entries.len() ==> (#[trigger] entries[i]).lru_rank == i,
        forall|i: int| 0 <= i < entries.len() ==> snapshot.contains(#[trigger] entries[i]),
        forall|i: int| 0 <= i < snapshot.len() ==> entries.contains(#[trigger] snapshot[i]),
    ensures
        by_rank(snapshot, n) == entries.take(n as int),
    decreases n,
{
    if n > 0 {
        let r = (n - 1) as nat;
        lemma_by_rank_places(snapshot, entries, r);
        lemma_at_rank(snapshot, r);
        match at_rank(snapshot, r) {
            Some(e) => {
                let i = choose|i: int| 0 <= i < snapshot.len() && snapshot[i] == e;
                assert(entries.contains(snapshot[i]));
                let k = choose|k: int| 0 <= k < entries.len() && entries[k] == snapshot[i];
                assert(entries[k].lru_rank == k);
                assert(e == entries[r as int]);
            },
            None => {
                assert(snapshot.contains(entries[r as int]));
                let i = choose|i: int| 0 <= i < snapshot.len() && snapshot[i] == entries[r as int];
                assert(snapshot[i].lru_rank != r);
            },
        }
        assert(entries.take(n as int) =~= entries.take(r as int).push(entries[r as int]));
    } else {
        assert(entries.take(0) =~= Seq::<EntryView>::empty());
    }
}

/// Where no entry is refused, the entries are not.
proof fn lemma_no_entry_refused(s: Seq<EntryView>, n: int)
    requires
        forall|i: int| 0 <= i < n ==> #[trigger] entry_refusal(s, i) is None,
    ensures
        entries_refusal(s, n) is None,
    decreases n,
{
    if n > 0 {
        lemma_no_entry_refused(s, n - 1);
        assert(entry_refusal(s, n - 1) is None);
    }
}

/// A snapshot can always be brought back in, at the time at which it was taken: nothing of it
/// is refused, and a cache that has room for the live entries holds them again, in the order in
/// which they were used; one that has less holds those that were used last. Nothing may have been
/// stored later than that time.
pub proof fn law_snapshots_come_back(
    s: Seq<EntryView>,
    snapshot: Seq<EntryView>,
    now: u64,
    capacity: nat,
    room: nat,
)
    requires
        is_cache(s, capacity),
        forall|i: int| 0 <= i < s.len() ==> (#[trigger] s[i]).stored_at <= now,
        is_export(snapshot, s, now),
    ensures
        import_refusal(snapshot) is None,
        brought_in(snapshot, now, room) == ranked(newest(ranked(live(s, now)), room)),
        live(s, now).len() <= room ==> brought_in(snapshot, now, room) == ranked(live(s, now)),
{
    let l = live(s, now);
    let entries = ranked(l);
    lemma_live_subset(s, now);
    lemma_export_members(snapshot, s, now);
    assert forall|i: int| 0 <= i < snapshot.len() implies #[trigger] entry_refusal(
        snapshot,
        i,
    ) is None by {
        let e = snapshot[i];
        assert(entries.contains(snapshot[i]));
        let k = choose|k: int| 0 <= k < entries.len() && entries[k] == e;
        assert(s.contains(l[k]));
        let j = choose|j: int| 0 <= j < s.len() && s[j] == l[k];
        assert(is_keyed(s[j]));
        assert(!key_before(snapshot, i)) by {
            if key_before(snapshot, i) {
                let m = choose|m: int| 0 <= m < i && (#[trigger] snapshot[m]).key
                    == snapshot[i].key;
                assert(snapshot[m].key != snapshot[i].key);
            }
        }
        assert(!rank_before(snapshot, i)) by {
            if rank_before(snapshot, i) {
                let m = choose|m: int| 0 <= m < i && (#[trigger] snapshot[m]).lru_rank
                    == snapshot[i].lru_rank;
                assert(entries.contains(snapshot[m]));
                let x = choose|x: int| 0 <= x < entries.len() && entries[x] == snapshot[m];
                assert(x == k);
                assert(snapshot[m].key != snapshot[i].key);
            }
        }
    }
    lemma_no_entry_refused(snapshot, snapshot.len() as int);
    assert(!rank_beyond(snapshot)) by {
        assert forall|i: int| 0 <= i < snapshot.len() implies (#[trigger] snapshot[i]).lru_rank
            < snapshot.len() by {
            assert(entries.contains(snapshot[i]));
        }
    }
    assert forall|i: int| 0 <= i < snapshot.len() implies (#[trigger] snapshot[i]).expires_at
        > now by {
        assert(entries.contains(snapshot[i]));
        let k = choose|k: int| 0 <= k < entries.len() && entries[k] == snapshot[i];
        assert(l[k].expires_at > now);
    }
    lemma_live_again(snapshot, now);
    lemma_by_rank_places(snapshot, entries, snapshot.len());
    assert(entries.take(entries.len() as int) =~= entries);
    assert(ranked(entries) =~= entries);
}

} // verus!

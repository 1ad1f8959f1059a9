//! What the prompt cache is for: what it finds, what goes, and what it takes back in.

use crate::plugins::prompt_cache::{
    at_rank, brought_in, by_rank, distinct_keys, distinct_ranks, entries_refusal, entry_refusal,
    expiry, hit, import_refusal, is_cache, is_export, is_hex, is_hex_key, key_before, key_index,
    live, looked_up, lower_hex, newest, other_keys, put_in, rank_before, rank_beyond, ranked,
    request_digest, CacheRefusal, EntryView,
};
use crate::time::TimeSpan;
use vstd::prelude::*;

verus! {

/// Where a key is found first.
proof fn lemma_key_index(s: Seq<EntryView>, key: Seq<char>, from: int)
    requires
        0 <= from <= s.len(),
    ensures
        match key_index(s, key, from) {
            Some(i) => from <= i < s.len() && s[i].key == key && forall|k: int|
                from <= k < i ==> (#[trigger] s[k]).key != key,
            None => forall|k: int| from <= k < s.len() ==> (#[trigger] s[k]).key != key,
        },
    decreases s.len() - from,
{
    if from < s.len() && s[from].key != key {
        lemma_key_index(s, key, from + 1);
    }
}

/// An answer is found exactly where one is kept under the key whose time is not over, and it is
/// that answer. From then on it is the one that was used last, and the others keep their order.
pub proof fn law_fresh_answers_are_found(s: Seq<EntryView>, i: int, now: u64)
    requires
        distinct_keys(s),
        0 <= i < s.len(),
    ensures
        hit(s, s[i].key, now) is Some <==> s[i].expires_at > now,
        hit(s, s[i].key, now) matches Some(e) ==> {
            &&& e.key == s[i].key
            &&& e.request == s[i].request
            &&& e.response == s[i].response
            &&& e.stored_at == s[i].stored_at
            &&& e.expires_at == s[i].expires_at
            &&& looked_up(s, s[i].key, now).len() == s.len()
            &&& looked_up(s, s[i].key, now).last() == s[i]
            &&& forall|k: int|
                0 <= k < i ==> #[trigger] looked_up(s, s[i].key, now)[k] == s[k]
            &&& forall|k: int|
                i <= k < s.len() - 1 ==> #[trigger] looked_up(s, s[i].key, now)[k] == s[k + 1]
        },
        hit(s, s[i].key, now) is None ==> {
            &&& looked_up(s, s[i].key, now).len() == s.len() - 1
            &&& forall|k: int|
                0 <= k < i ==> #[trigger] looked_up(s, s[i].key, now)[k] == s[k]
            &&& forall|k: int|
                i <= k < s.len() - 1 ==> #[trigger] looked_up(s, s[i].key, now)[k] == s[k + 1]
        },
{
    lemma_key_index(s, s[i].key, 0);
    let j = key_index(s, s[i].key, 0)->0;
    assert(s[i].key == s[i].key);
    assert(key_index(s, s[i].key, 0) is Some);
    assert(s[j].key == s[i].key);
    assert(j == i);
}

/// Nothing is found under a key that nothing is kept under, and nothing changes.
pub proof fn law_unknown_keys_are_missed(s: Seq<EntryView>, key: Seq<char>, now: u64)
    requires
        forall|i: int| 0 <= i < s.len() ==> (#[trigger] s[i]).key != key,
    ensures
        hit(s, key, now) is None,
        looked_up(s, key, now) == s,
{
    lemma_key_index(s, key, 0);
}

/// Where nothing is over its time, all is live.
proof fn lemma_all_live(s: Seq<EntryView>, now: u64)
    requires
        forall|i: int| 0 <= i < s.len() ==> (#[trigger] s[i]).expires_at > now,
    ensures
        live(s, now) == s,
    decreases s.len(),
{
    if s.len() > 0 {
        assert(s[s.len() - 1].expires_at > now);
        let rest = s.drop_last();
        assert forall|i: int| 0 <= i < rest.len() implies (#[trigger] rest[i]).expires_at > now by {
            assert(rest[i] == s[i]);
        }
        lemma_all_live(rest, now);
        assert(rest.push(s.last()) =~= s);
    } else {
        assert(live(s, now) =~= s);
    }
}

/// What is live is there, and its time is not over.
proof fn lemma_live_holds(s: Seq<EntryView>, now: u64, x: EntryView)
    ensures
        live(s, now).contains(x) <==> s.contains(x) && x.expires_at > now,
        live(s, now).len() <= s.len(),
    decreases s.len(),
{
    if s.len() > 0 {
        let rest = s.drop_last();
        lemma_live_holds(rest, now, x);
        assert(s =~= rest.push(s.last()));
        lemma_push_holds(rest, s.last(), x);
        lemma_push_holds(live(rest, now), s.last(), x);
    }
}

/// What a longer sequence holds.
proof fn lemma_push_holds(s: Seq<EntryView>, e: EntryView, x: EntryView)
    ensures
        s.push(e).contains(x) <==> s.contains(x) || x == e,
{
    let t = s.push(e);
    if s.contains(x) {
        let k = choose|k: int| 0 <= k < s.len() && s[k] == x;
        assert(t[k] == x);
    }
    assert(t[s.len() as int] == e);
    if t.contains(x) {
        let k = choose|k: int| 0 <= k < t.len() && t[k] == x;
        if k < s.len() {
            assert(s[k] == x);
        }
    }
}

/// What is kept under other keys.
proof fn lemma_other_holds(s: Seq<EntryView>, key: Seq<char>, x: EntryView)
    ensures
        other_keys(s, key).contains(x) <==> s.contains(x) && x.key != key,
        other_keys(s, key).len() <= s.len(),
    decreases s.len(),
{
    if s.len() > 0 {
        let rest = s.drop_last();
        lemma_other_holds(rest, key, x);
        assert(s =~= rest.push(s.last()));
        lemma_push_holds(rest, s.last(), x);
        lemma_push_holds(other_keys(rest, key), s.last(), x);
    }
}

/// Where nothing is kept under a key, all is kept under others.
proof fn lemma_all_other(s: Seq<EntryView>, key: Seq<char>)
    requires
        forall|i: int| 0 <= i < s.len() ==> (#[trigger] s[i]).key != key,
    ensures
        other_keys(s, key) == s,
    decreases s.len(),
{
    if s.len() > 0 {
        assert(s[s.len() - 1].key != key);
        let rest = s.drop_last();
        assert forall|i: int| 0 <= i < rest.len() implies (#[trigger] rest[i]).key != key by {
            assert(rest[i] == s[i]);
        }
        lemma_all_other(rest, key);
        assert(rest.push(s.last()) =~= s);
    } else {
        assert(other_keys(s, key) =~= s);
    }
}

/// All but the one entry is kept under other keys.
proof fn lemma_all_but_one(s: Seq<EntryView>, i: int)
    requires
        distinct_keys(s),
        0 <= i < s.len(),
    ensures
        other_keys(s, s[i].key) == s.remove(i),
    decreases s.len(),
{
    let rest = s.drop_last();
    let key = s[i].key;
    if i == s.len() - 1 {
        assert forall|k: int| 0 <= k < rest.len() implies (#[trigger] rest[k]).key != key by {
            assert(rest[k] == s[k]);
            assert(s[k].key != s[i].key);
        }
        lemma_all_other(rest, key);
        assert(s.remove(i) =~= rest);
    } else {
        assert(s[s.len() - 1].key != s[i].key);
        assert forall|a: int, b: int|
            0 <= a < rest.len() && 0 <= b < rest.len() && a != b implies (#[trigger] rest[a]).key
            != (#[trigger] rest[b]).key by {
            assert(rest[a] == s[a] && rest[b] == s[b]);
        }
        assert(rest[i] == s[i]);
        lemma_all_but_one(rest, i);
        assert(rest.remove(i).push(s.last()) =~= s.remove(i));
    }
}

/// What is stored is the one that was used last. Where there is room, nothing else goes; where
/// there is none, the one that was used longest ago goes, and it alone; and what was kept under
/// the same key is replaced.
pub proof fn law_the_least_recently_used_goes(
    s: Seq<EntryView>,
    e: EntryView,
    now: u64,
    capacity: nat,
    i: int,
)
    requires
        distinct_keys(s),
        s.len() <= capacity,
        0 < capacity,
        forall|k: int| 0 <= k < s.len() ==> (#[trigger] s[k]).expires_at > now,
    ensures
        ({
            let unknown = forall|k: int| 0 <= k < s.len() ==> (#[trigger] s[k]).key != e.key;
            let after = put_in(s, e, now, capacity);
            &&& after.len() > 0 && after.last() == e
            &&& unknown && s.len() < capacity ==> after == s.push(e)
            &&& unknown && s.len() == capacity ==> after == s.drop_first().push(e)
            &&& 0 <= i < s.len() && s[i].key == e.key ==> after == s.remove(i).push(e)
        }),
{
    lemma_all_live(s, now);
    let kept = other_keys(s, e.key);
    lemma_other_holds(s, e.key, e);
    let all = kept.push(e);
    assert(newest(all, capacity).last() == e);
    if forall|k: int| 0 <= k < s.len() ==> (#[trigger] s[k]).key != e.key {
        lemma_all_other(s, e.key);
        if s.len() == capacity {
            assert(s.push(e).skip(1) =~= s.drop_first().push(e));
        }
    }
    if 0 <= i < s.len() && s[i].key == e.key {
        lemma_all_but_one(s, i);
    }
}

/// An answer that was just used is not the one that goes: where there is room for two, it is
/// still kept after another is stored.
pub proof fn law_used_answers_stay(
    s: Seq<EntryView>,
    e: EntryView,
    now: u64,
    capacity: nat,
    i: int,
)
    requires
        distinct_keys(s),
        s.len() <= capacity,
        2 <= capacity,
        forall|k: int| 0 <= k < s.len() ==> (#[trigger] s[k]).expires_at > now,
        0 <= i < s.len(),
        s[i].key != e.key,
    ensures
        put_in(looked_up(s, s[i].key, now), e, now, capacity).contains(s[i]),
{
    law_fresh_answers_are_found(s, i, now);
    let used = looked_up(s, s[i].key, now);
    lemma_key_index(s, s[i].key, 0);
    let kept = other_keys(live(used, now), e.key);
    let n = used.len() as int;
    assert(used[n - 1] == s[i]);
    assert(live(used, now) == live(used.drop_last(), now).push(s[i]));
    assert(live(used, now).drop_last() =~= live(used.drop_last(), now));
    assert(kept.last() == s[i]);
    let all = kept.push(e);
    let after = put_in(used, e, now, capacity);
    assert(all[all.len() - 2] == s[i]);
    if all.len() > capacity {
        assert(after[capacity - 2] == s[i]);
    } else {
        assert(after[all.len() - 2] == s[i]);
    }
}

/// After something is stored, all that is kept is that and what was kept before, whose time is
/// not over; and no more than there is room for.
pub proof fn law_only_live_answers_are_kept(
    s: Seq<EntryView>,
    e: EntryView,
    now: u64,
    capacity: nat,
    x: EntryView,
)
    ensures
        put_in(s, e, now, capacity).len() <= capacity,
        put_in(s, e, now, capacity).contains(x) ==> x == e || (s.contains(x) && x.expires_at > now
            && x.key != e.key),
        s.len() < capacity && s.contains(x) && x.expires_at > now && x.key != e.key ==> put_in(
            s,
            e,
            now,
            capacity,
        ).contains(x),
{
    let fresh = live(s, now);
    let kept = other_keys(fresh, e.key);
    lemma_live_holds(s, now, x);
    lemma_other_holds(fresh, e.key, x);
    lemma_push_holds(kept, e, x);
    let all = kept.push(e);
    let after = newest(all, capacity);
    if after.contains(x) {
        let k = choose|k: int| 0 <= k < after.len() && after[k] == x;
        if all.len() > capacity {
            assert(all[k + all.len() - capacity] == x);
        }
        assert(all.contains(x));
    }
}

/// An answer is kept for the time that was set, in whole milliseconds, and no longer than time is
/// counted.
pub proof fn law_answers_are_kept_for_their_time(now: u64, ttl: TimeSpan)
    requires
        ttl.nanos < 0x1_0000_0000_0000_0000 * 1_000_000,
    ensures
        ({
            let until = expiry(now, ttl);
            &&& until >= now
            &&& (until - now) * 1_000_000 <= ttl.nanos
            &&& until < u64::MAX ==> ttl.nanos < (until - now + 1) * 1_000_000
        }),
{
    let ms = (ttl.nanos / 1_000_000) as int;
    assert(0 <= ms < 0x1_0000_0000_0000_0000);
    assert(ms % 0x1_0000_0000_0000_0000 == ms) by (nonlinear_arith)
        requires
            0 <= ms < 0x1_0000_0000_0000_0000,
    ;
}

/// The value of a hexadecimal digit.
pub open spec fn hex_value(c: char) -> int {
    if '0' <= c <= '9' {
        c as u32 - '0' as u32
    } else {
        c as u32 - 'a' as u32 + 10
    }
}

/// A key is written in two lower-case digits for each byte, which say it.
pub proof fn law_keys_say_their_bytes(bytes: Seq<u8>, i: int)
    requires
        0 <= i < bytes.len(),
    ensures
        ({
            let text = lower_hex(bytes);
            &&& text.len() == 2 * bytes.len()
            &&& is_hex(text[2 * i]) && is_hex(text[2 * i + 1])
            &&& hex_value(text[2 * i]) * 16 + hex_value(text[2 * i + 1]) == bytes[i]
        }),
    decreases bytes.len(),
{
    let rest = bytes.drop_last();
    let n = rest.len() as int;
    lemma_hex_len(rest);
    if i < n {
        law_keys_say_their_bytes(rest, i);
        assert(lower_hex(bytes)[2 * i] == lower_hex(rest)[2 * i]);
        assert(lower_hex(bytes)[2 * i + 1] == lower_hex(rest)[2 * i + 1]);
    } else {
        let x = bytes.last();
        reveal_strlit("0123456789abcdef");
        assert(0 <= x / 16 < 16 && 0 <= x % 16 < 16);
        lemma_hex_digit((x / 16) as int);
        lemma_hex_digit((x % 16) as int);
        assert(lower_hex(bytes)[2 * i] == "0123456789abcdef"@[(x / 16) as int]);
        assert(lower_hex(bytes)[2 * i + 1] == "0123456789abcdef"@[(x % 16) as int]);
    }
}

/// Two digits for each byte.
proof fn lemma_hex_len(bytes: Seq<u8>)
    ensures
        lower_hex(bytes).len() == 2 * bytes.len(),
    decreases bytes.len(),
{
    if bytes.len() > 0 {
        lemma_hex_len(bytes.drop_last());
    }
}

/// A digit says its value.
proof fn lemma_hex_digit(d: int)
    requires
        0 <= d < 16,
    ensures
        is_hex("0123456789abcdef"@[d]),
        hex_value("0123456789abcdef"@[d]) == d,
{
    reveal_strlit("0123456789abcdef");
    if d == 0 {
    } else if d == 1 {
    } else if d == 2 {
    } else if d == 3 {
    } else if d == 4 {
    } else if d == 5 {
    } else if d == 6 {
    } else if d == 7 {
    } else if d == 8 {
    } else if d == 9 {
    } else if d == 10 {
    } else if d == 11 {
    } else if d == 12 {
    } else if d == 13 {
    } else if d == 14 {
    } else {
    }
}

/// An entry that can be taken in: its key is the digest of its request, and it is kept for some
/// time.
pub open spec fn is_honest(e: EntryView) -> bool {
    &&& e.key.len() == 64
    &&& forall|i: int|
        0 <= i < e.key.len() ==> '0' <= #[trigger] e.key[i] <= '9' || 'a' <= e.key[i] <= 'f'
    &&& e.stored_at < e.expires_at
    &&& request_digest(e.request) == Ok::<Seq<char>, CacheRefusal>(e.key)
}

/// An entry is refused exactly where it is not honest, or shares its key or its rank with one
/// before it.
proof fn lemma_entry(s: Seq<EntryView>, i: int)
    requires
        0 <= i < s.len(),
    ensures
        entry_refusal(s, i) is None <==> is_honest(s[i]) && !key_before(s, i) && !rank_before(s, i),
{
    let key = s[i].key;
    if is_hex_key(key) {
        assert forall|k: int| 0 <= k < key.len() implies '0' <= #[trigger] key[k] <= '9' || 'a'
            <= key[k] <= 'f' by {
            assert(is_hex(key[k]));
        }
    }
    if is_honest(s[i]) {
        assert forall|k: int| 0 <= k < key.len() implies is_hex(#[trigger] key[k]) by {}
    }
}

/// Entries are refused exactly where one of them is.
proof fn lemma_entries(s: Seq<EntryView>, n: int)
    requires
        0 <= n <= s.len(),
    ensures
        entries_refusal(s, n) is None <==> forall|i: int|
            0 <= i < n ==> #[trigger] entry_refusal(s, i) is None,
    decreases n,
{
    if n > 0 {
        lemma_entries(s, n - 1);
    }
}

/// A snapshot is taken in exactly where all of its entries are honest, no two share a key or a
/// rank, and the ranks leave no gap.
pub proof fn law_honest_snapshots_are_taken_in(s: Seq<EntryView>)
    ensures
        import_refusal(s) is None <==> {
            &&& forall|i: int| 0 <= i < s.len() ==> is_honest(#[trigger] s[i])
            &&& forall|i: int, j: int|
                0 <= i < j < s.len() ==> (#[trigger] s[i]).key != (#[trigger] s[j]).key
            &&& forall|i: int, j: int|
                0 <= i < j < s.len() ==> (#[trigger] s[i]).lru_rank != (#[trigger] s[j]).lru_rank
            &&& forall|i: int| 0 <= i < s.len() ==> (#[trigger] s[i]).lru_rank < s.len()
        },
{
    let n = s.len() as int;
    lemma_entries(s, n);
    if import_refusal(s) is None {
        assert forall|i: int| 0 <= i < s.len() implies is_honest(#[trigger] s[i]) by {
            assert(entry_refusal(s, i) is None);
            lemma_entry(s, i);
        }
        assert forall|i: int, j: int| 0 <= i < j < s.len() implies (#[trigger] s[i]).key != (
        #[trigger] s[j]).key by {
            assert(entry_refusal(s, j) is None);
            lemma_entry(s, j);
            assert(!key_before(s, j));
        }
        assert forall|i: int, j: int| 0 <= i < j < s.len() implies (#[trigger] s[i]).lru_rank != (
        #[trigger] s[j]).lru_rank by {
            assert(entry_refusal(s, j) is None);
            lemma_entry(s, j);
            assert(!rank_before(s, j));
        }
        assert forall|i: int| 0 <= i < s.len() implies (#[trigger] s[i]).lru_rank < s.len() by {
            assert(!rank_beyond(s));
        }
    } else {
        if (forall|i: int| 0 <= i < s.len() ==> is_honest(#[trigger] s[i])) && (forall|
            i: int,
            j: int,
        |
            0 <= i < j < s.len() ==> (#[trigger] s[i]).key != (#[trigger] s[j]).key) && (forall|
            i: int,
            j: int,
        |
            0 <= i < j < s.len() ==> (#[trigger] s[i]).lru_rank != (#[trigger] s[j]).lru_rank) {
            assert forall|i: int| 0 <= i < n implies #[trigger] entry_refusal(s, i) is None by {
                lemma_entry(s, i);
                assert(is_honest(s[i]));
            }
        }
    }
}

/// What is found under a rank.
proof fn lemma_at_rank(s: Seq<EntryView>, rank: nat)
    ensures
        match at_rank(s, rank) {
            Some(e) => s.contains(e) && e.lru_rank == rank,
            None => forall|i: int| 0 <= i < s.len() ==> (#[trigger] s[i]).lru_rank != rank,
        },
    decreases s.len(),
{
    if s.len() > 0 && s.last().lru_rank != rank {
        let rest = s.drop_last();
        lemma_at_rank(rest, rank);
        match at_rank(rest, rank) {
            Some(e) => {
                let k = choose|k: int| 0 <= k < rest.len() && rest[k] == e;
                assert(s[k] == e);
            },
            None => {
                assert forall|i: int| 0 <= i < s.len() implies (#[trigger] s[i]).lru_rank != rank by {
                    if i < rest.len() {
                        assert(rest[i] == s[i]);
                    }
                }
            },
        }
    } else if s.len() > 0 {
        assert(s[s.len() - 1] == s.last());
    }
}

/// Entries by rank are all there, in the order of their ranks.
proof fn lemma_by_rank(s: Seq<EntryView>, n: nat)
    requires
        distinct_ranks(s),
    ensures
        ({
            let r = by_rank(s, n);
            &&& forall|i: int|
                0 <= i < r.len() ==> s.contains(#[trigger] r[i]) && r[i].lru_rank < n
            &&& forall|i: int, j: int|
                0 <= i < j < r.len() ==> (#[trigger] r[i]).lru_rank < (#[trigger] r[j]).lru_rank
            &&& forall|k: int|
                0 <= k < s.len() && (#[trigger] s[k]).lru_rank < n ==> r.contains(s[k])
        }),
    decreases n,
{
    if n > 0 {
        let m = (n - 1) as nat;
        lemma_by_rank(s, m);
        lemma_at_rank(s, m);
        let before = by_rank(s, m);
        let r = by_rank(s, n);
        assert forall|k: int| 0 <= k < s.len() && (#[trigger] s[k]).lru_rank < n implies r.contains(
            s[k],
        ) by {
            if s[k].lru_rank < m {
                let x = choose|x: int| 0 <= x < before.len() && before[x] == s[k];
                assert(r[x] == s[k]);
            } else {
                let e = at_rank(s, m)->0;
                let x = choose|x: int| 0 <= x < s.len() && s[x] == e;
                assert(s[x].lru_rank == s[k].lru_rank);
                assert(x == k);
                assert(r[r.len() - 1] == s[k]);
            }
        }
    }
}

/// An entry is the one that came in at a place, with the rank that it has there.
pub open spec fn came_in(e: EntryView, r: Seq<EntryView>, i: int) -> bool {
    0 <= i < r.len() && r[i] == (EntryView { lru_rank: i as nat, ..e })
}

/// What is taken in is what is live, in the order in which it was used, and where there is no room
/// for all of it, what was used last.
pub proof fn law_live_entries_are_taken_in(
    s: Seq<EntryView>,
    now: u64,
    capacity: nat,
    a: int,
    b: int,
)
    requires
        import_refusal(s) is None,
        0 <= a < s.len(),
        0 <= b < s.len(),
        s[b].expires_at > now,
        s[a].lru_rank < s[b].lru_rank,
    ensures
        ({
            let r = brought_in(s, now, capacity);
            &&& r.len() <= capacity
            &&& s[a].expires_at <= now ==> forall|i: int| !came_in(s[a], r, i)
            &&& forall|i: int|
                came_in(s[a], r, i) ==> exists|j: int| i < j && came_in(s[b], r, j)
            &&& r.len() < capacity ==> exists|j: int| came_in(s[b], r, j)
        }),
{
    let fresh = live(s, now);
    law_honest_snapshots_are_taken_in(s);
    lemma_live_ranks(s, now);
    lemma_by_rank(fresh, s.len());
    let order = by_rank(fresh, s.len());
    let kept = newest(order, capacity);
    let r = brought_in(s, now, capacity);
    let gone = order.len() - kept.len();
    assert forall|k: int| 0 <= k < kept.len() implies #[trigger] kept[k] == order[k + gone] by {}
    lemma_live_holds(s, now, s[b]);
    let fb = choose|x: int| 0 <= x < fresh.len() && fresh[x] == s[b];
    assert(fresh[fb].lru_rank < s.len());
    assert(order.contains(s[b]));
    let ob = choose|x: int| 0 <= x < order.len() && order[x] == s[b];
    assert forall|i: int| came_in(s[a], r, i) implies s[a].expires_at > now && exists|j: int|
        i < j && came_in(s[b], r, j) by {
        let src = order[i + gone];
        assert(kept[i] == src);
        assert(fresh.contains(src));
        lemma_live_holds(s, now, src);
        assert(src.key == s[a].key);
        let x = choose|x: int| 0 <= x < s.len() && s[x] == src;
        assert(s[x].key == s[a].key);
        if x < a {
            assert(s[x].key != s[a].key);
        }
        if a < x {
            assert(s[a].key != s[x].key);
        }
        assert(x == a);
        if ob <= i + gone {
            if ob < i + gone {
                assert(order[ob].lru_rank < order[i + gone].lru_rank);
            }
        }
        assert(kept[ob - gone] == s[b]);
        assert(came_in(s[b], r, ob - gone));
    }
    if r.len() < capacity {
        assert(gone == 0);
        assert(kept[ob] == s[b]);
        assert(came_in(s[b], r, ob));
    }
}

/// What is live keeps its ranks apart.
proof fn lemma_live_ranks(s: Seq<EntryView>, now: u64)
    requires
        distinct_ranks(s),
    ensures
        distinct_ranks(live(s, now)),
    decreases s.len(),
{
    if s.len() > 0 {
        let rest = s.drop_last();
        assert forall|i: int, j: int|
            0 <= i < rest.len() && 0 <= j < rest.len() && i != j implies (
        #[trigger] rest[i]).lru_rank != (#[trigger] rest[j]).lru_rank by {
            assert(rest[i] == s[i] && rest[j] == s[j]);
        }
        lemma_live_ranks(rest, now);
        let fresh = live(rest, now);
        assert forall|i: int| 0 <= i < fresh.len() implies (#[trigger] fresh[i]).lru_rank
            != s.last().lru_rank by {
            lemma_live_holds(rest, now, fresh[i]);
            assert(fresh.contains(fresh[i]));
            let k = choose|k: int| 0 <= k < rest.len() && rest[k] == fresh[i];
            assert(s[k] == fresh[i]);
            assert(s[s.len() - 1].lru_rank != s[k].lru_rank);
        }
    }
}

/// A snapshot holds every answer whose time is not over, under its key, and no more than is kept.
pub proof fn law_snapshots_hold_what_is_live(
    s: Seq<EntryView>,
    snapshot: Seq<EntryView>,
    now: u64,
    capacity: nat,
    i: int,
)
    requires
        is_cache(s, capacity),
        is_export(snapshot, s, now),
        0 <= i < s.len(),
    ensures
        snapshot.len() <= s.len(),
        s[i].expires_at > now ==> exists|j: int|
            0 <= j < snapshot.len() && (#[trigger] snapshot[j]).key == s[i].key
                && snapshot[j].request == s[i].request && snapshot[j].response == s[i].response
                && snapshot[j].stored_at == s[i].stored_at && snapshot[j].expires_at
                == s[i].expires_at,
{
    let fresh = live(s, now);
    lemma_live_holds(s, now, s[i]);
    assert(s.contains(s[i]));
    if s[i].expires_at > now {
        let k = choose|k: int| 0 <= k < fresh.len() && fresh[k] == s[i];
        let entries = ranked(fresh);
        assert(snapshot.contains(entries[k]));
        let j = choose|j: int| 0 <= j < snapshot.len() && snapshot[j] == entries[k];
        assert(snapshot[j].key == s[i].key);
    }
}

} // verus!

//! A map from text to values that keeps its keys in order.

use crate::text::{
    lemma_text_less_irreflexive, lemma_text_less_total, lemma_text_less_transitive, str_eq, str_less,
    text_less,
};
use vstd::prelude::*;

verus! {

/// Keys in strictly increasing order: sorted, and none twice.
pub open spec fn strictly_sorted(keys: Seq<Seq<char>>) -> bool {
    forall|i: int, j: int|
        0 <= i < j < keys.len() ==> text_less(#[trigger] keys[i], #[trigger] keys[j])
}

/// A strictly sorted sequence holds nothing twice.
pub proof fn lemma_strictly_sorted_distinct(keys: Seq<Seq<char>>, i: int, j: int)
    requires
        strictly_sorted(keys),
        0 <= i < keys.len(),
        0 <= j < keys.len(),
        keys[i] == keys[j],
    ensures
        i == j,
{
    lemma_text_less_irreflexive(keys[i]);
    if i < j {
        assert(text_less(keys[i], keys[j]));
    } else if j < i {
        assert(text_less(keys[j], keys[i]));
    }
}

/// Two strictly sorted sequences with the same elements are equal.
pub proof fn lemma_strictly_sorted_unique(a: Seq<Seq<char>>, b: Seq<Seq<char>>)
    requires
        strictly_sorted(a),
        strictly_sorted(b),
        forall|k: Seq<char>| #[trigger] a.contains(k) <==> b.contains(k),
    ensures
        a == b,
    decreases a.len(),
{
    if a.len() == 0 {
        if b.len() > 0 {
            assert(b.contains(b[0]));
            assert(a.contains(b[0]));
        }
        assert(a =~= b);
    } else {
        assert(a.contains(a[0]));
        assert(b.contains(a[0]));
        let p = choose|p: int| 0 <= p < b.len() && b[p] == a[0];
        assert(b.contains(b[0]));
        assert(a.contains(b[0]));
        let q = choose|q: int| 0 <= q < a.len() && a[q] == b[0];
        if a[0] != b[0] {
            assert(text_less(b[0], b[p]));
            assert(text_less(a[0], a[q]));
            lemma_text_less_transitive(a[0], b[0], a[0]);
            lemma_text_less_irreflexive(a[0]);
        }
        let ra = a.drop_first();
        let rb = b.drop_first();
        assert forall|k: Seq<char>| #[trigger] ra.contains(k) implies rb.contains(k) by {
            let i = choose|i: int| 0 <= i < ra.len() && ra[i] == k;
            assert(a[i + 1] == k);
            assert(a.contains(k));
            assert(b.contains(k));
            let j = choose|j: int| 0 <= j < b.len() && b[j] == k;
            if j == 0 {
                lemma_strictly_sorted_distinct(a, 0, i + 1);
            }
            assert(rb[j - 1] == k);
        }
        assert forall|k: Seq<char>| #[trigger] rb.contains(k) implies ra.contains(k) by {
            let i = choose|i: int| 0 <= i < rb.len() && rb[i] == k;
            assert(b[i + 1] == k);
            assert(b.contains(k));
            assert(a.contains(k));
            let j = choose|j: int| 0 <= j < a.len() && a[j] == k;
            if j == 0 {
                lemma_strictly_sorted_distinct(b, 0, i + 1);
            }
            assert(ra[j - 1] == k);
        }
        assert forall|i: int, j: int| 0 <= i < j < ra.len() implies text_less(
            #[trigger] ra[i],
            #[trigger] ra[j],
        ) by {
            assert(text_less(a[i + 1], a[j + 1]));
        }
        assert forall|i: int, j: int| 0 <= i < j < rb.len() implies text_less(
            #[trigger] rb[i],
            #[trigger] rb[j],
        ) by {
            assert(text_less(b[i + 1], b[j + 1]));
        }
        lemma_strictly_sorted_unique(ra, rb);
        assert(a =~= seq![a[0]] + ra);
        assert(b =~= seq![b[0]] + rb);
    }
}

/// A map from text to values, held as entries in increasing key order.
#[derive(Debug, PartialEq, Eq)]
pub struct StringMap<V> {
    entries: Vec<(String, V)>,
}

/// The map that `keys` and `values` describe, position by position.
pub open spec fn zip_map<V>(keys: Seq<Seq<char>>, values: Seq<V>) -> Map<Seq<char>, V> {
    Map::new(|k: Seq<char>| keys.contains(k), |k: Seq<char>| values[keys.index_of(k)])
}

/// The map that results when each pair is put in, in order.
pub open spec fn insert_all<V>(pairs: Seq<(String, V)>) -> Map<Seq<char>, V>
    decreases pairs.len(),
{
    if pairs.len() == 0 {
        Map::empty()
    } else {
        insert_all(pairs.drop_last()).insert(pairs.last().0@, pairs.last().1)
    }
}

impl<V> View for StringMap<V> {
    type V = Map<Seq<char>, V>;

    open spec fn view(&self) -> Map<Seq<char>, V> {
        zip_map(self.keys(), self.values())
    }
}

impl<V> StringMap<V> {
    /// The keys in order.
    pub closed spec fn keys(&self) -> Seq<Seq<char>> {
        Seq::new(self.entries@.len(), |i: int| self.entries@[i].0@)
    }

    /// The values in the order of their keys.
    pub closed spec fn values(&self) -> Seq<V> {
        Seq::new(self.entries@.len(), |i: int| self.entries@[i].1)
    }

    /// The order that every map of this type keeps.
    #[verifier::type_invariant]
    pub open spec fn ordered(&self) -> bool {
        &&& strictly_sorted(self.keys())
        &&& self.keys().len() == self.values().len()
    }

    /// A map is larger than each value that it holds.
    pub proof fn lemma_value_decreases(m: StringMap<V>, i: int)
        requires
            0 <= i < m.values().len(),
        ensures
            decreases_to!(m => m.values()[i]),
    {
        assert(decreases_to!(m => m.entries@));
        assert(decreases_to!(m.entries@ => m.entries@[i]));
        assert(decreases_to!(m.entries@[i] => m.entries@[i].1));
    }

    /// What the map holds at the key in position `i`.
    pub proof fn lemma_view_at(m: StringMap<V>, i: int)
        requires
            m.ordered(),
            0 <= i < m.keys().len(),
        ensures
            m@.dom().contains(m.keys()[i]),
            m@[m.keys()[i]] == m.values()[i],
            m.keys().contains(m.keys()[i]),
    {
        lemma_zip_map_at(m.keys(), m.values(), i);
    }

    /// The key set is finite and as large as the map is long.
    pub proof fn lemma_view_len(m: StringMap<V>)
        requires
            m.ordered(),
        ensures
            m@.dom().finite(),
            m@.dom().len() == m.keys().len(),
            m@.dom() == m.keys().to_set(),
    {
        assert(m.keys().no_duplicates()) by {
            assert forall|i: int, j: int|
                0 <= i < m.keys().len() && 0 <= j < m.keys().len() && i
                    != j implies m.keys()[i] != m.keys()[j] by {
                if m.keys()[i] == m.keys()[j] {
                    lemma_strictly_sorted_distinct(m.keys(), i, j);
                }
            }
        }
        m.keys().unique_seq_to_set();
        assert(m@.dom() =~= m.keys().to_set());
        vstd::seq_lib::seq_to_set_is_finite(m.keys());
    }

    /// An empty map.
    pub fn new() -> (r: Self)
        ensures
            r@ == Map::<Seq<char>, V>::empty(),
            r.keys() == Seq::<Seq<char>>::empty(),
    {
        let entries: Vec<(String, V)> = Vec::new();
        let r = StringMap { entries };
        assert(r.keys() =~= Seq::<Seq<char>>::empty());
        assert(r@ =~= Map::<Seq<char>, V>::empty());
        r
    }

    /// An empty map with room for `capacity` entries, or for 65536 where that is fewer.
    pub fn with_capacity(capacity: usize) -> (r: Self)
        ensures
            r@ == Map::<Seq<char>, V>::empty(),
            r.keys() == Seq::<Seq<char>>::empty(),
    {
        let room: usize = if capacity < 65536 { capacity } else { 65536 };
        let entries: Vec<(String, V)> = Vec::with_capacity(room);
        let r = StringMap { entries };
        assert(r.keys() =~= Seq::<Seq<char>>::empty());
        assert(r@ =~= Map::<Seq<char>, V>::empty());
        r
    }

    /// Makes room for `additional` entries more, or for 65536 where that is fewer.
    pub fn reserve(&mut self, additional: usize)
        ensures
            final(self)@ == old(self)@,
            final(self).keys() == old(self).keys(),
            final(self).values() == old(self).values(),
    {
        proof {
            use_type_invariant(&*self);
        }
        let ghost before = *self;
        let room: usize = if additional < 65536 { additional } else { 65536 };
        let mut entries: Vec<(String, V)> = Vec::new();
        std::mem::swap(&mut entries, &mut self.entries);
        entries.reserve(room);
        proof {
            let after = StringMap { entries };
            assert(after.keys() =~= before.keys());
            assert(after.values() =~= before.values());
        }
        self.entries = entries;
    }

    /// The number of entries.
    pub fn len(&self) -> (r: usize)
        ensures
            r == self.keys().len(),
            r == self@.dom().len(),
            self@.dom().finite(),
    {
        proof {
            use_type_invariant(self);
            Self::lemma_view_len(*self);
        }
        self.entries.len()
    }

    /// Whether the map has no entry.
    pub fn is_empty(&self) -> (r: bool)
        ensures
            r == (self.keys().len() == 0),
            r == (self@.dom() == Set::<Seq<char>>::empty()),
    {
        proof {
            use_type_invariant(self);
            if self.keys().len() > 0 {
                Self::lemma_view_at(*self, 0);
            } else {
                assert(self@.dom() =~= Set::<Seq<char>>::empty());
            }
        }
        self.entries.len() == 0
    }

    /// The key in position `i` of the key order.
    pub fn key_at(&self, i: usize) -> (r: &String)
        requires
            i < self.keys().len(),
        ensures
            r@ == self.keys()[i as int],
            self@.dom().contains(r@),
    {
        proof {
            use_type_invariant(self);
            Self::lemma_view_at(*self, i as int);
        }
        &self.entries[i].0
    }

    /// The value of the key in position `i` of the key order.
    pub fn value_at(&self, i: usize) -> (r: &V)
        requires
            i < self.keys().len(),
        ensures
            *r == self.values()[i as int],
            *r == self@[self.keys()[i as int]],
    {
        proof {
            use_type_invariant(self);
            Self::lemma_view_at(*self, i as int);
        }
        &self.entries[i].1
    }

    /// The first position whose key is not before `key`, and whether `key` stands there.
    fn position(&self, key: &str) -> (r: (usize, bool))
        ensures
            r.0 <= self.keys().len(),
            r.1 ==> r.0 < self.keys().len() && self.keys()[r.0 as int] == key@,
            r.1 == self.keys().contains(key@),
            forall|i: int| 0 <= i < r.0 ==> text_less(#[trigger] self.keys()[i], key@),
            !r.1 ==> forall|i: int|
                r.0 <= i < self.keys().len() ==> text_less(key@, #[trigger] self.keys()[i]),
    {
        proof {
            use_type_invariant(self);
        }
        let ghost keys = self.keys();
        let mut low: usize = 0;
        let mut high: usize = self.entries.len();
        while low < high
            invariant
                low <= high <= self.entries.len(),
                keys == self.keys(),
                keys.len() == self.entries.len(),
                strictly_sorted(keys),
                forall|i: int| 0 <= i < low ==> text_less(#[trigger] keys[i], key@),
                forall|i: int| high <= i < keys.len() ==> !text_less(#[trigger] keys[i], key@),
            decreases high - low,
        {
            let mid: usize = low + (high - low) / 2;
            let less = str_less(self.entries[mid].0.as_str(), key);
            if less {
                proof {
                    assert forall|i: int| 0 <= i <= mid implies text_less(
                        #[trigger] keys[i],
                        key@,
                    ) by {
                        if i < mid {
                            lemma_text_less_transitive(keys[i], keys[mid as int], key@);
                        }
                    }
                }
                low = mid + 1;
            } else {
                proof {
                    assert forall|i: int| mid <= i < keys.len() implies !text_less(
                        #[trigger] keys[i],
                        key@,
                    ) by {
                        if mid < i && text_less(keys[i], key@) {
                            lemma_text_less_transitive(keys[mid as int], keys[i], key@);
                        }
                    }
                }
                high = mid;
            }
        }
        let found = low < self.entries.len() && str_eq(self.entries[low].0.as_str(), key);
        proof {
            if found {
                assert(keys[low as int] == key@);
            } else {
                assert forall|i: int| 0 <= i < keys.len() implies #[trigger] keys[i] != key@ by {
                    if keys[i] == key@ {
                        lemma_text_less_irreflexive(key@);
                        if i > low {
                            lemma_text_less_total(keys[low as int], key@);
                            assert(text_less(keys[low as int], keys[i]));
                        }
                    }
                }
                assert forall|i: int| low <= i < keys.len() implies text_less(
                    key@,
                    #[trigger] keys[i],
                ) by {
                    lemma_text_less_total(keys[i], key@);
                }
            }
        }
        (low, found)
    }

    /// The value of `key`.
    pub fn get(&self, key: &str) -> (r: Option<&V>)
        ensures
            r is Some <==> self@.dom().contains(key@),
            r matches Some(v) ==> *v == self@[key@],
    {
        let at = self.position(key);
        if at.1 {
            let i: usize = at.0;
            proof {
                use_type_invariant(self);
                Self::lemma_view_at(*self, i as int);
            }
            Some(&self.entries[i].1)
        } else {
            None
        }
    }

    /// Whether `key` has a value.
    pub fn contains_key(&self, key: &str) -> (r: bool)
        ensures
            r == self@.dom().contains(key@),
    {
        let at = self.position(key);
        at.1
    }

    /// Gives `key` the value `value`, and returns the value that it had.
    pub fn insert(&mut self, key: String, value: V) -> (r: Option<V>)
        ensures
            final(self)@ == old(self)@.insert(key@, value),
            r is Some <==> old(self)@.dom().contains(key@),
            r matches Some(v) ==> v == old(self)@[key@],
    {
        let ghost before = *self;
        proof {
            use_type_invariant(&*self);
        }
        let at = self.position(key.as_str());
        let i: usize = at.0;
        let mut entries: Vec<(String, V)> = Vec::new();
        std::mem::swap(&mut entries, &mut self.entries);
        let ghost k = key@;
        if at.1 {
            let old_entry = entries.remove(i);
            entries.insert(i, (key, value));
            proof {
                let after = StringMap { entries };
                assert(after.keys() =~= before.keys());
                assert(after.values() =~= before.values().update(i as int, value));
                Self::lemma_view_at(before, i as int);
                assert forall|q: Seq<char>| after.keys().contains(q) implies
                    #[trigger] after@[q] == before@.insert(k, value)[q] by {
                    let j = after.keys().index_of(q);
                    lemma_zip_map_at(after.keys(), after.values(), j);
                    Self::lemma_view_at(before, j);
                    if q == k {
                        lemma_strictly_sorted_distinct(before.keys(), i as int, j);
                    }
                }
                assert(after@ =~= before@.insert(k, value));
            }
            self.entries = entries;
            Some(old_entry.1)
        } else {
            entries.insert(i, (key, value));
            proof {
                let after = StringMap { entries };
                assert(after.keys() =~= before.keys().insert(i as int, k));
                assert(after.values() =~= before.values().insert(i as int, value));
                lemma_sorted_insert(before.keys(), i as int, k);
                assert(after.keys()[i as int] == k);
                lemma_zip_map_at(after.keys(), after.values(), i as int);
                assert forall|q: Seq<char>| #[trigger] after.keys().contains(q) implies
                    q == k || before.keys().contains(q) by {
                    let j = after.keys().index_of(q);
                    if j < i {
                        assert(before.keys()[j] == q);
                    } else if j > i {
                        assert(before.keys()[j - 1] == q);
                    }
                }
                assert forall|q: Seq<char>| #[trigger] before.keys().contains(q) implies
                    after.keys().contains(q) && after@[q] == before@[q] by {
                    let j = before.keys().index_of(q);
                    Self::lemma_view_at(before, j);
                    if j < i {
                        assert(after.keys()[j] == q);
                        lemma_zip_map_at(after.keys(), after.values(), j);
                    } else {
                        assert(after.keys()[j + 1] == q);
                        lemma_zip_map_at(after.keys(), after.values(), j + 1);
                    }
                }
                assert(after@ =~= before@.insert(k, value));
            }
            self.entries = entries;
            None
        }
    }

    /// Takes `key` out of the map, and returns the value that it had.
    pub fn remove(&mut self, key: &str) -> (r: Option<V>)
        ensures
            final(self)@ == old(self)@.remove(key@),
            r is Some <==> old(self)@.dom().contains(key@),
            r matches Some(v) ==> v == old(self)@[key@],
    {
        let ghost before = *self;
        proof {
            use_type_invariant(&*self);
        }
        let at = self.position(key);
        if at.1 {
            let i: usize = at.0;
            let mut entries: Vec<(String, V)> = Vec::new();
            std::mem::swap(&mut entries, &mut self.entries);
            let entry = entries.remove(i);
            proof {
                let after = StringMap { entries };
                let k = key@;
                assert(after.keys() =~= before.keys().remove(i as int));
                assert(after.values() =~= before.values().remove(i as int));
                Self::lemma_view_at(before, i as int);
                lemma_sorted_remove(before.keys(), i as int);
                assert forall|q: Seq<char>| #[trigger] after.keys().contains(q) implies
                    q != k && before.keys().contains(q) && after@[q] == before@[q] by {
                    let j = after.keys().index_of(q);
                    lemma_zip_map_at(after.keys(), after.values(), j);
                    let b = if j < i { j } else { j + 1 };
                    assert(before.keys()[b] == q);
                    Self::lemma_view_at(before, b);
                    if q == k {
                        lemma_strictly_sorted_distinct(before.keys(), i as int, b);
                    }
                }
                assert forall|q: Seq<char>| #[trigger] before.keys().contains(q) && q != k implies
                    after.keys().contains(q) by {
                    let j = before.keys().index_of(q);
                    if j < i {
                        assert(after.keys()[j] == q);
                    } else {
                        assert(after.keys()[j - 1] == q);
                    }
                }
                assert(after@ =~= before@.remove(k));
            }
            self.entries = entries;
            Some(entry.1)
        } else {
            proof {
                assert(self@ =~= before@.remove(key@));
            }
            None
        }
    }

    /// The entries in key order.
    pub fn entries(&self) -> (r: &Vec<(String, V)>)
        ensures
            r@.len() == self.keys().len(),
            self.ordered(),
            forall|i: int|
                0 <= i < r@.len() ==> (#[trigger] r@[i]).0@ == self.keys()[i] && r@[i].1
                    == self.values()[i],
    {
        proof {
            use_type_invariant(self);
        }
        &self.entries
    }

    /// The map that takes each pair in turn; of two pairs with one key the later one counts.
    pub fn from_pairs(pairs: Vec<(String, V)>) -> (r: Self)
        ensures
            r@ == insert_all(pairs@),
    {
        let mut r: StringMap<V> = StringMap::new();
        let ghost all = pairs@;
        let mut rest = pairs;
        let mut taken: Vec<(String, V)> = Vec::new();
        while rest.len() > 0
            invariant
                rest@.len() + taken@.len() == all.len(),
                forall|i: int| 0 <= i < rest@.len() ==> #[trigger] rest@[i] == all[i],
                forall|i: int|
                    0 <= i < taken@.len() ==> #[trigger] taken@[i] == all[all.len() - 1 - i],
            decreases rest@.len(),
        {
            let last = rest.pop();
            if let Some(pair) = last {
                taken.push(pair);
            }
        }
        assert(all.take(0) =~= Seq::<(String, V)>::empty());
        while taken.len() > 0
            invariant
                taken@.len() <= all.len(),
                forall|i: int|
                    0 <= i < taken@.len() ==> #[trigger] taken@[i] == all[all.len() - 1 - i],
                r@ == insert_all(all.take(all.len() - taken@.len())),
            decreases taken@.len(),
        {
            let ghost done = all.len() - taken@.len();
            let next = taken.pop();
            if let Some(pair) = next {
                assert(all.take(done + 1).drop_last() =~= all.take(done));
                assert(all.take(done + 1).last() == pair);
                r.insert(pair.0, pair.1);
            }
        }
        assert(all.take(all.len() as int) =~= all);
        r
    }

    /// The entries in key order.
    pub fn into_entries(self) -> (r: Vec<(String, V)>)
        ensures
            r@.len() == self.keys().len(),
            self.ordered(),
            forall|i: int|
                0 <= i < r@.len() ==> (#[trigger] r@[i]).0@ == self.keys()[i] && r@[i].1
                    == self.values()[i],
    {
        proof {
            use_type_invariant(&self);
        }
        self.entries
    }

    /// The map with the given entries, which are in increasing key order.
    pub fn from_entries(entries: Vec<(String, V)>) -> (r: Self)
        requires
            strictly_sorted(Seq::new(entries@.len(), |i: int| entries@[i].0@)),
        ensures
            r.keys() == Seq::new(entries@.len(), |i: int| entries@[i].0@),
            r.values() == Seq::new(entries@.len(), |i: int| entries@[i].1),
    {
        proof {
            let r = StringMap { entries };
            assert(r.keys() =~= Seq::new(entries@.len(), |i: int| entries@[i].0@));
        }
        let r = StringMap { entries };
        assert(r.keys() =~= Seq::new(entries@.len(), |i: int| entries@[i].0@));
        assert(r.values() =~= Seq::new(entries@.len(), |i: int| entries@[i].1));
        r
    }
}

/// In strictly sorted keys, the position of a key is the only one.
pub proof fn lemma_zip_map_at<V>(keys: Seq<Seq<char>>, values: Seq<V>, i: int)
    requires
        strictly_sorted(keys),
        0 <= i < keys.len(),
    ensures
        keys.contains(keys[i]),
        keys.index_of(keys[i]) == i,
        zip_map(keys, values).dom().contains(keys[i]),
        zip_map(keys, values)[keys[i]] == values[i],
{
    assert(keys.contains(keys[i]));
    lemma_strictly_sorted_distinct(keys, i, keys.index_of(keys[i]));
}

/// A key put between the smaller and the larger keys keeps the order.
pub proof fn lemma_sorted_insert(keys: Seq<Seq<char>>, at: int, key: Seq<char>)
    requires
        strictly_sorted(keys),
        0 <= at <= keys.len(),
        forall|i: int| 0 <= i < at ==> text_less(#[trigger] keys[i], key),
        forall|i: int| at <= i < keys.len() ==> text_less(key, #[trigger] keys[i]),
    ensures
        strictly_sorted(keys.insert(at, key)),
{
    let r = keys.insert(at, key);
    assert forall|i: int, j: int| 0 <= i < j < r.len() implies text_less(
        #[trigger] r[i],
        #[trigger] r[j],
    ) by {
        let a = if i < at { i } else { i - 1 };
        let b = if j < at { j } else { j - 1 };
        if i != at && j != at {
            assert(r[i] == keys[a] && r[j] == keys[b]);
        } else if i == at {
            assert(r[j] == keys[j - 1]);
        } else {
            assert(r[i] == keys[i]);
        }
    }
}

/// A key taken out keeps the order.
pub proof fn lemma_sorted_remove(keys: Seq<Seq<char>>, at: int)
    requires
        strictly_sorted(keys),
        0 <= at < keys.len(),
    ensures
        strictly_sorted(keys.remove(at)),
{
    let r = keys.remove(at);
    assert forall|i: int, j: int| 0 <= i < j < r.len() implies text_less(
        #[trigger] r[i],
        #[trigger] r[j],
    ) by {
        let a = if i < at { i } else { i + 1 };
        let b = if j < at { j } else { j + 1 };
        assert(r[i] == keys[a] && r[j] == keys[b]);
    }
}

} // verus!

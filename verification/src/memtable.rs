//! The in-memory write buffer: an ordered mapping from key to value in which
//! a deleted key leaves a tombstone.

use crate::key_order::{
    compare_bytes, lemma_precedes_asymmetric, lemma_precedes_total, lemma_precedes_transitive,
    precedes, Order,
};
use vstd::prelude::*;

verus! {

/// Entries that hold a value at which `HashMemtable::set` hands its contents
/// back and starts empty again.
pub const MAX_ENTRY: usize = 3;

/// A key that is ordered, compared and stored by a byte string.
pub trait StoreKey {
    /// The byte string that stands for the key.
    spec fn key_bytes(&self) -> Seq<u8>;

    /// The key's bytes.
    fn as_byte_slice(&self) -> (bytes: &[u8])
        ensures
            bytes@ == self.key_bytes(),
    ;
}

impl StoreKey for String {
    /// A string is ordered and stored by its UTF-8 encoding.
    open spec fn key_bytes(&self) -> Seq<u8> {
        vstd::utf8::encode_utf8(self@)
    }

    fn as_byte_slice(&self) -> (bytes: &[u8]) {
        self.as_str().as_bytes()
    }
}

impl<'a> StoreKey for &'a str {
    /// A string slice is ordered and stored by its UTF-8 encoding.
    open spec fn key_bytes(&self) -> Seq<u8> {
        vstd::utf8::encode_utf8(self@)
    }

    fn as_byte_slice(&self) -> (bytes: &[u8]) {
        self.as_bytes()
    }
}

impl StoreKey for Vec<u8> {
    /// A byte string is its own key.
    open spec fn key_bytes(&self) -> Seq<u8> {
        self@
    }

    fn as_byte_slice(&self) -> (bytes: &[u8]) {
        self.as_slice()
    }
}

/// What a buffer or a snapshot knows of one key.
#[derive(Debug, PartialEq, Eq)]
pub enum GetResult<V> {
    /// The key holds this value.
    Found(V),
    /// The key was deleted: older values of it must not be looked for.
    Deleted,
    /// Nothing is known of the key.
    NotFound,
}

/// The entries of a buffer in key order: each key with its value, or with
/// `None` where it was deleted.
pub type EntrySeq<V> = Seq<(Seq<u8>, Option<V>)>;

/// The keys of `s` are strictly increasing, so none occurs twice.
pub open spec fn sorted<V>(s: EntrySeq<V>) -> bool {
    forall|i: int, j: int| 0 <= i < j < s.len() ==> precedes(#[trigger] s[i].0, #[trigger] s[j].0)
}

/// `k` is the key of the entry at `i`.
pub open spec fn holds_at<V>(s: EntrySeq<V>, k: Seq<u8>, i: int) -> bool {
    0 <= i < s.len() && s[i].0 == k
}

/// The entries as a map from key to value or tombstone.
pub open spec fn as_map<V>(s: EntrySeq<V>) -> Map<Seq<u8>, Option<V>> {
    Map::new(
        |k: Seq<u8>| exists|i: int| holds_at(s, k, i),
        |k: Seq<u8>| s[choose|i: int| holds_at(s, k, i)].1,
    )
}

/// The number of entries of `s` that hold a value.
pub open spec fn live_count<V>(s: EntrySeq<V>) -> nat
    decreases s.len(),
{
    if s.len() == 0 {
        0
    } else {
        live_count(s.drop_last()) + if s.last().1 is Some {
            1nat
        } else {
            0nat
        }
    }
}

/// What a state knows of `k`.
pub open spec fn lookup<V>(m: Map<Seq<u8>, Option<V>>, k: Seq<u8>) -> GetResult<V> {
    if !m.contains_key(k) {
        GetResult::NotFound
    } else {
        match m[k] {
            Some(v) => GetResult::Found(v),
            None => GetResult::Deleted,
        }
    }
}

/// The keys of a state that hold a value, each with its value.
pub open spec fn mapping_of<V>(m: Map<Seq<u8>, Option<V>>) -> Map<Seq<u8>, V> {
    Map::new(|k: Seq<u8>| m.contains_key(k) && m[k] is Some, |k: Seq<u8>| m[k]->0)
}

/// The number of keys of a state that hold a value.
pub open spec fn entry_count<V>(m: Map<Seq<u8>, Option<V>>) -> nat {
    mapping_of(m).dom().len()
}

/// The keys of a state that were deleted.
pub open spec fn tombstones_of<V>(m: Map<Seq<u8>, Option<V>>) -> Set<Seq<u8>> {
    Set::new(|k: Seq<u8>| m.contains_key(k) && m[k] is None)
}

/// In sorted entries the entry at `i` is the one its key maps to.
pub proof fn lemma_as_map_at<V>(s: EntrySeq<V>, i: int)
    requires
        sorted(s),
        0 <= i < s.len(),
    ensures
        as_map(s).contains_key(s[i].0),
        as_map(s)[s[i].0] == s[i].1,
{
    let k = s[i].0;
    assert(holds_at(s, k, i));
    let j = choose|j: int| holds_at(s, k, j);
    if j < i {
        lemma_precedes_asymmetric(s[j].0, s[i].0);
    } else if i < j {
        lemma_precedes_asymmetric(s[i].0, s[j].0);
    }
}

/// Putting a new key at its place in sorted entries keeps them sorted and
/// adds the key to the map.
pub proof fn lemma_insert_entry<V>(s: EntrySeq<V>, p: int, k: Seq<u8>, e: Option<V>)
    requires
        sorted(s),
        0 <= p <= s.len(),
        forall|i: int| 0 <= i < p ==> precedes(#[trigger] s[i].0, k),
        forall|i: int| p <= i < s.len() ==> precedes(k, #[trigger] s[i].0),
    ensures
        sorted(s.insert(p, (k, e))),
        as_map(s.insert(p, (k, e))) == as_map(s).insert(k, e),
        live_count(s.insert(p, (k, e))) == live_count(s) + if e is Some {
            1nat
        } else {
            0nat
        },
{
    let t = s.insert(p, (k, e));
    assert forall|i: int, j: int| 0 <= i < j < t.len() implies precedes(
        #[trigger] t[i].0,
        #[trigger] t[j].0,
    ) by {
        let si = if i < p { i } else { i - 1 };
        let sj = if j < p { j } else { j - 1 };
        if i != p && j != p {
            assert(t[i] == s[si] && t[j] == s[sj]);
            assert(precedes(s[si].0, s[sj].0));
        } else if i == p {
            assert(t[j] == s[sj]);
        } else {
            assert(t[i] == s[si]);
        }
    }
    assert forall|q: Seq<u8>| as_map(t).contains_key(q) <==> as_map(s).insert(
        k,
        e,
    ).contains_key(q) by {
        if as_map(t).contains_key(q) {
            let i = choose|i: int| holds_at(t, q, i);
            if i < p {
                assert(holds_at(s, q, i));
            } else if i > p {
                assert(holds_at(s, q, i - 1));
            }
        }
        if as_map(s).contains_key(q) {
            let i = choose|i: int| holds_at(s, q, i);
            if i < p {
                assert(holds_at(t, q, i));
            } else {
                assert(holds_at(t, q, i + 1));
            }
        }
        if q == k {
            assert(holds_at(t, q, p));
        }
    }
    assert forall|q: Seq<u8>| as_map(t).contains_key(q) implies as_map(t)[q] == as_map(s).insert(
        k,
        e,
    )[q] by {
        let i = choose|i: int| holds_at(t, q, i);
        lemma_as_map_at(t, i);
        if i < p {
            lemma_as_map_at(s, i);
            lemma_precedes_asymmetric(s[i].0, k);
        } else if i > p {
            lemma_as_map_at(s, i - 1);
            lemma_precedes_asymmetric(k, s[i - 1].0);
        }
    }
    assert(as_map(t) =~= as_map(s).insert(k, e));
    lemma_live_count_insert(s, p, (k, e));
}

/// Replacing the entry of a key in sorted entries keeps them sorted and
/// gives the key its new entry in the map.
pub proof fn lemma_update_entry<V>(s: EntrySeq<V>, p: int, e: Option<V>)
    requires
        sorted(s),
        0 <= p < s.len(),
    ensures
        sorted(s.update(p, (s[p].0, e))),
        as_map(s.update(p, (s[p].0, e))) == as_map(s).insert(s[p].0, e),
        live_count(s.update(p, (s[p].0, e))) + (if s[p].1 is Some {
            1nat
        } else {
            0nat
        }) == live_count(s) + if e is Some {
            1nat
        } else {
            0nat
        },
{
    let k = s[p].0;
    let t = s.update(p, (k, e));
    assert forall|i: int, j: int| 0 <= i < j < t.len() implies precedes(
        #[trigger] t[i].0,
        #[trigger] t[j].0,
    ) by {
        assert(t[i].0 == s[i].0 && t[j].0 == s[j].0);
    }
    assert forall|q: Seq<u8>| as_map(t).contains_key(q) <==> as_map(s).insert(
        k,
        e,
    ).contains_key(q) by {
        if as_map(t).contains_key(q) {
            let i = choose|i: int| holds_at(t, q, i);
            assert(holds_at(s, q, i));
        }
        if as_map(s).contains_key(q) {
            let i = choose|i: int| holds_at(s, q, i);
            assert(holds_at(t, q, i));
        }
        if q == k {
            assert(holds_at(t, q, p));
        }
    }
    assert forall|q: Seq<u8>| as_map(t).contains_key(q) implies as_map(t)[q] == as_map(s).insert(
        k,
        e,
    )[q] by {
        let i = choose|i: int| holds_at(t, q, i);
        lemma_as_map_at(t, i);
        if i != p {
            lemma_as_map_at(s, i);
            if i < p {
                lemma_precedes_asymmetric(s[i].0, k);
            } else {
                lemma_precedes_asymmetric(k, s[i].0);
            }
        }
    }
    assert(as_map(t) =~= as_map(s).insert(k, e));
    lemma_live_count_insert(s.remove(p), p, (k, e));
    lemma_live_count_insert(s.remove(p), p, s[p]);
    assert(s.remove(p).insert(p, (k, e)) =~= t);
    assert(s.remove(p).insert(p, s[p]) =~= s);
}

/// An entry put anywhere into a sequence counts as live where it holds a
/// value.
proof fn lemma_live_count_insert<V>(s: EntrySeq<V>, p: int, x: (Seq<u8>, Option<V>))
    requires
        0 <= p <= s.len(),
    ensures
        live_count(s.insert(p, x)) == live_count(s) + if x.1 is Some {
            1nat
        } else {
            0nat
        },
    decreases s.len(),
{
    let t = s.insert(p, x);
    if p == s.len() {
        assert(t.drop_last() =~= s);
    } else {
        assert(t.drop_last() =~= s.drop_last().insert(p, x));
        lemma_live_count_insert(s.drop_last(), p, x);
    }
}

/// Tombstone precedence: a key that is deleted is not found, whatever was
/// set before, the key itself included.
pub proof fn law_tombstone_precedence<V>(state: Map<Seq<u8>, Option<V>>, key: Seq<u8>, value: V)
    ensures
        lookup(state.insert(key, None), key) == GetResult::<V>::Deleted,
        lookup(state.insert(key, Some(value)).insert(key, None), key) == GetResult::<V>::Deleted,
{
}

/// A key holds a value or a tombstone, never both.
pub proof fn law_value_or_tombstone<V>(state: Map<Seq<u8>, Option<V>>, key: Seq<u8>)
    ensures
        !(mapping_of(state).contains_key(key) && tombstones_of(state).contains(key)),
{
}

/// Setting a key puts it into the mapping and takes its tombstone away.
pub proof fn lemma_set_in_both_views<V>(state: Map<Seq<u8>, Option<V>>, key: Seq<u8>, value: V)
    ensures
        mapping_of(state.insert(key, Some(value))) == mapping_of(state).insert(key, value),
        tombstones_of(state.insert(key, Some(value))) == tombstones_of(state).remove(key),
{
    assert(mapping_of(state.insert(key, Some(value))) =~= mapping_of(state).insert(key, value));
    assert(tombstones_of(state.insert(key, Some(value))) =~= tombstones_of(state).remove(key));
}

/// Deleting a key takes it out of the mapping and leaves its tombstone.
pub proof fn lemma_delete_in_both_views<V>(state: Map<Seq<u8>, Option<V>>, key: Seq<u8>)
    ensures
        mapping_of(state.insert(key, None::<V>)) == mapping_of(state).remove(key),
        tombstones_of(state.insert(key, None::<V>)) == tombstones_of(state).insert(key),
{
    assert(mapping_of(state.insert(key, None::<V>)) =~= mapping_of(state).remove(key));
    assert(tombstones_of(state.insert(key, None::<V>)) =~= tombstones_of(state).insert(key));
}

/// A state without a key holds no value.
pub proof fn lemma_entry_count_empty<V>()
    ensures
        entry_count(Map::<Seq<u8>, Option<V>>::empty()) == 0,
{
    assert(mapping_of(Map::<Seq<u8>, Option<V>>::empty()).dom() =~= Set::<Seq<u8>>::empty());
}

/// Setting a key adds one to the keys that hold a value, unless the key
/// held one.
pub proof fn lemma_entry_count_set<V>(state: Map<Seq<u8>, Option<V>>, key: Seq<u8>, value: V)
    requires
        mapping_of(state).dom().finite(),
    ensures
        mapping_of(state.insert(key, Some(value))).dom().finite(),
        entry_count(state.insert(key, Some(value))) == entry_count(state) + if lookup(
            state,
            key,
        ) is Found {
            0nat
        } else {
            1nat
        },
{
    lemma_set_in_both_views(state, key, value);
    assert(mapping_of(state).insert(key, value).dom() =~= mapping_of(state).dom().insert(key));
}

/// Deleting a key takes one from the keys that hold a value, if the key
/// held one.
pub proof fn lemma_entry_count_delete<V>(state: Map<Seq<u8>, Option<V>>, key: Seq<u8>)
    requires
        mapping_of(state).dom().finite(),
    ensures
        mapping_of(state.insert(key, None::<V>)).dom().finite(),
        entry_count(state.insert(key, None::<V>)) + (if lookup(state, key) is Found {
            1nat
        } else {
            0nat
        }) == entry_count(state),
{
    lemma_delete_in_both_views(state, key);
    assert(mapping_of(state).remove(key).dom() =~= mapping_of(state).dom().remove(key));
}

/// The entries that hold a value are as many as the keys of the mapping.
pub proof fn lemma_live_count_is_mapping_len<V>(s: EntrySeq<V>)
    requires
        sorted(s),
    ensures
        mapping_of(as_map(s)).dom().finite(),
        mapping_of(as_map(s)).dom().len() == live_count(s),
    decreases s.len(),
{
    if s.len() == 0 {
        assert(mapping_of(as_map(s)).dom() =~= Set::<Seq<u8>>::empty());
    } else {
        let rest = s.drop_last();
        let last = s.last();
        lemma_live_count_is_mapping_len(rest);
        assert forall|i: int| 0 <= i < rest.len() implies precedes(
            #[trigger] rest[i].0,
            last.0,
        ) by {
            assert(rest[i].0 == s[i].0);
        }
        lemma_insert_entry(rest, rest.len() as int, last.0, last.1);
        assert(rest.insert(rest.len() as int, last) =~= s);
        if as_map(rest).contains_key(last.0) {
            let i = choose|i: int| holds_at(rest, last.0, i);
            lemma_precedes_asymmetric(rest[i].0, last.0);
        }
        match last.1 {
            Some(value) => {
                lemma_entry_count_set(as_map(rest), last.0, value);
            },
            None => {
                lemma_entry_count_delete(as_map(rest), last.0);
            },
        }
    }
}

/// The frozen contents of a buffer: its entries in key order, tombstones
/// among them. No key occurs twice.
pub struct MemtableEntries<K, V> {
    entries: Vec<(K, Option<V>)>,
}

impl<K: StoreKey, V> View for MemtableEntries<K, V> {
    type V = EntrySeq<V>;

    /// The entries in the order in which they are held, each key by its
    /// bytes.
    closed spec fn view(&self) -> EntrySeq<V> {
        Seq::new(self.entries@.len(), |i: int| (self.entries@[i].0.key_bytes(), self.entries@[i].1))
    }
}

impl<K: StoreKey, V> MemtableEntries<K, V> {
    /// The entries are in strictly increasing key order.
    pub open spec fn wf(&self) -> bool {
        sorted(self@)
    }

    /// The entries as a map from key to value or tombstone.
    pub open spec fn state(&self) -> Map<Seq<u8>, Option<V>> {
        as_map(self@)
    }

    /// Contents without an entry.
    pub fn new() -> (r: Self)
        ensures
            r@ == Seq::<(Seq<u8>, Option<V>)>::empty(),
            r.wf(),
            r.state() == Map::<Seq<u8>, Option<V>>::empty(),
    {
        let r = MemtableEntries { entries: Vec::new() };
        assert(r@ =~= Seq::<(Seq<u8>, Option<V>)>::empty());
        assert(r.state() =~= Map::<Seq<u8>, Option<V>>::empty());
        r
    }

    /// The number of entries, tombstones included.
    pub fn len(&self) -> (n: usize)
        ensures
            n == self@.len(),
    {
        self.entries.len()
    }

    /// The key of the entry at `i`.
    pub fn key_at(&self, i: usize) -> (key: &K)
        requires
            i < self@.len(),
        ensures
            key.key_bytes() == self@[i as int].0,
    {
        &self.entries[i].0
    }

    /// The value of the entry at `i`, `None` for a tombstone.
    pub fn value_at(&self, i: usize) -> (value: Option<&V>)
        requires
            i < self@.len(),
        ensures
            value == match self@[i as int].1 {
                Some(v) => Some(&v),
                None => None,
            },
    {
        match &self.entries[i].1 {
            Some(v) => Some(v),
            None => None,
        }
    }

    /// The number of entries that hold a value.
    pub fn live_len(&self) -> (n: usize)
        ensures
            n == live_count(self@),
    {
        let mut n: usize = 0;
        let mut i: usize = 0;
        while i < self.entries.len()
            invariant
                i <= self.entries.len(),
                n == live_count(self@.take(i as int)),
                n <= i,
            decreases self.entries.len() - i,
        {
            proof {
                assert(self@.take(i + 1).drop_last() =~= self@.take(i as int));
            }
            if self.entries[i].1.is_some() {
                n = n + 1;
            }
            i = i + 1;
        }
        proof {
            assert(self@.take(i as int) =~= self@);
        }
        n
    }

    /// Where `key` stands, by binary search: the index of its entry and
    /// `true`, or the index at which it would have to be put and `false`.
    pub fn position(&self, key: &K) -> (r: (usize, bool))
        requires
            self.wf(),
        ensures
            r.0 <= self@.len(),
            r.1 ==> r.0 < self@.len() && self@[r.0 as int].0 == key.key_bytes(),
            !r.1 ==> forall|i: int|
                0 <= i < r.0 ==> precedes(#[trigger] self@[i].0, key.key_bytes()),
            !r.1 ==> forall|i: int|
                r.0 <= i < self@.len() ==> precedes(key.key_bytes(), #[trigger] self@[i].0),
            r.1 == self.state().contains_key(key.key_bytes()),
    {
        let ghost k = key.key_bytes();
        let mut lo: usize = 0;
        let mut hi: usize = self.entries.len();
        while lo < hi
            invariant
                lo <= hi <= self@.len(),
                self@.len() == self.entries.len(),
                k == key.key_bytes(),
                sorted(self@),
                forall|i: int| 0 <= i < lo ==> precedes(#[trigger] self@[i].0, k),
                forall|i: int| hi <= i < self@.len() ==> precedes(k, #[trigger] self@[i].0),
            decreases hi - lo,
        {
            let mid = lo + (hi - lo) / 2;
            match compare_bytes(key.as_byte_slice(), self.entries[mid].0.as_byte_slice()) {
                Order::Same => {
                    proof {
                        assert(holds_at(self@, k, mid as int));
                    }
                    return (mid, true);
                },
                Order::Before => {
                    proof {
                        assert forall|i: int| mid <= i < self@.len() implies precedes(
                            k,
                            #[trigger] self@[i].0,
                        ) by {
                            if mid < i {
                                lemma_precedes_transitive(k, self@[mid as int].0, self@[i].0);
                            }
                        }
                    }
                    hi = mid;
                },
                Order::After => {
                    proof {
                        lemma_precedes_total(k, self@[mid as int].0);
                        assert forall|i: int| 0 <= i < mid + 1 implies precedes(
                            #[trigger] self@[i].0,
                            k,
                        ) by {
                            if i < mid {
                                lemma_precedes_transitive(self@[i].0, self@[mid as int].0, k);
                            }
                        }
                    }
                    lo = mid + 1;
                },
            }
        }
        proof {
            if self.state().contains_key(k) {
                let i = choose|i: int| holds_at(self@, k, i);
                if i < lo {
                    lemma_precedes_asymmetric(self@[i].0, k);
                } else {
                    lemma_precedes_asymmetric(k, self@[i].0);
                }
            }
        }
        (lo, false)
    }

    /// What the contents know of `key`.
    pub fn get(&self, key: &K) -> (r: GetResult<&V>)
        requires
            self.wf(),
        ensures
            r == match lookup(self.state(), key.key_bytes()) {
                GetResult::Found(v) => GetResult::Found(&v),
                GetResult::Deleted => GetResult::Deleted,
                GetResult::NotFound => GetResult::NotFound,
            },
    {
        let (p, found) = self.position(key);
        if found {
            proof {
                lemma_as_map_at(self@, p as int);
            }
            match &self.entries[p].1 {
                Some(v) => GetResult::Found(v),
                None => GetResult::Deleted,
            }
        } else {
            GetResult::NotFound
        }
    }

    /// Gives `key` the entry `entry`: a value, or `None` for a tombstone.
    /// An earlier entry of the key is replaced.
    pub fn put(&mut self, key: K, entry: Option<V>)
        requires
            old(self).wf(),
        ensures
            final(self).wf(),
            final(self).state() == old(self).state().insert(key.key_bytes(), entry),
            live_count(final(self)@) + (if lookup(old(self).state(), key.key_bytes()) is Found {
                1nat
            } else {
                0nat
            }) == live_count(old(self)@) + if entry is Some {
                1nat
            } else {
                0nat
            },
            final(self)@.len() <= old(self)@.len() + 1,
    {
        let ghost k = key.key_bytes();
        let ghost before = self@;
        let (p, found) = self.position(&key);
        if found {
            proof {
                lemma_update_entry(before, p as int, entry);
                lemma_as_map_at(before, p as int);
            }
            self.entries.set(p, (key, entry));
            assert(self@ =~= before.update(p as int, (k, entry)));
        } else {
            proof {
                lemma_insert_entry(before, p as int, k, entry);
            }
            self.entries.insert(p, (key, entry));
            assert(self@ =~= before.insert(p as int, (k, entry)));
        }
    }
}

/// A write buffer: `get`, `set` and `delete` on keys, where a deleted key is
/// remembered as deleted.
pub trait Memtable {
    type Key: StoreKey;

    type Value;

    /// The buffer holds what its methods left in it.
    spec fn wf(&self) -> bool;

    /// What the buffer holds: each key it knows with its value, or with
    /// `None` where the key was deleted.
    spec fn state(&self) -> Map<Seq<u8>, Option<Self::Value>>;

    /// The value of `key`; `None` where the key was deleted or never set.
    fn get(&self, key: &Self::Key) -> (r: Option<&Self::Value>)
        requires
            self.wf(),
        ensures
            r == match lookup(self.state(), key.key_bytes()) {
                GetResult::Found(v) => Some(&v),
                GetResult::Deleted => None,
                GetResult::NotFound => None,
            },
    ;

    /// Gives `key` the value `value` and forgets that it was deleted. Where
    /// the buffer then holds its fill, it hands back all it holds and is
    /// empty afterwards.
    fn set(&mut self, key: Self::Key, value: Self::Value) -> (r: Option<
        MemtableEntries<Self::Key, Self::Value>,
    >)
        requires
            old(self).wf(),
        ensures
            final(self).wf(),
            match r {
                Some(snapshot) => {
                    &&& snapshot.wf()
                    &&& snapshot.state() == old(self).state().insert(key.key_bytes(), Some(value))
                    &&& final(self).state() == Map::<Seq<u8>, Option<Self::Value>>::empty()
                },
                None => final(self).state() == old(self).state().insert(
                    key.key_bytes(),
                    Some(value),
                ),
            },
    ;

    /// Forgets the value of `key` and remembers the key as deleted.
    fn delete(&mut self, key: Self::Key)
        requires
            old(self).wf(),
        ensures
            final(self).wf(),
            final(self).state() == old(self).state().insert(key.key_bytes(), None),
    ;
}

/// The buffer of this library: entries in key order, handed back by `set`
/// as soon as `MAX_ENTRY` of them hold a value.
pub struct HashMemtable<K, V> {
    underlying: MemtableEntries<K, V>,
}

impl<K: StoreKey, V> View for HashMemtable<K, V> {
    type V = EntrySeq<V>;

    /// The entries in key order, tombstones among them.
    closed spec fn view(&self) -> EntrySeq<V> {
        self.underlying@
    }
}

impl<K: StoreKey, V> HashMemtable<K, V> {
    /// An empty buffer.
    pub fn new() -> (r: HashMemtable<K, V>)
        ensures
            r.wf(),
            r@ == Seq::<(Seq<u8>, Option<V>)>::empty(),
            r.state() == Map::<Seq<u8>, Option<V>>::empty(),
    {
        proof {
            lemma_entry_count_empty::<V>();
        }
        HashMemtable { underlying: MemtableEntries::new() }
    }

    /// Whether `key` was deleted and not set again.
    pub fn is_deleted(&self, key: &K) -> (r: bool)
        requires
            self.wf(),
        ensures
            r == tombstones_of(self.state()).contains(key.key_bytes()),
    {
        match self.underlying.get(key) {
            GetResult::Deleted => true,
            _ => false,
        }
    }

    /// Calls `deleted` where `key` was deleted, and `not_deleted` where it
    /// was not.
    pub fn with_check_tombstone<T>(
        &self,
        key: &K,
        deleted: impl Fn() -> T,
        not_deleted: impl Fn() -> T,
    ) -> (r: T)
        requires
            self.wf(),
            tombstones_of(self.state()).contains(key.key_bytes()) ==> deleted.requires(()),
            !tombstones_of(self.state()).contains(key.key_bytes()) ==> not_deleted.requires(()),
        ensures
            tombstones_of(self.state()).contains(key.key_bytes()) ==> deleted.ensures((), r),
            !tombstones_of(self.state()).contains(key.key_bytes()) ==> not_deleted.ensures((), r),
    {
        if self.is_deleted(key) {
            deleted()
        } else {
            not_deleted()
        }
    }

    /// Hands back all that the buffer holds and leaves it empty.
    pub fn flush(&mut self) -> (r: MemtableEntries<K, V>)
        requires
            sorted(old(self)@),
        ensures
            r.wf(),
            r@ == old(self)@,
            r.state() == old(self).state(),
            final(self).wf(),
            final(self)@ == Seq::<(Seq<u8>, Option<V>)>::empty(),
            final(self).state() == Map::<Seq<u8>, Option<V>>::empty(),
    {
        proof {
            lemma_entry_count_empty::<V>();
        }
        let mut contents = MemtableEntries::new();
        std::mem::swap(&mut contents, &mut self.underlying);
        contents
    }
}

impl<K: StoreKey, V> Memtable for HashMemtable<K, V> {
    type Key = K;

    type Value = V;

    /// The entries are in strictly increasing key order, and fewer than
    /// `MAX_ENTRY` of them hold a value.
    open spec fn wf(&self) -> bool {
        sorted(self@) && entry_count(as_map(self@)) < MAX_ENTRY
    }

    open spec fn state(&self) -> Map<Seq<u8>, Option<V>> {
        as_map(self@)
    }

    fn get(&self, key: &K) -> (r: Option<&V>) {
        let deleted = || -> (o: Option<&V>)
            ensures
                o is None,
            {
                None
            };
        let not_deleted = || -> (o: Option<&V>)
            requires
                sorted(self@),
            ensures
                o == match lookup(as_map(self@), key.key_bytes()) {
                    GetResult::Found(v) => Some(&v),
                    GetResult::Deleted => None,
                    GetResult::NotFound => None,
                },
            {
                match self.underlying.get(key) {
                    GetResult::Found(v) => Some(v),
                    _ => None,
                }
            };
        self.with_check_tombstone(key, deleted, not_deleted)
    }

    /// Hands the contents back exactly when, with `key` set, `MAX_ENTRY`
    /// keys hold a value: the key that fills the buffer is part of what is
    /// handed back.
    fn set(&mut self, key: K, value: V) -> (r: Option<MemtableEntries<K, V>>)
        ensures
            r is Some <==> entry_count(old(self).state().insert(key.key_bytes(), Some(value)))
                >= MAX_ENTRY,
            r matches Some(snapshot) ==> entry_count(snapshot.state()) == MAX_ENTRY,
    {
        proof {
            lemma_live_count_is_mapping_len(self@);
        }
        self.underlying.put(key, Some(value));
        proof {
            lemma_live_count_is_mapping_len(self@);
        }
        if self.underlying.live_len() >= MAX_ENTRY {
            Some(self.flush())
        } else {
            None
        }
    }

    fn delete(&mut self, key: K) {
        proof {
            lemma_live_count_is_mapping_len(self@);
        }
        self.underlying.put(key, None);
        proof {
            lemma_live_count_is_mapping_len(self@);
        }
    }
}

} // verus!

//! The bounded cache itself: insertion with first-in-first-out eviction, and
//! eviction-neutral lookup.

use vstd::prelude::*;
use vstd::laws_eq::obeys_concrete_eq;
use vstd::pervasive::cloned;

use crate::error::MyError;

verus! {

/// The key-to-value mapping held in two aligned sequences: the key at each
/// position of `order` is mapped to the value at the same position of
/// `values`.
pub open spec fn entries_of<K, V>(order: Seq<K>, values: Seq<V>) -> Map<K, V> {
    Map::new(|k: K| order.contains(k), |k: K| values[order.index_of(k)])
}

/// A key that stands at position `i` of a duplicate-free sequence is found
/// there and nowhere else.
proof fn lemma_index_of_unique<K>(order: Seq<K>, i: int)
    requires
        order.no_duplicates(),
        0 <= i < order.len(),
    ensures
        order.index_of(order[i]) == i,
{
    assert(order.contains(order[i]));
    let j = order.index_of(order[i]);
    assert(0 <= j < order.len() && order[j] == order[i]);
}

/// Reads the entry map at a position of the underlying sequences.
proof fn lemma_entries_of_at<K, V>(order: Seq<K>, values: Seq<V>, i: int)
    requires
        order.len() == values.len(),
        order.no_duplicates(),
        0 <= i < order.len(),
    ensures
        entries_of(order, values).contains_key(order[i]),
        entries_of(order, values)[order[i]] == values[i],
{
    assert(order.contains(order[i]));
    lemma_index_of_unique(order, i);
}

/// Appending a fresh key at the back of the sequences inserts its entry into
/// the map and keeps the keys duplicate-free.
proof fn lemma_entries_of_push<K, V>(order: Seq<K>, values: Seq<V>, key: K, value: V)
    requires
        order.len() == values.len(),
        order.no_duplicates(),
        !order.contains(key),
    ensures
        order.push(key).no_duplicates(),
        entries_of(order.push(key), values.push(value)) == entries_of(order, values).insert(
            key,
            value,
        ),
{
    let no = order.push(key);
    let nv = values.push(value);
    assert forall|i: int, j: int|
        0 <= i < no.len() && 0 <= j < no.len() && i != j implies no[i] != no[j] by {
        if i < order.len() && j < order.len() {
            assert(order[i] != order[j]);
        } else if i == order.len() {
            assert(order.contains(order[j]) && no[i] == key);
        } else if j == order.len() {
            assert(order.contains(order[i]) && no[j] == key);
        }
    }
    assert forall|k: K| #[trigger] no.contains(k) implies order.contains(k) || k == key by {
        let i = choose|i: int| 0 <= i < no.len() && no[i] == k;
        if i < order.len() {
            assert(order[i] == k);
        }
    }
    assert forall|k: K| #[trigger] order.contains(k) implies no.contains(k) by {
        let i = choose|i: int| 0 <= i < order.len() && order[i] == k;
        assert(no[i] == k);
    }
    assert forall|k: K| no.contains(k) && k != key implies entries_of(no, nv)[k] == entries_of(
        order,
        values,
    )[k] by {
        let i = choose|i: int| 0 <= i < order.len() && order[i] == k;
        assert(no[i] == k);
        lemma_entries_of_at(order, values, i);
        lemma_entries_of_at(no, nv, i);
    }
    assert(no[order.len() as int] == key && no.contains(key));
    lemma_entries_of_at(no, nv, order.len() as int);
    assert(entries_of(no, nv) =~= entries_of(order, values).insert(key, value));
}

/// Dropping the front of the sequences removes the oldest key's entry from
/// the map and keeps the keys duplicate-free.
proof fn lemma_entries_of_drop_first<K, V>(order: Seq<K>, values: Seq<V>)
    requires
        order.len() == values.len(),
        0 < order.len(),
        order.no_duplicates(),
    ensures
        order.drop_first().no_duplicates(),
        !order.drop_first().contains(order[0]),
        forall|k: K| order.drop_first().contains(k) ==> order.contains(k),
        entries_of(order.drop_first(), values.drop_first()) == entries_of(order, values).remove(
            order[0],
        ),
{
    let to = order.drop_first();
    let tv = values.drop_first();
    assert forall|k: K| #[trigger] to.contains(k) implies order.contains(k) && k != order[0] by {
        let i = choose|i: int| 0 <= i < to.len() && to[i] == k;
        assert(order[i + 1] == k);
        assert(order.contains(k));
    }
    assert forall|k: K| order.contains(k) && k != order[0] implies to.contains(k) && entries_of(
        to,
        tv,
    )[k] == entries_of(order, values)[k] by {
        let i = choose|i: int| 0 <= i < order.len() && order[i] == k;
        assert(to[i - 1] == k && to.contains(k));
        lemma_entries_of_at(order, values, i);
        lemma_entries_of_at(to, tv, i - 1);
    }
    assert(entries_of(to, tv) =~= entries_of(order, values).remove(order[0]));
}

/// A key-value store that holds at most a fixed number of entries.
///
/// `values_order` records the keys oldest first; `element` holds the value for
/// the key at the same position. Together they form the entry map, so a key
/// never appears twice and the two vectors always have the same length.
pub struct Cache<K, V> {
    size: usize,
    element: Vec<V>,
    values_order: Vec<K>,
}

/// The interface a bounded cache offers: construction with a fixed capacity,
/// insertion that may evict, and lookup.
pub trait CacheTrait<K, V>: Sized where K: Eq + core::fmt::Debug + Clone + core::hash::Hash {
    fn new(size: usize) -> Self;

    fn put(&mut self, key: K, value: V) -> Result<(), MyError<K>>;

    fn get(&self, key: &K) -> Result<&V, MyError<K>>;
}

impl<K, V> Cache<K, V> where K: Eq + core::fmt::Debug + Clone + core::hash::Hash {
    /// The number of entries the cache may hold at most, fixed at construction.
    pub closed spec fn spec_capacity(&self) -> nat {
        self.size as nat
    }

    /// The keys currently present, oldest-inserted first.
    pub closed spec fn spec_order(&self) -> Seq<K> {
        self.values_order@
    }

    /// The values currently present, aligned with `spec_order`.
    pub closed spec fn spec_values(&self) -> Seq<V> {
        self.element@
    }

    /// The entry map: each present key paired with its stored value.
    pub open spec fn spec_entries(&self) -> Map<K, V> {
        entries_of(self.spec_order(), self.spec_values())
    }

    /// The order record a successful insertion of `key` leaves behind: when
    /// the cache is full the oldest key leaves the front, and in either case
    /// the new key joins the back.
    pub open spec fn order_after_put(&self, key: K) -> Seq<K> {
        if self.spec_order().len() == self.spec_capacity() {
            self.spec_order().drop_first().push(key)
        } else {
            self.spec_order().push(key)
        }
    }

    /// The entry map a successful insertion of `key` and `value` leaves
    /// behind: the oldest entry is evicted exactly when the cache is full.
    pub open spec fn entries_after_put(&self, key: K, value: V) -> Map<K, V> {
        if self.spec_order().len() == self.spec_capacity() {
            self.spec_entries().remove(self.spec_order()[0]).insert(key, value)
        } else {
            self.spec_entries().insert(key, value)
        }
    }

    /// The structural invariant: the order record and the value store have the
    /// same length, no key repeats, and the cache never holds more entries
    /// than its capacity.
    pub open spec fn well_formed(&self) -> bool {
        &&& self.spec_order().len() == self.spec_values().len()
        &&& self.spec_order().len() <= self.spec_capacity()
        &&& self.spec_order().no_duplicates()
    }

    /// Creates an empty cache that will hold at most `size` entries.
    pub fn new(size: usize) -> (r: Self)
        ensures
            r.well_formed(),
            r.spec_capacity() == size,
            r.spec_order() == Seq::<K>::empty(),
            r.spec_entries() == Map::<K, V>::empty(),
    {
        let r = Self { size, element: Vec::new(), values_order: Vec::new() };
        proof {
            assert(r.spec_entries() =~= Map::<K, V>::empty());
        }
        r
    }

    /// The position of `key` in the order record, if it is present at all.
    fn position_of(&self, key: &K) -> (r: Option<usize>)
        requires
            obeys_concrete_eq::<K>(),
        ensures
            match r {
                Some(i) => i < self.spec_order().len() && self.spec_order()[i as int] == *key,
                None => !self.spec_order().contains(*key),
            },
    {
        let n = self.values_order.len();
        let mut i: usize = 0;
        while i < n
            invariant
                obeys_concrete_eq::<K>(),
                n == self.spec_order().len(),
                i <= n,
                forall|j: int| 0 <= j < i ==> self.spec_order()[j] != *key,
            decreases n - i,
        {
            proof {
                reveal(vstd::laws_eq::obeys_concrete_eq);
            }
            if self.values_order[i] == *key {
                return Some(i);
            }
            i += 1;
        }
        None
    }

    /// Inserts `key` with `value`. A key that is already present is rejected
    /// and the cache is left exactly as it was. A fresh key always goes in;
    /// when the cache is full, the single oldest-inserted entry is evicted
    /// first, and never any other.
    pub fn put(&mut self, key: K, value: V) -> (r: Result<(), MyError<K>>)
        requires
            old(self).well_formed(),
            old(self).spec_capacity() > 0,
            obeys_concrete_eq::<K>(),
        ensures
            final(self).well_formed(),
            final(self).spec_capacity() == old(self).spec_capacity(),
            r is Ok <==> !old(self).spec_entries().contains_key(key),
            r is Err ==> r == Err::<(), MyError<K>>(MyError::DuplicateKey(key)) && *final(self)
                == *old(self),
            r is Ok ==> final(self).spec_order() == old(self).order_after_put(key),
            r is Ok ==> final(self).spec_entries() == old(self).entries_after_put(key, value),
    {
        match self.position_of(&key) {
            Some(i) => {
                proof {
                    lemma_entries_of_at(self.spec_order(), self.spec_values(), i as int);
                }
                Err(MyError::DuplicateKey(key))
            },
            None => {
                let ghost pre = *self;
                if self.values_order.len() == self.size {
                    self.values_order.remove(0);
                    self.element.remove(0);
                    proof {
                        assert(self.spec_order() =~= pre.spec_order().drop_first());
                        assert(self.spec_values() =~= pre.spec_values().drop_first());
                        lemma_entries_of_drop_first(pre.spec_order(), pre.spec_values());
                    }
                }
                let ghost mid = *self;
                self.values_order.push(key);
                self.element.push(value);
                proof {
                    lemma_entries_of_push(mid.spec_order(), mid.spec_values(), key, value);
                }
                Ok(())
            },
        }
    }

    /// Looks the value for `key` up. Lookup takes the cache by shared
    /// reference: it can neither change the entries nor the eviction order,
    /// so reading a key never protects it from eviction.
    pub fn get(&self, key: &K) -> (r: Result<&V, MyError<K>>)
        requires
            self.well_formed(),
            obeys_concrete_eq::<K>(),
        ensures
            self.spec_entries().contains_key(*key) ==> (r matches Ok(v) && *v
                == self.spec_entries()[*key]),
            !self.spec_entries().contains_key(*key) ==> (r matches Err(e) && e matches
                MyError::KeyNotFound(k) && cloned(*key, k)),
    {
        match self.position_of(key) {
            Some(i) => {
                proof {
                    let k = *key;
                    assert(self.spec_order().contains(k));
                    let w = self.spec_order().index_of(k);
                    assert(self.spec_order()[w] == k && self.spec_order()[i as int] == k);
                    assert(w == i);
                }
                Ok(&self.element[i])
            },
            None => Err(MyError::KeyNotFound(key.clone())),
        }
    }

    /// Capacity law: a well-formed cache never holds more entries than its
    /// capacity. `new` and `put` keep the cache well-formed, so this bounds
    /// the entry count after every sequence of successful insertions.
    pub proof fn lemma_capacity_invariant(&self)
        requires
            self.well_formed(),
        ensures
            self.spec_order().len() <= self.spec_capacity(),
            self.spec_entries().dom().len() <= self.spec_capacity(),
    {
        self.lemma_order_entries_bijection();
    }

    /// Bijection law: the keys of the order record are exactly the keys of
    /// the entry map, no key repeats, and the record is as long as the map.
    pub proof fn lemma_order_entries_bijection(&self)
        requires
            self.well_formed(),
        ensures
            self.spec_entries().dom() == self.spec_order().to_set(),
            self.spec_order().no_duplicates(),
            self.spec_entries().dom().len() == self.spec_order().len(),
    {
        assert(self.spec_entries().dom() =~= self.spec_order().to_set());
        self.spec_order().unique_seq_to_set();
    }

    /// First-in-first-out eviction law: a successful insertion into a full
    /// cache evicts exactly the single oldest-inserted key; every other entry
    /// survives with its value, and the new entry is present.
    pub proof fn lemma_fifo_eviction(pre: Self, post: Self, key: K, value: V)
        requires
            pre.well_formed(),
            pre.spec_capacity() > 0,
            pre.spec_order().len() == pre.spec_capacity(),
            !pre.spec_entries().contains_key(key),
            post.spec_order() == pre.order_after_put(key),
            post.spec_entries() == pre.entries_after_put(key, value),
        ensures
            !post.spec_entries().contains_key(pre.spec_order()[0]),
            post.spec_entries().contains_key(key),
            post.spec_entries()[key] == value,
            forall|k: K|
                pre.spec_entries().contains_key(k) && k != pre.spec_order()[0]
                    ==> post.spec_entries().contains_key(k) && post.spec_entries()[k]
                    == pre.spec_entries()[k],
    {
        lemma_entries_of_at(pre.spec_order(), pre.spec_values(), 0);
    }

    /// The number of entries currently present.
    pub fn len(&self) -> (n: usize)
        ensures
            n == self.spec_order().len(),
    {
        self.values_order.len()
    }
}

} // verus!

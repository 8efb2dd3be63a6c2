//! A mutable associative container built from first principles: a fixed
//! array of buckets, an explicit hash function over the key's characters,
//! and chained collision resolution by linear scan of one bucket.
//!
//! The capacity is chosen at construction and never changes; there is no
//! rehashing, so a bucket's length is bounded only by the number of stored
//! keys. Lookup, insertion and removal all key off value equality of the
//! stored strings, and the abstract content of a table is the finite map
//! from key views to values given by its `view`.

use vstd::prelude::*;
use vstd::string::StrSliceExecFns;

verus! {

/// Offset basis of the 64-bit FNV-1a hash.
pub const FNV_OFFSET_BASIS: u64 = 0xcbf2_9ce4_8422_2325;

/// Prime multiplier of the 64-bit FNV-1a hash.
pub const FNV_PRIME: u64 = 0x0000_0100_0000_01b3;

/// One FNV-1a round: fold one character into the running digest.
pub open spec fn hash_step(h: u64, c: char) -> u64 {
    vstd::wrapping::u64_specs::wrapping_mul(h ^ (c as u64), FNV_PRIME)
}

/// The 64-bit FNV-1a digest of a character sequence. Equal key views give
/// equal digests by construction, which is the load-bearing contract of
/// the whole table: it keeps every stored key findable again.
pub open spec fn hash_chars(s: Seq<char>) -> u64
    decreases s.len(),
{
    if s.len() == 0 {
        FNV_OFFSET_BASIS
    } else {
        hash_step(hash_chars(s.drop_last()), s.last())
    }
}

/// The bucket a key belongs to in a table of `cap` buckets.
pub open spec fn spec_bucket_index(k: Seq<char>, cap: nat) -> nat
    recommends
        cap > 0,
{
    hash_chars(k) as nat % cap
}

/// A stored key/value pair.
pub struct Entry<V> {
    pub key: String,
    pub value: V,
}

/// The value stored for `k` in one bucket, scanning front to back.
pub open spec fn bucket_get<V>(b: Seq<Entry<V>>, k: Seq<char>) -> Option<V>
    decreases b.len(),
{
    if b.len() == 0 {
        None
    } else if b[0].key@ == k {
        Some(b[0].value)
    } else {
        bucket_get(b.drop_first(), k)
    }
}

/// Total number of entries summed over all buckets.
pub open spec fn total_entries<V>(bs: Seq<Vec<Entry<V>>>) -> nat
    decreases bs.len(),
{
    if bs.len() == 0 {
        0
    } else {
        total_entries(bs.drop_last()) + bs.last()@.len()
    }
}

/// A sound bucket `i` of a table with `cap` buckets: every entry's key
/// hashes to `i`, and no two entries hold equal keys.
pub open spec fn entries_ok<V>(b: Seq<Entry<V>>, i: int, cap: nat) -> bool {
    &&& forall|j: int| 0 <= j < b.len() ==> spec_bucket_index(#[trigger] b[j].key@, cap) == i
    &&& forall|j1: int, j2: int|
        0 <= j1 < b.len() && 0 <= j2 < b.len() && j1 != j2 ==> #[trigger] b[j1].key@
            != #[trigger] b[j2].key@
}

/// The one construction-time failure: a table cannot have zero buckets.
#[derive(Clone, Copy, PartialEq, Eq, Structural, Debug)]
pub enum TableError {
    InvalidCapacity,
}

/// A mapping from string keys to values, stored as a fixed-length vector
/// of buckets, each an insertion-ordered chain of entries.
pub struct AssociativeTable<V> {
    buckets: Vec<Vec<Entry<V>>>,
    size: usize,
}

impl<V> AssociativeTable<V> {
    /// Number of buckets, fixed at construction.
    pub closed spec fn capacity(self) -> nat {
        self.buckets@.len()
    }

    /// Count of distinct keys currently stored.
    pub closed spec fn spec_len(self) -> nat {
        self.size as nat
    }

    /// The entries of bucket `i`.
    pub closed spec fn bucket_at(self, i: int) -> Seq<Entry<V>> {
        self.buckets@[i]@
    }

    /// The number of entries summed over all buckets.
    pub closed spec fn entry_total(self) -> nat {
        total_entries(self.buckets@)
    }

    /// Well-formedness: at least one bucket; every bucket holds only keys
    /// that hash to it, each at most once; and `size` is the total entry
    /// count over all buckets.
    pub closed spec fn wf(self) -> bool {
        &&& self.buckets@.len() > 0
        &&& forall|i: int|
            0 <= i < self.buckets@.len() ==> entries_ok(
                #[trigger] self.bucket_at(i),
                i,
                self.capacity(),
            )
        &&& self.size as nat == total_entries(self.buckets@)
    }

    /// The value stored for key view `k`, if any.
    pub closed spec fn spec_get(self, k: Seq<char>) -> Option<V> {
        if self.buckets@.len() == 0 {
            None
        } else {
            bucket_get(self.bucket_at(spec_bucket_index(k, self.capacity()) as int), k)
        }
    }

    /// Creates a table with `capacity` empty buckets, or reports
    /// `InvalidCapacity` when `capacity` is zero.
    pub fn new(capacity: usize) -> (r: Result<Self, TableError>)
        ensures
            match r {
                Ok(t) => {
                    &&& capacity > 0
                    &&& t.wf()
                    &&& t@ == Map::<Seq<char>, V>::empty()
                    &&& t.capacity() == capacity
                    &&& t.spec_len() == 0
                },
                Err(e) => capacity == 0 && e == TableError::InvalidCapacity,
            },
    {
        if capacity == 0 {
            return Err(TableError::InvalidCapacity);
        }
        let mut buckets: Vec<Vec<Entry<V>>> = Vec::new();
        let mut i: usize = 0;
        while i < capacity
            invariant
                i <= capacity,
                buckets@.len() == i,
                forall|x: int| 0 <= x < i ==> #[trigger] buckets@[x]@.len() == 0,
            decreases capacity - i,
        {
            buckets.push(Vec::new());
            i = i + 1;
        }
        let t = AssociativeTable { buckets, size: 0 };
        proof {
            lemma_total_entries_all_empty(t.buckets@);
            assert forall|x: int| 0 <= x < t.buckets@.len() implies entries_ok(
                #[trigger] t.bucket_at(x),
                x,
                t.capacity(),
            ) by {
                assert(t.bucket_at(x).len() == 0);
            }
            assert forall|k: Seq<char>| !(#[trigger] t.spec_get(k) is Some) by {
                let b = t.bucket_at(spec_bucket_index(k, t.capacity()) as int);
                assert(b.len() == 0);
            }
            assert(t@ =~= Map::<Seq<char>, V>::empty());
        }
        Ok(t)
    }

    /// The FNV-1a digest of `key`, a pure function of its characters.
    pub fn hash(&self, key: &str) -> (h: u64)
        ensures
            h == hash_chars(key@),
    {
        let n = key.unicode_len();
        let mut h: u64 = FNV_OFFSET_BASIS;
        let mut i: usize = 0;
        while i < n
            invariant
                n == key@.len(),
                i <= n,
                h == hash_chars(key@.subrange(0, i as int)),
            decreases n - i,
        {
            let c = key.get_char(i);
            h = (h ^ (c as u64)).wrapping_mul(FNV_PRIME);
            i = i + 1;
            proof {
                let s = key@.subrange(0, i as int);
                assert(s.drop_last() =~= key@.subrange(0, i - 1));
                assert(s.last() == key@[i - 1]);
            }
        }
        proof {
            assert(key@.subrange(0, n as int) =~= key@);
        }
        h
    }

    /// The index of the bucket responsible for `key`.
    pub fn get_bucket_index(&self, key: &str) -> (i: usize)
        requires
            self.wf(),
        ensures
            i as nat == spec_bucket_index(key@, self.capacity()),
            i < self.capacity(),
    {
        let h = self.hash(key);
        (h % (self.buckets.len() as u64)) as usize
    }
}

impl<V> AssociativeTable<V> {
    /// Number of distinct keys currently stored.
    pub fn len(&self) -> (n: usize)
        ensures
            n == self.spec_len(),
    {
        self.size
    }

    /// Binds `key` to `value`: replaces the value of an entry already
    /// stored under an equal key, otherwise appends a new entry to the
    /// key's bucket and grows `size` by one.
    pub fn insert(&mut self, key: String, value: V)
        requires
            old(self).wf(),
            old(self).spec_len() < usize::MAX,
        ensures
            final(self).wf(),
            final(self)@ == old(self)@.insert(key@, value),
            final(self).capacity() == old(self).capacity(),
            final(self).spec_len() == old(self).spec_len() + (if old(self)@.contains_key(key@) {
                0int
            } else {
                1int
            }),
    {
        let idx = self.get_bucket_index(key.as_str());
        let ghost b = self.bucket_at(idx as int);
        let blen = self.buckets[idx].len();
        let mut j: usize = 0;
        while j < blen
            invariant
                self.wf(),
                *self == *old(self),
                idx < self.buckets@.len(),
                idx as nat == spec_bucket_index(key@, self.capacity()),
                b == self.bucket_at(idx as int),
                blen == b.len(),
                j <= blen,
                forall|x: int| 0 <= x < j ==> #[trigger] b[x].key@ != key@,
            decreases blen - j,
        {
            if crate::text::str_eq(self.buckets[idx][j].key.as_str(), key.as_str()) {
                let mut bucket = self.buckets.remove(idx);
                let _replaced = bucket.remove(j);
                bucket.insert(j, Entry { key, value });
                self.buckets.insert(idx, bucket);
                proof {
                    let e = Entry { key, value };
                    let bp = b.update(j as int, e);
                    assert(bucket@ =~= bp);
                    assert(self.buckets@ =~= old(self).buckets@.update(idx as int, bucket));
                    lemma_bucket_get_at(b, key@, j as int);
                    lemma_total_entries_update(old(self).buckets@, idx as int, bucket);
                    assert forall|k: Seq<char>|
                        self.spec_get(k) == if k == key@ {
                            Some(e.value)
                        } else {
                            old(self).spec_get(k)
                        } by {
                        let ki = spec_bucket_index(k, self.capacity()) as int;
                        if ki == idx {
                            lemma_bucket_get_update(b, j as int, e, k);
                        } else {
                            assert(self.bucket_at(ki) == old(self).bucket_at(ki));
                        }
                    }
                    assert(self@ =~= old(self)@.insert(key@, value));
                    assert forall|i: int| 0 <= i < self.buckets@.len() implies entries_ok(
                        #[trigger] self.bucket_at(i),
                        i,
                        self.capacity(),
                    ) by {
                        if i == idx {
                            lemma_entries_ok_update(b, j as int, e, i, self.capacity());
                            assert(self.bucket_at(i) == bp);
                        } else {
                            assert(self.bucket_at(i) == old(self).bucket_at(i));
                        }
                    }
                }
                return ;
            }
            j = j + 1;
        }
        let mut bucket = self.buckets.remove(idx);
        bucket.push(Entry { key, value });
        self.buckets.insert(idx, bucket);
        self.size = self.size + 1;
        proof {
            let e = Entry { key, value };
            let bp = b.push(e);
            assert(self.buckets@ =~= old(self).buckets@.update(idx as int, bucket));
            lemma_bucket_get_none(b, key@);
            lemma_total_entries_update(old(self).buckets@, idx as int, bucket);
            lemma_bucket_get_at(bp, key@, b.len() as int);
            assert forall|k: Seq<char>|
                self.spec_get(k) == if k == key@ {
                    Some(e.value)
                } else {
                    old(self).spec_get(k)
                } by {
                let ki = spec_bucket_index(k, self.capacity()) as int;
                if ki == idx {
                    if k != key@ {
                        lemma_bucket_get_push(b, e, k);
                    }
                } else {
                    assert(self.bucket_at(ki) == old(self).bucket_at(ki));
                }
            }
            assert(self@ =~= old(self)@.insert(key@, value));
            assert forall|i: int| 0 <= i < self.buckets@.len() implies entries_ok(
                #[trigger] self.bucket_at(i),
                i,
                self.capacity(),
            ) by {
                if i == idx {
                    lemma_entries_ok_push(b, e, i, self.capacity());
                    assert(self.bucket_at(i) == bp);
                } else {
                    assert(self.bucket_at(i) == old(self).bucket_at(i));
                }
            }
        }
    }

    /// Looks `key` up by value equality and hands back a read-only handle
    /// to the stored value, or the explicit absent result. Lookup takes a
    /// borrowed string slice, so no owned key is built for it.
    pub fn get(&self, key: &str) -> (r: Option<&V>)
        requires
            self.wf(),
        ensures
            match r {
                Some(v) => self@.contains_key(key@) && *v == self@[key@],
                None => !self@.contains_key(key@),
            },
    {
        let idx = self.get_bucket_index(key);
        let ghost b = self.bucket_at(idx as int);
        let blen = self.buckets[idx].len();
        let mut j: usize = 0;
        while j < blen
            invariant
                self.wf(),
                idx < self.buckets@.len(),
                idx as nat == spec_bucket_index(key@, self.capacity()),
                b == self.bucket_at(idx as int),
                blen == b.len(),
                j <= blen,
                forall|x: int| 0 <= x < j ==> #[trigger] b[x].key@ != key@,
            decreases blen - j,
        {
            if crate::text::str_eq(self.buckets[idx][j].key.as_str(), key) {
                proof {
                    lemma_bucket_get_at(b, key@, j as int);
                }
                return Some(&self.buckets[idx][j].value);
            }
            j = j + 1;
        }
        proof {
            lemma_bucket_get_none(b, key@);
        }
        None
    }

    /// Unbinds `key`: removes the entry stored under an equal key from its
    /// bucket (preserving the order of the remaining entries), shrinks
    /// `size` by one and returns the removed value; absent keys leave the
    /// table untouched.
    pub fn remove(&mut self, key: &str) -> (r: Option<V>)
        requires
            old(self).wf(),
        ensures
            final(self).wf(),
            final(self).capacity() == old(self).capacity(),
            final(self)@ == old(self)@.remove(key@),
            match r {
                Some(v) => {
                    &&& old(self)@.contains_key(key@)
                    &&& v == old(self)@[key@]
                    &&& final(self).spec_len() == old(self).spec_len() - 1
                },
                None => {
                    &&& !old(self)@.contains_key(key@)
                    &&& *final(self) == *old(self)
                },
            },
    {
        let idx = self.get_bucket_index(key);
        let ghost b = self.bucket_at(idx as int);
        let blen = self.buckets[idx].len();
        let mut j: usize = 0;
        while j < blen
            invariant
                self.wf(),
                *self == *old(self),
                idx < self.buckets@.len(),
                idx as nat == spec_bucket_index(key@, self.capacity()),
                b == self.bucket_at(idx as int),
                blen == b.len(),
                j <= blen,
                forall|x: int| 0 <= x < j ==> #[trigger] b[x].key@ != key@,
            decreases blen - j,
        {
            if crate::text::str_eq(self.buckets[idx][j].key.as_str(), key) {
                proof {
                    lemma_total_entries_at_least(self.buckets@, idx as int);
                }
                let mut bucket = self.buckets.remove(idx);
                let entry = bucket.remove(j);
                self.buckets.insert(idx, bucket);
                self.size = self.size - 1;
                proof {
                    let bp = b.remove(j as int);
                    b.remove_ensures(j as int);
                    assert(self.buckets@ =~= old(self).buckets@.update(idx as int, bucket));
                    lemma_bucket_get_at(b, key@, j as int);
                    lemma_total_entries_update(old(self).buckets@, idx as int, bucket);
                    assert forall|k: Seq<char>|
                        self.spec_get(k) == if k == key@ {
                            None::<V>
                        } else {
                            old(self).spec_get(k)
                        } by {
                        let ki = spec_bucket_index(k, self.capacity()) as int;
                        if ki == idx {
                            lemma_bucket_get_remove(b, j as int, k);
                        } else {
                            assert(self.bucket_at(ki) == old(self).bucket_at(ki));
                        }
                    }
                    assert(self@ =~= old(self)@.remove(key@));
                    assert forall|i: int| 0 <= i < self.buckets@.len() implies entries_ok(
                        #[trigger] self.bucket_at(i),
                        i,
                        self.capacity(),
                    ) by {
                        if i == idx {
                            lemma_entries_ok_remove(b, j as int, i, self.capacity());
                            assert(self.bucket_at(i) == bp);
                        } else {
                            assert(self.bucket_at(i) == old(self).bucket_at(i));
                        }
                    }
                }
                return Some(entry.value);
            }
            j = j + 1;
        }
        proof {
            lemma_bucket_get_none(b, key@);
            assert(old(self)@ =~= old(self)@.remove(key@));
        }
        None
    }
}

impl<V> View for AssociativeTable<V> {
    type V = Map<Seq<char>, V>;

    /// A table abstracts to the map from stored key views to their values.
    closed spec fn view(&self) -> Map<Seq<char>, V> {
        Map::new(|k: Seq<char>| self.spec_get(k) is Some, |k: Seq<char>| self.spec_get(k)->Some_0)
    }
}

/// `bucket_get` returns the first entry whose key matches.
proof fn lemma_bucket_get_at<V>(b: Seq<Entry<V>>, k: Seq<char>, j: int)
    requires
        0 <= j < b.len(),
        b[j].key@ == k,
        forall|x: int| 0 <= x < j ==> #[trigger] b[x].key@ != k,
    ensures
        bucket_get(b, k) == Some(b[j].value),
    decreases b.len(),
{
    if j > 0 {
        lemma_bucket_get_at(b.drop_first(), k, j - 1);
    }
}

/// A bucket none of whose keys match yields nothing.
proof fn lemma_bucket_get_none<V>(b: Seq<Entry<V>>, k: Seq<char>)
    requires
        forall|x: int| 0 <= x < b.len() ==> #[trigger] b[x].key@ != k,
    ensures
        bucket_get(b, k) is None,
    decreases b.len(),
{
    if b.len() > 0 {
        lemma_bucket_get_none(b.drop_first(), k);
    }
}

/// Appending an entry leaves every other key's lookup unchanged.
proof fn lemma_bucket_get_push<V>(b: Seq<Entry<V>>, e: Entry<V>, k: Seq<char>)
    requires
        k != e.key@,
    ensures
        bucket_get(b.push(e), k) == bucket_get(b, k),
    decreases b.len(),
{
    let bp = b.push(e);
    if b.len() == 0 {
        assert(bp[0] == e);
        assert(bp.drop_first() =~= Seq::<Entry<V>>::empty());
        assert(bucket_get(bp.drop_first(), k) == None::<V>);
        assert(bucket_get(bp, k) == None::<V>);
        assert(bucket_get(b, k) == None::<V>);
    } else {
        assert(bp[0] == b[0]);
        assert(bp.drop_first() =~= b.drop_first().push(e));
        lemma_bucket_get_push(b.drop_first(), e, k);
        if b[0].key@ == k {
            assert(bucket_get(bp, k) == Some(bp[0].value));
            assert(bucket_get(b, k) == Some(b[0].value));
        } else {
            assert(bucket_get(bp, k) == bucket_get(bp.drop_first(), k));
            assert(bucket_get(b, k) == bucket_get(b.drop_first(), k));
        }
    }
}

/// Appending an entry whose key hashes to the bucket and is not yet
/// stored there keeps the bucket sound.
proof fn lemma_entries_ok_push<V>(b: Seq<Entry<V>>, e: Entry<V>, i: int, cap: nat)
    requires
        entries_ok(b, i, cap),
        spec_bucket_index(e.key@, cap) == i,
        forall|x: int| 0 <= x < b.len() ==> #[trigger] b[x].key@ != e.key@,
    ensures
        entries_ok(b.push(e), i, cap),
{
    let bp = b.push(e);
    assert forall|j: int| 0 <= j < bp.len() implies spec_bucket_index(
        #[trigger] bp[j].key@,
        cap,
    ) == i by {
        if j < b.len() {
            assert(bp[j] == b[j]);
        } else {
            assert(bp[j] == e);
        }
    }
    assert forall|j1: int, j2: int|
        0 <= j1 < bp.len() && 0 <= j2 < bp.len() && j1 != j2 implies #[trigger] bp[j1].key@
        != #[trigger] bp[j2].key@ by {
        if j1 < b.len() {
            assert(bp[j1] == b[j1]);
        } else {
            assert(bp[j1] == e);
        }
        if j2 < b.len() {
            assert(bp[j2] == b[j2]);
        } else {
            assert(bp[j2] == e);
        }
    }
}

/// Replacing one entry with another holding an equal key keeps the
/// bucket sound.
proof fn lemma_entries_ok_update<V>(b: Seq<Entry<V>>, j: int, e: Entry<V>, i: int, cap: nat)
    requires
        entries_ok(b, i, cap),
        0 <= j < b.len(),
        e.key@ == b[j].key@,
    ensures
        entries_ok(b.update(j, e), i, cap),
{
    let bp = b.update(j, e);
    assert forall|x: int| 0 <= x < bp.len() implies #[trigger] bp[x].key@ == b[x].key@ by {
        if x != j {
            assert(bp[x] == b[x]);
        }
    }
}

/// Removing an entry keeps the bucket sound.
proof fn lemma_entries_ok_remove<V>(b: Seq<Entry<V>>, j: int, i: int, cap: nat)
    requires
        entries_ok(b, i, cap),
        0 <= j < b.len(),
    ensures
        entries_ok(b.remove(j), i, cap),
{
    b.remove_ensures(j);
    let bp = b.remove(j);
    assert forall|x: int| 0 <= x < bp.len() implies #[trigger] bp[x].key@ == (if x < j {
        b[x].key@
    } else {
        b[x + 1].key@
    }) by {
        if x < j {
            assert(bp[x] == b[x]);
        } else {
            assert(bp[x] == b[x + 1]);
        }
    }
    assert forall|j1: int, j2: int|
        0 <= j1 < bp.len() && 0 <= j2 < bp.len() && j1 != j2 implies #[trigger] bp[j1].key@
        != #[trigger] bp[j2].key@ by {
        let o1: int = if j1 < j { j1 } else { j1 + 1 };
        let o2: int = if j2 < j { j2 } else { j2 + 1 };
        assert(bp[j1].key@ == b[o1].key@);
        assert(bp[j2].key@ == b[o2].key@);
        assert(b[o1].key@ != b[o2].key@);
    }
}

/// Replacing the first entry stored under some key rebinds exactly that
/// key and leaves every other lookup unchanged.
proof fn lemma_bucket_get_update<V>(b: Seq<Entry<V>>, j: int, e: Entry<V>, k: Seq<char>)
    requires
        0 <= j < b.len(),
        e.key@ == b[j].key@,
        forall|x: int| 0 <= x < j ==> #[trigger] b[x].key@ != b[j].key@,
    ensures
        bucket_get(b.update(j, e), k) == if k == e.key@ {
            Some(e.value)
        } else {
            bucket_get(b, k)
        },
    decreases b.len(),
{
    let bp = b.update(j, e);
    if j == 0 {
        if k != e.key@ {
            assert(bp.drop_first() =~= b.drop_first());
        }
    } else {
        assert(bp.drop_first() =~= b.drop_first().update(j - 1, e));
        lemma_bucket_get_update(b.drop_first(), j - 1, e, k);
    }
}

/// Removing the only entry stored under some key unbinds exactly that
/// key and leaves every other lookup unchanged.
proof fn lemma_bucket_get_remove<V>(b: Seq<Entry<V>>, j: int, k: Seq<char>)
    requires
        0 <= j < b.len(),
        forall|x: int| 0 <= x < b.len() && x != j ==> #[trigger] b[x].key@ != b[j].key@,
    ensures
        bucket_get(b.remove(j), k) == if k == b[j].key@ {
            None::<V>
        } else {
            bucket_get(b, k)
        },
    decreases b.len(),
{
    b.remove_ensures(j);
    let bp = b.remove(j);
    if j == 0 {
        assert(bp =~= b.drop_first());
        if k == b[0].key@ {
            lemma_bucket_get_none(b.drop_first(), k);
        }
    } else {
        assert(bp.drop_first() =~= b.drop_first().remove(j - 1));
        lemma_bucket_get_remove(b.drop_first(), j - 1, k);
    }
}

/// Swapping out one bucket changes the entry total by the length difference.
proof fn lemma_total_entries_update<V>(bs: Seq<Vec<Entry<V>>>, i: int, b: Vec<Entry<V>>)
    requires
        0 <= i < bs.len(),
    ensures
        total_entries(bs.update(i, b)) == total_entries(bs) - bs[i]@.len() + b@.len(),
    decreases bs.len(),
{
    let bp = bs.update(i, b);
    if i == bs.len() - 1 {
        assert(bp.drop_last() =~= bs.drop_last());
    } else {
        assert(bp.drop_last() =~= bs.drop_last().update(i, b));
        lemma_total_entries_update(bs.drop_last(), i, b);
    }
}

/// The entry total dominates each single bucket's length.
proof fn lemma_total_entries_at_least<V>(bs: Seq<Vec<Entry<V>>>, i: int)
    requires
        0 <= i < bs.len(),
    ensures
        total_entries(bs) >= bs[i]@.len(),
    decreases bs.len(),
{
    if i < bs.len() - 1 {
        lemma_total_entries_at_least(bs.drop_last(), i);
    }
}

/// A run of empty buckets holds no entries.
proof fn lemma_total_entries_all_empty<V>(bs: Seq<Vec<Entry<V>>>)
    requires
        forall|x: int| 0 <= x < bs.len() ==> #[trigger] bs[x]@.len() == 0,
    ensures
        total_entries(bs) == 0,
    decreases bs.len(),
{
    if bs.len() > 0 {
        lemma_total_entries_all_empty(bs.drop_last());
    }
}

/// A bucket stores a key exactly when some entry's key matches it.
proof fn lemma_bucket_get_exists<V>(b: Seq<Entry<V>>, k: Seq<char>)
    ensures
        (bucket_get(b, k) is Some) <==> exists|j: int| 0 <= j < b.len() && #[trigger] b[j].key@
            == k,
    decreases b.len(),
{
    if b.len() > 0 {
        lemma_bucket_get_exists(b.drop_first(), k);
        if b[0].key@ == k {
        } else if bucket_get(b, k) is Some {
            let j = choose|j: int|
                0 <= j < b.drop_first().len() && #[trigger] b.drop_first()[j].key@ == k;
            assert(b[j + 1].key@ == k);
        } else {
            assert forall|j: int| 0 <= j < b.len() implies #[trigger] b[j].key@ != k by {
                if j > 0 {
                    assert(b.drop_first()[j - 1].key@ == b[j].key@);
                }
            }
        }
    }
}

/// The set of key views stored in one bucket.
spec fn bucket_keys<V>(b: Seq<Entry<V>>) -> Set<Seq<char>>
    decreases b.len(),
{
    if b.len() == 0 {
        Set::empty()
    } else {
        bucket_keys(b.drop_last()).insert(b.last().key@)
    }
}

/// A bucket's key set holds exactly the keys of its entries.
proof fn lemma_bucket_keys_contains<V>(b: Seq<Entry<V>>, k: Seq<char>)
    ensures
        bucket_keys(b).contains(k) <==> exists|j: int| 0 <= j < b.len() && #[trigger] b[j].key@
            == k,
    decreases b.len(),
{
    if b.len() > 0 {
        lemma_bucket_keys_contains(b.drop_last(), k);
        if b.last().key@ == k {
            assert(b[b.len() - 1].key@ == k);
        } else if bucket_keys(b.drop_last()).contains(k) {
            let j = choose|j: int|
                0 <= j < b.drop_last().len() && #[trigger] b.drop_last()[j].key@ == k;
            assert(b[j].key@ == k);
        } else {
            assert forall|j: int| 0 <= j < b.len() implies #[trigger] b[j].key@ != k by {
                if j < b.len() - 1 {
                    assert(b.drop_last()[j].key@ == b[j].key@);
                }
            }
        }
    }
}

/// A bucket with pairwise-distinct keys stores as many keys as entries.
proof fn lemma_bucket_keys_len<V>(b: Seq<Entry<V>>)
    requires
        forall|j1: int, j2: int|
            0 <= j1 < b.len() && 0 <= j2 < b.len() && j1 != j2 ==> #[trigger] b[j1].key@
                != #[trigger] b[j2].key@,
    ensures
        bucket_keys(b).finite(),
        bucket_keys(b).len() == b.len(),
    decreases b.len(),
{
    if b.len() > 0 {
        lemma_bucket_keys_len(b.drop_last());
        lemma_bucket_keys_contains(b.drop_last(), b.last().key@);
        assert forall|j: int| 0 <= j < b.drop_last().len() implies #[trigger] b.drop_last()[j].key@
            != b.last().key@ by {
            assert(b.drop_last()[j].key@ == b[j].key@);
            assert(b[j].key@ != b[b.len() - 1].key@);
        }
        assert(!bucket_keys(b.drop_last()).contains(b.last().key@));
    }
}

/// The keys stored in the first `i` buckets.
spec fn keys_upto<V>(bs: Seq<Vec<Entry<V>>>, i: int) -> Set<Seq<char>>
    decreases i,
{
    if i <= 0 {
        Set::empty()
    } else {
        keys_upto(bs, i - 1) + bucket_keys(bs[i - 1]@)
    }
}

/// The entries held by the first `i` buckets.
spec fn entries_upto<V>(bs: Seq<Vec<Entry<V>>>, i: int) -> nat
    decreases i,
{
    if i <= 0 {
        0
    } else {
        entries_upto(bs, i - 1) + bs[i - 1]@.len()
    }
}

proof fn lemma_entries_upto_drop_last<V>(bs: Seq<Vec<Entry<V>>>, i: int)
    requires
        0 <= i < bs.len(),
    ensures
        entries_upto(bs, i) == entries_upto(bs.drop_last(), i),
    decreases i,
{
    if i > 0 {
        lemma_entries_upto_drop_last(bs, i - 1);
        assert(bs.drop_last()[i - 1] == bs[i - 1]);
    }
}

/// Counting bucket by bucket reaches the entry total.
proof fn lemma_entries_upto_total<V>(bs: Seq<Vec<Entry<V>>>)
    ensures
        entries_upto(bs, bs.len() as int) == total_entries(bs),
    decreases bs.len(),
{
    if bs.len() > 0 {
        lemma_entries_upto_total(bs.drop_last());
        lemma_entries_upto_drop_last(bs, bs.len() - 1);
        assert(bs.last() == bs[bs.len() - 1]);
    }
}

/// A key is among the first `i` buckets' keys exactly when one of those
/// buckets stores it.
proof fn lemma_keys_upto_contains<V>(bs: Seq<Vec<Entry<V>>>, i: int, k: Seq<char>)
    ensures
        keys_upto(bs, i).contains(k) <==> exists|x: int|
            0 <= x < i && #[trigger] bucket_keys(bs[x]@).contains(k),
    decreases i,
{
    if i > 0 {
        lemma_keys_upto_contains(bs, i - 1, k);
        if bucket_keys(bs[i - 1]@).contains(k) {
            assert(keys_upto(bs, i).contains(k));
        }
    }
}

/// Under well-formedness the buckets hold pairwise-disjoint key sets, so
/// the keys of the first `i` buckets number as many as their entries.
proof fn lemma_keys_upto_len<V>(t: AssociativeTable<V>, i: int)
    requires
        t.wf(),
        0 <= i <= t.capacity(),
    ensures
        keys_upto(t.buckets@, i).finite(),
        keys_upto(t.buckets@, i).len() == entries_upto(t.buckets@, i),
    decreases i,
{
    if i > 0 {
        lemma_keys_upto_len(t, i - 1);
        let prev = keys_upto(t.buckets@, i - 1);
        let b = t.bucket_at(i - 1);
        lemma_bucket_keys_len(b);
        assert forall|k: Seq<char>| !(prev.contains(k) && bucket_keys(b).contains(k)) by {
            lemma_keys_upto_contains(t.buckets@, i - 1, k);
            lemma_bucket_keys_contains(b, k);
            if prev.contains(k) && bucket_keys(b).contains(k) {
                let x = choose|x: int|
                    0 <= x < i - 1 && #[trigger] bucket_keys(t.buckets@[x]@).contains(k);
                lemma_bucket_keys_contains(t.bucket_at(x), k);
                let jx = choose|j: int| 0 <= j < t.bucket_at(x).len() && #[trigger] t.bucket_at(x)[j].key@ == k;
                let jb = choose|j: int| 0 <= j < b.len() && #[trigger] b[j].key@ == k;
                assert(spec_bucket_index(t.bucket_at(x)[jx].key@, t.capacity()) == x);
                assert(spec_bucket_index(t.bucket_at(i - 1)[jb].key@, t.capacity()) == i - 1);
            }
        }
        assert(prev.disjoint(bucket_keys(b)));
        vstd::set_lib::lemma_set_disjoint_lens(prev, bucket_keys(b));
    }
}

/// The table's abstract domain is exactly the keys of all its buckets.
proof fn lemma_dom_is_keys<V>(t: AssociativeTable<V>)
    requires
        t.wf(),
    ensures
        t@.dom() =~= keys_upto(t.buckets@, t.capacity() as int),
{
    let cap = t.capacity() as int;
    assert forall|k: Seq<char>|
        t@.dom().contains(k) <==> keys_upto(t.buckets@, cap).contains(k) by {
        lemma_keys_upto_contains(t.buckets@, cap, k);
        let idx = spec_bucket_index(k, t.capacity()) as int;
        lemma_bucket_get_exists(t.bucket_at(idx), k);
        lemma_bucket_keys_contains(t.bucket_at(idx), k);
        if keys_upto(t.buckets@, cap).contains(k) {
            let x = choose|x: int|
                0 <= x < cap && #[trigger] bucket_keys(t.buckets@[x]@).contains(k);
            lemma_bucket_keys_contains(t.bucket_at(x), k);
            let jx = choose|j: int| 0 <= j < t.bucket_at(x).len() && #[trigger] t.bucket_at(x)[j].key@ == k;
            assert(spec_bucket_index(t.bucket_at(x)[jx].key@, t.capacity()) == x);
            assert(idx == x);
        }
    }
}

/// Size invariant: after any sequence of operations, a well-formed table's
/// `size` equals the number of distinct keys it stores, which is also the
/// entry count summed over all buckets.
pub proof fn lemma_size_counts_keys<V>(t: AssociativeTable<V>)
    requires
        t.wf(),
    ensures
        t@.dom().finite(),
        t.spec_len() == t@.dom().len(),
        t.spec_len() == t.entry_total(),
{
    lemma_dom_is_keys(t);
    lemma_keys_upto_len(t, t.capacity() as int);
    lemma_entries_upto_total(t.buckets@);
}

/// Round trip: binding a key and then looking it up yields the bound
/// value. Together with the contracts of `insert` and `get`, this pins
/// the behaviour of the call pair for every key and value.
pub proof fn lemma_insert_then_get<V>(m: Map<Seq<char>, V>, k: Seq<char>, v: V)
    ensures
        m.insert(k, v).contains_key(k),
        m.insert(k, v)[k] == v,
{
}

/// Overwrite: a second insertion under an equal key rebinds the key to
/// the newer value and, because the key is then already present, leaves
/// the table's size unchanged per the contract of `insert`.
pub proof fn lemma_insert_overwrites<V>(m: Map<Seq<char>, V>, k: Seq<char>, v1: V, v2: V)
    ensures
        m.insert(k, v1).contains_key(k),
        m.insert(k, v1).insert(k, v2)[k] == v2,
        m.insert(k, v1).insert(k, v2) =~= m.insert(k, v2),
{
}

/// Removal: a key bound by `insert` is removed with exactly that value,
/// and afterwards the key is absent.
pub proof fn lemma_insert_then_remove<V>(m: Map<Seq<char>, V>, k: Seq<char>, v: V)
    ensures
        m.insert(k, v).contains_key(k),
        m.insert(k, v)[k] == v,
        !m.insert(k, v).remove(k).contains_key(k),
{
}

/// Absence: removing a key that is not present changes nothing, matching
/// the contract of `remove`, which also leaves the table value untouched.
pub proof fn lemma_remove_absent<V>(m: Map<Seq<char>, V>, k: Seq<char>)
    requires
        !m.contains_key(k),
    ensures
        m.remove(k) =~= m,
{
}

/// Collision correctness: two distinct keys — in particular two that hash
/// to the same bucket, since nothing here depends on the bucket index —
/// are both stored and keep their own values.
pub proof fn lemma_distinct_keys_coexist<V>(
    m: Map<Seq<char>, V>,
    k1: Seq<char>,
    k2: Seq<char>,
    v1: V,
    v2: V,
)
    requires
        k1 != k2,
    ensures
        m.insert(k1, v1).insert(k2, v2).contains_key(k1),
        m.insert(k1, v1).insert(k2, v2).contains_key(k2),
        m.insert(k1, v1).insert(k2, v2)[k1] == v1,
        m.insert(k1, v1).insert(k2, v2)[k2] == v2,
{
}

} // verus!

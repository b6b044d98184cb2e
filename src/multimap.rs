//! A sharded multi-map from words to identifiers: a fixed number of buckets,
//! chosen by hashing the key, so that an update touches one bucket only.
//! Callers that share it among threads hold it behind a lock of their own.
use std::collections::hash_map::DefaultHasher;
use std::hash::Hasher;
use vstd::prelude::*;
use vstd::std_specs::hash::DefaultHasherAdditionalSpecFns;
use vstd::utf8::encode_utf8;

verus! {

/// The identifiers paired with `k` in `s`, in the order of the pairs.
pub open spec fn values_of(s: Seq<(Seq<char>, usize)>, k: Seq<char>) -> Seq<usize>
    decreases s.len(),
{
    if s.len() == 0 {
        seq![]
    } else if s.last().0 == k {
        values_of(s.drop_last(), k).push(s.last().1)
    } else {
        values_of(s.drop_last(), k)
    }
}

/// `s` after an idempotent insertion of the pair `(k, v)`: unchanged where the
/// pair is already there, else with the pair at the end.
pub open spec fn inserted(s: Seq<(Seq<char>, usize)>, k: Seq<char>, v: usize) -> Seq<
    (Seq<char>, usize),
> {
    if s.contains((k, v)) {
        s
    } else {
        s.push((k, v))
    }
}

/// One partition of the map: an ordered sequence of distinct pairs.
pub struct Bucket {
    entries: Vec<(String, usize)>,
}

impl View for Bucket {
    type V = Seq<(Seq<char>, usize)>;

    closed spec fn view(&self) -> Seq<(Seq<char>, usize)> {
        Seq::new(self.entries@.len(), |i: int| (self.entries@[i].0@, self.entries@[i].1))
    }
}

impl Bucket {
    /// No pair is held twice.
    pub open spec fn wf(&self) -> bool {
        self@.no_duplicates()
    }

    pub fn new() -> (r: Bucket)
        ensures
            r@ == Seq::<(Seq<char>, usize)>::empty(),
            r.wf(),
    {
        let r = Bucket { entries: Vec::new() };
        assert(r@ =~= Seq::<(Seq<char>, usize)>::empty());
        r
    }

    /// Adds the pair `(key, value)` at the end unless it is already held.
    pub fn insert(&mut self, key: String, value: usize)
        requires
            old(self).wf(),
        ensures
            final(self).wf(),
            final(self)@ == inserted(old(self)@, key@, value),
    {
        let ghost start = self@;
        let mut i: usize = 0;
        while i < self.entries.len()
            invariant
                i <= self@.len(),
                self@ == start,
                start == old(self)@,
                start.no_duplicates(),
                forall|j: int| 0 <= j < i ==> self@[j] != (key@, value),
            decreases self@.len() - i,
        {
            if self.entries[i].0 == key && self.entries[i].1 == value {
                assert(self@[i as int] == (key@, value));
                return;
            }
            i = i + 1;
        }
        let ghost before = self@;
        assert(!before.contains((key@, value)));
        self.entries.push((key, value));
        assert(self@ =~= before.push((key@, value)));
    }

    /// The values paired with `key`, in the order in which they were added.
    pub fn values_for(&self, key: &String) -> (r: Vec<usize>)
        ensures
            r@ == values_of(self@, key@),
    {
        let mut r: Vec<usize> = Vec::new();
        let mut i: usize = 0;
        while i < self.entries.len()
            invariant
                i <= self@.len(),
                r@ == values_of(self@.take(i as int), key@),
            decreases self@.len() - i,
        {
            assert(self@.take(i + 1).drop_last() =~= self@.take(i as int));
            if self.entries[i].0 == *key {
                r.push(self.entries[i].1);
            }
            i = i + 1;
        }
        assert(self@.take(i as int) =~= self@);
        r
    }
}

/// The bucket that `key` falls in among `count` buckets.
pub open spec fn bucket_index(key: Seq<char>, count: nat) -> nat {
    (DefaultHasher::spec_finish(seq![encode_utf8(key)]) as nat) % count
}

/// A bucket's pairs fit to stand at `index` among `count`: they are distinct
/// and each key hashes to `index`.
pub open spec fn bucket_ok(s: Seq<(Seq<char>, usize)>, index: nat, count: nat) -> bool {
    &&& s.no_duplicates()
    &&& forall|i: int| 0 <= i < s.len() ==> bucket_index(#[trigger] s[i].0, count) == index
}

/// `s` after adding `v` to a set of values kept in insertion order.
pub open spec fn added(s: Seq<usize>, v: usize) -> Seq<usize> {
    if s.contains(v) {
        s
    } else {
        s.push(v)
    }
}

/// Hashes the UTF-8 bytes of `key` with a fresh `DefaultHasher`.
pub fn hash_key(key: &String) -> (r: u64)
    ensures
        r == DefaultHasher::spec_finish(seq![encode_utf8(key@)]),
{
    let mut hasher = DefaultHasher::new();
    hasher.write(key.as_str().as_bytes());
    hasher.finish()
}

/// A map from words to identifiers in which each word may have many
/// identifiers, split into a fixed number of buckets chosen by hashing the
/// key, so that an update touches one bucket only.
pub struct ConcurrentMultiMap {
    buckets: Vec<Bucket>,
}

impl View for ConcurrentMultiMap {
    type V = Seq<Seq<(Seq<char>, usize)>>;

    /// The pairs of each bucket.
    closed spec fn view(&self) -> Seq<Seq<(Seq<char>, usize)>> {
        Seq::new(self.buckets@.len(), |i: int| self.buckets@[i]@)
    }
}

impl ConcurrentMultiMap {
    /// There is at least one bucket, and each is duplicate-free and holds only
    /// keys that hash to it.
    pub open spec fn wf(&self) -> bool {
        &&& self@.len() > 0
        &&& forall|i: int| 0 <= i < self@.len() ==> bucket_ok(#[trigger] self@[i], i as nat, self@.len())
    }

    /// The values associated with `k`, each once, in the order they were set.
    pub open spec fn values(&self, k: Seq<char>) -> Seq<usize> {
        values_of(self@[bucket_index(k, self@.len()) as int], k)
    }

    /// An empty map with `bucket_count` buckets.
    pub fn new(bucket_count: usize) -> (r: Self)
        requires
            bucket_count > 0,
        ensures
            r.wf(),
            r@.len() == bucket_count,
            forall|k: Seq<char>| #[trigger] r.values(k) == Seq::<usize>::empty(),
    {
        let mut buckets: Vec<Bucket> = Vec::with_capacity(bucket_count);
        let mut i: usize = 0;
        while i < bucket_count
            invariant
                i <= bucket_count,
                buckets@.len() == i,
                forall|j: int| 0 <= j < i ==> (#[trigger] buckets@[j])@ == Seq::<(Seq<char>, usize)>::empty(),
            decreases bucket_count - i,
        {
            buckets.push(Bucket::new());
            i = i + 1;
        }
        let r = ConcurrentMultiMap { buckets };
        assert forall|j: int| 0 <= j < r@.len() implies bucket_ok(#[trigger] r@[j], j as nat, r@.len()) by {
            assert(r@[j] == r.buckets@[j]@);
        }
        assert forall|k: Seq<char>| #[trigger] r.values(k) == Seq::<usize>::empty() by {
            let b = bucket_index(k, r@.len()) as int;
            assert(r@[b] == r.buckets@[b]@);
        }
        r
    }

    fn index_of(&self, key: &String) -> (r: usize)
        requires
            self.wf(),
        ensures
            r < self@.len(),
            r == bucket_index(key@, self@.len()),
    {
        let h = hash_key(key);
        (h % (self.buckets.len() as u64)) as usize
    }

    /// Associates `value` with `key`, in the key's bucket alone: the pair is
    /// added unless it is already held, so no pair is ever stored twice, and
    /// every other key keeps its values.
    pub fn set(&mut self, key: String, value: usize)
        requires
            old(self).wf(),
        ensures
            final(self).wf(),
            final(self)@.len() == old(self)@.len(),
            final(self).values(key@) == added(old(self).values(key@), value),
            forall|k: Seq<char>| k != key@ ==> #[trigger] final(self).values(k) == old(self).values(k),
    {
        let idx = self.index_of(&key);
        let ghost k0 = key@;
        let ghost before = self@;
        let mut bucket = self.buckets.remove(idx);
        assert(bucket@ == before[idx as int]);
        bucket.insert(key, value);
        self.buckets.insert(idx, bucket);
        assert(self@ =~= before.update(idx as int, inserted(before[idx as int], k0, value)));
        proof {
            let n = before.len();
            assert forall|i: int| 0 <= i < n implies bucket_ok(#[trigger] self@[i], i as nat, n) by {
                if i == idx {
                    assert forall|j: int| 0 <= j < self@[i].len() implies bucket_index(
                        #[trigger] self@[i][j].0,
                        n,
                    ) == i by {
                        if j < before[i].len() {
                            assert(self@[i][j] == before[i][j]);
                        }
                    }
                }
            }
            lemma_values_inserted(before[idx as int], k0, value);
            assert forall|k: Seq<char>| k != k0 implies #[trigger] self.values(k) == values_of(
                before[bucket_index(k, n) as int],
                k,
            ) by {
                lemma_values_inserted_other(before[idx as int], k0, value, k);
            }
        }
    }

    /// A copy of every value associated with `key`; empty where it has none.
    pub fn get(&self, key: &String) -> (r: Vec<usize>)
        requires
            self.wf(),
        ensures
            r@ == self.values(key@),
            r@.no_duplicates(),
    {
        let idx = self.index_of(key);
        proof {
            assert(self@[idx as int] == self.buckets@[idx as int]@);
            lemma_values_distinct(self@[idx as int], key@);
        }
        self.buckets[idx].values_for(key)
    }
}

proof fn lemma_values_push(s: Seq<(Seq<char>, usize)>, p: (Seq<char>, usize), k: Seq<char>)
    ensures
        values_of(s.push(p), k) == if p.0 == k {
            values_of(s, k).push(p.1)
        } else {
            values_of(s, k)
        },
{
    assert(s.push(p).drop_last() =~= s);
}

proof fn lemma_values_inserted(s: Seq<(Seq<char>, usize)>, k: Seq<char>, v: usize)
    ensures
        values_of(inserted(s, k, v), k) == added(values_of(s, k), v),
{
    if s.contains((k, v)) {
        lemma_values_complete(s, k, v);
    } else {
        lemma_values_push(s, (k, v), k);
        if values_of(s, k).contains(v) {
            lemma_values_held(s, k, v);
        }
    }
}

proof fn lemma_values_inserted_other(s: Seq<(Seq<char>, usize)>, k: Seq<char>, v: usize, k2: Seq<char>)
    requires
        k2 != k,
    ensures
        values_of(inserted(s, k, v), k2) == values_of(s, k2),
{
    if !s.contains((k, v)) {
        lemma_values_push(s, (k, v), k2);
    }
}

proof fn lemma_values_held(s: Seq<(Seq<char>, usize)>, k: Seq<char>, v: usize)
    requires
        values_of(s, k).contains(v),
    ensures
        s.contains((k, v)),
    decreases s.len(),
{
    let p = s.drop_last();
    if s.last().0 == k && s.last().1 == v {
        assert(s[s.len() - 1] == (k, v));
    } else {
        if s.last().0 == k {
            let i = choose|i: int| 0 <= i < values_of(s, k).len() && values_of(s, k)[i] == v;
            assert(values_of(p, k)[i] == v);
        }
        lemma_values_held(p, k, v);
        let j = choose|j: int| 0 <= j < p.len() && p[j] == (k, v);
        assert(s[j] == (k, v));
    }
}

proof fn lemma_values_distinct(s: Seq<(Seq<char>, usize)>, k: Seq<char>)
    requires
        s.no_duplicates(),
    ensures
        values_of(s, k).no_duplicates(),
    decreases s.len(),
{
    if s.len() > 0 {
        let p = s.drop_last();
        assert(p.no_duplicates());
        lemma_values_distinct(p, k);
        if s.last().0 == k {
            if values_of(p, k).contains(s.last().1) {
                lemma_values_held(p, k, s.last().1);
                let j = choose|j: int| 0 <= j < p.len() && p[j] == (k, s.last().1);
                assert(s[j] == s[s.len() - 1]);
            }
        }
    }
}

proof fn lemma_values_complete(s: Seq<(Seq<char>, usize)>, k: Seq<char>, v: usize)
    requires
        s.contains((k, v)),
    ensures
        values_of(s, k).contains(v),
    decreases s.len(),
{
    let p = s.drop_last();
    if s.last() == (k, v) {
        assert(values_of(s, k).last() == v);
    } else {
        let j = choose|j: int| 0 <= j < s.len() && s[j] == (k, v);
        assert(p[j] == (k, v));
        lemma_values_complete(p, k, v);
        let i = choose|i: int| 0 <= i < values_of(p, k).len() && values_of(p, k)[i] == v;
        if s.last().0 == k {
            assert(values_of(s, k)[i] == v);
        }
    }
}

/// Setting a value is idempotent: the value is then held exactly once, and
/// setting it again changes nothing.
pub proof fn lemma_set_idempotent(s: Seq<usize>, v: usize)
    requires
        s.no_duplicates(),
    ensures
        added(s, v).contains(v),
        added(s, v).no_duplicates(),
        added(added(s, v), v) == added(s, v),
{
    if !s.contains(v) {
        assert(s.push(v)[s.len() as int] == v);
    }
}

/// Setting values keeps every value already held, and the values held after
/// setting two values do not depend on the order in which they were set.
pub proof fn lemma_set_keeps_and_commutes(s: Seq<usize>, v: usize, w: usize)
    ensures
        forall|x: usize| s.contains(x) ==> #[trigger] added(s, v).contains(x),
        added(added(s, v), w).to_set() == added(added(s, w), v).to_set(),
{
    assert forall|x: usize| s.contains(x) implies #[trigger] added(s, v).contains(x) by {
        if !s.contains(v) {
            let j = choose|j: int| 0 <= j < s.len() && s[j] == x;
            assert(s.push(v)[j] == x);
        }
    }
    lemma_added_set(s, v);
    lemma_added_set(added(s, v), w);
    lemma_added_set(s, w);
    lemma_added_set(added(s, w), v);
    assert(added(added(s, v), w).to_set() =~= added(added(s, w), v).to_set());
}

proof fn lemma_added_set(s: Seq<usize>, v: usize)
    ensures
        added(s, v).to_set() == s.to_set().insert(v),
{
    if s.contains(v) {
        assert(s.to_set().insert(v) =~= s.to_set());
    } else {
        assert(s.push(v).to_set() =~= s.to_set().insert(v)) by {
            assert forall|x: usize| s.push(v).to_set().contains(x) <==> s.to_set().insert(v).contains(x) by {
                if s.to_set().contains(x) {
                    let j = choose|j: int| 0 <= j < s.len() && s[j] == x;
                    assert(s.push(v)[j] == x);
                }
                if s.push(v).contains(x) && x != v {
                    let j = choose|j: int| 0 <= j < s.len() + 1 && s.push(v)[j] == x;
                    assert(s[j] == x);
                }
                if x == v {
                    assert(s.push(v)[s.len() as int] == v);
                }
            }
        }
    }
}

} // verus!

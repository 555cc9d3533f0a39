//! The key/value mapping a synchronization pass works with: keys are unique,
//! iteration order is the order of first insertion, and a later insert of an
//! existing key overwrites its value in place.

use vstd::prelude::*;

verus! {

/// Abstract content of a mapping: a sequence of (key, value) pairs.
pub type KvSeq = Seq<(Seq<u8>, Seq<u8>)>;

/// Keys are unique.
pub open spec fn kv_wf<K, V>(m: Seq<(K, V)>) -> bool {
    forall|i: int, j: int| 0 <= i < j < m.len() ==> (#[trigger] m[i]).0 != (#[trigger] m[j]).0
}

/// Whether a key is present.
pub open spec fn kv_contains<K, V>(m: Seq<(K, V)>, k: K) -> bool {
    exists|i: int| 0 <= i < m.len() && (#[trigger] m[i]).0 == k
}

/// The index of a key that is present.
pub open spec fn kv_index<K, V>(m: Seq<(K, V)>, k: K) -> int {
    choose|i: int| 0 <= i < m.len() && (#[trigger] m[i]).0 == k
}

/// The value mapped to a key that is present.
pub open spec fn kv_get<K, V>(m: Seq<(K, V)>, k: K) -> V {
    m[kv_index(m, k)].1
}

/// The keys, in iteration order.
pub open spec fn kv_keys<K, V>(m: Seq<(K, V)>) -> Seq<K> {
    m.map_values(|e: (K, V)| e.0)
}

/// Insertion at the abstract level: overwrite in place or append.
pub open spec fn kv_insert<K, V>(m: Seq<(K, V)>, k: K, v: V) -> Seq<(K, V)> {
    if kv_contains(m, k) {
        m.update(kv_index(m, k), (k, v))
    } else {
        m.push((k, v))
    }
}

/// In a well-formed mapping any index holding `k` is the index of `k`.
pub proof fn lemma_kv_index_unique<K, V>(m: Seq<(K, V)>, k: K, i: int)
    requires
        kv_wf(m),
        0 <= i < m.len(),
        m[i].0 == k,
    ensures
        kv_index(m, k) == i,
        kv_contains(m, k),
        kv_get(m, k) == m[i].1,
{
    assert(kv_contains(m, k));
    let j = kv_index(m, k);
    if i < j {
        assert(m[i].0 != m[j].0);
    } else if j < i {
        assert(m[j].0 != m[i].0);
    }
}

/// Insertion keeps well-formedness, maps the new key to the new value and
/// leaves every other key unchanged.
pub proof fn lemma_kv_insert<K, V>(m: Seq<(K, V)>, k: K, v: V)
    requires
        kv_wf(m),
    ensures
        kv_wf(kv_insert(m, k, v)),
        kv_contains(kv_insert(m, k, v), k),
        kv_get(kv_insert(m, k, v), k) == v,
        forall|k2: K|
            k2 != k ==> #[trigger] kv_contains(kv_insert(m, k, v), k2) == kv_contains(m, k2),
        forall|k2: K|
            k2 != k && kv_contains(m, k2) ==> #[trigger] kv_get(kv_insert(m, k, v), k2) == kv_get(
                m,
                k2,
            ),
        kv_contains(m, k) ==> kv_keys(kv_insert(m, k, v)) == kv_keys(m),
        !kv_contains(m, k) ==> kv_keys(kv_insert(m, k, v)) == kv_keys(m).push(k),
{
    let m2 = kv_insert(m, k, v);
    if kv_contains(m, k) {
        let i = kv_index(m, k);
        assert(0 <= i < m.len() && m[i].0 == k);
        assert(kv_wf(m2));
        lemma_kv_index_unique(m2, k, i);
        assert forall|k2: K| k2 != k implies #[trigger] kv_contains(m2, k2) == kv_contains(
            m,
            k2,
        ) by {
            if kv_contains(m, k2) {
                let j = kv_index(m, k2);
                assert(j != i);
                assert(m2[j].0 == k2);
            }
            if kv_contains(m2, k2) {
                let j = kv_index(m2, k2);
                assert(j != i);
                assert(m[j].0 == k2);
            }
        }
        assert forall|k2: K| k2 != k && kv_contains(m, k2) implies #[trigger] kv_get(
            m2,
            k2,
        ) == kv_get(m, k2) by {
            let j = kv_index(m, k2);
            assert(j != i);
            assert(m2[j].0 == k2);
            lemma_kv_index_unique(m2, k2, j);
        }
        assert(kv_keys(m2) =~= kv_keys(m));
    } else {
        let n = m.len() as int;
        assert(m2[n].0 == k);
        assert forall|i: int, j: int| 0 <= i < j < m2.len() implies (#[trigger] m2[i]).0 != (
        #[trigger] m2[j]).0 by {
            if j < n {
                assert(m[i].0 != m[j].0);
            } else {
                assert(m2[i].0 == m[i].0);
                assert(!kv_contains(m, k) ==> m[i].0 != k);
            }
        }
        lemma_kv_index_unique(m2, k, n);
        assert forall|k2: K| k2 != k implies #[trigger] kv_contains(m2, k2) == kv_contains(
            m,
            k2,
        ) by {
            if kv_contains(m, k2) {
                let j = kv_index(m, k2);
                assert(m2[j].0 == k2);
            }
            if kv_contains(m2, k2) {
                let j = kv_index(m2, k2);
                assert(j != n);
                assert(m[j].0 == k2);
            }
        }
        assert forall|k2: K| k2 != k && kv_contains(m, k2) implies #[trigger] kv_get(
            m2,
            k2,
        ) == kv_get(m, k2) by {
            let j = kv_index(m, k2);
            assert(m2[j].0 == k2);
            lemma_kv_index_unique(m2, k2, j);
        }
        assert(kv_keys(m2) =~= kv_keys(m).push(k));
    }
}

/// A key/value mapping with unique keys and a stable iteration order.
pub struct KvMap {
    entries: Vec<(Vec<u8>, Vec<u8>)>,
}

impl View for KvMap {
    type V = KvSeq;

    closed spec fn view(&self) -> KvSeq {
        self.entries@.map_values(|e: (Vec<u8>, Vec<u8>)| (e.0@, e.1@))
    }
}

impl KvMap {
    /// Every constructed mapping keeps its keys unique.
    pub open spec fn wf(&self) -> bool {
        kv_wf(self@)
    }

    /// An empty mapping.
    pub fn new() -> (r: KvMap)
        ensures
            r.wf(),
            r@ == Seq::<(Seq<u8>, Seq<u8>)>::empty(),
    {
        let r = KvMap { entries: Vec::new() };
        proof {
            assert(r@ =~= Seq::<(Seq<u8>, Seq<u8>)>::empty());
        }
        r
    }

    /// Number of entries.
    pub fn len(&self) -> (r: usize)
        ensures
            r == self@.len(),
    {
        self.entries.len()
    }

    /// Whether the mapping has no entries.
    pub fn is_empty(&self) -> (r: bool)
        ensures
            r == (self@.len() == 0),
    {
        self.entries.len() == 0
    }

    /// Removes every entry.
    pub fn clear(&mut self)
        ensures
            final(self).wf(),
            final(self)@ == Seq::<(Seq<u8>, Seq<u8>)>::empty(),
    {
        self.entries.clear();
        proof {
            assert(self@ =~= Seq::<(Seq<u8>, Seq<u8>)>::empty());
        }
    }

    /// Position of a key, if present.
    fn index_of(&self, k: &Vec<u8>) -> (r: Option<usize>)
        requires
            self.wf(),
        ensures
            match r {
                Some(i) => 0 <= i < self@.len() && self@[i as int].0 == k@ && kv_contains(
                    self@,
                    k@,
                ) && kv_index(self@, k@) == i,
                None => !kv_contains(self@, k@),
            },
    {
        let mut i: usize = 0;
        while i < self.entries.len()
            invariant
                0 <= i <= self@.len(),
                self@.len() == self.entries@.len(),
                self.wf(),
                forall|j: int| 0 <= j < i ==> (#[trigger] self@[j]).0 != k@,
            decreases self@.len() - i,
        {
            if crate::bytes::bytes_eq(&self.entries[i].0, k) {
                proof {
                    lemma_kv_index_unique(self@, k@, i as int);
                }
                return Some(i);
            }
            i += 1;
        }
        proof {
            if kv_contains(self@, k@) {
                let j = kv_index(self@, k@);
                assert(self@[j].0 != k@);
            }
        }
        None
    }

    /// Whether a key is present.
    pub fn contains_key(&self, k: &Vec<u8>) -> (r: bool)
        requires
            self.wf(),
        ensures
            r == kv_contains(self@, k@),
    {
        match self.index_of(k) {
            Some(_) => true,
            None => false,
        }
    }

    /// The value mapped to a key, if present.
    pub fn get(&self, k: &Vec<u8>) -> (r: Option<&Vec<u8>>)
        requires
            self.wf(),
        ensures
            match r {
                Some(v) => kv_contains(self@, k@) && v@ == kv_get(self@, k@),
                None => !kv_contains(self@, k@),
            },
    {
        match self.index_of(k) {
            Some(i) => Some(&self.entries[i].1),
            None => None,
        }
    }

    /// Inserts a key/value pair; an existing key keeps its position and takes
    /// the new value, a new key goes to the end.
    pub fn insert(&mut self, k: Vec<u8>, v: Vec<u8>)
        requires
            old(self).wf(),
        ensures
            final(self).wf(),
            final(self)@ == kv_insert(old(self)@, k@, v@),
    {
        proof {
            lemma_kv_insert(self@, k@, v@);
        }
        match self.index_of(&k) {
            Some(i) => {
                let ghost before = self@;
                self.entries[i] = (k, v);
                proof {
                    assert(self@ =~= before.update(i as int, (k@, v@)));
                }
            },
            None => {
                let ghost before = self@;
                self.entries.push((k, v));
                proof {
                    assert(self@ =~= before.push((k@, v@)));
                }
            },
        }
    }

    /// The key at an iteration position.
    pub fn key_at(&self, i: usize) -> (r: &Vec<u8>)
        requires
            i < self@.len(),
        ensures
            r@ == self@[i as int].0,
    {
        &self.entries[i].0
    }

    /// The value at an iteration position.
    pub fn value_at(&self, i: usize) -> (r: &Vec<u8>)
        requires
            i < self@.len(),
        ensures
            r@ == self@[i as int].1,
    {
        &self.entries[i].1
    }

    /// A copy of the mapping.
    pub fn clone_map(&self) -> (r: KvMap)
        requires
            self.wf(),
        ensures
            r.wf(),
            r@ == self@,
    {
        let mut entries: Vec<(Vec<u8>, Vec<u8>)> = Vec::new();
        let mut i: usize = 0;
        while i < self.entries.len()
            invariant
                0 <= i <= self@.len(),
                self@.len() == self.entries@.len(),
                entries@.map_values(|e: (Vec<u8>, Vec<u8>)| (e.0@, e.1@)) == self@.take(i as int),
            decreases self@.len() - i,
        {
            let ghost before = entries@.map_values(|e: (Vec<u8>, Vec<u8>)| (e.0@, e.1@));
            let kc = clone_bytes(&self.entries[i].0);
            let vc = clone_bytes(&self.entries[i].1);
            entries.push((kc, vc));
            proof {
                assert(entries@.map_values(|e: (Vec<u8>, Vec<u8>)| (e.0@, e.1@)) =~= before.push(
                    (self@[i as int].0, self@[i as int].1),
                ));
                assert(before.push((self@[i as int].0, self@[i as int].1)) =~= self@.take(i + 1));
            }
            i += 1;
        }
        let r = KvMap { entries };
        proof {
            assert(self@.take(self@.len() as int) =~= self@);
        }
        r
    }
}

/// A copy of a byte vector.
pub fn clone_bytes(v: &Vec<u8>) -> (r: Vec<u8>)
    ensures
        r@ == v@,
{
    let mut r: Vec<u8> = Vec::new();
    let mut i: usize = 0;
    while i < v.len()
        invariant
            0 <= i <= v@.len(),
            r@ == v@.take(i as int),
        decreases v@.len() - i,
    {
        r.push(v[i]);
        proof {
            assert(v@.take(i as int).push(v@[i as int]) =~= v@.take(i + 1));
        }
        i += 1;
    }
    proof {
        assert(v@.take(v@.len() as int) =~= v@);
    }
    r
}

/// A set of keys already seen during one merge.
pub struct KeySet {
    items: Vec<Vec<u8>>,
}

impl KeySet {
    /// The abstract set of keys.
    pub closed spec fn to_set(&self) -> Set<Seq<u8>> {
        self.items@.map_values(|v: Vec<u8>| v@).to_set()
    }

    /// An empty set.
    pub fn new() -> (r: KeySet)
        ensures
            r.to_set() == Set::<Seq<u8>>::empty(),
    {
        let r = KeySet { items: Vec::new() };
        proof {
            assert(r.items@.map_values(|v: Vec<u8>| v@) =~= Seq::<Seq<u8>>::empty());
            assert(r.to_set() =~= Set::<Seq<u8>>::empty());
        }
        r
    }

    /// Membership test.
    pub fn contains(&self, k: &Vec<u8>) -> (r: bool)
        ensures
            r == self.to_set().contains(k@),
    {
        let mut i: usize = 0;
        while i < self.items.len()
            invariant
                0 <= i <= self.items@.len(),
                forall|j: int| 0 <= j < i ==> (#[trigger] self.items@[j])@ != k@,
            decreases self.items@.len() - i,
        {
            if crate::bytes::bytes_eq(&self.items[i], k) {
                proof {
                    let s = self.items@.map_values(|v: Vec<u8>| v@);
                    assert(s[i as int] == k@);
                    assert(s.to_set().contains(k@));
                }
                return true;
            }
            i += 1;
        }
        proof {
            let s = self.items@.map_values(|v: Vec<u8>| v@);
            if s.to_set().contains(k@) {
                let j = choose|j: int| 0 <= j < s.len() && s[j] == k@;
                assert((self.items@[j])@ == k@);
            }
        }
        false
    }

    /// Adds a key.
    pub fn add(&mut self, k: Vec<u8>)
        ensures
            final(self).to_set() == old(self).to_set().insert(k@),
    {
        let ghost before = self.items@.map_values(|v: Vec<u8>| v@);
        self.items.push(k);
        proof {
            assert(self.items@.map_values(|v: Vec<u8>| v@) =~= before + seq![k@]);
            Seq::<Seq<u8>>::lemma_to_set_insert_commutes(before, k@);
        }
    }
}

} // verus!

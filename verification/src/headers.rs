//! A small association list from header names to values. Insertion
//! overwrites the value of an existing name, so names stay unique; the
//! order of first insertion is kept.

use vstd::prelude::*;

verus! {

/// Index of the first entry with name `k`, or -1 when there is none.
pub open spec fn key_index(hs: Seq<(Seq<u8>, Seq<u8>)>, k: Seq<u8>) -> int
    decreases hs.len(),
{
    if hs.len() == 0 {
        -1
    } else if hs[0].0 == k {
        0
    } else {
        let r = key_index(hs.drop_first(), k);
        if r == -1 {
            -1
        } else {
            r + 1
        }
    }
}

pub open spec fn has_key(hs: Seq<(Seq<u8>, Seq<u8>)>, k: Seq<u8>) -> bool {
    key_index(hs, k) != -1
}

/// The value mapped to `k`; meaningful only when `has_key` holds.
pub open spec fn value_of(hs: Seq<(Seq<u8>, Seq<u8>)>, k: Seq<u8>) -> Seq<u8> {
    if has_key(hs, k) {
        hs[key_index(hs, k)].1
    } else {
        Seq::empty()
    }
}

/// Insertion with overwrite: replaces the value of an existing name in
/// place, appends a new name at the end.
pub open spec fn upsert(hs: Seq<(Seq<u8>, Seq<u8>)>, k: Seq<u8>, v: Seq<u8>) -> Seq<
    (Seq<u8>, Seq<u8>),
> {
    if has_key(hs, k) {
        hs.update(key_index(hs, k), (k, v))
    } else {
        hs.push((k, v))
    }
}

pub open spec fn unique_keys(hs: Seq<(Seq<u8>, Seq<u8>)>) -> bool {
    forall|i: int, j: int| 0 <= i < j < hs.len() ==> (#[trigger] hs[i]).0 != (#[trigger] hs[j]).0
}

/// `key_index` finds the leftmost entry with the name, and only real ones.
pub proof fn lemma_key_index(hs: Seq<(Seq<u8>, Seq<u8>)>, k: Seq<u8>)
    ensures
        key_index(hs, k) == -1 ==> forall|i: int|
            0 <= i < hs.len() ==> (#[trigger] hs[i]).0 != k,
        key_index(hs, k) != -1 ==> {
            &&& 0 <= key_index(hs, k) < hs.len()
            &&& hs[key_index(hs, k)].0 == k
            &&& forall|i: int| 0 <= i < key_index(hs, k) ==> (#[trigger] hs[i]).0 != k
        },
    decreases hs.len(),
{
    if hs.len() > 0 && hs[0].0 != k {
        lemma_key_index(hs.drop_first(), k);
        assert forall|i: int| 1 <= i < hs.len() implies hs[i] == hs.drop_first()[i - 1] by {}
    }
}

/// A leftmost entry with the name pins `key_index` down to it.
pub proof fn lemma_key_index_unique(hs: Seq<(Seq<u8>, Seq<u8>)>, k: Seq<u8>, r: int)
    requires
        r == -1 ==> forall|i: int| 0 <= i < hs.len() ==> (#[trigger] hs[i]).0 != k,
        r != -1 ==> 0 <= r < hs.len() && hs[r].0 == k && forall|i: int|
            0 <= i < r ==> (#[trigger] hs[i]).0 != k,
    ensures
        key_index(hs, k) == r,
{
    lemma_key_index(hs, k);
}

/// Insertion with overwrite keeps names unique.
pub proof fn lemma_upsert_unique(hs: Seq<(Seq<u8>, Seq<u8>)>, k: Seq<u8>, v: Seq<u8>)
    requires
        unique_keys(hs),
    ensures
        unique_keys(upsert(hs, k, v)),
{
    lemma_key_index(hs, k);
}

/// After insertion the name maps to the new value; other names keep theirs.
pub proof fn lemma_upsert_value(hs: Seq<(Seq<u8>, Seq<u8>)>, k: Seq<u8>, v: Seq<u8>)
    ensures
        has_key(upsert(hs, k, v), k),
        value_of(upsert(hs, k, v), k) == v,
        forall|k2: Seq<u8>|
            k2 != k ==> #[trigger] has_key(upsert(hs, k, v), k2) == has_key(hs, k2),
        forall|k2: Seq<u8>|
            k2 != k ==> #[trigger] value_of(upsert(hs, k, v), k2) == value_of(hs, k2),
{
    lemma_key_index(hs, k);
    let hs2 = upsert(hs, k, v);
    if has_key(hs, k) {
        lemma_key_index_unique(hs2, k, key_index(hs, k));
    } else {
        lemma_key_index_unique(hs2, k, hs.len() as int);
    }
    assert forall|k2: Seq<u8>| k2 != k implies #[trigger] has_key(hs2, k2) == has_key(
        hs,
        k2,
    ) by {
        lemma_key_index(hs, k2);
        lemma_key_index_unique(hs2, k2, key_index(hs, k2));
    }
    assert forall|k2: Seq<u8>| k2 != k implies #[trigger] value_of(hs2, k2) == value_of(
        hs,
        k2,
    ) by {
        lemma_key_index(hs, k2);
        lemma_key_index_unique(hs2, k2, key_index(hs, k2));
    }
}

/// Header names mapped to values, names unique.
pub struct HeaderMap {
    entries: Vec<(Vec<u8>, Vec<u8>)>,
}

impl View for HeaderMap {
    type V = Seq<(Seq<u8>, Seq<u8>)>;

    closed spec fn view(&self) -> Seq<(Seq<u8>, Seq<u8>)> {
        self.entries@.map_values(|e: (Vec<u8>, Vec<u8>)| (e.0@, e.1@))
    }
}

impl HeaderMap {
    pub fn new() -> (r: HeaderMap)
        ensures
            r@ == Seq::<(Seq<u8>, Seq<u8>)>::empty(),
    {
        let r = HeaderMap { entries: Vec::new() };
        proof {
            assert(r@ =~= Seq::<(Seq<u8>, Seq<u8>)>::empty());
        }
        r
    }

    pub fn len(&self) -> (r: usize)
        ensures
            r == self@.len(),
    {
        self.entries.len()
    }

    /// The entry at position `i`, for walking the map in order.
    pub fn entry_at(&self, i: usize) -> (r: (&Vec<u8>, &Vec<u8>))
        requires
            i < self@.len(),
        ensures
            r.0@ == self@[i as int].0,
            r.1@ == self@[i as int].1,
    {
        let e = &self.entries[i];
        (&e.0, &e.1)
    }

    /// Position of the entry named `k`, if any.
    pub fn find(&self, k: &[u8]) -> (r: Option<usize>)
        ensures
            match r {
                Option::Some(i) => i == key_index(self@, k@) && i < self@.len(),
                Option::None => key_index(self@, k@) == -1,
            },
    {
        let n = self.entries.len();
        let mut i: usize = 0;
        while i < n
            invariant
                n == self@.len(),
                n == self.entries@.len(),
                i <= n,
                forall|j: int| 0 <= j < i ==> (#[trigger] self@[j]).0 != k@,
            decreases n - i,
        {
            if crate::ascii::bytes_eq(self.entries[i].0.as_slice(), k) {
                proof {
                    lemma_key_index_unique(self@, k@, i as int);
                }
                return Some(i);
            }
            i += 1;
        }
        proof {
            lemma_key_index_unique(self@, k@, -1);
        }
        None
    }

    pub fn contains_key(&self, k: &[u8]) -> (r: bool)
        ensures
            r == has_key(self@, k@),
    {
        self.find(k).is_some()
    }

    /// The value of the entry named `k`, if any.
    pub fn get(&self, k: &[u8]) -> (r: Option<&Vec<u8>>)
        ensures
            match r {
                Option::Some(v) => has_key(self@, k@) && v@ == value_of(self@, k@),
                Option::None => !has_key(self@, k@),
            },
    {
        match self.find(k) {
            Some(i) => Some(&self.entries[i].1),
            None => None,
        }
    }

    /// Maps `k` to `v`, replacing the value of an existing entry in place.
    pub fn insert(&mut self, k: Vec<u8>, v: Vec<u8>)
        ensures
            final(self)@ == upsert(old(self)@, k@, v@),
    {
        let ghost hs = self@;
        match self.find(k.as_slice()) {
            Some(i) => {
                self.entries[i] = (k, v);
                proof {
                    assert(self@ =~= hs.update(key_index(hs, k@), (k@, v@)));
                }
            },
            None => {
                self.entries.push((k, v));
                proof {
                    assert(self@ =~= hs.push((k@, v@)));
                }
            },
        }
    }
}

} // verus!

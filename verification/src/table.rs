//! Lookup tables keyed by byte strings: an entry list with a hash index over it.

use crate::hash::fnv1a_from;
use crate::hash::FNV_OFFSET;
use std::collections::HashMap;
use vstd::prelude::*;

verus! {

/// One row of a `PairTable`.
pub struct PairEntry {
    pub left: Vec<u8>,
    pub right: Vec<u8>,
    pub value: u32,
}

/// A map from pairs of byte strings to numbers. `entries` holds the rows, no
/// key twice; `index` lists the rows of each key hash.
pub struct PairTable {
    entries: Vec<PairEntry>,
    index: HashMap<u64, Vec<usize>>,
}

/// The hash under which a key is indexed.
pub open spec fn pair_hash(left: Seq<u8>, right: Seq<u8>) -> u64 {
    crate::hash::fnv_from(crate::hash::fnv_from(FNV_OFFSET, left), right)
}

/// Row `i` of `entries` carries the key `(left, right)`.
spec fn row_has_key(entries: Seq<PairEntry>, i: int, key: (Seq<u8>, Seq<u8>)) -> bool {
    0 <= i < entries.len() && entries[i].left@ == key.0 && entries[i].right@ == key.1
}

/// Position `i` stands in the bucket of `hash`.
spec fn indexed(index: Map<u64, Vec<usize>>, hash: u64, i: int) -> bool {
    index.contains_key(hash) && exists|b: int|
        0 <= b < index[hash]@.len() && #[trigger] index[hash]@[b] == i
}

/// Byte-wise equality of two slices.
pub fn same_bytes(a: &[u8], b: &[u8]) -> (same: bool)
    ensures
        same == (a@ == b@),
{
    if a.len() != b.len() {
        return false;
    }
    for i in 0..a.len()
        invariant
            a@.len() == b@.len(),
            forall|j: int| 0 <= j < i ==> a@[j] == b@[j],
    {
        if a[i] != b[i] {
            return false;
        }
    }
    proof {
        assert(a@ =~= b@);
    }
    true
}

/// A copy of a byte slice.
pub fn copy_bytes(a: &[u8]) -> (copy: Vec<u8>)
    ensures
        copy@ == a@,
{
    let mut copy: Vec<u8> = Vec::with_capacity(a.len());
    for i in 0..a.len()
        invariant
            copy@ == a@.take(i as int),
    {
        copy.push(a[i]);
        proof {
            assert(a@.take(i as int).push(a@[i as int]) =~= a@.take(i + 1));
        }
    }
    proof {
        assert(a@.take(a@.len() as int) =~= a@);
    }
    copy
}

impl View for PairTable {
    type V = Map<(Seq<u8>, Seq<u8>), u32>;

    closed spec fn view(&self) -> Map<(Seq<u8>, Seq<u8>), u32> {
        Map::new(
            |key: (Seq<u8>, Seq<u8>)| exists|i: int| row_has_key(self.entries@, i, key),
            |key: (Seq<u8>, Seq<u8>)|
                self.entries@[choose|i: int| row_has_key(self.entries@, i, key)].value,
        )
    }
}

impl PairTable {
    /// No key occurs twice, and the index lists exactly the rows.
    pub closed spec fn wf(&self) -> bool {
        &&& forall|i: int, j: int|
            0 <= i < j < self.entries@.len() ==> !(#[trigger] self.entries@[i].left@
                == #[trigger] self.entries@[j].left@ && self.entries@[i].right@
                == self.entries@[j].right@)
        &&& forall|i: int|
            0 <= i < self.entries@.len() ==> indexed(
                self.index@,
                pair_hash((#[trigger] self.entries@[i]).left@, self.entries@[i].right@),
                i,
            )
        &&& forall|h: u64, b: int|
            self.index@.contains_key(h) && 0 <= b < self.index@[h]@.len()
                ==> #[trigger] self.index@[h]@[b] < self.entries@.len()
    }

    /// The row that carries a key determines what the map holds there.
    proof fn lemma_row(&self, i: int, key: (Seq<u8>, Seq<u8>))
        requires
            self.wf(),
            row_has_key(self.entries@, i, key),
        ensures
            self@.contains_key(key),
            self@[key] == self.entries@[i].value,
    {
        let k = choose|k: int| row_has_key(self.entries@, k, key);
        assert(row_has_key(self.entries@, k, key));
        if k < i {
            assert(self.entries@[k].left@ == self.entries@[i].left@);
        } else if i < k {
            assert(self.entries@[i].left@ == self.entries@[k].left@);
        }
    }

    /// The empty table.
    pub fn new() -> (t: PairTable)
        ensures
            t.wf(),
            t@ == Map::<(Seq<u8>, Seq<u8>), u32>::empty(),
    {
        broadcast use vstd::std_specs::hash::group_hash_axioms;

        let t = PairTable { entries: Vec::new(), index: HashMap::new() };
        proof {
            assert(t@ =~= Map::<(Seq<u8>, Seq<u8>), u32>::empty());
        }
        t
    }

    /// The row of a key, if any.
    fn find(&self, left: &[u8], right: &[u8]) -> (row: Option<usize>)
        requires
            self.wf(),
        ensures
            row matches Some(i) ==> row_has_key(self.entries@, i as int, (left@, right@)),
            row is None ==> !self@.contains_key((left@, right@)),
    {
        broadcast use vstd::std_specs::hash::group_hash_axioms;

        let hash: u64 = fnv1a_from(fnv1a_from(FNV_OFFSET, left), right);
        match self.index.get(&hash) {
            Some(bucket) => {
                for b in 0..bucket.len()
                    invariant
                        self.wf(),
                        self.index@.contains_key(hash),
                        self.index@[hash] == *bucket,
                        forall|c: int|
                            0 <= c < b ==> !row_has_key(
                                self.entries@,
                                #[trigger] bucket@[c] as int,
                                (left@, right@),
                            ),
                {
                    proof {
                        assert(self.index@[hash]@[b as int] < self.entries@.len());
                    }
                    let at: usize = bucket[b];
                    let entry = &self.entries[at];
                    if same_bytes(entry.left.as_slice(), left) && same_bytes(
                        entry.right.as_slice(),
                        right,
                    ) {
                        return Some(at);
                    }
                }
                proof {
                    if self@.contains_key((left@, right@)) {
                        let i = choose|i: int| row_has_key(self.entries@, i, (left@, right@));
                        assert(row_has_key(self.entries@, i, (left@, right@)));
                        assert(indexed(
                            self.index@,
                            pair_hash(self.entries@[i].left@, self.entries@[i].right@),
                            i,
                        ));
                        let c = choose|c: int|
                            0 <= c < self.index@[hash]@.len() && self.index@[hash]@[c] == i;
                        assert(bucket@[c] == i);
                    }
                }
                None
            },
            None => {
                proof {
                    if self@.contains_key((left@, right@)) {
                        let i = choose|i: int| row_has_key(self.entries@, i, (left@, right@));
                        assert(indexed(
                            self.index@,
                            pair_hash(self.entries@[i].left@, self.entries@[i].right@),
                            i,
                        ));
                    }
                }
                None
            },
        }
    }

    /// The number stored under a key.
    pub fn get(&self, left: &[u8], right: &[u8]) -> (value: Option<u32>)
        requires
            self.wf(),
        ensures
            value == (if self@.contains_key((left@, right@)) {
                Some(self@[(left@, right@)])
            } else {
                None::<u32>
            }),
    {
        match self.find(left, right) {
            Some(i) => {
                proof {
                    self.lemma_row(i as int, (left@, right@));
                }
                Some(self.entries[i].value)
            },
            None => None,
        }
    }

    /// Stores a number under a key, replacing what stood there; tells whether
    /// the key was free.
    pub fn insert(&mut self, left: Vec<u8>, right: Vec<u8>, value: u32) -> (fresh: bool)
        requires
            old(self).wf(),
        ensures
            final(self).wf(),
            final(self)@ == old(self)@.insert((left@, right@), value),
            fresh == !old(self)@.contains_key((left@, right@)),
    {
        broadcast use vstd::std_specs::hash::group_hash_axioms;

        let ghost before = *self;
        let ghost key = (left@, right@);
        match self.find(left.as_slice(), right.as_slice()) {
            Some(i) => {
                proof {
                    self.lemma_row(i as int, key);
                }
                let entry = PairEntry { left, right, value };
                self.entries.set(i, entry);
                proof {
                    assert forall|k: int| 0 <= k < self.entries@.len() implies #[trigger] self.entries@[k].left@
                        == before.entries@[k].left@ && self.entries@[k].right@
                        == before.entries@[k].right@ by {}
                    assert(self.wf());
                    assert(row_has_key(self.entries@, i as int, key));
                    self.lemma_row(i as int, key);
                    assert forall|k: (Seq<u8>, Seq<u8>)| self@.contains_key(k)
                        <==> before@.contains_key(k) by {
                        if self@.contains_key(k) {
                            let r = choose|r: int| row_has_key(self.entries@, r, k);
                            assert(row_has_key(before.entries@, r, k));
                        }
                        if before@.contains_key(k) {
                            let r = choose|r: int| row_has_key(before.entries@, r, k);
                            assert(row_has_key(self.entries@, r, k));
                        }
                    }
                    assert forall|k: (Seq<u8>, Seq<u8>)| self@.contains_key(k) && k
                        != key implies #[trigger] self@[k] == before@[k] by {
                        let r = choose|r: int| row_has_key(self.entries@, r, k);
                        assert(row_has_key(self.entries@, r, k));
                        assert(row_has_key(before.entries@, r, k));
                        self.lemma_row(r, k);
                        before.lemma_row(r, k);
                    }
                    assert(self@ =~= before@.insert(key, value));
                }
                false
            },
            None => {
                let hash: u64 = fnv1a_from(
                    fnv1a_from(FNV_OFFSET, left.as_slice()),
                    right.as_slice(),
                );
                let at: usize = self.entries.len();
                let mut bucket: Vec<usize> = match self.index.remove(&hash) {
                    Some(b) => b,
                    None => Vec::new(),
                };
                let ghost old_bucket = bucket@;
                bucket.push(at);
                self.index.insert(hash, bucket);
                let entry = PairEntry { left, right, value };
                self.entries.push(entry);
                proof {
                    assert(self.index@ =~= before.index@.insert(hash, bucket));
                    assert(before.index@.contains_key(hash) ==> before.index@[hash]@
                        == old_bucket);
                    assert forall|i: int| 0 <= i < self.entries@.len() implies indexed(
                        self.index@,
                        pair_hash((#[trigger] self.entries@[i]).left@, self.entries@[i].right@),
                        i,
                    ) by {
                        if i < at {
                            assert(self.entries@[i] == before.entries@[i]);
                            let h = pair_hash(
                                before.entries@[i].left@,
                                before.entries@[i].right@,
                            );
                            assert(indexed(before.index@, h, i));
                            let c = choose|c: int|
                                0 <= c < before.index@[h]@.len() && before.index@[h]@[c] == i;
                            if h == hash {
                                assert(self.index@[h]@[c] == old_bucket[c]);
                            } else {
                                assert(self.index@[h]@[c] == i);
                            }
                        } else {
                            assert(self.index@[hash]@[old_bucket.len() as int] == at);
                        }
                    }
                    assert forall|h: u64, b: int|
                        self.index@.contains_key(h) && 0 <= b
                            < self.index@[h]@.len() implies #[trigger] self.index@[h]@[b]
                        < self.entries@.len() by {
                        if h == hash {
                            if b < old_bucket.len() {
                                assert(before.index@.contains_key(h));
                                assert(before.index@[h]@[b] < before.entries@.len());
                            }
                        } else {
                            assert(before.index@[h]@[b] < before.entries@.len());
                        }
                    }
                    assert forall|i: int, j: int| 0 <= i < j < self.entries@.len() implies !(
                    #[trigger] self.entries@[i].left@ == #[trigger] self.entries@[j].left@
                        && self.entries@[i].right@ == self.entries@[j].right@) by {
                        if j == at {
                            if self.entries@[i].left@ == left@ && self.entries@[i].right@
                                == right@ {
                                assert(row_has_key(before.entries@, i, key));
                            }
                        }
                    }
                    assert(self.wf());
                    assert(row_has_key(self.entries@, at as int, key));
                    self.lemma_row(at as int, key);
                    assert forall|k: (Seq<u8>, Seq<u8>)| #[trigger] self@.contains_key(k)
                        <==> (before@.contains_key(k) || k == key) by {
                        if self@.contains_key(k) {
                            let r = choose|r: int| row_has_key(self.entries@, r, k);
                            if r < at {
                                assert(row_has_key(before.entries@, r, k));
                            }
                        }
                        if before@.contains_key(k) {
                            let r = choose|r: int| row_has_key(before.entries@, r, k);
                            assert(row_has_key(self.entries@, r, k));
                        }
                    }
                    assert forall|k: (Seq<u8>, Seq<u8>)| before@.contains_key(k) && k
                        != key implies #[trigger] self@[k] == before@[k] by {
                        let r = choose|r: int| row_has_key(before.entries@, r, k);
                        assert(row_has_key(before.entries@, r, k));
                        assert(row_has_key(self.entries@, r, k));
                        self.lemma_row(r, k);
                        before.lemma_row(r, k);
                    }
                    assert(self@ =~= before@.insert(key, value));
                }
                true
            },
        }
    }
}

/// A map from byte strings to numbers.
pub struct ByteTable {
    rows: PairTable,
}

impl View for ByteTable {
    type V = Map<Seq<u8>, u32>;

    closed spec fn view(&self) -> Map<Seq<u8>, u32> {
        Map::new(
            |key: Seq<u8>| self.rows@.contains_key((key, Seq::<u8>::empty())),
            |key: Seq<u8>| self.rows@[(key, Seq::<u8>::empty())],
        )
    }
}

impl ByteTable {
    /// The rows form a proper map.
    pub closed spec fn wf(&self) -> bool {
        self.rows.wf()
    }

    /// The empty table.
    pub fn new() -> (t: ByteTable)
        ensures
            t.wf(),
            t@ == Map::<Seq<u8>, u32>::empty(),
    {
        let t = ByteTable { rows: PairTable::new() };
        proof {
            assert(t@ =~= Map::<Seq<u8>, u32>::empty());
        }
        t
    }

    /// The number stored under a key.
    pub fn get(&self, key: &[u8]) -> (value: Option<u32>)
        requires
            self.wf(),
        ensures
            value == (if self@.contains_key(key@) {
                Some(self@[key@])
            } else {
                None::<u32>
            }),
    {
        let none: Vec<u8> = Vec::new();
        proof {
            assert(none@ =~= Seq::<u8>::empty());
        }
        self.rows.get(key, none.as_slice())
    }

    /// Stores a number under a key, replacing what stood there; tells whether
    /// the key was free.
    pub fn insert(&mut self, key: Vec<u8>, value: u32) -> (fresh: bool)
        requires
            old(self).wf(),
        ensures
            final(self).wf(),
            final(self)@ == old(self)@.insert(key@, value),
            fresh == !old(self)@.contains_key(key@),
    {
        let ghost before = self@;
        let none: Vec<u8> = Vec::new();
        proof {
            assert(none@ =~= Seq::<u8>::empty());
        }
        let fresh = self.rows.insert(key, none, value);
        proof {
            assert(self@ =~= before.insert(key@, value));
        }
        fresh
    }
}

} // verus!

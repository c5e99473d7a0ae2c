//! The flat key-value substrate: an in-memory table of rows keyed by opaque
//! byte strings.  The list engine sees it as a map with compare-free
//! primitive writes, plus a fingerprint-indexed scan.
use crate::hashing::{hash_bytes, spec_hash, PartedHash};
use crate::layout::slice_to_vec_u8;
use crate::{GetOrCreateStatus, ReplaceStatus, SetStatus};
use vstd::prelude::*;

verus! {

/// Copies an owned byte vector.
pub fn clone_bytes(v: &Vec<u8>) -> (r: Vec<u8>)
    ensures
        r@ == v@,
{
    let r = v.clone();
    proof {
        assert(r@ =~= v@);
    }
    r
}

/// Compares two byte strings.
pub fn bytes_eq(a: &[u8], b: &[u8]) -> (r: bool)
    ensures
        r == (a@ == b@),
{
    if a.len() != b.len() {
        proof {
            assert(a@.len() != b@.len());
        }
        return false;
    }
    let mut i: usize = 0;
    while i < a.len()
        invariant
            0 <= i <= a@.len(),
            a@.len() == b@.len(),
            forall|j: int| 0 <= j < i ==> a@[j] == b@[j],
        decreases a@.len() - i,
    {
        if a[i] != b[i] {
            return false;
        }
        i = i + 1;
    }
    proof {
        assert(a@ =~= b@);
    }
    true
}

/// Whether some row of `rows` has key `k`.
pub closed spec fn rows_contains(rows: Seq<(Vec<u8>, Vec<u8>)>, k: Seq<u8>) -> bool {
    exists|i: int| 0 <= i < rows.len() && rows[i].0@ == k
}

/// The index of the row with key `k`.
pub closed spec fn rows_index_of(rows: Seq<(Vec<u8>, Vec<u8>)>, k: Seq<u8>) -> int {
    choose|i: int| 0 <= i < rows.len() && rows[i].0@ == k
}

/// The map held by a row table.
pub closed spec fn rows_view(rows: Seq<(Vec<u8>, Vec<u8>)>) -> Map<Seq<u8>, Seq<u8>> {
    Map::new(|k: Seq<u8>| rows_contains(rows, k), |k: Seq<u8>| rows[rows_index_of(rows, k)].1@)
}

/// No two rows share a key.
pub closed spec fn rows_distinct(rows: Seq<(Vec<u8>, Vec<u8>)>) -> bool {
    forall|i: int, j: int| 0 <= i < j < rows.len() ==> rows[i].0@ != rows[j].0@
}

proof fn lemma_rows_view_index(rows: Seq<(Vec<u8>, Vec<u8>)>, i: int)
    requires
        rows_distinct(rows),
        0 <= i < rows.len(),
    ensures
        rows_view(rows).contains_key(rows[i].0@),
        rows_view(rows)[rows[i].0@] == rows[i].1@,
{
    let k = rows[i].0@;
    assert(rows_contains(rows, k));
    let j = rows_index_of(rows, k);
    assert(0 <= j < rows.len() && rows[j].0@ == k);
    if i != j {
        assert(rows[i].0@ != rows[j].0@);
    }
}

/// The flat in-memory key-value substrate.
pub struct KvStore {
    rows: Vec<(Vec<u8>, Vec<u8>)>,
}

impl View for KvStore {
    type V = Map<Seq<u8>, Seq<u8>>;

    closed spec fn view(&self) -> Map<Seq<u8>, Seq<u8>> {
        rows_view(self.rows@)
    }
}

impl KvStore {
    /// Keys are pairwise distinct.
    pub closed spec fn inv(&self) -> bool {
        rows_distinct(self.rows@)
    }

    /// An empty substrate.
    pub fn new() -> (r: Self)
        ensures
            r.inv(),
            r@ == Map::<Seq<u8>, Seq<u8>>::empty(),
    {
        let r = KvStore { rows: Vec::new() };
        proof {
            assert(r@ =~= Map::<Seq<u8>, Seq<u8>>::empty());
        }
        r
    }

    /// Finds the row holding `k`, if any.
    fn find(&self, k: &[u8]) -> (r: Option<usize>)
        requires
            self.inv(),
        ensures
            (match r {
                Some(i) => i < self.rows@.len() && self.rows@[i as int].0@ == k@
                    && self@.contains_key(k@) && self@[k@] == self.rows@[i as int].1@,
                None => !self@.contains_key(k@),
            }),
    {
        let mut i: usize = 0;
        while i < self.rows.len()
            invariant
                self.inv(),
                0 <= i <= self.rows@.len(),
                forall|j: int| 0 <= j < i ==> self.rows@[j].0@ != k@,
            decreases self.rows@.len() - i,
        {
            if bytes_eq(self.rows[i].0.as_slice(), k) {
                proof {
                    lemma_rows_view_index(self.rows@, i as int);
                }
                return Some(i);
            }
            i = i + 1;
        }
        proof {
            assert(!rows_contains(self.rows@, k@));
        }
        None
    }

    /// Reads the value under `k`.
    pub fn get_raw(&self, k: &[u8]) -> (r: Option<Vec<u8>>)
        requires
            self.inv(),
        ensures
            (match r {
                Some(v) => self@.contains_key(k@) && v@ == self@[k@],
                None => !self@.contains_key(k@),
            }),
    {
        match self.find(k) {
            Some(i) => Some(clone_bytes(&self.rows[i].1)),
            None => None,
        }
    }

    /// Writes `v` under `k`, creating or overwriting.
    pub fn set_raw(&mut self, k: &[u8], v: &[u8]) -> (r: SetStatus)
        requires
            old(self).inv(),
        ensures
            final(self).inv(),
            final(self)@ == old(self)@.insert(k@, v@),
            (match r {
                SetStatus::CreatedNew => !old(self)@.contains_key(k@),
                SetStatus::PrevValue(pv) => old(self)@.contains_key(k@) && pv@ == old(self)@[k@],
            }),
    {
        let ghost rows0 = self.rows@;
        match self.find(k) {
            Some(i) => {
                let prev = clone_bytes(&self.rows[i].1);
                self.rows.set(i, (slice_to_vec_u8(k), slice_to_vec_u8(v)));
                proof {
                    let rows1 = self.rows@;
                    assert forall|x: Seq<u8>|
                        rows_contains(rows1, x) == rows_contains(rows0, x) by {
                        if rows_contains(rows1, x) {
                            let j = choose|j: int| 0 <= j < rows1.len() && rows1[j].0@ == x;
                            if j == i {
                                assert(rows0[i as int].0@ == x);
                            } else {
                                assert(rows0[j].0@ == x);
                            }
                        }
                        if rows_contains(rows0, x) {
                            let j = choose|j: int| 0 <= j < rows0.len() && rows0[j].0@ == x;
                            if j == i {
                                assert(rows1[i as int].0@ == x);
                            } else {
                                assert(rows1[j].0@ == x);
                            }
                        }
                    }
                    assert forall|a: int, b: int| 0 <= a < b < rows1.len() implies rows1[a].0@
                        != rows1[b].0@ by {
                        assert(rows1[a].0@ == rows0[a].0@ && rows1[b].0@ == rows0[b].0@);
                    }
                    assert forall|x: Seq<u8>| rows_contains(rows1, x) implies rows_view(rows1)[x]
                        == rows_view(rows0).insert(k@, v@)[x] by {
                        let j = rows_index_of(rows1, x);
                        lemma_rows_view_index(rows1, j);
                        if x == k@ {
                            assert(rows1[i as int].0@ == k@);
                            if j != i {
                                assert(rows1[j].0@ != rows1[i as int].0@);
                            }
                        } else {
                            assert(j != i);
                            lemma_rows_view_index(rows0, j);
                        }
                    }
                    assert(self@ =~= old(self)@.insert(k@, v@));
                }
                SetStatus::PrevValue(prev)
            },
            None => {
                self.rows.push((slice_to_vec_u8(k), slice_to_vec_u8(v)));
                proof {
                    let rows1 = self.rows@;
                    let n = rows0.len() as int;
                    assert(rows1[n].0@ == k@);
                    assert forall|a: int, b: int| 0 <= a < b < rows1.len() implies rows1[a].0@
                        != rows1[b].0@ by {
                        if b < n {
                            assert(rows1[a].0@ == rows0[a].0@ && rows1[b].0@ == rows0[b].0@);
                        } else {
                            assert(rows1[a].0@ == rows0[a].0@);
                            if rows1[a].0@ == k@ {
                                assert(rows_contains(rows0, k@));
                            }
                        }
                    }
                    assert forall|x: Seq<u8>|
                        rows_contains(rows1, x) == (rows_contains(rows0, x) || x == k@) by {
                        if rows_contains(rows1, x) {
                            let j = choose|j: int| 0 <= j < rows1.len() && rows1[j].0@ == x;
                            if j < n {
                                assert(rows0[j].0@ == x);
                            }
                        }
                        if rows_contains(rows0, x) {
                            let j = choose|j: int| 0 <= j < rows0.len() && rows0[j].0@ == x;
                            assert(rows1[j].0@ == x);
                        }
                        if x == k@ {
                            assert(rows1[n].0@ == x);
                        }
                    }
                    assert forall|x: Seq<u8>| rows_contains(rows1, x) implies rows_view(rows1)[x]
                        == rows_view(rows0).insert(k@, v@)[x] by {
                        let j = rows_index_of(rows1, x);
                        lemma_rows_view_index(rows1, j);
                        if x == k@ {
                            if j != n {
                                assert(rows1[j].0@ != rows1[n].0@);
                            }
                        } else {
                            assert(j != n);
                            lemma_rows_view_index(rows0, j);
                        }
                    }
                    assert(self@ =~= old(self)@.insert(k@, v@));
                }
                SetStatus::CreatedNew
            },
        }
    }

    /// Removes the row under `k`, handing back its value.
    pub fn remove_raw(&mut self, k: &[u8]) -> (r: Option<Vec<u8>>)
        requires
            old(self).inv(),
        ensures
            final(self).inv(),
            final(self)@ == old(self)@.remove(k@),
            (match r {
                Some(v) => old(self)@.contains_key(k@) && v@ == old(self)@[k@],
                None => !old(self)@.contains_key(k@),
            }),
    {
        let ghost rows0 = self.rows@;
        match self.find(k) {
            Some(i) => {
                let pair = self.rows.remove(i);
                proof {
                    let rows1 = self.rows@;
                    assert(rows1 =~= rows0.remove(i as int));
                    assert forall|a: int, b: int| 0 <= a < b < rows1.len() implies rows1[a].0@
                        != rows1[b].0@ by {
                        let a0: int = if a < i { a } else { a + 1 };
                        let b0: int = if b < i { b } else { b + 1 };
                        assert(rows1[a].0@ == rows0[a0].0@ && rows1[b].0@ == rows0[b0].0@);
                    }
                    assert forall|x: Seq<u8>|
                        rows_contains(rows1, x) == (rows_contains(rows0, x) && x != k@) by {
                        if rows_contains(rows1, x) {
                            let j = choose|j: int| 0 <= j < rows1.len() && rows1[j].0@ == x;
                            let j0: int = if j < i { j } else { j + 1 };
                            assert(rows0[j0].0@ == x);
                            if x == k@ {
                                assert(rows0[j0].0@ == rows0[i as int].0@);
                            }
                        }
                        if rows_contains(rows0, x) && x != k@ {
                            let j = choose|j: int| 0 <= j < rows0.len() && rows0[j].0@ == x;
                            assert(j != i);
                            if j < i {
                                assert(rows1[j].0@ == x);
                            } else {
                                assert(rows1[j - 1].0@ == x);
                            }
                        }
                    }
                    assert forall|x: Seq<u8>| rows_contains(rows1, x) implies rows_view(rows1)[x]
                        == rows_view(rows0).remove(k@)[x] by {
                        let j = rows_index_of(rows1, x);
                        lemma_rows_view_index(rows1, j);
                        let j0: int = if j < i { j } else { j + 1 };
                        assert(rows0[j0].0@ == x && rows0[j0].1@ == rows1[j].1@);
                        lemma_rows_view_index(rows0, j0);
                    }
                    assert(self@ =~= old(self)@.remove(k@));
                }
                Some(pair.1)
            },
            None => {
                proof {
                    assert(self@ =~= old(self)@.remove(k@));
                }
                None
            },
        }
    }

    /// Reads the value under `k`, or writes `default_val` there if the key
    /// is absent.
    pub fn get_or_create_raw(&mut self, k: &[u8], default_val: &[u8]) -> (r: GetOrCreateStatus)
        requires
            old(self).inv(),
        ensures
            final(self).inv(),
            (match r {
                GetOrCreateStatus::ExistingValue(v) => old(self)@.contains_key(k@) && v@ == old(
                    self,
                )@[k@] && final(self)@ == old(self)@,
                GetOrCreateStatus::CreatedNew(v) => !old(self)@.contains_key(k@) && v@
                    == default_val@ && final(self)@ == old(self)@.insert(k@, default_val@),
            }),
    {
        match self.find(k) {
            Some(i) => GetOrCreateStatus::ExistingValue(clone_bytes(&self.rows[i].1)),
            None => {
                self.set_raw(k, default_val);
                GetOrCreateStatus::CreatedNew(slice_to_vec_u8(default_val))
            },
        }
    }

    /// Overwrites the value under `k` only if the key already exists.
    pub fn replace_raw(&mut self, k: &[u8], v: &[u8]) -> (r: ReplaceStatus)
        requires
            old(self).inv(),
        ensures
            final(self).inv(),
            (match r {
                ReplaceStatus::DoesNotExist => !old(self)@.contains_key(k@) && final(self)@ == old(
                    self,
                )@,
                ReplaceStatus::PrevValue(pv) => old(self)@.contains_key(k@) && pv@ == old(
                    self,
                )@[k@] && final(self)@ == old(self)@.insert(k@, v@),
                ReplaceStatus::WrongValue(_) => false,
            }),
    {
        match self.find(k) {
            Some(_) => {
                match self.set_raw(k, v) {
                    SetStatus::PrevValue(pv) => ReplaceStatus::PrevValue(pv),
                    SetStatus::CreatedNew => ReplaceStatus::PrevValue(Vec::new()),  // never taken: the key was found
                }
            },
            None => ReplaceStatus::DoesNotExist,
        }
    }

    /// All rows whose key has fingerprint `ph`, in table order.
    pub fn get_by_hash(&self, ph: &PartedHash) -> (r: Vec<(Vec<u8>, Vec<u8>)>)
        requires
            self.inv(),
        ensures
            forall|j: int|
                0 <= j < r@.len() ==> self@.contains_key(#[trigger] r@[j].0@) && r@[j].1@
                    == self@[r@[j].0@] && spec_hash(r@[j].0@) == *ph,
            forall|k: Seq<u8>|
                self@.contains_key(k) && spec_hash(k) == *ph ==> exists|j: int|
                    0 <= j < r@.len() && #[trigger] r@[j].0@ == k,
    {
        let mut r: Vec<(Vec<u8>, Vec<u8>)> = Vec::new();
        let mut i: usize = 0;
        while i < self.rows.len()
            invariant
                self.inv(),
                0 <= i <= self.rows@.len(),
                forall|j: int|
                    0 <= j < r@.len() ==> self@.contains_key(#[trigger] r@[j].0@) && r@[j].1@
                        == self@[r@[j].0@] && spec_hash(r@[j].0@) == *ph,
                forall|j: int|
                    0 <= j < i && spec_hash(#[trigger] self.rows@[j].0@) == *ph ==> exists|j2: int|
                        0 <= j2 < r@.len() && #[trigger] r@[j2].0@ == self.rows@[j].0@,
            decreases self.rows@.len() - i,
        {
            let h = hash_bytes(self.rows[i].0.as_slice());
            if h == *ph {
                proof {
                    lemma_rows_view_index(self.rows@, i as int);
                }
                let ghost rprev = r@;
                r.push((clone_bytes(&self.rows[i].0), clone_bytes(&self.rows[i].1)));
                proof {
                    assert(r@[rprev.len() as int].0@ == self.rows@[i as int].0@);
                    assert(forall|j2: int|
                        0 <= j2 < rprev.len() ==> r@[j2] == rprev[j2]);
                }
            }
            i = i + 1;
        }
        proof {
            assert forall|k: Seq<u8>| self@.contains_key(k) && spec_hash(k) == *ph implies exists|
                j: int,
            | 0 <= j < r@.len() && #[trigger] r@[j].0@ == k by {
                let j = rows_index_of(self.rows@, k);
                assert(0 <= j < self.rows@.len() && self.rows@[j].0@ == k);
            }
        }
        r
    }

}

} // verus!

//! The list engine: logical lists layered over the flat key-value
//! substrate.  A list is created implicitly on first insert and destroyed
//! implicitly when its span empties; items keep their chain index for as
//! long as they live, so iteration order is insertion order.
use crate::hashing::{hash_bytes, spec_hash, PartedHash};
use crate::kv::{bytes_eq, clone_bytes, KvStore};
use crate::layout::{
    decode_list, desc_key_bytes, encode_list, is_item_row_of, item_storage_key, link_of,
    list_from_bytes, list_ph_of, list_to_bytes, make_chain_key, make_desc_key, make_item_key,
    slice_to_vec_u8, strip_item_suffix, strip_link, List,
};
use crate::model::{
    desc_of, get_value_spec, has_chain, is_desc_row, is_item_row, item_row_wf, list_view,
    ph_conflict, store_wf, RawRows, FIRST_LIST_IDX,
};
use crate::{CandyError, GetOrCreateStatus, KVPair, ReplaceStatus, SetStatus, LIST_NAMESPACE};
use vstd::prelude::*;

verus! {

/// Copies the first `n` bytes of a vector.
fn vec_prefix(v: &Vec<u8>, n: usize) -> (r: Vec<u8>)
    requires
        n <= v@.len(),
    ensures
        r@ == v@.take(n as int),
{
    let mut r: Vec<u8> = Vec::new();
    let mut i: usize = 0;
    while i < n
        invariant
            0 <= i <= n <= v@.len(),
            r@ =~= v@.take(i as int),
        decreases n - i,
    {
        r.push(v[i]);
        i = i + 1;
    }
    r
}

/// Copies the last `n` bytes of a vector.
fn vec_suffix(v: &Vec<u8>, n: usize) -> (r: Vec<u8>)
    requires
        n <= v@.len(),
    ensures
        r@ == v@.subrange(v@.len() - n, v@.len() as int),
{
    let start = v.len() - n;
    let mut r: Vec<u8> = Vec::new();
    let mut i: usize = start;
    while i < v.len()
        invariant
            start <= i <= v@.len(),
            start == v@.len() - n,
            r@ =~= v@.subrange(start as int, i as int),
        decreases v@.len() - i,
    {
        r.push(v[i]);
        i = i + 1;
    }
    r
}

/// Whether `k` ends with the 9-byte item suffix of list `lph`.
fn item_suffix_matches(k: &Vec<u8>, lph: &PartedHash) -> (r: bool)
    ensures
        r == is_item_row_of(k@, *lph),
{
    if k.len() < 9 {
        return false;
    }
    let sfx = vec_suffix(k, 9);
    let mut expect = crate::hashing::ph_bytes(lph);
    expect.push(crate::ITEM_NAMESPACE);
    proof {
        assert(expect@ =~= crate::hashing::ph_to_bytes(*lph) + seq![crate::ITEM_NAMESPACE]);
    }
    bytes_eq(sfx.as_slice(), expect.as_slice())
}

/// Whether `v` carries `idx` as its trailing 8-byte link.
fn link_matches(v: &Vec<u8>, idx: u64) -> (r: bool)
    ensures
        r == (v@.len() >= 8 && link_of(v@) == idx),
{
    if v.len() < 8 {
        return false;
    }
    let sfx = vec_suffix(v, 8);
    let got = vstd::bytes::u64_from_le_bytes(sfx.as_slice());
    got == idx
}

/// When to compact a list: only at or above `min_length` indices of span,
/// and only when at least `min_holes_num / min_holes_den` of the span is
/// holes.
#[derive(Clone, Copy, Debug, PartialEq, Eq, Structural)]
pub struct ListCompactionParams {
    pub min_length: u64,
    pub min_holes_num: u64,
    pub min_holes_den: u64,
}

impl Default for ListCompactionParams {
    /// Compact lists of a hundred indices or more when a quarter of the
    /// span is holes.
    fn default() -> (r: Self)
        ensures
            r == (ListCompactionParams { min_length: 100, min_holes_num: 1, min_holes_den: 4 }),
    {
        ListCompactionParams { min_length: 100, min_holes_num: 1, min_holes_den: 4 }
    }
}

/// How an insert treats an already-present item.
#[derive(Clone, Copy, Debug, PartialEq, Eq, Structural)]
enum InsertMode {
    /// Create or overwrite.
    Overwrite,
    /// Keep an existing value; only create when absent.
    GetOrCreate,
    /// Only overwrite an existing value, optionally guarded by the
    /// expected current value; never create.
    Replace,
}

/// Outcome of the shared insert path.
enum InsertToListStatus {
    Created(Vec<u8>),
    DoesNotExist,
    WrongValue(Vec<u8>),
    ExistingValue(Vec<u8>),
    Replaced(Vec<u8>),
}

/// Relies on `uuid::Uuid::new_v4`: a randomly generated identifier, handed
/// out as its underlying 16 bytes.  Nothing is assumed of the value beyond
/// its length.
#[verifier::external_body]
fn fresh_uuid_bytes() -> (r: Vec<u8>)
    ensures
        r@.len() == 16,
{
    uuid::Uuid::new_v4().as_bytes().to_vec()
}

/// Whether `b` is a verdict the predicate `f` can reach on the pair
/// `kv` (given by view).
pub open spec fn retain_decided<F: Fn(&[u8], &[u8]) -> bool>(
    f: F,
    kv: (Seq<u8>, Seq<u8>),
    b: bool,
) -> bool {
    exists|ka: &[u8], va: &[u8]| ka@ == kv.0 && va@ == kv.1 && call_ensures(f, (ka, va), b)
}

/// A cursor over one list.  It holds no borrow of the store: each step is
/// handed the store again, so the list may be mutated between steps.  The
/// span is snapshotted on the first step; indices whose chain row has
/// vanished since — holes, or items removed after the snapshot — are
/// skipped silently.
pub struct ListIterator {
    desc_key: Vec<u8>,
    list_ph: PartedHash,
    range: Option<(u64, u64)>,
    fwd: bool,
}

impl ListIterator {
    /// The iterator's key material is internally consistent.
    pub closed spec fn wf(self) -> bool {
        &&& self.list_ph == spec_hash(self.desc_key@)
        &&& self.desc_key@.len() >= 1
        &&& self.desc_key@.last() == LIST_NAMESPACE
        &&& match self.range {
            Some((lo, hi)) => lo <= hi,
            None => true,
        }
    }

    /// The user list key this iterator walks.
    pub closed spec fn list_key(self) -> Seq<u8> {
        self.desc_key@.take(self.desc_key@.len() - 1)
    }

    /// What is left to yield against rows `m`: the entries of the
    /// remaining snapshot range, back-to-front for a backward iterator; an
    /// unstarted iterator stands for the whole current list.
    pub closed spec fn remaining(self, m: RawRows) -> Seq<(Seq<u8>, Seq<u8>)> {
        match self.range {
            None => if self.fwd {
                list_view(m, self.list_key())
            } else {
                list_view(m, self.list_key()).reverse()
            },
            Some((lo, hi)) => {
                let entries = crate::model::entries_at(
                    m,
                    self.list_ph,
                    crate::model::live_seq(m, self.list_ph, lo, hi),
                );
                if self.fwd {
                    entries
                } else {
                    entries.reverse()
                }
            },
        }
    }

    /// Yields the next element, or `Ok(None)` at the end.  The caller
    /// hands the store back in; a fresh iterator snapshots the span here.
    pub fn next(&mut self, store: &CandyStore) -> (r: Result<Option<KVPair>, CandyError>)
        requires
            store.inv(),
            old(self).wf(),
        ensures
            final(self).wf(),
            final(self).list_key() == old(self).list_key(),
            (match r {
                Ok(None) => old(self).remaining(store@).len() == 0 && final(self).remaining(store@)
                    == old(self).remaining(store@),
                Ok(Some((k, v))) => old(self).remaining(store@).len() > 0 && ((k@, v@)) == old(
                    self,
                ).remaining(store@)[0] && final(self).remaining(store@) == old(self).remaining(
                    store@,
                ).drop_first(),
                Err(_) => false,
            }),
    {
        let ghost m = store@;
        let ghost rem0 = self.remaining(store@);
        if self.range.is_none() {
            proof {
                assert(desc_key_bytes(self.list_key()) =~= self.desc_key@);
            }
            match store.kv.get_raw(self.desc_key.as_slice()) {
                None => {
                    proof {
                        assert(desc_of(m, self.list_key()) is None);
                        assert(list_view(m, self.list_key()) == Seq::<(Seq<u8>, Seq<u8>)>::empty());
                        assert(rem0 =~= Seq::<(Seq<u8>, Seq<u8>)>::empty());
                    }
                    return Ok(None);
                },
                Some(b) => {
                    proof {
                        assert(is_desc_row(self.desc_key@));
                        assert(crate::model::desc_row_wf(m, self.desc_key@));
                    }
                    let d = decode_list(b.as_slice());
                    self.range = Some((d.head_idx, d.tail_idx));
                    proof {
                        assert(desc_of(m, self.list_key()) == Some(d));
                        assert(self.remaining(store@) == rem0);
                    }
                },
            }
        }
        if self.fwd {
            self.next_fwd(store)
        } else {
            self.next_bwd(store)
        }
    }

    /// One forward step over a snapshotted span.
    #[verifier::rlimit(100)]
    #[verifier::spinoff_prover]
    fn next_fwd(&mut self, store: &CandyStore) -> (r: Result<Option<KVPair>, CandyError>)
        requires
            store.inv(),
            old(self).wf(),
            old(self).range is Some,
            old(self).fwd,
        ensures
            final(self).wf(),
            final(self).list_key() == old(self).list_key(),
            (match r {
                Ok(None) => old(self).remaining(store@).len() == 0 && final(self).remaining(store@)
                    == old(self).remaining(store@),
                Ok(Some((k, v))) => old(self).remaining(store@).len() > 0 && ((k@, v@)) == old(
                    self,
                ).remaining(store@)[0] && final(self).remaining(store@) == old(self).remaining(
                    store@,
                ).drop_first(),
                Err(_) => false,
            }),
    {
        let ghost m = store@;
        let ghost rem0 = self.remaining(store@);
        let ghost lph = self.list_ph;
        let (range_lo, range_hi) = match self.range {
            Some(p) => p,
            None => {
                proof {
                    assert(false);
                }
                return Err(CandyError::Corruption);
            },
        };
        let mut lo = range_lo;
        let hi = range_hi;
        while lo < hi
            invariant
                store.inv(),
                self.wf(),
                lo <= hi,
                self.range == Some((lo, hi)),
                self.fwd,
                lph == self.list_ph,
                self.desc_key@ == old(self).desc_key@,
                crate::model::entries_at(m, lph, crate::model::live_seq(m, lph, lo, hi)) == rem0,
                rem0 == old(self).remaining(store@),
                m == store@,
            decreases hi - lo,
        {
            let idx = lo;
            proof {
                if has_chain(m, lph, idx) {
                    crate::model::lemma_wf_chain(m, lph, idx);
                }
            }
            match store.get_from_list_at_index(&self.list_ph, idx, true) {
                Ok(Some((_, uk, uv))) => {
                    self.range = Some((idx + 1, hi));
                    proof {
                        let rest = crate::model::live_seq(m, lph, (idx + 1) as u64, hi);
                        assert(crate::model::live_seq(m, lph, idx, hi) == seq![idx] + rest);
                        crate::model::lemma_entries_at_concat(m, lph, seq![idx], rest);
                        assert(crate::model::entries_at(m, lph, seq![idx])
                            =~= seq![crate::model::entry_at(m, lph, idx)]);
                        assert(rem0[0] == crate::model::entry_at(m, lph, idx));
                        assert(((uk@, uv@)) == crate::model::entry_at(m, lph, idx));
                        assert(self.remaining(store@) =~= rem0.drop_first());
                    }
                    return Ok(Some((uk, uv)));
                },
                Ok(None) => {
                    proof {
                        assert(crate::model::live_seq(m, lph, idx, hi) == crate::model::live_seq(
                            m,
                            lph,
                            (idx + 1) as u64,
                            hi,
                        ));
                    }
                    lo = lo + 1;
                    self.range = Some((lo, hi));
                },
                Err(e) => {
                    return Err(e);
                },
            }
        }
        proof {
            assert(crate::model::live_seq(m, lph, lo, hi) =~= Seq::<u64>::empty());
            assert(rem0 =~= Seq::<(Seq<u8>, Seq<u8>)>::empty());
        }
        Ok(None)
    }

    /// One backward step over a snapshotted span.
    #[verifier::rlimit(100)]
    #[verifier::spinoff_prover]
    fn next_bwd(&mut self, store: &CandyStore) -> (r: Result<Option<KVPair>, CandyError>)
        requires
            store.inv(),
            old(self).wf(),
            old(self).range is Some,
            !old(self).fwd,
        ensures
            final(self).wf(),
            final(self).list_key() == old(self).list_key(),
            (match r {
                Ok(None) => old(self).remaining(store@).len() == 0 && final(self).remaining(store@)
                    == old(self).remaining(store@),
                Ok(Some((k, v))) => old(self).remaining(store@).len() > 0 && ((k@, v@)) == old(
                    self,
                ).remaining(store@)[0] && final(self).remaining(store@) == old(self).remaining(
                    store@,
                ).drop_first(),
                Err(_) => false,
            }),
    {
        let ghost m = store@;
        let ghost rem0 = self.remaining(store@);
        let ghost lph = self.list_ph;
        let (range_lo, range_hi) = match self.range {
            Some(p) => p,
            None => {
                proof {
                    assert(false);
                }
                return Err(CandyError::Corruption);
            },
        };
        let lo = range_lo;
        let mut hi = range_hi;
        while lo < hi
            invariant
                store.inv(),
                self.wf(),
                lo <= hi,
                self.range == Some((lo, hi)),
                !self.fwd,
                lph == self.list_ph,
                self.desc_key@ == old(self).desc_key@,
                crate::model::entries_at(
                    m,
                    lph,
                    crate::model::live_seq(m, lph, lo, hi),
                ).reverse() == rem0,
                rem0 == old(self).remaining(store@),
                m == store@,
            decreases hi - lo,
        {
            let idx = hi - 1;
            proof {
                if has_chain(m, lph, idx) {
                    crate::model::lemma_wf_chain(m, lph, idx);
                }
            }
            match store.get_from_list_at_index(&self.list_ph, idx, true) {
                Ok(Some((_, uk, uv))) => {
                    self.range = Some((lo, idx));
                    proof {
                        let front = crate::model::live_seq(m, lph, lo, idx);
                        crate::model::lemma_live_seq_split(m, lph, lo, idx, hi);
                        crate::model::lemma_live_seq_singleton(m, lph, idx);
                        assert(crate::model::live_seq(m, lph, idx, hi) == seq![idx]);
                        assert(crate::model::live_seq(m, lph, lo, hi) == front + seq![idx]);
                        crate::model::lemma_entries_at_concat(m, lph, front, seq![idx]);
                        let ef = crate::model::entries_at(m, lph, front);
                        let all = crate::model::entries_at(
                            m,
                            lph,
                            crate::model::live_seq(m, lph, lo, hi),
                        );
                        assert(crate::model::entries_at(m, lph, seq![idx])
                            =~= seq![crate::model::entry_at(m, lph, idx)]);
                        assert(all == ef + seq![crate::model::entry_at(m, lph, idx)]);
                        assert(all.reverse()[0] == all[all.len() - 1]);
                        assert(rem0[0] == crate::model::entry_at(m, lph, idx));
                        assert(((uk@, uv@)) == crate::model::entry_at(m, lph, idx));
                        assert(self.remaining(store@) =~= rem0.drop_first());
                    }
                    return Ok(Some((uk, uv)));
                },
                Ok(None) => {
                    proof {
                        crate::model::lemma_live_seq_split(m, lph, lo, idx, hi);
                        crate::model::lemma_live_seq_empty(m, lph, idx, hi);
                        assert(crate::model::live_seq(m, lph, lo, hi) =~= crate::model::live_seq(
                            m,
                            lph,
                            lo,
                            idx,
                        ));
                    }
                    hi = hi - 1;
                    self.range = Some((lo, hi));
                },
                Err(e) => {
                    return Err(e);
                },
            }
        }
        proof {
            assert(crate::model::live_seq(m, lph, lo, hi) =~= Seq::<u64>::empty());
            assert(crate::model::entries_at(m, lph, Seq::<u64>::empty()) =~= Seq::<
                (Seq<u8>, Seq<u8>),
            >::empty());
            assert(rem0 =~= Seq::<(Seq<u8>, Seq<u8>)>::empty());
        }
        Ok(None)
    }
}

/// The store: the key-value substrate plus the list engine over it.
pub struct CandyStore {
    kv: KvStore,
}

impl View for CandyStore {
    type V = RawRows;

    closed spec fn view(&self) -> RawRows {
        self.kv@
    }
}

impl CandyStore {
    /// The substrate holds distinct keys.
    pub closed spec fn base_inv(&self) -> bool {
        self.kv.inv()
    }

    /// The substrate holds distinct keys and every engine row is well
    /// formed.
    pub closed spec fn inv(&self) -> bool {
        self.base_inv() && store_wf(self.kv@)
    }

    /// An empty store.
    pub fn new() -> (r: Self)
        ensures
            r.inv(),
            r@ == Map::<Seq<u8>, Seq<u8>>::empty(),
            forall|lk: Seq<u8>| #[trigger] list_view(r@, lk) == Seq::<(Seq<u8>, Seq<u8>)>::empty(),
            forall|lk: Seq<u8>, ik: Seq<u8>| #[trigger] get_value_spec(r@, lk, ik) is None,
    {
        let r = CandyStore { kv: KvStore::new() };
        proof {
            assert forall|lk: Seq<u8>| #[trigger] list_view(r@, lk) == Seq::<
                (Seq<u8>, Seq<u8>),
            >::empty() by {
                assert(!r@.contains_key(desc_key_bytes(lk)));
            }
            assert forall|lk: Seq<u8>, ik: Seq<u8>| #[trigger] get_value_spec(r@, lk, ik)
                is None by {
                assert(!r@.contains_key(item_storage_key(list_ph_of(lk), ik)));
            }
        }
        r
    }

    /// Gets a list element identified by `list_key` and `item_key`.
    pub fn get_from_list(&self, list_key: &[u8], item_key: &[u8]) -> (r: Result<
        Option<Vec<u8>>,
        CandyError,
    >)
        requires
            self.inv(),
        ensures
            (match r {
                Ok(Some(v)) => get_value_spec(self@, list_key@, item_key@) == Some(v@),
                Ok(None) => get_value_spec(self@, list_key@, item_key@) is None,
                Err(_) => false,
            }),
    {
        let dk = make_desc_key(list_key);
        let lph = hash_bytes(dk.as_slice());
        let isk = make_item_key(&lph, item_key);
        proof {
            assert(lph == list_ph_of(list_key@));
        }
        match self.kv.get_raw(isk.as_slice()) {
            Some(v) => {
                proof {
                    crate::layout::lemma_item_key_parts(lph, item_key@);
                    assert(is_item_row(isk@));
                    assert(item_row_wf(self@, isk@));
                }
                let stripped = vec_prefix(&v, v.len() - 8);
                Ok(Some(stripped))
            },
            None => Ok(None),
        }
    }

    /// Owned version of [`Self::get_from_list`].
    pub fn owned_get_from_list(&self, list_key: Vec<u8>, item_key: Vec<u8>) -> (r: Result<
        Option<Vec<u8>>,
        CandyError,
    >)
        requires
            self.inv(),
        ensures
            (match r {
                Ok(Some(v)) => get_value_spec(self@, list_key@, item_key@) == Some(v@),
                Ok(None) => get_value_spec(self@, list_key@, item_key@) is None,
                Err(_) => false,
            }),
    {
        self.get_from_list(list_key.as_slice(), item_key.as_slice())
    }

    /// The number of live items the list's descriptor counts; zero if the
    /// list does not exist.
    pub fn list_len(&self, list_key: &[u8]) -> (r: Result<usize, CandyError>)
        requires
            self.inv(),
        ensures
            (match r {
                Ok(n) => ({
                    let c = (match desc_of(self@, list_key@) {
                        Some(d) => d.num_items,
                        None => 0u64,
                    });
                    n == if c <= usize::MAX {
                        c as usize
                    } else {
                        usize::MAX
                    }
                }),
                Err(_) => false,
            }),
    {
        let dk = make_desc_key(list_key);
        match self.kv.get_raw(dk.as_slice()) {
            Some(b) => {
                proof {
                    assert(is_desc_row(dk@)) by {
                        assert(dk@.last() == LIST_NAMESPACE);
                    }
                    assert(crate::model::desc_row_wf(self@, dk@));
                }
                let d = decode_list(b.as_slice());
                if d.num_items <= usize::MAX as u64 {
                    Ok(d.num_items as usize)
                } else {
                    Ok(usize::MAX)
                }
            },
            None => Ok(0),
        }
    }

    /// Owned version of [`Self::list_len`].
    pub fn owned_list_len(&self, list_key: Vec<u8>) -> (r: Result<usize, CandyError>)
        requires
            self.inv(),
        ensures
            (match r {
                Ok(n) => ({
                    let c = (match desc_of(self@, list_key@) {
                        Some(d) => d.num_items,
                        None => 0u64,
                    });
                    n == if c <= usize::MAX {
                        c as usize
                    } else {
                        usize::MAX
                    }
                }),
                Err(_) => false,
            }),
    {
        self.list_len(list_key.as_slice())
    }

    /// Whether a descriptor row other than `dk` fingerprints to `lph`.
    fn desc_conflict(&self, lph: &PartedHash, dk: &[u8]) -> (r: bool)
        requires
            self.inv(),
        ensures
            r == exists|k: Seq<u8>|
                #[trigger] self@.contains_key(k) && is_desc_row(k) && spec_hash(k) == *lph && k
                    != dk@,
    {
        let rows = self.kv.get_by_hash(lph);
        let mut i: usize = 0;
        while i < rows.len()
            invariant
                self.inv(),
                0 <= i <= rows@.len(),
                forall|j: int|
                    0 <= j < i ==> !(#[trigger] rows@[j].0@.len() >= 1 && rows@[j].0@.last()
                        == LIST_NAMESPACE && rows@[j].0@ != dk@),
                forall|j: int|
                    0 <= j < rows@.len() ==> self@.contains_key(#[trigger] rows@[j].0@)
                        && spec_hash(rows@[j].0@) == *lph,
                forall|k: Seq<u8>|
                    self@.contains_key(k) && spec_hash(k) == *lph ==> exists|j: int|
                        0 <= j < rows@.len() && #[trigger] rows@[j].0@ == k,
            decreases rows@.len() - i,
        {
            let rk = &rows[i].0;
            if rk.len() >= 1 && rk[rk.len() - 1] == LIST_NAMESPACE && !bytes_eq(
                rk.as_slice(),
                dk,
            ) {
                proof {
                    let rkk = rows@[i as int].0@;
                    assert(self@.contains_key(rkk) && is_desc_row(rkk) && spec_hash(rkk) == *lph
                        && rkk != dk@);
                }
                return true;
            }
            i = i + 1;
        }
        proof {
            assert forall|k: Seq<u8>|
                #[trigger] self@.contains_key(k) && is_desc_row(k) && spec_hash(k) == *lph implies k
                == dk@ by {
                let jbad = choose|jbad: int| 0 <= jbad < rows@.len() && #[trigger] rows@[jbad].0@
                    == k;
                assert(!(rows@[jbad].0@.len() >= 1 && rows@[jbad].0@.last() == LIST_NAMESPACE
                    && rows@[jbad].0@ != dk@));
            }
        }
        false
    }

    /// Inserts or updates `item_key` in the list, honouring the mode.
    /// Fresh items go to the tail; existing items keep their position and
    /// only change value.
    #[verifier::rlimit(100)]
    #[verifier::spinoff_prover]
    fn insert_to_list_inner(
        &mut self,
        list_key: &[u8],
        item_key: &[u8],
        val: &[u8],
        mode: InsertMode,
        expected: Option<&[u8]>,
    ) -> (r: Result<InsertToListStatus, CandyError>)
        requires
            old(self).inv(),
        ensures
            final(self).inv(),
            forall|lk2: Seq<u8>|
                list_ph_of(lk2) != list_ph_of(list_key@) ==> #[trigger] list_view(
                    final(self)@,
                    lk2,
                ) == list_view(old(self)@, lk2),
            forall|lk2: Seq<u8>, ik2: Seq<u8>|
                list_ph_of(lk2) != list_ph_of(list_key@) ==> #[trigger] get_value_spec(
                    final(self)@,
                    lk2,
                    ik2,
                ) == get_value_spec(old(self)@, lk2, ik2),
            ph_conflict(final(self)@, list_key@) == ph_conflict(old(self)@, list_key@),
            forall|lk2: Seq<u8>|
                lk2 != list_key@ ==> #[trigger] desc_of(final(self)@, lk2) == desc_of(
                    old(self)@,
                    lk2,
                ),
            ({
                let m = old(self)@;
                let lph = list_ph_of(list_key@);
                let dk = desc_key_bytes(list_key@);
                let isk = item_storage_key(lph, item_key@);
                let existed = m.contains_key(isk);
                match r {
                    Ok(InsertToListStatus::ExistingValue(v)) => mode == InsertMode::GetOrCreate
                        && existed && v@ == strip_link(m[isk]) && final(self)@ == m,
                    Ok(InsertToListStatus::WrongValue(v)) => mode == InsertMode::Replace && existed
                        && (match expected {
                        Some(e) => e@ != strip_link(m[isk]),
                        None => false,
                    }) && v@ == strip_link(m[isk]) && final(self)@ == m,
                    Ok(InsertToListStatus::DoesNotExist) => mode == InsertMode::Replace && !existed
                        && final(self)@ == m,
                    Ok(InsertToListStatus::Replaced(v)) => existed && (mode == InsertMode::Overwrite
                        || (mode == InsertMode::Replace && (match expected {
                        Some(e) => e@ == strip_link(m[isk]),
                        None => true,
                    }))) && v@ == strip_link(m[isk]) && final(self)@ == m.insert(
                        isk,
                        val@ + m[isk].subrange(m[isk].len() - 8, m[isk].len() as int),
                    ) && get_value_spec(final(self)@, list_key@, item_key@) == Some(val@)
                        && desc_of(final(self)@, list_key@) == desc_of(m, list_key@) && list_view(
                        final(self)@,
                        list_key@,
                    ).len() == list_view(m, list_key@).len() && (forall|j: int|
                        0 <= j < list_view(m, list_key@).len() ==> #[trigger] list_view(
                            final(self)@,
                            list_key@,
                        )[j].0 == list_view(m, list_key@)[j].0) && (forall|j: int|
                        0 <= j < list_view(m, list_key@).len() && list_view(m, list_key@)[j].0
                            != item_key@ ==> #[trigger] list_view(final(self)@, list_key@)[j]
                            == list_view(m, list_key@)[j]) && (forall|j: int|
                        0 <= j < list_view(m, list_key@).len() && #[trigger] list_view(
                            m,
                            list_key@,
                        )[j].0 == item_key@ ==> list_view(final(self)@, list_key@)[j].1 == val@),
                    Ok(InsertToListStatus::Created(v)) => !existed && mode != InsertMode::Replace
                        && v@ == val@ && ({
                        let idx = (if m.contains_key(dk) {
                            list_from_bytes(m[dk]).tail_idx
                        } else {
                            FIRST_LIST_IDX
                        });
                        let d1 = (if m.contains_key(dk) {
                            List {
                                head_idx: list_from_bytes(m[dk]).head_idx,
                                tail_idx: (list_from_bytes(m[dk]).tail_idx + 1) as u64,
                                num_items: (list_from_bytes(m[dk]).num_items + 1) as u64,
                            }
                        } else {
                            List {
                                head_idx: FIRST_LIST_IDX,
                                tail_idx: (FIRST_LIST_IDX + 1) as u64,
                                num_items: 1u64,
                            }
                        });
                        &&& final(self)@ == crate::steps::insert_step(
                            m,
                            list_key@,
                            item_key@,
                            val@,
                            d1,
                            idx,
                        )
                        &&& desc_of(final(self)@, list_key@) == Some(d1)
                        &&& get_value_spec(final(self)@, list_key@, item_key@) == Some(val@)
                        &&& list_view(final(self)@, list_key@) == list_view(m, list_key@).push(
                            ((item_key@, val@)),
                        )
                    }),
                    Err(_) => final(self)@ == m && !existed && mode != InsertMode::Replace && (
                    ph_conflict(m, list_key@) || (match desc_of(m, list_key@) {
                        Some(d) => d.tail_idx == u64::MAX,
                        None => false,
                    })),
                }
            }),
    {
        let dk = make_desc_key(list_key);
        let lph = hash_bytes(dk.as_slice());
        let isk = make_item_key(&lph, item_key);
        proof {
            assert(lph == list_ph_of(list_key@));
            crate::layout::lemma_item_key_parts(lph, item_key@);
            assert(is_desc_row(dk@)) by {
                assert(dk@.last() == LIST_NAMESPACE);
            }
        }
        let ghost m = self@;
        // if the item already exists it is already part of the list: update
        // it in place, preserving its index suffix
        if let Some(existing) = self.kv.get_raw(isk.as_slice()) {
            proof {
                assert(is_item_row(isk@));
                assert(item_row_wf(m, isk@));
            }
            let user_part = vec_prefix(&existing, existing.len() - 8);
            match mode {
                InsertMode::GetOrCreate => {
                    return Ok(InsertToListStatus::ExistingValue(user_part));
                },
                InsertMode::Replace => {
                    if let Some(e) = expected {
                        if !bytes_eq(e, user_part.as_slice()) {
                            return Ok(InsertToListStatus::WrongValue(user_part));
                        }
                    }
                },
                InsertMode::Overwrite => {},
            }
            let mut nv = slice_to_vec_u8(val);
            let mut sfx = vec_suffix(&existing, 8);
            nv.append(&mut sfx);
            proof {
                assert(nv@ == val@ + m[isk@].subrange(m[isk@].len() - 8, m[isk@].len() as int));
                crate::steps::lemma_wf_replace_value(m, list_key@, item_key@, val@);
            }
            self.kv.replace_raw(isk.as_slice(), nv.as_slice());
            proof {
                assert forall|kd: Seq<u8>|
                    is_desc_row(kd) && kd != desc_key_bytes(list_key@) implies (
                #[trigger] self@.contains_key(kd) == m.contains_key(kd) && (m.contains_key(kd)
                    ==> self@[kd] == m[kd])) by {
                    crate::steps::lemma_tag_distinct(kd, isk@);
                }
                crate::steps::lemma_desc_frame(m, self@, list_key@);
            }
            return Ok(InsertToListStatus::Replaced(user_part));
        }
        if matches!(mode, InsertMode::Replace) {
            // not allowed to create
            return Ok(InsertToListStatus::DoesNotExist);
        }
        // refuse to grow a list whose fingerprint is shared by another
        // list's descriptor: chain rows could no longer be told apart
        if self.desc_conflict(&lph, dk.as_slice()) {
            proof {
                assert(ph_conflict(m, list_key@));
            }
            return Err(CandyError::Corruption);
        }
        proof {
            assert(!ph_conflict(m, list_key@));
        }
        // get or create the descriptor
        let first = List {
            head_idx: FIRST_LIST_IDX,
            tail_idx: FIRST_LIST_IDX + 1,
            num_items: 1,
        };
        let first_bytes = encode_list(&first);
        match self.kv.get_or_create_raw(dk.as_slice(), first_bytes.as_slice()) {
            GetOrCreateStatus::CreatedNew(_) => {
                // fresh list: one chain row and the item row at the first
                // index
                let idx = FIRST_LIST_IDX;
                let iph = hash_bytes(isk.as_slice());
                let ck = make_chain_key(&lph, idx);
                let iphb = crate::hashing::ph_bytes(&iph);
                self.kv.set_raw(ck.as_slice(), iphb.as_slice());
                let mut nv = slice_to_vec_u8(val);
                let mut ib = vstd::bytes::u64_to_le_bytes(idx);
                nv.append(&mut ib);
                self.kv.set_raw(isk.as_slice(), nv.as_slice());
                proof {
                    crate::steps::lemma_wf_insert_fresh(m, list_key@, item_key@, val@, first, idx);
                    assert(self@ == crate::steps::insert_step(
                        m,
                        list_key@,
                        item_key@,
                        val@,
                        first,
                        idx,
                    ));
                    assert forall|kd: Seq<u8>|
                        is_desc_row(kd) && kd != desc_key_bytes(list_key@) implies (
                    #[trigger] self@.contains_key(kd) == m.contains_key(kd) && (m.contains_key(kd)
                        ==> self@[kd] == m[kd])) by {
                        crate::steps::lemma_tag_distinct(kd, ck@);
                        crate::steps::lemma_tag_distinct(kd, isk@);
                    }
                    crate::steps::lemma_desc_frame(m, self@, list_key@);
                }
                Ok(InsertToListStatus::Created(slice_to_vec_u8(val)))
            },
            GetOrCreateStatus::ExistingValue(list_bytes) => {
                proof {
                    assert(crate::model::desc_row_wf(m, dk@));
                }
                let d0 = decode_list(list_bytes.as_slice());
                if d0.tail_idx == u64::MAX {
                    return Err(CandyError::Corruption);
                }
                proof {
                    crate::model::lemma_live_seq_props(m, lph, d0.head_idx, d0.tail_idx);
                    assert(d0.num_items < u64::MAX);
                }
                let idx = d0.tail_idx;
                let d1 = List {
                    head_idx: d0.head_idx,
                    tail_idx: d0.tail_idx + 1,
                    num_items: d0.num_items + 1,
                };
                let d1_bytes = encode_list(&d1);
                self.kv.set_raw(dk.as_slice(), d1_bytes.as_slice());
                let iph = hash_bytes(isk.as_slice());
                let ck = make_chain_key(&lph, idx);
                let iphb = crate::hashing::ph_bytes(&iph);
                self.kv.set_raw(ck.as_slice(), iphb.as_slice());
                let mut nv = slice_to_vec_u8(val);
                let mut ib = vstd::bytes::u64_to_le_bytes(idx);
                nv.append(&mut ib);
                self.kv.set_raw(isk.as_slice(), nv.as_slice());
                proof {
                    crate::steps::lemma_wf_insert_fresh(m, list_key@, item_key@, val@, d1, idx);
                    assert(self@ == crate::steps::insert_step(
                        m,
                        list_key@,
                        item_key@,
                        val@,
                        d1,
                        idx,
                    ));
                    assert forall|kd: Seq<u8>|
                        is_desc_row(kd) && kd != desc_key_bytes(list_key@) implies (
                    #[trigger] self@.contains_key(kd) == m.contains_key(kd) && (m.contains_key(kd)
                        ==> self@[kd] == m[kd])) by {
                        crate::steps::lemma_tag_distinct(kd, ck@);
                        crate::steps::lemma_tag_distinct(kd, isk@);
                    }
                    crate::steps::lemma_desc_frame(m, self@, list_key@);
                }
                Ok(InsertToListStatus::Created(slice_to_vec_u8(val)))
            },
        }
    }

    /// Removes an element from the list, identified by `list_key` and
    /// `item_key`.  The element can be at any position; removing from the
    /// middle leaves a hole in the span until the list is compacted.
    #[verifier::rlimit(100)]
    #[verifier::spinoff_prover]
    pub fn owned_remove_from_list(&mut self, list_key: Vec<u8>, item_key: Vec<u8>) -> (r: Result<
        Option<Vec<u8>>,
        CandyError,
    >)
        requires
            old(self).inv(),
        ensures
            final(self).inv(),
            forall|lk2: Seq<u8>|
                list_ph_of(lk2) != list_ph_of(list_key@) ==> #[trigger] list_view(
                    final(self)@,
                    lk2,
                ) == list_view(old(self)@, lk2),
            forall|lk2: Seq<u8>, ik2: Seq<u8>|
                list_ph_of(lk2) != list_ph_of(list_key@) ==> #[trigger] get_value_spec(
                    final(self)@,
                    lk2,
                    ik2,
                ) == get_value_spec(old(self)@, lk2, ik2),
            ph_conflict(final(self)@, list_key@) == ph_conflict(old(self)@, list_key@),
            forall|lk2: Seq<u8>|
                lk2 != list_key@ ==> #[trigger] desc_of(final(self)@, lk2) == desc_of(
                    old(self)@,
                    lk2,
                ),
            ({
                let m = old(self)@;
                let lph = list_ph_of(list_key@);
                let dk = desc_key_bytes(list_key@);
                let isk = item_storage_key(lph, item_key@);
                let vw0 = list_view(m, list_key@);
                match r {
                    Ok(None) => !m.contains_key(isk) && final(self)@ == m,
                    Ok(Some(v)) => m.contains_key(isk) && m.contains_key(dk) && v@ == strip_link(
                        m[isk],
                    ) && final(self)@ == crate::steps::remove_step(m, list_key@, item_key@)
                        && desc_of(final(self)@, list_key@) == crate::steps::remove_result_desc(
                        m,
                        list_key@,
                        item_key@,
                    ) && get_value_spec(final(self)@, list_key@, item_key@) is None && (exists|
                        j: int,
                    |
                        0 <= j < vw0.len() && #[trigger] vw0[j] == ((item_key@, v@)) && list_view(
                            final(self)@,
                            list_key@,
                        ) == vw0.remove(j)) && (forall|ik2: Seq<u8>|
                        ik2 != item_key@ ==> #[trigger] get_value_spec(final(self)@, list_key@, ik2)
                            == get_value_spec(m, list_key@, ik2)),
                    Err(_) => m.contains_key(isk) && !m.contains_key(dk) && final(self)@ == m,
                }
            }),
    {
        let dk = make_desc_key(list_key.as_slice());
        let lph = hash_bytes(dk.as_slice());
        let isk = make_item_key(&lph, item_key.as_slice());
        proof {
            assert(lph == list_ph_of(list_key@));
            crate::layout::lemma_item_key_parts(lph, item_key@);
            assert(is_desc_row(dk@)) by {
                assert(dk@.last() == LIST_NAMESPACE);
            }
        }
        let ghost m = self@;
        let Some(existing) = self.kv.get_raw(isk.as_slice()) else {
            return Ok(None);
        };
        proof {
            assert(is_item_row(isk@));
            assert(item_row_wf(m, isk@));
        }
        let sfx = vec_suffix(&existing, 8);
        let idx = vstd::bytes::u64_from_le_bytes(sfx.as_slice());
        let user_part = vec_prefix(&existing, existing.len() - 8);
        proof {
            assert(idx == link_of(m[isk@]));
            assert(user_part@ == strip_link(m[isk@]));
        }
        let Some(desc_bytes) = self.kv.get_raw(dk.as_slice()) else {
            // an item row whose list descriptor is gone: the two keys'
            // fingerprints must have collided somewhere; surface it
            return Err(CandyError::Corruption);
        };
        proof {
            crate::steps::lemma_wf_remove_item(m, list_key@, item_key@);
        }
        let d = decode_list(desc_bytes.as_slice());
        let d1 = if d.head_idx == idx {
            List { head_idx: idx + 1, tail_idx: d.tail_idx, num_items: d.num_items - 1 }
        } else if idx + 1 == d.tail_idx {
            List { head_idx: d.head_idx, tail_idx: idx, num_items: d.num_items - 1 }
        } else {
            List { head_idx: d.head_idx, tail_idx: d.tail_idx, num_items: d.num_items - 1 }
        };
        proof {
            assert(d1 == crate::steps::remove_desc_step(d, idx));
        }
        if d1.head_idx == d1.tail_idx {
            self.kv.remove_raw(dk.as_slice());
        } else {
            let d1_bytes = encode_list(&d1);
            self.kv.set_raw(dk.as_slice(), d1_bytes.as_slice());
        }
        let ck = make_chain_key(&lph, idx);
        self.kv.remove_raw(ck.as_slice());
        self.kv.remove_raw(isk.as_slice());
        proof {
            assert(self@ == crate::steps::remove_step(m, list_key@, item_key@));
            assert forall|kd: Seq<u8>|
                is_desc_row(kd) && kd != desc_key_bytes(list_key@) implies (
            #[trigger] self@.contains_key(kd) == m.contains_key(kd) && (m.contains_key(kd)
                ==> self@[kd] == m[kd])) by {
                crate::steps::lemma_tag_distinct(kd, ck@);
                crate::steps::lemma_tag_distinct(kd, isk@);
            }
            crate::steps::lemma_desc_frame(m, self@, list_key@);
        }
        Ok(Some(user_part))
    }

    /// Borrowed version of [`Self::owned_remove_from_list`].
    pub fn remove_from_list(&mut self, list_key: &[u8], item_key: &[u8]) -> (r: Result<
        Option<Vec<u8>>,
        CandyError,
    >)
        requires
            old(self).inv(),
        ensures
            final(self).inv(),
            forall|lk2: Seq<u8>|
                list_ph_of(lk2) != list_ph_of(list_key@) ==> #[trigger] list_view(
                    final(self)@,
                    lk2,
                ) == list_view(old(self)@, lk2),
            forall|lk2: Seq<u8>, ik2: Seq<u8>|
                list_ph_of(lk2) != list_ph_of(list_key@) ==> #[trigger] get_value_spec(
                    final(self)@,
                    lk2,
                    ik2,
                ) == get_value_spec(old(self)@, lk2, ik2),
            ph_conflict(final(self)@, list_key@) == ph_conflict(old(self)@, list_key@),
            forall|lk2: Seq<u8>|
                lk2 != list_key@ ==> #[trigger] desc_of(final(self)@, lk2) == desc_of(
                    old(self)@,
                    lk2,
                ),
            ({
                let m = old(self)@;
                let lph = list_ph_of(list_key@);
                let dk = desc_key_bytes(list_key@);
                let isk = item_storage_key(lph, item_key@);
                let vw0 = list_view(m, list_key@);
                match r {
                    Ok(None) => !m.contains_key(isk) && final(self)@ == m,
                    Ok(Some(v)) => m.contains_key(isk) && m.contains_key(dk) && v@ == strip_link(
                        m[isk],
                    ) && final(self)@ == crate::steps::remove_step(m, list_key@, item_key@)
                        && desc_of(final(self)@, list_key@) == crate::steps::remove_result_desc(
                        m,
                        list_key@,
                        item_key@,
                    ) && get_value_spec(final(self)@, list_key@, item_key@) is None && (exists|
                        j: int,
                    |
                        0 <= j < vw0.len() && #[trigger] vw0[j] == ((item_key@, v@)) && list_view(
                            final(self)@,
                            list_key@,
                        ) == vw0.remove(j)) && (forall|ik2: Seq<u8>|
                        ik2 != item_key@ ==> #[trigger] get_value_spec(final(self)@, list_key@, ik2)
                            == get_value_spec(m, list_key@, ik2)),
                    Err(_) => m.contains_key(isk) && !m.contains_key(dk) && final(self)@ == m,
                }
            }),
    {
        self.owned_remove_from_list(slice_to_vec_u8(list_key), slice_to_vec_u8(item_key))
    }

    /// The plain insert-or-update: an existing element keeps its
    /// position, a fresh one goes to the tail.
    fn set_plain(&mut self, list_key: Vec<u8>, item_key: Vec<u8>, val: Vec<u8>) -> (r: Result<
        SetStatus,
        CandyError,
    >)
        requires
            old(self).inv(),
        ensures
            final(self).inv(),
            forall|lk2: Seq<u8>|
                list_ph_of(lk2) != list_ph_of(list_key@) ==> #[trigger] list_view(
                    final(self)@,
                    lk2,
                ) == list_view(old(self)@, lk2),
            forall|lk2: Seq<u8>, ik2: Seq<u8>|
                list_ph_of(lk2) != list_ph_of(list_key@) ==> #[trigger] get_value_spec(
                    final(self)@,
                    lk2,
                    ik2,
                ) == get_value_spec(old(self)@, lk2, ik2),
            ph_conflict(final(self)@, list_key@) == ph_conflict(old(self)@, list_key@),
            forall|lk2: Seq<u8>|
                lk2 != list_key@ ==> #[trigger] desc_of(final(self)@, lk2) == desc_of(
                    old(self)@,
                    lk2,
                ),
            ({
                let m = old(self)@;
                let isk = item_storage_key(list_ph_of(list_key@), item_key@);
                let vw0 = list_view(m, list_key@);
                match r {
                    Ok(st) => {
                        &&& get_value_spec(final(self)@, list_key@, item_key@) == Some(val@)
                        &&& match st {
                            SetStatus::PrevValue(v) => m.contains_key(isk) && v@ == strip_link(
                                m[isk],
                            ) && final(self)@ == m.insert(
                                isk,
                                val@ + m[isk].subrange(m[isk].len() - 8, m[isk].len() as int),
                            ) && desc_of(final(self)@, list_key@) == desc_of(m, list_key@)
                                && list_view(final(self)@, list_key@).len() == vw0.len() && (forall|
                                j: int,
                            |
                                0 <= j < vw0.len() ==> #[trigger] list_view(
                                    final(self)@,
                                    list_key@,
                                )[j].0 == vw0[j].0) && (forall|j: int|
                                0 <= j < vw0.len() && vw0[j].0 != item_key@ ==> #[trigger] list_view(
                                    final(self)@,
                                    list_key@,
                                )[j] == vw0[j]) && (forall|j: int|
                                0 <= j < vw0.len() && #[trigger] vw0[j].0 == item_key@
                                    ==> list_view(final(self)@, list_key@)[j].1 == val@),
                            SetStatus::CreatedNew => !m.contains_key(isk) && final(self)@
                                == crate::steps::insert_step(
                                m,
                                list_key@,
                                item_key@,
                                val@,
                                crate::steps::insert_desc_step(desc_of(m, list_key@)),
                                (match desc_of(m, list_key@) {
                                    Some(d) => d.tail_idx,
                                    None => FIRST_LIST_IDX,
                                }),
                            ) && desc_of(final(self)@, list_key@) == Some(
                                crate::steps::insert_desc_step(desc_of(m, list_key@)),
                            ) && list_view(final(self)@, list_key@) == vw0.push(
                                ((item_key@, val@)),
                            ),
                        }
                    },
                    Err(_) => final(self)@ == m && !m.contains_key(isk) && (ph_conflict(
                        m,
                        list_key@,
                    ) || (match desc_of(m, list_key@) {
                        Some(d) => d.tail_idx == u64::MAX,
                        None => false,
                    })),
                }
            }),
    {
        let ghost m = self@;
        let res = self.insert_to_list_inner(
            list_key.as_slice(),
            item_key.as_slice(),
            val.as_slice(),
            InsertMode::Overwrite,
            None,
        );
        match res {
            Ok(InsertToListStatus::Created(_)) => {
                proof {
                    let dk = desc_key_bytes(list_key@);
                    if m.contains_key(dk) {
                        assert(is_desc_row(dk)) by {
                            assert(dk.last() == LIST_NAMESPACE);
                        }
                        assert(crate::model::desc_row_wf(m, dk));
                    }
                }
                Ok(SetStatus::CreatedNew)
            },
            Ok(InsertToListStatus::Replaced(v)) => Ok(SetStatus::PrevValue(v)),
            Ok(_) => Ok(SetStatus::CreatedNew),  // other arms cannot arise in this mode
            Err(e) => Err(e),
        }
    }

    /// The promoting insert: remove first, then insert at the tail.
    #[verifier::rlimit(100)]
    #[verifier::spinoff_prover]
    fn set_promote(&mut self, list_key: Vec<u8>, item_key: Vec<u8>, val: Vec<u8>) -> (r: Result<
        SetStatus,
        CandyError,
    >)
        requires
            old(self).inv(),
        ensures
            final(self).inv(),
            forall|lk2: Seq<u8>|
                list_ph_of(lk2) != list_ph_of(list_key@) ==> #[trigger] list_view(
                    final(self)@,
                    lk2,
                ) == list_view(old(self)@, lk2),
            forall|lk2: Seq<u8>, ik2: Seq<u8>|
                list_ph_of(lk2) != list_ph_of(list_key@) ==> #[trigger] get_value_spec(
                    final(self)@,
                    lk2,
                    ik2,
                ) == get_value_spec(old(self)@, lk2, ik2),
            ph_conflict(final(self)@, list_key@) == ph_conflict(old(self)@, list_key@),
            forall|lk2: Seq<u8>|
                lk2 != list_key@ ==> #[trigger] desc_of(final(self)@, lk2) == desc_of(
                    old(self)@,
                    lk2,
                ),
            ({
                let m = old(self)@;
                let isk = item_storage_key(list_ph_of(list_key@), item_key@);
                let vw0 = list_view(m, list_key@);
                match r {
                    Ok(st) => {
                        &&& st == SetStatus::CreatedNew
                        &&& get_value_spec(final(self)@, list_key@, item_key@) == Some(val@)
                        &&& if m.contains_key(isk) {
                            exists|j: int|
                                0 <= j < vw0.len() && #[trigger] vw0[j].0 == item_key@ && list_view(
                                    final(self)@,
                                    list_key@,
                                ) == vw0.remove(j).push(((item_key@, val@)))
                        } else {
                            list_view(final(self)@, list_key@) == vw0.push(((item_key@, val@)))
                        }
                    },
                    Err(_) => ph_conflict(m, list_key@) || (m.contains_key(isk)
                        && !m.contains_key(desc_key_bytes(list_key@))) || (match desc_of(
                        m,
                        list_key@,
                    ) {
                        Some(d) => d.tail_idx == u64::MAX,
                        None => false,
                    }),
                }
            }),
    {
        let ghost m = self@;
        let ghost lph = list_ph_of(list_key@);
        let ghost isk = item_storage_key(lph, item_key@);
        let ghost vw0 = list_view(m, list_key@);
        let rm = self.owned_remove_from_list(clone_bytes(&list_key), clone_bytes(&item_key));
        if let Err(e) = rm {
            return Err(e);
        }
        let ghost mid = self@;
        proof {
            if m.contains_key(isk) && m.contains_key(desc_key_bytes(list_key@)) {
                assert(crate::model::desc_row_wf(m, desc_key_bytes(list_key@))) by {
                    assert(is_desc_row(desc_key_bytes(list_key@))) by {
                        assert(desc_key_bytes(list_key@).last() == LIST_NAMESPACE);
                    }
                }
            }
            // a conflicting descriptor survives the removal untouched
            if ph_conflict(self@, list_key@) {
                let kbad = choose|kbad: Seq<u8>|
                    #[trigger] self@.contains_key(kbad) && is_desc_row(kbad) && spec_hash(kbad)
                        == list_ph_of(list_key@) && kbad != desc_key_bytes(list_key@);
                assert(m.contains_key(kbad) && m[kbad] == self@[kbad]) by {
                    if m.contains_key(isk) && m.contains_key(desc_key_bytes(list_key@)) {
                        crate::layout::lemma_item_key_parts(lph, item_key@);
                        crate::layout::lemma_chain_key_parts(lph, link_of(m[isk]));
                        crate::steps::lemma_tag_distinct(
                            kbad,
                            crate::layout::chain_key_bytes(lph, link_of(m[isk])),
                        );
                        crate::steps::lemma_tag_distinct(kbad, isk);
                    }
                }
                assert(ph_conflict(m, list_key@));
            }
            // the span never grows on removal
            if m.contains_key(isk) && m.contains_key(desc_key_bytes(list_key@)) {
                let dk = desc_key_bytes(list_key@);
                let d = list_from_bytes(m[dk]);
                let idx0 = link_of(m[isk]);
                let d1 = crate::steps::remove_desc_step(d, idx0);
                crate::layout::lemma_list_bytes_roundtrip(d1);
                crate::layout::lemma_item_key_parts(lph, item_key@);
                crate::layout::lemma_chain_key_parts(lph, idx0);
                crate::steps::lemma_tag_distinct(dk, crate::layout::chain_key_bytes(lph, idx0));
                crate::steps::lemma_tag_distinct(dk, isk);
                assert(match desc_of(self@, list_key@) {
                    Some(dmid) => dmid.tail_idx <= d.tail_idx,
                    None => true,
                });
            }
        }
        let res = self.insert_to_list_inner(
            list_key.as_slice(),
            item_key.as_slice(),
            val.as_slice(),
            InsertMode::Overwrite,
            None,
        );
        match res {
            Ok(InsertToListStatus::Created(_)) => {
                proof {
                    if m.contains_key(isk) {
                        let v0 = strip_link(m[isk]);
                        let j = choose|j: int|
                            0 <= j < vw0.len() && #[trigger] vw0[j] == ((item_key@, v0))
                                && list_view(mid, list_key@) == vw0.remove(j);
                        assert(vw0[j].0 == item_key@);
                        assert(list_view(self@, list_key@) == vw0.remove(j).push(
                            ((item_key@, val@)),
                        ));
                    } else {
                        assert(mid == m);
                    }
                }
                Ok(SetStatus::CreatedNew)
            },
            Ok(_) => Ok(SetStatus::CreatedNew),  // other arms cannot arise in this mode
            Err(e) => Err(e),
        }
    }

    /// Inserts or updates an element of a list.  With `promote` the
    /// element is first removed, so it re-enters at the tail; without, an
    /// existing element keeps its position.
    pub fn owned_set_in_list(
        &mut self,
        list_key: Vec<u8>,
        item_key: Vec<u8>,
        val: Vec<u8>,
        promote: bool,
    ) -> (r: Result<SetStatus, CandyError>)
        requires
            old(self).inv(),
        ensures
            final(self).inv(),
            forall|lk2: Seq<u8>|
                list_ph_of(lk2) != list_ph_of(list_key@) ==> #[trigger] list_view(
                    final(self)@,
                    lk2,
                ) == list_view(old(self)@, lk2),
            forall|lk2: Seq<u8>, ik2: Seq<u8>|
                list_ph_of(lk2) != list_ph_of(list_key@) ==> #[trigger] get_value_spec(
                    final(self)@,
                    lk2,
                    ik2,
                ) == get_value_spec(old(self)@, lk2, ik2),
            ph_conflict(final(self)@, list_key@) == ph_conflict(old(self)@, list_key@),
            forall|lk2: Seq<u8>|
                lk2 != list_key@ ==> #[trigger] desc_of(final(self)@, lk2) == desc_of(
                    old(self)@,
                    lk2,
                ),
            ({
                let m = old(self)@;
                let isk = item_storage_key(list_ph_of(list_key@), item_key@);
                let vw0 = list_view(m, list_key@);
                match r {
                    Ok(st) => {
                        &&& get_value_spec(final(self)@, list_key@, item_key@) == Some(val@)
                        &&& if promote {
                            &&& st == SetStatus::CreatedNew
                            &&& if m.contains_key(isk) {
                                exists|j: int|
                                    0 <= j < vw0.len() && #[trigger] vw0[j].0 == item_key@
                                        && list_view(final(self)@, list_key@) == vw0.remove(j).push(
                                        ((item_key@, val@)),
                                    )
                            } else {
                                list_view(final(self)@, list_key@) == vw0.push(((item_key@, val@)))
                            }
                        } else {
                            match st {
                                SetStatus::PrevValue(v) => m.contains_key(isk) && v@ == strip_link(
                                    m[isk],
                                ) && final(self)@ == m.insert(
                                    isk,
                                    val@ + m[isk].subrange(m[isk].len() - 8, m[isk].len() as int),
                                ) && desc_of(final(self)@, list_key@) == desc_of(m, list_key@)
                                    && list_view(final(self)@, list_key@).len() == vw0.len() && (
                                forall|j: int|
                                    0 <= j < vw0.len() ==> #[trigger] list_view(
                                        final(self)@,
                                        list_key@,
                                    )[j].0 == vw0[j].0) && (forall|j: int|
                                    0 <= j < vw0.len() && vw0[j].0 != item_key@
                                        ==> #[trigger] list_view(final(self)@, list_key@)[j]
                                        == vw0[j]) && (forall|j: int|
                                    0 <= j < vw0.len() && #[trigger] vw0[j].0 == item_key@
                                        ==> list_view(final(self)@, list_key@)[j].1 == val@),
                                SetStatus::CreatedNew => !m.contains_key(isk) && final(self)@
                                    == crate::steps::insert_step(
                                    m,
                                    list_key@,
                                    item_key@,
                                    val@,
                                    crate::steps::insert_desc_step(desc_of(m, list_key@)),
                                    (match desc_of(m, list_key@) {
                                        Some(d) => d.tail_idx,
                                        None => FIRST_LIST_IDX,
                                    }),
                                ) && desc_of(final(self)@, list_key@) == Some(
                                    crate::steps::insert_desc_step(desc_of(m, list_key@)),
                                ) && list_view(final(self)@, list_key@) == vw0.push(
                                    ((item_key@, val@)),
                                ),
                            }
                        }
                    },
                    Err(_) => ph_conflict(m, list_key@) || (m.contains_key(isk) && !m.contains_key(
                        desc_key_bytes(list_key@),
                    )) || (match desc_of(m, list_key@) {
                        Some(d) => d.tail_idx == u64::MAX,
                        None => false,
                    }),
                }
            }),
    {
        if promote {
            self.set_promote(list_key, item_key, val)
        } else {
            self.set_plain(list_key, item_key, val)
        }
    }

    /// Inserts or updates an element `item_key` that belongs to list
    /// `list_key`.  Returns [`SetStatus::CreatedNew`] if the item did not
    /// exist, or [`SetStatus::PrevValue`] with its previous value.
    pub fn set_in_list(&mut self, list_key: &[u8], item_key: &[u8], val: &[u8]) -> (r: Result<
        SetStatus,
        CandyError,
    >)
        requires
            old(self).inv(),
        ensures
            final(self).inv(),
            forall|lk2: Seq<u8>|
                list_ph_of(lk2) != list_ph_of(list_key@) ==> #[trigger] list_view(
                    final(self)@,
                    lk2,
                ) == list_view(old(self)@, lk2),
            forall|lk2: Seq<u8>, ik2: Seq<u8>|
                list_ph_of(lk2) != list_ph_of(list_key@) ==> #[trigger] get_value_spec(
                    final(self)@,
                    lk2,
                    ik2,
                ) == get_value_spec(old(self)@, lk2, ik2),
            ph_conflict(final(self)@, list_key@) == ph_conflict(old(self)@, list_key@),
            forall|lk2: Seq<u8>|
                lk2 != list_key@ ==> #[trigger] desc_of(final(self)@, lk2) == desc_of(
                    old(self)@,
                    lk2,
                ),
            ({
                let m = old(self)@;
                let isk = item_storage_key(list_ph_of(list_key@), item_key@);
                let vw0 = list_view(m, list_key@);
                match r {
                    Ok(st) => {
                        &&& get_value_spec(final(self)@, list_key@, item_key@) == Some(val@)
                        &&& match st {
                            SetStatus::PrevValue(v) => m.contains_key(isk) && v@ == strip_link(
                                m[isk],
                            ) && final(self)@ == m.insert(
                                isk,
                                val@ + m[isk].subrange(m[isk].len() - 8, m[isk].len() as int),
                            ) && desc_of(final(self)@, list_key@) == desc_of(m, list_key@)
                                && list_view(final(self)@, list_key@).len() == vw0.len() && (forall|
                                j: int,
                            |
                                0 <= j < vw0.len() ==> #[trigger] list_view(
                                    final(self)@,
                                    list_key@,
                                )[j].0 == vw0[j].0) && (forall|j: int|
                                0 <= j < vw0.len() && vw0[j].0 != item_key@ ==> #[trigger] list_view(
                                    final(self)@,
                                    list_key@,
                                )[j] == vw0[j]) && (forall|j: int|
                                0 <= j < vw0.len() && #[trigger] vw0[j].0 == item_key@
                                    ==> list_view(final(self)@, list_key@)[j].1 == val@),
                            SetStatus::CreatedNew => !m.contains_key(isk) && final(self)@
                                == crate::steps::insert_step(
                                m,
                                list_key@,
                                item_key@,
                                val@,
                                crate::steps::insert_desc_step(desc_of(m, list_key@)),
                                (match desc_of(m, list_key@) {
                                    Some(d) => d.tail_idx,
                                    None => FIRST_LIST_IDX,
                                }),
                            ) && desc_of(final(self)@, list_key@) == Some(
                                crate::steps::insert_desc_step(desc_of(m, list_key@)),
                            ) && list_view(final(self)@, list_key@) == vw0.push(
                                ((item_key@, val@)),
                            ),
                        }
                    },
                    Err(_) => final(self)@ == m && !m.contains_key(isk) && (ph_conflict(
                        m,
                        list_key@,
                    ) || (match desc_of(m, list_key@) {
                        Some(d) => d.tail_idx == u64::MAX,
                        None => false,
                    })),
                }
            }),
    {
        self.set_plain(slice_to_vec_u8(list_key), slice_to_vec_u8(item_key), slice_to_vec_u8(val))
    }

    /// Like [`Self::set_in_list`], but promotes the element to the tail:
    /// a remove followed by an insert, usable for building LRU orders.
    /// The two writes are separate; the pair is not atomic.
    pub fn set_in_list_promoting(&mut self, list_key: &[u8], item_key: &[u8], val: &[u8]) -> (r:
        Result<SetStatus, CandyError>)
        requires
            old(self).inv(),
        ensures
            final(self).inv(),
            forall|lk2: Seq<u8>|
                list_ph_of(lk2) != list_ph_of(list_key@) ==> #[trigger] list_view(
                    final(self)@,
                    lk2,
                ) == list_view(old(self)@, lk2),
            forall|lk2: Seq<u8>, ik2: Seq<u8>|
                list_ph_of(lk2) != list_ph_of(list_key@) ==> #[trigger] get_value_spec(
                    final(self)@,
                    lk2,
                    ik2,
                ) == get_value_spec(old(self)@, lk2, ik2),
            ph_conflict(final(self)@, list_key@) == ph_conflict(old(self)@, list_key@),
            forall|lk2: Seq<u8>|
                lk2 != list_key@ ==> #[trigger] desc_of(final(self)@, lk2) == desc_of(
                    old(self)@,
                    lk2,
                ),
            ({
                let m = old(self)@;
                let isk = item_storage_key(list_ph_of(list_key@), item_key@);
                let vw0 = list_view(m, list_key@);
                match r {
                    Ok(_) => {
                        &&& get_value_spec(final(self)@, list_key@, item_key@) == Some(val@)
                        &&& if m.contains_key(isk) {
                            exists|j: int|
                                0 <= j < vw0.len() && #[trigger] vw0[j].0 == item_key@ && list_view(
                                    final(self)@,
                                    list_key@,
                                ) == vw0.remove(j).push(((item_key@, val@)))
                        } else {
                            list_view(final(self)@, list_key@) == vw0.push(((item_key@, val@)))
                        }
                    },
                    Err(_) => ph_conflict(m, list_key@) || (m.contains_key(isk)
                        && !m.contains_key(desc_key_bytes(list_key@))) || (match desc_of(
                        m,
                        list_key@,
                    ) {
                        Some(d) => d.tail_idx == u64::MAX,
                        None => false,
                    }),
                }
            }),
    {
        self.set_promote(
            slice_to_vec_u8(list_key),
            slice_to_vec_u8(item_key),
            slice_to_vec_u8(val),
        )
    }

    /// Like [`Self::set_in_list`], but only replaces an existing item,
    /// optionally guarded by the expected current value; it never creates.
    pub fn owned_replace_in_list(
        &mut self,
        list_key: Vec<u8>,
        item_key: Vec<u8>,
        val: Vec<u8>,
        expected_val: Option<&[u8]>,
    ) -> (r: Result<ReplaceStatus, CandyError>)
        requires
            old(self).inv(),
        ensures
            final(self).inv(),
            r is Ok,
            forall|lk2: Seq<u8>|
                list_ph_of(lk2) != list_ph_of(list_key@) ==> #[trigger] list_view(
                    final(self)@,
                    lk2,
                ) == list_view(old(self)@, lk2),
            forall|lk2: Seq<u8>, ik2: Seq<u8>|
                list_ph_of(lk2) != list_ph_of(list_key@) ==> #[trigger] get_value_spec(
                    final(self)@,
                    lk2,
                    ik2,
                ) == get_value_spec(old(self)@, lk2, ik2),
            ph_conflict(final(self)@, list_key@) == ph_conflict(old(self)@, list_key@),
            forall|lk2: Seq<u8>|
                lk2 != list_key@ ==> #[trigger] desc_of(final(self)@, lk2) == desc_of(
                    old(self)@,
                    lk2,
                ),
            ({
                let m = old(self)@;
                let isk = item_storage_key(list_ph_of(list_key@), item_key@);
                let vw0 = list_view(m, list_key@);
                match r {
                    Ok(ReplaceStatus::DoesNotExist) => !m.contains_key(isk) && final(self)@ == m,
                    Ok(ReplaceStatus::WrongValue(v)) => m.contains_key(isk) && (match expected_val {
                        Some(e) => e@ != strip_link(m[isk]),
                        None => false,
                    }) && v@ == strip_link(m[isk]) && final(self)@ == m,
                    Ok(ReplaceStatus::PrevValue(v)) => m.contains_key(isk) && (match expected_val {
                        Some(e) => e@ == strip_link(m[isk]),
                        None => true,
                    }) && v@ == strip_link(m[isk]) && desc_of(final(self)@, list_key@) == desc_of(
                        m,
                        list_key@,
                    ) && get_value_spec(final(self)@, list_key@, item_key@) == Some(val@)
                        && list_view(final(self)@, list_key@).len() == vw0.len() && (forall|j: int|
                        0 <= j < vw0.len() ==> #[trigger] list_view(final(self)@, list_key@)[j].0
                            == vw0[j].0) && (forall|j: int|
                        0 <= j < vw0.len() && vw0[j].0 != item_key@ ==> #[trigger] list_view(
                            final(self)@,
                            list_key@,
                        )[j] == vw0[j]) && (forall|j: int|
                        0 <= j < vw0.len() && #[trigger] vw0[j].0 == item_key@ ==> list_view(
                            final(self)@,
                            list_key@,
                        )[j].1 == val@),
                    Err(_) => false,
                }
            }),
    {
        let res = self.insert_to_list_inner(
            list_key.as_slice(),
            item_key.as_slice(),
            val.as_slice(),
            InsertMode::Replace,
            expected_val,
        );
        match res {
            Ok(InsertToListStatus::DoesNotExist) => Ok(ReplaceStatus::DoesNotExist),
            Ok(InsertToListStatus::Replaced(v)) => Ok(ReplaceStatus::PrevValue(v)),
            Ok(InsertToListStatus::WrongValue(v)) => Ok(ReplaceStatus::WrongValue(v)),
            Ok(_) => Ok(ReplaceStatus::DoesNotExist),  // other arms cannot arise in this mode
            Err(_) => Ok(ReplaceStatus::DoesNotExist),  // this mode never errs
        }
    }

    /// Borrowed version of [`Self::owned_replace_in_list`].
    pub fn replace_in_list(
        &mut self,
        list_key: &[u8],
        item_key: &[u8],
        val: &[u8],
        expected_val: Option<&[u8]>,
    ) -> (r: Result<ReplaceStatus, CandyError>)
        requires
            old(self).inv(),
        ensures
            final(self).inv(),
            r is Ok,
            forall|lk2: Seq<u8>|
                list_ph_of(lk2) != list_ph_of(list_key@) ==> #[trigger] list_view(
                    final(self)@,
                    lk2,
                ) == list_view(old(self)@, lk2),
            forall|lk2: Seq<u8>, ik2: Seq<u8>|
                list_ph_of(lk2) != list_ph_of(list_key@) ==> #[trigger] get_value_spec(
                    final(self)@,
                    lk2,
                    ik2,
                ) == get_value_spec(old(self)@, lk2, ik2),
            ph_conflict(final(self)@, list_key@) == ph_conflict(old(self)@, list_key@),
            forall|lk2: Seq<u8>|
                lk2 != list_key@ ==> #[trigger] desc_of(final(self)@, lk2) == desc_of(
                    old(self)@,
                    lk2,
                ),
            ({
                let m = old(self)@;
                let isk = item_storage_key(list_ph_of(list_key@), item_key@);
                let vw0 = list_view(m, list_key@);
                match r {
                    Ok(ReplaceStatus::DoesNotExist) => !m.contains_key(isk) && final(self)@ == m,
                    Ok(ReplaceStatus::WrongValue(v)) => m.contains_key(isk) && (match expected_val {
                        Some(e) => e@ != strip_link(m[isk]),
                        None => false,
                    }) && v@ == strip_link(m[isk]) && final(self)@ == m,
                    Ok(ReplaceStatus::PrevValue(v)) => m.contains_key(isk) && (match expected_val {
                        Some(e) => e@ == strip_link(m[isk]),
                        None => true,
                    }) && v@ == strip_link(m[isk]) && desc_of(final(self)@, list_key@) == desc_of(
                        m,
                        list_key@,
                    ) && get_value_spec(final(self)@, list_key@, item_key@) == Some(val@)
                        && list_view(final(self)@, list_key@).len() == vw0.len() && (forall|j: int|
                        0 <= j < vw0.len() ==> #[trigger] list_view(final(self)@, list_key@)[j].0
                            == vw0[j].0) && (forall|j: int|
                        0 <= j < vw0.len() && vw0[j].0 != item_key@ ==> #[trigger] list_view(
                            final(self)@,
                            list_key@,
                        )[j] == vw0[j]) && (forall|j: int|
                        0 <= j < vw0.len() && #[trigger] vw0[j].0 == item_key@ ==> list_view(
                            final(self)@,
                            list_key@,
                        )[j].1 == val@),
                    Err(_) => false,
                }
            }),
    {
        self.owned_replace_in_list(
            slice_to_vec_u8(list_key),
            slice_to_vec_u8(item_key),
            slice_to_vec_u8(val),
            expected_val,
        )
    }

    /// Like [`Self::set_in_list`] but never replaces: it only creates the
    /// element with the default value when it is absent.
    pub fn owned_get_or_create_in_list(
        &mut self,
        list_key: Vec<u8>,
        item_key: Vec<u8>,
        default_val: Vec<u8>,
    ) -> (r: Result<GetOrCreateStatus, CandyError>)
        requires
            old(self).inv(),
        ensures
            final(self).inv(),
            forall|lk2: Seq<u8>|
                list_ph_of(lk2) != list_ph_of(list_key@) ==> #[trigger] list_view(
                    final(self)@,
                    lk2,
                ) == list_view(old(self)@, lk2),
            forall|lk2: Seq<u8>, ik2: Seq<u8>|
                list_ph_of(lk2) != list_ph_of(list_key@) ==> #[trigger] get_value_spec(
                    final(self)@,
                    lk2,
                    ik2,
                ) == get_value_spec(old(self)@, lk2, ik2),
            ph_conflict(final(self)@, list_key@) == ph_conflict(old(self)@, list_key@),
            forall|lk2: Seq<u8>|
                lk2 != list_key@ ==> #[trigger] desc_of(final(self)@, lk2) == desc_of(
                    old(self)@,
                    lk2,
                ),
            ({
                let m = old(self)@;
                let isk = item_storage_key(list_ph_of(list_key@), item_key@);
                let vw0 = list_view(m, list_key@);
                match r {
                    Ok(GetOrCreateStatus::ExistingValue(v)) => m.contains_key(isk) && v@
                        == strip_link(m[isk]) && final(self)@ == m,
                    Ok(GetOrCreateStatus::CreatedNew(v)) => !m.contains_key(isk) && v@
                        == default_val@ && final(self)@ == crate::steps::insert_step(
                        m,
                        list_key@,
                        item_key@,
                        default_val@,
                        crate::steps::insert_desc_step(desc_of(m, list_key@)),
                        (match desc_of(m, list_key@) {
                            Some(d) => d.tail_idx,
                            None => FIRST_LIST_IDX,
                        }),
                    ) && desc_of(final(self)@, list_key@) == Some(
                        crate::steps::insert_desc_step(desc_of(m, list_key@)),
                    ) && get_value_spec(final(self)@, list_key@, item_key@) == Some(default_val@)
                        && list_view(final(self)@, list_key@) == vw0.push(
                        ((item_key@, default_val@)),
                    ),
                    Err(_) => !m.contains_key(isk) && final(self)@ == m && (ph_conflict(
                        m,
                        list_key@,
                    ) || (match desc_of(m, list_key@) {
                        Some(d) => d.tail_idx == u64::MAX,
                        None => false,
                    })),
                }
            }),
    {
        let ghost m = self@;
        let res = self.insert_to_list_inner(
            list_key.as_slice(),
            item_key.as_slice(),
            default_val.as_slice(),
            InsertMode::GetOrCreate,
            None,
        );
        match res {
            Ok(InsertToListStatus::ExistingValue(v)) => Ok(GetOrCreateStatus::ExistingValue(v)),
            Ok(InsertToListStatus::Created(v)) => {
                proof {
                    let dk = desc_key_bytes(list_key@);
                    if m.contains_key(dk) {
                        assert(is_desc_row(dk)) by {
                            assert(dk.last() == LIST_NAMESPACE);
                        }
                        assert(crate::model::desc_row_wf(m, dk));
                    }
                }
                Ok(GetOrCreateStatus::CreatedNew(v))
            },
            Ok(_) => Ok(GetOrCreateStatus::CreatedNew(Vec::new())),  // cannot arise in this mode
            Err(e) => Err(e),
        }
    }

    /// Borrowed version of [`Self::owned_get_or_create_in_list`].
    pub fn get_or_create_in_list(
        &mut self,
        list_key: &[u8],
        item_key: &[u8],
        default_val: &[u8],
    ) -> (r: Result<GetOrCreateStatus, CandyError>)
        requires
            old(self).inv(),
        ensures
            final(self).inv(),
            forall|lk2: Seq<u8>|
                list_ph_of(lk2) != list_ph_of(list_key@) ==> #[trigger] list_view(
                    final(self)@,
                    lk2,
                ) == list_view(old(self)@, lk2),
            forall|lk2: Seq<u8>, ik2: Seq<u8>|
                list_ph_of(lk2) != list_ph_of(list_key@) ==> #[trigger] get_value_spec(
                    final(self)@,
                    lk2,
                    ik2,
                ) == get_value_spec(old(self)@, lk2, ik2),
            ph_conflict(final(self)@, list_key@) == ph_conflict(old(self)@, list_key@),
            forall|lk2: Seq<u8>|
                lk2 != list_key@ ==> #[trigger] desc_of(final(self)@, lk2) == desc_of(
                    old(self)@,
                    lk2,
                ),
            ({
                let m = old(self)@;
                let isk = item_storage_key(list_ph_of(list_key@), item_key@);
                let vw0 = list_view(m, list_key@);
                match r {
                    Ok(GetOrCreateStatus::ExistingValue(v)) => m.contains_key(isk) && v@
                        == strip_link(m[isk]) && final(self)@ == m,
                    Ok(GetOrCreateStatus::CreatedNew(v)) => !m.contains_key(isk) && v@
                        == default_val@ && final(self)@ == crate::steps::insert_step(
                        m,
                        list_key@,
                        item_key@,
                        default_val@,
                        crate::steps::insert_desc_step(desc_of(m, list_key@)),
                        (match desc_of(m, list_key@) {
                            Some(d) => d.tail_idx,
                            None => FIRST_LIST_IDX,
                        }),
                    ) && desc_of(final(self)@, list_key@) == Some(
                        crate::steps::insert_desc_step(desc_of(m, list_key@)),
                    ) && get_value_spec(final(self)@, list_key@, item_key@) == Some(default_val@)
                        && list_view(final(self)@, list_key@) == vw0.push(
                        ((item_key@, default_val@)),
                    ),
                    Err(_) => !m.contains_key(isk) && final(self)@ == m && (ph_conflict(
                        m,
                        list_key@,
                    ) || (match desc_of(m, list_key@) {
                        Some(d) => d.tail_idx == u64::MAX,
                        None => false,
                    })),
                }
            }),
    {
        self.owned_get_or_create_in_list(
            slice_to_vec_u8(list_key),
            slice_to_vec_u8(item_key),
            slice_to_vec_u8(default_val),
        )
    }

    /// Resolves the chain row at `(lph, idx)` to its item row, handing
    /// back the item's fingerprint, storage key and stored value (with
    /// `truncate`, the user key and user value instead).
    fn get_from_list_at_index(&self, lph: &PartedHash, idx: u64, truncate: bool) -> (r: Result<
        Option<(PartedHash, Vec<u8>, Vec<u8>)>,
        CandyError,
    >)
        requires
            self.base_inv(),
            has_chain(self@, *lph, idx) ==> crate::model::chain_resolves(self@, *lph, idx),
        ensures
            (match r {
                Ok(None) => !has_chain(self@, *lph, idx),
                Ok(Some((ph, k, v))) => has_chain(self@, *lph, idx) && ({
                    let ki = crate::model::item_key_at(self@, *lph, idx);
                    &&& ph == spec_hash(ki)
                    &&& if truncate {
                        k@ == strip_item_suffix(ki) && v@ == strip_link(self@[ki])
                    } else {
                        k@ == ki && v@ == self@[ki]
                    }
                }),
                Err(_) => false,
            }),
    {
        let ck = make_chain_key(lph, idx);
        let Some(chain_val) = self.kv.get_raw(ck.as_slice()) else {
            return Ok(None);
        };
        proof {
            assert(has_chain(self@, *lph, idx));
            crate::hashing::lemma_ph_bytes_roundtrip(
                spec_hash(crate::model::item_key_at(self@, *lph, idx)),
            );
        }
        let item_ph = crate::hashing::ph_parse(chain_val.as_slice());
        let ghost ki = crate::model::item_key_at(self@, *lph, idx);
        proof {
            assert(item_ph == spec_hash(ki));
            assert(crate::model::item_match(self@, ki, *lph, idx));
        }
        let rows = self.kv.get_by_hash(&item_ph);
        let mut j: usize = 0;
        while j < rows.len()
            invariant
                self.base_inv(),
                0 <= j <= rows@.len(),
                has_chain(self@, *lph, idx),
                crate::model::chain_resolves(self@, *lph, idx),
                ki == crate::model::item_key_at(self@, *lph, idx),
                item_ph == spec_hash(ki),
                crate::model::item_match(self@, ki, *lph, idx),
                forall|z: int|
                    0 <= z < rows@.len() ==> self@.contains_key(#[trigger] rows@[z].0@)
                        && rows@[z].1@ == self@[rows@[z].0@] && spec_hash(rows@[z].0@) == item_ph,
                forall|k2: Seq<u8>|
                    self@.contains_key(k2) && spec_hash(k2) == item_ph ==> exists|z: int|
                        0 <= z < rows@.len() && #[trigger] rows@[z].0@ == k2,
                forall|z: int|
                    0 <= z < j ==> !crate::model::item_match(self@, #[trigger] rows@[z].0@, *lph, idx),
            decreases rows@.len() - j,
        {
            let suffix_ok = item_suffix_matches(&rows[j].0, lph);
            let link_ok = link_matches(&rows[j].1, idx);
            if suffix_ok && link_ok {
                proof {
                    assert(crate::model::item_match(self@, rows@[j as int].0@, *lph, idx));
                    assert(rows@[j as int].0@ == ki);
                }
                let k = clone_bytes(&rows[j].0);
                let v = clone_bytes(&rows[j].1);
                if truncate {
                    proof {
                        crate::layout::lemma_item_row_of_parts(ki, *lph);
                    }
                    let uk = vec_prefix(&k, k.len() - 9);
                    let uv = vec_prefix(&v, v.len() - 8);
                    return Ok(Some((item_ph, uk, uv)));
                } else {
                    return Ok(Some((item_ph, k, v)));
                }
            }
            proof {
                assert(!crate::model::item_match(self@, rows@[j as int].0@, *lph, idx));
            }
            j = j + 1;
        }
        proof {
            let zk = choose|z: int| 0 <= z < rows@.len() && #[trigger] rows@[z].0@ == ki;
            assert(crate::model::item_match(self@, rows@[zk].0@, *lph, idx));
            assert(false);
        }
        Err(CandyError::Corruption)
    }

    /// Iterates over the elements of the list from head to tail.  Holes
    /// left by removals are skipped.
    pub fn owned_iter_list(&self, list_key: Vec<u8>) -> (r: ListIterator)
        ensures
            r.wf(),
            r.list_key() == list_key@,
            r.remaining(self@) == list_view(self@, list_key@),
    {
        let dk = make_desc_key(list_key.as_slice());
        let lph = hash_bytes(dk.as_slice());
        let r = ListIterator { desc_key: dk, list_ph: lph, range: None, fwd: true };
        proof {
            assert(r.desc_key@.last() == LIST_NAMESPACE);
            assert(r.list_key() =~= list_key@);
        }
        r
    }

    /// Borrowed version of [`Self::owned_iter_list`].
    pub fn iter_list(&self, list_key: &[u8]) -> (r: ListIterator)
        ensures
            r.wf(),
            r.list_key() == list_key@,
            r.remaining(self@) == list_view(self@, list_key@),
    {
        self.owned_iter_list(slice_to_vec_u8(list_key))
    }

    /// Same as [`Self::iter_list`] but iterates from the tail back to the
    /// head.
    pub fn owned_iter_list_backwards(&self, list_key: Vec<u8>) -> (r: ListIterator)
        ensures
            r.wf(),
            r.list_key() == list_key@,
            r.remaining(self@) == list_view(self@, list_key@).reverse(),
    {
        let dk = make_desc_key(list_key.as_slice());
        let lph = hash_bytes(dk.as_slice());
        let r = ListIterator { desc_key: dk, list_ph: lph, range: None, fwd: false };
        proof {
            assert(r.desc_key@.last() == LIST_NAMESPACE);
            assert(r.list_key() =~= list_key@);
        }
        r
    }

    /// Borrowed version of [`Self::owned_iter_list_backwards`].
    pub fn iter_list_backwards(&self, list_key: &[u8]) -> (r: ListIterator)
        ensures
            r.wf(),
            r.list_key() == list_key@,
            r.remaining(self@) == list_view(self@, list_key@).reverse(),
    {
        self.owned_iter_list_backwards(slice_to_vec_u8(list_key))
    }

    /// The first (head) element of the list, read without mutating.
    pub fn owned_peek_list_head(&self, list_key: Vec<u8>) -> (r: Result<Option<KVPair>, CandyError>)
        requires
            self.inv(),
        ensures
            (match r {
                Ok(None) => list_view(self@, list_key@).len() == 0,
                Ok(Some((k, v))) => list_view(self@, list_key@).len() > 0 && ((k@, v@))
                    == list_view(self@, list_key@)[0],
                Err(_) => false,
            }),
    {
        let mut it = self.owned_iter_list(list_key);
        it.next(self)
    }

    /// Borrowed version of [`Self::owned_peek_list_head`].
    pub fn peek_list_head(&self, list_key: &[u8]) -> (r: Result<Option<KVPair>, CandyError>)
        requires
            self.inv(),
        ensures
            (match r {
                Ok(None) => list_view(self@, list_key@).len() == 0,
                Ok(Some((k, v))) => list_view(self@, list_key@).len() > 0 && ((k@, v@))
                    == list_view(self@, list_key@)[0],
                Err(_) => false,
            }),
    {
        self.owned_peek_list_head(slice_to_vec_u8(list_key))
    }

    /// The last (tail) element of the list, read without mutating.
    pub fn owned_peek_list_tail(&self, list_key: Vec<u8>) -> (r: Result<Option<KVPair>, CandyError>)
        requires
            self.inv(),
        ensures
            (match r {
                Ok(None) => list_view(self@, list_key@).len() == 0,
                Ok(Some((k, v))) => list_view(self@, list_key@).len() > 0 && ((k@, v@))
                    == list_view(self@, list_key@).last(),
                Err(_) => false,
            }),
    {
        let ghost vw = list_view(self@, list_key@);
        let mut it = self.owned_iter_list_backwards(list_key);
        let r = it.next(self);
        proof {
            if vw.len() > 0 {
                assert(vw.reverse()[0] == vw[vw.len() - 1]);
            }
        }
        r
    }

    /// Borrowed version of [`Self::owned_peek_list_tail`].
    pub fn peek_list_tail(&self, list_key: &[u8]) -> (r: Result<Option<KVPair>, CandyError>)
        requires
            self.inv(),
        ensures
            (match r {
                Ok(None) => list_view(self@, list_key@).len() == 0,
                Ok(Some((k, v))) => list_view(self@, list_key@).len() > 0 && ((k@, v@))
                    == list_view(self@, list_key@).last(),
                Err(_) => false,
            }),
    {
        self.owned_peek_list_tail(slice_to_vec_u8(list_key))
    }

    /// Removes the end element found at `idx`: the first live index from
    /// the head (`fwd`) or the last before the tail.
    #[verifier::rlimit(100)]
    #[verifier::spinoff_prover]
    fn pop_at(&mut self, list_key: &[u8], idx: u64, fwd: bool) -> (r: Result<
        Option<KVPair>,
        CandyError,
    >)
        requires
            old(self).inv(),
            old(self)@.contains_key(desc_key_bytes(list_key@)),
            has_chain(old(self)@, list_ph_of(list_key@), idx),
            ({
                let m = old(self)@;
                let d = list_from_bytes(m[desc_key_bytes(list_key@)]);
                let lph = list_ph_of(list_key@);
                &&& m[desc_key_bytes(list_key@)].len() == 24
                &&& if fwd {
                    forall|i: u64| d.head_idx <= i < idx ==> !has_chain(m, lph, i)
                } else {
                    forall|i: u64| idx < i < d.tail_idx ==> !has_chain(m, lph, i)
                }
            }),
        ensures
            final(self).inv(),
            forall|lk2: Seq<u8>|
                list_ph_of(lk2) != list_ph_of(list_key@) ==> #[trigger] list_view(
                    final(self)@,
                    lk2,
                ) == list_view(old(self)@, lk2),
            forall|lk2: Seq<u8>, ik2: Seq<u8>|
                list_ph_of(lk2) != list_ph_of(list_key@) ==> #[trigger] get_value_spec(
                    final(self)@,
                    lk2,
                    ik2,
                ) == get_value_spec(old(self)@, lk2, ik2),
            ph_conflict(final(self)@, list_key@) == ph_conflict(old(self)@, list_key@),
            forall|lk2: Seq<u8>|
                lk2 != list_key@ ==> #[trigger] desc_of(final(self)@, lk2) == desc_of(
                    old(self)@,
                    lk2,
                ),
            ({
                let vw0 = list_view(old(self)@, list_key@);
                match r {
                    Ok(Some((k, v))) => vw0.len() > 0 && ((k@, v@)) == (if fwd {
                        vw0[0]
                    } else {
                        vw0.last()
                    }) && list_view(final(self)@, list_key@) == (if fwd {
                        vw0.drop_first()
                    } else {
                        vw0.drop_last()
                    }),
                    _ => false,
                }
            }),
    {
        let ghost m = self@;
        let ghost lph = list_ph_of(list_key@);
        let ghost dk = desc_key_bytes(list_key@);
        let ghost d = list_from_bytes(m[dk]);
        let ghost vw0 = list_view(m, list_key@);
        let lph_x = hash_bytes(make_desc_key(list_key).as_slice());
        proof {
            assert(lph_x == lph);
            crate::model::lemma_wf_chain(m, lph, idx);
            crate::model::lemma_wf_chain_desc(m, list_key@, idx);
            assert(is_desc_row(dk)) by {
                assert(dk.last() == LIST_NAMESPACE);
            }
            assert(crate::model::desc_row_wf(m, dk));
        }
        let found = self.get_from_list_at_index(&lph_x, idx, true);
        let (uk, uv) = match found {
            Ok(Some((_, uk, uv))) => (uk, uv),
            Ok(None) => {
                proof {
                    assert(false);
                }
                return Ok(None);
            },
            Err(e) => {
                proof {
                    assert(false);
                }
                return Err(e);
            },
        };
        let ghost ki = crate::model::item_key_at(m, lph, idx);
        let ghost pos: int = if fwd { 0int } else { list_view(m, list_key@).len() - 1 };
        proof {
            crate::steps::lemma_pop_shape(m, list_key@, idx, fwd);
            assert(item_storage_key(lph, uk@) == ki);
            assert(vw0[pos] == ((uk@, uv@)));
        }
        let rm = self.owned_remove_from_list(slice_to_vec_u8(list_key), clone_bytes(&uk));
        match rm {
            Ok(Some(_)) => {
                proof {
                    let v0 = strip_link(m[item_storage_key(lph, uk@)]);
                    let j = choose|j: int|
                        0 <= j < vw0.len() && #[trigger] vw0[j] == ((uk@, v0)) && list_view(
                            self@,
                            list_key@,
                        ) == vw0.remove(j);
                    assert(vw0[j].0 == uk@);
                    assert(j == pos);
                    if fwd {
                        assert(vw0.remove(0) =~= vw0.drop_first());
                    } else {
                        assert(vw0.remove(vw0.len() - 1) =~= vw0.drop_last());
                    }
                }
                Ok(Some((uk, uv)))
            },
            Ok(None) => {
                proof {
                    assert(m.contains_key(item_storage_key(lph, uk@)));
                    assert(false);
                }
                Ok(None)
            },
            Err(e) => {
                proof {
                    assert(false);
                }
                Err(e)
            },
        }
    }

    /// Removes and returns an end element of the list: the head with
    /// `fwd`, the tail without.
    #[verifier::rlimit(100)]
    #[verifier::spinoff_prover]
    fn pop_list_inner(&mut self, list_key: Vec<u8>, fwd: bool) -> (r: Result<
        Option<KVPair>,
        CandyError,
    >)
        requires
            old(self).inv(),
        ensures
            final(self).inv(),
            forall|lk2: Seq<u8>|
                list_ph_of(lk2) != list_ph_of(list_key@) ==> #[trigger] list_view(
                    final(self)@,
                    lk2,
                ) == list_view(old(self)@, lk2),
            forall|lk2: Seq<u8>, ik2: Seq<u8>|
                list_ph_of(lk2) != list_ph_of(list_key@) ==> #[trigger] get_value_spec(
                    final(self)@,
                    lk2,
                    ik2,
                ) == get_value_spec(old(self)@, lk2, ik2),
            ph_conflict(final(self)@, list_key@) == ph_conflict(old(self)@, list_key@),
            forall|lk2: Seq<u8>|
                lk2 != list_key@ ==> #[trigger] desc_of(final(self)@, lk2) == desc_of(
                    old(self)@,
                    lk2,
                ),
            ({
                let vw0 = list_view(old(self)@, list_key@);
                match r {
                    Ok(None) => final(self)@ == old(self)@ && vw0.len() == 0,
                    Ok(Some(kv)) => vw0.len() > 0 && ((kv.0@, kv.1@)) == (if fwd {
                        vw0[0]
                    } else {
                        vw0.last()
                    }) && list_view(final(self)@, list_key@) == (if fwd {
                        vw0.drop_first()
                    } else {
                        vw0.drop_last()
                    }),
                    Err(_) => false,
                }
            }),
    {
        let ghost m = self@;
        let ghost lph = list_ph_of(list_key@);
        let ghost vw0 = list_view(m, list_key@);
        let dk = make_desc_key(list_key.as_slice());
        let Some(db) = self.kv.get_raw(dk.as_slice()) else {
            return Ok(None);
        };
        proof {
            assert(is_desc_row(dk@)) by {
                assert(dk@.last() == LIST_NAMESPACE);
            }
            assert(crate::model::desc_row_wf(m, dk@));
        }
        let d = decode_list(db.as_slice());
        match self.find_live(&dk, d.head_idx, d.tail_idx, fwd) {
            Some(idx) => self.pop_at(list_key.as_slice(), idx, fwd),
            None => {
                proof {
                    crate::model::lemma_live_seq_empty(m, lph, d.head_idx, d.tail_idx);
                    assert(vw0 =~= Seq::<(Seq<u8>, Seq<u8>)>::empty());
                }
                Ok(None)
            },
        }
    }

    /// Scans the span for a live index: the first from `lo` upward, or
    /// the last below `hi`.
    #[verifier::rlimit(100)]
    #[verifier::spinoff_prover]
    #[verifier::loop_isolation(false)]
    fn find_live(&self, dk: &Vec<u8>, lo: u64, hi: u64, fwd: bool) -> (r: Option<u64>)
        requires
            self.base_inv(),
            lo <= hi,
        ensures
            (match r {
                Some(idx) => lo <= idx < hi && has_chain(self@, spec_hash(dk@), idx) && (if fwd {
                    forall|i: u64| lo <= i < idx ==> !has_chain(self@, spec_hash(dk@), i)
                } else {
                    forall|i: u64| idx < i < hi ==> !has_chain(self@, spec_hash(dk@), i)
                }),
                None => forall|i: u64| lo <= i < hi ==> !has_chain(self@, spec_hash(dk@), i),
            }),
    {
        if fwd {
            let mut cur = lo;
            while cur < hi
                invariant
                    self.base_inv(),
                    lo <= cur <= hi,
                    forall|i: u64| lo <= i < cur ==> !has_chain(self@, spec_hash(dk@), i),
                decreases hi - cur,
            {
                if self.chain_present(dk, cur) {
                    return Some(cur);
                }
                cur = cur + 1;
            }
            None
        } else {
            let mut cur = hi;
            while cur > lo
                invariant
                    self.base_inv(),
                    lo <= cur <= hi,
                    forall|i: u64| cur <= i < hi ==> !has_chain(self@, spec_hash(dk@), i),
                decreases cur - lo,
            {
                let idx = cur - 1;
                if self.chain_present(dk, idx) {
                    return Some(idx);
                }
                cur = cur - 1;
            }
            None
        }
    }

    /// Whether the chain row at index `idx` of `dk`'s list exists.
    fn chain_present(&self, dk: &Vec<u8>, idx: u64) -> (r: bool)
        requires
            self.base_inv(),
        ensures
            r == has_chain(self@, spec_hash(dk@), idx),
    {
        let lph = hash_bytes(dk.as_slice());
        let ck = make_chain_key(&lph, idx);
        match self.kv.get_raw(ck.as_slice()) {
            Some(_) => true,
            None => false,
        }
    }

    /// Removes and returns the first (head) element of the list.
    pub fn owned_pop_list_head(&mut self, list_key: Vec<u8>) -> (r: Result<
        Option<KVPair>,
        CandyError,
    >)
        requires
            old(self).inv(),
        ensures
            final(self).inv(),
            forall|lk2: Seq<u8>|
                list_ph_of(lk2) != list_ph_of(list_key@) ==> #[trigger] list_view(
                    final(self)@,
                    lk2,
                ) == list_view(old(self)@, lk2),
            forall|lk2: Seq<u8>, ik2: Seq<u8>|
                list_ph_of(lk2) != list_ph_of(list_key@) ==> #[trigger] get_value_spec(
                    final(self)@,
                    lk2,
                    ik2,
                ) == get_value_spec(old(self)@, lk2, ik2),
            ph_conflict(final(self)@, list_key@) == ph_conflict(old(self)@, list_key@),
            forall|lk2: Seq<u8>|
                lk2 != list_key@ ==> #[trigger] desc_of(final(self)@, lk2) == desc_of(
                    old(self)@,
                    lk2,
                ),
            ({
                let vw0 = list_view(old(self)@, list_key@);
                match r {
                    Ok(None) => final(self)@ == old(self)@ && vw0.len() == 0,
                    Ok(Some(kv)) => vw0.len() > 0 && ((kv.0@, kv.1@)) == vw0[0] && list_view(
                        final(self)@,
                        list_key@,
                    ) == vw0.drop_first(),
                    Err(_) => false,
                }
            }),
    {
        self.pop_list_inner(list_key, true)
    }

    /// Borrowed version of [`Self::owned_pop_list_head`].
    pub fn pop_list_head(&mut self, list_key: &[u8]) -> (r: Result<Option<KVPair>, CandyError>)
        requires
            old(self).inv(),
        ensures
            final(self).inv(),
            forall|lk2: Seq<u8>|
                list_ph_of(lk2) != list_ph_of(list_key@) ==> #[trigger] list_view(
                    final(self)@,
                    lk2,
                ) == list_view(old(self)@, lk2),
            forall|lk2: Seq<u8>, ik2: Seq<u8>|
                list_ph_of(lk2) != list_ph_of(list_key@) ==> #[trigger] get_value_spec(
                    final(self)@,
                    lk2,
                    ik2,
                ) == get_value_spec(old(self)@, lk2, ik2),
            ph_conflict(final(self)@, list_key@) == ph_conflict(old(self)@, list_key@),
            forall|lk2: Seq<u8>|
                lk2 != list_key@ ==> #[trigger] desc_of(final(self)@, lk2) == desc_of(
                    old(self)@,
                    lk2,
                ),
            ({
                let vw0 = list_view(old(self)@, list_key@);
                match r {
                    Ok(None) => final(self)@ == old(self)@ && vw0.len() == 0,
                    Ok(Some(kv)) => vw0.len() > 0 && ((kv.0@, kv.1@)) == vw0[0] && list_view(
                        final(self)@,
                        list_key@,
                    ) == vw0.drop_first(),
                    Err(_) => false,
                }
            }),
    {
        self.owned_pop_list_head(slice_to_vec_u8(list_key))
    }

    /// Removes and returns the last (tail) element of the list.
    pub fn owned_pop_list_tail(&mut self, list_key: Vec<u8>) -> (r: Result<
        Option<KVPair>,
        CandyError,
    >)
        requires
            old(self).inv(),
        ensures
            final(self).inv(),
            forall|lk2: Seq<u8>|
                list_ph_of(lk2) != list_ph_of(list_key@) ==> #[trigger] list_view(
                    final(self)@,
                    lk2,
                ) == list_view(old(self)@, lk2),
            forall|lk2: Seq<u8>, ik2: Seq<u8>|
                list_ph_of(lk2) != list_ph_of(list_key@) ==> #[trigger] get_value_spec(
                    final(self)@,
                    lk2,
                    ik2,
                ) == get_value_spec(old(self)@, lk2, ik2),
            ph_conflict(final(self)@, list_key@) == ph_conflict(old(self)@, list_key@),
            forall|lk2: Seq<u8>|
                lk2 != list_key@ ==> #[trigger] desc_of(final(self)@, lk2) == desc_of(
                    old(self)@,
                    lk2,
                ),
            ({
                let vw0 = list_view(old(self)@, list_key@);
                match r {
                    Ok(None) => final(self)@ == old(self)@ && vw0.len() == 0,
                    Ok(Some(kv)) => vw0.len() > 0 && ((kv.0@, kv.1@)) == vw0.last() && list_view(
                        final(self)@,
                        list_key@,
                    ) == vw0.drop_last(),
                    Err(_) => false,
                }
            }),
    {
        self.pop_list_inner(list_key, false)
    }

    /// Borrowed version of [`Self::owned_pop_list_tail`].
    pub fn pop_list_tail(&mut self, list_key: &[u8]) -> (r: Result<Option<KVPair>, CandyError>)
        requires
            old(self).inv(),
        ensures
            final(self).inv(),
            forall|lk2: Seq<u8>|
                list_ph_of(lk2) != list_ph_of(list_key@) ==> #[trigger] list_view(
                    final(self)@,
                    lk2,
                ) == list_view(old(self)@, lk2),
            forall|lk2: Seq<u8>, ik2: Seq<u8>|
                list_ph_of(lk2) != list_ph_of(list_key@) ==> #[trigger] get_value_spec(
                    final(self)@,
                    lk2,
                    ik2,
                ) == get_value_spec(old(self)@, lk2, ik2),
            ph_conflict(final(self)@, list_key@) == ph_conflict(old(self)@, list_key@),
            forall|lk2: Seq<u8>|
                lk2 != list_key@ ==> #[trigger] desc_of(final(self)@, lk2) == desc_of(
                    old(self)@,
                    lk2,
                ),
            ({
                let vw0 = list_view(old(self)@, list_key@);
                match r {
                    Ok(None) => final(self)@ == old(self)@ && vw0.len() == 0,
                    Ok(Some(kv)) => vw0.len() > 0 && ((kv.0@, kv.1@)) == vw0.last() && list_view(
                        final(self)@,
                        list_key@,
                    ) == vw0.drop_last(),
                    Err(_) => false,
                }
            }),
    {
        self.owned_pop_list_tail(slice_to_vec_u8(list_key))
    }

    /// Discards the given list, removing every element it contains and
    /// dropping the list itself.
    #[verifier::rlimit(100)]
    #[verifier::spinoff_prover]
    #[verifier::loop_isolation(false)]
    pub fn owned_discard_list(&mut self, list_key: Vec<u8>) -> (r: Result<bool, CandyError>)
        requires
            old(self).inv(),
        ensures
            final(self).inv(),
            forall|lk2: Seq<u8>|
                list_ph_of(lk2) != list_ph_of(list_key@) ==> #[trigger] list_view(
                    final(self)@,
                    lk2,
                ) == list_view(old(self)@, lk2),
            forall|lk2: Seq<u8>, ik2: Seq<u8>|
                list_ph_of(lk2) != list_ph_of(list_key@) ==> #[trigger] get_value_spec(
                    final(self)@,
                    lk2,
                    ik2,
                ) == get_value_spec(old(self)@, lk2, ik2),
            list_view(final(self)@, list_key@) == Seq::<(Seq<u8>, Seq<u8>)>::empty(),
            desc_of(final(self)@, list_key@) is None,
            !ph_conflict(final(self)@, list_key@) ==> forall|ik: Seq<u8>|
                #[trigger] get_value_spec(final(self)@, list_key@, ik) is None,
            !ph_conflict(final(self)@, list_key@) ==> forall|idx: u64|
                !has_chain(final(self)@, list_ph_of(list_key@), idx),
            ph_conflict(final(self)@, list_key@) == ph_conflict(old(self)@, list_key@),
            forall|lk2: Seq<u8>|
                lk2 != list_key@ ==> #[trigger] desc_of(final(self)@, lk2) == desc_of(
                    old(self)@,
                    lk2,
                ),
            (match r {
                Ok(b) => b == (desc_of(old(self)@, list_key@) is Some) && (!b ==> final(self)@
                    == old(self)@),
                Err(_) => false,
            }),
    {
        let ghost m = self@;
        let ghost lk0 = list_key@;
        let dk = make_desc_key(list_key.as_slice());
        proof {
            assert(is_desc_row(dk@)) by {
                assert(dk@.last() == LIST_NAMESPACE);
            }
            if m.contains_key(dk@) {
                assert(crate::model::desc_row_wf(m, dk@));
            }
        }
        if self.kv.get_raw(dk.as_slice()).is_none() {
            // the list does not exist: nothing to write
            proof {
                if !ph_conflict(self@, lk0) {
                    crate::steps::lemma_no_desc_no_items(self@, lk0);
                }
            }
            return Ok(false);
        }
        let mut done = false;
        while !done
            invariant
                self.inv(),
                forall|lk2: Seq<u8>|
                    list_ph_of(lk2) != list_ph_of(lk0) ==> #[trigger] list_view(self@, lk2)
                        == list_view(old(self)@, lk2),
                forall|lk2: Seq<u8>, ik2: Seq<u8>|
                    list_ph_of(lk2) != list_ph_of(lk0) ==> #[trigger] get_value_spec(
                        self@,
                        lk2,
                        ik2,
                    ) == get_value_spec(old(self)@, lk2, ik2),
                ph_conflict(self@, lk0) == ph_conflict(old(self)@, lk0),
                forall|lk2: Seq<u8>|
                    lk2 != lk0 ==> #[trigger] desc_of(self@, lk2) == desc_of(old(self)@, lk2),
                list_key@ == lk0,
                done ==> list_view(self@, lk0).len() == 0,
            decreases list_view(self@, lk0).len() + (if done {
                0int
            } else {
                1
            }),
        {
            match self.owned_pop_list_head(clone_bytes(&list_key)) {
                Ok(Some(_)) => {},
                Ok(None) => {
                    done = true;
                },
                Err(_) => {
                    proof {
                        assert(false);
                    }
                    done = true;
                },
            }
        }
        match self.kv.get_raw(dk.as_slice()) {
            Some(_) => {
                let ghost m_end = self@;
                proof {
                    assert(crate::model::desc_row_wf(self@, dk@));
                    let d = list_from_bytes(self@[dk@]);
                    assert(d.num_items == 0) by {
                        assert(desc_of(self@, lk0) == Some(d));
                        assert(list_view(self@, lk0) == crate::model::entries_at(
                            self@,
                            list_ph_of(lk0),
                            crate::model::live_seq(
                                self@,
                                list_ph_of(lk0),
                                d.head_idx,
                                d.tail_idx,
                            ),
                        ));
                    }
                    crate::steps::lemma_wf_drop_empty_desc(self@, lk0);
                }
                self.kv.remove_raw(dk.as_slice());
                proof {
                    assert forall|kd: Seq<u8>|
                        is_desc_row(kd) && kd != desc_key_bytes(lk0) implies (
                    #[trigger] self@.contains_key(kd) == m_end.contains_key(kd)
                        && (m_end.contains_key(kd) ==> self@[kd] == m_end[kd])) by {}
                    crate::steps::lemma_desc_frame(m_end, self@, lk0);
                }
            },
            None => {
                proof {
                    if !ph_conflict(self@, lk0) {
                        crate::steps::lemma_no_desc_no_items(self@, lk0);
                    }
                }
            },
        }
        Ok(true)
    }

    /// Borrowed version of [`Self::owned_discard_list`].
    pub fn discard_list(&mut self, list_key: &[u8]) -> (r: Result<bool, CandyError>)
        requires
            old(self).inv(),
        ensures
            final(self).inv(),
            forall|lk2: Seq<u8>|
                list_ph_of(lk2) != list_ph_of(list_key@) ==> #[trigger] list_view(
                    final(self)@,
                    lk2,
                ) == list_view(old(self)@, lk2),
            forall|lk2: Seq<u8>, ik2: Seq<u8>|
                list_ph_of(lk2) != list_ph_of(list_key@) ==> #[trigger] get_value_spec(
                    final(self)@,
                    lk2,
                    ik2,
                ) == get_value_spec(old(self)@, lk2, ik2),
            list_view(final(self)@, list_key@) == Seq::<(Seq<u8>, Seq<u8>)>::empty(),
            desc_of(final(self)@, list_key@) is None,
            !ph_conflict(final(self)@, list_key@) ==> forall|ik: Seq<u8>|
                #[trigger] get_value_spec(final(self)@, list_key@, ik) is None,
            !ph_conflict(final(self)@, list_key@) ==> forall|idx: u64|
                !has_chain(final(self)@, list_ph_of(list_key@), idx),
            ph_conflict(final(self)@, list_key@) == ph_conflict(old(self)@, list_key@),
            forall|lk2: Seq<u8>|
                lk2 != list_key@ ==> #[trigger] desc_of(final(self)@, lk2) == desc_of(
                    old(self)@,
                    lk2,
                ),
            (match r {
                Ok(b) => b == (desc_of(old(self)@, list_key@) is Some) && (!b ==> final(self)@
                    == old(self)@),
                Err(_) => false,
            }),
    {
        self.owned_discard_list(slice_to_vec_u8(list_key))
    }

    /// Closes the span over the rebuilt tail segment: drops an empty
    /// descriptor, or raises the head over the hole-only region below
    /// `tail0`.
    #[verifier::rlimit(100)]
    #[verifier::spinoff_prover]
    fn close_span(&mut self, list_key: &[u8], tail0: u64)
        requires
            old(self).inv(),
            (match desc_of(old(self)@, list_key@) {
                Some(dc) => dc.num_items == 0 || (dc.head_idx <= tail0 < dc.tail_idx
                    && dc.num_items == dc.tail_idx - tail0 && crate::model::live_seq(
                    old(self)@,
                    list_ph_of(list_key@),
                    dc.head_idx,
                    tail0,
                ).len() == 0),
                None => true,
            }),
        ensures
            final(self).inv(),
            forall|lk2: Seq<u8>|
                list_ph_of(lk2) != list_ph_of(list_key@) ==> #[trigger] list_view(
                    final(self)@,
                    lk2,
                ) == list_view(old(self)@, lk2),
            forall|lk2: Seq<u8>, ik2: Seq<u8>|
                list_ph_of(lk2) != list_ph_of(list_key@) ==> #[trigger] get_value_spec(
                    final(self)@,
                    lk2,
                    ik2,
                ) == get_value_spec(old(self)@, lk2, ik2),
            forall|ik2: Seq<u8>|
                #[trigger] get_value_spec(final(self)@, list_key@, ik2) == get_value_spec(
                    old(self)@,
                    list_key@,
                    ik2,
                ),
            ph_conflict(final(self)@, list_key@) == ph_conflict(old(self)@, list_key@),
            forall|lk2: Seq<u8>|
                lk2 != list_key@ ==> #[trigger] desc_of(final(self)@, lk2) == desc_of(
                    old(self)@,
                    lk2,
                ),
            list_view(final(self)@, list_key@) == list_view(old(self)@, list_key@),
            (match desc_of(final(self)@, list_key@) {
                Some(d2) => d2.num_items == list_view(final(self)@, list_key@).len()
                    && d2.spec_span_len() == list_view(final(self)@, list_key@).len() && list_view(
                    final(self)@,
                    list_key@,
                ).len() > 0,
                None => list_view(final(self)@, list_key@).len() == 0,
            }),
    {
        let ghost m = self@;
        let ghost lk0 = list_key@;
        let ghost lph = list_ph_of(lk0);
        let dk = make_desc_key(list_key);
        let Some(dc) = self.read_desc(&dk) else {
            return ;
        };
        proof {
            crate::model::lemma_live_seq_props(m, lph, dc.head_idx, dc.tail_idx);
        }
        if dc.num_items == 0 {
            proof {
                crate::steps::lemma_wf_drop_empty_desc(self@, lk0);
            }
            let ghost m_end = self@;
            self.kv.remove_raw(dk.as_slice());
            proof {
                assert forall|ik2: Seq<u8>| #[trigger] get_value_spec(self@, lk0, ik2)
                    == get_value_spec(m, lk0, ik2) by {
                    let isk2 = item_storage_key(lph, ik2);
                    crate::layout::lemma_item_key_parts(lph, ik2);
                    crate::steps::lemma_tag_distinct(isk2, dk@);
                    assert(get_value_spec(self@, lk0, ik2) == get_value_spec(m_end, lk0, ik2));
                }
                assert(list_view(m, lk0).len() == 0) by {
                    assert(list_view(m, lk0) == crate::model::entries_at(
                        m,
                        lph,
                        crate::model::live_seq(m, lph, dc.head_idx, dc.tail_idx),
                    ));
                }
                assert forall|kd: Seq<u8>|
                    is_desc_row(kd) && kd != desc_key_bytes(lk0) implies (
                #[trigger] self@.contains_key(kd) == m.contains_key(kd) && (m.contains_key(kd)
                    ==> self@[kd] == m[kd])) by {}
                crate::steps::lemma_desc_frame(m, self@, lk0);
            }
        } else {
            proof {
                assert forall|i: u64| dc.head_idx <= i < tail0 implies !has_chain(
                    self@,
                    lph,
                    i,
                ) by {
                    if has_chain(self@, lph, i) {
                        crate::model::lemma_live_seq_props(self@, lph, dc.head_idx, tail0);
                        assert(crate::model::live_seq(self@, lph, dc.head_idx, tail0).contains(i));
                    }
                }
                crate::steps::lemma_wf_shrink_head(self@, lk0, tail0);
                crate::model::lemma_live_seq_split(self@, lph, dc.head_idx, tail0, dc.tail_idx);
                assert(crate::model::live_seq(self@, lph, tail0, dc.tail_idx).len()
                    == dc.num_items);
            }
            let d1 = List { head_idx: tail0, tail_idx: dc.tail_idx, num_items: dc.num_items };
            let d1_bytes = encode_list(&d1);
            self.kv.set_raw(dk.as_slice(), d1_bytes.as_slice());
            proof {
                assert forall|kd: Seq<u8>|
                    is_desc_row(kd) && kd != desc_key_bytes(lk0) implies (
                #[trigger] self@.contains_key(kd) == m.contains_key(kd) && (m.contains_key(kd)
                    ==> self@[kd] == m[kd])) by {}
                crate::steps::lemma_desc_frame(m, self@, lk0);
            }
        }
    }

    /// One descriptor read, asserting the invariant-known shape.
    fn read_desc(&self, dk: &Vec<u8>) -> (r: Option<List>)
        requires
            self.inv(),
            dk@.len() >= 1,
            dk@.last() == LIST_NAMESPACE,
        ensures
            (match r {
                Some(d) => self@.contains_key(dk@) && self@[dk@].len() == 24 && d
                    == list_from_bytes(self@[dk@]) && crate::model::desc_row_wf(self@, dk@),
                None => !self@.contains_key(dk@),
            }),
    {
        match self.kv.get_raw(dk.as_slice()) {
            Some(b) => {
                proof {
                    assert(is_desc_row(dk@));
                    assert(crate::model::desc_row_wf(self@, dk@));
                }
                Some(decode_list(b.as_slice()))
            },
            None => None,
        }
    }

    /// Reassigns the first live item of the list to a fresh index at the
    /// tail, rotating the list view by one.
    #[verifier::rlimit(100)]
    #[verifier::spinoff_prover]
    fn migrate_front(&mut self, list_key: &[u8], idx: u64) -> (r: Result<(), CandyError>)
        requires
            old(self).inv(),
            old(self)@.contains_key(desc_key_bytes(list_key@)),
            has_chain(old(self)@, list_ph_of(list_key@), idx),
            ({
                let d = list_from_bytes(old(self)@[desc_key_bytes(list_key@)]);
                &&& d.tail_idx < u64::MAX
                &&& forall|i: u64|
                    d.head_idx <= i < idx ==> !has_chain(old(self)@, list_ph_of(list_key@), i)
            }),
        ensures
            final(self).inv(),
            r is Ok,
            final(self)@ == crate::steps::migrate_step(old(self)@, list_key@, idx),
            ph_conflict(final(self)@, list_key@) == ph_conflict(old(self)@, list_key@),
            forall|lk2: Seq<u8>|
                lk2 != list_key@ ==> #[trigger] desc_of(final(self)@, lk2) == desc_of(
                    old(self)@,
                    lk2,
                ),

            ({
                let d = list_from_bytes(old(self)@[desc_key_bytes(list_key@)]);
                let d1 = List {
                    head_idx: (idx + 1) as u64,
                    tail_idx: (d.tail_idx + 1) as u64,
                    num_items: d.num_items,
                };
                let vw0 = list_view(old(self)@, list_key@);
                &&& vw0.len() > 0
                &&& desc_of(final(self)@, list_key@) == Some(d1)
                &&& list_view(final(self)@, list_key@) == vw0.drop_first().push(vw0[0])
                &&& forall|ik2: Seq<u8>|
                    #[trigger] get_value_spec(final(self)@, list_key@, ik2) == get_value_spec(
                        old(self)@,
                        list_key@,
                        ik2,
                    )
                &&& forall|lk2: Seq<u8>|
                    list_ph_of(lk2) != list_ph_of(list_key@) ==> #[trigger] list_view(
                        final(self)@,
                        lk2,
                    ) == list_view(old(self)@, lk2)
                &&& forall|lk2: Seq<u8>, ik2: Seq<u8>|
                    list_ph_of(lk2) != list_ph_of(list_key@) ==> #[trigger] get_value_spec(
                        final(self)@,
                        lk2,
                        ik2,
                    ) == get_value_spec(old(self)@, lk2, ik2)
            }),
    {
        let ghost m = self@;
        let dk = make_desc_key(list_key);
        let lph = hash_bytes(dk.as_slice());
        proof {
            assert(lph == list_ph_of(list_key@));
            crate::steps::lemma_wf_migrate_front(m, list_key@, idx);
            crate::model::lemma_wf_chain(m, lph, idx);
        }
        let Some(d) = self.read_desc(&dk) else {
            proof {
                assert(false);
            }
            return Err(CandyError::Corruption);
        };
        let found = self.get_from_list_at_index(&lph, idx, false);
        let (iph, full_k, full_v) = match found {
            Ok(Some(t)) => t,
            _ => {
                proof {
                    assert(false);
                }
                return Err(CandyError::Corruption);
            },
        };
        let d1 = List { head_idx: idx + 1, tail_idx: d.tail_idx + 1, num_items: d.num_items };
        let d1_bytes = encode_list(&d1);
        self.kv.set_raw(dk.as_slice(), d1_bytes.as_slice());
        let ck_new = make_chain_key(&lph, d.tail_idx);
        let iphb = crate::hashing::ph_bytes(&iph);
        self.kv.set_raw(ck_new.as_slice(), iphb.as_slice());
        let mut nv = vec_prefix(&full_v, full_v.len() - 8);
        let mut ib = vstd::bytes::u64_to_le_bytes(d.tail_idx);
        nv.append(&mut ib);
        self.kv.set_raw(full_k.as_slice(), nv.as_slice());
        let ck_old = make_chain_key(&lph, idx);
        self.kv.remove_raw(ck_old.as_slice());
        proof {
            assert(full_k@ == crate::model::item_key_at(m, lph, idx));
            assert(full_v@ == m[full_k@]);
            assert(nv@ == strip_link(m[full_k@]) + vstd::bytes::spec_u64_to_le_bytes(d.tail_idx));
            assert(self@ == crate::steps::migrate_step(m, list_key@, idx));
            crate::layout::lemma_item_row_of_parts(full_k@, lph);
            assert forall|kd: Seq<u8>|
                is_desc_row(kd) && kd != desc_key_bytes(list_key@) implies (
            #[trigger] self@.contains_key(kd) == m.contains_key(kd) && (m.contains_key(kd)
                ==> self@[kd] == m[kd])) by {
                crate::steps::lemma_tag_distinct(kd, ck_new@);
                crate::steps::lemma_tag_distinct(kd, ck_old@);
                crate::steps::lemma_tag_distinct(kd, full_k@);
            }
            crate::steps::lemma_desc_frame(m, self@, list_key@);
        }
        Ok(())
    }

    /// Compacts (rewrites) the list so that no holes remain: every live
    /// item is reassigned a fresh index past the old tail, in order.  The
    /// thresholds decide when the rewrite is worth it.  Returns whether
    /// the list was compacted.
    #[verifier::rlimit(100)]
    #[verifier::spinoff_prover]
    pub fn compact_list_if_needed(&mut self, list_key: &[u8], params: ListCompactionParams) -> (r:
        Result<bool, CandyError>)
        requires
            old(self).inv(),
        ensures
            final(self).inv(),
            forall|lk2: Seq<u8>|
                list_ph_of(lk2) != list_ph_of(list_key@) ==> #[trigger] list_view(
                    final(self)@,
                    lk2,
                ) == list_view(old(self)@, lk2),
            forall|lk2: Seq<u8>, ik2: Seq<u8>|
                list_ph_of(lk2) != list_ph_of(list_key@) ==> #[trigger] get_value_spec(
                    final(self)@,
                    lk2,
                    ik2,
                ) == get_value_spec(old(self)@, lk2, ik2),
            ph_conflict(final(self)@, list_key@) == ph_conflict(old(self)@, list_key@),
            forall|lk2: Seq<u8>|
                lk2 != list_key@ ==> #[trigger] desc_of(final(self)@, lk2) == desc_of(
                    old(self)@,
                    lk2,
                ),
            ({
                let m = old(self)@;
                let vw0 = list_view(m, list_key@);
                let skip_it = (match desc_of(m, list_key@) {
                    Some(d) => d.spec_span_len() < params.min_length || d.spec_holes()
                        * params.min_holes_den < d.spec_span_len() * params.min_holes_num
                        || d.num_items > u64::MAX - d.tail_idx,
                    None => true,
                });
                match r {
                    Ok(b) => {
                        &&& b == !skip_it
                        &&& !b ==> final(self)@ == m
                        &&& b ==> {
                            &&& list_view(final(self)@, list_key@) == vw0
                            &&& (forall|ik2: Seq<u8>|
                                #[trigger] get_value_spec(final(self)@, list_key@, ik2)
                                    == get_value_spec(m, list_key@, ik2))
                            &&& (match desc_of(final(self)@, list_key@) {
                                Some(d2) => vw0.len() > 0 && d2.num_items == vw0.len()
                                    && d2.spec_span_len() == vw0.len(),
                                None => vw0.len() == 0,
                            })
                        }
                    },
                    Err(_) => false,
                }
            }),
    {
        let ghost m = self@;
        let ghost lk0 = list_key@;
        let ghost lph = list_ph_of(list_key@);
        let ghost v0 = list_view(m, lk0);
        let dk = make_desc_key(list_key);
        let Some(d) = self.read_desc(&dk) else {
            return Ok(false);
        };
        let span = d.span_len();
        if span < params.min_length {
            return Ok(false);
        }
        proof {
            crate::model::lemma_live_seq_props(m, lph, d.head_idx, d.tail_idx);
        }
        let holes = d.holes();
        proof {
            assert((holes as u128) * (params.min_holes_den as u128) < 0x1_0000_0000_0000_0000u128
                * 0x1_0000_0000_0000_0000u128 && (span as u128) * (params.min_holes_num as u128)
                < 0x1_0000_0000_0000_0000u128 * 0x1_0000_0000_0000_0000u128) by (nonlinear_arith)
                requires
                    holes <= 0xffff_ffff_ffff_ffffu64,
                    span <= 0xffff_ffff_ffff_ffffu64,
                    params.min_holes_den <= 0xffff_ffff_ffff_ffffu64,
                    params.min_holes_num <= 0xffff_ffff_ffff_ffffu64,
            ;
        }
        if (holes as u128) * (params.min_holes_den as u128) < (span as u128) * (
        params.min_holes_num as u128) {
            return Ok(false);
        }
        if d.num_items > u64::MAX - d.tail_idx {
            return Ok(false);
        }
        let n0 = d.num_items;
        let tail0 = d.tail_idx;
        proof {
            assert(v0.len() == n0);
        }
        match self.rebuild_tail(list_key, n0, tail0) {
            Ok(()) => {},
            Err(e) => {
                proof {
                    assert(false);
                }
                return Err(e);
            },
        }
        let ghost m_mid = self@;
        self.close_span(list_key, tail0);
        proof {
            assert(ph_conflict(self@, lk0) == ph_conflict(m_mid, lk0));
            assert(ph_conflict(m_mid, lk0) == ph_conflict(m, lk0));
            assert forall|lk2: Seq<u8>| lk2 != lk0 implies #[trigger] desc_of(self@, lk2)
                == desc_of(m, lk2) by {
                assert(desc_of(self@, lk2) == desc_of(m_mid, lk2));
                assert(desc_of(m_mid, lk2) == desc_of(m, lk2));
            }
            assert forall|lk2: Seq<u8>|
                list_ph_of(lk2) != lph implies #[trigger] list_view(self@, lk2) == list_view(
                m,
                lk2,
            ) by {
                assert(list_view(self@, lk2) == list_view(m_mid, lk2));
                assert(list_view(m_mid, lk2) == list_view(m, lk2));
            }
            assert forall|lk2: Seq<u8>, ik2: Seq<u8>|
                list_ph_of(lk2) != lph implies #[trigger] get_value_spec(self@, lk2, ik2)
                == get_value_spec(m, lk2, ik2) by {
                assert(get_value_spec(self@, lk2, ik2) == get_value_spec(m_mid, lk2, ik2));
                assert(get_value_spec(m_mid, lk2, ik2) == get_value_spec(m, lk2, ik2));
            }
            assert forall|ik2: Seq<u8>| #[trigger] get_value_spec(self@, lk0, ik2)
                == get_value_spec(m, lk0, ik2) by {
                assert(get_value_spec(self@, lk0, ik2) == get_value_spec(m_mid, lk0, ik2));
                assert(get_value_spec(m_mid, lk0, ik2) == get_value_spec(m, lk0, ik2));
            }
        }
        Ok(true)
    }

    /// Reassigns every live item of the list, in order, to the fresh
    /// indices starting at the old tail; the view is unchanged and the
    /// region below `tail0` ends up hole-only.
    #[verifier::rlimit(100)]
    #[verifier::spinoff_prover]
    fn rebuild_tail(&mut self, list_key: &[u8], n0: u64, tail0: u64) -> (r: Result<
        (),
        CandyError,
    >)
        requires
            old(self).inv(),
            n0 <= u64::MAX - tail0,
            list_view(old(self)@, list_key@).len() == n0,
            (match desc_of(old(self)@, list_key@) {
                Some(d0) => d0.num_items == n0 && d0.tail_idx == tail0,
                None => false,
            }),
        ensures
            final(self).inv(),
            r is Ok,
            forall|lk2: Seq<u8>|
                list_ph_of(lk2) != list_ph_of(list_key@) ==> #[trigger] list_view(
                    final(self)@,
                    lk2,
                ) == list_view(old(self)@, lk2),
            forall|lk2: Seq<u8>, ik2: Seq<u8>|
                list_ph_of(lk2) != list_ph_of(list_key@) ==> #[trigger] get_value_spec(
                    final(self)@,
                    lk2,
                    ik2,
                ) == get_value_spec(old(self)@, lk2, ik2),
            ph_conflict(final(self)@, list_key@) == ph_conflict(old(self)@, list_key@),
            forall|lk2: Seq<u8>|
                lk2 != list_key@ ==> #[trigger] desc_of(final(self)@, lk2) == desc_of(
                    old(self)@,
                    lk2,
                ),
            forall|ik2: Seq<u8>|
                #[trigger] get_value_spec(final(self)@, list_key@, ik2) == get_value_spec(
                    old(self)@,
                    list_key@,
                    ik2,
                ),
            list_view(final(self)@, list_key@) == list_view(old(self)@, list_key@),
            (match desc_of(final(self)@, list_key@) {
                Some(dc) => dc.num_items == n0 && dc.tail_idx == tail0 + n0 && dc.head_idx <= tail0
                    && (n0 > 0 ==> crate::model::live_seq(
                    final(self)@,
                    list_ph_of(list_key@),
                    dc.head_idx,
                    tail0,
                ).len() == 0),
                None => false,
            }),
    {
        let ghost m = self@;
        let ghost lk0 = list_key@;
        let ghost lph = list_ph_of(list_key@);
        let ghost v0 = list_view(m, lk0);
        let dk = make_desc_key(list_key);
        let mut k: u64 = 0;
        while k < n0
            invariant
                self.inv(),
                0 <= k <= n0,
                v0.len() == n0,
                n0 <= u64::MAX - tail0,
                lk0 == list_key@,
                lph == list_ph_of(lk0),
                dk@ == desc_key_bytes(lk0),
                m == old(self)@,
                v0 == list_view(m, lk0),
                self.inv(),
                (match desc_of(m, lk0) {
                    Some(d0) => d0.num_items == n0 && d0.tail_idx == tail0,
                    None => false,
                }),
                forall|lk2: Seq<u8>|
                    list_ph_of(lk2) != lph ==> #[trigger] list_view(self@, lk2) == list_view(
                        old(self)@,
                        lk2,
                    ),
                forall|lk2: Seq<u8>, ik2: Seq<u8>|
                    list_ph_of(lk2) != lph ==> #[trigger] get_value_spec(self@, lk2, ik2)
                        == get_value_spec(old(self)@, lk2, ik2),
                forall|ik2: Seq<u8>|
                    #[trigger] get_value_spec(self@, lk0, ik2) == get_value_spec(m, lk0, ik2),
                ph_conflict(self@, lk0) == ph_conflict(old(self)@, lk0),
                forall|lk2: Seq<u8>|
                    lk2 != lk0 ==> #[trigger] desc_of(self@, lk2) == desc_of(old(self)@, lk2),
                list_view(self@, lk0) == v0.skip(k as int) + v0.take(k as int),
                (match desc_of(self@, lk0) {
                    Some(dc) => dc.num_items == n0 && dc.tail_idx == tail0 + k && dc.head_idx
                        <= tail0,
                    None => false,
                }),
                crate::model::live_seq(self@, lph, tail0, (tail0 + k) as u64).len() == k,
            decreases n0 - k,
        {
            let Some(dc) = self.read_desc(&dk) else {
                proof {
                    assert(false);
                }
                return Err(CandyError::Corruption);
            };
            proof {
                // the first live index is an unmigrated one, below tail0
                crate::model::lemma_live_seq_split(self@, lph, dc.head_idx, tail0, dc.tail_idx);
                assert(crate::model::live_seq(self@, lph, dc.head_idx, tail0).len() == n0 - k);
                crate::model::lemma_live_seq_props(self@, lph, dc.head_idx, tail0);
                crate::model::lemma_live_seq_props(self@, lph, dc.head_idx, dc.tail_idx);
            }
            match self.find_live(&dk, dc.head_idx, dc.tail_idx, true) {
                Some(idx) => {
                    proof {
                        let before = crate::model::live_seq(self@, lph, dc.head_idx, tail0);
                        assert(before.len() > 0);
                        assert(before[0] < tail0 && has_chain(self@, lph, before[0]));
                        assert(idx <= before[0]) by {
                            if before[0] < idx {
                                assert(!has_chain(self@, lph, before[0]));
                            }
                        }
                        assert(idx < tail0);
                        assert(dc.tail_idx < u64::MAX);
                        crate::steps::lemma_wf_migrate_front(self@, lk0, idx);
                        crate::steps::lemma_rotate_step(v0, k as int);
                    }
                    let ghost m_before = self@;
                    match self.migrate_front(list_key, idx) {
                        Ok(()) => {},
                        Err(e) => {
                            proof {
                                assert(false);
                            }
                            return Err(e);
                        },
                    }
                    proof {
                        // the migrated segment grew by exactly the old
                        // tail index
                        crate::steps::lemma_migrate_seg(m_before, lk0, idx, tail0);
                        assert(crate::model::live_seq(
                            self@,
                            lph,
                            tail0,
                            (tail0 + k + 1) as u64,
                        ).len() == k + 1);
                    }
                    k = k + 1;
                },
                None => {
                    proof {
                        let before = crate::model::live_seq(self@, lph, dc.head_idx, tail0);
                        assert(before.len() > 0);
                        assert(has_chain(self@, lph, before[0]));
                        assert(false);
                    }
                    return Err(CandyError::Corruption);
                },
            }
        }
        // every live item has been reassigned: the region below the old
        // tail is hole-only now
        proof {
            crate::steps::lemma_rotate_full(v0);
            if n0 > 0 {
                let dc = (match desc_of(self@, lk0) {
                    Some(dcx) => dcx,
                    None => List { head_idx: 0, tail_idx: 0, num_items: 0 },
                });
                crate::model::lemma_live_seq_split(self@, lph, dc.head_idx, tail0, dc.tail_idx);
                assert(crate::model::live_seq(self@, lph, dc.head_idx, tail0).len() == 0);
            }
        }
        Ok(())
    }

    /// One step of a retain pass: finds the first unprocessed element,
    /// asks the predicate, and either reassigns it to the tail or removes
    /// it; hands back the mask extended by that decision.
    #[verifier::rlimit(100)]
    #[verifier::spinoff_prover]
    fn retain_step<F: Fn(&[u8], &[u8]) -> bool>(
        &mut self,
        list_key: &[u8],
        func: &F,
        Ghost(v0): Ghost<Seq<(Seq<u8>, Seq<u8>)>>,
        Ghost(k): Ghost<int>,
        Ghost(ds): Ghost<Seq<bool>>,
        Ghost(tail0): Ghost<u64>,
    ) -> (r: Result<Ghost<Seq<bool>>, CandyError>)
        requires
            old(self).inv(),
            forall|ka: &[u8], va: &[u8]| #[trigger] call_requires(*func, (ka, va)),
            ds.len() == k,
            0 <= k < v0.len(),
            v0.len() <= u64::MAX - tail0,
            list_view(old(self)@, list_key@) == v0.skip(k) + crate::steps::filter_by(
                v0.take(k),
                ds,
            ),
            (match desc_of(old(self)@, list_key@) {
                Some(dc) => dc.tail_idx == tail0 + crate::steps::filter_by(v0.take(k), ds).len()
                    && crate::model::live_seq(
                    old(self)@,
                    list_ph_of(list_key@),
                    tail0,
                    dc.tail_idx,
                ).len() == crate::steps::filter_by(v0.take(k), ds).len() && dc.head_idx <= tail0,
                None => false,
            }),
        ensures
            final(self).inv(),
            forall|lk2: Seq<u8>|
                list_ph_of(lk2) != list_ph_of(list_key@) ==> #[trigger] list_view(
                    final(self)@,
                    lk2,
                ) == list_view(old(self)@, lk2),
            forall|lk2: Seq<u8>, ik2: Seq<u8>|
                list_ph_of(lk2) != list_ph_of(list_key@) ==> #[trigger] get_value_spec(
                    final(self)@,
                    lk2,
                    ik2,
                ) == get_value_spec(old(self)@, lk2, ik2),
            ph_conflict(final(self)@, list_key@) == ph_conflict(old(self)@, list_key@),
            forall|lk2: Seq<u8>|
                lk2 != list_key@ ==> #[trigger] desc_of(final(self)@, lk2) == desc_of(
                    old(self)@,
                    lk2,
                ),
            (match r {
                Ok(gds) => ({
                    let ds1 = gds@;
                    &&& ds1.len() == k + 1
                    &&& (forall|i: int| 0 <= i < k ==> #[trigger] ds1[i] == ds[i])
                    &&& list_view(final(self)@, list_key@) == v0.skip(k + 1)
                        + crate::steps::filter_by(v0.take(k + 1), ds1)
                    &&& retain_decided(*func, v0[k], ds1[k])
                    &&& (list_view(final(self)@, list_key@).len() > 0 ==> (match desc_of(
                        final(self)@,
                        list_key@,
                    ) {
                        Some(dc) => dc.tail_idx == tail0 + crate::steps::filter_by(
                            v0.take(k + 1),
                            ds1,
                        ).len() && crate::model::live_seq(
                            final(self)@,
                            list_ph_of(list_key@),
                            tail0,
                            dc.tail_idx,
                        ).len() == crate::steps::filter_by(v0.take(k + 1), ds1).len()
                            && dc.head_idx <= tail0,
                        None => false,
                    }))
                }),
                Err(_) => false,
            }),
    {
        let ghost m0 = self@;
        let ghost lk0 = list_key@;
        let ghost lph = list_ph_of(lk0);
        let ghost kept = crate::steps::filter_by(v0.take(k), ds);
        let dk = make_desc_key(list_key);
        proof {
            assert(list_view(self@, lk0).len() == (v0.len() - k) + kept.len()) by {
                assert(v0.skip(k).len() == v0.len() - k);
            }
        }
        let Some(dc) = self.read_desc(&dk) else {
            proof {
                assert(false);
            }
            return Err(CandyError::Corruption);
        };
        proof {
            assert(desc_of(self@, lk0) == Some(dc));
            crate::model::lemma_live_seq_split(self@, lph, dc.head_idx, tail0, dc.tail_idx);
            assert(crate::model::live_seq(self@, lph, dc.head_idx, dc.tail_idx).len()
                == dc.num_items);
            assert(dc.num_items == list_view(self@, lk0).len());
            assert(crate::model::live_seq(self@, lph, dc.head_idx, tail0).len() == v0.len() - k);
            crate::model::lemma_live_seq_props(self@, lph, dc.head_idx, tail0);
            crate::model::lemma_live_seq_props(self@, lph, dc.head_idx, dc.tail_idx);
        }
        let Some(idx) = self.find_live(&dk, dc.head_idx, dc.tail_idx, true) else {
            proof {
                let before = crate::model::live_seq(self@, lph, dc.head_idx, tail0);
                assert(before.len() > 0);
                assert(has_chain(self@, lph, before[0]));
                assert(false);
            }
            return Err(CandyError::Corruption);
        };
        proof {
            let before = crate::model::live_seq(self@, lph, dc.head_idx, tail0);
            assert(before.len() > 0);
            assert(before[0] < tail0 && has_chain(self@, lph, before[0]));
            assert(idx <= before[0]) by {
                if before[0] < idx {
                    assert(!has_chain(self@, lph, before[0]));
                }
            }
            assert(idx < tail0);
            if has_chain(self@, lph, idx) {
                crate::model::lemma_wf_chain(self@, lph, idx);
            }
        }
        let found = self.get_from_list_at_index(&hash_bytes(dk.as_slice()), idx, true);
        let (uk, uv) = match found {
            Ok(Some((_, uk, uv))) => (uk, uv),
            _ => {
                proof {
                    assert(false);
                }
                return Err(CandyError::Corruption);
            },
        };
        proof {
            crate::steps::lemma_pop_shape(self@, lk0, idx, true);
            assert(list_view(self@, lk0)[0] == ((uk@, uv@)));
            assert(list_view(self@, lk0)[0] == v0[k]) by {
                assert(v0.skip(k)[0] == v0[k]);
            }
            crate::steps::lemma_filter_by_len(v0.take(k), ds);
            assert(kept.len() <= k);
        }
        let uks = uk.as_slice();
        let uvs = uv.as_slice();
        let keep = func(uks, uvs);
        let ghost m_before = self@;
        proof {
            assert(uks@ == v0[k].0 && uvs@ == v0[k].1);
        }
        if keep {
            proof {
                assert(dc.tail_idx < u64::MAX);
                crate::steps::lemma_wf_migrate_front(self@, lk0, idx);
                crate::steps::lemma_retain_keep_book(self@, lk0, idx, tail0, v0, k, ds);
            }
            match self.migrate_front(list_key, idx) {
                Ok(()) => {},
                Err(e) => {
                    proof {
                        assert(false);
                    }
                    return Err(e);
                },
            }
            proof {
                assert(self@ == crate::steps::migrate_step(m_before, lk0, idx));
                let ds1 = ds.push(true);
                assert(ds1[k] == true);
                assert(call_ensures(*func, (uks, uvs), ds1[k]));
                assert(retain_decided(*func, v0[k], ds1[k]));
            }
            Ok(Ghost(ds.push(true)))
        } else {
            proof {
                assert(item_storage_key(lph, uk@) == crate::model::item_key_at(
                    m_before,
                    lph,
                    idx,
                ));
                assert(crate::model::item_match(
                    m_before,
                    crate::model::item_key_at(m_before, lph, idx),
                    lph,
                    idx,
                ));
                crate::steps::lemma_retain_drop_book(self@, lk0, uk@, tail0, v0, k, ds);
            }
            let rm = self.owned_remove_from_list(slice_to_vec_u8(list_key), clone_bytes(&uk));
            match rm {
                Ok(Some(_)) => {},
                _ => {
                    proof {
                        assert(false);
                    }
                    return Err(CandyError::Corruption);
                },
            }
            proof {
                assert(self@ == crate::steps::remove_step(m_before, lk0, uk@));
                let ds1 = ds.push(false);
                assert(ds1[k] == false);
                assert(call_ensures(*func, (uks, uvs), ds1[k]));
                assert(retain_decided(*func, v0[k], ds1[k]));
            }
            Ok(Ghost(ds.push(false)))
        }
    }

    /// Iterates over the list and retains only the elements for which the
    /// predicate holds, dropping the rest.  The survivors are reassigned
    /// fresh trailing indices in order, so no holes remain.
    #[verifier::rlimit(100)]
    #[verifier::spinoff_prover]
    pub fn owned_retain_in_list<F: Fn(&[u8], &[u8]) -> bool>(
        &mut self,
        list_key: Vec<u8>,
        func: F,
    ) -> (r: Result<(), CandyError>)
        requires
            old(self).inv(),
            forall|ka: &[u8], va: &[u8]| #[trigger] call_requires(func, (ka, va)),
        ensures
            final(self).inv(),
            forall|lk2: Seq<u8>|
                list_ph_of(lk2) != list_ph_of(list_key@) ==> #[trigger] list_view(
                    final(self)@,
                    lk2,
                ) == list_view(old(self)@, lk2),
            forall|lk2: Seq<u8>, ik2: Seq<u8>|
                list_ph_of(lk2) != list_ph_of(list_key@) ==> #[trigger] get_value_spec(
                    final(self)@,
                    lk2,
                    ik2,
                ) == get_value_spec(old(self)@, lk2, ik2),
            ph_conflict(final(self)@, list_key@) == ph_conflict(old(self)@, list_key@),
            forall|lk2: Seq<u8>|
                lk2 != list_key@ ==> #[trigger] desc_of(final(self)@, lk2) == desc_of(
                    old(self)@,
                    lk2,
                ),
            ({
                let vw0 = list_view(old(self)@, list_key@);
                match r {
                    Ok(_) => (exists|ds: Seq<bool>|
                        {
                            &&& ds.len() == vw0.len()
                            &&& list_view(final(self)@, list_key@) == crate::steps::filter_by(
                                vw0,
                                ds,
                            )
                            &&& forall|i: int|
                                0 <= i < vw0.len() ==> retain_decided(
                                    func,
                                    vw0[i],
                                    #[trigger] ds[i],
                                )
                        }) && (match desc_of(final(self)@, list_key@) {
                        Some(d2) => d2.num_items == list_view(final(self)@, list_key@).len()
                            && d2.spec_span_len() == list_view(final(self)@, list_key@).len(),
                        None => list_view(final(self)@, list_key@).len() == 0,
                    }),
                    Err(_) => final(self)@ == old(self)@ && (match desc_of(
                        old(self)@,
                        list_key@,
                    ) {
                        Some(d) => d.num_items > u64::MAX - d.tail_idx,
                        None => false,
                    }),
                }
            }),
    {
        let ghost m = self@;
        let ghost lk0 = list_key@;
        let ghost lph = list_ph_of(list_key@);
        let ghost v0 = list_view(m, lk0);
        let dk = make_desc_key(list_key.as_slice());
        let Some(d) = self.read_desc(&dk) else {
            proof {
                assert(v0.len() == 0);
                let ds0 = Seq::<bool>::empty();
                assert(ds0.len() == v0.len());
                assert(crate::steps::filter_by(v0, ds0) =~= v0);
                assert(list_view(self@, lk0) == crate::steps::filter_by(v0, ds0));
            }
            return Ok(());
        };
        proof {
            crate::model::lemma_live_seq_props(m, lph, d.head_idx, d.tail_idx);
        }
        if d.num_items > u64::MAX - d.tail_idx {
            return Err(CandyError::Corruption);
        }
        let n0 = d.num_items;
        let tail0 = d.tail_idx;
        proof {
            assert(v0.len() == n0);
        }
        let ghost mut ds: Seq<bool> = Seq::empty();
        let mut k: u64 = 0;
        while k < n0
            invariant
                self.inv(),
                0 <= k <= n0,
                v0.len() == n0,
                n0 <= u64::MAX - tail0,
                lk0 == list_key@,
                lph == list_ph_of(lk0),
                dk@ == desc_key_bytes(lk0),
                m == old(self)@,
                v0 == list_view(m, lk0),
                forall|ka: &[u8], va: &[u8]| #[trigger] call_requires(func, (ka, va)),
                forall|lk2: Seq<u8>|
                    list_ph_of(lk2) != lph ==> #[trigger] list_view(self@, lk2) == list_view(
                        old(self)@,
                        lk2,
                    ),
                forall|lk2: Seq<u8>, ik2: Seq<u8>|
                    list_ph_of(lk2) != lph ==> #[trigger] get_value_spec(self@, lk2, ik2)
                        == get_value_spec(old(self)@, lk2, ik2),
                ph_conflict(self@, lk0) == ph_conflict(old(self)@, lk0),
                forall|lk2: Seq<u8>|
                    lk2 != lk0 ==> #[trigger] desc_of(self@, lk2) == desc_of(old(self)@, lk2),
                ds.len() == k,
                list_view(self@, lk0) == v0.skip(k as int) + crate::steps::filter_by(
                    v0.take(k as int),
                    ds,
                ),
                forall|i: int| 0 <= i < k ==> retain_decided(func, v0[i], #[trigger] ds[i]),
                list_view(self@, lk0).len() > 0 ==> (match desc_of(self@, lk0) {
                    Some(dc) => dc.tail_idx == tail0 + crate::steps::filter_by(
                        v0.take(k as int),
                        ds,
                    ).len() && crate::model::live_seq(self@, lph, tail0, dc.tail_idx).len()
                        == crate::steps::filter_by(v0.take(k as int), ds).len() && dc.head_idx
                        <= tail0,
                    None => false,
                }),
            decreases n0 - k,
        {
            let ghost ds_old = ds;
            let step = self.retain_step(
                list_key.as_slice(),
                &func,
                Ghost(v0),
                Ghost(k as int),
                Ghost(ds),
                Ghost(tail0),
            );
            match step {
                Ok(gds) => {
                    proof {
                        ds = gds@;
                        assert forall|i: int|
                            0 <= i < k + 1 implies retain_decided(
                            func,
                            v0[i],
                            #[trigger] ds[i],
                        ) by {
                            if i < k {
                                assert(ds[i] == ds_old[i]);
                                assert(retain_decided(func, v0[i], ds_old[i]));
                            } else {
                                assert(retain_decided(func, v0[i], gds@[i]));
                            }
                        }
                    }
                    k = k + 1;
                },
                Err(e) => {
                    proof {
                        assert(false);
                    }
                    return Err(e);
                },
            }
        }
        // close the span over the survivors
        proof {
            assert(v0.take(n0 as int) =~= v0);
            assert(v0.skip(n0 as int) =~= Seq::<(Seq<u8>, Seq<u8>)>::empty());
            assert(list_view(self@, lk0) =~= crate::steps::filter_by(v0, ds));
        }
        proof {
            if list_view(self@, lk0).len() > 0 {
                let dc = (match desc_of(self@, lk0) {
                    Some(dcx) => dcx,
                    None => List { head_idx: 0, tail_idx: 0, num_items: 0 },
                });
                crate::model::lemma_live_seq_split(self@, lph, dc.head_idx, tail0, dc.tail_idx);
                assert(crate::model::live_seq(self@, lph, dc.head_idx, tail0).len() == 0);
            }
        }
        self.close_span(list_key.as_slice(), tail0);
        proof {
            assert(ds.len() == v0.len());
        }
        Ok(())
    }

    /// Borrowed version of [`Self::owned_retain_in_list`].
    pub fn retain_in_list<F: Fn(&[u8], &[u8]) -> bool>(&mut self, list_key: &[u8], func: F) -> (r:
        Result<(), CandyError>)
        requires
            old(self).inv(),
            forall|ka: &[u8], va: &[u8]| #[trigger] call_requires(func, (ka, va)),
        ensures
            final(self).inv(),
            forall|lk2: Seq<u8>|
                list_ph_of(lk2) != list_ph_of(list_key@) ==> #[trigger] list_view(
                    final(self)@,
                    lk2,
                ) == list_view(old(self)@, lk2),
            forall|lk2: Seq<u8>, ik2: Seq<u8>|
                list_ph_of(lk2) != list_ph_of(list_key@) ==> #[trigger] get_value_spec(
                    final(self)@,
                    lk2,
                    ik2,
                ) == get_value_spec(old(self)@, lk2, ik2),
            ph_conflict(final(self)@, list_key@) == ph_conflict(old(self)@, list_key@),
            forall|lk2: Seq<u8>|
                lk2 != list_key@ ==> #[trigger] desc_of(final(self)@, lk2) == desc_of(
                    old(self)@,
                    lk2,
                ),
            ({
                let vw0 = list_view(old(self)@, list_key@);
                match r {
                    Ok(_) => (exists|ds: Seq<bool>|
                        {
                            &&& ds.len() == vw0.len()
                            &&& list_view(final(self)@, list_key@) == crate::steps::filter_by(
                                vw0,
                                ds,
                            )
                            &&& forall|i: int|
                                0 <= i < vw0.len() ==> retain_decided(
                                    func,
                                    vw0[i],
                                    #[trigger] ds[i],
                                )
                        }) && (match desc_of(final(self)@, list_key@) {
                        Some(d2) => d2.num_items == list_view(final(self)@, list_key@).len()
                            && d2.spec_span_len() == list_view(final(self)@, list_key@).len(),
                        None => list_view(final(self)@, list_key@).len() == 0,
                    }),
                    Err(_) => final(self)@ == old(self)@ && (match desc_of(
                        old(self)@,
                        list_key@,
                    ) {
                        Some(d) => d.num_items > u64::MAX - d.tail_idx,
                        None => false,
                    }),
                }
            }),
    {
        self.owned_retain_in_list(slice_to_vec_u8(list_key), func)
    }

    /// Pushes a value at the tail of the list under a freshly generated
    /// 16-byte item key, and hands the key back.  In the astronomically
    /// unlikely case that the key already names an item of this list, that
    /// item's value is overwritten in place instead.
    pub fn owned_push_to_list(&mut self, list_key: Vec<u8>, val: Vec<u8>) -> (r: Result<
        Vec<u8>,
        CandyError,
    >)
        requires
            old(self).inv(),
        ensures
            final(self).inv(),
            forall|lk2: Seq<u8>|
                list_ph_of(lk2) != list_ph_of(list_key@) ==> #[trigger] list_view(
                    final(self)@,
                    lk2,
                ) == list_view(old(self)@, lk2),
            forall|lk2: Seq<u8>, ik2: Seq<u8>|
                list_ph_of(lk2) != list_ph_of(list_key@) ==> #[trigger] get_value_spec(
                    final(self)@,
                    lk2,
                    ik2,
                ) == get_value_spec(old(self)@, lk2, ik2),
            ph_conflict(final(self)@, list_key@) == ph_conflict(old(self)@, list_key@),
            forall|lk2: Seq<u8>|
                lk2 != list_key@ ==> #[trigger] desc_of(final(self)@, lk2) == desc_of(
                    old(self)@,
                    lk2,
                ),
            (match r {
                Ok(id) => id@.len() == 16 && get_value_spec(final(self)@, list_key@, id@) == Some(
                    val@,
                ) && (!old(self)@.contains_key(item_storage_key(list_ph_of(list_key@), id@))
                    ==> (list_view(final(self)@, list_key@) == list_view(
                    old(self)@,
                    list_key@,
                ).push(((id@, val@))) && final(self)@ == crate::steps::insert_step(
                    old(self)@,
                    list_key@,
                    id@,
                    val@,
                    crate::steps::insert_desc_step(desc_of(old(self)@, list_key@)),
                    (match desc_of(old(self)@, list_key@) {
                        Some(d) => d.tail_idx,
                        None => FIRST_LIST_IDX,
                    }),
                ) && desc_of(final(self)@, list_key@) == Some(
                    crate::steps::insert_desc_step(desc_of(old(self)@, list_key@)),
                ))) && (old(self)@.contains_key(item_storage_key(list_ph_of(list_key@), id@))
                    ==> desc_of(final(self)@, list_key@) == desc_of(old(self)@, list_key@)),
                Err(_) => final(self)@ == old(self)@ && (ph_conflict(old(self)@, list_key@) || (
                match desc_of(old(self)@, list_key@) {
                    Some(d) => d.tail_idx == u64::MAX,
                    None => false,
                })),
            }),
    {
        let id = fresh_uuid_bytes();
        match self.set_plain(list_key, clone_bytes(&id), val) {
            Ok(_) => Ok(id),
            Err(e) => Err(e),
        }
    }

    /// Borrowed version of [`Self::owned_push_to_list`].
    pub fn push_to_list(&mut self, list_key: &[u8], val: &[u8]) -> (r: Result<Vec<u8>, CandyError>)
        requires
            old(self).inv(),
        ensures
            final(self).inv(),
            forall|lk2: Seq<u8>|
                list_ph_of(lk2) != list_ph_of(list_key@) ==> #[trigger] list_view(
                    final(self)@,
                    lk2,
                ) == list_view(old(self)@, lk2),
            forall|lk2: Seq<u8>, ik2: Seq<u8>|
                list_ph_of(lk2) != list_ph_of(list_key@) ==> #[trigger] get_value_spec(
                    final(self)@,
                    lk2,
                    ik2,
                ) == get_value_spec(old(self)@, lk2, ik2),
            ph_conflict(final(self)@, list_key@) == ph_conflict(old(self)@, list_key@),
            forall|lk2: Seq<u8>|
                lk2 != list_key@ ==> #[trigger] desc_of(final(self)@, lk2) == desc_of(
                    old(self)@,
                    lk2,
                ),
            (match r {
                Ok(id) => id@.len() == 16 && get_value_spec(final(self)@, list_key@, id@) == Some(
                    val@,
                ) && (!old(self)@.contains_key(item_storage_key(list_ph_of(list_key@), id@))
                    ==> (list_view(final(self)@, list_key@) == list_view(
                    old(self)@,
                    list_key@,
                ).push(((id@, val@))) && final(self)@ == crate::steps::insert_step(
                    old(self)@,
                    list_key@,
                    id@,
                    val@,
                    crate::steps::insert_desc_step(desc_of(old(self)@, list_key@)),
                    (match desc_of(old(self)@, list_key@) {
                        Some(d) => d.tail_idx,
                        None => FIRST_LIST_IDX,
                    }),
                ) && desc_of(final(self)@, list_key@) == Some(
                    crate::steps::insert_desc_step(desc_of(old(self)@, list_key@)),
                ))) && (old(self)@.contains_key(item_storage_key(list_ph_of(list_key@), id@))
                    ==> desc_of(final(self)@, list_key@) == desc_of(old(self)@, list_key@)),
                Err(_) => final(self)@ == old(self)@ && (ph_conflict(old(self)@, list_key@) || (
                match desc_of(old(self)@, list_key@) {
                    Some(d) => d.tail_idx == u64::MAX,
                    None => false,
                })),
            }),
    {
        self.owned_push_to_list(slice_to_vec_u8(list_key), slice_to_vec_u8(val))
    }

    /// Reads the raw row under `k`, whatever namespace it belongs to.
    pub fn get_raw(&self, k: &[u8]) -> (r: Option<Vec<u8>>)
        requires
            self.inv(),
        ensures
            (match r {
                Some(v) => self@.contains_key(k@) && v@ == self@[k@],
                None => !self@.contains_key(k@),
            }),
    {
        self.kv.get_raw(k)
    }

    /// Writes a raw row in the typed wrappers' namespace.  Such rows never
    /// collide with the engine's own rows, so every list keeps its reading.
    pub fn set_raw(&mut self, k: &[u8], v: &[u8]) -> (r: SetStatus)
        requires
            old(self).inv(),
            k@.len() >= 1,
            k@.last() == crate::TYPED_NAMESPACE,
        ensures
            final(self).inv(),
            final(self)@ == old(self)@.insert(k@, v@),
            forall|lk2: Seq<u8>| #[trigger] list_view(final(self)@, lk2) == list_view(
                old(self)@,
                lk2,
            ),
            forall|lk2: Seq<u8>, ik2: Seq<u8>| #[trigger] get_value_spec(final(self)@, lk2, ik2)
                == get_value_spec(old(self)@, lk2, ik2),
            forall|lk2: Seq<u8>| #[trigger] desc_of(final(self)@, lk2) == desc_of(
                old(self)@,
                lk2,
            ),
            forall|lk2: Seq<u8>| #[trigger] ph_conflict(final(self)@, lk2) == ph_conflict(
                old(self)@,
                lk2,
            ),
            (match r {
                SetStatus::CreatedNew => !old(self)@.contains_key(k@),
                SetStatus::PrevValue(pv) => old(self)@.contains_key(k@) && pv@ == old(self)@[k@],
            }),
    {
        proof {
            crate::steps::lemma_wf_inert_row(self@, k@, v@);
        }
        self.kv.set_raw(k, v)
    }

    /// Removes a raw row in the typed wrappers' namespace.
    pub fn remove_raw(&mut self, k: &[u8]) -> (r: Option<Vec<u8>>)
        requires
            old(self).inv(),
            k@.len() >= 1,
            k@.last() == crate::TYPED_NAMESPACE,
        ensures
            final(self).inv(),
            final(self)@ == old(self)@.remove(k@),
            forall|lk2: Seq<u8>| #[trigger] list_view(final(self)@, lk2) == list_view(
                old(self)@,
                lk2,
            ),
            forall|lk2: Seq<u8>, ik2: Seq<u8>| #[trigger] get_value_spec(final(self)@, lk2, ik2)
                == get_value_spec(old(self)@, lk2, ik2),
            forall|lk2: Seq<u8>| #[trigger] desc_of(final(self)@, lk2) == desc_of(
                old(self)@,
                lk2,
            ),
            forall|lk2: Seq<u8>| #[trigger] ph_conflict(final(self)@, lk2) == ph_conflict(
                old(self)@,
                lk2,
            ),
            (match r {
                Some(v) => old(self)@.contains_key(k@) && v@ == old(self)@[k@],
                None => !old(self)@.contains_key(k@),
            }),
    {
        proof {
            crate::steps::lemma_wf_inert_row(self@, k@, self@[k@]);
        }
        self.kv.remove_raw(k)
    }

    /// Reads the raw row under `k`, or writes `default_val` there when the
    /// key is absent; in the typed wrappers' namespace.
    pub fn get_or_create_raw(&mut self, k: &[u8], default_val: &[u8]) -> (r: GetOrCreateStatus)
        requires
            old(self).inv(),
            k@.len() >= 1,
            k@.last() == crate::TYPED_NAMESPACE,
        ensures
            final(self).inv(),
            forall|lk2: Seq<u8>| #[trigger] list_view(final(self)@, lk2) == list_view(
                old(self)@,
                lk2,
            ),
            forall|lk2: Seq<u8>| #[trigger] desc_of(final(self)@, lk2) == desc_of(
                old(self)@,
                lk2,
            ),
            forall|lk2: Seq<u8>| #[trigger] ph_conflict(final(self)@, lk2) == ph_conflict(
                old(self)@,
                lk2,
            ),
            (match r {
                GetOrCreateStatus::ExistingValue(v) => old(self)@.contains_key(k@) && v@ == old(
                    self,
                )@[k@] && final(self)@ == old(self)@,
                GetOrCreateStatus::CreatedNew(v) => !old(self)@.contains_key(k@) && v@
                    == default_val@ && final(self)@ == old(self)@.insert(k@, default_val@),
            }),
    {
        proof {
            crate::steps::lemma_wf_inert_row(self@, k@, default_val@);
        }
        self.kv.get_or_create_raw(k, default_val)
    }

    /// Overwrites the raw row under `k` only if it exists; in the typed
    /// wrappers' namespace.
    pub fn replace_raw(&mut self, k: &[u8], v: &[u8]) -> (r: ReplaceStatus)
        requires
            old(self).inv(),
            k@.len() >= 1,
            k@.last() == crate::TYPED_NAMESPACE,
        ensures
            final(self).inv(),
            forall|lk2: Seq<u8>| #[trigger] list_view(final(self)@, lk2) == list_view(
                old(self)@,
                lk2,
            ),
            forall|lk2: Seq<u8>| #[trigger] desc_of(final(self)@, lk2) == desc_of(
                old(self)@,
                lk2,
            ),
            forall|lk2: Seq<u8>| #[trigger] ph_conflict(final(self)@, lk2) == ph_conflict(
                old(self)@,
                lk2,
            ),
            (match r {
                ReplaceStatus::DoesNotExist => !old(self)@.contains_key(k@) && final(self)@ == old(
                    self,
                )@,
                ReplaceStatus::PrevValue(pv) => old(self)@.contains_key(k@) && pv@ == old(
                    self,
                )@[k@] && final(self)@ == old(self)@.insert(k@, v@),
                ReplaceStatus::WrongValue(_) => false,
            }),
    {
        proof {
            crate::steps::lemma_wf_inert_row(self@, k@, v@);
        }
        self.kv.replace_raw(k, v)
    }

    /// The list's descriptor record, if the list exists: its span
    /// bounds and live count.
    pub fn list_record(&self, list_key: &[u8]) -> (r: Option<List>)
        requires
            self.inv(),
        ensures
            r == desc_of(self@, list_key@),
            (match r {
                Some(d) => d.head_idx <= d.tail_idx && d.num_items <= d.spec_span_len(),
                None => true,
            }),
    {
        let dk = make_desc_key(list_key);
        match self.kv.get_raw(dk.as_slice()) {
            Some(b) => {
                proof {
                    assert(is_desc_row(dk@)) by {
                        assert(dk@.last() == LIST_NAMESPACE);
                    }
                    assert(crate::model::desc_row_wf(self@, dk@));
                    let d = list_from_bytes(self@[dk@]);
                    crate::model::lemma_live_seq_props(
                        self@,
                        spec_hash(dk@),
                        d.head_idx,
                        d.tail_idx,
                    );
                }
                Some(decode_list(b.as_slice()))
            },
            None => None,
        }
    }
}

} // verus!

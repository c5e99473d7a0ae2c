//! The mathematical model of a store: how the raw row map decomposes into
//! descriptor, chain and item rows, what a list's contents are, and the
//! well-formedness invariant every operation preserves.
use crate::hashing::{ph_from_bytes, ph_to_bytes, spec_hash, PartedHash};
use crate::layout::{
    chain_key_bytes, desc_key_bytes, is_item_row_of, item_storage_key, link_of, list_from_bytes,
    list_ph_of, list_to_bytes, strip_item_suffix, strip_link, List,
};
use crate::{CHAIN_NAMESPACE, ITEM_NAMESPACE, LIST_NAMESPACE};
use vstd::prelude::*;

verus! {

/// The chain index given to the first item of a fresh list.  Starting at
/// mid-range leaves room to compact toward higher indices without
/// wraparound.
pub const FIRST_LIST_IDX: u64 = 0x8000_0000_0000_0000;

/// The raw rows of a store.
pub type RawRows = Map<Seq<u8>, Seq<u8>>;

pub open spec fn is_desc_row(k: Seq<u8>) -> bool {
    k.len() >= 1 && k.last() == LIST_NAMESPACE
}

pub open spec fn is_chain_row(k: Seq<u8>) -> bool {
    k.len() >= 1 && k.last() == CHAIN_NAMESPACE
}

pub open spec fn is_item_row(k: Seq<u8>) -> bool {
    k.len() >= 1 && k.last() == ITEM_NAMESPACE
}

/// The descriptor record of list `lk`, if its row is present.
pub open spec fn desc_of(m: RawRows, lk: Seq<u8>) -> Option<List> {
    let dk = desc_key_bytes(lk);
    if m.contains_key(dk) && m[dk].len() == 24 {
        Some(list_from_bytes(m[dk]))
    } else {
        None
    }
}

/// Whether a chain row exists at index `idx` of the list fingerprinted
/// `lph`.
pub open spec fn has_chain(m: RawRows, lph: PartedHash, idx: u64) -> bool {
    m.contains_key(chain_key_bytes(lph, idx))
}

/// The indices in `[lo, hi)` that hold a chain row, in increasing order.
pub open spec fn live_seq(m: RawRows, lph: PartedHash, lo: u64, hi: u64) -> Seq<u64>
    decreases hi - lo,
{
    if lo >= hi {
        Seq::empty()
    } else if has_chain(m, lph, lo) {
        seq![lo] + live_seq(m, lph, (lo + 1) as u64, hi)
    } else {
        live_seq(m, lph, (lo + 1) as u64, hi)
    }
}

/// Whether `k` is the item row of list `lph` at index `idx`.
pub open spec fn item_match(m: RawRows, k: Seq<u8>, lph: PartedHash, idx: u64) -> bool {
    m.contains_key(k) && is_item_row_of(k, lph) && m[k].len() >= 8 && link_of(m[k]) == idx
}

pub open spec fn item_exists(m: RawRows, lph: PartedHash, idx: u64) -> bool {
    exists|k: Seq<u8>| item_match(m, k, lph, idx)
}

pub open spec fn item_unique(m: RawRows, lph: PartedHash, idx: u64) -> bool {
    forall|k1: Seq<u8>, k2: Seq<u8>|
        item_match(m, k1, lph, idx) && item_match(m, k2, lph, idx) ==> k1 == k2
}

/// The storage key of the item row of list `lph` at index `idx`.
pub open spec fn item_key_at(m: RawRows, lph: PartedHash, idx: u64) -> Seq<u8> {
    choose|k: Seq<u8>| item_match(m, k, lph, idx)
}

/// The user-visible pair held at index `idx`.
pub open spec fn entry_at(m: RawRows, lph: PartedHash, idx: u64) -> (Seq<u8>, Seq<u8>) {
    let k = item_key_at(m, lph, idx);
    (strip_item_suffix(k), strip_link(m[k]))
}

pub open spec fn entries_at(m: RawRows, lph: PartedHash, idxs: Seq<u64>) -> Seq<
    (Seq<u8>, Seq<u8>),
> {
    idxs.map_values(|i: u64| entry_at(m, lph, i))
}

/// The contents of list `lk`, head first: one user pair per live index of
/// its span.
pub open spec fn list_view(m: RawRows, lk: Seq<u8>) -> Seq<(Seq<u8>, Seq<u8>)> {
    match desc_of(m, lk) {
        Option::None => Seq::empty(),
        Option::Some(d) => entries_at(
            m,
            list_ph_of(lk),
            live_seq(m, list_ph_of(lk), d.head_idx, d.tail_idx),
        ),
    }
}

/// What a point lookup of `(lk, ik)` reads: the item row's value with its
/// index suffix stripped.
pub open spec fn get_value_spec(m: RawRows, lk: Seq<u8>, ik: Seq<u8>) -> Option<Seq<u8>> {
    let isk = item_storage_key(list_ph_of(lk), ik);
    if m.contains_key(isk) && m[isk].len() >= 8 {
        Some(strip_link(m[isk]))
    } else {
        None
    }
}

/// Whether some other list's descriptor row shares the fingerprint of
/// `lk`.  Fingerprints stand in for list keys inside chain rows, so two
/// lists whose keys collide cannot be told apart; the engine refuses to
/// grow a list in that state rather than silently merge the two.
pub open spec fn ph_conflict(m: RawRows, lk: Seq<u8>) -> bool {
    exists|k: Seq<u8>|
        #[trigger] m.contains_key(k) && is_desc_row(k) && spec_hash(k) == list_ph_of(lk) && k
            != desc_key_bytes(lk)
}

/// A descriptor row parses, covers a non-empty span, and counts exactly
/// its live chain rows.
pub open spec fn desc_row_wf(m: RawRows, k: Seq<u8>) -> bool {
    &&& m[k].len() == 24
    &&& list_from_bytes(m[k]).head_idx < list_from_bytes(m[k]).tail_idx
    &&& list_from_bytes(m[k]).num_items == live_seq(
        m,
        spec_hash(k),
        list_from_bytes(m[k]).head_idx,
        list_from_bytes(m[k]).tail_idx,
    ).len()
}

/// A chain row at `(lph, idx)` denotes exactly one item row, and carries
/// that row's key fingerprint as its value.
pub open spec fn chain_resolves(m: RawRows, lph: PartedHash, idx: u64) -> bool {
    &&& item_exists(m, lph, idx)
    &&& item_unique(m, lph, idx)
    &&& m[chain_key_bytes(lph, idx)] == ph_to_bytes(spec_hash(item_key_at(m, lph, idx)))
}

/// Some present descriptor row fingerprints to `lph` and covers `idx`.
pub open spec fn chain_in_span(m: RawRows, lph: PartedHash, idx: u64) -> bool {
    exists|dk: Seq<u8>|
        #[trigger] m.contains_key(dk) && is_desc_row(dk) && spec_hash(dk) == lph && m[dk].len()
            == 24 && list_from_bytes(m[dk]).head_idx <= idx < list_from_bytes(m[dk]).tail_idx
}

/// A chain row belongs to a present descriptor's span and resolves.
pub open spec fn chain_row_wf(m: RawRows, k: Seq<u8>) -> bool {
    &&& k.len() == 17
    &&& {
        let lph = ph_from_bytes(k.subrange(0, 8));
        let idx = vstd::bytes::spec_u64_from_le_bytes(k.subrange(8, 16));
        &&& k == chain_key_bytes(lph, idx)
        &&& chain_resolves(m, lph, idx)
        &&& chain_in_span(m, lph, idx)
    }
}

/// An item row carries at least its 8-byte index suffix and has a chain
/// row back at its index.
pub open spec fn item_row_wf(m: RawRows, k: Seq<u8>) -> bool {
    &&& k.len() >= 9
    &&& m[k].len() >= 8
    &&& {
        let lph = ph_from_bytes(k.subrange(k.len() - 9, k.len() - 1));
        &&& is_item_row_of(k, lph)
        &&& has_chain(m, lph, link_of(m[k]))
    }
}

/// The store invariant: every engine row is well formed, and no two
/// present descriptor rows share a fingerprint.
pub open spec fn store_wf(m: RawRows) -> bool {
    &&& forall|k: Seq<u8>| #[trigger] m.contains_key(k) && is_desc_row(k) ==> desc_row_wf(m, k)
    &&& forall|k1: Seq<u8>, k2: Seq<u8>|
        m.contains_key(k1) && m.contains_key(k2) && is_desc_row(k1) && is_desc_row(k2) && spec_hash(
            k1,
        ) == spec_hash(k2) ==> k1 == k2
    &&& forall|k: Seq<u8>| #[trigger] m.contains_key(k) && is_chain_row(k) ==> chain_row_wf(m, k)
    &&& forall|k: Seq<u8>| #[trigger] m.contains_key(k) && is_item_row(k) ==> item_row_wf(m, k)
}

// ---------------------------------------------------------------------
// facts about `live_seq`
// ---------------------------------------------------------------------
/// Every element of the live sequence lies in `[lo, hi)`, holds a chain
/// row, and the sequence is strictly increasing; conversely every chain
/// index in range appears in it.
pub proof fn lemma_live_seq_props(m: RawRows, lph: PartedHash, lo: u64, hi: u64)
    ensures
        live_seq(m, lph, lo, hi).len() <= hi - lo || lo > hi,
        forall|j: int|
            0 <= j < live_seq(m, lph, lo, hi).len() ==> lo <= #[trigger] live_seq(
                m,
                lph,
                lo,
                hi,
            )[j] < hi && has_chain(m, lph, live_seq(m, lph, lo, hi)[j]),
        forall|j1: int, j2: int|
            0 <= j1 < j2 < live_seq(m, lph, lo, hi).len() ==> live_seq(m, lph, lo, hi)[j1]
                < live_seq(m, lph, lo, hi)[j2],
        forall|idx: u64|
            lo <= idx < hi && has_chain(m, lph, idx) ==> live_seq(m, lph, lo, hi).contains(idx),
    decreases hi - lo,
{
    if lo < hi {
        lemma_live_seq_props(m, lph, (lo + 1) as u64, hi);
        let rest = live_seq(m, lph, (lo + 1) as u64, hi);
        let s = live_seq(m, lph, lo, hi);
        if has_chain(m, lph, lo) {
            assert(s == seq![lo] + rest);
            assert forall|idx: u64|
                lo <= idx < hi && has_chain(m, lph, idx) implies s.contains(idx) by {
                if idx == lo {
                    assert(s[0] == lo);
                } else {
                    let j = choose|j: int| 0 <= j < rest.len() && rest[j] == idx;
                    assert(s[j + 1] == idx);
                }
            }
        } else {
            assert forall|idx: u64|
                lo <= idx < hi && has_chain(m, lph, idx) implies s.contains(idx) by {
                assert(idx != lo);
                let j = choose|j: int| 0 <= j < rest.len() && rest[j] == idx;
                assert(s[j] == idx);
            }
        }
    }
}

/// If two maps agree on the chain rows of `lph` over `[lo, hi)`, the live
/// sequences agree.
pub proof fn lemma_live_seq_frame(m1: RawRows, m2: RawRows, lph: PartedHash, lo: u64, hi: u64)
    requires
        forall|idx: u64| lo <= idx < hi ==> has_chain(m1, lph, idx) == has_chain(m2, lph, idx),
    ensures
        live_seq(m1, lph, lo, hi) == live_seq(m2, lph, lo, hi),
    decreases hi - lo,
{
    if lo < hi {
        lemma_live_seq_frame(m1, m2, lph, (lo + 1) as u64, hi);
    }
}

/// The live sequence of a split range is the concatenation of the parts.
pub proof fn lemma_live_seq_split(m: RawRows, lph: PartedHash, lo: u64, mid: u64, hi: u64)
    requires
        lo <= mid <= hi,
    ensures
        live_seq(m, lph, lo, hi) == live_seq(m, lph, lo, mid) + live_seq(m, lph, mid, hi),
    decreases mid - lo,
{
    if lo < mid {
        lemma_live_seq_split(m, lph, (lo + 1) as u64, mid, hi);
        if has_chain(m, lph, lo) {
            assert(live_seq(m, lph, lo, hi) =~= live_seq(m, lph, lo, mid) + live_seq(
                m,
                lph,
                mid,
                hi,
            ));
        } else {
            assert(live_seq(m, lph, lo, hi) =~= live_seq(m, lph, lo, mid) + live_seq(
                m,
                lph,
                mid,
                hi,
            ));
        }
    } else {
        assert(live_seq(m, lph, lo, mid) =~= Seq::<u64>::empty());
        assert(live_seq(m, lph, lo, hi) =~= live_seq(m, lph, lo, mid) + live_seq(m, lph, mid, hi));
    }
}

/// A range with no chain rows has an empty live sequence.
pub proof fn lemma_live_seq_empty(m: RawRows, lph: PartedHash, lo: u64, hi: u64)
    requires
        forall|idx: u64| lo <= idx < hi ==> !has_chain(m, lph, idx),
    ensures
        live_seq(m, lph, lo, hi) == Seq::<u64>::empty(),
    decreases hi - lo,
{
    if lo < hi {
        lemma_live_seq_empty(m, lph, (lo + 1) as u64, hi);
    }
}

/// A singleton range holding a chain row.
pub proof fn lemma_live_seq_singleton(m: RawRows, lph: PartedHash, idx: u64)
    requires
        idx < u64::MAX,
        has_chain(m, lph, idx),
    ensures
        live_seq(m, lph, idx, (idx + 1) as u64) == seq![idx],
{
    assert(live_seq(m, lph, (idx + 1) as u64, (idx + 1) as u64) =~= Seq::<u64>::empty());
    assert(live_seq(m, lph, idx, (idx + 1) as u64) =~= seq![idx]);
}

// ---------------------------------------------------------------------
// facts about entries and their frames
// ---------------------------------------------------------------------
/// If two maps agree on the item rows of `lph`, and the item at `idx`
/// exists uniquely in the first, the entry read at `idx` agrees.
pub proof fn lemma_entry_frame(m1: RawRows, m2: RawRows, lph: PartedHash, idx: u64)
    requires
        forall|k: Seq<u8>|
            is_item_row_of(k, lph) ==> (#[trigger] m1.contains_key(k) == m2.contains_key(k) && (
            m1.contains_key(k) ==> m1[k] == m2[k])),
        item_exists(m1, lph, idx),
        item_unique(m1, lph, idx),
    ensures
        item_key_at(m1, lph, idx) == item_key_at(m2, lph, idx),
        item_exists(m2, lph, idx),
        item_unique(m2, lph, idx),
        entry_at(m1, lph, idx) == entry_at(m2, lph, idx),
{
    let k1 = item_key_at(m1, lph, idx);
    assert(item_match(m1, k1, lph, idx));
    assert(item_match(m2, k1, lph, idx));
    assert(item_exists(m2, lph, idx));
    let k2 = item_key_at(m2, lph, idx);
    assert(item_match(m2, k2, lph, idx));
    assert(is_item_row_of(k2, lph));
    assert(m1.contains_key(k2) == m2.contains_key(k2));
    assert(item_match(m1, k2, lph, idx));
    assert(k1 == k2);
    assert forall|ka: Seq<u8>, kb: Seq<u8>|
        item_match(m2, ka, lph, idx) && item_match(m2, kb, lph, idx) implies ka == kb by {
        assert(m1.contains_key(ka) == m2.contains_key(ka));
        assert(m1.contains_key(kb) == m2.contains_key(kb));
        assert(item_match(m1, ka, lph, idx) && item_match(m1, kb, lph, idx));
    }
}

/// Entries distribute over concatenation of index sequences.
pub proof fn lemma_entries_at_concat(m: RawRows, lph: PartedHash, a: Seq<u64>, b: Seq<u64>)
    ensures
        entries_at(m, lph, a + b) == entries_at(m, lph, a) + entries_at(m, lph, b),
{
    assert(entries_at(m, lph, a + b) =~= entries_at(m, lph, a) + entries_at(m, lph, b));
}

/// Extracts, from the store invariant, that a present chain row resolves
/// to a unique item inside the span of the one descriptor of its
/// fingerprint.
pub proof fn lemma_wf_chain(m: RawRows, lph: PartedHash, idx: u64)
    requires
        store_wf(m),
        has_chain(m, lph, idx),
    ensures
        chain_resolves(m, lph, idx),
        item_match(m, item_key_at(m, lph, idx), lph, idx),
{
    let ck = chain_key_bytes(lph, idx);
    crate::layout::lemma_chain_key_parts(lph, idx);
    assert(is_chain_row(ck));
    assert(chain_row_wf(m, ck));
    let lph2 = ph_from_bytes(ck.subrange(0, 8));
    let idx2 = vstd::bytes::spec_u64_from_le_bytes(ck.subrange(8, 16));
    crate::hashing::lemma_ph_bytes_roundtrip(lph);
    vstd::bytes::lemma_auto_spec_u64_to_from_le_bytes();
    assert(lph2 == lph);
    assert(idx2 == idx);
    assert(chain_resolves(m, lph, idx));
    let k = item_key_at(m, lph, idx);
    assert(item_match(m, k, lph, idx));
}

/// Extracts, from the store invariant, the descriptor-side facts of a
/// chain row: its index lies in the span of the unique descriptor row
/// whose key fingerprints to `lph`.
pub proof fn lemma_wf_chain_desc(m: RawRows, lk: Seq<u8>, idx: u64)
    requires
        store_wf(m),
        has_chain(m, list_ph_of(lk), idx),
        m.contains_key(desc_key_bytes(lk)),
    ensures
        m[desc_key_bytes(lk)].len() == 24,
        list_from_bytes(m[desc_key_bytes(lk)]).head_idx <= idx < list_from_bytes(
            m[desc_key_bytes(lk)],
        ).tail_idx,
{
    let lph = list_ph_of(lk);
    let dk = desc_key_bytes(lk);
    let ck = chain_key_bytes(lph, idx);
    crate::layout::lemma_chain_key_parts(lph, idx);
    assert(is_chain_row(ck));
    assert(chain_row_wf(m, ck));
    crate::hashing::lemma_ph_bytes_roundtrip(lph);
    vstd::bytes::lemma_auto_spec_u64_to_from_le_bytes();
    assert(is_desc_row(dk)) by {
        assert(dk.last() == LIST_NAMESPACE);
    }
    assert(desc_row_wf(m, dk));
    assert(chain_in_span(m, lph, idx));
    let dk2 = choose|dk2: Seq<u8>|
        #[trigger] m.contains_key(dk2) && is_desc_row(dk2) && spec_hash(dk2) == lph && m[dk2].len()
            == 24 && list_from_bytes(m[dk2]).head_idx <= idx < list_from_bytes(m[dk2]).tail_idx;
    assert(spec_hash(dk2) == lph);
    assert(spec_hash(dk) == lph);
    assert(dk2 == dk);
}

/// A present descriptor row keeps covering `idx` when a row that is not a
/// descriptor row is inserted or removed.
pub proof fn lemma_chain_in_span_stable(m: RawRows, lph: PartedHash, idx: u64, k: Seq<u8>, v: Seq<
    u8,
>)
    requires
        chain_in_span(m, lph, idx),
        !is_desc_row(k),
    ensures
        chain_in_span(m.insert(k, v), lph, idx),
        chain_in_span(m.remove(k), lph, idx),
{
    let dk = choose|dk: Seq<u8>|
        #[trigger] m.contains_key(dk) && is_desc_row(dk) && spec_hash(dk) == lph && m[dk].len()
            == 24 && list_from_bytes(m[dk]).head_idx <= idx < list_from_bytes(m[dk]).tail_idx;
    assert(dk != k);
    assert(m.insert(k, v).contains_key(dk) && m.insert(k, v)[dk] == m[dk]);
    assert(m.remove(k).contains_key(dk) && m.remove(k)[dk] == m[dk]);
}

/// If two maps agree on the descriptor row of `lk` and on all chain and
/// item rows of its fingerprint, the list reads the same.
pub proof fn lemma_view_frame(m1: RawRows, m2: RawRows, lk: Seq<u8>)
    requires
        store_wf(m1),
        m1.contains_key(desc_key_bytes(lk)) == m2.contains_key(desc_key_bytes(lk)),
        m1.contains_key(desc_key_bytes(lk)) ==> m1[desc_key_bytes(lk)] == m2[desc_key_bytes(lk)],
        forall|idx: u64|
            has_chain(m1, list_ph_of(lk), idx) == has_chain(m2, list_ph_of(lk), idx),
        forall|k: Seq<u8>|
            is_item_row_of(k, list_ph_of(lk)) ==> (#[trigger] m1.contains_key(k)
                == m2.contains_key(k) && (m1.contains_key(k) ==> m1[k] == m2[k])),
    ensures
        list_view(m1, lk) == list_view(m2, lk),
{
    let lph = list_ph_of(lk);
    let dk = desc_key_bytes(lk);
    assert(desc_of(m1, lk) == desc_of(m2, lk));
    match desc_of(m1, lk) {
        Option::None => {},
        Option::Some(d) => {
            lemma_live_seq_frame(m1, m2, lph, d.head_idx, d.tail_idx);
            let idxs = live_seq(m1, lph, d.head_idx, d.tail_idx);
            lemma_live_seq_props(m1, lph, d.head_idx, d.tail_idx);
            assert forall|j: int| 0 <= j < idxs.len() implies entry_at(m1, lph, idxs[j])
                == entry_at(m2, lph, idxs[j]) by {
                lemma_wf_chain(m1, lph, idxs[j]);
                lemma_entry_frame(m1, m2, lph, idxs[j]);
            }
            assert(entries_at(m1, lph, idxs) =~= entries_at(m2, lph, idxs));
        },
    }
}

} // verus!

//! Transition lemmas: each list operation's raw-row rewrite preserves the
//! store invariant and has the stated effect on the list it touches while
//! leaving every other fingerprint's list unchanged.
use crate::hashing::{spec_hash, PartedHash};
use crate::layout::{
    chain_key_bytes, desc_key_bytes, is_item_row_of, item_storage_key, link_of, list_from_bytes,
    list_ph_of, list_to_bytes, strip_item_suffix, strip_link, List,
};
use crate::model::{
    chain_in_span, chain_resolves, chain_row_wf, desc_of, desc_row_wf, entries_at, entry_at,
    get_value_spec, has_chain, is_chain_row, is_desc_row, is_item_row, item_exists, item_key_at,
    item_match, item_row_wf, item_unique, list_view, live_seq, ph_conflict, store_wf, RawRows,
};
use crate::{CHAIN_NAMESPACE, ITEM_NAMESPACE, LIST_NAMESPACE};
use vstd::prelude::*;

verus! {

/// Two keys with different trailing tags differ.
pub proof fn lemma_tag_distinct(k1: Seq<u8>, k2: Seq<u8>)
    requires
        k1.len() >= 1,
        k2.len() >= 1,
        k1.last() != k2.last(),
    ensures
        k1 != k2,
{
}

/// When an operation leaves every descriptor row but its own list's
/// alone, every other list's descriptor reads unchanged, and whether its
/// own fingerprint is conflicted does not move.
pub proof fn lemma_desc_frame(m1: RawRows, m2: RawRows, lk: Seq<u8>)
    requires
        forall|k: Seq<u8>|
            is_desc_row(k) && k != desc_key_bytes(lk) ==> (#[trigger] m2.contains_key(k)
                == m1.contains_key(k) && (m1.contains_key(k) ==> m2[k] == m1[k])),
    ensures
        forall|lk2: Seq<u8>|
            lk2 != lk ==> #[trigger] desc_of(m2, lk2) == desc_of(m1, lk2),
        ph_conflict(m2, lk) == ph_conflict(m1, lk),
{
    assert forall|lk2: Seq<u8>| lk2 != lk implies #[trigger] desc_of(m2, lk2) == desc_of(
        m1,
        lk2,
    ) by {
        let dk2 = desc_key_bytes(lk2);
        assert(is_desc_row(dk2)) by {
            assert(dk2.last() == LIST_NAMESPACE);
        }
        if dk2 == desc_key_bytes(lk) {
            crate::layout::lemma_desc_key_injective(lk2, lk);
        }
        assert(m2.contains_key(dk2) == m1.contains_key(dk2));
    }
    if ph_conflict(m1, lk) {
        let kbad = choose|kbad: Seq<u8>|
            #[trigger] m1.contains_key(kbad) && is_desc_row(kbad) && spec_hash(kbad) == list_ph_of(
                lk,
            ) && kbad != desc_key_bytes(lk);
        assert(m2.contains_key(kbad));
        assert(ph_conflict(m2, lk));
    }
    if ph_conflict(m2, lk) {
        let kbad = choose|kbad: Seq<u8>|
            #[trigger] m2.contains_key(kbad) && is_desc_row(kbad) && spec_hash(kbad) == list_ph_of(
                lk,
            ) && kbad != desc_key_bytes(lk);
        assert(m1.contains_key(kbad));
        assert(ph_conflict(m1, lk));
    }
}

/// Inserting or removing a row that is not a chain row leaves every
/// chain-row lookup unchanged.
pub proof fn lemma_chains_stable(m: RawRows, k: Seq<u8>, v: Seq<u8>)
    requires
        !is_chain_row(k),
    ensures
        forall|lph: PartedHash, idx: u64|
            has_chain(m.insert(k, v), lph, idx) == has_chain(m, lph, idx),
        forall|lph: PartedHash, idx: u64| has_chain(m.remove(k), lph, idx) == has_chain(m, lph, idx),
{
    assert forall|lph: PartedHash, idx: u64|
        has_chain(m.insert(k, v), lph, idx) == has_chain(m, lph, idx) && has_chain(
            m.remove(k),
            lph,
            idx,
        ) == has_chain(m, lph, idx) by {
        crate::layout::lemma_chain_key_parts(lph, idx);
        assert(chain_key_bytes(lph, idx).last() == CHAIN_NAMESPACE);
        assert(chain_key_bytes(lph, idx) != k);
    }
}

/// If two maps agree on which item rows of `lph` are present and on their
/// lengths and link indices, item resolution agrees.
pub proof fn lemma_item_resolution_frame(m1: RawRows, m2: RawRows, lph: PartedHash)
    requires
        forall|k: Seq<u8>|
            is_item_row_of(k, lph) ==> (#[trigger] m1.contains_key(k) == m2.contains_key(k) && (
            m1.contains_key(k) ==> ((m1[k].len() >= 8) == (m2[k].len() >= 8)) && (m1[k].len() >= 8
                ==> link_of(m1[k]) == link_of(m2[k])))),
    ensures
        forall|k: Seq<u8>, idx: u64|
            #[trigger] item_match(m1, k, lph, idx) == item_match(m2, k, lph, idx),
        forall|idx: u64| #[trigger] item_exists(m1, lph, idx) == item_exists(m2, lph, idx),
        forall|idx: u64| #[trigger] item_unique(m1, lph, idx) == item_unique(m2, lph, idx),
        forall|idx: u64|
            item_exists(m1, lph, idx) && item_unique(m1, lph, idx) ==> #[trigger] item_key_at(
                m1,
                lph,
                idx,
            ) == item_key_at(m2, lph, idx),
{
    assert forall|k: Seq<u8>, idx: u64|
        #[trigger] item_match(m1, k, lph, idx) == item_match(m2, k, lph, idx) by {
        if is_item_row_of(k, lph) {
            assert(m1.contains_key(k) == m2.contains_key(k));
        }
    }
    assert forall|idx: u64| #[trigger] item_exists(m1, lph, idx) == item_exists(m2, lph, idx) by {
        if item_exists(m1, lph, idx) {
            let k = choose|k: Seq<u8>| item_match(m1, k, lph, idx);
            assert(item_match(m2, k, lph, idx));
        }
        if item_exists(m2, lph, idx) {
            let k = choose|k: Seq<u8>| item_match(m2, k, lph, idx);
            assert(item_match(m1, k, lph, idx));
        }
    }
    assert forall|idx: u64| #[trigger] item_unique(m1, lph, idx) == item_unique(m2, lph, idx) by {
        if item_unique(m1, lph, idx) {
            assert forall|ka: Seq<u8>, kb: Seq<u8>|
                item_match(m2, ka, lph, idx) && item_match(m2, kb, lph, idx) implies ka == kb by {
                assert(item_match(m1, ka, lph, idx) && item_match(m1, kb, lph, idx));
            }
        }
        if item_unique(m2, lph, idx) {
            assert forall|ka: Seq<u8>, kb: Seq<u8>|
                item_match(m1, ka, lph, idx) && item_match(m1, kb, lph, idx) implies ka == kb by {
                assert(item_match(m2, ka, lph, idx) && item_match(m2, kb, lph, idx));
            }
        }
    }
    assert forall|idx: u64|
        item_exists(m1, lph, idx) && item_unique(m1, lph, idx) implies #[trigger] item_key_at(
        m1,
        lph,
        idx,
    ) == item_key_at(m2, lph, idx) by {
        let k1 = item_key_at(m1, lph, idx);
        assert(item_match(m1, k1, lph, idx));
        assert(item_match(m2, k1, lph, idx));
        let k2 = item_key_at(m2, lph, idx);
        assert(item_match(m2, k2, lph, idx));
        assert(item_match(m1, k2, lph, idx));
    }
}

/// Everything outside fingerprint `lph` keeps its well-formedness and its
/// reading when an operation only touches rows of `lph`.
#[verifier::rlimit(100)]
#[verifier::spinoff_prover]
pub proof fn lemma_wf_frame_other(m: RawRows, m1: RawRows, lph: PartedHash)
    requires
        store_wf(m),
        forall|k: Seq<u8>|
            is_desc_row(k) && spec_hash(k) != lph ==> (#[trigger] m1.contains_key(k)
                == m.contains_key(k) && (m.contains_key(k) ==> m1[k] == m[k])),
        forall|lph2: PartedHash, idx: u64|
            lph2 != lph ==> #[trigger] has_chain(m1, lph2, idx) == has_chain(m, lph2, idx) && (
            has_chain(m, lph2, idx) ==> m1[chain_key_bytes(lph2, idx)] == m[chain_key_bytes(
                lph2,
                idx,
            )]),
        forall|k: Seq<u8>|
            is_item_row(k) && !is_item_row_of(k, lph) ==> (#[trigger] m1.contains_key(k)
                == m.contains_key(k) && (m.contains_key(k) ==> m1[k] == m[k])),
    ensures
        forall|k: Seq<u8>|
            #[trigger] m1.contains_key(k) && is_desc_row(k) && spec_hash(k) != lph ==> desc_row_wf(
                m1,
                k,
            ),
        forall|k: Seq<u8>|
            #[trigger] m1.contains_key(k) && is_chain_row(k) && chain_row_wf(m, k)
                && crate::hashing::ph_from_bytes(k.subrange(0, 8)) != lph ==> chain_row_wf(m1, k),
        forall|k: Seq<u8>|
            #[trigger] m1.contains_key(k) && is_item_row(k) && !is_item_row_of(k, lph)
                && item_row_wf(m, k) ==> item_row_wf(m1, k),
        forall|lk2: Seq<u8>|
            list_ph_of(lk2) != lph ==> #[trigger] list_view(m1, lk2) == list_view(m, lk2),
        forall|lk2: Seq<u8>, ik2: Seq<u8>|
            list_ph_of(lk2) != lph ==> #[trigger] get_value_spec(m1, lk2, ik2) == get_value_spec(
                m,
                lk2,
                ik2,
            ),
{
    assert forall|k: Seq<u8>|
        #[trigger] m1.contains_key(k) && is_desc_row(k) && spec_hash(k) != lph implies desc_row_wf(
        m1,
        k,
    ) by {
        assert(m.contains_key(k) && m1[k] == m[k]);
        assert(desc_row_wf(m, k));
        let d = list_from_bytes(m[k]);
        crate::model::lemma_live_seq_frame(m1, m, spec_hash(k), d.head_idx, d.tail_idx);
    }
    assert forall|k: Seq<u8>|
        #[trigger] m1.contains_key(k) && is_chain_row(k) && chain_row_wf(m, k)
            && crate::hashing::ph_from_bytes(k.subrange(0, 8)) != lph implies chain_row_wf(
        m1,
        k,
    ) by {
        let lph2 = crate::hashing::ph_from_bytes(k.subrange(0, 8));
        let idx2 = vstd::bytes::spec_u64_from_le_bytes(k.subrange(8, 16));
        assert(k == chain_key_bytes(lph2, idx2));
        assert(has_chain(m1, lph2, idx2));
        assert(has_chain(m1, lph2, idx2) == has_chain(m, lph2, idx2) && (has_chain(m, lph2, idx2)
            ==> m1[chain_key_bytes(lph2, idx2)] == m[chain_key_bytes(lph2, idx2)]));
        assert(chain_resolves(m, lph2, idx2));
        assert forall|kx: Seq<u8>|
            is_item_row_of(kx, lph2) implies (#[trigger] m.contains_key(kx) == m1.contains_key(kx)
            && (m.contains_key(kx) ==> m[kx] == m1[kx])) by {
            crate::layout::lemma_item_row_of_parts(kx, lph2);
            if is_item_row_of(kx, lph) {
                crate::layout::lemma_item_row_ph_unique(kx, lph2, lph);
            }
        }
        crate::model::lemma_entry_frame(m, m1, lph2, idx2);
        assert(has_chain(m, lph2, idx2));
        assert(m1[k] == m[k]);
        let dkw = choose|dk: Seq<u8>|
            #[trigger] m.contains_key(dk) && is_desc_row(dk) && spec_hash(dk) == lph2
                && m[dk].len() == 24 && list_from_bytes(m[dk]).head_idx <= idx2 < list_from_bytes(
                m[dk],
            ).tail_idx;
        assert(m1.contains_key(dkw) && m1[dkw] == m[dkw]);
        assert(crate::model::chain_in_span(m1, lph2, idx2));
    }
    assert forall|k: Seq<u8>|
        #[trigger] m1.contains_key(k) && is_item_row(k) && !is_item_row_of(k, lph) && item_row_wf(
            m,
            k,
        ) implies item_row_wf(m1, k) by {
        let lphk = crate::hashing::ph_from_bytes(k.subrange(k.len() - 9, k.len() - 1));
        assert(m1[k] == m[k]);
        assert(lphk != lph);
        assert(has_chain(m1, lphk, link_of(m1[k])) == has_chain(m, lphk, link_of(m[k])));
    }
    assert forall|lk2: Seq<u8>| list_ph_of(lk2) != lph implies #[trigger] list_view(m1, lk2)
        == list_view(m, lk2) by {
        let lph2 = list_ph_of(lk2);
        let dk2 = desc_key_bytes(lk2);
        assert(is_desc_row(dk2)) by {
            assert(dk2.last() == LIST_NAMESPACE);
        }
        assert(spec_hash(dk2) == lph2);
        assert(m1.contains_key(dk2) == m.contains_key(dk2) && (m.contains_key(dk2) ==> m1[dk2]
            == m[dk2]));
        assert forall|kx: Seq<u8>|
            is_item_row_of(kx, lph2) implies (#[trigger] m.contains_key(kx) == m1.contains_key(kx)
            && (m.contains_key(kx) ==> m[kx] == m1[kx])) by {
            crate::layout::lemma_item_row_of_parts(kx, lph2);
            if is_item_row_of(kx, lph) {
                crate::layout::lemma_item_row_ph_unique(kx, lph2, lph);
            }
        }
        crate::model::lemma_view_frame(m, m1, lk2);
    }
    assert forall|lk2: Seq<u8>, ik2: Seq<u8>| list_ph_of(lk2) != lph implies #[trigger] get_value_spec(
        m1,
        lk2,
        ik2,
    ) == get_value_spec(m, lk2, ik2) by {
        let lph2 = list_ph_of(lk2);
        let isk2 = item_storage_key(lph2, ik2);
        crate::layout::lemma_item_key_parts(lph2, ik2);
        assert(is_item_row(isk2) && is_item_row_of(isk2, lph2));
        if is_item_row_of(isk2, lph) {
            crate::layout::lemma_item_row_ph_unique(isk2, lph2, lph);
        }
        assert(m1.contains_key(isk2) == m.contains_key(isk2));
    }
}

/// Without a conflicting descriptor, every chain row of the fingerprint of
/// `lk` lies inside `lk`'s own span; with no descriptor there is none at
/// all.
pub proof fn lemma_no_chain_outside_span(m: RawRows, lk: Seq<u8>)
    requires
        store_wf(m),
        !ph_conflict(m, lk),
    ensures
        forall|i: u64|
            #[trigger] has_chain(m, list_ph_of(lk), i) ==> m.contains_key(desc_key_bytes(lk))
                && m[desc_key_bytes(lk)].len() == 24 && list_from_bytes(
                m[desc_key_bytes(lk)],
            ).head_idx <= i < list_from_bytes(m[desc_key_bytes(lk)]).tail_idx,
{
    let lph = list_ph_of(lk);
    let dk = desc_key_bytes(lk);
    assert forall|i: u64| #[trigger] has_chain(m, lph, i) implies m.contains_key(dk)
        && m[dk].len() == 24 && list_from_bytes(m[dk]).head_idx <= i < list_from_bytes(
        m[dk],
    ).tail_idx by {
        let ck = chain_key_bytes(lph, i);
        crate::layout::lemma_chain_key_parts(lph, i);
        assert(is_chain_row(ck));
        assert(chain_row_wf(m, ck));
        crate::hashing::lemma_ph_bytes_roundtrip(lph);
        vstd::bytes::lemma_auto_spec_u64_to_from_le_bytes();
        assert(chain_in_span(m, lph, i));
        let dkw = choose|dkw: Seq<u8>|
            #[trigger] m.contains_key(dkw) && is_desc_row(dkw) && spec_hash(dkw) == lph
                && m[dkw].len() == 24 && list_from_bytes(m[dkw]).head_idx <= i < list_from_bytes(
                m[dkw],
            ).tail_idx;
        if dkw != dk {
            assert(m.contains_key(dkw) && is_desc_row(dkw) && spec_hash(dkw) == list_ph_of(lk)
                && dkw != desc_key_bytes(lk));
            assert(ph_conflict(m, lk));
        }
    }
}

/// An index with no chain row has no item row either.
pub proof fn lemma_no_item_without_chain(m: RawRows, lph: PartedHash, idx: u64)
    requires
        store_wf(m),
        !has_chain(m, lph, idx),
    ensures
        forall|k: Seq<u8>| !item_match(m, k, lph, idx),
{
    assert forall|k: Seq<u8>| !item_match(m, k, lph, idx) by {
        if item_match(m, k, lph, idx) {
            crate::layout::lemma_item_row_of_parts(k, lph);
            assert(is_item_row(k));
            assert(item_row_wf(m, k));
            let lphk = crate::hashing::ph_from_bytes(k.subrange(k.len() - 9, k.len() - 1));
            crate::layout::lemma_item_row_ph_unique(k, lphk, lph);
            assert(has_chain(m, lph, link_of(m[k])));
        }
    }
}

/// Item resolution away from one index is unchanged when a single item row
/// carrying that index is added.
pub proof fn lemma_item_resolution_skip(
    m1: RawRows,
    m2: RawRows,
    lph: PartedHash,
    sk: Seq<u8>,
    idx: u64,
)
    requires
        forall|k: Seq<u8>|
            is_item_row_of(k, lph) && k != sk ==> (#[trigger] m1.contains_key(k)
                == m2.contains_key(k) && (m1.contains_key(k) ==> m1[k] == m2[k])),
        m1.contains_key(sk) ==> m1[sk].len() >= 8 && link_of(m1[sk]) == idx,
        m2.contains_key(sk) ==> m2[sk].len() >= 8 && link_of(m2[sk]) == idx,
    ensures
        forall|k: Seq<u8>, i: u64|
            i != idx ==> #[trigger] item_match(m1, k, lph, i) == item_match(m2, k, lph, i),
        forall|i: u64| i != idx ==> #[trigger] item_exists(m1, lph, i) == item_exists(m2, lph, i),
        forall|i: u64| i != idx ==> #[trigger] item_unique(m1, lph, i) == item_unique(m2, lph, i),
        forall|i: u64|
            i != idx && item_exists(m1, lph, i) && item_unique(m1, lph, i)
                ==> #[trigger] item_key_at(m1, lph, i) == item_key_at(m2, lph, i),
{
    assert forall|k: Seq<u8>, i: u64|
        i != idx implies #[trigger] item_match(m1, k, lph, i) == item_match(m2, k, lph, i) by {
        if k != sk && is_item_row_of(k, lph) {
            assert(m1.contains_key(k) == m2.contains_key(k));
        }
    }
    assert forall|i: u64| i != idx implies #[trigger] item_exists(m1, lph, i) == item_exists(
        m2,
        lph,
        i,
    ) by {
        if item_exists(m1, lph, i) {
            let k = choose|k: Seq<u8>| item_match(m1, k, lph, i);
            assert(item_match(m2, k, lph, i));
        }
        if item_exists(m2, lph, i) {
            let k = choose|k: Seq<u8>| item_match(m2, k, lph, i);
            assert(item_match(m1, k, lph, i));
        }
    }
    assert forall|i: u64| i != idx implies #[trigger] item_unique(m1, lph, i) == item_unique(
        m2,
        lph,
        i,
    ) by {
        if item_unique(m1, lph, i) {
            assert forall|ka: Seq<u8>, kb: Seq<u8>|
                item_match(m2, ka, lph, i) && item_match(m2, kb, lph, i) implies ka == kb by {
                assert(item_match(m1, ka, lph, i) && item_match(m1, kb, lph, i));
            }
        }
        if item_unique(m2, lph, i) {
            assert forall|ka: Seq<u8>, kb: Seq<u8>|
                item_match(m1, ka, lph, i) && item_match(m1, kb, lph, i) implies ka == kb by {
                assert(item_match(m2, ka, lph, i) && item_match(m2, kb, lph, i));
            }
        }
    }
    assert forall|i: u64|
        i != idx && item_exists(m1, lph, i) && item_unique(m1, lph, i) implies #[trigger] item_key_at(
        m1,
        lph,
        i,
    ) == item_key_at(m2, lph, i) by {
        let k1 = item_key_at(m1, lph, i);
        assert(item_match(m1, k1, lph, i));
        assert(item_match(m2, k1, lph, i));
        let k2 = item_key_at(m2, lph, i);
        assert(item_match(m2, k2, lph, i));
        assert(item_match(m1, k2, lph, i));
    }
}

/// The rows written by an insert of a fresh item: the rewritten
/// descriptor, the new chain row, and the new item row.
pub open spec fn insert_step(
    m: RawRows,
    lk: Seq<u8>,
    ik: Seq<u8>,
    v: Seq<u8>,
    d1: List,
    idx: u64,
) -> RawRows {
    let dk = desc_key_bytes(lk);
    let lph = list_ph_of(lk);
    let isk = item_storage_key(lph, ik);
    m.insert(dk, list_to_bytes(d1)).insert(
        chain_key_bytes(lph, idx),
        crate::hashing::ph_to_bytes(spec_hash(isk)),
    ).insert(isk, v + vstd::bytes::spec_u64_to_le_bytes(idx))
}

/// When an insert of a fresh item is allowed: the item is absent, no
/// foreign descriptor shares the fingerprint, and the descriptor update
/// appends one index at the tail (or opens a fresh one-slot span).
pub open spec fn insert_pre(m: RawRows, lk: Seq<u8>, ik: Seq<u8>, d1: List, idx: u64) -> bool {
    let dk = desc_key_bytes(lk);
    let isk = item_storage_key(list_ph_of(lk), ik);
    &&& store_wf(m)
    &&& !m.contains_key(isk)
    &&& !ph_conflict(m, lk)
    &&& if m.contains_key(dk) {
        let d0 = list_from_bytes(m[dk]);
        &&& m[dk].len() == 24
        &&& d0.tail_idx < u64::MAX
        &&& idx == d0.tail_idx
        &&& d0.num_items < u64::MAX
        &&& d1 == (List {
            head_idx: d0.head_idx,
            tail_idx: (d0.tail_idx + 1) as u64,
            num_items: (d0.num_items + 1) as u64,
        })
    } else {
        &&& idx == crate::model::FIRST_LIST_IDX
        &&& d1 == (List {
            head_idx: crate::model::FIRST_LIST_IDX,
            tail_idx: (crate::model::FIRST_LIST_IDX + 1) as u64,
            num_items: 1u64,
        })
    }
}

/// Inserting a fresh item at the tail preserves the invariant and appends
/// one pair to the list.
#[verifier::rlimit(100)]
#[verifier::spinoff_prover]
pub proof fn lemma_wf_insert_fresh(m: RawRows, lk: Seq<u8>, ik: Seq<u8>, v: Seq<u8>, d1: List, idx: u64)
    requires
        insert_pre(m, lk, ik, d1, idx),
    ensures
        ({
            let m3 = insert_step(m, lk, ik, v, d1, idx);
            let lph = list_ph_of(lk);
            &&& store_wf(m3)
            &&& desc_of(m3, lk) == Some(d1)
            &&& get_value_spec(m3, lk, ik) == Some(v)
            &&& list_view(m3, lk) == list_view(m, lk).push((ik, v))
            &&& forall|lk2: Seq<u8>|
                list_ph_of(lk2) != lph ==> #[trigger] list_view(m3, lk2) == list_view(m, lk2)
            &&& forall|lk2: Seq<u8>, ik2: Seq<u8>|
                list_ph_of(lk2) != lph ==> #[trigger] get_value_spec(m3, lk2, ik2)
                    == get_value_spec(m, lk2, ik2)
        }),
{
    let dk = desc_key_bytes(lk);
    let lph = list_ph_of(lk);
    let isk = item_storage_key(lph, ik);
    let ck = chain_key_bytes(lph, idx);
    let iph = spec_hash(isk);
    let nv = v + vstd::bytes::spec_u64_to_le_bytes(idx);
    let m3 = insert_step(m, lk, ik, v, d1, idx);
    crate::layout::lemma_item_key_parts(lph, ik);
    crate::layout::lemma_chain_key_parts(lph, idx);
    crate::layout::lemma_list_bytes_roundtrip(d1);
    crate::layout::lemma_value_link_roundtrip(v, idx);
    crate::hashing::lemma_ph_bytes_roundtrip(lph);
    vstd::bytes::lemma_auto_spec_u64_to_from_le_bytes();
    assert(is_desc_row(dk)) by {
        assert(dk.last() == LIST_NAMESPACE);
    }
    assert(dk != ck && dk != isk && ck != isk) by {
        lemma_tag_distinct(dk, ck);
        lemma_tag_distinct(dk, isk);
        lemma_tag_distinct(ck, isk);
    }
    assert(m3.contains_key(dk) && m3[dk] == list_to_bytes(d1));
    assert(m3.contains_key(ck) && m3[ck] == crate::hashing::ph_to_bytes(iph));
    assert(m3.contains_key(isk) && m3[isk] == nv);
    assert(forall|k: Seq<u8>|
        k != dk && k != ck && k != isk ==> #[trigger] m3.contains_key(k) == m.contains_key(k) && (
        m.contains_key(k) ==> m3[k] == m[k]));
    lemma_no_chain_outside_span(m, lk);
    assert(!has_chain(m, lph, idx));
    lemma_no_item_without_chain(m, lph, idx);
    // chain lookups: only (lph, idx) was added
    assert forall|lph2: PartedHash, i: u64|
        !(lph2 == lph && i == idx) implies #[trigger] has_chain(m3, lph2, i) == has_chain(
        m,
        lph2,
        i,
    ) && (has_chain(m, lph2, i) ==> m3[chain_key_bytes(lph2, i)] == m[chain_key_bytes(
        lph2,
        i,
    )]) by {
        crate::layout::lemma_chain_key_parts(lph2, i);
        lemma_tag_distinct(chain_key_bytes(lph2, i), dk);
        lemma_tag_distinct(chain_key_bytes(lph2, i), isk);
        if chain_key_bytes(lph2, i) == ck {
            crate::layout::lemma_chain_key_injective(lph2, i, lph, idx);
        }
    }
    // item rows: only `isk` was added
    assert forall|k: Seq<u8>|
        is_item_row(k) && k != isk implies #[trigger] m3.contains_key(k) == m.contains_key(k) && (
    m.contains_key(k) ==> m3[k] == m[k]) by {
        crate::layout::lemma_item_key_parts(lph, ik);
        lemma_tag_distinct(k, dk);
        lemma_tag_distinct(k, ck);
    }
    // frame for other fingerprints
    assert forall|k: Seq<u8>|
        is_desc_row(k) && spec_hash(k) != lph implies (#[trigger] m3.contains_key(k)
        == m.contains_key(k) && (m.contains_key(k) ==> m3[k] == m[k])) by {
        assert(k != dk);
        lemma_tag_distinct(k, ck);
        lemma_tag_distinct(k, isk);
    }
    assert forall|k: Seq<u8>|
        is_item_row(k) && !is_item_row_of(k, lph) implies (#[trigger] m3.contains_key(k)
        == m.contains_key(k) && (m.contains_key(k) ==> m3[k] == m[k])) by {
        assert(is_item_row_of(isk, lph));
        assert(k != isk);
        lemma_tag_distinct(k, dk);
        lemma_tag_distinct(k, ck);
    }
    lemma_wf_frame_other(m, m3, lph);
    // item resolution away from `idx` is unchanged
    assert forall|k: Seq<u8>|
        is_item_row_of(k, lph) && k != isk implies (#[trigger] m3.contains_key(k)
        == m.contains_key(k) && (m3.contains_key(k) ==> m3[k] == m[k])) by {
        crate::layout::lemma_item_row_of_parts(k, lph);
        lemma_tag_distinct(k, dk);
        lemma_tag_distinct(k, ck);
    }
    lemma_item_resolution_skip(m3, m, lph, isk, idx);
    // the new item resolves uniquely at `idx`
    assert(item_match(m3, isk, lph, idx));
    assert forall|k: Seq<u8>| item_match(m3, k, lph, idx) implies k == isk by {
        if k != isk {
            crate::layout::lemma_item_row_of_parts(k, lph);
            lemma_tag_distinct(k, dk);
            lemma_tag_distinct(k, ck);
            assert(m.contains_key(k) && m[k] == m3[k]);
            assert(item_match(m, k, lph, idx));
        }
    }
    assert(item_exists(m3, lph, idx) && item_unique(m3, lph, idx));
    assert(item_key_at(m3, lph, idx) == isk);
    // descriptor facts of `lk` in m3
    let old_live = if m.contains_key(dk) {
        live_seq(m, lph, list_from_bytes(m[dk]).head_idx, list_from_bytes(m[dk]).tail_idx)
    } else {
        Seq::<u64>::empty()
    };
    assert(live_seq(m3, lph, d1.head_idx, d1.tail_idx) == old_live + seq![idx]) by {
        if m.contains_key(dk) {
            let d0 = list_from_bytes(m[dk]);
            crate::model::lemma_live_seq_split(m3, lph, d0.head_idx, d0.tail_idx, d1.tail_idx);
            crate::model::lemma_live_seq_frame(m3, m, lph, d0.head_idx, d0.tail_idx);
            crate::model::lemma_live_seq_singleton(m3, lph, idx);
            assert(live_seq(m3, lph, idx, d1.tail_idx) == seq![idx]);
        } else {
            crate::model::lemma_live_seq_singleton(m3, lph, idx);
            assert(old_live =~= Seq::<u64>::empty());
            assert(live_seq(m3, lph, d1.head_idx, d1.tail_idx) == seq![idx]);
            assert(old_live + seq![idx] =~= seq![idx]);
        }
    }
    assert(desc_row_wf(m3, dk)) by {
        assert(m3[dk].len() == 24);
        assert(list_from_bytes(m3[dk]) == d1);
        assert(d1.head_idx < d1.tail_idx);
        assert(d1.num_items == old_live.len() + 1) by {
            if m.contains_key(dk) {
                assert(desc_row_wf(m, dk));
            }
        }
    }
    // descriptor uniqueness in m3
    assert forall|k1: Seq<u8>, k2: Seq<u8>|
        m3.contains_key(k1) && m3.contains_key(k2) && is_desc_row(k1) && is_desc_row(k2)
            && spec_hash(k1) == spec_hash(k2) implies k1 == k2 by {
        lemma_tag_distinct(k1, ck);
        lemma_tag_distinct(k1, isk);
        lemma_tag_distinct(k2, ck);
        lemma_tag_distinct(k2, isk);
        if k1 != dk && k2 != dk {
            assert(m.contains_key(k1) && m.contains_key(k2));
        } else if k1 == dk && k2 != dk {
            assert(m.contains_key(k2));
            if spec_hash(k2) == lph {
                assert(ph_conflict(m, lk));
            }
        } else if k2 == dk && k1 != dk {
            assert(m.contains_key(k1));
            if spec_hash(k1) == lph {
                assert(ph_conflict(m, lk));
            }
        }
    }
    // every desc row of m3 is well formed
    assert forall|k: Seq<u8>| m3.contains_key(k) && is_desc_row(k) implies desc_row_wf(m3, k) by {
        if k == dk {
        } else {
            lemma_tag_distinct(k, ck);
            lemma_tag_distinct(k, isk);
            assert(m.contains_key(k));
            if spec_hash(k) == lph {
                assert(ph_conflict(m, lk));
            }
        }
    }
    // every chain row of m3 is well formed
    assert forall|k: Seq<u8>| m3.contains_key(k) && is_chain_row(k) implies chain_row_wf(m3, k) by {
        lemma_tag_distinct(k, dk);
        lemma_tag_distinct(k, isk);
        if k == ck {
            assert(k == chain_key_bytes(lph, idx));
            assert(ck.subrange(0, 8) == crate::hashing::ph_to_bytes(lph));
            assert(crate::hashing::ph_from_bytes(ck.subrange(0, 8)) == lph);
            assert(vstd::bytes::spec_u64_from_le_bytes(ck.subrange(8, 16)) == idx);
            assert(chain_resolves(m3, lph, idx)) by {
                assert(m3[ck] == crate::hashing::ph_to_bytes(spec_hash(item_key_at(
                    m3,
                    lph,
                    idx,
                ))));
            }
            assert(crate::model::chain_in_span(m3, lph, idx)) by {
                assert(m3.contains_key(dk) && is_desc_row(dk) && spec_hash(dk) == lph
                    && m3[dk].len() == 24 && list_from_bytes(m3[dk]).head_idx <= idx
                    < list_from_bytes(m3[dk]).tail_idx);
            }
        } else {
            assert(m.contains_key(k) && m3[k] == m[k]);
            assert(chain_row_wf(m, k));
            let lph2 = crate::hashing::ph_from_bytes(k.subrange(0, 8));
            let idx2 = vstd::bytes::spec_u64_from_le_bytes(k.subrange(8, 16));
            if lph2 == lph {
                assert(has_chain(m, lph, idx2));
                assert(idx2 != idx);
                assert(chain_resolves(m, lph2, idx2));
                assert(item_exists(m3, lph2, idx2) && item_unique(m3, lph2, idx2));
                assert(item_key_at(m3, lph2, idx2) == item_key_at(m, lph2, idx2));
                assert(chain_resolves(m3, lph2, idx2));
                assert(crate::model::chain_in_span(m3, lph2, idx2)) by {
                    assert(m3.contains_key(dk) && is_desc_row(dk) && spec_hash(dk) == lph
                        && m3[dk].len() == 24);
                    if m.contains_key(dk) {
                        let d0 = list_from_bytes(m[dk]);
                        assert(d0.head_idx <= idx2 < d0.tail_idx);
                        assert(list_from_bytes(m3[dk]).head_idx <= idx2 < list_from_bytes(
                            m3[dk],
                        ).tail_idx);
                    }
                }
            }
        }
    }
    // every item row of m3 is well formed
    assert forall|k: Seq<u8>| m3.contains_key(k) && is_item_row(k) implies item_row_wf(m3, k) by {
        lemma_tag_distinct(k, dk);
        lemma_tag_distinct(k, ck);
        if k == isk {
            assert(m3[k] == nv && nv.len() >= 8 && link_of(nv) == idx);
            let lphx = crate::hashing::ph_from_bytes(k.subrange(k.len() - 9, k.len() - 1));
            assert(k.subrange(k.len() - 9, k.len() - 1) =~= crate::hashing::ph_to_bytes(lph)) by {
                assert(k.subrange(k.len() - 9, k.len() as int) == crate::hashing::ph_to_bytes(lph)
                    + seq![ITEM_NAMESPACE]);
                assert forall|z: int| 0 <= z < 8 implies k.subrange(k.len() - 9, k.len() - 1)[z]
                    == crate::hashing::ph_to_bytes(lph)[z] by {
                    assert(k.subrange(k.len() - 9, k.len() - 1)[z] == k[k.len() - 9 + z]);
                    assert(k.subrange(k.len() - 9, k.len() as int)[z] == k[k.len() - 9 + z]);
                }
            }
            assert(lphx == lph);
            assert(is_item_row_of(k, lphx));
            assert(has_chain(m3, lphx, link_of(m3[k])));
        } else {
            assert(m.contains_key(k) && m3[k] == m[k]);
            assert(item_row_wf(m, k));
            let lphx = crate::hashing::ph_from_bytes(k.subrange(k.len() - 9, k.len() - 1));
            assert(has_chain(m3, lphx, link_of(m3[k]))) by {
                if !(lphx == lph && link_of(m[k]) == idx) {
                    assert(has_chain(m3, lphx, link_of(m[k])) == has_chain(m, lphx, link_of(
                        m[k],
                    )));
                }
            }
        }
    }
    assert(store_wf(m3));
    // the view of `lk` gained exactly the new pair at the tail
    assert(desc_of(m3, lk) == Some(d1));
    assert(entry_at(m3, lph, idx) == (ik, v)) by {
        assert(strip_item_suffix(isk) == ik);
        assert(strip_link(nv) == v);
    }
    let live3 = live_seq(m3, lph, d1.head_idx, d1.tail_idx);
    assert(list_view(m3, lk) == entries_at(m3, lph, live3));
    assert forall|j: int| 0 <= j < old_live.len() implies #[trigger] entry_at(m3, lph, old_live[j])
        == entry_at(m, lph, old_live[j]) by {
        if m.contains_key(dk) {
            let d0 = list_from_bytes(m[dk]);
            crate::model::lemma_live_seq_props(m, lph, d0.head_idx, d0.tail_idx);
            assert(has_chain(m, lph, old_live[j]));
            assert(old_live[j] != idx);
            crate::model::lemma_wf_chain(m, lph, old_live[j]);
            let kj = item_key_at(m, lph, old_live[j]);
            assert(item_match(m, kj, lph, old_live[j]));
            assert(item_exists(m3, lph, old_live[j]) && item_unique(m3, lph, old_live[j]));
            assert(item_key_at(m3, lph, old_live[j]) == kj);
            assert(kj != isk);
            crate::layout::lemma_item_row_of_parts(kj, lph);
            lemma_tag_distinct(kj, dk);
            lemma_tag_distinct(kj, ck);
            assert(m3[kj] == m[kj]);
        }
    }
    assert(list_view(m3, lk) =~= list_view(m, lk).push((ik, v))) by {
        assert(live3 == old_live + seq![idx]);
        if m.contains_key(dk) {
            let d0 = list_from_bytes(m[dk]);
            assert(list_view(m, lk) == entries_at(m, lph, old_live));
        } else {
            assert(list_view(m, lk) == Seq::<(Seq<u8>, Seq<u8>)>::empty());
            assert(old_live.len() == 0);
        }
        assert forall|j: int| 0 <= j < live3.len() implies #[trigger] entries_at(m3, lph, live3)[j]
            == list_view(m, lk).push((ik, v))[j] by {
            if j < old_live.len() {
                assert(live3[j] == old_live[j]);
                assert(entries_at(m3, lph, live3)[j] == entry_at(m3, lph, old_live[j]));
            } else {
                assert(live3[j] == idx);
                assert(entries_at(m3, lph, live3)[j] == entry_at(m3, lph, idx));
            }
        }
    }
    assert(get_value_spec(m3, lk, ik) == Some(v));
}

/// How a removal at index `idx` rewrites the descriptor: the head advances
/// past a removed head, the tail retreats before a removed last index, and
/// a removal in the middle leaves a hole; the live count always drops.
pub open spec fn remove_desc_step(d: List, idx: u64) -> List {
    if d.head_idx == idx {
        List {
            head_idx: (idx + 1) as u64,
            tail_idx: d.tail_idx,
            num_items: (d.num_items - 1) as u64,
        }
    } else if idx + 1 == d.tail_idx {
        List { head_idx: d.head_idx, tail_idx: idx, num_items: (d.num_items - 1) as u64 }
    } else {
        List { head_idx: d.head_idx, tail_idx: d.tail_idx, num_items: (d.num_items - 1) as u64 }
    }
}

/// The descriptor after appending one fresh item: an existing span gains
/// one index at the tail; a fresh list opens a one-slot span at the first
/// index.
pub open spec fn insert_desc_step(d0: Option<List>) -> List {
    match d0 {
        Some(d) => List {
            head_idx: d.head_idx,
            tail_idx: (d.tail_idx + 1) as u64,
            num_items: (d.num_items + 1) as u64,
        },
        None => List {
            head_idx: crate::model::FIRST_LIST_IDX,
            tail_idx: (crate::model::FIRST_LIST_IDX + 1) as u64,
            num_items: 1u64,
        },
    }
}

/// The descriptor left by removing the item `ik`: updated as
/// [`remove_desc_step`] says, or dropped when its span empties.
pub open spec fn remove_result_desc(m: RawRows, lk: Seq<u8>, ik: Seq<u8>) -> Option<List> {
    let d1 = remove_desc_step(
        list_from_bytes(m[desc_key_bytes(lk)]),
        link_of(m[item_storage_key(list_ph_of(lk), ik)]),
    );
    if d1.head_idx == d1.tail_idx {
        None
    } else {
        Some(d1)
    }
}

/// The rows rewritten by removing an item: the descriptor updated or
/// dropped, the chain row dropped, the item row dropped.
pub open spec fn remove_step(m: RawRows, lk: Seq<u8>, ik: Seq<u8>) -> RawRows {
    let dk = desc_key_bytes(lk);
    let lph = list_ph_of(lk);
    let isk = item_storage_key(lph, ik);
    let d1 = remove_desc_step(list_from_bytes(m[dk]), link_of(m[isk]));
    let ma = if d1.head_idx == d1.tail_idx {
        m.remove(dk)
    } else {
        m.insert(dk, list_to_bytes(d1))
    };
    ma.remove(chain_key_bytes(lph, link_of(m[isk]))).remove(isk)
}

/// Removing a present item preserves the invariant, deletes exactly its
/// pair from the list, and leaves every other list alone.
#[verifier::rlimit(100)]
#[verifier::spinoff_prover]
pub proof fn lemma_wf_remove_item(m: RawRows, lk: Seq<u8>, ik: Seq<u8>)
    requires
        store_wf(m),
        m.contains_key(item_storage_key(list_ph_of(lk), ik)),
        m.contains_key(desc_key_bytes(lk)),
    ensures
        ({
            let lph = list_ph_of(lk);
            let isk = item_storage_key(lph, ik);
            let d = list_from_bytes(m[desc_key_bytes(lk)]);
            let idx = link_of(m[isk]);
            let d1 = remove_desc_step(d, idx);
            let m3 = remove_step(m, lk, ik);
            let vw0 = list_view(m, lk);
            &&& m[isk].len() >= 8
            &&& m[desc_key_bytes(lk)].len() == 24
            &&& d.head_idx <= idx < d.tail_idx
            &&& d.num_items >= 1
            &&& store_wf(m3)
            &&& get_value_spec(m3, lk, ik) == None::<Seq<u8>>
            &&& desc_of(m3, lk) == (if d1.head_idx == d1.tail_idx {
                None
            } else {
                Some(d1)
            })
            &&& exists|j: int|
                0 <= j < vw0.len() && #[trigger] vw0[j] == ((ik, strip_link(m[isk]))) && list_view(
                    m3,
                    lk,
                ) == vw0.remove(j)
            &&& forall|j2: int| 0 <= j2 < vw0.len() && #[trigger] vw0[j2].0 == ik ==> vw0[j2].1
                == strip_link(m[isk])
            &&& forall|lk2: Seq<u8>|
                list_ph_of(lk2) != lph ==> #[trigger] list_view(m3, lk2) == list_view(m, lk2)
            &&& forall|lk2: Seq<u8>, ik2: Seq<u8>|
                list_ph_of(lk2) != lph ==> #[trigger] get_value_spec(m3, lk2, ik2)
                    == get_value_spec(m, lk2, ik2)
            &&& forall|ik2: Seq<u8>|
                ik2 != ik ==> #[trigger] get_value_spec(m3, lk, ik2) == get_value_spec(m, lk, ik2)
        }),
{
    let dk = desc_key_bytes(lk);
    let lph = list_ph_of(lk);
    let isk = item_storage_key(lph, ik);
    crate::layout::lemma_item_key_parts(lph, ik);
    crate::hashing::lemma_ph_bytes_roundtrip(lph);
    vstd::bytes::lemma_auto_spec_u64_to_from_le_bytes();
    assert(is_desc_row(dk)) by {
        assert(dk.last() == LIST_NAMESPACE);
    }
    assert(is_item_row(isk));
    assert(item_row_wf(m, isk));
    let idx = link_of(m[isk]);
    let ck = chain_key_bytes(lph, idx);
    crate::layout::lemma_chain_key_parts(lph, idx);
    // the item's fingerprint suffix parses back to `lph`
    let lphx = crate::hashing::ph_from_bytes(isk.subrange(isk.len() - 9, isk.len() - 1));
    assert(isk.subrange(isk.len() - 9, isk.len() - 1) =~= crate::hashing::ph_to_bytes(lph)) by {
        assert(isk.subrange(isk.len() - 9, isk.len() as int) == crate::hashing::ph_to_bytes(lph)
            + seq![ITEM_NAMESPACE]);
        assert forall|z: int| 0 <= z < 8 implies isk.subrange(isk.len() - 9, isk.len() - 1)[z]
            == crate::hashing::ph_to_bytes(lph)[z] by {
            assert(isk.subrange(isk.len() - 9, isk.len() - 1)[z] == isk[isk.len() - 9 + z]);
            assert(isk.subrange(isk.len() - 9, isk.len() as int)[z] == isk[isk.len() - 9 + z]);
        }
    }
    assert(lphx == lph);
    assert(has_chain(m, lph, idx));
    assert(desc_row_wf(m, dk));
    let d = list_from_bytes(m[dk]);
    crate::model::lemma_wf_chain_desc(m, lk, idx);
    assert(d.head_idx <= idx < d.tail_idx);
    crate::model::lemma_wf_chain(m, lph, idx);
    assert(item_key_at(m, lph, idx) == isk) by {
        assert(item_match(m, isk, lph, idx));
    }
    let d1 = remove_desc_step(d, idx);
    let m3 = remove_step(m, lk, ik);
    crate::layout::lemma_list_bytes_roundtrip(d1);
    assert(dk != ck && dk != isk && ck != isk) by {
        lemma_tag_distinct(dk, ck);
        lemma_tag_distinct(dk, isk);
        lemma_tag_distinct(ck, isk);
    }
    let empty_after = d1.head_idx == d1.tail_idx;
    assert(!m3.contains_key(ck) && !m3.contains_key(isk));
    assert(m3.contains_key(dk) == !empty_after);
    assert(!empty_after ==> m3[dk] == list_to_bytes(d1));
    assert(forall|k: Seq<u8>|
        k != dk && k != ck && k != isk ==> #[trigger] m3.contains_key(k) == m.contains_key(k) && (
        m.contains_key(k) ==> m3[k] == m[k]));
    // chain lookups: only (lph, idx) was dropped
    assert forall|lph2: PartedHash, i: u64|
        !(lph2 == lph && i == idx) implies #[trigger] has_chain(m3, lph2, i) == has_chain(
        m,
        lph2,
        i,
    ) && (has_chain(m, lph2, i) ==> m3[chain_key_bytes(lph2, i)] == m[chain_key_bytes(
        lph2,
        i,
    )]) by {
        crate::layout::lemma_chain_key_parts(lph2, i);
        lemma_tag_distinct(chain_key_bytes(lph2, i), dk);
        lemma_tag_distinct(chain_key_bytes(lph2, i), isk);
        if chain_key_bytes(lph2, i) == ck {
            crate::layout::lemma_chain_key_injective(lph2, i, lph, idx);
        }
    }
    assert(!has_chain(m3, lph, idx));
    // frame for other fingerprints
    assert forall|k: Seq<u8>|
        is_desc_row(k) && spec_hash(k) != lph implies (#[trigger] m3.contains_key(k)
        == m.contains_key(k) && (m.contains_key(k) ==> m3[k] == m[k])) by {
        assert(k != dk);
        lemma_tag_distinct(k, ck);
        lemma_tag_distinct(k, isk);
    }
    assert forall|k: Seq<u8>|
        is_item_row(k) && !is_item_row_of(k, lph) implies (#[trigger] m3.contains_key(k)
        == m.contains_key(k) && (m.contains_key(k) ==> m3[k] == m[k])) by {
        assert(is_item_row_of(isk, lph));
        assert(k != isk);
        lemma_tag_distinct(k, dk);
        lemma_tag_distinct(k, ck);
    }
    lemma_wf_frame_other(m, m3, lph);
    // item resolution away from `idx` is unchanged
    assert forall|k: Seq<u8>|
        is_item_row_of(k, lph) && k != isk implies (#[trigger] m.contains_key(k)
        == m3.contains_key(k) && (m.contains_key(k) ==> m[k] == m3[k])) by {
        crate::layout::lemma_item_row_of_parts(k, lph);
        lemma_tag_distinct(k, dk);
        lemma_tag_distinct(k, ck);
    }
    lemma_item_resolution_skip(m, m3, lph, isk, idx);
    // no item of `lph` other than `isk` links to `idx`
    assert forall|k: Seq<u8>| #[trigger] item_match(m3, k, lph, idx) implies false by {
        crate::layout::lemma_item_row_of_parts(k, lph);
        lemma_tag_distinct(k, dk);
        lemma_tag_distinct(k, ck);
        assert(k != isk);
        assert(item_match(m, k, lph, idx));
    }
    // the old live sequence splits around `idx`
    let part_a = live_seq(m, lph, d.head_idx, idx);
    let part_b = live_seq(m, lph, (idx + 1) as u64, d.tail_idx);
    let old_live = live_seq(m, lph, d.head_idx, d.tail_idx);
    assert(old_live == part_a + seq![idx] + part_b) by {
        crate::model::lemma_live_seq_split(m, lph, d.head_idx, idx, d.tail_idx);
        crate::model::lemma_live_seq_split(m, lph, idx, (idx + 1) as u64, d.tail_idx);
        crate::model::lemma_live_seq_singleton(m, lph, idx);
        assert(old_live =~= part_a + seq![idx] + part_b);
    }
    assert(d.num_items == old_live.len());
    assert(d.num_items >= 1);
    crate::model::lemma_live_seq_props(m, lph, d.head_idx, idx);
    crate::model::lemma_live_seq_props(m, lph, (idx + 1) as u64, d.tail_idx);
    crate::model::lemma_live_seq_props(m, lph, d.head_idx, d.tail_idx);
    // the new live sequence over the new span
    let live3 = if empty_after {
        Seq::<u64>::empty()
    } else {
        live_seq(m3, lph, d1.head_idx, d1.tail_idx)
    };
    assert(live3 == part_a + part_b) by {
        if empty_after {
            assert(d.head_idx == idx && idx + 1 == d.tail_idx);
            assert(part_a.len() == 0 && part_b.len() == 0);
            assert(live3 =~= part_a + part_b);
        } else {
            crate::model::lemma_live_seq_frame(m3, m, lph, d.head_idx, idx);
            crate::model::lemma_live_seq_frame(m3, m, lph, (idx + 1) as u64, d.tail_idx);
            if d.head_idx == idx {
                assert(d1.head_idx == idx + 1 && d1.tail_idx == d.tail_idx);
                assert(part_a.len() == 0);
                assert(live3 == part_b);
                assert(live3 =~= part_a + part_b);
            } else if idx + 1 == d.tail_idx {
                assert(d1.head_idx == d.head_idx && d1.tail_idx == idx);
                assert(part_b.len() == 0);
                assert(live3 == part_a);
                assert(live3 =~= part_a + part_b);
            } else {
                crate::model::lemma_live_seq_split(m3, lph, d.head_idx, idx, d.tail_idx);
                crate::model::lemma_live_seq_split(m3, lph, idx, (idx + 1) as u64, d.tail_idx);
                crate::model::lemma_live_seq_empty(m3, lph, idx, (idx + 1) as u64);
                assert(live3 =~= part_a + part_b);
            }
        }
    }
    // descriptor rows of m3
    assert forall|k: Seq<u8>| m3.contains_key(k) && is_desc_row(k) implies desc_row_wf(m3, k) by {
        lemma_tag_distinct(k, ck);
        lemma_tag_distinct(k, isk);
        if k == dk {
            assert(!empty_after);
            assert(m3[dk] == list_to_bytes(d1));
            assert(list_from_bytes(m3[dk]) == d1);
            assert(d1.head_idx < d1.tail_idx);
            assert(d1.num_items == live3.len());
        } else {
            assert(m.contains_key(k));
            assert(spec_hash(k) != lph);
        }
    }
    // chain rows of m3
    assert forall|k: Seq<u8>| m3.contains_key(k) && is_chain_row(k) implies chain_row_wf(m3, k) by {
        lemma_tag_distinct(k, dk);
        lemma_tag_distinct(k, isk);
        assert(k != ck);
        assert(m.contains_key(k) && m3[k] == m[k]);
        assert(chain_row_wf(m, k));
        let lph2 = crate::hashing::ph_from_bytes(k.subrange(0, 8));
        let i2 = vstd::bytes::spec_u64_from_le_bytes(k.subrange(8, 16));
        if lph2 == lph {
            assert(has_chain(m, lph, i2));
            assert(i2 != idx) by {
                if i2 == idx {
                    assert(k == chain_key_bytes(lph2, i2));
                    assert(k == ck);
                }
            }
            assert(chain_resolves(m, lph2, i2));
            assert(item_exists(m3, lph2, i2) && item_unique(m3, lph2, i2));
            assert(item_key_at(m3, lph2, i2) == item_key_at(m, lph2, i2));
            assert(chain_resolves(m3, lph2, i2));
            assert(crate::model::chain_in_span(m3, lph2, i2)) by {
                crate::model::lemma_wf_chain_desc(m, lk, i2);
                assert(d.head_idx <= i2 < d.tail_idx);
                assert(!empty_after) by {
                    if empty_after {
                        assert(d.head_idx == idx && idx + 1 == d.tail_idx);
                        assert(i2 == idx);
                    }
                }
                assert(d1.head_idx <= i2 < d1.tail_idx);
                assert(m3.contains_key(dk) && is_desc_row(dk) && spec_hash(dk) == lph
                    && m3[dk].len() == 24 && list_from_bytes(m3[dk]).head_idx <= i2
                    < list_from_bytes(m3[dk]).tail_idx);
            }
        }
    }
    // item rows of m3
    assert forall|k: Seq<u8>| m3.contains_key(k) && is_item_row(k) implies item_row_wf(m3, k) by {
        lemma_tag_distinct(k, dk);
        lemma_tag_distinct(k, ck);
        assert(k != isk);
        assert(m.contains_key(k) && m3[k] == m[k]);
        assert(item_row_wf(m, k));
        let lphk = crate::hashing::ph_from_bytes(k.subrange(k.len() - 9, k.len() - 1));
        assert(has_chain(m3, lphk, link_of(m3[k]))) by {
            if lphk == lph && link_of(m[k]) == idx {
                assert(item_match(m, k, lph, idx));
                assert(k == isk);
            } else {
                assert(has_chain(m3, lphk, link_of(m[k])) == has_chain(m, lphk, link_of(m[k])));
            }
        }
    }
    assert(store_wf(m3));
    // the views
    let vw0 = list_view(m, lk);
    assert(vw0 == entries_at(m, lph, old_live));
    let j = part_a.len() as int;
    assert(old_live[j] == idx);
    assert(vw0[j] == entry_at(m, lph, idx));
    assert(entry_at(m, lph, idx) == (ik, strip_link(m[isk])));
    // entries away from idx are unchanged
    assert forall|i2: u64| old_live.contains(i2) && i2 != idx implies #[trigger] entry_at(
        m3,
        lph,
        i2,
    ) == entry_at(m, lph, i2) by {
        let jj = choose|jj: int| 0 <= jj < old_live.len() && old_live[jj] == i2;
        assert(has_chain(m, lph, i2));
        crate::model::lemma_wf_chain(m, lph, i2);
        let kj = item_key_at(m, lph, i2);
        assert(item_match(m, kj, lph, i2));
        assert(item_exists(m3, lph, i2) && item_unique(m3, lph, i2));
        assert(item_key_at(m3, lph, i2) == kj);
        assert(kj != isk);
        crate::layout::lemma_item_row_of_parts(kj, lph);
        lemma_tag_distinct(kj, dk);
        lemma_tag_distinct(kj, ck);
        assert(m3[kj] == m[kj]);
    }
    assert(list_view(m3, lk) == vw0.remove(j)) by {
        if empty_after {
            assert(desc_of(m3, lk) is None);
            assert(list_view(m3, lk) =~= vw0.remove(j));
        } else {
            assert(desc_of(m3, lk) == Some(d1));
            assert(list_view(m3, lk) == entries_at(m3, lph, live3));
            assert forall|z: int| 0 <= z < live3.len() implies #[trigger] entries_at(
                m3,
                lph,
                live3,
            )[z] == vw0.remove(j)[z] by {
                if z < j {
                    assert(live3[z] == part_a[z] && old_live[z] == part_a[z]);
                    assert(old_live.contains(old_live[z]));
                    assert(old_live[z] != idx) by {
                        crate::model::lemma_live_seq_props(m, lph, d.head_idx, idx);
                    }
                    assert(vw0.remove(j)[z] == vw0[z]);
                    assert(vw0[z] == entry_at(m, lph, old_live[z]));
                } else {
                    assert(live3[z] == part_b[z - j] && old_live[z + 1] == part_b[z - j]);
                    assert(old_live.contains(old_live[z + 1]));
                    assert(old_live[z + 1] != idx) by {
                        crate::model::lemma_live_seq_props(m, lph, (idx + 1) as u64, d.tail_idx);
                    }
                    assert(vw0.remove(j)[z] == vw0[z + 1]);
                    assert(vw0[z + 1] == entry_at(m, lph, old_live[z + 1]));
                }
            }
            assert(list_view(m3, lk) =~= vw0.remove(j));
        }
    }
    // the removed key appears at position j only
    assert forall|j2: int| 0 <= j2 < vw0.len() && #[trigger] vw0[j2].0 == ik implies vw0[j2].1
        == strip_link(m[isk]) by {
        assert(vw0[j2] == entry_at(m, lph, old_live[j2]));
        assert(old_live.contains(old_live[j2]));
        assert(has_chain(m, lph, old_live[j2]));
        crate::model::lemma_wf_chain(m, lph, old_live[j2]);
        let kj = item_key_at(m, lph, old_live[j2]);
        assert(item_match(m, kj, lph, old_live[j2]));
        crate::layout::lemma_item_row_of_parts(kj, lph);
        assert(kj == item_storage_key(lph, strip_item_suffix(kj)));
        assert(kj == isk);
        assert(old_live[j2] == idx);
    }
    assert(0 <= j < vw0.len() && vw0[j] == ((ik, strip_link(m[isk]))) && list_view(m3, lk)
        == vw0.remove(j));
    // point lookups of other item keys in this list are unchanged
    assert forall|ik2: Seq<u8>| ik2 != ik implies #[trigger] get_value_spec(m3, lk, ik2)
        == get_value_spec(m, lk, ik2) by {
        let isk2 = item_storage_key(lph, ik2);
        crate::layout::lemma_item_key_parts(lph, ik2);
        if isk2 == isk {
            crate::layout::lemma_item_key_injective(lph, ik2, ik);
        }
        lemma_tag_distinct(isk2, dk);
        lemma_tag_distinct(isk2, ck);
    }
}

/// The shape of a list around an end element: the first live index from
/// the head (or the last before the tail) holds the first (or last) entry
/// of the list, and no other position carries the same user key.
#[verifier::rlimit(100)]
#[verifier::spinoff_prover]
pub proof fn lemma_pop_shape(m: RawRows, lk: Seq<u8>, idx: u64, fwd: bool)
    requires
        store_wf(m),
        m.contains_key(desc_key_bytes(lk)),
        m[desc_key_bytes(lk)].len() == 24,
        has_chain(m, list_ph_of(lk), idx),
        ({
            let d = list_from_bytes(m[desc_key_bytes(lk)]);
            if fwd {
                forall|i: u64| d.head_idx <= i < idx ==> !has_chain(m, list_ph_of(lk), i)
            } else {
                forall|i: u64| idx < i < d.tail_idx ==> !has_chain(m, list_ph_of(lk), i)
            }
        }),
    ensures
        ({
            let lph = list_ph_of(lk);
            let vw0 = list_view(m, lk);
            let ki = item_key_at(m, lph, idx);
            let pos = if fwd {
                0int
            } else {
                vw0.len() - 1
            };
            &&& vw0.len() > 0
            &&& m.contains_key(ki)
            &&& ki == item_storage_key(lph, strip_item_suffix(ki))
            &&& vw0[pos] == entry_at(m, lph, idx)
            &&& entry_at(m, lph, idx) == ((strip_item_suffix(ki), strip_link(m[ki])))
            &&& forall|j2: int|
                0 <= j2 < vw0.len() && #[trigger] vw0[j2].0 == strip_item_suffix(ki) ==> j2 == pos
        }),
{
    let lph = list_ph_of(lk);
    let dk = desc_key_bytes(lk);
    assert(is_desc_row(dk)) by {
        assert(dk.last() == LIST_NAMESPACE);
    }
    assert(desc_row_wf(m, dk));
    let d = list_from_bytes(m[dk]);
    crate::model::lemma_wf_chain(m, lph, idx);
    crate::model::lemma_wf_chain_desc(m, lk, idx);
    let ki = item_key_at(m, lph, idx);
    assert(item_match(m, ki, lph, idx));
    crate::layout::lemma_item_row_of_parts(ki, lph);
    let old_live = live_seq(m, lph, d.head_idx, d.tail_idx);
    let vw0 = list_view(m, lk);
    assert(vw0 == entries_at(m, lph, old_live));
    crate::model::lemma_live_seq_props(m, lph, d.head_idx, d.tail_idx);
    let pos = if fwd {
        0int
    } else {
        vw0.len() - 1
    };
    if fwd {
        crate::model::lemma_live_seq_split(m, lph, d.head_idx, idx, d.tail_idx);
        crate::model::lemma_live_seq_empty(m, lph, d.head_idx, idx);
        assert(old_live == live_seq(m, lph, idx, d.tail_idx));
        assert(old_live == seq![idx] + live_seq(m, lph, (idx + 1) as u64, d.tail_idx));
        assert(old_live[0] == idx);
    } else {
        crate::model::lemma_live_seq_split(m, lph, d.head_idx, idx, d.tail_idx);
        crate::model::lemma_live_seq_split(m, lph, idx, (idx + 1) as u64, d.tail_idx);
        crate::model::lemma_live_seq_empty(m, lph, (idx + 1) as u64, d.tail_idx);
        crate::model::lemma_live_seq_singleton(m, lph, idx);
        assert(old_live =~= live_seq(m, lph, d.head_idx, idx) + seq![idx]);
        assert(old_live[old_live.len() - 1] == idx);
    }
    assert(vw0[pos] == entry_at(m, lph, idx));
    assert forall|j2: int|
        0 <= j2 < vw0.len() && #[trigger] vw0[j2].0 == strip_item_suffix(ki) implies j2 == pos by {
        assert(vw0[j2] == entry_at(m, lph, old_live[j2]));
        crate::model::lemma_wf_chain(m, lph, old_live[j2]);
        let kj = item_key_at(m, lph, old_live[j2]);
        assert(item_match(m, kj, lph, old_live[j2]));
        crate::layout::lemma_item_row_of_parts(kj, lph);
        assert(kj == item_storage_key(lph, strip_item_suffix(kj)));
        assert(kj == ki);
        assert(old_live[j2] == idx);
        assert(old_live[pos] == idx);
    }
}

/// Item resolution transfers between maps that agree on all item matches
/// outside two special indices.
pub proof fn lemma_item_resolution_transfer(
    m1: RawRows,
    m2: RawRows,
    lph: PartedHash,
    e1: u64,
    e2: u64,
)
    requires
        forall|k: Seq<u8>, i: u64|
            i != e1 && i != e2 ==> #[trigger] item_match(m1, k, lph, i) == item_match(
                m2,
                k,
                lph,
                i,
            ),
    ensures
        forall|i: u64| i != e1 && i != e2 ==> #[trigger] item_exists(m1, lph, i) == item_exists(
            m2,
            lph,
            i,
        ),
        forall|i: u64| i != e1 && i != e2 ==> #[trigger] item_unique(m1, lph, i) == item_unique(
            m2,
            lph,
            i,
        ),
        forall|i: u64|
            i != e1 && i != e2 && item_exists(m1, lph, i) && item_unique(m1, lph, i)
                ==> #[trigger] item_key_at(m1, lph, i) == item_key_at(m2, lph, i),
{
    assert forall|i: u64| i != e1 && i != e2 implies #[trigger] item_exists(m1, lph, i)
        == item_exists(m2, lph, i) by {
        if item_exists(m1, lph, i) {
            let k = choose|k: Seq<u8>| item_match(m1, k, lph, i);
            assert(item_match(m2, k, lph, i));
        }
        if item_exists(m2, lph, i) {
            let k = choose|k: Seq<u8>| item_match(m2, k, lph, i);
            assert(item_match(m1, k, lph, i));
        }
    }
    assert forall|i: u64| i != e1 && i != e2 implies #[trigger] item_unique(m1, lph, i)
        == item_unique(m2, lph, i) by {
        if item_unique(m1, lph, i) {
            assert forall|ka: Seq<u8>, kb: Seq<u8>|
                item_match(m2, ka, lph, i) && item_match(m2, kb, lph, i) implies ka == kb by {
                assert(item_match(m1, ka, lph, i) && item_match(m1, kb, lph, i));
            }
        }
        if item_unique(m2, lph, i) {
            assert forall|ka: Seq<u8>, kb: Seq<u8>|
                item_match(m1, ka, lph, i) && item_match(m1, kb, lph, i) implies ka == kb by {
                assert(item_match(m2, ka, lph, i) && item_match(m2, kb, lph, i));
            }
        }
    }
    assert forall|i: u64|
        i != e1 && i != e2 && item_exists(m1, lph, i) && item_unique(m1, lph, i) implies #[trigger] item_key_at(
        m1,
        lph,
        i,
    ) == item_key_at(m2, lph, i) by {
        let k1 = item_key_at(m1, lph, i);
        assert(item_match(m1, k1, lph, i));
        assert(item_match(m2, k1, lph, i));
        let k2 = item_key_at(m2, lph, i);
        assert(item_match(m2, k2, lph, i));
        assert(item_match(m1, k2, lph, i));
    }
}

/// With no descriptor and no conflicting descriptor, the list has no item
/// rows at all: every point lookup misses.
pub proof fn lemma_no_desc_no_items(m: RawRows, lk: Seq<u8>)
    requires
        store_wf(m),
        !m.contains_key(desc_key_bytes(lk)),
        !ph_conflict(m, lk),
    ensures
        forall|ik: Seq<u8>| #[trigger] get_value_spec(m, lk, ik) is None,
        forall|idx: u64| !has_chain(m, list_ph_of(lk), idx),
        list_view(m, lk) == Seq::<(Seq<u8>, Seq<u8>)>::empty(),
{
    let lph = list_ph_of(lk);
    lemma_no_chain_outside_span(m, lk);
    assert forall|ik: Seq<u8>| #[trigger] get_value_spec(m, lk, ik) is None by {
        let isk = item_storage_key(lph, ik);
        if m.contains_key(isk) {
            crate::layout::lemma_item_key_parts(lph, ik);
            assert(is_item_row(isk));
            assert(item_row_wf(m, isk));
            let lphx = crate::hashing::ph_from_bytes(isk.subrange(isk.len() - 9, isk.len() - 1));
            crate::layout::lemma_item_row_ph_unique(isk, lphx, lph);
            assert(has_chain(m, lph, link_of(m[isk])));
        }
    }
}

/// Dropping the descriptor of a list whose live count reached zero
/// preserves the invariant and empties the list for every reader.
#[verifier::rlimit(100)]
#[verifier::spinoff_prover]
pub proof fn lemma_wf_drop_empty_desc(m: RawRows, lk: Seq<u8>)
    requires
        store_wf(m),
        m.contains_key(desc_key_bytes(lk)),
        list_from_bytes(m[desc_key_bytes(lk)]).num_items == 0,
    ensures
        ({
            let m1 = m.remove(desc_key_bytes(lk));
            &&& store_wf(m1)
            &&& desc_of(m1, lk) is None
            &&& list_view(m1, lk) == Seq::<(Seq<u8>, Seq<u8>)>::empty()
            &&& forall|ik: Seq<u8>| #[trigger] get_value_spec(m1, lk, ik) is None
            &&& forall|idx: u64| !has_chain(m1, list_ph_of(lk), idx)
            &&& forall|lk2: Seq<u8>|
                list_ph_of(lk2) != list_ph_of(lk) ==> #[trigger] list_view(m1, lk2) == list_view(
                    m,
                    lk2,
                )
            &&& forall|lk2: Seq<u8>, ik2: Seq<u8>|
                list_ph_of(lk2) != list_ph_of(lk) ==> #[trigger] get_value_spec(m1, lk2, ik2)
                    == get_value_spec(m, lk2, ik2)
        }),
{
    let lph = list_ph_of(lk);
    let dk = desc_key_bytes(lk);
    let m1 = m.remove(dk);
    assert(is_desc_row(dk)) by {
        assert(dk.last() == LIST_NAMESPACE);
    }
    assert(desc_row_wf(m, dk));
    let d = list_from_bytes(m[dk]);
    crate::model::lemma_live_seq_props(m, lph, d.head_idx, d.tail_idx);
    // no chain row of `lph` survives: the count was zero
    assert forall|i: u64| !has_chain(m, lph, i) by {
        if has_chain(m, lph, i) {
            let ck = chain_key_bytes(lph, i);
            crate::layout::lemma_chain_key_parts(lph, i);
            assert(is_chain_row(ck));
            assert(chain_row_wf(m, ck));
            crate::hashing::lemma_ph_bytes_roundtrip(lph);
            vstd::bytes::lemma_auto_spec_u64_to_from_le_bytes();
            assert(chain_in_span(m, lph, i));
            let dkw = choose|dkw: Seq<u8>|
                #[trigger] m.contains_key(dkw) && is_desc_row(dkw) && spec_hash(dkw) == lph
                    && m[dkw].len() == 24 && list_from_bytes(m[dkw]).head_idx <= i
                    < list_from_bytes(m[dkw]).tail_idx;
            assert(dkw == dk);
            assert(crate::model::live_seq(m, lph, d.head_idx, d.tail_idx).contains(i));
        }
    }
    assert forall|k: Seq<u8>| !(m.contains_key(k) && is_item_row_of(k, lph)) by {
        if m.contains_key(k) && is_item_row_of(k, lph) {
            crate::layout::lemma_item_row_of_parts(k, lph);
            assert(is_item_row(k));
            assert(item_row_wf(m, k));
            let lphx = crate::hashing::ph_from_bytes(k.subrange(k.len() - 9, k.len() - 1));
            crate::layout::lemma_item_row_ph_unique(k, lphx, lph);
            assert(has_chain(m, lph, link_of(m[k])));
        }
    }
    lemma_chains_stable(m, dk, m[dk]);
    assert forall|k: Seq<u8>|
        is_desc_row(k) && spec_hash(k) != lph implies (#[trigger] m1.contains_key(k)
        == m.contains_key(k) && (m.contains_key(k) ==> m1[k] == m[k])) by {
        assert(k != dk);
    }
    lemma_wf_frame_other(m, m1, lph);
    assert forall|k: Seq<u8>| m1.contains_key(k) && is_desc_row(k) implies desc_row_wf(m1, k) by {
        assert(k != dk);
        assert(spec_hash(k) != lph);
    }
    assert forall|k: Seq<u8>| m1.contains_key(k) && is_chain_row(k) implies chain_row_wf(m1, k) by {
        assert(m.contains_key(k) && chain_row_wf(m, k));
        let lph2 = crate::hashing::ph_from_bytes(k.subrange(0, 8));
        let idx2 = vstd::bytes::spec_u64_from_le_bytes(k.subrange(8, 16));
        if lph2 == lph {
            assert(has_chain(m, lph, idx2));
            assert(false);
        }
    }
    assert forall|k: Seq<u8>| m1.contains_key(k) && is_item_row(k) implies item_row_wf(m1, k) by {
        assert(m.contains_key(k) && item_row_wf(m, k));
        let lphx = crate::hashing::ph_from_bytes(k.subrange(k.len() - 9, k.len() - 1));
        if lphx == lph {
            assert(is_item_row_of(k, lphx));
            assert(false);
        }
        assert(has_chain(m1, lphx, link_of(m1[k])) == has_chain(m, lphx, link_of(m[k])));
    }
    assert(store_wf(m1));
    assert forall|ik: Seq<u8>| #[trigger] get_value_spec(m1, lk, ik) is None by {
        let isk = item_storage_key(lph, ik);
        crate::layout::lemma_item_key_parts(lph, ik);
        if m1.contains_key(isk) {
            assert(m.contains_key(isk) && is_item_row_of(isk, lph));
        }
    }
    assert forall|idx: u64| !has_chain(m1, lph, idx) by {
        assert(has_chain(m1, lph, idx) == has_chain(m, lph, idx));
    }
}

/// Raising the head over a hole-only region (or past everything, when the
/// span is being rebuilt) keeps the invariant and the view.
#[verifier::rlimit(100)]
#[verifier::spinoff_prover]
pub proof fn lemma_wf_shrink_head(m: RawRows, lk: Seq<u8>, new_head: u64)
    requires
        store_wf(m),
        m.contains_key(desc_key_bytes(lk)),
        ({
            let d = list_from_bytes(m[desc_key_bytes(lk)]);
            &&& d.head_idx <= new_head < d.tail_idx
            &&& forall|i: u64|
                d.head_idx <= i < new_head ==> !has_chain(m, list_ph_of(lk), i)
        }),
    ensures
        ({
            let d = list_from_bytes(m[desc_key_bytes(lk)]);
            let d1 = List {
                head_idx: new_head,
                tail_idx: d.tail_idx,
                num_items: d.num_items,
            };
            let m1 = m.insert(desc_key_bytes(lk), list_to_bytes(d1));
            &&& store_wf(m1)
            &&& desc_of(m1, lk) == Some(d1)
            &&& list_view(m1, lk) == list_view(m, lk)
            &&& forall|ik2: Seq<u8>|
                #[trigger] get_value_spec(m1, lk, ik2) == get_value_spec(m, lk, ik2)
            &&& forall|lk2: Seq<u8>|
                list_ph_of(lk2) != list_ph_of(lk) ==> #[trigger] list_view(m1, lk2) == list_view(
                    m,
                    lk2,
                )
            &&& forall|lk2: Seq<u8>, ik2: Seq<u8>|
                list_ph_of(lk2) != list_ph_of(lk) ==> #[trigger] get_value_spec(m1, lk2, ik2)
                    == get_value_spec(m, lk2, ik2)
        }),
{
    let lph = list_ph_of(lk);
    let dk = desc_key_bytes(lk);
    assert(is_desc_row(dk)) by {
        assert(dk.last() == LIST_NAMESPACE);
    }
    assert(desc_row_wf(m, dk));
    let d = list_from_bytes(m[dk]);
    let d1 = List { head_idx: new_head, tail_idx: d.tail_idx, num_items: d.num_items };
    let m1 = m.insert(dk, list_to_bytes(d1));
    crate::layout::lemma_list_bytes_roundtrip(d1);
    lemma_chains_stable(m, dk, list_to_bytes(d1));
    assert forall|k: Seq<u8>|
        is_item_row(k) implies (#[trigger] m1.contains_key(k) == m.contains_key(k) && (
    m.contains_key(k) ==> m1[k] == m[k])) by {
        lemma_tag_distinct(k, dk);
    }
    assert forall|k: Seq<u8>|
        is_desc_row(k) && spec_hash(k) != lph implies (#[trigger] m1.contains_key(k)
        == m.contains_key(k) && (m.contains_key(k) ==> m1[k] == m[k])) by {
        assert(k != dk);
    }
    lemma_wf_frame_other(m, m1, lph);
    crate::model::lemma_live_seq_split(m, lph, d.head_idx, new_head, d.tail_idx);
    crate::model::lemma_live_seq_empty(m, lph, d.head_idx, new_head);
    crate::model::lemma_live_seq_frame(m1, m, lph, new_head, d.tail_idx);
    assert(crate::model::live_seq(m1, lph, d1.head_idx, d1.tail_idx) == crate::model::live_seq(
        m,
        lph,
        d.head_idx,
        d.tail_idx,
    ));
    assert forall|k: Seq<u8>| m1.contains_key(k) && is_desc_row(k) implies desc_row_wf(m1, k) by {
        if k == dk {
            assert(m1[dk] == list_to_bytes(d1));
            assert(list_from_bytes(m1[dk]) == d1);
        } else {
            assert(spec_hash(k) != lph);
        }
    }
    assert forall|k: Seq<u8>| m1.contains_key(k) && is_chain_row(k) implies chain_row_wf(m1, k) by {
        lemma_tag_distinct(k, dk);
        assert(m.contains_key(k) && m1[k] == m[k]);
        assert(chain_row_wf(m, k));
        let lph2 = crate::hashing::ph_from_bytes(k.subrange(0, 8));
        let idx2 = vstd::bytes::spec_u64_from_le_bytes(k.subrange(8, 16));
        if lph2 == lph {
            assert(has_chain(m, lph, idx2));
            assert forall|kx: Seq<u8>|
                is_item_row_of(kx, lph2) implies (#[trigger] m.contains_key(kx)
                == m1.contains_key(kx) && (m.contains_key(kx) ==> m[kx] == m1[kx])) by {
                crate::layout::lemma_item_row_of_parts(kx, lph2);
            }
            crate::model::lemma_entry_frame(m, m1, lph2, idx2);
            crate::model::lemma_wf_chain_desc(m, lk, idx2);
            assert(new_head <= idx2) by {
                crate::model::lemma_live_seq_props(m, lph, d.head_idx, new_head);
            }
            assert(crate::model::chain_in_span(m1, lph2, idx2)) by {
                assert(m1.contains_key(dk) && is_desc_row(dk) && spec_hash(dk) == lph
                    && m1[dk].len() == 24 && list_from_bytes(m1[dk]).head_idx <= idx2
                    < list_from_bytes(m1[dk]).tail_idx);
            }
        }
    }
    assert forall|k: Seq<u8>| m1.contains_key(k) && is_item_row(k) implies item_row_wf(m1, k) by {
        lemma_tag_distinct(k, dk);
        assert(m.contains_key(k) && m1[k] == m[k]);
        assert(item_row_wf(m, k));
        let lphx = crate::hashing::ph_from_bytes(k.subrange(k.len() - 9, k.len() - 1));
        assert(has_chain(m1, lphx, link_of(m1[k])) == has_chain(m, lphx, link_of(m[k])));
    }
    assert(store_wf(m1));
    assert(list_view(m1, lk) == list_view(m, lk)) by {
        let idxs = crate::model::live_seq(m, lph, d.head_idx, d.tail_idx);
        crate::model::lemma_live_seq_props(m, lph, d.head_idx, d.tail_idx);
        assert forall|j: int| 0 <= j < idxs.len() implies #[trigger] crate::model::entry_at(
            m1,
            lph,
            idxs[j],
        ) == crate::model::entry_at(m, lph, idxs[j]) by {
            crate::model::lemma_wf_chain(m, lph, idxs[j]);
            assert forall|kx: Seq<u8>|
                is_item_row_of(kx, lph) implies (#[trigger] m.contains_key(kx) == m1.contains_key(
                kx,
            ) && (m.contains_key(kx) ==> m[kx] == m1[kx])) by {
                crate::layout::lemma_item_row_of_parts(kx, lph);
            }
            crate::model::lemma_entry_frame(m, m1, lph, idxs[j]);
        }
        assert(entries_at(m1, lph, idxs) =~= entries_at(m, lph, idxs));
    }
    assert forall|ik2: Seq<u8>| #[trigger] get_value_spec(m1, lk, ik2) == get_value_spec(
        m,
        lk,
        ik2,
    ) by {
        let isk2 = item_storage_key(lph, ik2);
        crate::layout::lemma_item_key_parts(lph, ik2);
        lemma_tag_distinct(isk2, dk);
    }
}

/// The rows rewritten when the front item of a list is reassigned a fresh
/// trailing index: the descriptor advances past it and grows its tail, a
/// chain row appears at the old tail, the item's link suffix is rewritten,
/// and the old chain row disappears.
pub open spec fn migrate_step(m: RawRows, lk: Seq<u8>, idx: u64) -> RawRows {
    let dk = desc_key_bytes(lk);
    let lph = list_ph_of(lk);
    let d = list_from_bytes(m[dk]);
    let ki = item_key_at(m, lph, idx);
    let d1 = List {
        head_idx: (idx + 1) as u64,
        tail_idx: (d.tail_idx + 1) as u64,
        num_items: d.num_items,
    };
    let nv = strip_link(m[ki]) + vstd::bytes::spec_u64_to_le_bytes(d.tail_idx);
    m.insert(dk, list_to_bytes(d1)).insert(
        chain_key_bytes(lph, d.tail_idx),
        crate::hashing::ph_to_bytes(spec_hash(ki)),
    ).insert(ki, nv).remove(chain_key_bytes(lph, idx))
}

/// Reassigning the front item to a fresh trailing index rotates the view
/// by one and preserves the invariant and every point lookup.
#[verifier::rlimit(100)]
#[verifier::spinoff_prover]
pub proof fn lemma_wf_migrate_front(m: RawRows, lk: Seq<u8>, idx: u64)
    requires
        store_wf(m),
        m.contains_key(desc_key_bytes(lk)),
        has_chain(m, list_ph_of(lk), idx),
        ({
            let d = list_from_bytes(m[desc_key_bytes(lk)]);
            &&& d.tail_idx < u64::MAX
            &&& forall|i: u64|
                d.head_idx <= i < idx ==> !has_chain(m, list_ph_of(lk), i)
        }),
    ensures
        ({
            let lph = list_ph_of(lk);
            let d = list_from_bytes(m[desc_key_bytes(lk)]);
            let d1 = List {
                head_idx: (idx + 1) as u64,
                tail_idx: (d.tail_idx + 1) as u64,
                num_items: d.num_items,
            };
            let m3 = migrate_step(m, lk, idx);
            let vw0 = list_view(m, lk);
            &&& d.head_idx <= idx < d.tail_idx
            &&& vw0.len() > 0
            &&& store_wf(m3)
            &&& desc_of(m3, lk) == Some(d1)
            &&& list_view(m3, lk) == vw0.drop_first().push(vw0[0])
            &&& forall|ik2: Seq<u8>|
                #[trigger] get_value_spec(m3, lk, ik2) == get_value_spec(m, lk, ik2)
            &&& forall|lk2: Seq<u8>|
                list_ph_of(lk2) != lph ==> #[trigger] list_view(m3, lk2) == list_view(m, lk2)
            &&& forall|lk2: Seq<u8>, ik2: Seq<u8>|
                list_ph_of(lk2) != lph ==> #[trigger] get_value_spec(m3, lk2, ik2)
                    == get_value_spec(m, lk2, ik2)
        }),
{
    let lph = list_ph_of(lk);
    let dk = desc_key_bytes(lk);
    assert(is_desc_row(dk)) by {
        assert(dk.last() == LIST_NAMESPACE);
    }
    assert(desc_row_wf(m, dk));
    let d = list_from_bytes(m[dk]);
    crate::model::lemma_wf_chain(m, lph, idx);
    crate::model::lemma_wf_chain_desc(m, lk, idx);
    assert(d.head_idx <= idx < d.tail_idx);
    lemma_pop_shape(m, lk, idx, true);
    let ki = item_key_at(m, lph, idx);
    assert(item_match(m, ki, lph, idx));
    crate::layout::lemma_item_row_of_parts(ki, lph);
    let tl = d.tail_idx;
    let d1 = List {
        head_idx: (idx + 1) as u64,
        tail_idx: (tl + 1) as u64,
        num_items: d.num_items,
    };
    let w = m[ki];
    let nv = strip_link(w) + vstd::bytes::spec_u64_to_le_bytes(tl);
    let ck_new = chain_key_bytes(lph, tl);
    let ck_old = chain_key_bytes(lph, idx);
    let m3 = migrate_step(m, lk, idx);
    crate::layout::lemma_list_bytes_roundtrip(d1);
    crate::layout::lemma_value_link_roundtrip(strip_link(w), tl);
    crate::layout::lemma_chain_key_parts(lph, tl);
    crate::layout::lemma_chain_key_parts(lph, idx);
    crate::hashing::lemma_ph_bytes_roundtrip(lph);
    vstd::bytes::lemma_auto_spec_u64_to_from_le_bytes();
    assert(dk != ck_new && dk != ck_old && dk != ki && ck_new != ki && ck_old != ki) by {
        lemma_tag_distinct(dk, ck_new);
        lemma_tag_distinct(dk, ck_old);
        lemma_tag_distinct(dk, ki);
        lemma_tag_distinct(ck_new, ki);
        lemma_tag_distinct(ck_old, ki);
    }
    assert(ck_new != ck_old) by {
        if ck_new == ck_old {
            crate::layout::lemma_chain_key_injective(lph, tl, lph, idx);
        }
    }
    assert(m3.contains_key(dk) && m3[dk] == list_to_bytes(d1));
    assert(m3.contains_key(ck_new) && m3[ck_new] == crate::hashing::ph_to_bytes(spec_hash(ki)));
    assert(m3.contains_key(ki) && m3[ki] == nv);
    assert(!m3.contains_key(ck_old));
    assert(forall|k: Seq<u8>|
        k != dk && k != ck_new && k != ck_old && k != ki ==> #[trigger] m3.contains_key(k)
            == m.contains_key(k) && (m.contains_key(k) ==> m3[k] == m[k]));
    // no chain exists at the old tail yet: the unique descriptor of this
    // fingerprint ends there
    assert(!has_chain(m, lph, tl)) by {
        if has_chain(m, lph, tl) {
            crate::model::lemma_wf_chain_desc(m, lk, tl);
        }
    }
    // chain lookups: (lph, tl) added, (lph, idx) dropped
    assert forall|lph2: PartedHash, i: u64|
        !(lph2 == lph && (i == idx || i == tl)) implies #[trigger] has_chain(m3, lph2, i)
        == has_chain(m, lph2, i) && (has_chain(m, lph2, i) ==> m3[chain_key_bytes(lph2, i)]
        == m[chain_key_bytes(lph2, i)]) by {
        crate::layout::lemma_chain_key_parts(lph2, i);
        lemma_tag_distinct(chain_key_bytes(lph2, i), dk);
        lemma_tag_distinct(chain_key_bytes(lph2, i), ki);
        if chain_key_bytes(lph2, i) == ck_new {
            crate::layout::lemma_chain_key_injective(lph2, i, lph, tl);
        }
        if chain_key_bytes(lph2, i) == ck_old {
            crate::layout::lemma_chain_key_injective(lph2, i, lph, idx);
        }
    }
    // item matches away from idx and tl are unchanged
    assert forall|k: Seq<u8>, i: u64|
        i != idx && i != tl implies #[trigger] item_match(m3, k, lph, i) == item_match(
        m,
        k,
        lph,
        i,
    ) by {
        if k == ki {
            assert(link_of(nv) == tl && link_of(w) == idx);
        } else if is_item_row_of(k, lph) {
            crate::layout::lemma_item_row_of_parts(k, lph);
            lemma_tag_distinct(k, dk);
            lemma_tag_distinct(k, ck_new);
            lemma_tag_distinct(k, ck_old);
        }
    }
    lemma_item_resolution_transfer(m3, m, lph, idx, tl);
    // the moved item resolves uniquely at the old tail
    assert(item_match(m3, ki, lph, tl));
    assert forall|k: Seq<u8>| item_match(m3, k, lph, tl) implies k == ki by {
        if k != ki {
            crate::layout::lemma_item_row_of_parts(k, lph);
            lemma_tag_distinct(k, dk);
            lemma_tag_distinct(k, ck_new);
            lemma_tag_distinct(k, ck_old);
            assert(m.contains_key(k) && m[k] == m3[k]);
            assert(item_match(m, k, lph, tl));
            assert(is_item_row(k));
            assert(item_row_wf(m, k));
            let lphx = crate::hashing::ph_from_bytes(k.subrange(k.len() - 9, k.len() - 1));
            crate::layout::lemma_item_row_ph_unique(k, lphx, lph);
            assert(has_chain(m, lph, tl));
        }
    }
    assert(item_exists(m3, lph, tl) && item_unique(m3, lph, tl));
    assert(item_key_at(m3, lph, tl) == ki);
    // nothing at the old index anymore
    assert forall|k: Seq<u8>| !item_match(m3, k, lph, idx) by {
        if item_match(m3, k, lph, idx) {
            if k == ki {
                assert(link_of(nv) == tl);
                assert(tl != idx);
            } else {
                crate::layout::lemma_item_row_of_parts(k, lph);
                lemma_tag_distinct(k, dk);
                lemma_tag_distinct(k, ck_new);
                lemma_tag_distinct(k, ck_old);
                assert(item_match(m, k, lph, idx));
                assert(k == ki);
            }
        }
    }
    // frame hypotheses for other fingerprints
    assert forall|k: Seq<u8>|
        is_desc_row(k) && spec_hash(k) != lph implies (#[trigger] m3.contains_key(k)
        == m.contains_key(k) && (m.contains_key(k) ==> m3[k] == m[k])) by {
        assert(k != dk);
        lemma_tag_distinct(k, ck_new);
        lemma_tag_distinct(k, ck_old);
        lemma_tag_distinct(k, ki);
    }
    assert forall|k: Seq<u8>|
        is_item_row(k) && !is_item_row_of(k, lph) implies (#[trigger] m3.contains_key(k)
        == m.contains_key(k) && (m.contains_key(k) ==> m3[k] == m[k])) by {
        assert(is_item_row_of(ki, lph));
        assert(k != ki);
        lemma_tag_distinct(k, dk);
        lemma_tag_distinct(k, ck_new);
        lemma_tag_distinct(k, ck_old);
    }
    lemma_wf_frame_other(m, m3, lph);
    // the live sequences
    let rest = live_seq(m, lph, (idx + 1) as u64, tl);
    let old_live = live_seq(m, lph, d.head_idx, d.tail_idx);
    crate::model::lemma_live_seq_props(m, lph, d.head_idx, d.tail_idx);
    assert(old_live == seq![idx] + rest) by {
        crate::model::lemma_live_seq_split(m, lph, d.head_idx, idx, d.tail_idx);
        crate::model::lemma_live_seq_empty(m, lph, d.head_idx, idx);
        assert(old_live == live_seq(m, lph, idx, d.tail_idx));
    }
    let live3 = live_seq(m3, lph, d1.head_idx, d1.tail_idx);
    assert(live3 == rest + seq![tl]) by {
        crate::model::lemma_live_seq_split(m3, lph, (idx + 1) as u64, tl, (tl + 1) as u64);
        crate::model::lemma_live_seq_frame(m3, m, lph, (idx + 1) as u64, tl);
        crate::model::lemma_live_seq_singleton(m3, lph, tl);
    }
    crate::model::lemma_live_seq_props(m, lph, (idx + 1) as u64, tl);
    // descriptor rows of m3
    assert forall|k: Seq<u8>| m3.contains_key(k) && is_desc_row(k) implies desc_row_wf(m3, k) by {
        lemma_tag_distinct(k, ck_new);
        lemma_tag_distinct(k, ck_old);
        lemma_tag_distinct(k, ki);
        if k == dk {
            assert(list_from_bytes(m3[dk]) == d1);
            assert(d1.num_items == live3.len());
        } else {
            assert(spec_hash(k) != lph);
        }
    }
    // chain rows of m3
    assert forall|k: Seq<u8>| m3.contains_key(k) && is_chain_row(k) implies chain_row_wf(m3, k) by {
        lemma_tag_distinct(k, dk);
        lemma_tag_distinct(k, ki);
        if k == ck_new {
            assert(k == chain_key_bytes(lph, tl));
            assert(crate::hashing::ph_from_bytes(k.subrange(0, 8)) == lph);
            assert(vstd::bytes::spec_u64_from_le_bytes(k.subrange(8, 16)) == tl);
            assert(chain_resolves(m3, lph, tl)) by {
                assert(m3[ck_new] == crate::hashing::ph_to_bytes(spec_hash(item_key_at(
                    m3,
                    lph,
                    tl,
                ))));
            }
            assert(chain_in_span(m3, lph, tl)) by {
                assert(m3.contains_key(dk) && is_desc_row(dk) && spec_hash(dk) == lph
                    && m3[dk].len() == 24 && list_from_bytes(m3[dk]).head_idx <= tl
                    < list_from_bytes(m3[dk]).tail_idx);
            }
        } else {
            assert(k != ck_old);
            assert(m.contains_key(k) && m3[k] == m[k]);
            assert(chain_row_wf(m, k));
            let lph2 = crate::hashing::ph_from_bytes(k.subrange(0, 8));
            let i2 = vstd::bytes::spec_u64_from_le_bytes(k.subrange(8, 16));
            if lph2 == lph {
                assert(has_chain(m, lph, i2));
                assert(i2 != idx) by {
                    if i2 == idx {
                        assert(k == chain_key_bytes(lph2, i2));
                        assert(k == ck_old);
                    }
                }
                assert(i2 != tl);
                assert(chain_resolves(m, lph2, i2));
                assert(item_exists(m3, lph2, i2) && item_unique(m3, lph2, i2));
                assert(item_key_at(m3, lph2, i2) == item_key_at(m, lph2, i2));
                assert(chain_resolves(m3, lph2, i2));
                assert(chain_in_span(m3, lph2, i2)) by {
                    crate::model::lemma_wf_chain_desc(m, lk, i2);
                    assert(idx + 1 <= i2) by {
                        crate::model::lemma_live_seq_props(m, lph, d.head_idx, idx);
                    }
                    assert(m3.contains_key(dk) && is_desc_row(dk) && spec_hash(dk) == lph
                        && m3[dk].len() == 24 && list_from_bytes(m3[dk]).head_idx <= i2
                        < list_from_bytes(m3[dk]).tail_idx);
                }
            }
        }
    }
    // item rows of m3
    assert forall|k: Seq<u8>| m3.contains_key(k) && is_item_row(k) implies item_row_wf(m3, k) by {
        lemma_tag_distinct(k, dk);
        lemma_tag_distinct(k, ck_new);
        lemma_tag_distinct(k, ck_old);
        if k == ki {
            assert(m3[k] == nv && nv.len() >= 8 && link_of(nv) == tl);
            let lphx = crate::hashing::ph_from_bytes(k.subrange(k.len() - 9, k.len() - 1));
            crate::layout::lemma_item_row_ph_unique(k, lphx, lph);
            assert(has_chain(m3, lphx, link_of(m3[k])));
        } else {
            assert(m.contains_key(k) && m3[k] == m[k]);
            assert(item_row_wf(m, k));
            let lphx = crate::hashing::ph_from_bytes(k.subrange(k.len() - 9, k.len() - 1));
            assert(has_chain(m3, lphx, link_of(m3[k]))) by {
                if lphx == lph && link_of(m[k]) == idx {
                    assert(item_match(m, k, lph, idx));
                    assert(k == ki);
                } else {
                    if !(lphx == lph && link_of(m[k]) == tl) {
                        assert(has_chain(m3, lphx, link_of(m[k])) == has_chain(
                            m,
                            lphx,
                            link_of(m[k]),
                        ));
                    }
                }
            }
        }
    }
    assert(store_wf(m3));
    // the view rotates by one
    let vw0 = list_view(m, lk);
    assert(vw0 == entries_at(m, lph, old_live));
    assert(vw0[0] == entry_at(m, lph, idx));
    assert(entry_at(m3, lph, tl) == ((strip_item_suffix(ki), strip_link(nv))));
    assert(strip_link(nv) == strip_link(w));
    assert(entry_at(m3, lph, tl) == vw0[0]);
    assert forall|j: int| 0 <= j < rest.len() implies #[trigger] entry_at(m3, lph, rest[j])
        == entry_at(m, lph, rest[j]) by {
        assert(has_chain(m, lph, rest[j]));
        assert(rest[j] != idx && rest[j] != tl);
        crate::model::lemma_wf_chain(m, lph, rest[j]);
        let kj = item_key_at(m, lph, rest[j]);
        assert(item_match(m, kj, lph, rest[j]));
        assert(item_exists(m3, lph, rest[j]) && item_unique(m3, lph, rest[j]));
        assert(item_key_at(m3, lph, rest[j]) == kj);
        assert(kj != ki) by {
            if kj == ki {
                assert(link_of(m[ki]) == idx);
            }
        }
        crate::layout::lemma_item_row_of_parts(kj, lph);
        lemma_tag_distinct(kj, dk);
        lemma_tag_distinct(kj, ck_new);
        lemma_tag_distinct(kj, ck_old);
        assert(m3[kj] == m[kj]);
    }
    assert(list_view(m3, lk) =~= vw0.drop_first().push(vw0[0])) by {
        assert(list_view(m3, lk) == entries_at(m3, lph, live3));
        assert forall|z: int| 0 <= z < live3.len() implies #[trigger] entries_at(
            m3,
            lph,
            live3,
        )[z] == vw0.drop_first().push(vw0[0])[z] by {
            if z < rest.len() {
                assert(live3[z] == rest[z]);
                assert(old_live[z + 1] == rest[z]);
                assert(vw0[z + 1] == entry_at(m, lph, rest[z]));
            } else {
                assert(live3[z] == tl);
            }
        }
    }
    // point lookups are untouched: the moved row kept its user value
    assert forall|ik2: Seq<u8>| #[trigger] get_value_spec(m3, lk, ik2) == get_value_spec(
        m,
        lk,
        ik2,
    ) by {
        let isk2 = item_storage_key(lph, ik2);
        crate::layout::lemma_item_key_parts(lph, ik2);
        lemma_tag_distinct(isk2, dk);
        lemma_tag_distinct(isk2, ck_new);
        lemma_tag_distinct(isk2, ck_old);
        if isk2 == ki {
            assert(m3[isk2] == nv && nv.len() >= 8);
            assert(strip_link(nv) == strip_link(w));
        }
    }
}

/// Rotating a sequence one step: dropping the front and pushing it at the
/// back advances the rotation count.
pub proof fn lemma_rotate_step<A>(s: Seq<A>, k: int)
    requires
        0 <= k < s.len(),
    ensures
        (s.skip(k) + s.take(k)).drop_first().push(s.skip(k)[0]) == s.skip(k + 1) + s.take(k + 1),
        (s.skip(k) + s.take(k))[0] == s[k],
        (s.skip(k) + s.take(k)).len() == s.len(),
{
    assert((s.skip(k) + s.take(k)).drop_first().push(s.skip(k)[0]) =~= s.skip(k + 1) + s.take(
        k + 1,
    ));
}

/// A sequence rotated by its whole length is itself.
pub proof fn lemma_rotate_full<A>(s: Seq<A>)
    ensures
        s.skip(s.len() as int) + s.take(s.len() as int) == s,
{
    assert(s.skip(s.len() as int) + s.take(s.len() as int) =~= s);
}

/// The surviving subsequence of `s` under the mask `ds`.
pub open spec fn filter_by<A>(s: Seq<A>, ds: Seq<bool>) -> Seq<A>
    recommends
        s.len() == ds.len(),
    decreases s.len(),
{
    if s.len() == 0 {
        Seq::empty()
    } else {
        (if ds[0] {
            seq![s[0]]
        } else {
            Seq::empty()
        }) + filter_by(s.skip(1), ds.skip(1))
    }
}

/// Extending the mask by one decision appends (or not) the new element.
pub proof fn lemma_filter_by_snoc<A>(s: Seq<A>, ds: Seq<bool>, x: A, b: bool)
    requires
        s.len() == ds.len(),
    ensures
        filter_by(s.push(x), ds.push(b)) == if b {
            filter_by(s, ds).push(x)
        } else {
            filter_by(s, ds)
        },
    decreases s.len(),
{
    if s.len() == 0 {
        assert(s.push(x).skip(1) =~= Seq::<A>::empty());
        assert(ds.push(b).skip(1) =~= Seq::<bool>::empty());
        assert(ds.push(b)[0] == b && s.push(x)[0] == x);
        assert(filter_by(Seq::<A>::empty(), Seq::<bool>::empty()) == Seq::<A>::empty());
        assert(filter_by(s.push(x), ds.push(b)) == (if b {
            seq![x]
        } else {
            Seq::<A>::empty()
        }) + Seq::<A>::empty());
        assert(filter_by(s, ds) == Seq::<A>::empty());
        if b {
            assert(filter_by(s.push(x), ds.push(b)) =~= filter_by(s, ds).push(x));
        } else {
            assert(filter_by(s.push(x), ds.push(b)) =~= filter_by(s, ds));
        }
    } else {
        assert(s.push(x).skip(1) =~= s.skip(1).push(x));
        assert(ds.push(b).skip(1) =~= ds.skip(1).push(b));
        lemma_filter_by_snoc(s.skip(1), ds.skip(1), x, b);
        let hd = if ds[0] {
            seq![s[0]]
        } else {
            Seq::<A>::empty()
        };
        assert(s.push(x)[0] == s[0] && ds.push(b)[0] == ds[0]);
        assert(filter_by(s.push(x), ds.push(b)) == hd + filter_by(
            s.skip(1).push(x),
            ds.skip(1).push(b),
        ));
        assert(filter_by(s, ds) == hd + filter_by(s.skip(1), ds.skip(1)));
        if b {
            assert(hd + filter_by(s.skip(1), ds.skip(1)).push(x) =~= (hd + filter_by(
                s.skip(1),
                ds.skip(1),
            )).push(x));
        }
    }
}

/// The mask never keeps more than everything.
pub proof fn lemma_filter_by_len<A>(s: Seq<A>, ds: Seq<bool>)
    ensures
        filter_by(s, ds).len() <= s.len(),
    decreases s.len(),
{
    if s.len() > 0 {
        lemma_filter_by_len(s.skip(1), ds.skip(1));
    }
}

/// After a front migration, the already-migrated segment `[seg_lo,
/// old_tail)` gains exactly the old tail index.
#[verifier::rlimit(100)]
#[verifier::spinoff_prover]
pub proof fn lemma_migrate_seg(m1: RawRows, lk: Seq<u8>, idx: u64, seg_lo: u64)
    requires
        store_wf(m1),
        m1.contains_key(desc_key_bytes(lk)),
        has_chain(m1, list_ph_of(lk), idx),
        ({
            let d = list_from_bytes(m1[desc_key_bytes(lk)]);
            &&& d.tail_idx < u64::MAX
            &&& forall|i: u64|
                d.head_idx <= i < idx ==> !has_chain(m1, list_ph_of(lk), i)
            &&& idx < seg_lo <= d.tail_idx
        }),
    ensures
        ({
            let lph = list_ph_of(lk);
            let d = list_from_bytes(m1[desc_key_bytes(lk)]);
            let m3 = migrate_step(m1, lk, idx);
            live_seq(m3, lph, seg_lo, (d.tail_idx + 1) as u64) == live_seq(
                m1,
                lph,
                seg_lo,
                d.tail_idx,
            ) + seq![d.tail_idx]
        }),
{
    let lph = list_ph_of(lk);
    let dk = desc_key_bytes(lk);
    assert(is_desc_row(dk)) by {
        assert(dk.last() == LIST_NAMESPACE);
    }
    assert(desc_row_wf(m1, dk));
    let d = list_from_bytes(m1[dk]);
    let m3 = migrate_step(m1, lk, idx);
    crate::model::lemma_wf_chain(m1, lph, idx);
    let ki = item_key_at(m1, lph, idx);
    crate::layout::lemma_item_row_of_parts(ki, lph);
    let ckn = chain_key_bytes(lph, d.tail_idx);
    let cko = chain_key_bytes(lph, idx);
    crate::layout::lemma_chain_key_parts(lph, d.tail_idx);
    crate::layout::lemma_chain_key_parts(lph, idx);
    assert(ckn != cko) by {
        if ckn == cko {
            crate::layout::lemma_chain_key_injective(lph, d.tail_idx, lph, idx);
        }
    }
    assert(has_chain(m3, lph, d.tail_idx)) by {
        lemma_tag_distinct(ckn, ki);
    }
    assert forall|i: u64| seg_lo <= i < d.tail_idx implies #[trigger] has_chain(m3, lph, i)
        == has_chain(m1, lph, i) by {
        let cki = chain_key_bytes(lph, i);
        crate::layout::lemma_chain_key_parts(lph, i);
        lemma_tag_distinct(cki, dk);
        lemma_tag_distinct(cki, ki);
        if cki == ckn {
            crate::layout::lemma_chain_key_injective(lph, i, lph, d.tail_idx);
        }
        if cki == cko {
            crate::layout::lemma_chain_key_injective(lph, i, lph, idx);
        }
    }
    crate::model::lemma_live_seq_frame(m3, m1, lph, seg_lo, d.tail_idx);
    crate::model::lemma_live_seq_split(m3, lph, seg_lo, d.tail_idx, (d.tail_idx + 1) as u64);
    crate::model::lemma_live_seq_singleton(m3, lph, d.tail_idx);
}

/// A removal below the segment leaves the segment's chain rows alone.
#[verifier::rlimit(100)]
#[verifier::spinoff_prover]
pub proof fn lemma_remove_seg(m1: RawRows, lk: Seq<u8>, ik: Seq<u8>, seg_lo: u64, seg_hi: u64)
    requires
        store_wf(m1),
        m1.contains_key(desc_key_bytes(lk)),
        m1.contains_key(item_storage_key(list_ph_of(lk), ik)),
        m1[item_storage_key(list_ph_of(lk), ik)].len() >= 8,
        link_of(m1[item_storage_key(list_ph_of(lk), ik)]) < seg_lo,
    ensures
        live_seq(remove_step(m1, lk, ik), list_ph_of(lk), seg_lo, seg_hi) == live_seq(
            m1,
            list_ph_of(lk),
            seg_lo,
            seg_hi,
        ),
{
    let lph = list_ph_of(lk);
    let dk = desc_key_bytes(lk);
    let isk = item_storage_key(lph, ik);
    let idx = link_of(m1[isk]);
    let m3 = remove_step(m1, lk, ik);
    crate::layout::lemma_item_key_parts(lph, ik);
    let cko = chain_key_bytes(lph, idx);
    crate::layout::lemma_chain_key_parts(lph, idx);
    assert forall|i: u64| seg_lo <= i < seg_hi implies #[trigger] has_chain(m3, lph, i)
        == has_chain(m1, lph, i) by {
        let cki = chain_key_bytes(lph, i);
        crate::layout::lemma_chain_key_parts(lph, i);
        lemma_tag_distinct(cki, dk);
        lemma_tag_distinct(cki, isk);
        if cki == cko {
            crate::layout::lemma_chain_key_injective(lph, i, lph, idx);
        }
    }
    crate::model::lemma_live_seq_frame(m3, m1, lph, seg_lo, seg_hi);
}

/// What one kept element does to a retain pass in flight: the view
/// rotation extends the mask by `true`, and the kept segment at the tail
/// grows by one.
#[verifier::rlimit(100)]
#[verifier::spinoff_prover]
pub proof fn lemma_retain_keep_book(
    m1: RawRows,
    lk: Seq<u8>,
    idx: u64,
    tail0: u64,
    v0: Seq<(Seq<u8>, Seq<u8>)>,
    k: int,
    ds: Seq<bool>,
)
    requires
        store_wf(m1),
        m1.contains_key(desc_key_bytes(lk)),
        has_chain(m1, list_ph_of(lk), idx),
        ({
            let dc = list_from_bytes(m1[desc_key_bytes(lk)]);
            let kept = filter_by(v0.take(k), ds);
            &&& dc.tail_idx < u64::MAX
            &&& (forall|i: u64|
                dc.head_idx <= i < idx ==> !has_chain(m1, list_ph_of(lk), i))
            &&& idx < tail0
            &&& dc.tail_idx == tail0 + kept.len()
            &&& live_seq(m1, list_ph_of(lk), tail0, dc.tail_idx).len() == kept.len()
        }),
        ds.len() == k,
        0 <= k < v0.len(),
        list_view(m1, lk) == v0.skip(k) + filter_by(v0.take(k), ds),
    ensures
        ({
            let m3 = migrate_step(m1, lk, idx);
            let kept1 = filter_by(v0.take(k + 1), ds.push(true));
            &&& list_view(m3, lk) == v0.skip(k + 1) + kept1
            &&& (match desc_of(m3, lk) {
                Some(d1) => d1.tail_idx == tail0 + kept1.len() && live_seq(
                    m3,
                    list_ph_of(lk),
                    tail0,
                    d1.tail_idx,
                ).len() == kept1.len() && d1.head_idx <= tail0,
                None => false,
            })
        }),
{
    let lph = list_ph_of(lk);
    let dk = desc_key_bytes(lk);
    assert(is_desc_row(dk)) by {
        assert(dk.last() == LIST_NAMESPACE);
    }
    assert(desc_row_wf(m1, dk));
    let dc = list_from_bytes(m1[dk]);
    let kept = filter_by(v0.take(k), ds);
    lemma_wf_migrate_front(m1, lk, idx);
    lemma_migrate_seg(m1, lk, idx, tail0);
    let m3 = migrate_step(m1, lk, idx);
    let vwb = list_view(m1, lk);
    assert(vwb[0] == v0[k]) by {
        assert(v0.skip(k)[0] == v0[k]);
    }
    lemma_filter_by_snoc(v0.take(k), ds, v0[k], true);
    assert(v0.take(k + 1) =~= v0.take(k).push(v0[k]));
    assert(list_view(m3, lk) =~= v0.skip(k + 1) + filter_by(v0.take(k + 1), ds.push(true)));
    crate::layout::lemma_list_bytes_roundtrip(
        List {
            head_idx: (idx + 1) as u64,
            tail_idx: (dc.tail_idx + 1) as u64,
            num_items: dc.num_items,
        },
    );
    assert(filter_by(v0.take(k + 1), ds.push(true)).len() == kept.len() + 1);
}

/// What one dropped element does to a retain pass in flight: the view
/// rotation extends the mask by `false`, and the kept segment is
/// untouched (or the list empties).
#[verifier::rlimit(100)]
#[verifier::spinoff_prover]
pub proof fn lemma_retain_drop_book(
    m1: RawRows,
    lk: Seq<u8>,
    ik: Seq<u8>,
    tail0: u64,
    v0: Seq<(Seq<u8>, Seq<u8>)>,
    k: int,
    ds: Seq<bool>,
)
    requires
        store_wf(m1),
        m1.contains_key(desc_key_bytes(lk)),
        m1.contains_key(item_storage_key(list_ph_of(lk), ik)),
        ({
            let dc = list_from_bytes(m1[desc_key_bytes(lk)]);
            let kept = filter_by(v0.take(k), ds);
            let idx = link_of(m1[item_storage_key(list_ph_of(lk), ik)]);
            &&& m1[item_storage_key(list_ph_of(lk), ik)].len() >= 8
            &&& (forall|i: u64|
                dc.head_idx <= i < idx ==> !has_chain(m1, list_ph_of(lk), i))
            &&& has_chain(m1, list_ph_of(lk), idx)
            &&& idx < tail0
            &&& dc.tail_idx == tail0 + kept.len()
            &&& live_seq(m1, list_ph_of(lk), tail0, dc.tail_idx).len() == kept.len()
            &&& item_key_at(m1, list_ph_of(lk), idx) == item_storage_key(list_ph_of(lk), ik)
        }),
        ds.len() == k,
        0 <= k < v0.len(),
        list_view(m1, lk) == v0.skip(k) + filter_by(v0.take(k), ds),
    ensures
        ({
            let m3 = remove_step(m1, lk, ik);
            let kept1 = filter_by(v0.take(k + 1), ds.push(false));
            &&& list_view(m3, lk) == v0.skip(k + 1) + kept1
            &&& (list_view(m3, lk).len() > 0 ==> (match desc_of(m3, lk) {
                Some(d1) => d1.tail_idx == tail0 + kept1.len() && live_seq(
                    m3,
                    list_ph_of(lk),
                    tail0,
                    d1.tail_idx,
                ).len() == kept1.len() && d1.head_idx <= tail0,
                None => false,
            }))
        }),
{
    let lph = list_ph_of(lk);
    let dk = desc_key_bytes(lk);
    let isk = item_storage_key(lph, ik);
    assert(is_desc_row(dk)) by {
        assert(dk.last() == LIST_NAMESPACE);
    }
    assert(desc_row_wf(m1, dk));
    let dc = list_from_bytes(m1[dk]);
    let kept = filter_by(v0.take(k), ds);
    let idx = link_of(m1[isk]);
    crate::model::lemma_wf_chain_desc(m1, lk, idx);
    lemma_wf_remove_item(m1, lk, ik);
    lemma_pop_shape(m1, lk, idx, true);
    let m3 = remove_step(m1, lk, ik);
    let vwb = list_view(m1, lk);
    crate::layout::lemma_item_key_parts(lph, ik);
    assert(strip_item_suffix(isk) == ik);
    assert(vwb[0] == ((ik, strip_link(m1[isk]))));
    // the removed entry is the first one
    let j = choose|j: int|
        0 <= j < vwb.len() && #[trigger] vwb[j] == ((ik, strip_link(m1[isk]))) && list_view(
            m3,
            lk,
        ) == vwb.remove(j);
    assert(vwb[j].0 == ik);
    assert(j == 0);
    assert(list_view(m3, lk) == vwb.remove(0));
    assert(vwb.remove(0) =~= vwb.drop_first());
    lemma_filter_by_snoc(v0.take(k), ds, v0[k], false);
    assert(v0.take(k + 1) =~= v0.take(k).push(v0[k]));
    assert(list_view(m3, lk) =~= v0.skip(k + 1) + filter_by(v0.take(k + 1), ds.push(false)));
    let kept1 = filter_by(v0.take(k + 1), ds.push(false));
    assert(kept1 == kept);
    if list_view(m3, lk).len() > 0 {
        let d1 = remove_desc_step(dc, idx);
        crate::layout::lemma_list_bytes_roundtrip(d1);
        crate::layout::lemma_chain_key_parts(lph, idx);
        lemma_tag_distinct(dk, chain_key_bytes(lph, idx));
        lemma_tag_distinct(dk, isk);
        assert(kept.len() > 0 ==> idx + 1 < dc.tail_idx) by {
            if kept.len() > 0 && idx + 1 >= dc.tail_idx {
                crate::model::lemma_live_seq_props(m1, lph, tail0, dc.tail_idx);
                let seg = live_seq(m1, lph, tail0, dc.tail_idx);
                assert(seg.len() > 0);
                assert(tail0 <= seg[0] < dc.tail_idx);
            }
        }
        if kept.len() == 0 && idx + 1 == dc.tail_idx {
            // the dropped element was the only live one: the list emptied
            crate::model::lemma_live_seq_split(m1, lph, dc.head_idx, idx, dc.tail_idx);
            crate::model::lemma_live_seq_empty(m1, lph, dc.head_idx, idx);
            crate::model::lemma_live_seq_singleton(m1, lph, idx);
            assert(live_seq(m1, lph, dc.head_idx, dc.tail_idx).len() == 1);
            assert(vwb.len() == 1);
            assert(false);
        }
        assert(d1.tail_idx == dc.tail_idx);
        assert(d1.head_idx <= tail0);
        assert(d1.head_idx < d1.tail_idx) by {
            if d1.head_idx == d1.tail_idx {
                assert(dc.head_idx == idx && idx + 1 == dc.tail_idx);
            }
        }
        lemma_remove_seg(m1, lk, ik, tail0, dc.tail_idx);
        assert(desc_of(m3, lk) == Some(d1));
    }
}

/// A row outside the three list namespaces is inert: writing or removing
/// it preserves the invariant and every list's reading.
#[verifier::rlimit(100)]
#[verifier::spinoff_prover]
pub proof fn lemma_wf_inert_row(m: RawRows, k: Seq<u8>, v: Seq<u8>)
    requires
        store_wf(m),
        k.len() >= 1,
        k.last() != LIST_NAMESPACE,
        k.last() != ITEM_NAMESPACE,
        k.last() != CHAIN_NAMESPACE,
    ensures
        store_wf(m.insert(k, v)),
        store_wf(m.remove(k)),
        forall|lk2: Seq<u8>| #[trigger] list_view(m.insert(k, v), lk2) == list_view(m, lk2),
        forall|lk2: Seq<u8>| #[trigger] list_view(m.remove(k), lk2) == list_view(m, lk2),
        forall|lk2: Seq<u8>, ik2: Seq<u8>|
            #[trigger] get_value_spec(m.insert(k, v), lk2, ik2) == get_value_spec(m, lk2, ik2),
        forall|lk2: Seq<u8>, ik2: Seq<u8>|
            #[trigger] get_value_spec(m.remove(k), lk2, ik2) == get_value_spec(m, lk2, ik2),
        forall|lk2: Seq<u8>| #[trigger] desc_of(m.insert(k, v), lk2) == desc_of(m, lk2),
        forall|lk2: Seq<u8>| #[trigger] desc_of(m.remove(k), lk2) == desc_of(m, lk2),
        forall|lk2: Seq<u8>| #[trigger] ph_conflict(m.insert(k, v), lk2) == ph_conflict(m, lk2),
        forall|lk2: Seq<u8>| #[trigger] ph_conflict(m.remove(k), lk2) == ph_conflict(m, lk2),
{
    let m1 = m.insert(k, v);
    let m2 = m.remove(k);
    lemma_chains_stable(m, k, v);
    assert forall|kx: Seq<u8>|
        kx != k implies (#[trigger] m1.contains_key(kx) == m.contains_key(kx) && (m.contains_key(
        kx,
    ) ==> m1[kx] == m[kx]) && m2.contains_key(kx) == m.contains_key(kx) && (m.contains_key(kx)
        ==> m2[kx] == m[kx])) by {}
    assert forall|kx: Seq<u8>|
        (m1.contains_key(kx) || m2.contains_key(kx)) && (is_desc_row(kx) || is_chain_row(kx)
            || is_item_row(kx)) implies kx != k by {
        lemma_tag_distinct(kx, k);
    }
    assert forall|kx: Seq<u8>| m1.contains_key(kx) && is_desc_row(kx) implies desc_row_wf(
        m1,
        kx,
    ) by {
        lemma_tag_distinct(kx, k);
        assert(desc_row_wf(m, kx));
        let d = list_from_bytes(m[kx]);
        crate::model::lemma_live_seq_frame(m1, m, spec_hash(kx), d.head_idx, d.tail_idx);
    }
    assert forall|kx: Seq<u8>| m2.contains_key(kx) && is_desc_row(kx) implies desc_row_wf(
        m2,
        kx,
    ) by {
        lemma_tag_distinct(kx, k);
        assert(desc_row_wf(m, kx));
        let d = list_from_bytes(m[kx]);
        crate::model::lemma_live_seq_frame(m2, m, spec_hash(kx), d.head_idx, d.tail_idx);
    }
    assert forall|kx: Seq<u8>| m1.contains_key(kx) && is_chain_row(kx) implies chain_row_wf(
        m1,
        kx,
    ) by {
        lemma_tag_distinct(kx, k);
        assert(chain_row_wf(m, kx));
        let lph2 = crate::hashing::ph_from_bytes(kx.subrange(0, 8));
        let i2 = vstd::bytes::spec_u64_from_le_bytes(kx.subrange(8, 16));
        assert forall|ky: Seq<u8>|
            is_item_row_of(ky, lph2) implies (#[trigger] m.contains_key(ky) == m1.contains_key(ky)
            && (m.contains_key(ky) ==> m[ky] == m1[ky])) by {
            crate::layout::lemma_item_row_of_parts(ky, lph2);
            lemma_tag_distinct(ky, k);
        }
        crate::model::lemma_entry_frame(m, m1, lph2, i2);
        crate::model::lemma_chain_in_span_stable(m, lph2, i2, k, v);
    }
    assert forall|kx: Seq<u8>| m2.contains_key(kx) && is_chain_row(kx) implies chain_row_wf(
        m2,
        kx,
    ) by {
        lemma_tag_distinct(kx, k);
        assert(chain_row_wf(m, kx));
        let lph2 = crate::hashing::ph_from_bytes(kx.subrange(0, 8));
        let i2 = vstd::bytes::spec_u64_from_le_bytes(kx.subrange(8, 16));
        assert forall|ky: Seq<u8>|
            is_item_row_of(ky, lph2) implies (#[trigger] m.contains_key(ky) == m2.contains_key(ky)
            && (m.contains_key(ky) ==> m[ky] == m2[ky])) by {
            crate::layout::lemma_item_row_of_parts(ky, lph2);
            lemma_tag_distinct(ky, k);
        }
        crate::model::lemma_entry_frame(m, m2, lph2, i2);
        crate::model::lemma_chain_in_span_stable(m, lph2, i2, k, v);
    }
    assert forall|kx: Seq<u8>|
        (m1.contains_key(kx) && is_item_row(kx) ==> item_row_wf(m1, kx)) && (m2.contains_key(kx)
            && is_item_row(kx) ==> item_row_wf(m2, kx)) by {
        if (m1.contains_key(kx) || m2.contains_key(kx)) && is_item_row(kx) {
            lemma_tag_distinct(kx, k);
            assert(item_row_wf(m, kx));
            let lphx = crate::hashing::ph_from_bytes(kx.subrange(kx.len() - 9, kx.len() - 1));
            assert(has_chain(m1, lphx, link_of(m1[kx])) == has_chain(m, lphx, link_of(m[kx])));
            assert(has_chain(m2, lphx, link_of(m2[kx])) == has_chain(m, lphx, link_of(m[kx])));
        }
    }
    assert(store_wf(m1));
    assert(store_wf(m2));
    assert forall|lk2: Seq<u8>| #[trigger] list_view(m1, lk2) == list_view(m, lk2) by {
        assert(is_desc_row(desc_key_bytes(lk2))) by {
            assert(desc_key_bytes(lk2).last() == LIST_NAMESPACE);
        }
        lemma_tag_distinct(desc_key_bytes(lk2), k);
        assert forall|ky: Seq<u8>|
            is_item_row_of(ky, list_ph_of(lk2)) implies (#[trigger] m.contains_key(ky)
            == m1.contains_key(ky) && (m.contains_key(ky) ==> m[ky] == m1[ky])) by {
            crate::layout::lemma_item_row_of_parts(ky, list_ph_of(lk2));
            lemma_tag_distinct(ky, k);
        }
        crate::model::lemma_view_frame(m, m1, lk2);
    }
    assert forall|lk2: Seq<u8>| #[trigger] list_view(m2, lk2) == list_view(m, lk2) by {
        assert(is_desc_row(desc_key_bytes(lk2))) by {
            assert(desc_key_bytes(lk2).last() == LIST_NAMESPACE);
        }
        lemma_tag_distinct(desc_key_bytes(lk2), k);
        assert forall|ky: Seq<u8>|
            is_item_row_of(ky, list_ph_of(lk2)) implies (#[trigger] m.contains_key(ky)
            == m2.contains_key(ky) && (m.contains_key(ky) ==> m[ky] == m2[ky])) by {
            crate::layout::lemma_item_row_of_parts(ky, list_ph_of(lk2));
            lemma_tag_distinct(ky, k);
        }
        crate::model::lemma_view_frame(m, m2, lk2);
    }
    assert forall|lk2: Seq<u8>, ik2: Seq<u8>|
        #[trigger] get_value_spec(m1, lk2, ik2) == get_value_spec(m, lk2, ik2) by {
        let isk2 = item_storage_key(list_ph_of(lk2), ik2);
        crate::layout::lemma_item_key_parts(list_ph_of(lk2), ik2);
        lemma_tag_distinct(isk2, k);
    }
    assert forall|lk2: Seq<u8>, ik2: Seq<u8>|
        #[trigger] get_value_spec(m2, lk2, ik2) == get_value_spec(m, lk2, ik2) by {
        let isk2 = item_storage_key(list_ph_of(lk2), ik2);
        crate::layout::lemma_item_key_parts(list_ph_of(lk2), ik2);
        lemma_tag_distinct(isk2, k);
    }
    assert forall|lk2: Seq<u8>|
        #[trigger] desc_of(m1, lk2) == desc_of(m, lk2) && #[trigger] desc_of(m2, lk2) == desc_of(
            m,
            lk2,
        ) by {
        let dk2 = desc_key_bytes(lk2);
        assert(is_desc_row(dk2)) by {
            assert(dk2.last() == LIST_NAMESPACE);
        }
        lemma_tag_distinct(dk2, k);
    }
    assert forall|lk2: Seq<u8>|
        #[trigger] ph_conflict(m1, lk2) == ph_conflict(m, lk2) && #[trigger] ph_conflict(m2, lk2)
            == ph_conflict(m, lk2) by {
        assert forall|kd: Seq<u8>|
            is_desc_row(kd) && kd != desc_key_bytes(lk2) implies (#[trigger] m1.contains_key(kd)
            == m.contains_key(kd) && (m.contains_key(kd) ==> m1[kd] == m[kd])
            && m2.contains_key(kd) == m.contains_key(kd) && (m.contains_key(kd) ==> m2[kd]
            == m[kd])) by {
            lemma_tag_distinct(kd, k);
        }
        lemma_desc_frame(m, m1, lk2);
        lemma_desc_frame(m, m2, lk2);
    }
}

/// Store well-formedness after replacing an item row's value while keeping
/// its index suffix.
proof fn lemma_replace_value_wf(m: RawRows, lk: Seq<u8>, ik: Seq<u8>, v: Seq<u8>)
    requires
        store_wf(m),
        m.contains_key(item_storage_key(list_ph_of(lk), ik)),
    ensures
        ({
            let isk = item_storage_key(list_ph_of(lk), ik);
            let w = m[isk];
            &&& w.len() >= 8
            &&& store_wf(m.insert(isk, v + w.subrange(w.len() - 8, w.len() as int)))
        }),
{
    let lph = list_ph_of(lk);
    let isk = item_storage_key(lph, ik);
    crate::layout::lemma_item_key_parts(lph, ik);
    assert(is_item_row(isk));
    assert(item_row_wf(m, isk));
    let w = m[isk];
    let sfx = w.subrange(w.len() - 8, w.len() as int);
    let nv = v + sfx;
    let m1 = m.insert(isk, nv);
    let idx = link_of(w);
    assert(link_of(nv) == idx && nv.len() >= 8) by {
        assert(nv.subrange(nv.len() - 8, nv.len() as int) =~= sfx);
    }
    lemma_chains_stable(m, isk, nv);
    assert forall|k: Seq<u8>|
        is_item_row_of(k, lph) implies (#[trigger] m1.contains_key(k) == m.contains_key(k) && (
    m1.contains_key(k) ==> ((m1[k].len() >= 8) == (m[k].len() >= 8)) && (m1[k].len() >= 8
        ==> link_of(m1[k]) == link_of(m[k])))) by {}
    lemma_item_resolution_frame(m1, m, lph);
    lemma_wf_frame_other(m, m1, lph);
    // descriptor rows: none changed, chain lookups unchanged
    assert forall|k: Seq<u8>| m1.contains_key(k) && is_desc_row(k) implies desc_row_wf(m1, k) by {
        lemma_tag_distinct(k, isk);
        assert(m.contains_key(k) && m1[k] == m[k]);
        assert(desc_row_wf(m, k));
        let d = list_from_bytes(m[k]);
        crate::model::lemma_live_seq_frame(m1, m, spec_hash(k), d.head_idx, d.tail_idx);
    }
    // chain rows of `lph`: resolution and span carry over
    assert forall|k: Seq<u8>| m1.contains_key(k) && is_chain_row(k) implies chain_row_wf(m1, k) by {
        lemma_tag_distinct(k, isk);
        assert(m.contains_key(k) && m1[k] == m[k]);
        assert(chain_row_wf(m, k));
        let lph2 = crate::hashing::ph_from_bytes(k.subrange(0, 8));
        let idx2 = vstd::bytes::spec_u64_from_le_bytes(k.subrange(8, 16));
        if lph2 == lph {
            assert(chain_resolves(m, lph2, idx2));
            assert(item_exists(m1, lph2, idx2) && item_unique(m1, lph2, idx2));
            assert(item_key_at(m1, lph2, idx2) == item_key_at(m, lph2, idx2));
            crate::model::lemma_chain_in_span_stable(m, lph2, idx2, isk, nv);
        }
    }
    // item rows: the rewritten row keeps its link; others are unchanged
    assert forall|k: Seq<u8>| m1.contains_key(k) && is_item_row(k) implies item_row_wf(m1, k) by {
        if k == isk {
            let lphx = crate::hashing::ph_from_bytes(k.subrange(k.len() - 9, k.len() - 1));
            assert(item_row_wf(m, k));
            assert(has_chain(m1, lphx, link_of(m1[k])));
        } else {
            assert(m.contains_key(k) && m1[k] == m[k]);
            assert(item_row_wf(m, k));
            let lphx = crate::hashing::ph_from_bytes(k.subrange(k.len() - 9, k.len() - 1));
            assert(has_chain(m1, lphx, link_of(m1[k])));
        }
    }
    assert(store_wf(m1));
}

/// Replacing the value of an existing item row, keeping its 8-byte index
/// suffix, preserves the invariant; the list keeps its length and order
/// and only that item's value changes.
#[verifier::rlimit(60)]
#[verifier::spinoff_prover]
pub proof fn lemma_wf_replace_value(m: RawRows, lk: Seq<u8>, ik: Seq<u8>, v: Seq<u8>)
    requires
        store_wf(m),
        m.contains_key(item_storage_key(list_ph_of(lk), ik)),
    ensures
        ({
            let lph = list_ph_of(lk);
            let isk = item_storage_key(lph, ik);
            let w = m[isk];
            let nv = v + w.subrange(w.len() - 8, w.len() as int);
            let m1 = m.insert(isk, nv);
            &&& w.len() >= 8
            &&& store_wf(m1)
            &&& get_value_spec(m1, lk, ik) == Some(v)
            &&& desc_of(m1, lk) == desc_of(m, lk)
            &&& list_view(m1, lk).len() == list_view(m, lk).len()
            &&& forall|j: int|
                0 <= j < list_view(m, lk).len() ==> #[trigger] list_view(m1, lk)[j].0 == list_view(
                    m,
                    lk,
                )[j].0
            &&& forall|j: int|
                0 <= j < list_view(m, lk).len() && list_view(m, lk)[j].0 != ik
                    ==> #[trigger] list_view(m1, lk)[j] == list_view(m, lk)[j]
            &&& forall|j: int|
                0 <= j < list_view(m, lk).len() && #[trigger] list_view(m, lk)[j].0 == ik
                    ==> list_view(m1, lk)[j].1 == v
            &&& forall|lk2: Seq<u8>|
                list_ph_of(lk2) != lph ==> #[trigger] list_view(m1, lk2) == list_view(m, lk2)
            &&& forall|lk2: Seq<u8>, ik2: Seq<u8>|
                list_ph_of(lk2) != lph ==> #[trigger] get_value_spec(m1, lk2, ik2)
                    == get_value_spec(m, lk2, ik2)
        }),
{
    let lph = list_ph_of(lk);
    let isk = item_storage_key(lph, ik);
    crate::layout::lemma_item_key_parts(lph, ik);
    assert(is_item_row(isk));
    assert(item_row_wf(m, isk));
    let w = m[isk];
    let sfx = w.subrange(w.len() - 8, w.len() as int);
    let nv = v + sfx;
    let m1 = m.insert(isk, nv);
    let idx = link_of(w);
    assert(link_of(nv) == idx && strip_link(nv) == v) by {
        assert(nv.subrange(nv.len() - 8, nv.len() as int) =~= sfx);
        assert(strip_link(nv) =~= v);
    }
    lemma_replace_value_wf(m, lk, ik, v);
    lemma_chains_stable(m, isk, nv);
    assert forall|k: Seq<u8>|
        is_item_row_of(k, lph) implies (#[trigger] m1.contains_key(k) == m.contains_key(k) && (
    m1.contains_key(k) ==> ((m1[k].len() >= 8) == (m[k].len() >= 8)) && (m1[k].len() >= 8
        ==> link_of(m1[k]) == link_of(m[k])))) by {}
    lemma_item_resolution_frame(m1, m, lph);
    lemma_wf_frame_other(m, m1, lph);
    assert(desc_of(m1, lk) == desc_of(m, lk)) by {
        lemma_tag_distinct(desc_key_bytes(lk), isk);
    }
    match desc_of(m, lk) {
        Option::None => {},
        Option::Some(d) => {
            crate::model::lemma_live_seq_frame(m1, m, lph, d.head_idx, d.tail_idx);
            let idxs = live_seq(m, lph, d.head_idx, d.tail_idx);
            crate::model::lemma_live_seq_props(m, lph, d.head_idx, d.tail_idx);
            assert(list_view(m, lk) == entries_at(m, lph, idxs));
            assert(list_view(m1, lk) == entries_at(m1, lph, idxs));
            assert forall|j: int| 0 <= j < idxs.len() implies {
                &&& #[trigger] entry_at(m1, lph, idxs[j]).0 == entry_at(m, lph, idxs[j]).0
                &&& (entry_at(m, lph, idxs[j]).0 != ik ==> entry_at(m1, lph, idxs[j]) == entry_at(
                    m,
                    lph,
                    idxs[j],
                ))
                &&& (entry_at(m, lph, idxs[j]).0 == ik ==> entry_at(m1, lph, idxs[j]).1 == v)
            } by {
                crate::model::lemma_wf_chain(m, lph, idxs[j]);
                let kj = item_key_at(m, lph, idxs[j]);
                assert(item_match(m, kj, lph, idxs[j]));
                assert(item_key_at(m1, lph, idxs[j]) == kj);
                crate::layout::lemma_item_row_of_parts(kj, lph);
                if kj == isk {
                    assert(idxs[j] == idx);
                    assert(entry_at(m, lph, idxs[j]).0 == ik);
                    assert(entry_at(m1, lph, idxs[j]).1 == strip_link(nv));
                } else {
                    assert(m1[kj] == m[kj]);
                    assert(entry_at(m1, lph, idxs[j]) == entry_at(m, lph, idxs[j]));
                    if entry_at(m, lph, idxs[j]).0 == ik {
                        assert(kj == item_storage_key(lph, strip_item_suffix(kj)));
                        assert(kj == isk);
                    }
                }
            }
            assert forall|j: int|
                0 <= j < list_view(m, lk).len() && list_view(m, lk)[j].0 != ik implies #[trigger] list_view(
                m1,
                lk,
            )[j] == list_view(m, lk)[j] by {
                assert(list_view(m, lk)[j] == entry_at(m, lph, idxs[j]));
                assert(list_view(m1, lk)[j] == entry_at(m1, lph, idxs[j]));
            }
            assert forall|j: int|
                0 <= j < list_view(m, lk).len() && #[trigger] list_view(m, lk)[j].0
                    == ik implies list_view(m1, lk)[j].1 == v by {
                assert(list_view(m, lk)[j] == entry_at(m, lph, idxs[j]));
                assert(list_view(m1, lk)[j] == entry_at(m1, lph, idxs[j]));
                crate::model::lemma_wf_chain(m, lph, idxs[j]);
                let kj = item_key_at(m, lph, idxs[j]);
                assert(item_match(m, kj, lph, idxs[j]));
                assert(item_key_at(m1, lph, idxs[j]) == kj);
                crate::layout::lemma_item_row_of_parts(kj, lph);
                assert(kj == item_storage_key(lph, strip_item_suffix(kj)));
                assert(kj == isk);
                assert(entry_at(m1, lph, idxs[j]).1 == strip_link(nv));
            }
        },
    }
}

} // verus!

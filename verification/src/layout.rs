//! Bit-exact row layouts.  Three kinds of rows share the flat key-value
//! substrate, told apart by a trailing single-byte namespace tag:
//!
//! - descriptor row: key = `list_key ‖ LIST_NAMESPACE`, value = the 24-byte
//!   descriptor record (`head_idx ‖ tail_idx ‖ num_items`, little-endian);
//! - item row: key = `item_key ‖ list fingerprint (8 B) ‖ ITEM_NAMESPACE`,
//!   value = user value `‖` the item's 8-byte little-endian index;
//! - chain row: key = `list fingerprint (8 B) ‖ idx (8 B) ‖ CHAIN_NAMESPACE`
//!   (17 B), value = the item row key's 8-byte fingerprint.
use crate::hashing::{ph_bytes, ph_from_bytes, ph_to_bytes, PartedHash};
use crate::{CHAIN_NAMESPACE, ITEM_NAMESPACE, LIST_NAMESPACE};
use vstd::bytes::{
    lemma_auto_spec_u64_to_from_le_bytes, spec_u64_from_le_bytes, spec_u64_to_le_bytes,
    u64_from_le_bytes, u64_to_le_bytes,
};
use vstd::prelude::*;

verus! {

/// The descriptor record of one list: the span `[head_idx, tail_idx)` of
/// chain indices it may occupy, and the number of live items inside it.
#[derive(Clone, Copy, Debug, PartialEq, Eq, Structural)]
pub struct List {
    pub head_idx: u64,
    pub tail_idx: u64,
    pub num_items: u64,
}

impl List {
    /// The width of the span, holes included.
    pub open spec fn spec_span_len(self) -> int {
        self.tail_idx - self.head_idx
    }

    /// The number of indices in the span with no live item.
    pub open spec fn spec_holes(self) -> int {
        self.spec_span_len() - self.num_items
    }

    pub fn span_len(&self) -> (r: u64)
        requires
            self.head_idx <= self.tail_idx,
        ensures
            r == self.spec_span_len(),
    {
        self.tail_idx - self.head_idx
    }

    pub fn holes(&self) -> (r: u64)
        requires
            self.head_idx <= self.tail_idx,
            self.num_items <= self.spec_span_len(),
        ensures
            r == self.spec_holes(),
    {
        self.span_len() - self.num_items
    }

    pub fn is_empty(&self) -> (r: bool)
        ensures
            r == (self.head_idx == self.tail_idx),
    {
        self.head_idx == self.tail_idx
    }
}

/// The 24-byte layout of a descriptor record.
pub open spec fn list_to_bytes(l: List) -> Seq<u8> {
    spec_u64_to_le_bytes(l.head_idx) + spec_u64_to_le_bytes(l.tail_idx) + spec_u64_to_le_bytes(
        l.num_items,
    )
}

/// Reads a descriptor record back from its 24-byte layout.
pub open spec fn list_from_bytes(s: Seq<u8>) -> List
    recommends
        s.len() == 24,
{
    List {
        head_idx: spec_u64_from_le_bytes(s.subrange(0, 8)),
        tail_idx: spec_u64_from_le_bytes(s.subrange(8, 16)),
        num_items: spec_u64_from_le_bytes(s.subrange(16, 24)),
    }
}

pub proof fn lemma_list_bytes_roundtrip(l: List)
    ensures
        list_to_bytes(l).len() == 24,
        list_from_bytes(list_to_bytes(l)) == l,
{
    lemma_auto_spec_u64_to_from_le_bytes();
    assert(list_to_bytes(l).subrange(0, 8) =~= spec_u64_to_le_bytes(l.head_idx));
    assert(list_to_bytes(l).subrange(8, 16) =~= spec_u64_to_le_bytes(l.tail_idx));
    assert(list_to_bytes(l).subrange(16, 24) =~= spec_u64_to_le_bytes(l.num_items));
}

pub fn encode_list(l: &List) -> (r: Vec<u8>)
    ensures
        r@ == list_to_bytes(*l),
        r@.len() == 24,
{
    proof {
        lemma_list_bytes_roundtrip(*l);
    }
    let mut r = u64_to_le_bytes(l.head_idx);
    let mut t = u64_to_le_bytes(l.tail_idx);
    let mut n = u64_to_le_bytes(l.num_items);
    r.append(&mut t);
    r.append(&mut n);
    r
}

pub fn decode_list(b: &[u8]) -> (r: List)
    requires
        b@.len() == 24,
    ensures
        r == list_from_bytes(b@),
{
    let head_idx = u64_from_le_bytes(vstd::slice::slice_subrange(b, 0, 8));
    let tail_idx = u64_from_le_bytes(vstd::slice::slice_subrange(b, 8, 16));
    let num_items = u64_from_le_bytes(vstd::slice::slice_subrange(b, 16, 24));
    List { head_idx, tail_idx, num_items }
}

/// The storage key of a list's descriptor row.
pub open spec fn desc_key_bytes(lk: Seq<u8>) -> Seq<u8> {
    lk + seq![LIST_NAMESPACE]
}

/// The fingerprint of a list: the hash of its descriptor row key.
pub open spec fn list_ph_of(lk: Seq<u8>) -> PartedHash {
    crate::hashing::spec_hash(desc_key_bytes(lk))
}

/// The storage key of an item row: the user item key, then the owning
/// list's fingerprint, then the item tag.
pub open spec fn item_storage_key(lph: PartedHash, ik: Seq<u8>) -> Seq<u8> {
    ik + ph_to_bytes(lph) + seq![ITEM_NAMESPACE]
}

/// The 17-byte storage key of a chain row.
pub open spec fn chain_key_bytes(lph: PartedHash, idx: u64) -> Seq<u8> {
    ph_to_bytes(lph) + spec_u64_to_le_bytes(idx) + seq![CHAIN_NAMESPACE]
}

/// Builds a descriptor row key.
pub fn make_desc_key(lk: &[u8]) -> (r: Vec<u8>)
    ensures
        r@ == desc_key_bytes(lk@),
{
    let mut r: Vec<u8> = slice_to_vec_u8(lk);
    r.push(LIST_NAMESPACE);
    proof {
        assert(r@ =~= desc_key_bytes(lk@));
    }
    r
}

/// Builds an item row key.
pub fn make_item_key(lph: &PartedHash, ik: &[u8]) -> (r: Vec<u8>)
    ensures
        r@ == item_storage_key(*lph, ik@),
{
    let mut r: Vec<u8> = slice_to_vec_u8(ik);
    let mut phb = ph_bytes(lph);
    r.append(&mut phb);
    r.push(ITEM_NAMESPACE);
    proof {
        assert(r@ =~= item_storage_key(*lph, ik@));
    }
    r
}

/// Builds a chain row key.
pub fn make_chain_key(lph: &PartedHash, idx: u64) -> (r: Vec<u8>)
    ensures
        r@ == chain_key_bytes(*lph, idx),
        r@.len() == 17,
{
    let mut r = ph_bytes(lph);
    let mut ib = u64_to_le_bytes(idx);
    r.append(&mut ib);
    r.push(CHAIN_NAMESPACE);
    proof {
        lemma_auto_spec_u64_to_from_le_bytes();
        assert(r@ =~= chain_key_bytes(*lph, idx));
    }
    r
}

/// Copies a byte slice into an owned vector.
pub fn slice_to_vec_u8(s: &[u8]) -> (r: Vec<u8>)
    ensures
        r@ == s@,
{
    let mut r: Vec<u8> = Vec::new();
    let mut i: usize = 0;
    while i < s.len()
        invariant
            0 <= i <= s@.len(),
            r@ =~= s@.take(i as int),
        decreases s@.len() - i,
    {
        r.push(s[i]);
        i = i + 1;
    }
    proof {
        assert(s@.take(s@.len() as int) =~= s@);
    }
    r
}

/// Distinct lists have distinct descriptor keys.
pub proof fn lemma_desc_key_injective(a: Seq<u8>, b: Seq<u8>)
    requires
        desc_key_bytes(a) == desc_key_bytes(b),
    ensures
        a == b,
{
    assert(a =~= desc_key_bytes(a).take(desc_key_bytes(a).len() - 1));
    assert(b =~= desc_key_bytes(b).take(desc_key_bytes(b).len() - 1));
}

/// A chain key determines the list fingerprint and the index it names.
pub proof fn lemma_chain_key_parts(lph: PartedHash, idx: u64)
    ensures
        chain_key_bytes(lph, idx).len() == 17,
        chain_key_bytes(lph, idx).subrange(0, 8) == ph_to_bytes(lph),
        chain_key_bytes(lph, idx).subrange(8, 16) == spec_u64_to_le_bytes(idx),
        chain_key_bytes(lph, idx).last() == CHAIN_NAMESPACE,
{
    crate::hashing::lemma_ph_bytes_len(lph);
    lemma_auto_spec_u64_to_from_le_bytes();
    let k = chain_key_bytes(lph, idx);
    assert(k.subrange(0, 8) =~= ph_to_bytes(lph));
    assert(k.subrange(8, 16) =~= spec_u64_to_le_bytes(idx));
}

pub proof fn lemma_chain_key_injective(l1: PartedHash, i1: u64, l2: PartedHash, i2: u64)
    requires
        chain_key_bytes(l1, i1) == chain_key_bytes(l2, i2),
    ensures
        l1 == l2,
        i1 == i2,
{
    lemma_chain_key_parts(l1, i1);
    lemma_chain_key_parts(l2, i2);
    crate::hashing::lemma_ph_bytes_roundtrip(l1);
    crate::hashing::lemma_ph_bytes_roundtrip(l2);
    lemma_auto_spec_u64_to_from_le_bytes();
    assert(ph_from_bytes(ph_to_bytes(l1)) == ph_from_bytes(ph_to_bytes(l2)));
    assert(spec_u64_from_le_bytes(spec_u64_to_le_bytes(i1)) == spec_u64_from_le_bytes(
        spec_u64_to_le_bytes(i2),
    ));
}

/// Whether `k` has the shape of an item row key of the list with
/// fingerprint `lph`.
pub open spec fn is_item_row_of(k: Seq<u8>, lph: PartedHash) -> bool {
    k.len() >= 9 && k.subrange(k.len() - 9, k.len() as int) == ph_to_bytes(lph) + seq![
        ITEM_NAMESPACE,
    ]
}

/// The user item key carried by an item row key.
pub open spec fn strip_item_suffix(k: Seq<u8>) -> Seq<u8>
    recommends
        k.len() >= 9,
{
    k.take(k.len() - 9)
}

/// The index carried by an item row value.
pub open spec fn link_of(v: Seq<u8>) -> u64
    recommends
        v.len() >= 8,
{
    spec_u64_from_le_bytes(v.subrange(v.len() - 8, v.len() as int))
}

/// The user value carried by an item row value.
pub open spec fn strip_link(v: Seq<u8>) -> Seq<u8>
    recommends
        v.len() >= 8,
{
    v.take(v.len() - 8)
}

/// An item storage key decomposes back into its parts.
pub proof fn lemma_item_key_parts(lph: PartedHash, ik: Seq<u8>)
    ensures
        item_storage_key(lph, ik).len() == ik.len() + 9,
        is_item_row_of(item_storage_key(lph, ik), lph),
        strip_item_suffix(item_storage_key(lph, ik)) == ik,
        item_storage_key(lph, ik).last() == ITEM_NAMESPACE,
{
    crate::hashing::lemma_ph_bytes_len(lph);
    let k = item_storage_key(lph, ik);
    assert(k.subrange(k.len() - 9, k.len() as int) =~= ph_to_bytes(lph) + seq![ITEM_NAMESPACE]);
    assert(strip_item_suffix(k) =~= ik);
}

/// Two item row keys of the same list with the same user key are equal, and
/// an item row key pins down its list's fingerprint.
pub proof fn lemma_item_row_of_parts(k: Seq<u8>, lph: PartedHash)
    requires
        is_item_row_of(k, lph),
    ensures
        k == item_storage_key(lph, strip_item_suffix(k)),
        k.last() == ITEM_NAMESPACE,
{
    crate::hashing::lemma_ph_bytes_len(lph);
    let s = k.subrange(k.len() - 9, k.len() as int);
    let w = strip_item_suffix(k) + ph_to_bytes(lph) + seq![ITEM_NAMESPACE];
    assert(s == ph_to_bytes(lph) + seq![ITEM_NAMESPACE]);
    assert forall|i: int| 0 <= i < k.len() implies k[i] == w[i] by {
        if i < k.len() - 9 {
            assert(w[i] == strip_item_suffix(k)[i]);
            assert(strip_item_suffix(k)[i] == k[i]);
        } else {
            assert(w[i] == s[i - (k.len() - 9)]);
            assert(s[i - (k.len() - 9)] == k[i]);
        }
    }
    assert(k =~= w);
    assert(k.last() == s[8]);
}

/// A key cannot be an item row key of two different lists.
pub proof fn lemma_item_row_ph_unique(k: Seq<u8>, l1: PartedHash, l2: PartedHash)
    requires
        is_item_row_of(k, l1),
        is_item_row_of(k, l2),
    ensures
        l1 == l2,
{
    crate::hashing::lemma_ph_bytes_len(l1);
    crate::hashing::lemma_ph_bytes_len(l2);
    let s = k.subrange(k.len() - 9, k.len() as int);
    assert(ph_to_bytes(l1) =~= s.take(8));
    assert(ph_to_bytes(l2) =~= s.take(8));
    crate::hashing::lemma_ph_bytes_roundtrip(l1);
    crate::hashing::lemma_ph_bytes_roundtrip(l2);
}

/// The item storage key builder is injective in the user key.
pub proof fn lemma_item_key_injective(lph: PartedHash, a: Seq<u8>, b: Seq<u8>)
    requires
        item_storage_key(lph, a) == item_storage_key(lph, b),
    ensures
        a == b,
{
    lemma_item_key_parts(lph, a);
    lemma_item_key_parts(lph, b);
}

/// Appending a suffix then stripping it gives the value back.
pub proof fn lemma_value_link_roundtrip(v: Seq<u8>, idx: u64)
    ensures
        (v + spec_u64_to_le_bytes(idx)).len() == v.len() + 8,
        strip_link(v + spec_u64_to_le_bytes(idx)) == v,
        link_of(v + spec_u64_to_le_bytes(idx)) == idx,
{
    lemma_auto_spec_u64_to_from_le_bytes();
    let w = v + spec_u64_to_le_bytes(idx);
    assert(strip_link(w) =~= v);
    assert(w.subrange(w.len() - 8, w.len() as int) =~= spec_u64_to_le_bytes(idx));
}

} // verus!

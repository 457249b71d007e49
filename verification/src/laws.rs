//! Laws that relate several operations of the store, proved over the
//! transition relations their contracts state.

use vstd::prelude::*;

use crate::gc::gc_post;
use crate::store::BlockStore;
use crate::write::add_block_post;

verus! {

/// Every reference row's two endpoints are interned ids.
pub proof fn lemma_refs_integrity(s: BlockStore)
    requires
        s.inv(),
    ensures
        forall|p: u64, c: u64| #[trigger] s.has_edge(p, c) ==> s.has_id(p) && s.has_id(c),
{
    assert forall|p: u64, c: u64| #[trigger] s.has_edge(p, c) implies s.has_id(p) && s.has_id(
        c,
    ) by {
        let e = choose|e: int|
            0 <= e < s.refs@.len() && (#[trigger] s.refs@[e]).parent_id == p && s.refs@[e].child_id
                == c;
    }
}

/// Every payload row's id is interned.
pub proof fn lemma_blocks_integrity(s: BlockStore)
    requires
        s.inv(),
    ensures
        forall|i: u64| #[trigger] s.has_payload(i) ==> s.has_id(i),
{
    assert forall|i: u64| #[trigger] s.has_payload(i) implies s.has_id(i) by {
        let k = choose|k: int| 0 <= k < s.blocks@.len() && (#[trigger] s.blocks@[k]).block_id == i;
    }
}

/// Every alias target and every pinned temp-alias target is an interned id.
pub proof fn lemma_pins_integrity(s: BlockStore)
    requires
        s.inv(),
    ensures
        forall|n: Seq<u8>, i: u64| #[trigger] s.alias_maps(n, i) ==> s.has_id(i),
        forall|a: u64, i: u64| #[trigger] s.temp_has(a, Some(i)) ==> s.has_id(i),
{
    assert forall|n: Seq<u8>, i: u64| #[trigger] s.alias_maps(n, i) implies s.has_id(i) by {
        let k = choose|k: int|
            0 <= k < s.aliases@.len() && (#[trigger] s.aliases@[k]).name@ == n
                && s.aliases@[k].block_id == i;
    }
    assert forall|a: u64, i: u64| #[trigger] s.temp_has(a, Some(i)) implies s.has_id(i) by {
        let k = choose|k: int|
            0 <= k < s.temp_aliases@.len() && (#[trigger] s.temp_aliases@[k]).alias == a
                && s.temp_aliases@[k].block_id == Some(i);
    }
}

/// `add_block` is idempotent: a second call with the same CID, payload,
/// links and pin leaves the store exactly as the first call left it.
pub proof fn lemma_add_block_idempotent(
    s0: BlockStore,
    s1: BlockStore,
    s2: BlockStore,
    cid: Seq<u8>,
    data: Seq<u8>,
    links: Seq<Seq<u8>>,
    pin: Option<u64>,
)
    requires
        add_block_post(s0, s1, cid, data, links, pin),
        add_block_post(s1, s2, cid, data, links, pin),
    ensures
        s2.state_eq(s1),
{
    assert(s1.payload_present_for(cid));
    assert(s2.cids@ == s1.cids@ && s2.refs@ == s1.refs@ && s2.blocks@ == s1.blocks@ && s2.next_id
        == s1.next_id && s2.aliases@ == s1.aliases@);
    match pin {
        None => {
            assert(s2.temp_aliases@ == s1.temp_aliases@);
        },
        Some(a) => {
            let i1 = s1.id_of(cid);
            assert(s2.id_of(cid) == i1);
            assert(s1.temp_has(a, Some(i1))) by {
                if s0.temp_has(a, Some(s1.id_of(cid))) {
                    assert(s1.temp_aliases@ == s0.temp_aliases@);
                } else {
                    let n0 = s0.temp_aliases@.len() as int;
                    assert(s1.temp_aliases@[n0].alias == a && s1.temp_aliases@[n0].block_id
                        == Some(i1));
                }
            }
            assert(s2.temp_aliases@ == s1.temp_aliases@);
        },
    }
}

/// Releasing a freshly created temp alias under which all intervening work
/// was pinned restores the temp-alias table: every row with that alias id is
/// gone and no other row is touched.
pub proof fn lemma_temp_alias_roundtrip(s0: BlockStore, s1: BlockStore, s2: BlockStore, a: u64)
    requires
        !s0.temp_alias_used(a),
        forall|a2: u64, b: Option<u64>|
            a2 != a ==> (#[trigger] s1.temp_has(a2, b) <==> s0.temp_has(a2, b)),
        forall|a2: u64, b: Option<u64>|
            #[trigger] s2.temp_has(a2, b) <==> s1.temp_has(a2, b) && a2 != a,
    ensures
        forall|a2: u64, b: Option<u64>| #[trigger] s2.temp_has(a2, b) <==> s0.temp_has(a2, b),
{
    assert forall|a2: u64, b: Option<u64>| #[trigger] s2.temp_has(a2, b) <==> s0.temp_has(
        a2,
        b,
    ) by {
        if a2 == a {
            assert(!s2.temp_has(a2, b));
            if s0.temp_has(a, b) {
                let k = choose|k: int|
                    0 <= k < s0.temp_aliases@.len() && (#[trigger] s0.temp_aliases@[k]).alias == a
                        && s0.temp_aliases@[k].block_id == b;
                assert(s0.temp_alias_used(a));
            }
        }
    }
}

/// A completed collection followed by the orphan sweep removes every
/// unreachable id together with its payload.
pub proof fn lemma_gc_removes_unreachable(
    s0: BlockStore,
    s1: BlockStore,
    s2: BlockStore,
    i: u64,
)
    requires
        s0.inv(),
        gc_post(s0, s1, true),
        s2.state_eq(s1),
        s0.has_id(i),
        !s0.live(i),
    ensures
        !s2.has_id(i),
        !s2.has_payload(i),
{
    assert(!s1.has_id(i));
    assert(!s1.has_payload(i));
    assert(s2.cids@ == s1.cids@ && s2.blocks@ == s1.blocks@);
}

/// A completed collection keeps every id reachable from an alias, together
/// with its payload and CID bytes.
pub proof fn lemma_gc_preserves_live(s0: BlockStore, s1: BlockStore, i: u64)
    requires
        s0.inv(),
        gc_post(s0, s1, true),
        s0.has_id(i),
        s0.live(i),
    ensures
        s1.has_id(i),
        s1.cid_of(i) == s0.cid_of(i),
        s1.has_payload(i) <==> s0.has_payload(i),
{
    assert(s1.has_id(i));
    assert(crate::store::rows_have_id(s1.cids@, i));
    assert(crate::store::rows_cid_at(s1.cids@, i) == crate::store::rows_cid_at(s0.cids@, i));
}

} // verus!

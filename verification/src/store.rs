//! The block store itself: five tables of rows, the invariants that tie them
//! together, and the spec vocabulary (interning, edges, payloads, roots,
//! reachability) that every contract of this crate speaks.

use vstd::prelude::*;

use crate::schema::{AliasRow, BlockRow, CidRow, RefRow, TempRow};

verus! {

/// A content-addressed store of immutable blocks forming a DAG.
///
/// `cids` interns opaque CIDs to surrogate ids, `refs` holds the parent/child
/// edges, `blocks` the payloads, `aliases` the named roots and `temp_aliases`
/// the process-scoped roots. `next_id` is the id the next interned CID will
/// receive; ids are never reused.
pub struct BlockStore {
    pub cids: Vec<CidRow>,
    pub refs: Vec<RefRow>,
    pub blocks: Vec<BlockRow>,
    pub aliases: Vec<AliasRow>,
    pub temp_aliases: Vec<TempRow>,
    pub next_id: u64,
}

/// Some identifier row carries id `i`.
pub open spec fn rows_have_id(cids: Seq<CidRow>, i: u64) -> bool {
    exists|k: int| 0 <= k < cids.len() && (#[trigger] cids[k]).id == i
}

/// Some identifier row carries the CID `c`.
pub open spec fn rows_have_cid(cids: Seq<CidRow>, c: Seq<u8>) -> bool {
    exists|k: int| 0 <= k < cids.len() && (#[trigger] cids[k]).cid@ == c
}

/// Index of the identifier row carrying CID `c`.
pub open spec fn rows_cid_index(cids: Seq<CidRow>, c: Seq<u8>) -> int {
    choose|k: int| 0 <= k < cids.len() && (#[trigger] cids[k]).cid@ == c
}

/// Index of the identifier row carrying id `i`.
pub open spec fn rows_id_index(cids: Seq<CidRow>, i: u64) -> int {
    choose|k: int| 0 <= k < cids.len() && (#[trigger] cids[k]).id == i
}

/// Some reference row is the edge `p -> c`.
pub open spec fn rows_have_edge(refs: Seq<RefRow>, p: u64, c: u64) -> bool {
    exists|k: int|
        0 <= k < refs.len() && (#[trigger] refs[k]).parent_id == p && refs[k].child_id == c
}

/// Some payload row carries id `i`.
pub open spec fn rows_have_payload(blocks: Seq<BlockRow>, i: u64) -> bool {
    exists|k: int| 0 <= k < blocks.len() && (#[trigger] blocks[k]).block_id == i
}

/// Index of the payload row carrying id `i`.
pub open spec fn rows_payload_index(blocks: Seq<BlockRow>, i: u64) -> int {
    choose|k: int| 0 <= k < blocks.len() && (#[trigger] blocks[k]).block_id == i
}

/// The id the identifier rows intern for CID `c`.
pub open spec fn rows_id_of(cids: Seq<CidRow>, c: Seq<u8>) -> u64 {
    cids[rows_cid_index(cids, c)].id
}

/// The CID the identifier rows intern under id `i`.
pub open spec fn rows_cid_at(cids: Seq<CidRow>, i: u64) -> Seq<u8> {
    cids[rows_id_index(cids, i)].cid@
}

/// The payload the payload rows store under id `i`.
pub open spec fn rows_payload_at(blocks: Seq<BlockRow>, i: u64) -> Seq<u8> {
    blocks[rows_payload_index(blocks, i)].data@
}

/// Some alias row carries the name `n`.
pub open spec fn rows_have_alias(aliases: Seq<AliasRow>, n: Seq<u8>) -> bool {
    exists|k: int| 0 <= k < aliases.len() && (#[trigger] aliases[k]).name@ == n
}

/// Some alias row maps the name `n` to id `i`.
pub open spec fn rows_alias_maps(aliases: Seq<AliasRow>, n: Seq<u8>, i: u64) -> bool {
    exists|k: int|
        0 <= k < aliases.len() && (#[trigger] aliases[k]).name@ == n && aliases[k].block_id == i
}

/// Some temp-alias row is `(a, b)`.
pub open spec fn rows_temp_has(temp: Seq<TempRow>, a: u64, b: Option<u64>) -> bool {
    exists|k: int|
        0 <= k < temp.len() && (#[trigger] temp[k]).alias == a && temp[k].block_id == b
}

/// Some temp-alias row (placeholder or pin) uses alias id `a`.
pub open spec fn rows_temp_used(temp: Seq<TempRow>, a: u64) -> bool {
    exists|k: int| 0 <= k < temp.len() && (#[trigger] temp[k]).alias == a
}

/// Some alias or temp-alias row pins id `i`.
pub open spec fn rows_root(aliases: Seq<AliasRow>, temp: Seq<TempRow>, i: u64) -> bool {
    ||| exists|k: int| 0 <= k < aliases.len() && (#[trigger] aliases[k]).block_id == i
    ||| exists|k: int| 0 <= k < temp.len() && (#[trigger] temp[k]).block_id == Some(i)
}

/// Well-formed identifier rows: distinct ids, distinct CIDs, ids in `[1, next_id)`.
pub open spec fn cid_rows_ok(cids: Seq<CidRow>, next_id: u64) -> bool {
    &&& forall|j: int, k: int|
        0 <= j < k < cids.len() ==> (#[trigger] cids[j]).id != (#[trigger] cids[k]).id
            && cids[j].cid@ != cids[k].cid@
    &&& forall|k: int| 0 <= k < cids.len() ==> 1 <= (#[trigger] cids[k]).id < next_id
}

/// Well-formed reference rows: distinct edges, interned endpoints, parents
/// with payloads.
pub open spec fn ref_rows_ok(refs: Seq<RefRow>, cids: Seq<CidRow>, blocks: Seq<BlockRow>) -> bool {
    &&& forall|j: int, k: int|
        0 <= j < k < refs.len() ==> (#[trigger] refs[j]) != (#[trigger] refs[k])
    &&& forall|k: int|
        0 <= k < refs.len() ==> {
            &&& rows_have_id(cids, (#[trigger] refs[k]).parent_id)
            &&& rows_have_id(cids, refs[k].child_id)
            &&& rows_have_payload(blocks, refs[k].parent_id)
        }
}

/// Well-formed payload rows: at most one per id, ids interned.
pub open spec fn block_rows_ok(blocks: Seq<BlockRow>, cids: Seq<CidRow>) -> bool {
    &&& forall|j: int, k: int|
        0 <= j < k < blocks.len() ==> (#[trigger] blocks[j]).block_id != (
        #[trigger] blocks[k]).block_id
    &&& forall|k: int| 0 <= k < blocks.len() ==> rows_have_id(cids, (#[trigger] blocks[k]).block_id)
}

/// Well-formed alias rows: unique names, interned targets.
pub open spec fn alias_rows_ok(aliases: Seq<AliasRow>, cids: Seq<CidRow>) -> bool {
    &&& forall|j: int, k: int|
        0 <= j < k < aliases.len() ==> (#[trigger] aliases[j]).name@ != (
        #[trigger] aliases[k]).name@
    &&& forall|k: int|
        0 <= k < aliases.len() ==> rows_have_id(cids, (#[trigger] aliases[k]).block_id)
}

/// Well-formed temp-alias rows: pairwise distinct, pinned targets interned.
pub open spec fn temp_rows_ok(temp: Seq<TempRow>, cids: Seq<CidRow>) -> bool {
    &&& forall|j: int, k: int| 0 <= j < k < temp.len() ==> (#[trigger] temp[j]) != (#[trigger] temp[k])
    &&& forall|k: int|
        0 <= k < temp.len() ==> match (#[trigger] temp[k]).block_id {
            Some(i) => rows_have_id(cids, i),
            None => true,
        }
}

impl BlockStore {
    /// Some row interns id `i`.
    pub open spec fn has_id(self, i: u64) -> bool {
        rows_have_id(self.cids@, i)
    }

    /// Some row interns the CID `c`.
    pub open spec fn cid_present(self, c: Seq<u8>) -> bool {
        rows_have_cid(self.cids@, c)
    }

    /// Index of the row that interns `c` (meaningful only when present).
    pub open spec fn cid_index(self, c: Seq<u8>) -> int {
        rows_cid_index(self.cids@, c)
    }

    /// The id interned for CID `c` (meaningful only when present).
    pub open spec fn id_of(self, c: Seq<u8>) -> u64 {
        rows_id_of(self.cids@, c)
    }

    /// Index of the row with id `i` (meaningful only when `has_id`).
    pub open spec fn id_index(self, i: u64) -> int {
        rows_id_index(self.cids@, i)
    }

    /// The CID that id `i` interns (meaningful only when `has_id`).
    pub open spec fn cid_of(self, i: u64) -> Seq<u8> {
        rows_cid_at(self.cids@, i)
    }

    /// The reference table holds the edge `p -> c`.
    pub open spec fn has_edge(self, p: u64, c: u64) -> bool {
        rows_have_edge(self.refs@, p, c)
    }

    /// A payload row exists for id `i`.
    pub open spec fn has_payload(self, i: u64) -> bool {
        rows_have_payload(self.blocks@, i)
    }

    /// Index of the payload row for id `i` (meaningful only when `has_payload`).
    pub open spec fn payload_index(self, i: u64) -> int {
        rows_payload_index(self.blocks@, i)
    }

    /// The payload stored for id `i` (meaningful only when `has_payload`).
    pub open spec fn payload_of(self, i: u64) -> Seq<u8> {
        rows_payload_at(self.blocks@, i)
    }

    /// A named alias `n` exists.
    pub open spec fn has_alias(self, n: Seq<u8>) -> bool {
        rows_have_alias(self.aliases@, n)
    }

    /// The named alias `n` pins id `i`.
    pub open spec fn alias_maps(self, n: Seq<u8>, i: u64) -> bool {
        rows_alias_maps(self.aliases@, n, i)
    }

    /// The temp-alias table holds the row `(a, b)`.
    pub open spec fn temp_has(self, a: u64, b: Option<u64>) -> bool {
        rows_temp_has(self.temp_aliases@, a, b)
    }

    /// Some temp-alias row (placeholder or pin) uses alias id `a`.
    pub open spec fn temp_alias_used(self, a: u64) -> bool {
        rows_temp_used(self.temp_aliases@, a)
    }

    /// Id `i` is a root: some named alias or some temp alias pins it.
    pub open spec fn is_root(self, i: u64) -> bool {
        rows_root(self.aliases@, self.temp_aliases@, i)
    }

    /// `p` is a chain of ids linked by reference edges.
    pub open spec fn path_ok(self, p: Seq<u64>) -> bool {
        forall|k: int| 0 <= k < p.len() - 1 ==> #[trigger] self.has_edge(p[k], p[k + 1])
    }

    /// `b` is transitively reachable from `a` via reference edges; every id
    /// reaches itself.
    pub open spec fn reaches(self, a: u64, b: u64) -> bool {
        exists|p: Seq<u64>|
            #[trigger] self.path_ok(p) && p.len() >= 1 && p[0] == a && p[p.len() - 1] == b
    }

    /// Id `i` is reachable from some root.
    pub open spec fn live(self, i: u64) -> bool {
        exists|r: u64| self.is_root(r) && #[trigger] self.reaches(r, i)
    }

    /// Identifier rows are well formed: ids pairwise distinct, CIDs pairwise
    /// distinct, every id at least 1 and below `next_id`.
    pub open spec fn cids_ok(self) -> bool {
        cid_rows_ok(self.cids@, self.next_id)
    }

    /// Reference rows are well formed: pairwise distinct edges, both endpoints
    /// interned, and every parent has a payload (edges are only ever written
    /// together with their parent's payload).
    pub open spec fn refs_ok(self) -> bool {
        ref_rows_ok(self.refs@, self.cids@, self.blocks@)
    }

    /// Payload rows are well formed: at most one per id, and every payload's
    /// id is interned.
    pub open spec fn blocks_ok(self) -> bool {
        block_rows_ok(self.blocks@, self.cids@)
    }

    /// Alias rows are well formed: names unique, targets interned.
    pub open spec fn aliases_ok(self) -> bool {
        alias_rows_ok(self.aliases@, self.cids@)
    }

    /// Temp-alias rows are well formed: pairwise distinct, and every pinned
    /// target interned.
    pub open spec fn temp_ok(self) -> bool {
        temp_rows_ok(self.temp_aliases@, self.cids@)
    }

    /// The store invariant, preserved by every operation: referential
    /// integrity of all four dependent tables over the identifier table.
    pub open spec fn inv(self) -> bool {
        &&& self.cids_ok()
        &&& self.refs_ok()
        &&& self.blocks_ok()
        &&& self.aliases_ok()
        &&& self.temp_ok()
        &&& self.next_id >= 1
    }

    /// The two stores hold exactly the same rows and counter.
    pub open spec fn state_eq(self, other: BlockStore) -> bool {
        &&& self.cids@ == other.cids@
        &&& self.refs@ == other.refs@
        &&& self.blocks@ == other.blocks@
        &&& self.aliases@ == other.aliases@
        &&& self.temp_aliases@ == other.temp_aliases@
        &&& self.next_id == other.next_id
    }

    /// At least `n` more ids can be interned before the id space runs out.
    pub open spec fn id_headroom(self, n: nat) -> bool {
        self.next_id + n <= u64::MAX
    }

    /// The CID is interned and its id has a payload row.
    pub open spec fn payload_present_for(self, c: Seq<u8>) -> bool {
        self.cid_present(c) && self.has_payload(self.id_of(c))
    }

    /// No temp-alias row uses the last alias id, so one more can be made.
    pub open spec fn temp_headroom(self) -> bool {
        forall|k: int|
            0 <= k < self.temp_aliases@.len() ==> (#[trigger] self.temp_aliases@[k]).alias
                < u64::MAX
    }
    /// Open a fresh, empty in-memory store.
    pub fn memory() -> (s: BlockStore)
        ensures
            s.inv(),
            s.cids@.len() == 0,
            s.refs@.len() == 0,
            s.blocks@.len() == 0,
            s.aliases@.len() == 0,
            s.temp_aliases@.len() == 0,
            s.next_id == 1,
    {
        BlockStore {
            cids: Vec::new(),
            refs: Vec::new(),
            blocks: Vec::new(),
            aliases: Vec::new(),
            temp_aliases: Vec::new(),
            next_id: 1,
        }
    }
}

/// Every identifier lookup that the rows `a` answer, the rows `b` answer the
/// same way: interning only grows.
pub open spec fn cids_preserved(a: Seq<CidRow>, b: Seq<CidRow>) -> bool {
    &&& forall|c: Seq<u8>| #[trigger] rows_have_cid(a, c) ==> rows_have_cid(b, c)
    &&& forall|c: Seq<u8>|
        rows_have_cid(a, c) ==> #[trigger] rows_id_of(b, c) == rows_id_of(a, c)
    &&& forall|i: u64| #[trigger] rows_have_id(a, i) ==> rows_have_id(b, i)
    &&& forall|i: u64| rows_have_id(a, i) ==> #[trigger] rows_cid_at(b, i) == rows_cid_at(a, i)
}

/// `cids_preserved` is reflexive.
pub proof fn lemma_cids_preserved_refl(a: Seq<CidRow>)
    ensures
        cids_preserved(a, a),
{
}

/// `cids_preserved` composes.
pub proof fn lemma_cids_preserved_trans(a: Seq<CidRow>, b: Seq<CidRow>, c: Seq<CidRow>)
    requires
        cids_preserved(a, b),
        cids_preserved(b, c),
    ensures
        cids_preserved(a, c),
{
    assert forall|x: Seq<u8>| #[trigger] rows_have_cid(a, x) implies rows_have_cid(c, x) by {
        assert(rows_have_cid(b, x));
    }
    assert forall|x: Seq<u8>| rows_have_cid(a, x) implies #[trigger] rows_id_of(c, x)
        == rows_id_of(a, x) by {
        assert(rows_have_cid(b, x));
        assert(rows_id_of(b, x) == rows_id_of(a, x));
        assert(rows_id_of(c, x) == rows_id_of(b, x));
    }
    assert forall|i: u64| #[trigger] rows_have_id(a, i) implies rows_have_id(c, i) by {
        assert(rows_have_id(b, i));
    }
    assert forall|i: u64| rows_have_id(a, i) implies #[trigger] rows_cid_at(c, i) == rows_cid_at(
        a,
        i,
    ) by {
        assert(rows_have_id(b, i));
        assert(rows_cid_at(b, i) == rows_cid_at(a, i));
        assert(rows_cid_at(c, i) == rows_cid_at(b, i));
    }
}

/// Every identifier lookup that the rows `b` answer, the larger table `a`
/// answered the same way: deletion only shrinks.
pub open spec fn cids_sub(a: Seq<CidRow>, b: Seq<CidRow>) -> bool {
    &&& forall|c: Seq<u8>| #[trigger] rows_have_cid(b, c) ==> rows_have_cid(a, c)
    &&& forall|c: Seq<u8>|
        rows_have_cid(b, c) ==> #[trigger] rows_id_of(b, c) == rows_id_of(a, c)
    &&& forall|i: u64| #[trigger] rows_have_id(b, i) ==> rows_have_id(a, i)
    &&& forall|i: u64| rows_have_id(b, i) ==> #[trigger] rows_cid_at(b, i) == rows_cid_at(a, i)
}

/// `cids_sub` is reflexive.
pub proof fn lemma_cids_sub_refl(a: Seq<CidRow>)
    ensures
        cids_sub(a, a),
{
}

/// `cids_sub` composes.
pub proof fn lemma_cids_sub_trans(a: Seq<CidRow>, b: Seq<CidRow>, c: Seq<CidRow>)
    requires
        cids_sub(a, b),
        cids_sub(b, c),
    ensures
        cids_sub(a, c),
{
    assert forall|x: Seq<u8>| #[trigger] rows_have_cid(c, x) implies rows_have_cid(a, x) by {
        assert(rows_have_cid(b, x));
    }
    assert forall|x: Seq<u8>| rows_have_cid(c, x) implies #[trigger] rows_id_of(c, x)
        == rows_id_of(a, x) by {
        assert(rows_have_cid(b, x));
        assert(rows_id_of(c, x) == rows_id_of(b, x));
        assert(rows_id_of(b, x) == rows_id_of(a, x));
    }
    assert forall|i: u64| #[trigger] rows_have_id(c, i) implies rows_have_id(a, i) by {
        assert(rows_have_id(b, i));
    }
    assert forall|i: u64| rows_have_id(c, i) implies #[trigger] rows_cid_at(c, i) == rows_cid_at(
        a,
        i,
    ) by {
        assert(rows_have_id(b, i));
        assert(rows_cid_at(c, i) == rows_cid_at(b, i));
        assert(rows_cid_at(b, i) == rows_cid_at(a, i));
    }
}

/// Removing one identifier row preserves every other lookup.
pub proof fn lemma_cids_remove(a: Seq<CidRow>, k: int)
    requires
        0 <= k < a.len(),
        forall|j1: int, j2: int|
            0 <= j1 < j2 < a.len() ==> (#[trigger] a[j1]).id != (#[trigger] a[j2]).id && a[j1].cid@
                != a[j2].cid@,
    ensures
        cids_sub(a, a.remove(k)),
        forall|i: u64|
            #[trigger] rows_have_id(a.remove(k), i) <==> rows_have_id(a, i) && i != a[k].id,
        forall|c: Seq<u8>|
            #[trigger] rows_have_cid(a.remove(k), c) <==> rows_have_cid(a, c) && c != a[k].cid@,
{
    let b = a.remove(k);
    a.remove_ensures(k);
    assert forall|m: int| 0 <= m < b.len() implies #[trigger] b[m] == a[if m < k {
        m
    } else {
        m + 1
    }] by {}
    assert forall|i: u64| #[trigger] rows_have_id(b, i) implies rows_have_id(a, i) && i
        != a[k].id by {
        let m = choose|m: int| 0 <= m < b.len() && (#[trigger] b[m]).id == i;
        let s: int = if m < k {
            m
        } else {
            m + 1
        };
        assert(a[s].id == i);
        if i == a[k].id {
            if s < k {
                assert(a[s].id != a[k].id);
            } else {
                assert(a[k].id != a[s].id);
            }
        }
    }
    assert forall|i: u64| rows_have_id(a, i) && i != a[k].id implies #[trigger] rows_have_id(
        b,
        i,
    ) by {
        let s = choose|s: int| 0 <= s < a.len() && (#[trigger] a[s]).id == i;
        assert(s != k);
        if s < k {
            assert(b[s].id == i);
        } else {
            assert(b[s - 1].id == i);
        }
    }
    assert forall|c: Seq<u8>| #[trigger] rows_have_cid(b, c) implies rows_have_cid(a, c) && c
        != a[k].cid@ by {
        let m = choose|m: int| 0 <= m < b.len() && (#[trigger] b[m]).cid@ == c;
        let s: int = if m < k {
            m
        } else {
            m + 1
        };
        assert(a[s].cid@ == c);
        if c == a[k].cid@ {
            if s < k {
                assert(a[s].cid@ != a[k].cid@);
            } else {
                assert(a[k].cid@ != a[s].cid@);
            }
        }
    }
    assert forall|c: Seq<u8>| rows_have_cid(a, c) && c != a[k].cid@ implies #[trigger] rows_have_cid(
        b,
        c,
    ) by {
        let s = choose|s: int| 0 <= s < a.len() && (#[trigger] a[s]).cid@ == c;
        assert(s != k);
        if s < k {
            assert(b[s].cid@ == c);
        } else {
            assert(b[s - 1].cid@ == c);
        }
    }
    assert forall|c: Seq<u8>| rows_have_cid(b, c) implies #[trigger] rows_id_of(b, c)
        == rows_id_of(a, c) by {
        let m = rows_cid_index(b, c);
        assert(0 <= m < b.len() && b[m].cid@ == c);
        let s: int = if m < k {
            m
        } else {
            m + 1
        };
        assert(a[s].cid@ == c);
        let sa = rows_cid_index(a, c);
        assert(0 <= sa < a.len() && a[sa].cid@ == c);
        if sa != s {
            if sa < s {
                assert(a[sa].cid@ != a[s].cid@);
            } else {
                assert(a[s].cid@ != a[sa].cid@);
            }
        }
    }
    assert forall|i: u64| rows_have_id(b, i) implies #[trigger] rows_cid_at(b, i) == rows_cid_at(
        a,
        i,
    ) by {
        let m = rows_id_index(b, i);
        assert(0 <= m < b.len() && b[m].id == i);
        let s: int = if m < k {
            m
        } else {
            m + 1
        };
        assert(a[s].id == i);
        let sa = rows_id_index(a, i);
        assert(0 <= sa < a.len() && a[sa].id == i);
        if sa != s {
            if sa < s {
                assert(a[sa].id != a[s].id);
            } else {
                assert(a[s].id != a[sa].id);
            }
        }
    }
}

/// Every payload lookup that the rows `b` answer, the larger table `a`
/// answered the same way.
pub open spec fn blocks_sub(a: Seq<BlockRow>, b: Seq<BlockRow>) -> bool {
    &&& forall|i: u64| #[trigger] rows_have_payload(b, i) ==> rows_have_payload(a, i)
    &&& forall|i: u64|
        rows_have_payload(b, i) ==> #[trigger] rows_payload_at(b, i) == rows_payload_at(a, i)
}

/// `blocks_sub` is reflexive.
pub proof fn lemma_blocks_sub_refl(a: Seq<BlockRow>)
    ensures
        blocks_sub(a, a),
{
}

/// `blocks_sub` composes.
pub proof fn lemma_blocks_sub_trans(a: Seq<BlockRow>, b: Seq<BlockRow>, c: Seq<BlockRow>)
    requires
        blocks_sub(a, b),
        blocks_sub(b, c),
    ensures
        blocks_sub(a, c),
{
    assert forall|i: u64| #[trigger] rows_have_payload(c, i) implies rows_have_payload(a, i) by {
        assert(rows_have_payload(b, i));
    }
    assert forall|i: u64| rows_have_payload(c, i) implies #[trigger] rows_payload_at(c, i)
        == rows_payload_at(a, i) by {
        assert(rows_have_payload(b, i));
        assert(rows_payload_at(c, i) == rows_payload_at(b, i));
        assert(rows_payload_at(b, i) == rows_payload_at(a, i));
    }
}

/// Removing one payload row preserves every other payload.
pub proof fn lemma_blocks_remove(a: Seq<BlockRow>, k: int)
    requires
        0 <= k < a.len(),
        forall|j1: int, j2: int|
            0 <= j1 < j2 < a.len() ==> (#[trigger] a[j1]).block_id != (#[trigger] a[j2]).block_id,
    ensures
        blocks_sub(a, a.remove(k)),
        forall|i: u64|
            #[trigger] rows_have_payload(a.remove(k), i) <==> rows_have_payload(a, i) && i
                != a[k].block_id,
{
    let b = a.remove(k);
    a.remove_ensures(k);
    assert forall|i: u64| #[trigger] rows_have_payload(b, i) implies rows_have_payload(a, i) && i
        != a[k].block_id by {
        let m = choose|m: int| 0 <= m < b.len() && (#[trigger] b[m]).block_id == i;
        let s: int = if m < k {
            m
        } else {
            m + 1
        };
        assert(a[s].block_id == i);
        if i == a[k].block_id {
            if s < k {
                assert(a[s].block_id != a[k].block_id);
            } else {
                assert(a[k].block_id != a[s].block_id);
            }
        }
    }
    assert forall|i: u64|
        rows_have_payload(a, i) && i != a[k].block_id implies #[trigger] rows_have_payload(
        b,
        i,
    ) by {
        let s = choose|s: int| 0 <= s < a.len() && (#[trigger] a[s]).block_id == i;
        assert(s != k);
        if s < k {
            assert(b[s].block_id == i);
        } else {
            assert(b[s - 1].block_id == i);
        }
    }
    assert forall|i: u64| rows_have_payload(b, i) implies #[trigger] rows_payload_at(b, i)
        == rows_payload_at(a, i) by {
        let m = rows_payload_index(b, i);
        assert(0 <= m < b.len() && b[m].block_id == i);
        let s: int = if m < k {
            m
        } else {
            m + 1
        };
        assert(a[s].block_id == i);
        let sa = rows_payload_index(a, i);
        assert(0 <= sa < a.len() && a[sa].block_id == i);
        if sa != s {
            if sa < s {
                assert(a[sa].block_id != a[s].block_id);
            } else {
                assert(a[s].block_id != a[sa].block_id);
            }
        }
    }
}

/// Extending the identifier table preserves every lookup into the old prefix.
pub proof fn lemma_cids_extend(a: Seq<CidRow>, b: Seq<CidRow>)
    requires
        a.len() <= b.len(),
        b.subrange(0, a.len() as int) == a,
        forall|j: int, k: int|
            0 <= j < k < b.len() ==> (#[trigger] b[j]).id != (#[trigger] b[k]).id && b[j].cid@
                != b[k].cid@,
    ensures
        cids_preserved(a, b),
{
    assert forall|k: int| 0 <= k < a.len() implies #[trigger] b[k] == a[k] by {
        assert(b.subrange(0, a.len() as int)[k] == b[k]);
    }
    assert forall|c: Seq<u8>| #[trigger] rows_have_cid(a, c) implies rows_have_cid(b, c) by {
        let k = choose|k: int| 0 <= k < a.len() && (#[trigger] a[k]).cid@ == c;
        assert(b[k].cid@ == c);
    }
    assert forall|c: Seq<u8>| rows_have_cid(a, c) implies #[trigger] rows_id_of(b, c)
        == rows_id_of(a, c) by {
        let k = choose|k: int| 0 <= k < a.len() && (#[trigger] a[k]).cid@ == c;
        assert(b[k].cid@ == c);
        assert(rows_have_cid(b, c));
        let kb = rows_cid_index(b, c);
        assert(0 <= kb < b.len() && b[kb].cid@ == c);
        if kb != k {
            assert(b[kb].cid@ != b[k].cid@);
        }
        let ka = rows_cid_index(a, c);
        assert(0 <= ka < a.len() && a[ka].cid@ == c);
        if ka != k {
            assert(b[ka].cid@ != b[k].cid@);
        }
    }
    assert forall|i: u64| #[trigger] rows_have_id(a, i) implies rows_have_id(b, i) by {
        let k = choose|k: int| 0 <= k < a.len() && (#[trigger] a[k]).id == i;
        assert(b[k].id == i);
    }
    assert forall|i: u64| rows_have_id(a, i) implies #[trigger] rows_cid_at(b, i) == rows_cid_at(
        a,
        i,
    ) by {
        let k = choose|k: int| 0 <= k < a.len() && (#[trigger] a[k]).id == i;
        assert(b[k].id == i);
        assert(rows_have_id(b, i));
        let kb = rows_id_index(b, i);
        assert(0 <= kb < b.len() && b[kb].id == i);
        if kb != k {
            assert(b[kb].id != b[k].id);
        }
        let ka = rows_id_index(a, i);
        assert(0 <= ka < a.len() && a[ka].id == i);
        if ka != k {
            assert(b[ka].id != b[k].id);
        }
    }
}

/// Total number of payload bytes across the given rows.
pub open spec fn blocks_size(s: Seq<BlockRow>) -> nat
    decreases s.len(),
{
    if s.len() == 0 {
        0
    } else {
        blocks_size(s.drop_last()) + s.last().data@.len()
    }
}

/// One more row adds its length to the running total.
proof fn lemma_blocks_size_take(s: Seq<BlockRow>, m: int)
    requires
        0 <= m < s.len(),
    ensures
        blocks_size(s.take(m + 1)) == blocks_size(s.take(m)) + s[m].data@.len(),
{
    assert(s.take(m + 1).drop_last() =~= s.take(m));
    assert(s.take(m + 1).last() == s[m]);
}

/// A prefix never outweighs the whole table.
proof fn lemma_blocks_size_prefix(s: Seq<BlockRow>, m: int)
    requires
        0 <= m <= s.len(),
    ensures
        blocks_size(s.take(m)) <= blocks_size(s),
    decreases s.len() - m,
{
    if m == s.len() {
        assert(s.take(m) =~= s);
    } else {
        lemma_blocks_size_take(s, m);
        lemma_blocks_size_prefix(s, m + 1);
    }
}

/// The byte strings a sequence of owned vectors holds.
pub open spec fn bytes_views(ls: Seq<Vec<u8>>) -> Seq<Seq<u8>> {
    ls.map_values(|v: Vec<u8>| v@)
}

/// Byte-string equality, used to compare CIDs, payloads and alias names.
pub fn bytes_eq(a: &[u8], b: &[u8]) -> (r: bool)
    ensures
        r <==> a@ == b@,
{
    if a.len() != b.len() {
        assert(a@ != b@);
        return false;
    }
    let mut k: usize = 0;
    while k < a.len()
        invariant
            0 <= k <= a.len(),
            a.len() == b.len(),
            forall|j: int| 0 <= j < k ==> a@[j] == b@[j],
        decreases a.len() - k,
    {
        if a[k] != b[k] {
            assert(a@[k as int] != b@[k as int]);
            return false;
        }
        k += 1;
    }
    assert(a@ =~= b@);
    true
}

/// Copy a byte string into an owned vector.
pub fn copy_bytes(src: &[u8]) -> (r: Vec<u8>)
    ensures
        r@ == src@,
{
    let mut v: Vec<u8> = Vec::new();
    let mut k: usize = 0;
    while k < src.len()
        invariant
            0 <= k <= src.len(),
            v@ =~= src@.take(k as int),
        decreases src.len() - k,
    {
        v.push(src[k]);
        k += 1;
    }
    assert(src@.take(src.len() as int) =~= src@);
    v
}

impl BlockStore {
    /// Index of the identifier row holding `cid`, if any.
    fn find_cid(&self, cid: &[u8]) -> (r: Option<usize>)
        ensures
            match r {
                Some(k) => k < self.cids@.len() && self.cids@[k as int].cid@ == cid@,
                None => !self.cid_present(cid@),
            },
    {
        let mut k: usize = 0;
        while k < self.cids.len()
            invariant
                0 <= k <= self.cids@.len(),
                forall|j: int| 0 <= j < k ==> (#[trigger] self.cids@[j]).cid@ != cid@,
            decreases self.cids@.len() - k,
        {
            if bytes_eq(self.cids[k].cid.as_slice(), cid) {
                return Some(k);
            }
            k += 1;
        }
        None
    }

    /// The row index found for `cid` is the one the spec's `cid_index` picks.
    pub(crate) proof fn lemma_cid_index_agrees(self, cid: Seq<u8>, k: int)
        requires
            self.cids_ok(),
            0 <= k < self.cids@.len(),
            self.cids@[k].cid@ == cid,
        ensures
            self.cid_index(cid) == k,
            self.cid_present(cid),
            self.id_of(cid) == self.cids@[k].id,
    {
        assert(self.cid_present(cid));
        let j = self.cid_index(cid);
        if j != k {
            assert(self.cids@[j].cid@ != self.cids@[k].cid@);
        }
    }

    /// The row index found for id `i` is the one the spec's `id_index` picks.
    pub(crate) proof fn lemma_id_index_agrees(self, i: u64, k: int)
        requires
            self.cids_ok(),
            0 <= k < self.cids@.len(),
            self.cids@[k].id == i,
        ensures
            self.id_index(i) == k,
            self.has_id(i),
            self.cid_of(i) == self.cids@[k].cid@,
    {
        assert(self.has_id(i));
        let j = self.id_index(i);
        if j != k {
            assert(self.cids@[j].id != self.cids@[k].id);
        }
    }

    /// The payload row index found for id `i` is the one `payload_index` picks.
    pub(crate) proof fn lemma_payload_index_agrees(self, i: u64, k: int)
        requires
            self.blocks_ok(),
            0 <= k < self.blocks@.len(),
            self.blocks@[k].block_id == i,
        ensures
            self.payload_index(i) == k,
            self.has_payload(i),
            self.payload_of(i) == self.blocks@[k].data@,
    {
        assert(self.has_payload(i));
        let j = self.payload_index(i);
        if j != k {
            assert(self.blocks@[j].block_id != self.blocks@[k].block_id);
        }
    }

    /// Look up the surrogate id interned for `cid`, if any.
    pub fn get_id(&self, cid: &[u8]) -> (r: Option<u64>)
        requires
            self.inv(),
        ensures
            match r {
                Some(i) => self.cid_present(cid@) && i == self.id_of(cid@),
                None => !self.cid_present(cid@),
            },
    {
        match self.find_cid(cid) {
            Some(k) => {
                proof {
                    self.lemma_cid_index_agrees(cid@, k as int);
                }
                Some(self.cids[k].id)
            },
            None => None,
        }
    }

    /// Return the id interned for `cid`, interning it first if it is new.
    ///
    /// A fresh CID receives the id `next_id`; nothing else changes. An
    /// already-interned CID leaves the store untouched.
    pub fn get_or_create_id(&mut self, cid: &[u8]) -> (id: u64)
        requires
            old(self).inv(),
            old(self).id_headroom(1),
        ensures
            final(self).inv(),
            final(self).cid_present(cid@),
            id == final(self).id_of(cid@),
            final(self).has_id(id),
            old(self).cid_present(cid@) ==> final(self).state_eq(*old(self)),
            !old(self).cid_present(cid@) ==> {
                &&& id == old(self).next_id
                &&& final(self).next_id == old(self).next_id + 1
                &&& final(self).cids@.len() == old(self).cids@.len() + 1
                &&& final(self).cids@.drop_last() == old(self).cids@
                &&& final(self).cids@.last().id == id
                &&& final(self).cids@.last().cid@ == cid@
                &&& final(self).refs@ == old(self).refs@
                &&& final(self).blocks@ == old(self).blocks@
                &&& final(self).aliases@ == old(self).aliases@
                &&& final(self).temp_aliases@ == old(self).temp_aliases@
                &&& !final(self).has_payload(id)
            },
            forall|c: Seq<u8>|
                final(self).cid_present(c) <==> old(self).cid_present(c) || c == cid@,
            forall|i: u64| final(self).has_id(i) <==> old(self).has_id(i) || i == id,
            forall|c: Seq<u8>|
                old(self).cid_present(c) ==> #[trigger] final(self).id_of(c) == old(self).id_of(c),
            forall|i: u64|
                old(self).has_id(i) ==> #[trigger] final(self).cid_of(i) == old(self).cid_of(i),
            final(self).next_id >= old(self).next_id,
    {
        match self.find_cid(cid) {
            Some(k) => {
                proof {
                    self.lemma_cid_index_agrees(cid@, k as int);
                    assert forall|c: Seq<u8>|
                        self.cid_present(c) <==> old(self).cid_present(c) || c == cid@ by {}
                }
                self.cids[k].id
            },
            None => {
                let id = self.next_id;
                let row = CidRow { id, cid: copy_bytes(cid) };
                self.cids.push(row);
                self.next_id = self.next_id + 1;
                proof {
                    let n = old(self).cids@.len() as int;
                    assert(self.cids@.drop_last() =~= old(self).cids@);
                    self.lemma_cid_index_agrees(cid@, n);
                    self.lemma_id_index_agrees(id, n);
                    assert forall|i: u64| old(self).has_id(i) implies #[trigger] self.has_id(i) by {
                        let k = choose|k: int|
                            0 <= k < old(self).cids@.len() && (#[trigger] old(self).cids@[k]).id
                                == i;
                        assert(self.cids@[k].id == i);
                    }
                    assert forall|c: Seq<u8>| old(self).cid_present(c) implies #[trigger] self
                        .cid_present(c) by {
                        let k = choose|k: int|
                            0 <= k < old(self).cids@.len() && (#[trigger] old(self).cids@[k]).cid@
                                == c;
                        assert(self.cids@[k].cid@ == c);
                    }
                    assert forall|i: u64| self.has_id(i) implies old(self).has_id(i) || i == id by {
                        let k = choose|k: int|
                            0 <= k < self.cids@.len() && (#[trigger] self.cids@[k]).id == i;
                        if k < n {
                            assert(old(self).cids@[k].id == i);
                        }
                    }
                    assert forall|c: Seq<u8>| self.cid_present(c) implies old(self).cid_present(c)
                        || c == cid@ by {
                        let k = choose|k: int|
                            0 <= k < self.cids@.len() && (#[trigger] self.cids@[k]).cid@ == c;
                        if k < n {
                            assert(old(self).cids@[k].cid@ == c);
                        }
                    }
                    assert forall|c: Seq<u8>| old(self).cid_present(c) implies #[trigger] self
                        .id_of(c) == old(self).id_of(c) by {
                        let k = old(self).cid_index(c);
                        assert(self.cids@[k].cid@ == c);
                        self.lemma_cid_index_agrees(c, k);
                    }
                    assert forall|i: u64| old(self).has_id(i) implies #[trigger] self.cid_of(i)
                        == old(self).cid_of(i) by {
                        let k = old(self).id_index(i);
                        assert(self.cids@[k].id == i);
                        self.lemma_id_index_agrees(i, k);
                    }
                    assert(!self.has_payload(id)) by {
                        if self.has_payload(id) {
                            let k = choose|k: int|
                                0 <= k < self.blocks@.len() && (#[trigger] self.blocks@[k]).block_id
                                    == id;
                            assert(old(self).has_id(id));
                        }
                    }
                }
                id
            },
        }
    }

    /// Is this CID interned (with or without a payload)?
    pub fn has_cid(&self, cid: &[u8]) -> (r: bool)
        requires
            self.inv(),
        ensures
            r <==> self.cid_present(cid@),
    {
        self.find_cid(cid).is_some()
    }

    /// Index of the payload row for id `i`, if any.
    pub(crate) fn find_payload(&self, i: u64) -> (r: Option<usize>)
        ensures
            match r {
                Some(k) => k < self.blocks@.len() && self.blocks@[k as int].block_id == i,
                None => !self.has_payload(i),
            },
    {
        let mut k: usize = 0;
        while k < self.blocks.len()
            invariant
                0 <= k <= self.blocks@.len(),
                forall|j: int| 0 <= j < k ==> (#[trigger] self.blocks@[j]).block_id != i,
            decreases self.blocks@.len() - k,
        {
            if self.blocks[k].block_id == i {
                return Some(k);
            }
            k += 1;
        }
        None
    }

    /// Is there a payload stored for this CID?
    pub fn has_block(&self, cid: &[u8]) -> (r: bool)
        requires
            self.inv(),
        ensures
            r <==> self.cid_present(cid@) && self.has_payload(self.id_of(cid@)),
    {
        match self.get_id(cid) {
            Some(i) => self.find_payload(i).is_some(),
            None => false,
        }
    }

    /// Fetch the payload stored for this CID, if any.
    pub fn get_block(&self, cid: &[u8]) -> (r: Option<Vec<u8>>)
        requires
            self.inv(),
        ensures
            match r {
                Some(d) => self.cid_present(cid@) && self.has_payload(self.id_of(cid@)) && d@
                    == self.payload_of(self.id_of(cid@)),
                None => !(self.cid_present(cid@) && self.has_payload(self.id_of(cid@))),
            },
    {
        match self.get_id(cid) {
            Some(i) => match self.find_payload(i) {
                Some(k) => {
                    proof {
                        self.lemma_payload_index_agrees(i, k as int);
                    }
                    Some(copy_bytes(self.blocks[k].data.as_slice()))
                },
                None => None,
            },
            None => None,
        }
    }

    /// Sum every stored payload's length, or report that the total does not
    /// fit the counter.
    pub fn get_block_size(&self) -> (r: Option<u64>)
        ensures
            match r {
                Some(v) => v as nat == blocks_size(self.blocks@),
                None => blocks_size(self.blocks@) > u64::MAX,
            },
    {
        let mut acc: u64 = 0;
        let mut k: usize = 0;
        while k < self.blocks.len()
            invariant
                0 <= k <= self.blocks@.len(),
                acc as nat == blocks_size(self.blocks@.take(k as int)),
            decreases self.blocks@.len() - k,
        {
            let len_k: usize = self.blocks[k].data.len();
            proof {
                lemma_blocks_size_take(self.blocks@, k as int);
            }
            match acc.checked_add(len_k as u64) {
                Some(v) => {
                    acc = v;
                },
                None => {
                    proof {
                        lemma_blocks_size_prefix(self.blocks@, k as int + 1);
                    }
                    return None;
                },
            }
            k += 1;
        }
        proof {
            assert(self.blocks@.take(self.blocks@.len() as int) =~= self.blocks@);
        }
        Some(acc)
    }

    /// How many payload rows the store holds.
    pub fn get_block_count(&self) -> (r: u64)
        ensures
            r as nat == self.blocks@.len(),
    {
        self.blocks.len() as u64
    }

    /// The id interned for a present CID is interned, and maps back to it.
    pub proof fn lemma_cid_roundtrip(self, c: Seq<u8>)
        requires
            self.cids_ok(),
            self.cid_present(c),
        ensures
            self.has_id(self.id_of(c)),
            self.cid_of(self.id_of(c)) == c,
    {
        let k = self.cid_index(c);
        assert(0 <= k < self.cids@.len() && self.cids@[k].cid@ == c);
        self.lemma_id_index_agrees(self.cids@[k].id, k);
    }

    /// The CID bytes interned under id `i`.
    pub(crate) fn cid_bytes_of(&self, i: u64) -> (r: Vec<u8>)
        requires
            self.inv(),
            self.has_id(i),
        ensures
            r@ == self.cid_of(i),
    {
        let mut k: usize = 0;
        while k < self.cids.len()
            invariant
                self.inv(),
                self.has_id(i),
                0 <= k <= self.cids@.len(),
                forall|j: int| 0 <= j < k ==> (#[trigger] self.cids@[j]).id != i,
            decreases self.cids@.len() - k,
        {
            if self.cids[k].id == i {
                proof {
                    self.lemma_id_index_agrees(i, k as int);
                }
                return copy_bytes(self.cids[k].cid.as_slice());
            }
            k += 1;
        }
        proof {
            let w = choose|w: int| 0 <= w < self.cids@.len() && (#[trigger] self.cids@[w]).id == i;
            assert(self.cids@[w].id != i);
        }
        unreached()
    }

    /// Every interned CID, in table order.
    pub fn get_cids(&self) -> (r: Vec<Vec<u8>>)
        ensures
            r@.len() == self.cids@.len(),
            forall|k: int| 0 <= k < r@.len() ==> (#[trigger] r@[k])@ == self.cids@[k].cid@,
    {
        let mut out: Vec<Vec<u8>> = Vec::new();
        let mut k: usize = 0;
        while k < self.cids.len()
            invariant
                0 <= k <= self.cids@.len(),
                out@.len() == k,
                forall|j: int| 0 <= j < k ==> (#[trigger] out@[j])@ == self.cids@[j].cid@,
            decreases self.cids@.len() - k,
        {
            out.push(copy_bytes(self.cids[k].cid.as_slice()));
            k += 1;
        }
        out
    }
}

} // verus!

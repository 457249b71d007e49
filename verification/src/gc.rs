//! Garbage collection: mark every id reachable from an alias, then sweep the
//! rest under a wall-clock budget, cascading each deletion through the
//! dependent tables; and the orphan-payload sweep.

use vstd::prelude::*;

use crate::reach::{bfs_covers, bfs_sound, contains_id, ids_distinct, ids_interned};
use crate::schema::{AliasRow, RefRow, TempRow};
use crate::store::{
    blocks_sub, cids_sub, lemma_blocks_remove, lemma_blocks_sub_trans, lemma_cids_remove,
    lemma_cids_sub_trans, rows_have_cid, rows_have_id, BlockStore,
};

verus! {

/// Relies on std::time::Instant as an opaque monotonic timestamp.
#[verifier::external_type_specification]
#[verifier::external_body]
pub struct ExInstant(std::time::Instant);

/// Relies on std::time::Instant::now; nothing is promised of the timestamp.
#[verifier::external_body]
fn monotonic_now() -> (r: std::time::Instant) {
    std::time::Instant::now()
}

/// Relies on std::time::Instant::elapsed: whether more than `micros`
/// microseconds passed since the timestamp. Nothing is promised of the
/// outcome; callers must be correct for either answer.
#[verifier::external_body]
fn elapsed_exceeds(t0: &std::time::Instant, micros: u64) -> (r: bool) {
    t0.elapsed().as_micros() > micros as u128
}

/// What one cascading id deletion does: the id's row, payload, incident
/// edges, aliases and pins are gone; everything else stays.
pub open spec fn delete_step(pre: BlockStore, post: BlockStore, x: u64) -> bool {
    &&& post.inv()
    &&& post.next_id == pre.next_id
    &&& post.cids@.len() + 1 == pre.cids@.len()
    &&& cids_sub(pre.cids@, post.cids@)
    &&& blocks_sub(pre.blocks@, post.blocks@)
    &&& forall|i: u64| #[trigger] post.has_id(i) <==> pre.has_id(i) && i != x
    &&& forall|p: u64, c: u64|
        #[trigger] post.has_edge(p, c) <==> pre.has_edge(p, c) && p != x && c != x
    &&& forall|i: u64| #[trigger] post.has_payload(i) <==> pre.has_payload(i) && i != x
    &&& forall|n: Seq<u8>, i: u64|
        #[trigger] post.alias_maps(n, i) <==> pre.alias_maps(n, i) && i != x
    &&& forall|a: u64, b: Option<u64>|
        #[trigger] post.temp_has(a, b) <==> pre.temp_has(a, b) && b != Some(x)
}

/// Relation between the store before the sweep and any point during it: only
/// whole ids have been removed, with full cascade, and nothing was added.
pub open spec fn sweep_inv(pre: BlockStore, cur: BlockStore) -> bool {
    &&& cur.inv()
    &&& cur.next_id == pre.next_id
    &&& cids_sub(pre.cids@, cur.cids@)
    &&& blocks_sub(pre.blocks@, cur.blocks@)
    &&& forall|i: u64| #[trigger] cur.has_id(i) ==> pre.has_id(i)
    &&& forall|p: u64, c: u64|
        #[trigger] cur.has_edge(p, c) <==> pre.has_edge(p, c) && cur.has_id(p) && cur.has_id(c)
    &&& forall|i: u64| #[trigger] cur.has_payload(i) <==> pre.has_payload(i) && cur.has_id(i)
    &&& forall|n: Seq<u8>, i: u64|
        #[trigger] cur.alias_maps(n, i) <==> pre.alias_maps(n, i) && cur.has_id(i)
    &&& forall|a: u64, b: Option<u64>|
        #[trigger] cur.temp_has(a, b) <==> pre.temp_has(a, b) && (match b {
            Some(i) => cur.has_id(i),
            None => true,
        })
}

/// Everything a finished collection guarantees: the sweep relation, every
/// live id kept, and, when the sweep was not cut short by the clock, exactly
/// the live ids kept.
pub open spec fn gc_post(pre: BlockStore, post: BlockStore, completed: bool) -> bool {
    &&& sweep_inv(pre, post)
    &&& forall|i: u64| pre.has_id(i) && pre.live(i) ==> #[trigger] post.has_id(i)
    &&& completed ==> forall|i: u64| #[trigger] post.has_id(i) <==> pre.has_id(i) && pre.live(i)
}

/// The sweep relation holds reflexively on a well-formed store.
proof fn lemma_sweep_refl(pre: BlockStore)
    requires
        pre.inv(),
    ensures
        sweep_inv(pre, pre),
{
    crate::store::lemma_cids_sub_refl(pre.cids@);
    crate::store::lemma_blocks_sub_refl(pre.blocks@);
    assert forall|p: u64, c: u64| #[trigger] pre.has_edge(p, c) implies pre.has_id(p) && pre.has_id(
        c,
    ) by {
        let e = choose|e: int|
            0 <= e < pre.refs@.len() && (#[trigger] pre.refs@[e]).parent_id == p
                && pre.refs@[e].child_id == c;
    }
    assert forall|i: u64| #[trigger] pre.has_payload(i) implies pre.has_id(i) by {
        let k = choose|k: int|
            0 <= k < pre.blocks@.len() && (#[trigger] pre.blocks@[k]).block_id == i;
    }
    assert forall|n: Seq<u8>, i: u64| #[trigger] pre.alias_maps(n, i) implies pre.has_id(i) by {
        let k = choose|k: int|
            0 <= k < pre.aliases@.len() && (#[trigger] pre.aliases@[k]).name@ == n
                && pre.aliases@[k].block_id == i;
    }
    assert forall|a: u64, b: Option<u64>| #[trigger] pre.temp_has(a, b) implies (match b {
        Some(i) => pre.has_id(i),
        None => true,
    }) by {
        let k = choose|k: int|
            0 <= k < pre.temp_aliases@.len() && (#[trigger] pre.temp_aliases@[k]).alias == a
                && pre.temp_aliases@[k].block_id == b;
    }
}

/// The sweep relation absorbs one more cascading deletion.
proof fn lemma_sweep_compose(pre: BlockStore, mid: BlockStore, post: BlockStore, x: u64)
    requires
        sweep_inv(pre, mid),
        delete_step(mid, post, x),
    ensures
        sweep_inv(pre, post),
{
    lemma_cids_sub_trans(pre.cids@, mid.cids@, post.cids@);
    lemma_blocks_sub_trans(pre.blocks@, mid.blocks@, post.blocks@);
}

/// Keep every reference row that does not touch id `x`, with ghost index
/// maps in both directions.
fn refs_rows_without(src: &Vec<RefRow>, x: u64) -> (r: (
    Vec<RefRow>,
    Ghost<Seq<int>>,
    Ghost<Map<int, int>>,
))
    ensures
        r.1@.len() == r.0@.len(),
        forall|m: int|
            0 <= m < r.0@.len() ==> 0 <= #[trigger] r.1@[m] < src@.len() && r.0@[m]
                == src@[r.1@[m]] && src@[r.1@[m]].parent_id != x && src@[r.1@[m]].child_id != x,
        forall|m1: int, m2: int|
            0 <= m1 < m2 < r.1@.len() ==> #[trigger] r.1@[m1] < #[trigger] r.1@[m2],
        forall|s: int|
            0 <= s < src@.len() && (#[trigger] src@[s]).parent_id != x && src@[s].child_id != x
                ==> r.2@.dom().contains(s) && 0 <= r.2@[s] < r.0@.len() && r.0@[r.2@[s]]
                == src@[s],
{
    let mut kept: Vec<RefRow> = Vec::new();
    let mut k: usize = 0;
    let ghost mut origin: Seq<int> = Seq::empty();
    let ghost mut back: Map<int, int> = Map::empty();
    while k < src.len()
        invariant
            0 <= k <= src@.len(),
            origin.len() == kept@.len(),
            forall|m: int|
                0 <= m < kept@.len() ==> 0 <= #[trigger] origin[m] < k && kept@[m]
                    == src@[origin[m]] && src@[origin[m]].parent_id != x && src@[origin[m]].child_id
                    != x,
            forall|m1: int, m2: int|
                0 <= m1 < m2 < origin.len() ==> #[trigger] origin[m1] < #[trigger] origin[m2],
            forall|s: int|
                0 <= s < k && (#[trigger] src@[s]).parent_id != x && src@[s].child_id != x
                    ==> back.dom().contains(s) && 0 <= back[s] < kept@.len() && kept@[back[s]]
                    == src@[s],
        decreases src@.len() - k,
    {
        if src[k].parent_id != x && src[k].child_id != x {
            proof {
                back = back.insert(k as int, kept@.len() as int);
                origin = origin.push(k as int);
            }
            kept.push(src[k]);
        }
        k += 1;
    }
    (kept, Ghost(origin), Ghost(back))
}

/// Keep every alias row whose target is not id `x`, with ghost index maps.
fn alias_rows_without_target(src: &Vec<AliasRow>, x: u64) -> (r: (
    Vec<AliasRow>,
    Ghost<Seq<int>>,
    Ghost<Map<int, int>>,
))
    ensures
        r.1@.len() == r.0@.len(),
        forall|m: int|
            0 <= m < r.0@.len() ==> 0 <= #[trigger] r.1@[m] < src@.len() && (r.0@[m]).name@
                == src@[r.1@[m]].name@ && (r.0@[m]).block_id == src@[r.1@[m]].block_id
                && src@[r.1@[m]].block_id != x,
        forall|m1: int, m2: int|
            0 <= m1 < m2 < r.1@.len() ==> #[trigger] r.1@[m1] < #[trigger] r.1@[m2],
        forall|s: int|
            0 <= s < src@.len() && (#[trigger] src@[s]).block_id != x ==> r.2@.dom().contains(s)
                && 0 <= r.2@[s] < r.0@.len() && (r.0@[r.2@[s]]).name@ == src@[s].name@ && (
            r.0@[r.2@[s]]).block_id == src@[s].block_id,
{
    let mut kept: Vec<AliasRow> = Vec::new();
    let mut k: usize = 0;
    let ghost mut origin: Seq<int> = Seq::empty();
    let ghost mut back: Map<int, int> = Map::empty();
    while k < src.len()
        invariant
            0 <= k <= src@.len(),
            origin.len() == kept@.len(),
            forall|m: int|
                0 <= m < kept@.len() ==> 0 <= #[trigger] origin[m] < k && (kept@[m]).name@
                    == src@[origin[m]].name@ && (kept@[m]).block_id == src@[origin[m]].block_id
                    && src@[origin[m]].block_id != x,
            forall|m1: int, m2: int|
                0 <= m1 < m2 < origin.len() ==> #[trigger] origin[m1] < #[trigger] origin[m2],
            forall|s: int|
                0 <= s < k && (#[trigger] src@[s]).block_id != x ==> back.dom().contains(s) && 0
                    <= back[s] < kept@.len() && (kept@[back[s]]).name@ == src@[s].name@ && (
                kept@[back[s]]).block_id == src@[s].block_id,
        decreases src@.len() - k,
    {
        if src[k].block_id != x {
            proof {
                back = back.insert(k as int, kept@.len() as int);
                origin = origin.push(k as int);
            }
            let name = crate::store::copy_bytes(src[k].name.as_slice());
            kept.push(AliasRow { name, block_id: src[k].block_id });
        }
        k += 1;
    }
    (kept, Ghost(origin), Ghost(back))
}

/// Keep every temp-alias row that does not pin id `x`, with ghost index maps.
fn temp_rows_without_target(src: &Vec<TempRow>, x: u64) -> (r: (
    Vec<TempRow>,
    Ghost<Seq<int>>,
    Ghost<Map<int, int>>,
))
    ensures
        r.1@.len() == r.0@.len(),
        forall|m: int|
            0 <= m < r.0@.len() ==> 0 <= #[trigger] r.1@[m] < src@.len() && r.0@[m]
                == src@[r.1@[m]] && src@[r.1@[m]].block_id != Some(x),
        forall|m1: int, m2: int|
            0 <= m1 < m2 < r.1@.len() ==> #[trigger] r.1@[m1] < #[trigger] r.1@[m2],
        forall|s: int|
            0 <= s < src@.len() && (#[trigger] src@[s]).block_id != Some(x) ==> r.2@.dom().contains(
                s,
            ) && 0 <= r.2@[s] < r.0@.len() && r.0@[r.2@[s]] == src@[s],
{
    let mut kept: Vec<TempRow> = Vec::new();
    let mut k: usize = 0;
    let ghost mut origin: Seq<int> = Seq::empty();
    let ghost mut back: Map<int, int> = Map::empty();
    while k < src.len()
        invariant
            0 <= k <= src@.len(),
            origin.len() == kept@.len(),
            forall|m: int|
                0 <= m < kept@.len() ==> 0 <= #[trigger] origin[m] < k && kept@[m]
                    == src@[origin[m]] && src@[origin[m]].block_id != Some(x),
            forall|m1: int, m2: int|
                0 <= m1 < m2 < origin.len() ==> #[trigger] origin[m1] < #[trigger] origin[m2],
            forall|s: int|
                0 <= s < k && (#[trigger] src@[s]).block_id != Some(x) ==> back.dom().contains(s)
                    && 0 <= back[s] < kept@.len() && kept@[back[s]] == src@[s],
        decreases src@.len() - k,
    {
        let keep = match src[k].block_id {
            Some(i) => i != x,
            None => true,
        };
        if keep {
            proof {
                back = back.insert(k as int, kept@.len() as int);
                origin = origin.push(k as int);
            }
            kept.push(src[k]);
        }
        k += 1;
    }
    (kept, Ghost(origin), Ghost(back))
}

impl BlockStore {
    /// Is id `i` interned?
    fn id_present(&self, i: u64) -> (r: bool)
        ensures
            r <==> self.has_id(i),
    {
        let mut k: usize = 0;
        while k < self.cids.len()
            invariant
                0 <= k <= self.cids@.len(),
                forall|j: int| 0 <= j < k ==> (#[trigger] self.cids@[j]).id != i,
            decreases self.cids@.len() - k,
        {
            if self.cids[k].id == i {
                return true;
            }
            k += 1;
        }
        proof {
            if self.has_id(i) {
                let w = choose|w: int|
                    0 <= w < self.cids@.len() && (#[trigger] self.cids@[w]).id == i;
            }
        }
        false
    }

    /// Index of the identifier row carrying id `i`, if any.
    fn find_id_row(&self, i: u64) -> (r: Option<usize>)
        ensures
            match r {
                Some(k) => k < self.cids@.len() && self.cids@[k as int].id == i,
                None => !self.has_id(i),
            },
    {
        let mut k: usize = 0;
        while k < self.cids.len()
            invariant
                0 <= k <= self.cids@.len(),
                forall|j: int| 0 <= j < k ==> (#[trigger] self.cids@[j]).id != i,
            decreases self.cids@.len() - k,
        {
            if self.cids[k].id == i {
                return Some(k);
            }
            k += 1;
        }
        proof {
            if self.has_id(i) {
                let w = choose|w: int|
                    0 <= w < self.cids@.len() && (#[trigger] self.cids@[w]).id == i;
            }
        }
        None
    }

    /// Delete id `x` from the identifier table and cascade: its payload, its
    /// incident edges, and every alias or temp-alias row pinning it.
    fn delete_id(&mut self, x: u64)
        requires
            old(self).inv(),
            old(self).has_id(x),
        ensures
            delete_step(*old(self), *final(self), x),
    {
        let ghost pre = *old(self);
        // identifier row
        let found = match self.find_id_row(x) {
            Some(k) => k,
            None => {
                proof {
                    assert(false);
                }
                unreached()
            },
        };
        self.cids.remove(found);
        proof {
            lemma_cids_remove(pre.cids@, found as int);
            assert forall|i: u64| #[trigger] self.has_id(i) <==> pre.has_id(i) && i != x by {
                assert(rows_have_id(self.cids@, i) <==> rows_have_id(pre.cids@, i) && i
                    != pre.cids@[found as int].id);
            }
        }
        let ghost s1 = *self;
        // payload row
        match self.find_payload(x) {
            Some(kp) => {
                self.blocks.remove(kp);
                proof {
                    lemma_blocks_remove(s1.blocks@, kp as int);
                }
            },
            None => {
                proof {
                    crate::store::lemma_blocks_sub_refl(s1.blocks@);
                }
            },
        }
        let ghost s2 = *self;
        // reference rows
        let refs_r = refs_rows_without(&self.refs, x);
        self.refs = refs_r.0;
        let ghost refs_origin = refs_r.1@;
        let ghost refs_back = refs_r.2@;
        // alias rows
        let alias_r = alias_rows_without_target(&self.aliases, x);
        self.aliases = alias_r.0;
        let ghost alias_origin = alias_r.1@;
        let ghost alias_back = alias_r.2@;
        // temp-alias rows
        let temp_r = temp_rows_without_target(&self.temp_aliases, x);
        self.temp_aliases = temp_r.0;
        let ghost temp_origin = temp_r.1@;
        let ghost temp_back = temp_r.2@;
        proof {
            let post = *self;
            assert(post.cids@ == s1.cids@ && post.blocks@ == s2.blocks@);
            // edges
            assert forall|p: u64, c: u64| #[trigger] post.has_edge(p, c) implies pre.has_edge(p, c)
                && p != x && c != x by {
                let m = choose|m: int|
                    0 <= m < post.refs@.len() && (#[trigger] post.refs@[m]).parent_id == p
                        && post.refs@[m].child_id == c;
                assert(post.refs@[m] == pre.refs@[refs_origin[m]]);
                assert(pre.refs@[refs_origin[m]].parent_id == p && pre.refs@[refs_origin[m]].child_id
                    == c);
            }
            assert forall|p: u64, c: u64|
                pre.has_edge(p, c) && p != x && c != x implies #[trigger] post.has_edge(p, c) by {
                let s = choose|s: int|
                    0 <= s < pre.refs@.len() && (#[trigger] pre.refs@[s]).parent_id == p
                        && pre.refs@[s].child_id == c;
                assert(post.refs@[refs_back[s]] == pre.refs@[s]);
                assert(post.refs@[refs_back[s]].parent_id == p && post.refs@[refs_back[s]].child_id
                    == c);
            }
            // payloads
            assert forall|i: u64| #[trigger] post.has_payload(i) <==> pre.has_payload(i) && i
                != x by {
                if pre.has_payload(x) {
                    let kp = crate::store::rows_payload_index(pre.blocks@, x);
                }
            }
            // aliases
            assert forall|n: Seq<u8>, i: u64| #[trigger] post.alias_maps(n, i) implies pre
                .alias_maps(n, i) && i != x by {
                let m = choose|m: int|
                    0 <= m < post.aliases@.len() && (#[trigger] post.aliases@[m]).name@ == n
                        && post.aliases@[m].block_id == i;
                assert((post.aliases@[m]).name@ == pre.aliases@[alias_origin[m]].name@ && (
                post.aliases@[m]).block_id == pre.aliases@[alias_origin[m]].block_id);
                assert(pre.aliases@[alias_origin[m]].name@ == n
                    && pre.aliases@[alias_origin[m]].block_id == i);
            }
            assert forall|n: Seq<u8>, i: u64|
                pre.alias_maps(n, i) && i != x implies #[trigger] post.alias_maps(n, i) by {
                let s = choose|s: int|
                    0 <= s < pre.aliases@.len() && (#[trigger] pre.aliases@[s]).name@ == n
                        && pre.aliases@[s].block_id == i;
                assert((post.aliases@[alias_back[s]]).name@ == n && (
                post.aliases@[alias_back[s]]).block_id == i);
            }
            // temp aliases
            assert forall|a: u64, b: Option<u64>| #[trigger] post.temp_has(a, b) implies pre
                .temp_has(a, b) && b != Some(x) by {
                let m = choose|m: int|
                    0 <= m < post.temp_aliases@.len() && (#[trigger] post.temp_aliases@[m]).alias
                        == a && post.temp_aliases@[m].block_id == b;
                assert(post.temp_aliases@[m] == pre.temp_aliases@[temp_origin[m]]);
            }
            assert forall|a: u64, b: Option<u64>|
                pre.temp_has(a, b) && b != Some(x) implies #[trigger] post.temp_has(a, b) by {
                let s = choose|s: int|
                    0 <= s < pre.temp_aliases@.len() && (#[trigger] pre.temp_aliases@[s]).alias
                        == a && pre.temp_aliases@[s].block_id == b;
                assert(post.temp_aliases@[temp_back[s]] == pre.temp_aliases@[s]);
            }
            // the invariant of the shrunken store
            assert(post.cids_ok()) by {
                assert forall|j1: int, j2: int|
                    0 <= j1 < j2 < post.cids@.len() implies (#[trigger] post.cids@[j1]).id != (
                #[trigger] post.cids@[j2]).id && post.cids@[j1].cid@ != post.cids@[j2].cid@ by {
                    pre.cids@.remove_ensures(found as int);
                    let s1i: int = if j1 < found as int {
                        j1
                    } else {
                        j1 + 1
                    };
                    let s2i: int = if j2 < found as int {
                        j2
                    } else {
                        j2 + 1
                    };
                    assert(post.cids@[j1] == pre.cids@[s1i] && post.cids@[j2] == pre.cids@[s2i]);
                }
                assert forall|j: int| 0 <= j < post.cids@.len() implies 1 <= (
                #[trigger] post.cids@[j]).id < post.next_id by {
                    pre.cids@.remove_ensures(found as int);
                    let si: int = if j < found as int {
                        j
                    } else {
                        j + 1
                    };
                    assert(post.cids@[j] == pre.cids@[si]);
                }
            }
            assert(post.refs_ok()) by {
                assert forall|j1: int, j2: int|
                    0 <= j1 < j2 < post.refs@.len() implies (#[trigger] post.refs@[j1]) != (
                #[trigger] post.refs@[j2]) by {
                    assert(refs_origin[j1] < refs_origin[j2]);
                    assert(post.refs@[j1] == pre.refs@[refs_origin[j1]] && post.refs@[j2]
                        == pre.refs@[refs_origin[j2]]);
                    assert(pre.refs@[refs_origin[j1]] != pre.refs@[refs_origin[j2]]);
                }
                assert forall|j: int| 0 <= j < post.refs@.len() implies {
                    &&& rows_have_id(post.cids@, (#[trigger] post.refs@[j]).parent_id)
                    &&& rows_have_id(post.cids@, post.refs@[j].child_id)
                    &&& crate::store::rows_have_payload(post.blocks@, post.refs@[j].parent_id)
                } by {
                    let p = post.refs@[j].parent_id;
                    let c = post.refs@[j].child_id;
                    assert(post.has_edge(p, c));
                    assert(pre.has_edge(p, c) && p != x && c != x);
                    assert(pre.has_id(p) && pre.has_id(c) && pre.has_payload(p));
                    assert(post.has_id(p) && post.has_id(c) && post.has_payload(p));
                }
            }
            assert(post.blocks_ok()) by {
                assert forall|j1: int, j2: int|
                    0 <= j1 < j2 < post.blocks@.len() implies (#[trigger] post.blocks@[j1]).block_id
                    != (#[trigger] post.blocks@[j2]).block_id by {
                    if pre.has_payload(x) {
                        let kp = crate::store::rows_payload_index(pre.blocks@, x);
                        pre.blocks@.remove_ensures(kp);
                        let s1i: int = if j1 < kp {
                            j1
                        } else {
                            j1 + 1
                        };
                        let s2i: int = if j2 < kp {
                            j2
                        } else {
                            j2 + 1
                        };
                        assert(post.blocks@[j1] == pre.blocks@[s1i] && post.blocks@[j2]
                            == pre.blocks@[s2i]);
                    }
                }
                assert forall|j: int| 0 <= j < post.blocks@.len() implies rows_have_id(
                    post.cids@,
                    (#[trigger] post.blocks@[j]).block_id,
                ) by {
                    let i = post.blocks@[j].block_id;
                    assert(post.has_payload(i));
                    assert(pre.has_payload(i) && i != x);
                    assert(pre.has_id(i));
                    assert(post.has_id(i));
                }
            }
            assert(post.aliases_ok()) by {
                assert forall|j1: int, j2: int|
                    0 <= j1 < j2 < post.aliases@.len() implies (#[trigger] post.aliases@[j1]).name@
                    != (#[trigger] post.aliases@[j2]).name@ by {
                    assert(alias_origin[j1] < alias_origin[j2]);
                    assert((post.aliases@[j1]).name@ == pre.aliases@[alias_origin[j1]].name@ && (
                    post.aliases@[j2]).name@ == pre.aliases@[alias_origin[j2]].name@);
                    assert(pre.aliases@[alias_origin[j1]].name@
                        != pre.aliases@[alias_origin[j2]].name@);
                }
                assert forall|j: int| 0 <= j < post.aliases@.len() implies rows_have_id(
                    post.cids@,
                    (#[trigger] post.aliases@[j]).block_id,
                ) by {
                    let i = post.aliases@[j].block_id;
                    assert(post.alias_maps((post.aliases@[j]).name@, i));
                    assert(pre.alias_maps((post.aliases@[j]).name@, i) && i != x);
                    assert(pre.has_id(i));
                    assert(post.has_id(i));
                }
            }
            assert(post.temp_ok()) by {
                assert forall|j1: int, j2: int|
                    0 <= j1 < j2 < post.temp_aliases@.len() implies (
                #[trigger] post.temp_aliases@[j1]) != (#[trigger] post.temp_aliases@[j2]) by {
                    assert(temp_origin[j1] < temp_origin[j2]);
                    assert(post.temp_aliases@[j1] == pre.temp_aliases@[temp_origin[j1]]
                        && post.temp_aliases@[j2] == pre.temp_aliases@[temp_origin[j2]]);
                    assert(pre.temp_aliases@[temp_origin[j1]]
                        != pre.temp_aliases@[temp_origin[j2]]);
                }
                assert forall|j: int| 0 <= j < post.temp_aliases@.len() implies match (
                #[trigger] post.temp_aliases@[j]).block_id {
                    Some(i) => rows_have_id(post.cids@, i),
                    None => true,
                } by {
                    assert(post.temp_aliases@[j] == pre.temp_aliases@[temp_origin[j]]);
                    match post.temp_aliases@[j].block_id {
                        Some(i) => {
                            assert(post.temp_has(post.temp_aliases@[j].alias, Some(i)));
                            assert(pre.temp_has(post.temp_aliases@[j].alias, Some(i)) && Some(i)
                                != Some(x));
                            assert(pre.has_id(i));
                            assert(post.has_id(i));
                        },
                        None => {},
                    }
                }
            }
        }
    }

    /// Every id some named alias or temp alias pins, each once.
    fn collect_roots(&self) -> (r: Vec<u64>)
        requires
            self.inv(),
        ensures
            ids_distinct(r@),
            ids_interned(*self, r@),
            forall|m: int| 0 <= m < r@.len() ==> self.is_root(#[trigger] r@[m]),
            forall|i: u64| #[trigger] self.is_root(i) ==> r@.contains(i),
    {
        let mut roots: Vec<u64> = Vec::new();
        let mut k: usize = 0;
        while k < self.aliases.len()
            invariant
                self.inv(),
                0 <= k <= self.aliases@.len(),
                ids_distinct(roots@),
                ids_interned(*self, roots@),
                forall|m: int| 0 <= m < roots@.len() ==> self.is_root(#[trigger] roots@[m]),
                forall|j: int|
                    0 <= j < k ==> roots@.contains((#[trigger] self.aliases@[j]).block_id),
            decreases self.aliases@.len() - k,
        {
            let i = self.aliases[k].block_id;
            if !contains_id(&roots, i) {
                let ghost r0 = roots@;
                roots.push(i);
                proof {
                    assert(roots@.drop_last() =~= r0);
                    assert(self.is_root(i)) by {
                        assert((#[trigger] self.aliases@[k as int]).block_id == i);
                    }
                    assert(self.has_id(i)) by {
                        assert(rows_have_id(self.cids@, self.aliases@[k as int].block_id));
                    }
                    assert forall|m1: int, m2: int|
                        0 <= m1 < m2 < roots@.len() implies roots@[m1] != roots@[m2] by {
                        if m2 == r0.len() as int {
                            if roots@[m1] == i {
                                assert(r0.contains(i)) by {
                                    assert(r0[m1] == i);
                                }
                            }
                        }
                    }
                    assert forall|j: int| 0 <= j < k + 1 implies roots@.contains(
                        (#[trigger] self.aliases@[j]).block_id,
                    ) by {
                        if j < k {
                            let w = choose|w: int|
                                0 <= w < r0.len() && r0[w] == self.aliases@[j].block_id;
                            assert(roots@[w] == self.aliases@[j].block_id);
                        } else {
                            assert(roots@[r0.len() as int] == i);
                        }
                    }
                }
            } else {
                proof {
                    assert forall|j: int| 0 <= j < k + 1 implies roots@.contains(
                        (#[trigger] self.aliases@[j]).block_id,
                    ) by {}
                }
            }
            k += 1;
        }
        let ghost n_aliases = k;
        let mut k2: usize = 0;
        while k2 < self.temp_aliases.len()
            invariant
                self.inv(),
                0 <= k2 <= self.temp_aliases@.len(),
                ids_distinct(roots@),
                ids_interned(*self, roots@),
                forall|m: int| 0 <= m < roots@.len() ==> self.is_root(#[trigger] roots@[m]),
                forall|j: int|
                    0 <= j < self.aliases@.len() ==> roots@.contains(
                        (#[trigger] self.aliases@[j]).block_id,
                    ),
                forall|j: int|
                    0 <= j < k2 ==> match (#[trigger] self.temp_aliases@[j]).block_id {
                        Some(i) => roots@.contains(i),
                        None => true,
                    },
            decreases self.temp_aliases@.len() - k2,
        {
            let target = self.temp_aliases[k2].block_id;
            match target {
                Some(i) => {
                    if !contains_id(&roots, i) {
                        let ghost r0 = roots@;
                        roots.push(i);
                        proof {
                            assert(roots@.drop_last() =~= r0);
                            assert(self.is_root(i)) by {
                                assert((#[trigger] self.temp_aliases@[k2 as int]).block_id == Some(
                                    i,
                                ));
                            }
                            assert(self.has_id(i)) by {
                                assert(match self.temp_aliases@[k2 as int].block_id {
                                    Some(b) => rows_have_id(self.cids@, b),
                                    None => true,
                                });
                            }
                            assert forall|m1: int, m2: int|
                                0 <= m1 < m2 < roots@.len() implies roots@[m1] != roots@[m2] by {
                                if m2 == r0.len() as int {
                                    if roots@[m1] == i {
                                        assert(r0.contains(i)) by {
                                            assert(r0[m1] == i);
                                        }
                                    }
                                }
                            }
                            assert forall|j: int|
                                0 <= j < self.aliases@.len() implies roots@.contains(
                                (#[trigger] self.aliases@[j]).block_id,
                            ) by {
                                let w = choose|w: int|
                                    0 <= w < r0.len() && r0[w] == self.aliases@[j].block_id;
                                assert(roots@[w] == self.aliases@[j].block_id);
                            }
                            assert forall|j: int| 0 <= j < k2 + 1 implies match (
                            #[trigger] self.temp_aliases@[j]).block_id {
                                Some(b) => roots@.contains(b),
                                None => true,
                            } by {
                                if j < k2 {
                                    match self.temp_aliases@[j].block_id {
                                        Some(b) => {
                                            let w = choose|w: int|
                                                0 <= w < r0.len() && r0[w] == b;
                                            assert(roots@[w] == b);
                                        },
                                        None => {},
                                    }
                                } else {
                                    assert(roots@[r0.len() as int] == i);
                                }
                            }
                        }
                    } else {
                        proof {
                            assert forall|j: int| 0 <= j < k2 + 1 implies match (
                            #[trigger] self.temp_aliases@[j]).block_id {
                                Some(b) => roots@.contains(b),
                                None => true,
                            } by {}
                        }
                    }
                },
                None => {
                    proof {
                        assert forall|j: int| 0 <= j < k2 + 1 implies match (
                        #[trigger] self.temp_aliases@[j]).block_id {
                            Some(b) => roots@.contains(b),
                            None => true,
                        } by {}
                    }
                },
            }
            k2 += 1;
        }
        proof {
            assert forall|i: u64| #[trigger] self.is_root(i) implies roots@.contains(i) by {
                if exists|j: int|
                    0 <= j < self.aliases@.len() && (#[trigger] self.aliases@[j]).block_id == i {
                    let j = choose|j: int|
                        0 <= j < self.aliases@.len() && (#[trigger] self.aliases@[j]).block_id
                            == i;
                    assert(roots@.contains(self.aliases@[j].block_id));
                } else {
                    let j = choose|j: int|
                        0 <= j < self.temp_aliases@.len() && (
                        #[trigger] self.temp_aliases@[j]).block_id == Some(i);
                    assert(match self.temp_aliases@[j].block_id {
                        Some(b) => roots@.contains(b),
                        None => true,
                    });
                }
            }
        }
        roots
    }

    /// One incremental collection: mark everything reachable from the
    /// aliases, then delete unreachable ids one by one. The deletion loop
    /// stops early only once more than `min_blocks` ids are gone and more
    /// than `max_duration_micros` microseconds have passed, so forward
    /// progress never depends on the clock: a run that reports `false` has
    /// deleted at least `min_blocks + 1` ids. The returned flag says whether
    /// the sweep ran to completion.
    #[verifier::rlimit(100)]
    pub fn incremental_gc(&mut self, min_blocks: usize, max_duration_micros: u64) -> (completed:
        bool)
        requires
            old(self).inv(),
        ensures
            gc_post(*old(self), *final(self), completed),
            !completed ==> old(self).cids@.len() >= final(self).cids@.len() + min_blocks + 1,
    {
        let ghost pre = *old(self);
        let t0 = monotonic_now();
        let roots = self.collect_roots();
        let pair = self.reachable_from(&roots);
        let vis = pair.0;
        let ghost ridx = pair.1@;
        proof {
            assert forall|i: u64| #[trigger] pre.live(i) implies vis@.contains(i) by {
                let r = choose|r: u64| pre.is_root(r) && #[trigger] pre.reaches(r, i);
                assert(roots@.contains(r));
                let j = choose|j: int| 0 <= j < roots@.len() && roots@[j] == r;
                assert(pre.reaches(roots@[j], i));
            }
            assert forall|m: int| 0 <= m < vis@.len() implies pre.live(#[trigger] vis@[m]) by {
                assert(0 <= ridx[m] < roots@.len() && pre.reaches(roots@[ridx[m]], vis@[m]));
                assert(pre.is_root(roots@[ridx[m]]));
            }
        }
        // collect the unreachable ids, with ghost index maps
        let mut dead: Vec<u64> = Vec::new();
        let ghost mut dorigin: Seq<int> = Seq::empty();
        let ghost mut dpos: Map<u64, int> = Map::empty();
        let mut k: usize = 0;
        while k < self.cids.len()
            invariant
                *self == pre,
                self.inv(),
                0 <= k <= self.cids@.len(),
                dorigin.len() == dead@.len(),
                forall|m: int|
                    0 <= m < dead@.len() ==> 0 <= #[trigger] dorigin[m] < k
                        && self.cids@[dorigin[m]].id == dead@[m],
                forall|m1: int, m2: int|
                    0 <= m1 < m2 < dorigin.len() ==> #[trigger] dorigin[m1] < #[trigger] dorigin[m2],
                forall|m: int| 0 <= m < dead@.len() ==> !pre.live(#[trigger] dead@[m]),
                forall|m: int| 0 <= m < vis@.len() ==> pre.live(#[trigger] vis@[m]),
                forall|i: u64| #[trigger] pre.live(i) ==> vis@.contains(i),
                forall|j: int|
                    0 <= j < k && !pre.live((#[trigger] self.cids@[j]).id) ==> dpos.dom().contains(
                        self.cids@[j].id,
                    ) && 0 <= dpos[self.cids@[j].id] < dead@.len() && dead@[dpos[self.cids@[j].id]]
                        == self.cids@[j].id,
            decreases self.cids@.len() - k,
        {
            let i = self.cids[k].id;
            if !contains_id(&vis, i) {
                proof {
                    dpos = dpos.insert(i, dead@.len() as int);
                    dorigin = dorigin.push(k as int);
                }
                dead.push(i);
                proof {
                    assert(!pre.live(i)) by {
                        if pre.live(i) {
                            assert(vis@.contains(i));
                        }
                    }
                }
            } else {
                proof {
                    assert(pre.live(i)) by {
                        let w = choose|w: int| 0 <= w < vis@.len() && vis@[w] == i;
                        assert(pre.live(vis@[w]));
                    }
                }
            }
            k += 1;
        }
        proof {
            assert forall|m1: int, m2: int|
                0 <= m1 < m2 < dead@.len() implies dead@[m1] != dead@[m2] by {
                assert(dorigin[m1] < dorigin[m2]);
                assert(self.cids@[dorigin[m1]].id == dead@[m1] && self.cids@[dorigin[m2]].id
                    == dead@[m2]);
                assert((#[trigger] self.cids@[dorigin[m1]]).id != (
                #[trigger] self.cids@[dorigin[m2]]).id);
            }
            assert(ids_distinct(dead@));
            assert forall|m: int| 0 <= m < dead@.len() implies self.has_id(
                #[trigger] dead@[m],
            ) by {
                assert((#[trigger] self.cids@[dorigin[m]]).id == dead@[m]);
            }
            assert(ids_interned(*self, dead@));
            assert forall|i: u64|
                pre.has_id(i) && !pre.live(i) implies dpos.dom().contains(i) && 0 <= dpos[i]
                    < dead@.len() && dead@[dpos[i]] == i by {
                let j = choose|j: int|
                    0 <= j < pre.cids@.len() && (#[trigger] pre.cids@[j]).id == i;
            }
        }
        // sweep under the budget
        let mut n: usize = 0;
        let mut completed: bool = true;
        proof {
            lemma_sweep_refl(pre);
        }
        while n < dead.len()
            invariant_except_break
                completed,
            invariant
                0 <= n <= dead@.len(),
                ids_distinct(dead@),
                sweep_inv(pre, *self),
                self.cids@.len() + n == pre.cids@.len(),
                forall|m: int| 0 <= m < dead@.len() ==> !pre.live(#[trigger] dead@[m]),
                forall|m: int| n <= m < dead@.len() ==> self.has_id(#[trigger] dead@[m]),
                forall|m: int| 0 <= m < n ==> !self.has_id(#[trigger] dead@[m]),
                forall|i: u64| pre.has_id(i) && pre.live(i) ==> #[trigger] self.has_id(i),
            ensures
                sweep_inv(pre, *self),
                0 <= n <= dead@.len(),
                forall|m: int| 0 <= m < n ==> !self.has_id(#[trigger] dead@[m]),
                forall|i: u64| pre.has_id(i) && pre.live(i) ==> #[trigger] self.has_id(i),
                completed ==> n == dead@.len(),
                !completed ==> pre.cids@.len() >= self.cids@.len() + min_blocks + 1,
            decreases dead@.len() - n,
        {
            if n > min_blocks && elapsed_exceeds(&t0, max_duration_micros) {
                completed = false;
                break ;
            }
            let ghost mid = *self;
            let x = dead[n];
            self.delete_id(x);
            proof {
                lemma_sweep_compose(pre, mid, *self, x);
                assert forall|m: int| n + 1 <= m < dead@.len() implies self.has_id(
                    #[trigger] dead@[m],
                ) by {
                    assert(mid.has_id(dead@[m]));
                    assert(dead@[m] != x);
                }
                assert forall|m: int| 0 <= m < n + 1 implies !self.has_id(#[trigger] dead@[m]) by {
                    if m < n {
                        assert(!mid.has_id(dead@[m]));
                        if self.has_id(dead@[m]) {
                            assert(mid.has_id(dead@[m]));
                        }
                    } else {
                        assert(dead@[m] == x);
                    }
                }
                assert forall|i: u64| pre.has_id(i) && pre.live(i) implies #[trigger] self.has_id(
                    i,
                ) by {
                    assert(mid.has_id(i));
                    assert(!pre.live(x));
                    assert(i != x);
                }
            }
            n += 1;
        }
        proof {
            if completed {
                assert forall|i: u64| #[trigger] self.has_id(i) implies pre.has_id(i) && pre.live(
                    i,
                ) by {
                    if !pre.live(i) {
                        assert(pre.has_id(i));
                        assert(dead@[dpos[i]] == i && 0 <= dpos[i] < dead@.len());
                        assert(!self.has_id(dead@[dpos[i]]));
                    }
                }
            }
        }
        completed
    }

    /// Run a collection with the default budget: at least ten thousand
    /// deletions, then stop once more than a second has passed.
    pub fn gc(&mut self) -> (completed: bool)
        requires
            old(self).inv(),
        ensures
            gc_post(*old(self), *final(self), completed),
            !completed ==> old(self).cids@.len() >= final(self).cids@.len() + 10001,
    {
        self.incremental_gc(10000, 1000000)
    }

    /// How many payload rows lost their identifier row. The cascade makes
    /// this impossible, which is exactly what is proved.
    pub fn count_orphaned(&self) -> (r: u32)
        requires
            self.inv(),
        ensures
            r == 0,
    {
        let mut count: u32 = 0;
        let mut k: usize = 0;
        while k < self.blocks.len()
            invariant
                self.inv(),
                count == 0,
                0 <= k <= self.blocks@.len(),
            decreases self.blocks@.len() - k,
        {
            if !self.id_present(self.blocks[k].block_id) {
                proof {
                    assert(rows_have_id(self.cids@, (#[trigger] self.blocks@[k as int]).block_id));
                }
                count += 1;
            }
            k += 1;
        }
        count
    }

    /// Delete payload rows whose identifier row is gone. The cascade keeps
    /// the store free of such orphans, so this is proved to change nothing;
    /// it exists as the second deletion phase the on-disk format calls for.
    pub fn delete_orphaned(&mut self)
        requires
            old(self).inv(),
        ensures
            final(self).inv(),
            final(self).state_eq(*old(self)),
    {
        let mut k: usize = 0;
        while k < self.blocks.len()
            invariant
                *self == *old(self),
                self.inv(),
                0 <= k <= self.blocks@.len(),
            decreases self.blocks@.len() - k,
        {
            if !self.id_present(self.blocks[k].block_id) {
                proof {
                    assert(rows_have_id(self.cids@, (#[trigger] self.blocks@[k as int]).block_id));
                }
            }
            k += 1;
        }
    }
}

} // verus!

//! Mutating operations: named aliases, temporary aliases, and block insertion.
//!
//! Each operation's effect is captured by a transition relation (a spec
//! function over the store before and after the call), so that laws about
//! sequences of operations can be stated and proved over those relations.

use vstd::prelude::*;

use crate::schema::{AliasRow, BlockData, BlockRow, CidRow, RefRow, TempAlias, TempRow};
use crate::store::{bytes_eq, bytes_views, copy_bytes, BlockStore};
use crate::store::{
    rows_cid_at, rows_have_cid, rows_have_edge, rows_have_id, rows_have_payload, rows_id_of,
    rows_payload_at, temp_rows_ok,
};

verus! {

/// Effect of upserting the named alias `name -> i`: every other alias row is
/// kept, any earlier row for `name` is gone, and `name` now pins `i`.
pub open spec fn alias_upsert_post(pre: BlockStore, post: BlockStore, name: Seq<u8>, i: u64) -> bool {
    &&& forall|n: Seq<u8>, j: u64|
        #[trigger] post.alias_maps(n, j) <==> if n == name {
            j == i
        } else {
            pre.alias_maps(n, j)
        }
    &&& forall|n: Seq<u8>| #[trigger] post.has_alias(n) <==> n == name || pre.has_alias(n)
}

/// Effect of removing the named alias `name`: every other alias row is kept.
pub open spec fn alias_remove_post(pre: BlockStore, post: BlockStore, name: Seq<u8>) -> bool {
    &&& forall|n: Seq<u8>, j: u64|
        #[trigger] post.alias_maps(n, j) <==> pre.alias_maps(n, j) && n != name
    &&& forall|n: Seq<u8>| #[trigger] post.has_alias(n) <==> pre.has_alias(n) && n != name
}

/// Effect on the temp-alias table of pinning id `i` under alias `a`: the row
/// is appended unless it is already there (insert-or-ignore).
pub open spec fn pin_post(pre: BlockStore, post: BlockStore, a: u64, i: u64) -> bool {
    if pre.temp_has(a, Some(i)) {
        post.temp_aliases@ == pre.temp_aliases@
    } else {
        post.temp_aliases@ == pre.temp_aliases@.push(TempRow { alias: a, block_id: Some(i) })
    }
}

/// Effect on the temp-alias table of an insertion with an optional pin.
pub open spec fn temp_post(pre: BlockStore, post: BlockStore, pin: Option<u64>, i: u64) -> bool {
    match pin {
        None => post.temp_aliases@ == pre.temp_aliases@,
        Some(a) => pin_post(pre, post, a, i),
    }
}

/// Full effect of `add_block`: the CID is interned and afterwards carries a
/// payload; if a payload already existed, nothing but the optional pin row
/// changes (payloads and edges are immutable); otherwise the payload is
/// appended and an edge is recorded to each link. Named aliases never change.
pub open spec fn add_block_post(
    pre: BlockStore,
    post: BlockStore,
    cid: Seq<u8>,
    data: Seq<u8>,
    links: Seq<Seq<u8>>,
    pin: Option<u64>,
) -> bool {
    &&& post.inv()
    &&& post.aliases@ == pre.aliases@
    &&& post.cid_present(cid)
    &&& post.has_payload(post.id_of(cid))
    &&& forall|c: Seq<u8>| #[trigger] pre.cid_present(c) ==> post.cid_present(c)
    &&& forall|c: Seq<u8>|
        pre.cid_present(c) ==> #[trigger] post.id_of(c) == pre.id_of(c)
    &&& forall|i: u64| #[trigger] pre.has_id(i) ==> post.has_id(i)
    &&& forall|i: u64| pre.has_id(i) ==> #[trigger] post.cid_of(i) == pre.cid_of(i)
    &&& forall|i: u64| #[trigger] post.has_id(i) ==> pre.has_id(i) || pre.next_id <= i
    &&& pre.next_id <= post.next_id <= pre.next_id + 1 + links.len()
    &&& temp_post(pre, post, pin, post.id_of(cid))
    &&& if pre.payload_present_for(cid) {
        &&& post.cids@ == pre.cids@
        &&& post.refs@ == pre.refs@
        &&& post.blocks@ == pre.blocks@
        &&& post.next_id == pre.next_id
    } else {
        &&& forall|c: Seq<u8>|
            #[trigger] post.cid_present(c) <==> pre.cid_present(c) || c == cid || links.contains(c)
        &&& post.blocks@.len() == pre.blocks@.len() + 1
        &&& post.blocks@.drop_last() == pre.blocks@
        &&& post.blocks@.last().block_id == post.id_of(cid)
        &&& post.blocks@.last().data@ == data
        &&& forall|i: u64|
            #[trigger] post.has_payload(i) <==> pre.has_payload(i) || i == post.id_of(cid)
        &&& forall|i: u64|
            pre.has_payload(i) ==> #[trigger] post.payload_of(i) == pre.payload_of(i)
        &&& post.payload_of(post.id_of(cid)) == data
        &&& forall|k: int| 0 <= k < links.len() ==> post.cid_present(#[trigger] links[k])
        &&& forall|p: u64, c: u64|
            #[trigger] post.has_edge(p, c) <==> pre.has_edge(p, c) || (p == post.id_of(cid)
                && exists|k: int| 0 <= k < links.len() && post.id_of(#[trigger] links[k]) == c)
    }
}

/// Copy every row whose alias id differs from `a`, in order. Besides the
/// kept rows, return ghost index maps: `r.1` maps each kept row to its source
/// index, `r.2` maps each kept source index back to its row.
fn rows_without_alias(src: &Vec<TempRow>, a: u64) -> (r: (
    Vec<TempRow>,
    Ghost<Seq<int>>,
    Ghost<Map<int, int>>,
))
    ensures
        r.1@.len() == r.0@.len(),
        forall|m: int|
            0 <= m < r.0@.len() ==> 0 <= #[trigger] r.1@[m] < src@.len() && r.0@[m]
                == src@[r.1@[m]] && src@[r.1@[m]].alias != a,
        forall|m1: int, m2: int|
            0 <= m1 < m2 < r.1@.len() ==> #[trigger] r.1@[m1] < #[trigger] r.1@[m2],
        forall|s: int|
            0 <= s < src@.len() && (#[trigger] src@[s]).alias != a ==> r.2@.dom().contains(s) && 0
                <= r.2@[s] < r.0@.len() && r.0@[r.2@[s]] == src@[s],
{
    let mut kept: Vec<TempRow> = Vec::new();
    let mut k: usize = 0;
    let ghost mut origin: Seq<int> = Seq::empty();
    let ghost mut back: Map<int, int> = Map::empty();
    while k < src.len()
        invariant
            0 <= k <= src@.len(),
            origin.len() == kept@.len(),
            forall|m: int|
                0 <= m < kept@.len() ==> 0 <= #[trigger] origin[m] < k && kept@[m]
                    == src@[origin[m]] && src@[origin[m]].alias != a,
            forall|m1: int, m2: int|
                0 <= m1 < m2 < origin.len() ==> #[trigger] origin[m1] < #[trigger] origin[m2],
            forall|s: int|
                0 <= s < k && (#[trigger] src@[s]).alias != a ==> back.dom().contains(s) && 0
                    <= back[s] < kept@.len() && kept@[back[s]] == src@[s],
        decreases src@.len() - k,
    {
        if src[k].alias != a {
            proof {
                origin = origin.push(k as int);
                back = back.insert(k as int, kept@.len() as int);
            }
            kept.push(src[k]);
        }
        k += 1;
    }
    (kept, Ghost(origin), Ghost(back))
}

/// How many fresh ids a bulk insert may need at most: one per block plus one
/// per link.
pub open spec fn id_need(bs: Seq<BlockData>) -> nat
    decreases bs.len(),
{
    if bs.len() == 0 {
        0
    } else {
        1 + bs.first().links@.len() + id_need(bs.drop_first())
    }
}

/// Effect of a bulk insert: the fold of `add_block` (without a pin) over the
/// blocks, in order.
pub open spec fn add_blocks_post(pre: BlockStore, post: BlockStore, bs: Seq<BlockData>) -> bool
    decreases bs.len(),
{
    if bs.len() == 0 {
        post.state_eq(pre)
    } else {
        exists|mid: BlockStore|
            add_blocks_post(pre, mid, bs.drop_last()) && #[trigger] add_block_post(
                mid,
                post,
                bs.last().cid@,
                bs.last().data@,
                bytes_views(bs.last().links@),
                None,
            )
    }
}

/// The largest alias id among the rows, or 1 for an empty table: the base
/// from which the next temp alias id is computed.
pub open spec fn temp_alias_ceiling(temp: Seq<TempRow>) -> u64
    decreases temp.len(),
{
    if temp.len() == 0 {
        1
    } else {
        let rest = temp_alias_ceiling(temp.drop_last());
        if temp.last().alias > rest {
            temp.last().alias
        } else {
            rest
        }
    }
}

/// One more row raises the ceiling to its alias id if that is larger.
proof fn lemma_temp_ceiling_take(temp: Seq<TempRow>, k: int)
    requires
        0 <= k < temp.len(),
    ensures
        temp_alias_ceiling(temp.take(k + 1)) == if temp[k].alias > temp_alias_ceiling(
            temp.take(k),
        ) {
            temp[k].alias
        } else {
            temp_alias_ceiling(temp.take(k))
        },
{
    assert(temp.take(k + 1).drop_last() =~= temp.take(k));
    assert(temp.take(k + 1).last() == temp[k]);
}

/// A fold extends by one more block.
proof fn lemma_add_blocks_post_snoc(
    pre: BlockStore,
    mid: BlockStore,
    post: BlockStore,
    bs: Seq<BlockData>,
    b: BlockData,
)
    requires
        add_blocks_post(pre, mid, bs),
        add_block_post(mid, post, b.cid@, b.data@, bytes_views(b.links@), None),
    ensures
        add_blocks_post(pre, post, bs.push(b)),
{
    reveal_with_fuel(add_blocks_post, 2);
    assert(bs.push(b).drop_last() =~= bs);
    assert(bs.push(b).last() == b);
    assert(add_blocks_post(pre, mid, bs.push(b).drop_last()));
    assert(add_block_post(
        mid,
        post,
        bs.push(b).last().cid@,
        bs.push(b).last().data@,
        bytes_views(bs.push(b).last().links@),
        None,
    ));
}

impl BlockStore {
    /// Index of the alias row named `name`, if any.
    fn find_alias(&self, name: &[u8]) -> (r: Option<usize>)
        ensures
            match r {
                Some(k) => k < self.aliases@.len() && self.aliases@[k as int].name@ == name@,
                None => !self.has_alias(name@),
            },
    {
        let mut k: usize = 0;
        while k < self.aliases.len()
            invariant
                0 <= k <= self.aliases@.len(),
                forall|j: int| 0 <= j < k ==> (#[trigger] self.aliases@[j]).name@ != name@,
            decreases self.aliases@.len() - k,
        {
            if bytes_eq(self.aliases[k].name.as_slice(), name) {
                return Some(k);
            }
            k += 1;
        }
        None
    }

    /// Does the reference table hold the edge `p -> c`?
    fn edge_present(&self, p: u64, c: u64) -> (r: bool)
        ensures
            r <==> self.has_edge(p, c),
    {
        let mut k: usize = 0;
        while k < self.refs.len()
            invariant
                0 <= k <= self.refs@.len(),
                forall|j: int|
                    0 <= j < k ==> !((#[trigger] self.refs@[j]).parent_id == p
                        && self.refs@[j].child_id == c),
            decreases self.refs@.len() - k,
        {
            if self.refs[k].parent_id == p && self.refs[k].child_id == c {
                return true;
            }
            k += 1;
        }
        false
    }

    /// Does the temp-alias table hold the pin row `(a, Some(i))`?
    fn temp_row_present(&self, a: u64, i: u64) -> (r: bool)
        ensures
            r <==> self.temp_has(a, Some(i)),
    {
        let mut k: usize = 0;
        while k < self.temp_aliases.len()
            invariant
                0 <= k <= self.temp_aliases@.len(),
                forall|j: int|
                    0 <= j < k ==> !((#[trigger] self.temp_aliases@[j]).alias == a
                        && self.temp_aliases@[j].block_id == Some(i)),
            decreases self.temp_aliases@.len() - k,
        {
            let row = self.temp_aliases[k];
            let hit = match row.block_id {
                Some(b) => row.alias == a && b == i,
                None => false,
            };
            if hit {
                return true;
            }
            k += 1;
        }
        false
    }

    /// Removing one alias row removes exactly its name from the table.
    proof fn lemma_alias_row_removed(pre: BlockStore, post: BlockStore, k: int)
        requires
            pre.aliases_ok(),
            0 <= k < pre.aliases@.len(),
            post.aliases@ == pre.aliases@.remove(k),
            post.cids@ == pre.cids@,
        ensures
            alias_remove_post(pre, post, pre.aliases@[k].name@),
            post.aliases_ok(),
            !post.has_alias(pre.aliases@[k].name@),
    {
        let name = pre.aliases@[k].name@;
        let preq = pre.aliases@;
        let postq = post.aliases@;
        preq.remove_ensures(k);
        assert forall|m: int| 0 <= m < postq.len() implies exists|s: int|
            0 <= s < preq.len() && s != k && (#[trigger] preq[s]) == #[trigger] postq[m] by {
            if m < k {
                assert(preq[m] == postq[m]);
            } else {
                assert(preq[m + 1] == postq[m]);
            }
        }
        assert forall|n: Seq<u8>, j: u64| #[trigger] post.alias_maps(n, j) implies pre.alias_maps(
            n,
            j,
        ) && n != name by {
            let m = choose|m: int|
                0 <= m < postq.len() && (#[trigger] postq[m]).name@ == n && postq[m].block_id == j;
            let s = choose|s: int| 0 <= s < preq.len() && s != k && #[trigger] preq[s] == postq[m];
            assert(preq[s].name@ == n && preq[s].block_id == j);
            if n == name {
                if s < k {
                    assert(preq[s].name@ != preq[k].name@);
                } else {
                    assert(preq[k].name@ != preq[s].name@);
                }
            }
        }
        assert forall|n: Seq<u8>, j: u64| pre.alias_maps(n, j) && n != name implies #[trigger] post
            .alias_maps(n, j) by {
            let s = choose|s: int|
                0 <= s < preq.len() && (#[trigger] preq[s]).name@ == n && preq[s].block_id == j;
            assert(s != k);
            if s < k {
                assert(postq[s] == preq[s]);
                assert(postq[s].name@ == n && postq[s].block_id == j);
            } else {
                assert(postq[s - 1] == preq[s]);
                assert(postq[s - 1].name@ == n && postq[s - 1].block_id == j);
            }
        }
        assert forall|n: Seq<u8>| #[trigger] post.has_alias(n) implies pre.has_alias(n) && n
            != name by {
            let m = choose|m: int| 0 <= m < postq.len() && (#[trigger] postq[m]).name@ == n;
            assert(post.alias_maps(n, postq[m].block_id));
        }
        assert forall|n: Seq<u8>| pre.has_alias(n) && n != name implies #[trigger] post.has_alias(
            n,
        ) by {
            let s = choose|s: int| 0 <= s < preq.len() && (#[trigger] preq[s]).name@ == n;
            assert(pre.alias_maps(n, preq[s].block_id));
            assert(post.alias_maps(n, preq[s].block_id));
        }
        assert forall|j1: int, j2: int| 0 <= j1 < j2 < postq.len() implies (
        #[trigger] postq[j1]).name@ != (#[trigger] postq[j2]).name@ by {
            let s1: int = if j1 < k {
                j1
            } else {
                j1 + 1
            };
            let s2: int = if j2 < k {
                j2
            } else {
                j2 + 1
            };
            assert(preq[s1] == postq[j1] && preq[s2] == postq[j2]);
        }
        assert forall|m: int| 0 <= m < postq.len() implies post.has_id(
            (#[trigger] postq[m]).block_id,
        ) by {
            let s = choose|s: int| 0 <= s < preq.len() && s != k && #[trigger] preq[s] == postq[m];
            assert(pre.has_id(preq[s].block_id));
        }
    }

    /// Appending an alias row for a name not yet present adds exactly that
    /// mapping.
    proof fn lemma_alias_row_pushed(pre: BlockStore, post: BlockStore, name: Seq<u8>, id: u64)
        requires
            pre.aliases_ok(),
            !pre.has_alias(name),
            pre.has_id(id),
            post.cids@ == pre.cids@,
            post.aliases@.len() == pre.aliases@.len() + 1,
            post.aliases@.drop_last() == pre.aliases@,
            post.aliases@.last().name@ == name,
            post.aliases@.last().block_id == id,
        ensures
            alias_upsert_post(pre, post, name, id),
            post.aliases_ok(),
    {
        let preq = pre.aliases@;
        let postq = post.aliases@;
        let n0 = preq.len() as int;
        assert(postq[n0].name@ == name && postq[n0].block_id == id);
        assert forall|m: int| 0 <= m < n0 implies postq[m] == preq[m] by {
            assert(postq.drop_last()[m] == postq[m]);
        }
        assert forall|n: Seq<u8>, j: u64| #[trigger] post.alias_maps(n, j) implies if n == name {
            j == id
        } else {
            pre.alias_maps(n, j)
        } by {
            let m = choose|m: int|
                0 <= m < postq.len() && (#[trigger] postq[m]).name@ == n && postq[m].block_id == j;
            if m < n0 {
                assert(preq[m].name@ == n && preq[m].block_id == j);
                assert(pre.alias_maps(n, j));
                if n == name {
                    assert(pre.has_alias(name));
                }
            }
        }
        assert forall|n: Seq<u8>, j: u64|
            n != name && pre.alias_maps(n, j) implies #[trigger] post.alias_maps(n, j) by {
            let s = choose|s: int|
                0 <= s < preq.len() && (#[trigger] preq[s]).name@ == n && preq[s].block_id == j;
            assert(postq[s].name@ == n && postq[s].block_id == j);
        }
        assert(post.alias_maps(name, id));
        assert forall|n: Seq<u8>| #[trigger] post.has_alias(n) implies n == name || pre.has_alias(
            n,
        ) by {
            let m = choose|m: int| 0 <= m < postq.len() && (#[trigger] postq[m]).name@ == n;
            if m < n0 {
                assert(preq[m].name@ == n);
                assert(pre.alias_maps(n, preq[m].block_id));
            }
        }
        assert forall|n: Seq<u8>| n == name || pre.has_alias(n) implies #[trigger] post.has_alias(
            n,
        ) by {
            if n == name {
                assert(postq[n0].name@ == name);
            } else {
                let s = choose|s: int| 0 <= s < preq.len() && (#[trigger] preq[s]).name@ == n;
                assert(postq[s].name@ == n);
            }
        }
        assert forall|j1: int, j2: int| 0 <= j1 < j2 < postq.len() implies (
        #[trigger] postq[j1]).name@ != (#[trigger] postq[j2]).name@ by {
            if j2 == n0 {
                if postq[j1].name@ == name {
                    assert(preq[j1].name@ == name);
                    assert(pre.alias_maps(name, preq[j1].block_id));
                    assert(pre.has_alias(name));
                }
            } else {
                assert(preq[j1] == postq[j1] && preq[j2] == postq[j2]);
            }
        }
        assert forall|m: int| 0 <= m < postq.len() implies post.has_id(
            (#[trigger] postq[m]).block_id,
        ) by {
            if m < n0 {
                assert(pre.has_id(preq[m].block_id));
            }
        }
    }

    /// Upsert (`key` given) or remove (`key` absent) the named alias `name`.
    ///
    /// An upsert interns the target CID if it is new; aliases may pin CIDs
    /// that have no payload yet. Removal of an absent name is a no-op.
    pub fn alias(&mut self, name: &[u8], key: Option<&[u8]>)
        requires
            old(self).inv(),
            key is Some ==> old(self).id_headroom(1),
        ensures
            final(self).inv(),
            final(self).refs@ == old(self).refs@,
            final(self).blocks@ == old(self).blocks@,
            final(self).temp_aliases@ == old(self).temp_aliases@,
            match key {
                Some(c) => {
                    &&& final(self).cid_present(c@)
                    &&& alias_upsert_post(*old(self), *final(self), name@, final(self).id_of(c@))
                    &&& forall|cc: Seq<u8>|
                        final(self).cid_present(cc) <==> old(self).cid_present(cc) || cc == c@
                    &&& forall|cc: Seq<u8>|
                        old(self).cid_present(cc) ==> #[trigger] final(self).id_of(cc)
                            == old(self).id_of(cc)
                    &&& forall|i: u64|
                        old(self).has_id(i) ==> final(self).has_id(i)
                            && #[trigger] final(self).cid_of(i) == old(self).cid_of(i)
                    &&& old(self).cid_present(c@) ==> final(self).cids@ == old(self).cids@
                        && final(self).next_id == old(self).next_id
                },
                None => {
                    &&& final(self).cids@ == old(self).cids@
                    &&& final(self).next_id == old(self).next_id
                    &&& alias_remove_post(*old(self), *final(self), name@)
                },
            },
    {
        match key {
            Some(c) => {
                let id = self.get_or_create_id(c);
                let ghost mid = *self;
                match self.find_alias(name) {
                    Some(k) => {
                        self.aliases.remove(k);
                        proof {
                            Self::lemma_alias_row_removed(mid, *self, k as int);
                        }
                    },
                    None => (),
                }
                let ghost cut = *self;
                self.aliases.push(AliasRow { name: copy_bytes(name), block_id: id });
                proof {
                    assert(self.aliases@.drop_last() =~= cut.aliases@);
                    Self::lemma_alias_row_pushed(cut, *self, name@, id);
                    assert(alias_upsert_post(mid, *self, name@, id));
                    assert(alias_upsert_post(*old(self), *self, name@, id)) by {
                        if old(self).cid_present(c@) {
                            assert(mid.state_eq(*old(self)));
                            assert(forall|n: Seq<u8>, j: u64|
                                #[trigger] mid.alias_maps(n, j) <==> old(self).alias_maps(n, j));
                            assert(forall|n: Seq<u8>|
                                #[trigger] mid.has_alias(n) <==> old(self).has_alias(n));
                        } else {
                            assert(mid.aliases@ == old(self).aliases@);
                        }
                    }
                }
            },
            None => {
                let ghost pre = *self;
                match self.find_alias(name) {
                    Some(k) => {
                        self.aliases.remove(k);
                        proof {
                            Self::lemma_alias_row_removed(pre, *self, k as int);
                        }
                    },
                    None => {
                        proof {
                            assert forall|n: Seq<u8>, j: u64|
                                pre.alias_maps(n, j) && n != name@ implies #[trigger] self
                                .alias_maps(n, j) by {}
                            assert forall|n: Seq<u8>, j: u64| #[trigger] self.alias_maps(n, j)
                                implies pre.alias_maps(n, j) && n != name@ by {
                                if n == name@ {
                                    let m = choose|m: int|
                                        0 <= m < self.aliases@.len() && (
                                        #[trigger] self.aliases@[m]).name@ == n
                                            && self.aliases@[m].block_id == j;
                                    assert(self.has_alias(name@));
                                }
                            }
                            assert forall|n: Seq<u8>| #[trigger] self.has_alias(n) implies pre
                                .has_alias(n) && n != name@ by {}
                        }
                    },
                }
            },
        }
    }
    /// Pin id `i` under temp alias `a`, unless that row already exists.
    fn pin_row(&mut self, a: u64, i: u64)
        requires
            old(self).inv(),
            old(self).has_id(i),
        ensures
            final(self).inv(),
            final(self).cids@ == old(self).cids@,
            final(self).refs@ == old(self).refs@,
            final(self).blocks@ == old(self).blocks@,
            final(self).aliases@ == old(self).aliases@,
            final(self).next_id == old(self).next_id,
            pin_post(*old(self), *final(self), a, i),
    {
        if !self.temp_row_present(a, i) {
            let ghost pre = *self;
            self.temp_aliases.push(TempRow { alias: a, block_id: Some(i) });
            proof {
                assert forall|j1: int, j2: int|
                    0 <= j1 < j2 < self.temp_aliases@.len() implies (
                #[trigger] self.temp_aliases@[j1]) != (#[trigger] self.temp_aliases@[j2]) by {
                    if j2 == pre.temp_aliases@.len() as int {
                        if self.temp_aliases@[j1] == self.temp_aliases@[j2] {
                            assert(pre.temp_aliases@[j1].alias == a && pre.temp_aliases@[j1].block_id
                                == Some(i));
                            assert(pre.temp_has(a, Some(i)));
                        }
                    }
                }
            }
        }
    }

    /// Insert a block: intern its CID, optionally pin it, and unless a payload
    /// already exists, store the payload and an edge to each link.
    #[verifier::rlimit(100)]
    fn insert_block(
        &mut self,
        cid: &[u8],
        data: &[u8],
        links: &[Vec<u8>],
        pin: Option<&TempAlias>,
    ) -> (r: bool)
        requires
            old(self).inv(),
            old(self).id_headroom(1 + links@.len()),
        ensures
            r == true,
            add_block_post(
                *old(self),
                *final(self),
                cid@,
                data@,
                bytes_views(links@),
                match pin {
                    Some(t) => Some(t.id),
                    None => None,
                },
            ),
    {
        let ghost pre = *old(self);
        let ghost lv = bytes_views(links@);
        let id = self.get_or_create_id(cid);
        let had_payload = self.find_payload(id).is_some();
        proof {
            assert(had_payload <==> pre.payload_present_for(cid@)) by {
                if pre.cid_present(cid@) {
                    assert(self.state_eq(pre));
                }
            }
        }
        match pin {
            Some(t) => {
                self.pin_row(t.id, id);
            },
            None => {},
        }
        let ghost s2 = *self;
        proof {
            assert(temp_post(
                pre,
                s2,
                match pin {
                    Some(t) => Some(t.id),
                    None => None,
                },
                id,
            )) by {
                match pin {
                    Some(t) => {
                        if pre.cid_present(cid@) {
                        } else {
                            assert(!pre.temp_has(t.id, Some(id))) by {
                                if pre.temp_has(t.id, Some(id)) {
                                    let k = choose|k: int|
                                        0 <= k < pre.temp_aliases@.len() && (
                                        #[trigger] pre.temp_aliases@[k]).alias == t.id
                                            && pre.temp_aliases@[k].block_id == Some(id);
                                    assert(pre.has_id(id));
                                }
                            }
                        }
                    },
                    None => {},
                }
            }
        }
        if !had_payload {
            proof {
                assert(s2.blocks@ == pre.blocks@);
            }
            self.blocks.push(BlockRow { block_id: id, data: copy_bytes(data) });
            proof {
                assert(self.blocks@.drop_last() =~= pre.blocks@);
                let n0 = pre.blocks@.len() as int;
                assert(self.blocks@[n0].block_id == id);
                assert forall|j1: int, j2: int|
                    0 <= j1 < j2 < self.blocks@.len() implies (#[trigger] self.blocks@[j1]).block_id
                    != (#[trigger] self.blocks@[j2]).block_id by {
                    if j2 == n0 {
                        if pre.blocks@[j1].block_id == id {
                            assert(rows_have_payload(pre.blocks@, id));
                        }
                    }
                }
                assert(rows_have_payload(self.blocks@, id));
                BlockStore::lemma_payload_index_agrees(*self, id, n0);
                assert forall|i: u64| pre.has_payload(i) implies rows_have_payload(
                    self.blocks@,
                    i,
                ) && #[trigger] rows_payload_at(self.blocks@, i) == pre.payload_of(i) by {
                    let k = choose|k: int|
                        0 <= k < pre.blocks@.len() && (#[trigger] pre.blocks@[k]).block_id == i;
                    assert(self.blocks@[k].block_id == i);
                    BlockStore::lemma_payload_index_agrees(*self, i, k);
                    BlockStore::lemma_payload_index_agrees(pre, i, k);
                }
                assert forall|i: u64| #[trigger] rows_have_payload(self.blocks@, i) implies pre
                    .has_payload(i) || i == id by {
                    let k = choose|k: int|
                        0 <= k < self.blocks@.len() && (#[trigger] self.blocks@[k]).block_id == i;
                    if k < n0 {
                        assert(pre.blocks@[k].block_id == i);
                    }
                }
            }
            let ghost s3 = *self;
            proof {
                if pre.cid_present(cid@) {
                    assert(self.cids@ == pre.cids@);
                    crate::store::lemma_cids_preserved_refl(pre.cids@);
                    assert(crate::store::cids_preserved(pre.cids@, self.cids@));
                } else {
                    assert(self.cids@.subrange(0, pre.cids@.len() as int) =~= pre.cids@);
                    crate::store::lemma_cids_extend(pre.cids@, self.cids@);
                }
            }
            let mut j: usize = 0;
            while j < links.len()
                invariant
                    0 <= j <= links@.len(),
                    lv == bytes_views(links@),
                    lv.len() == links@.len(),
                    self.inv(),
                    self.aliases@ == pre.aliases@,
                    self.temp_aliases@ == s3.temp_aliases@,
                    self.blocks@ == s3.blocks@,
                    s3.blocks@.len() == pre.blocks@.len() + 1,
                    s3.blocks@.drop_last() == pre.blocks@,
                    s3.blocks@.last().block_id == id,
                    s3.blocks@.last().data@ == data@,
                    forall|i: u64|
                        #[trigger] rows_have_payload(self.blocks@, i) <==> pre.has_payload(i) || i
                            == id,
                    forall|i: u64|
                        pre.has_payload(i) ==> #[trigger] rows_payload_at(self.blocks@, i)
                            == pre.payload_of(i),
                    rows_payload_at(self.blocks@, id) == data@,
                    rows_have_cid(self.cids@, cid@),
                    rows_id_of(self.cids@, cid@) == id,
                    rows_have_id(self.cids@, id),
                    crate::store::cids_preserved(pre.cids@, self.cids@),
                    forall|i: u64|
                        #[trigger] rows_have_id(self.cids@, i) ==> pre.has_id(i) || pre.next_id
                            <= i,
                    forall|c: Seq<u8>|
                        #[trigger] rows_have_cid(self.cids@, c) <==> pre.cid_present(c) || c == cid@
                            || (exists|k: int| 0 <= k < j && lv[k] == c),
                    forall|k: int| 0 <= k < j ==> rows_have_cid(self.cids@, #[trigger] lv[k]),
                    pre.next_id <= self.next_id <= pre.next_id + 1 + j,
                    self.next_id + (links@.len() - j) <= u64::MAX,
                    forall|p: u64, c: u64|
                        #[trigger] rows_have_edge(self.refs@, p, c) <==> pre.has_edge(p, c) || (p
                            == id && exists|k: int|
                            0 <= k < j && rows_id_of(self.cids@, lv[k]) == c),
                decreases links@.len() - j,
            {
                let ghost su = *self;
                let child = self.get_or_create_id(links[j].as_slice());
                proof {
                    assert(lv[j as int] == links@[j as int]@);
                    assert forall|k: int| 0 <= k < j implies #[trigger] rows_id_of(
                        self.cids@,
                        lv[k],
                    ) == rows_id_of(su.cids@, lv[k]) && rows_have_cid(self.cids@, lv[k]) by {
                        assert(su.cid_present(lv[k]));
                        assert(self.id_of(lv[k]) == su.id_of(lv[k]));
                        assert(self.cid_present(lv[k]));
                    }
                    assert(rows_id_of(self.cids@, cid@) == id) by {
                        assert(su.cid_present(cid@));
                        assert(self.id_of(cid@) == su.id_of(cid@));
                    }
                    assert(su.cids@.len() <= self.cids@.len());
                    assert(self.cids@.subrange(0, su.cids@.len() as int) =~= su.cids@) by {
                        if !su.cid_present(lv[j as int]) {
                            assert(self.cids@.drop_last() == su.cids@);
                        }
                    }
                    assert forall|p: u64, c: u64|
                        #[trigger] rows_have_edge(self.refs@, p, c) <==> pre.has_edge(p, c) || (p
                            == id && exists|k: int|
                            0 <= k < j && rows_id_of(self.cids@, lv[k]) == c) by {
                        assert(self.refs@ == su.refs@);
                        if p == id {
                            assert((exists|k: int| 0 <= k < j && rows_id_of(self.cids@, lv[k]) == c)
                                <==> (exists|k: int|
                                0 <= k < j && rows_id_of(su.cids@, lv[k]) == c)) by {
                                if exists|k: int| 0 <= k < j && rows_id_of(self.cids@, lv[k]) == c {
                                    let k = choose|k: int|
                                        0 <= k < j && rows_id_of(self.cids@, lv[k]) == c;
                                    assert(rows_id_of(su.cids@, lv[k]) == c);
                                }
                                if exists|k: int| 0 <= k < j && rows_id_of(su.cids@, lv[k]) == c {
                                    let k = choose|k: int|
                                        0 <= k < j && rows_id_of(su.cids@, lv[k]) == c;
                                    assert(rows_id_of(self.cids@, lv[k]) == c);
                                }
                            }
                        }
                    }
                }
                if !self.edge_present(id, child) {
                    let ghost sv = *self;
                    self.refs.push(RefRow { parent_id: id, child_id: child });
                    proof {
                        assert(self.refs@.drop_last() =~= sv.refs@);
                        let n1 = sv.refs@.len() as int;
                        assert forall|j1: int, j2: int|
                            0 <= j1 < j2 < self.refs@.len() implies (#[trigger] self.refs@[j1]) != (
                        #[trigger] self.refs@[j2]) by {
                            if j2 == n1 {
                                if self.refs@[j1] == self.refs@[j2] {
                                    assert(sv.refs@[j1].parent_id == id && sv.refs@[j1].child_id
                                        == child);
                                    assert(rows_have_edge(sv.refs@, id, child));
                                }
                            }
                        }
                        assert forall|p: u64, c: u64| #[trigger] rows_have_edge(self.refs@, p, c)
                            implies rows_have_edge(sv.refs@, p, c) || (p == id && c == child) by {
                            let k = choose|k: int|
                                0 <= k < self.refs@.len() && (#[trigger] self.refs@[k]).parent_id
                                    == p && self.refs@[k].child_id == c;
                            if k < n1 {
                                assert(sv.refs@[k].parent_id == p && sv.refs@[k].child_id == c);
                            }
                        }
                        assert forall|p: u64, c: u64|
                            rows_have_edge(sv.refs@, p, c) || (p == id && c == child) implies
                            #[trigger] rows_have_edge(self.refs@, p, c) by {
                            if rows_have_edge(sv.refs@, p, c) {
                                let k = choose|k: int|
                                    0 <= k < sv.refs@.len() && (#[trigger] sv.refs@[k]).parent_id
                                        == p && sv.refs@[k].child_id == c;
                                assert(self.refs@[k].parent_id == p && self.refs@[k].child_id == c);
                            } else {
                                assert(self.refs@[n1].parent_id == id && self.refs@[n1].child_id
                                    == child);
                            }
                        }
                    }
                }
                proof {
                    assert(self.cids@.subrange(0, su.cids@.len() as int) =~= su.cids@);
                    crate::store::lemma_cids_extend(su.cids@, self.cids@);
                    crate::store::lemma_cids_preserved_trans(pre.cids@, su.cids@, self.cids@);
                    assert forall|i: u64|
                        #[trigger] rows_have_id(self.cids@, i) implies pre.has_id(i) || pre.next_id
                            <= i by {
                        let k = choose|k: int|
                            0 <= k < self.cids@.len() && (#[trigger] self.cids@[k]).id == i;
                        if k < su.cids@.len() as int {
                            assert(su.cids@[k].id == i);
                            assert(rows_have_id(su.cids@, i));
                        } else {
                            assert(self.cids@[k].id == su.next_id);
                            assert(su.next_id >= pre.next_id);
                        }
                    }
                    assert forall|c: Seq<u8>|
                        #[trigger] rows_have_cid(self.cids@, c) <==> pre.cid_present(c) || c == cid@
                            || (exists|k: int| 0 <= k < j + 1 && lv[k] == c) by {
                        if rows_have_cid(self.cids@, c) {
                            let k = choose|k: int|
                                0 <= k < self.cids@.len() && (#[trigger] self.cids@[k]).cid@ == c;
                            if k < su.cids@.len() as int {
                                assert(su.cids@[k].cid@ == c);
                                assert(rows_have_cid(su.cids@, c));
                            } else {
                                assert(c == lv[j as int]);
                                assert(0 <= j < j + 1 && lv[j as int] == c);
                            }
                        }
                        if pre.cid_present(c) {
                            assert(rows_have_cid(su.cids@, c));
                        }
                        if c == cid@ {
                            assert(rows_have_cid(su.cids@, c));
                        }
                        if exists|k: int| 0 <= k < j + 1 && lv[k] == c {
                            let k = choose|k: int| 0 <= k < j + 1 && lv[k] == c;
                            if k < j {
                                assert(rows_have_cid(su.cids@, lv[k]));
                                assert(rows_have_cid(self.cids@, lv[k]));
                            } else {
                                assert(self.cid_present(lv[j as int]));
                            }
                        }
                    }
                    assert forall|k: int| 0 <= k < j + 1 implies rows_have_cid(
                        self.cids@,
                        #[trigger] lv[k],
                    ) by {
                        if k < j {
                            assert(rows_have_cid(su.cids@, lv[k]));
                        } else {
                            assert(self.cid_present(lv[j as int]));
                        }
                    }
                    assert forall|i: u64|
                        #[trigger] rows_have_payload(self.blocks@, i) <==> pre.has_payload(i) || i
                            == id by {
                        assert(self.blocks@ == su.blocks@);
                        assert(rows_have_payload(su.blocks@, i) <==> pre.has_payload(i) || i == id);
                    }
                    assert forall|i: u64|
                        pre.has_payload(i) implies #[trigger] rows_payload_at(self.blocks@, i)
                            == pre.payload_of(i) by {
                        assert(self.blocks@ == su.blocks@);
                        assert(rows_payload_at(su.blocks@, i) == pre.payload_of(i));
                    }
                    assert(rows_payload_at(self.blocks@, id) == data@) by {
                        assert(self.blocks@ == su.blocks@);
                        assert(rows_payload_at(su.blocks@, id) == data@);
                    }
                    assert(rows_have_cid(self.cids@, cid@));
                    assert(rows_id_of(self.cids@, cid@) == id) by {
                        assert(rows_id_of(su.cids@, cid@) == id);
                        assert(rows_have_cid(su.cids@, cid@));
                    }
                    assert(rows_have_id(self.cids@, id)) by {
                        assert(rows_have_id(su.cids@, id));
                    }
                    assert(rows_id_of(self.cids@, lv[j as int]) == child);
                    assert forall|p: u64, c: u64|
                        #[trigger] rows_have_edge(self.refs@, p, c) <==> pre.has_edge(p, c) || (p
                            == id && exists|k: int|
                            0 <= k < j + 1 && rows_id_of(self.cids@, lv[k]) == c) by {
                        if rows_have_edge(self.refs@, p, c) {
                            if !pre.has_edge(p, c) && !(p == id && exists|k: int|
                                0 <= k < j && rows_id_of(self.cids@, lv[k]) == c) {
                                assert(p == id && c == child);
                                assert(rows_id_of(self.cids@, lv[j as int]) == c);
                            }
                        } else {
                            if p == id && exists|k: int|
                                0 <= k < j + 1 && rows_id_of(self.cids@, lv[k]) == c {
                                let k = choose|k: int|
                                    0 <= k < j + 1 && rows_id_of(self.cids@, lv[k]) == c;
                                if k < j {
                                    assert(rows_have_edge(self.refs@, p, c));
                                } else {
                                    assert(c == child);
                                }
                            }
                        }
                    }
                }
                j += 1;
            }
            proof {
                assert forall|c: Seq<u8>| #[trigger] self.cid_present(c) <==> pre.cid_present(c)
                    || c == cid@ || lv.contains(c) by {
                    assert(rows_have_cid(self.cids@, c) <==> pre.cid_present(c) || c == cid@ || (
                    exists|k: int| 0 <= k < links@.len() && lv[k] == c));
                }
                assert(self.id_of(cid@) == id);
                assert(self.has_payload(id));
                assert forall|c: Seq<u8>|
                    pre.cid_present(c) implies self.cid_present(c) && #[trigger] self.id_of(c)
                        == pre.id_of(c) by {
                    assert(rows_id_of(self.cids@, c) == rows_id_of(pre.cids@, c));
                    assert(rows_have_cid(self.cids@, c));
                }
                assert forall|i: u64|
                    pre.has_id(i) implies self.has_id(i) && #[trigger] self.cid_of(i)
                        == pre.cid_of(i) by {
                    assert(rows_cid_at(self.cids@, i) == rows_cid_at(pre.cids@, i));
                    assert(rows_have_id(self.cids@, i));
                }
                assert forall|i: u64| #[trigger] self.has_id(i) implies pre.has_id(i)
                    || pre.next_id <= i by {
                    assert(rows_have_id(self.cids@, i));
                }
                assert forall|k: int| 0 <= k < lv.len() implies self.cid_present(
                    #[trigger] lv[k],
                ) by {
                    assert(rows_have_cid(self.cids@, lv[k]));
                }
                assert forall|i: u64| #[trigger] self.has_payload(i) <==> pre.has_payload(i) || i
                    == self.id_of(cid@) by {
                    assert(rows_have_payload(self.blocks@, i) <==> pre.has_payload(i) || i == id);
                }
                assert forall|i: u64|
                    pre.has_payload(i) implies #[trigger] self.payload_of(i) == pre.payload_of(
                        i,
                    ) by {
                    assert(rows_payload_at(self.blocks@, i) == pre.payload_of(i));
                }
                assert(self.payload_of(self.id_of(cid@)) == data@) by {
                    assert(rows_payload_at(self.blocks@, id) == data@);
                }
                assert forall|p: u64, c: u64| #[trigger] self.has_edge(p, c) <==> pre.has_edge(
                    p,
                    c,
                ) || (p == self.id_of(cid@) && exists|k: int|
                    0 <= k < lv.len() && self.id_of(#[trigger] lv[k]) == c) by {
                    assert(rows_have_edge(self.refs@, p, c) <==> pre.has_edge(p, c) || (p == id
                        && exists|k: int|
                        0 <= k < links@.len() && rows_id_of(self.cids@, lv[k]) == c));
                    if p == id {
                        if exists|k: int| 0 <= k < links@.len() && rows_id_of(self.cids@, lv[k])
                            == c {
                            let k = choose|k: int|
                                0 <= k < links@.len() && rows_id_of(self.cids@, lv[k]) == c;
                            assert(self.id_of(lv[k]) == c);
                        }
                        if exists|k: int| 0 <= k < lv.len() && self.id_of(#[trigger] lv[k]) == c {
                            let k = choose|k: int|
                                0 <= k < lv.len() && self.id_of(#[trigger] lv[k]) == c;
                            assert(rows_id_of(self.cids@, lv[k]) == c);
                        }
                    }
                }
                assert(temp_post(
                    pre,
                    *self,
                    match pin {
                        Some(t) => Some(t.id),
                        None => None,
                    },
                    self.id_of(cid@),
                )) by {
                    assert(self.temp_aliases@ == s2.temp_aliases@);
                }
                assert(self.blocks@.last().block_id == self.id_of(cid@));
                assert(self.blocks@.last().data@ == data@);
                assert(self.blocks@.drop_last() == pre.blocks@);
            }
        } else {
            proof {
                assert(self.cids@ == pre.cids@ && self.refs@ == pre.refs@ && self.blocks@
                    == pre.blocks@ && self.next_id == pre.next_id);
                assert(self.id_of(cid@) == id);
                assert(self.has_payload(self.id_of(cid@)));
                crate::store::lemma_cids_preserved_refl(pre.cids@);
                assert(crate::store::cids_preserved(pre.cids@, self.cids@));
                assert forall|c: Seq<u8>|
                    pre.cid_present(c) implies self.cid_present(c) && #[trigger] self.id_of(c)
                        == pre.id_of(c) by {
                    assert(rows_have_cid(pre.cids@, c));
                    assert(rows_id_of(self.cids@, c) == rows_id_of(pre.cids@, c));
                }
                assert forall|i: u64|
                    pre.has_id(i) implies self.has_id(i) && #[trigger] self.cid_of(i)
                        == pre.cid_of(i) by {
                    assert(rows_have_id(pre.cids@, i));
                    assert(rows_cid_at(self.cids@, i) == rows_cid_at(pre.cids@, i));
                }
                assert forall|i: u64| #[trigger] self.has_id(i) implies pre.has_id(i)
                    || pre.next_id <= i by {
                    assert(rows_have_id(self.cids@, i) == rows_have_id(pre.cids@, i));
                }
                assert(temp_post(
                    pre,
                    *self,
                    match pin {
                        Some(t) => Some(t.id),
                        None => None,
                    },
                    self.id_of(cid@),
                )) by {
                    assert(self.temp_aliases@ == s2.temp_aliases@);
                }
            }
        }
        proof {
            assert(crate::store::cids_preserved(pre.cids@, self.cids@));
            assert forall|i: u64| #[trigger] pre.has_id(i) implies self.has_id(i) by {
                assert(rows_have_id(pre.cids@, i));
                assert(rows_cid_at(self.cids@, i) == rows_cid_at(pre.cids@, i));
                assert(rows_have_id(self.cids@, i));
            }
            assert forall|i: u64| pre.has_id(i) implies #[trigger] self.cid_of(i) == pre.cid_of(
                i,
            ) by {
                assert(rows_have_id(pre.cids@, i));
                assert(rows_cid_at(self.cids@, i) == rows_cid_at(pre.cids@, i));
            }
            assert forall|c: Seq<u8>| #[trigger] pre.cid_present(c) implies self.cid_present(c) by {
                assert(rows_have_cid(pre.cids@, c));
                assert(rows_id_of(self.cids@, c) == rows_id_of(pre.cids@, c));
                assert(rows_have_cid(self.cids@, c));
            }
            assert forall|c: Seq<u8>| pre.cid_present(c) implies #[trigger] self.id_of(c)
                == pre.id_of(c) by {
                assert(rows_have_cid(pre.cids@, c));
                assert(rows_id_of(self.cids@, c) == rows_id_of(pre.cids@, c));
            }
        }
        true
    }

    /// Create a fresh temporary alias: its integer id is exactly one more
    /// than the largest alias id in the table (or than 1 on an empty table,
    /// so numbering starts at 2), and a placeholder row with no pinned id
    /// reserves it.
    pub fn create_temp_alias(&mut self) -> (t: TempAlias)
        requires
            old(self).inv(),
            old(self).temp_headroom(),
        ensures
            final(self).inv(),
            t.id == temp_alias_ceiling(old(self).temp_aliases@) + 1,
            old(self).temp_aliases@.len() == 0 ==> t.id == 2,
            t.id >= 2,
            !old(self).temp_alias_used(t.id),
            forall|k: int|
                0 <= k < old(self).temp_aliases@.len() ==> (
                #[trigger] old(self).temp_aliases@[k]).alias < t.id,
            final(self).temp_aliases@ == old(self).temp_aliases@.push(
                TempRow { alias: t.id, block_id: None },
            ),
            final(self).cids@ == old(self).cids@,
            final(self).refs@ == old(self).refs@,
            final(self).blocks@ == old(self).blocks@,
            final(self).aliases@ == old(self).aliases@,
            final(self).next_id == old(self).next_id,
    {
        let ghost pre = *old(self);
        let mut m: u64 = 1;
        let mut k: usize = 0;
        while k < self.temp_aliases.len()
            invariant
                *self == pre,
                0 <= k <= self.temp_aliases@.len(),
                1 <= m < u64::MAX,
                self.temp_headroom(),
                m == temp_alias_ceiling(self.temp_aliases@.take(k as int)),
                forall|j: int| 0 <= j < k ==> (#[trigger] self.temp_aliases@[j]).alias <= m,
            decreases self.temp_aliases@.len() - k,
        {
            proof {
                lemma_temp_ceiling_take(self.temp_aliases@, k as int);
            }
            if self.temp_aliases[k].alias > m {
                m = self.temp_aliases[k].alias;
            }
            k += 1;
        }
        proof {
            assert(self.temp_aliases@.take(self.temp_aliases@.len() as int)
                =~= self.temp_aliases@);
        }
        let t = TempAlias { id: m + 1 };
        self.temp_aliases.push(TempRow { alias: m + 1, block_id: None });
        proof {
            assert(self.temp_aliases@.drop_last() =~= pre.temp_aliases@);
            assert(!pre.temp_alias_used(t.id)) by {
                if pre.temp_alias_used(t.id) {
                    let j = choose|j: int|
                        0 <= j < pre.temp_aliases@.len() && (#[trigger] pre.temp_aliases@[j]).alias
                            == m + 1;
                }
            }
            let n0 = pre.temp_aliases@.len() as int;
            assert forall|j1: int, j2: int|
                0 <= j1 < j2 < self.temp_aliases@.len() implies (
            #[trigger] self.temp_aliases@[j1]) != (#[trigger] self.temp_aliases@[j2]) by {
                if j2 == n0 {
                    assert(pre.temp_aliases@[j1].alias <= m);
                }
            }
        }
        t
    }

    /// Release a temporary alias: delete every row carrying its id,
    /// placeholder and pins alike. Nothing else changes.
    #[verifier::rlimit(100)]
    pub fn release_temp_alias(&mut self, t: TempAlias)
        requires
            old(self).inv(),
        ensures
            final(self).inv(),
            final(self).cids@ == old(self).cids@,
            final(self).refs@ == old(self).refs@,
            final(self).blocks@ == old(self).blocks@,
            final(self).aliases@ == old(self).aliases@,
            final(self).next_id == old(self).next_id,
            forall|a: u64, b: Option<u64>|
                #[trigger] final(self).temp_has(a, b) <==> old(self).temp_has(a, b) && a != t.id,
            forall|a: u64|
                #[trigger] final(self).temp_alias_used(a) <==> old(self).temp_alias_used(a) && a
                    != t.id,
    {
        let ghost pre = *old(self);
        let (kept, og, bk) = rows_without_alias(&self.temp_aliases, t.id);
        let ghost origin = og@;
        let ghost back = bk@;
        self.temp_aliases = kept;
        proof {
            let preq = pre.temp_aliases@;
            let postq = self.temp_aliases@;
            assert forall|a: u64, b: Option<u64>| #[trigger] self.temp_has(a, b) implies pre
                .temp_has(a, b) && a != t.id by {
                let m = choose|m: int|
                    0 <= m < postq.len() && (#[trigger] postq[m]).alias == a && postq[m].block_id
                        == b;
                assert(postq[m] == preq[origin[m]] && preq[origin[m]].alias != t.id);
                assert(preq[origin[m]].alias == a && preq[origin[m]].block_id == b);
            }
            assert forall|a: u64, b: Option<u64>|
                pre.temp_has(a, b) && a != t.id implies #[trigger] self.temp_has(a, b) by {
                let s = choose|s: int|
                    0 <= s < preq.len() && (#[trigger] preq[s]).alias == a && preq[s].block_id
                        == b;
                assert(postq[back[s]] == preq[s]);
                assert(postq[back[s]].alias == a && postq[back[s]].block_id == b);
            }
            assert forall|a: u64| #[trigger] self.temp_alias_used(a) implies pre.temp_alias_used(a)
                && a != t.id by {
                let m = choose|m: int| 0 <= m < postq.len() && (#[trigger] postq[m]).alias == a;
                assert(postq[m] == preq[origin[m]] && preq[origin[m]].alias != t.id);
                assert(preq[origin[m]].alias == a);
            }
            assert forall|a: u64|
                pre.temp_alias_used(a) && a != t.id implies #[trigger] self.temp_alias_used(a) by {
                let s = choose|s: int| 0 <= s < preq.len() && (#[trigger] preq[s]).alias == a;
                assert(postq[back[s]] == preq[s]);
                assert(postq[back[s]].alias == a);
            }
            assert forall|j1: int, j2: int|
                0 <= j1 < j2 < postq.len() implies (#[trigger] postq[j1]) != (
            #[trigger] postq[j2]) by {
                assert(origin[j1] < origin[j2]);
                assert(postq[j1] == preq[origin[j1]] && postq[j2] == preq[origin[j2]]);
                assert(preq[origin[j1]] != preq[origin[j2]]);
            }
            assert forall|m: int| 0 <= m < postq.len() implies match (
            #[trigger] postq[m]).block_id {
                Some(i) => rows_have_id(self.cids@, i),
                None => true,
            } by {
                assert(postq[m] == preq[origin[m]]);
                match preq[origin[m]].block_id {
                    Some(i) => {
                        assert(rows_have_id(pre.cids@, i));
                    },
                    None => {},
                }
            }
        }
    }

    /// Add a block: intern `cid`, and unless a payload for it already exists,
    /// store `data` and record an edge to each CID in `links` (interning the
    /// new ones). Payloads and edges are immutable: a repeated call changes
    /// nothing. Always reports success.
    pub fn add_block(&mut self, cid: &[u8], data: &[u8], links: &[Vec<u8>]) -> (r: bool)
        requires
            old(self).inv(),
            old(self).id_headroom(1 + links@.len()),
        ensures
            r == true,
            add_block_post(*old(self), *final(self), cid@, data@, bytes_views(links@), None),
    {
        self.insert_block(cid, data, links, None)
    }

    /// Insert each block in order, exactly as `add_block` would: earlier
    /// payloads are never overwritten, and afterwards every listed CID has a
    /// payload.
    pub fn add_blocks(&mut self, blocks: &Vec<BlockData>)
        requires
            old(self).inv(),
            old(self).next_id + id_need(blocks@) <= u64::MAX,
        ensures
            final(self).inv(),
            add_blocks_post(*old(self), *final(self), blocks@),
            final(self).aliases@ == old(self).aliases@,
            final(self).temp_aliases@ == old(self).temp_aliases@,
            forall|k: int|
                0 <= k < blocks@.len() ==> final(self).payload_present_for(
                    (#[trigger] blocks@[k]).cid@,
                ),
            forall|c: Seq<u8>| #[trigger] old(self).cid_present(c) ==> final(self).cid_present(c),
            forall|i: u64|
                #[trigger] old(self).has_payload(i) ==> final(self).has_payload(i)
                    && final(self).payload_of(i) == old(self).payload_of(i),
    {
        let ghost pre = *old(self);
        proof {
            assert(blocks@.skip(0) =~= blocks@);
            assert(blocks@.take(0) =~= Seq::<BlockData>::empty());
            assert(add_blocks_post(pre, *self, blocks@.take(0)));
        }
        let mut k: usize = 0;
        while k < blocks.len()
            invariant
                self.inv(),
                0 <= k <= blocks@.len(),
                self.aliases@ == pre.aliases@,
                self.temp_aliases@ == pre.temp_aliases@,
                self.next_id + id_need(blocks@.skip(k as int)) <= u64::MAX,
                add_blocks_post(pre, *self, blocks@.take(k as int)),
                forall|m: int|
                    0 <= m < k ==> self.payload_present_for((#[trigger] blocks@[m]).cid@),
                forall|c: Seq<u8>| #[trigger] pre.cid_present(c) ==> self.cid_present(c),
                forall|i: u64|
                    #[trigger] pre.has_payload(i) ==> rows_have_payload(self.blocks@, i)
                        && rows_payload_at(self.blocks@, i) == pre.payload_of(i),
            decreases blocks@.len() - k,
        {
            let ghost su = *self;
            proof {
                assert(blocks@.skip(k as int).drop_first() =~= blocks@.skip(k as int + 1));
                assert(blocks@.skip(k as int).first() == blocks@[k as int]);
                assert(id_need(blocks@.skip(k as int)) == 1 + blocks@[k as int].links@.len()
                    + id_need(blocks@.skip(k as int + 1)));
            }
            let b = &blocks[k];
            self.add_block(b.cid.as_slice(), b.data.as_slice(), b.links.as_slice());
            proof {
                assert forall|m: int| 0 <= m < k + 1 implies self.payload_present_for(
                    (#[trigger] blocks@[m]).cid@,
                ) by {
                    if m < k {
                        assert(su.payload_present_for(blocks@[m].cid@));
                        assert(su.cid_present(blocks@[m].cid@));
                        assert(self.cid_present(blocks@[m].cid@));
                        assert(self.id_of(blocks@[m].cid@) == su.id_of(blocks@[m].cid@));
                        assert(su.has_payload(su.id_of(blocks@[m].cid@)));
                        if su.payload_present_for(b.cid@) {
                            assert(self.blocks@ == su.blocks@);
                        } else {
                            assert(self.has_payload(su.id_of(blocks@[m].cid@)));
                        }
                    } else {
                        assert(self.payload_present_for(blocks@[k as int].cid@));
                    }
                }
                assert forall|c: Seq<u8>| #[trigger] pre.cid_present(c) implies self.cid_present(
                    c,
                ) by {
                    assert(su.cid_present(c));
                }
                assert forall|i: u64|
                    #[trigger] pre.has_payload(i) implies rows_have_payload(self.blocks@, i)
                        && rows_payload_at(self.blocks@, i) == pre.payload_of(i) by {
                    assert(rows_have_payload(su.blocks@, i));
                    assert(rows_payload_at(su.blocks@, i) == pre.payload_of(i));
                    assert(su.has_payload(i));
                    if su.payload_present_for(b.cid@) {
                        assert(self.blocks@ == su.blocks@);
                    } else {
                        assert(self.has_payload(i));
                        assert(self.payload_of(i) == su.payload_of(i));
                    }
                }
                assert(blocks@.take(k as int + 1) =~= blocks@.take(k as int).push(
                    blocks@[k as int],
                ));
                lemma_add_blocks_post_snoc(pre, su, *self, blocks@.take(k as int), blocks@[k as int]);
                assert(add_blocks_post(pre, *self, blocks@.take(k as int + 1)));
            }
            k += 1;
        }
        proof {
            assert(blocks@.skip(blocks@.len() as int) =~= Seq::<BlockData>::empty());
            assert(blocks@.take(blocks@.len() as int) =~= blocks@);
            assert forall|i: u64|
                #[trigger] pre.has_payload(i) implies self.has_payload(i) && self.payload_of(i)
                    == pre.payload_of(i) by {
                assert(rows_have_payload(self.blocks@, i));
                assert(rows_payload_at(self.blocks@, i) == pre.payload_of(i));
            }
        }
    }

    /// `add_block`, additionally pinning the block's id under the given temp
    /// alias so that it survives garbage collection while the alias lives.
    pub fn add_block_pinned(
        &mut self,
        cid: &[u8],
        data: &[u8],
        links: &[Vec<u8>],
        pin: &TempAlias,
    ) -> (r: bool)
        requires
            old(self).inv(),
            old(self).id_headroom(1 + links@.len()),
        ensures
            r == true,
            add_block_post(
                *old(self),
                *final(self),
                cid@,
                data@,
                bytes_views(links@),
                Some(pin.id),
            ),
    {
        self.insert_block(cid, data, links, Some(pin))
    }
}

} // verus!

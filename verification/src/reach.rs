//! Reachability over the reference edges: a verified worklist traversal with
//! a visited list, and the recursive queries built on it (descendants and
//! missing blocks).

use vstd::prelude::*;

use crate::schema::RefRow;
use crate::store::{bytes_views, copy_bytes, rows_have_cid, rows_have_id, BlockStore};

verus! {

/// No id occurs twice.
pub open spec fn ids_distinct(vis: Seq<u64>) -> bool {
    forall|m1: int, m2: int| 0 <= m1 < m2 < vis.len() ==> vis[m1] != vis[m2]
}

/// Every listed id is interned.
pub open spec fn ids_interned(s: BlockStore, vis: Seq<u64>) -> bool {
    forall|m: int| 0 <= m < vis.len() ==> s.has_id(#[trigger] vis[m])
}

/// Every listed id is reachable from the root its index map names.
pub open spec fn bfs_sound(s: BlockStore, roots: Seq<u64>, vis: Seq<u64>, ridx: Seq<int>) -> bool {
    &&& ridx.len() == vis.len()
    &&& forall|m: int|
        0 <= m < vis.len() ==> 0 <= #[trigger] ridx[m] < roots.len() && s.reaches(
            roots[ridx[m]],
            vis[m],
        )
}

/// Everything reachable from some root is listed.
pub open spec fn bfs_covers(s: BlockStore, roots: Seq<u64>, vis: Seq<u64>) -> bool {
    forall|j: int, i: u64|
        0 <= j < roots.len() && #[trigger] s.reaches(roots[j], i) ==> vis.contains(i)
}

/// The listed set is closed under the reference edges.
pub open spec fn closed_under_refs(refs: Seq<RefRow>, vis: Seq<u64>) -> bool {
    forall|m: int, e: int|
        0 <= m < vis.len() && 0 <= e < refs.len() && (#[trigger] refs[e]).parent_id == (
        #[trigger] vis[m]) ==> vis.contains(refs[e].child_id)
}

impl BlockStore {
    /// Every id reaches itself.
    pub proof fn lemma_reaches_self(self, i: u64)
        ensures
            self.reaches(i, i),
    {
        let p: Seq<u64> = seq![i];
        assert(self.path_ok(p));
        assert(p.len() >= 1 && p[0] == i && p[p.len() - 1] == i);
    }

    /// A reference edge extends reachability by one step.
    pub proof fn lemma_reaches_step(self, a: u64, b: u64, c: u64)
        requires
            self.reaches(a, b),
            self.has_edge(b, c),
        ensures
            self.reaches(a, c),
    {
        let p = choose|p: Seq<u64>|
            #[trigger] self.path_ok(p) && p.len() >= 1 && p[0] == a && p[p.len() - 1] == b;
        let q = p.push(c);
        assert forall|k: int| 0 <= k < q.len() - 1 implies #[trigger] self.has_edge(
            q[k],
            q[k + 1],
        ) by {
            if k < p.len() - 1 {
                assert(q[k] == p[k] && q[k + 1] == p[k + 1]);
                assert(self.has_edge(p[k], p[k + 1]));
            } else {
                assert(q[k] == b && q[k + 1] == c);
            }
        }
        assert(self.path_ok(q));
        assert(q.len() >= 1 && q[0] == a && q[q.len() - 1] == c);
    }

    /// A path starting inside a set that is closed under the edges ends
    /// inside it.
    proof fn lemma_path_in_closed(self, vis: Seq<u64>, p: Seq<u64>)
        requires
            self.path_ok(p),
            p.len() >= 1,
            vis.contains(p[0]),
            closed_under_refs(self.refs@, vis),
        ensures
            vis.contains(p[p.len() - 1]),
        decreases p.len(),
    {
        if p.len() > 1 {
            let q = p.drop_last();
            assert forall|k: int| 0 <= k < q.len() - 1 implies #[trigger] self.has_edge(
                q[k],
                q[k + 1],
            ) by {
                assert(q[k] == p[k] && q[k + 1] == p[k + 1]);
                assert(self.has_edge(p[k], p[k + 1]));
            }
            self.lemma_path_in_closed(vis, q);
            let b = p[p.len() - 2];
            let c = p[p.len() - 1];
            assert(q[q.len() - 1] == b);
            assert(vis.contains(b));
            let kk = p.len() - 2;
            assert(self.has_edge(p[kk], p[kk + 1]));
            assert(self.has_edge(b, c));
            let e = choose|e: int|
                0 <= e < self.refs@.len() && (#[trigger] self.refs@[e]).parent_id == b
                    && self.refs@[e].child_id == c;
            let m = choose|m: int| 0 <= m < vis.len() && vis[m] == b;
            assert(vis[m] == b);
            assert(vis.contains(self.refs@[e].child_id));
        }
    }

    /// Reachability is transitive: paths concatenate.
    pub proof fn lemma_reaches_trans(self, a: u64, b: u64, c: u64)
        requires
            self.reaches(a, b),
            self.reaches(b, c),
        ensures
            self.reaches(a, c),
    {
        let p = choose|p: Seq<u64>|
            #[trigger] self.path_ok(p) && p.len() >= 1 && p[0] == a && p[p.len() - 1] == b;
        let q = choose|q: Seq<u64>|
            #[trigger] self.path_ok(q) && q.len() >= 1 && q[0] == b && q[q.len() - 1] == c;
        let r = p + q.drop_first();
        assert forall|k: int| 0 <= k < r.len() - 1 implies #[trigger] self.has_edge(
            r[k],
            r[k + 1],
        ) by {
            if k < p.len() - 1 {
                assert(r[k] == p[k] && r[k + 1] == p[k + 1]);
                assert(self.has_edge(p[k], p[k + 1]));
            } else if k == p.len() - 1 {
                assert(r[k] == b);
                if q.len() >= 2 {
                    assert(r[k + 1] == q.drop_first()[0]);
                    assert(q.drop_first()[0] == q[1]);
                    assert(self.has_edge(q[0], q[1]));
                }
            } else {
                let k2 = k - p.len();
                assert(r[k] == q.drop_first()[k2] && r[k + 1] == q.drop_first()[k2 + 1]);
                assert(q.drop_first()[k2] == q[k2 + 1] && q.drop_first()[k2 + 1] == q[k2 + 2]);
                assert(self.has_edge(q[k2 + 1], q[k2 + 2]));
            }
        }
        assert(r[0] == a);
        assert(r[r.len() - 1] == c) by {
            if q.len() == 1 {
                assert(r =~= p);
            } else {
                assert(r[r.len() - 1] == q.drop_first()[q.len() - 2]);
                assert(q.drop_first()[q.len() - 2] == q[q.len() - 1]);
            }
        }
        assert(self.path_ok(r) && r.len() >= 1);
    }

    /// Two interned ids with the same CID are the same id.
    pub proof fn lemma_cid_of_injective(self, i: u64, j: u64)
        requires
            self.cids_ok(),
            self.has_id(i),
            self.has_id(j),
            self.cid_of(i) == self.cid_of(j),
        ensures
            i == j,
    {
        let ki = self.id_index(i);
        let kj = self.id_index(j);
        assert(0 <= ki < self.cids@.len() && self.cids@[ki].id == i);
        assert(0 <= kj < self.cids@.len() && self.cids@[kj].id == j);
        if ki != kj {
            if ki < kj {
                assert(self.cids@[ki].cid@ != self.cids@[kj].cid@);
            } else {
                assert(self.cids@[kj].cid@ != self.cids@[ki].cid@);
            }
        }
    }

    /// A list of distinct interned ids is no longer than the id table.
    proof fn lemma_distinct_ids_bounded(self, vis: Seq<u64>)
        requires
            self.cids_ok(),
            ids_distinct(vis),
            ids_interned(self, vis),
        ensures
            vis.len() <= self.cids@.len(),
        decreases vis.len(),
    {
        if vis.len() > self.cids@.len() {
            // map each id to its row index; two of them must collide
            let rowof = Seq::new(vis.len(), |m: int| self.id_index(vis[m]));
            assert forall|m: int| 0 <= m < vis.len() implies 0 <= #[trigger] rowof[m]
                < self.cids@.len() && self.cids@[rowof[m]].id == vis[m] by {
                assert(self.has_id(vis[m]));
            }
            crate::reach::lemma_range_pigeonhole(rowof, self.cids@.len() as int);
            let (m1, m2) = choose|m1: int, m2: int|
                0 <= m1 < m2 < rowof.len() && #[trigger] rowof[m1] == #[trigger] rowof[m2];
            assert(self.cids@[rowof[m1]].id == vis[m1]);
            assert(self.cids@[rowof[m2]].id == vis[m2]);
            assert(vis[m1] == vis[m2]);
        }
    }

    /// Visit everything reachable from the given roots. Returns the visited
    /// ids together with a ghost map naming, for each visited id, the index
    /// of a root that reaches it.
    pub fn reachable_from(&self, roots: &Vec<u64>) -> (r: (Vec<u64>, Ghost<Seq<int>>))
        requires
            self.inv(),
            ids_distinct(roots@),
            ids_interned(*self, roots@),
        ensures
            ids_distinct(r.0@),
            ids_interned(*self, r.0@),
            bfs_sound(*self, roots@, r.0@, r.1@),
            bfs_covers(*self, roots@, r.0@),
            closed_under_refs(self.refs@, r.0@),
    {
        let mut vis: Vec<u64> = Vec::new();
        let ghost mut ridx: Seq<int> = Seq::empty();
        let mut j: usize = 0;
        // seed with the roots
        while j < roots.len()
            invariant
                0 <= j <= roots@.len(),
                vis@ =~= roots@.take(j as int),
                ids_distinct(roots@),
                ids_interned(*self, roots@),
                ridx =~= Seq::new(j as nat, |m: int| m),
            decreases roots@.len() - j,
        {
            vis.push(roots[j]);
            proof {
                ridx = ridx.push(j as int);
                assert(vis@ =~= roots@.take(j + 1));
                assert(ridx =~= Seq::new((j + 1) as nat, |m: int| m));
            }
            j += 1;
        }
        proof {
            assert(vis@ =~= roots@);
            assert(bfs_sound(*self, roots@, vis@, ridx)) by {
                assert forall|m: int| 0 <= m < vis@.len() implies 0 <= #[trigger] ridx[m]
                    < roots@.len() && self.reaches(roots@[ridx[m]], vis@[m]) by {
                    self.lemma_reaches_self(vis@[m]);
                }
            }
            assert(ids_distinct(vis@));
            assert(ids_interned(*self, vis@)) by {
                assert forall|m: int| 0 <= m < vis@.len() implies self.has_id(
                    #[trigger] vis@[m],
                ) by {
                    assert(self.has_id(roots@[m]));
                }
            }
            self.lemma_distinct_ids_bounded(vis@);
        }
        let mut k: usize = 0;
        while k < vis.len()
            invariant
                self.inv(),
                0 <= k <= vis@.len(),
                ids_distinct(vis@),
                ids_interned(*self, vis@),
                bfs_sound(*self, roots@, vis@, ridx),
                forall|m: int| 0 <= m < roots@.len() ==> #[trigger] vis@[m] == roots@[m],
                roots@.len() <= vis@.len(),
                vis@.len() <= self.cids@.len(),
                forall|m: int, e: int|
                    0 <= m < k && 0 <= e < self.refs@.len() && (#[trigger] self.refs@[e]).parent_id
                        == (#[trigger] vis@[m]) ==> vis@.contains(self.refs@[e].child_id),
            decreases self.cids@.len() - k,
        {
            let cur = vis[k];
            let mut e: usize = 0;
            while e < self.refs.len()
                invariant
                    self.inv(),
                    0 <= e <= self.refs@.len(),
                    0 <= k < vis@.len(),
                    vis@[k as int] == cur,
                    ids_distinct(vis@),
                    ids_interned(*self, vis@),
                    bfs_sound(*self, roots@, vis@, ridx),
                    forall|m: int| 0 <= m < roots@.len() ==> #[trigger] vis@[m] == roots@[m],
                    roots@.len() <= vis@.len(),
                    vis@.len() <= self.cids@.len(),
                    forall|m: int, e2: int|
                        0 <= m < k && 0 <= e2 < self.refs@.len() && (
                        #[trigger] self.refs@[e2]).parent_id == (#[trigger] vis@[m])
                            ==> vis@.contains(self.refs@[e2].child_id),
                    forall|e2: int|
                        0 <= e2 < e && (#[trigger] self.refs@[e2]).parent_id == cur
                            ==> vis@.contains(self.refs@[e2].child_id),
                decreases self.refs@.len() - e,
            {
                if self.refs[e].parent_id == cur {
                    let child = self.refs[e].child_id;
                    if !contains_id(&vis, child) {
                        let ghost vq0 = vis@;
                        vis.push(child);
                        proof {
                            ridx = ridx.push(ridx[k as int]);
                            let n0 = vq0.len() as int;
                            assert(vis@.drop_last() =~= vq0);
                            assert forall|m1: int, m2: int|
                                0 <= m1 < m2 < vis@.len() implies vis@[m1] != vis@[m2] by {
                                if m2 == n0 {
                                    assert(!vq0.contains(child));
                                    assert(vq0[m1] == vis@[m1]);
                                    if vis@[m1] == child {
                                        assert(vq0.contains(child));
                                    }
                                }
                            }
                            assert(ids_interned(*self, vis@)) by {
                                assert forall|m: int| 0 <= m < vis@.len() implies self.has_id(
                                    #[trigger] vis@[m],
                                ) by {
                                    if m < n0 {
                                        assert(self.has_id(vq0[m]));
                                    } else {
                                        assert(rows_have_id(
                                            self.cids@,
                                            self.refs@[e as int].child_id,
                                        ));
                                    }
                                }
                            }
                            assert(bfs_sound(*self, roots@, vis@, ridx)) by {
                                assert forall|m: int| 0 <= m < vis@.len() implies 0 <= #[trigger] ridx[m]
                                    < roots@.len() && self.reaches(roots@[ridx[m]], vis@[m]) by {
                                    if m < n0 {
                                        assert(self.reaches(roots@[ridx[m]], vq0[m]));
                                    } else {
                                        assert(self.reaches(roots@[ridx[k as int]], cur));
                                        self.lemma_reaches_step(roots@[ridx[k as int]], cur, child);
                                    }
                                }
                            }
                            self.lemma_distinct_ids_bounded(vis@);
                            assert forall|m: int, e2: int|
                                0 <= m < k && 0 <= e2 < self.refs@.len() && (
                                #[trigger] self.refs@[e2]).parent_id == (#[trigger] vis@[m])
                                    implies vis@.contains(self.refs@[e2].child_id) by {
                                assert(vq0[m] == vis@[m]);
                                assert(vq0.contains(self.refs@[e2].child_id));
                                let w = choose|w: int|
                                    0 <= w < vq0.len() && vq0[w] == self.refs@[e2].child_id;
                                assert(vis@[w] == self.refs@[e2].child_id);
                            }
                            assert forall|e2: int|
                                0 <= e2 < e + 1 && (#[trigger] self.refs@[e2]).parent_id == cur
                                    implies vis@.contains(self.refs@[e2].child_id) by {
                                if e2 < e {
                                    assert(vq0.contains(self.refs@[e2].child_id));
                                    let w = choose|w: int|
                                        0 <= w < vq0.len() && vq0[w] == self.refs@[e2].child_id;
                                    assert(vis@[w] == self.refs@[e2].child_id);
                                } else {
                                    assert(vis@[n0] == child);
                                }
                            }
                            assert forall|m: int| 0 <= m < roots@.len() implies #[trigger] vis@[m]
                                == roots@[m] by {
                                assert(vq0[m] == roots@[m]);
                            }
                        }
                    } else {
                        proof {
                            assert forall|e2: int|
                                0 <= e2 < e + 1 && (#[trigger] self.refs@[e2]).parent_id == cur
                                    implies vis@.contains(self.refs@[e2].child_id) by {}
                        }
                    }
                } else {
                    proof {
                        assert forall|e2: int|
                            0 <= e2 < e + 1 && (#[trigger] self.refs@[e2]).parent_id == cur implies
                            vis@.contains(self.refs@[e2].child_id) by {}
                    }
                }
                e += 1;
            }
            proof {
                assert forall|m: int, e2: int|
                    0 <= m < k + 1 && 0 <= e2 < self.refs@.len() && (
                    #[trigger] self.refs@[e2]).parent_id == (#[trigger] vis@[m]) implies vis@
                    .contains(self.refs@[e2].child_id) by {}
            }
            k += 1;
        }
        proof {
            assert(closed_under_refs(self.refs@, vis@));
            assert(bfs_covers(*self, roots@, vis@)) by {
                assert forall|j2: int, i: u64|
                    0 <= j2 < roots@.len() && #[trigger] self.reaches(roots@[j2], i) implies vis@
                    .contains(i) by {
                    let p = choose|p: Seq<u64>|
                        #[trigger] self.path_ok(p) && p.len() >= 1 && p[0] == roots@[j2] && p[p.len()
                            - 1] == i;
                    assert(vis@[j2] == roots@[j2]);
                    assert(vis@.contains(p[0]));
                    self.lemma_path_in_closed(vis@, p);
                }
            }
        }
        (vis, Ghost(ridx))
    }
}

/// A sequence of more values than its range holds must repeat one.
pub proof fn lemma_range_pigeonhole(s: Seq<int>, n: int)
    requires
        n >= 0,
        s.len() > n,
        forall|m: int| 0 <= m < s.len() ==> 0 <= #[trigger] s[m] < n,
    ensures
        exists|m1: int, m2: int| 0 <= m1 < m2 < s.len() && #[trigger] s[m1] == #[trigger] s[m2],
    decreases n,
{
    if !(exists|m1: int, m2: int|
        0 <= m1 < m2 < s.len() && #[trigger] s[m1] == #[trigger] s[m2]) {
        // all entries distinct; remove the entries equal to n - 1
        assert(n >= 1) by {
            assert(0 <= s[0] < n);
        }
        let t = Seq::new(s.len(), |m: int| if s[m] == n - 1 { 0 } else { s[m] });
        // at most one entry can hold n - 1, so t repeats a value iff two
        // entries collide at 0; build the sequence without value n - 1
        let hits = Set::new(|m: int| 0 <= m < s.len() && s[m] == n - 1);
        if exists|m: int| 0 <= m < s.len() && #[trigger] s[m] == n - 1 {
            let h = choose|m: int| 0 <= m < s.len() && #[trigger] s[m] == n - 1;
            let u = s.remove(h);
            s.remove_ensures(h);
            assert forall|m: int| 0 <= m < u.len() implies 0 <= #[trigger] u[m] < n - 1 by {
                if m < h {
                    assert(u[m] == s[m]);
                    if s[m] == n - 1 {
                        assert(s[m] == s[h]);
                    }
                } else {
                    assert(u[m] == s[m + 1]);
                    if s[m + 1] == n - 1 {
                        assert(s[m + 1] == s[h]);
                    }
                }
            }
            assert(u.len() > n - 1);
            lemma_range_pigeonhole(u, n - 1);
            let (m1, m2) = choose|m1: int, m2: int|
                0 <= m1 < m2 < u.len() && #[trigger] u[m1] == #[trigger] u[m2];
            let s1: int = if m1 < h {
                m1
            } else {
                m1 + 1
            };
            let s2: int = if m2 < h {
                m2
            } else {
                m2 + 1
            };
            assert(u[m1] == s[s1] && u[m2] == s[s2]);
            assert(s[s1] == s[s2] && s1 < s2);
        } else {
            assert forall|m: int| 0 <= m < s.len() implies 0 <= #[trigger] s[m] < n - 1 by {
                if s[m] == n - 1 {
                    assert(exists|m2: int| 0 <= m2 < s.len() && #[trigger] s[m2] == n - 1);
                }
            }
            lemma_range_pigeonhole(s, n - 1);
        }
    }
}

/// What `get_descendants` returns: nothing for an unknown CID; otherwise
/// exactly the CIDs of the ids reachable from the root, without duplicates,
/// a set that contains the root and is closed under the reference edges.
pub open spec fn descendants_post(s: BlockStore, c: Seq<u8>, out: Seq<Seq<u8>>) -> bool {
    &&& !s.cid_present(c) ==> out.len() == 0
    &&& s.cid_present(c) ==> {
        &&& forall|d: Seq<u8>|
            #[trigger] out.contains(d) <==> exists|i: u64|
                #[trigger] s.reaches(s.id_of(c), i) && s.has_id(i) && s.cid_of(i) == d
        &&& out.contains(c)
        &&& forall|i: u64, j2: u64|
            s.has_id(i) && out.contains(s.cid_of(i)) && #[trigger] s.has_edge(i, j2)
                ==> out.contains(s.cid_of(j2))
        &&& forall|m1: int, m2: int| 0 <= m1 < m2 < out.len() ==> out[m1] != out[m2]
    }
}

/// What `get_missing_blocks` returns: the CIDs of exactly those ids reachable
/// from the (freshly interned) root that have no payload yet, without
/// duplicates; empty exactly when the whole DAG under the root is stored.
pub open spec fn missing_post(s: BlockStore, c: Seq<u8>, out: Seq<Seq<u8>>) -> bool {
    &&& s.cid_present(c)
    &&& forall|d: Seq<u8>|
        #[trigger] out.contains(d) <==> exists|i: u64|
            #[trigger] s.reaches(s.id_of(c), i) && s.has_id(i) && !s.has_payload(i) && s.cid_of(i)
                == d
    &&& forall|m1: int, m2: int| 0 <= m1 < m2 < out.len() ==> out[m1] != out[m2]
    &&& (out.len() == 0 <==> forall|i: u64|
        #[trigger] s.reaches(s.id_of(c), i) && s.has_id(i) ==> s.has_payload(i))
}

impl BlockStore {
    /// All CIDs transitively reachable from `cid` via the reference edges,
    /// the CID itself included. An unknown CID yields the empty set.
    pub fn get_descendants(&self, cid: &[u8]) -> (r: Vec<Vec<u8>>)
        requires
            self.inv(),
        ensures
            descendants_post(*self, cid@, bytes_views(r@)),
    {
        match self.get_id(cid) {
            None => {
                let out: Vec<Vec<u8>> = Vec::new();
                proof {
                    assert(bytes_views(out@).len() == 0);
                }
                out
            },
            Some(root) => {
                proof {
                    self.lemma_cid_roundtrip(cid@);
                }
                let mut roots: Vec<u64> = Vec::new();
                roots.push(root);
                proof {
                    assert(ids_distinct(roots@));
                    assert(ids_interned(*self, roots@)) by {
                        assert(roots@[0] == root && self.has_id(root));
                    }
                }
                let pair = self.reachable_from(&roots);
                let vis = pair.0;
                let ghost ridx = pair.1@;
                let mut out: Vec<Vec<u8>> = Vec::new();
                let mut k: usize = 0;
                while k < vis.len()
                    invariant
                        self.inv(),
                        ids_interned(*self, vis@),
                        0 <= k <= vis@.len(),
                        out@.len() == k,
                        forall|m: int|
                            0 <= m < k ==> (#[trigger] out@[m])@ == self.cid_of(vis@[m]),
                    decreases vis@.len() - k,
                {
                    let b = self.cid_bytes_of(vis[k]);
                    out.push(b);
                    k += 1;
                }
                proof {
                    let lv = bytes_views(out@);
                    assert(lv.len() == vis@.len());
                    assert forall|m: int| 0 <= m < lv.len() implies #[trigger] lv[m] == self.cid_of(
                        vis@[m],
                    ) by {
                        assert(lv[m] == out@[m]@);
                    }
                    assert forall|d: Seq<u8>| #[trigger] lv.contains(d) implies exists|i: u64|
                        #[trigger] self.reaches(self.id_of(cid@), i) && self.has_id(i)
                            && self.cid_of(i) == d by {
                        let m = choose|m: int| 0 <= m < lv.len() && lv[m] == d;
                        assert(0 <= ridx[m] < roots@.len() && self.reaches(
                            roots@[ridx[m]],
                            vis@[m],
                        ));
                        assert(roots@[ridx[m]] == root);
                        assert(self.reaches(self.id_of(cid@), vis@[m]));
                        assert(self.has_id(vis@[m]) && self.cid_of(vis@[m]) == d);
                    }
                    assert forall|d: Seq<u8>|
                        (exists|i: u64|
                            #[trigger] self.reaches(self.id_of(cid@), i) && self.has_id(i)
                                && self.cid_of(i) == d) implies #[trigger] lv.contains(d) by {
                        let i = choose|i: u64|
                            #[trigger] self.reaches(self.id_of(cid@), i) && self.has_id(i)
                                && self.cid_of(i) == d;
                        assert(self.reaches(roots@[0], i));
                        assert(vis@.contains(i));
                        let m = choose|m: int| 0 <= m < vis@.len() && vis@[m] == i;
                        assert(lv[m] == self.cid_of(i));
                        assert(lv.contains(lv[m]));
                    }
                    assert(lv.contains(cid@)) by {
                        self.lemma_reaches_self(root);
                        assert(self.reaches(self.id_of(cid@), root) && self.has_id(root)
                            && self.cid_of(root) == cid@);
                    }
                    assert forall|i: u64, j2: u64|
                        self.has_id(i) && lv.contains(self.cid_of(i)) && #[trigger] self.has_edge(
                            i,
                            j2,
                        ) implies lv.contains(self.cid_of(j2)) by {
                        let i2 = choose|i2: u64|
                            #[trigger] self.reaches(self.id_of(cid@), i2) && self.has_id(i2)
                                && self.cid_of(i2) == self.cid_of(i);
                        self.lemma_cid_of_injective(i2, i);
                        self.lemma_reaches_step(self.id_of(cid@), i, j2);
                        let e = choose|e: int|
                            0 <= e < self.refs@.len() && (#[trigger] self.refs@[e]).parent_id == i
                                && self.refs@[e].child_id == j2;
                        assert(rows_have_id(self.cids@, j2));
                        assert(self.reaches(self.id_of(cid@), j2) && self.has_id(j2)
                            && self.cid_of(j2) == self.cid_of(j2));
                    }
                    assert forall|m1: int, m2: int| 0 <= m1 < m2 < lv.len() implies lv[m1]
                        != lv[m2] by {
                        if lv[m1] == lv[m2] {
                            self.lemma_cid_of_injective(vis@[m1], vis@[m2]);
                        }
                    }
                }
                out
            },
        }
    }

    /// The CIDs in the DAG rooted at `cid` for which no payload is stored
    /// yet, the root itself included when its payload is absent. The root is
    /// interned first, so the call is safe for an unknown CID; nothing else
    /// changes.
    pub fn get_missing_blocks(&mut self, cid: &[u8]) -> (r: Vec<Vec<u8>>)
        requires
            old(self).inv(),
            old(self).id_headroom(1),
        ensures
            final(self).inv(),
            old(self).cid_present(cid@) ==> final(self).state_eq(*old(self)),
            final(self).refs@ == old(self).refs@,
            final(self).blocks@ == old(self).blocks@,
            final(self).aliases@ == old(self).aliases@,
            final(self).temp_aliases@ == old(self).temp_aliases@,
            final(self).next_id <= old(self).next_id + 1,
            forall|c: Seq<u8>|
                #[trigger] final(self).cid_present(c) <==> old(self).cid_present(c) || c == cid@,
            missing_post(*final(self), cid@, bytes_views(r@)),
    {
        let root = self.get_or_create_id(cid);
        proof {
            self.lemma_cid_roundtrip(cid@);
        }
        let mut roots: Vec<u64> = Vec::new();
        roots.push(root);
        proof {
            assert(ids_distinct(roots@));
            assert(ids_interned(*self, roots@)) by {
                assert(roots@[0] == root && self.has_id(root));
            }
        }
        let pair = self.reachable_from(&roots);
        let vis = pair.0;
        let ghost ridx = pair.1@;
        let mut out: Vec<Vec<u8>> = Vec::new();
        let ghost mut origin: Seq<int> = Seq::empty();
        let ghost mut back: Map<int, int> = Map::empty();
        let mut k: usize = 0;
        while k < vis.len()
            invariant
                self.inv(),
                ids_interned(*self, vis@),
                ids_distinct(vis@),
                0 <= k <= vis@.len(),
                origin.len() == out@.len(),
                forall|m: int|
                    0 <= m < out@.len() ==> 0 <= #[trigger] origin[m] < k && (out@[m])@
                        == self.cid_of(vis@[origin[m]]) && !self.has_payload(vis@[origin[m]]),
                forall|m1: int, m2: int|
                    0 <= m1 < m2 < origin.len() ==> #[trigger] origin[m1] < #[trigger] origin[m2],
                forall|j: int|
                    0 <= j < k && !self.has_payload(#[trigger] vis@[j]) ==> back.dom().contains(j)
                        && 0 <= back[j] < out@.len() && origin[back[j]] == j,
            decreases vis@.len() - k,
        {
            if self.find_payload(vis[k]).is_none() {
                let b = self.cid_bytes_of(vis[k]);
                proof {
                    back = back.insert(k as int, origin.len() as int);
                    origin = origin.push(k as int);
                }
                out.push(b);
            }
            k += 1;
        }
        proof {
            let lv = bytes_views(out@);
            let rootid = self.id_of(cid@);
            assert(rootid == root);
            assert(lv.len() == out@.len());
            assert forall|m: int| 0 <= m < lv.len() implies #[trigger] lv[m] == self.cid_of(
                vis@[origin[m]],
            ) && !self.has_payload(vis@[origin[m]]) by {
                assert(lv[m] == out@[m]@);
            }
            assert forall|d: Seq<u8>| #[trigger] lv.contains(d) implies exists|i: u64|
                #[trigger] self.reaches(rootid, i) && self.has_id(i) && !self.has_payload(i)
                    && self.cid_of(i) == d by {
                let m = choose|m: int| 0 <= m < lv.len() && lv[m] == d;
                let j = origin[m];
                assert(0 <= ridx[j] < roots@.len() && self.reaches(roots@[ridx[j]], vis@[j]));
                assert(roots@[ridx[j]] == root);
                assert(self.reaches(rootid, vis@[j]) && self.has_id(vis@[j]) && !self.has_payload(
                    vis@[j],
                ) && self.cid_of(vis@[j]) == d);
            }
            assert forall|d: Seq<u8>|
                (exists|i: u64|
                    #[trigger] self.reaches(rootid, i) && self.has_id(i) && !self.has_payload(i)
                        && self.cid_of(i) == d) implies #[trigger] lv.contains(d) by {
                let i = choose|i: u64|
                    #[trigger] self.reaches(rootid, i) && self.has_id(i) && !self.has_payload(i)
                        && self.cid_of(i) == d;
                assert(self.reaches(roots@[0], i));
                assert(vis@.contains(i));
                let j = choose|j: int| 0 <= j < vis@.len() && vis@[j] == i;
                let m = back[j];
                assert(0 <= m < out@.len() && origin[m] == j);
                assert(lv[m] == self.cid_of(i));
                assert(lv.contains(lv[m]));
            }
            assert forall|m1: int, m2: int| 0 <= m1 < m2 < lv.len() implies lv[m1] != lv[m2] by {
                assert(origin[m1] < origin[m2]);
                if lv[m1] == lv[m2] {
                    self.lemma_cid_of_injective(vis@[origin[m1]], vis@[origin[m2]]);
                }
            }
            assert((lv.len() == 0 <==> forall|i: u64|
                #[trigger] self.reaches(rootid, i) && self.has_id(i) ==> self.has_payload(i))) by {
                if lv.len() == 0 {
                    assert forall|i: u64|
                        #[trigger] self.reaches(rootid, i) && self.has_id(i) implies self
                        .has_payload(i) by {
                        if !self.has_payload(i) {
                            assert(lv.contains(self.cid_of(i)));
                        }
                    }
                } else {
                    assert(lv.contains(lv[0]));
                }
            }
        }
        out
    }
}

/// Every parent of a listed id is listed.
pub open spec fn parent_closed(refs: Seq<RefRow>, vis: Seq<u64>) -> bool {
    forall|m: int, e: int|
        0 <= m < vis.len() && 0 <= e < refs.len() && (#[trigger] refs[e]).child_id == (
        #[trigger] vis[m]) ==> vis.contains(refs[e].parent_id)
}

/// Every direct parent of `id` is listed.
pub open spec fn parents_of_in(refs: Seq<RefRow>, vis: Seq<u64>, id: u64) -> bool {
    forall|e: int|
        0 <= e < refs.len() && (#[trigger] refs[e]).child_id == id ==> vis.contains(
            refs[e].parent_id,
        )
}

impl BlockStore {
    /// `a` is a proper ancestor of `id`: one of `a`'s edges starts a path
    /// that ends at `id`.
    pub open spec fn is_ancestor(self, a: u64, id: u64) -> bool {
        exists|c: u64| #[trigger] self.has_edge(a, c) && self.reaches(c, id)
    }

    /// An edge into a reachable id makes its parent reach the target too.
    pub proof fn lemma_reaches_front(self, a: u64, b: u64, c: u64)
        requires
            self.has_edge(a, b),
            self.reaches(b, c),
        ensures
            self.reaches(a, c),
    {
        let p = choose|p: Seq<u64>|
            #[trigger] self.path_ok(p) && p.len() >= 1 && p[0] == b && p[p.len() - 1] == c;
        let q = Seq::new(p.len() + 1, |i: int| if i == 0 { a } else { p[i - 1] });
        assert forall|k: int| 0 <= k < q.len() - 1 implies #[trigger] self.has_edge(
            q[k],
            q[k + 1],
        ) by {
            if k == 0 {
                assert(q[0] == a && q[1] == p[0]);
            } else {
                assert(q[k] == p[k - 1] && q[k + 1] == p[k]);
                let kk = k - 1;
                assert(self.has_edge(p[kk], p[kk + 1]));
            }
        }
        assert(self.path_ok(q));
        assert(q.len() >= 1 && q[0] == a && q[q.len() - 1] == c);
    }

    /// A path of length at least two that ends at `id` starts inside any set
    /// that holds `id`'s parents and is closed under parents.
    proof fn lemma_ancestor_path(self, vis: Seq<u64>, p: Seq<u64>, id: u64)
        requires
            self.path_ok(p),
            p.len() >= 2,
            p[p.len() - 1] == id,
            parents_of_in(self.refs@, vis, id),
            parent_closed(self.refs@, vis),
        ensures
            vis.contains(p[0]),
        decreases p.len(),
    {
        if p.len() == 2 {
            let kk: int = 0;
            assert(self.has_edge(p[kk], p[kk + 1]));
            assert(self.has_edge(p[0], p[1]));
            let e = choose|e: int|
                0 <= e < self.refs@.len() && (#[trigger] self.refs@[e]).parent_id == p[0]
                    && self.refs@[e].child_id == p[1];
            assert(self.refs@[e].child_id == id);
            assert(vis.contains(self.refs@[e].parent_id));
        } else {
            let q = p.drop_first();
            assert forall|k: int| 0 <= k < q.len() - 1 implies #[trigger] self.has_edge(
                q[k],
                q[k + 1],
            ) by {
                assert(q[k] == p[k + 1] && q[k + 1] == p[k + 2]);
                assert(self.has_edge(p[k + 1], p[k + 2]));
            }
            assert(q[q.len() - 1] == p[p.len() - 1]);
            self.lemma_ancestor_path(vis, q, id);
            assert(vis.contains(q[0]));
            assert(q[0] == p[1]);
            assert(self.has_edge(p[0], p[1]));
            let e = choose|e: int|
                0 <= e < self.refs@.len() && (#[trigger] self.refs@[e]).parent_id == p[0]
                    && self.refs@[e].child_id == p[1];
            let m = choose|m: int| 0 <= m < vis.len() && vis[m] == p[1];
            assert((#[trigger] self.refs@[e]).child_id == (#[trigger] vis[m]));
            assert(vis.contains(self.refs@[e].parent_id));
        }
    }

    /// The ids from which `id` is transitively reachable via one or more
    /// reference edges, each once. `id` itself appears only if some cycle of
    /// edges leads back to it.
    pub fn get_ancestors(&self, id: u64) -> (r: Vec<u64>)
        requires
            self.inv(),
        ensures
            ids_distinct(r@),
            ids_interned(*self, r@),
            forall|m: int| 0 <= m < r@.len() ==> self.is_ancestor(#[trigger] r@[m], id),
            forall|a: u64| #[trigger] self.is_ancestor(a, id) ==> r@.contains(a),
    {
        let mut vis: Vec<u64> = Vec::new();
        // seed with the direct parents of `id`
        let mut e: usize = 0;
        while e < self.refs.len()
            invariant
                self.inv(),
                0 <= e <= self.refs@.len(),
                ids_distinct(vis@),
                ids_interned(*self, vis@),
                vis@.len() <= self.cids@.len(),
                forall|m: int| 0 <= m < vis@.len() ==> self.is_ancestor(#[trigger] vis@[m], id),
                forall|e2: int|
                    0 <= e2 < e && (#[trigger] self.refs@[e2]).child_id == id ==> vis@.contains(
                        self.refs@[e2].parent_id,
                    ),
            decreases self.refs@.len() - e,
        {
            if self.refs[e].child_id == id {
                let parent = self.refs[e].parent_id;
                if !contains_id(&vis, parent) {
                    let ghost vq0 = vis@;
                    vis.push(parent);
                    proof {
                        assert(vis@.drop_last() =~= vq0);
                        let n0 = vq0.len() as int;
                        assert(self.has_edge(parent, id)) by {
                            assert((#[trigger] self.refs@[e as int]).parent_id == parent);
                        }
                        assert(self.is_ancestor(parent, id)) by {
                            self.lemma_reaches_self(id);
                        }
                        assert(self.has_id(parent)) by {
                            assert(rows_have_id(self.cids@, self.refs@[e as int].parent_id));
                        }
                        assert forall|m1: int, m2: int|
                            0 <= m1 < m2 < vis@.len() implies vis@[m1] != vis@[m2] by {
                            if m2 == n0 {
                                if vis@[m1] == parent {
                                    assert(vq0.contains(parent)) by {
                                        assert(vq0[m1] == parent);
                                    }
                                }
                            }
                        }
                        assert forall|m: int| 0 <= m < vis@.len() implies self.is_ancestor(
                            #[trigger] vis@[m],
                            id,
                        ) by {
                            if m < n0 {
                                assert(self.is_ancestor(vq0[m], id));
                            }
                        }
                        assert forall|m: int| 0 <= m < vis@.len() implies self.has_id(
                            #[trigger] vis@[m],
                        ) by {
                            if m < n0 {
                                assert(self.has_id(vq0[m]));
                            }
                        }
                        self.lemma_distinct_ids_bounded(vis@);
                        assert forall|e2: int|
                            0 <= e2 < e + 1 && (#[trigger] self.refs@[e2]).child_id == id implies
                            vis@.contains(self.refs@[e2].parent_id) by {
                            if e2 < e {
                                assert(vq0.contains(self.refs@[e2].parent_id));
                                let w = choose|w: int|
                                    0 <= w < vq0.len() && vq0[w] == self.refs@[e2].parent_id;
                                assert(vis@[w] == self.refs@[e2].parent_id);
                            } else {
                                assert(vis@[n0] == parent);
                            }
                        }
                    }
                } else {
                    proof {
                        assert forall|e2: int|
                            0 <= e2 < e + 1 && (#[trigger] self.refs@[e2]).child_id == id implies
                            vis@.contains(self.refs@[e2].parent_id) by {}
                    }
                }
            } else {
                proof {
                    assert forall|e2: int|
                        0 <= e2 < e + 1 && (#[trigger] self.refs@[e2]).child_id == id implies vis@
                        .contains(self.refs@[e2].parent_id) by {}
                }
            }
            e += 1;
        }
        // close under parents
        let mut k: usize = 0;
        while k < vis.len()
            invariant
                self.inv(),
                0 <= k <= vis@.len(),
                ids_distinct(vis@),
                ids_interned(*self, vis@),
                vis@.len() <= self.cids@.len(),
                forall|m: int| 0 <= m < vis@.len() ==> self.is_ancestor(#[trigger] vis@[m], id),
                parents_of_in(self.refs@, vis@, id),
                forall|m: int, e2: int|
                    0 <= m < k && 0 <= e2 < self.refs@.len() && (
                    #[trigger] self.refs@[e2]).child_id == (#[trigger] vis@[m]) ==> vis@.contains(
                        self.refs@[e2].parent_id,
                    ),
            decreases self.cids@.len() - k,
        {
            let cur = vis[k];
            let mut e2: usize = 0;
            while e2 < self.refs.len()
                invariant
                    self.inv(),
                    0 <= e2 <= self.refs@.len(),
                    0 <= k < vis@.len(),
                    vis@[k as int] == cur,
                    ids_distinct(vis@),
                    ids_interned(*self, vis@),
                    vis@.len() <= self.cids@.len(),
                    forall|m: int| 0 <= m < vis@.len() ==> self.is_ancestor(#[trigger] vis@[m], id),
                    parents_of_in(self.refs@, vis@, id),
                    forall|m: int, e3: int|
                        0 <= m < k && 0 <= e3 < self.refs@.len() && (
                        #[trigger] self.refs@[e3]).child_id == (#[trigger] vis@[m])
                            ==> vis@.contains(self.refs@[e3].parent_id),
                    forall|e3: int|
                        0 <= e3 < e2 && (#[trigger] self.refs@[e3]).child_id == cur
                            ==> vis@.contains(self.refs@[e3].parent_id),
                decreases self.refs@.len() - e2,
            {
                if self.refs[e2].child_id == cur {
                    let parent = self.refs[e2].parent_id;
                    if !contains_id(&vis, parent) {
                        let ghost vq0 = vis@;
                        vis.push(parent);
                        proof {
                            assert(vis@.drop_last() =~= vq0);
                            let n0 = vq0.len() as int;
                            assert(self.has_edge(parent, cur)) by {
                                assert((#[trigger] self.refs@[e2 as int]).parent_id == parent);
                            }
                            assert(self.is_ancestor(parent, id)) by {
                                assert(self.is_ancestor(cur, id));
                                let c = choose|c: u64|
                                    #[trigger] self.has_edge(cur, c) && self.reaches(c, id);
                                self.lemma_reaches_front(cur, c, id);
                                assert(self.reaches(cur, id));
                            }
                            assert(self.has_id(parent)) by {
                                assert(rows_have_id(self.cids@, self.refs@[e2 as int].parent_id));
                            }
                            assert forall|m1: int, m2: int|
                                0 <= m1 < m2 < vis@.len() implies vis@[m1] != vis@[m2] by {
                                if m2 == n0 {
                                    if vis@[m1] == parent {
                                        assert(vq0.contains(parent)) by {
                                            assert(vq0[m1] == parent);
                                        }
                                    }
                                }
                            }
                            assert forall|m: int| 0 <= m < vis@.len() implies self.is_ancestor(
                                #[trigger] vis@[m],
                                id,
                            ) by {
                                if m < n0 {
                                    assert(self.is_ancestor(vq0[m], id));
                                }
                            }
                            assert forall|m: int| 0 <= m < vis@.len() implies self.has_id(
                                #[trigger] vis@[m],
                            ) by {
                                if m < n0 {
                                    assert(self.has_id(vq0[m]));
                                }
                            }
                            self.lemma_distinct_ids_bounded(vis@);
                            assert forall|e3: int|
                                0 <= e3 < self.refs@.len() && (
                                #[trigger] self.refs@[e3]).child_id == id implies vis@.contains(
                                self.refs@[e3].parent_id,
                            ) by {
                                assert(vq0.contains(self.refs@[e3].parent_id));
                                let w = choose|w: int|
                                    0 <= w < vq0.len() && vq0[w] == self.refs@[e3].parent_id;
                                assert(vis@[w] == self.refs@[e3].parent_id);
                            }
                            assert forall|m: int, e3: int|
                                0 <= m < k && 0 <= e3 < self.refs@.len() && (
                                #[trigger] self.refs@[e3]).child_id == (#[trigger] vis@[m]) implies
                                vis@.contains(self.refs@[e3].parent_id) by {
                                assert(vq0[m] == vis@[m]);
                                assert(vq0.contains(self.refs@[e3].parent_id));
                                let w = choose|w: int|
                                    0 <= w < vq0.len() && vq0[w] == self.refs@[e3].parent_id;
                                assert(vis@[w] == self.refs@[e3].parent_id);
                            }
                            assert forall|e3: int|
                                0 <= e3 < e2 + 1 && (#[trigger] self.refs@[e3]).child_id == cur
                                    implies vis@.contains(self.refs@[e3].parent_id) by {
                                if e3 < e2 {
                                    assert(vq0.contains(self.refs@[e3].parent_id));
                                    let w = choose|w: int|
                                        0 <= w < vq0.len() && vq0[w] == self.refs@[e3].parent_id;
                                    assert(vis@[w] == self.refs@[e3].parent_id);
                                } else {
                                    assert(vis@[n0] == parent);
                                }
                            }
                        }
                    } else {
                        proof {
                            assert forall|e3: int|
                                0 <= e3 < e2 + 1 && (#[trigger] self.refs@[e3]).child_id == cur
                                    implies vis@.contains(self.refs@[e3].parent_id) by {}
                        }
                    }
                } else {
                    proof {
                        assert forall|e3: int|
                            0 <= e3 < e2 + 1 && (#[trigger] self.refs@[e3]).child_id == cur implies
                            vis@.contains(self.refs@[e3].parent_id) by {}
                    }
                }
                e2 += 1;
            }
            proof {
                assert forall|m: int, e3: int|
                    0 <= m < k + 1 && 0 <= e3 < self.refs@.len() && (
                    #[trigger] self.refs@[e3]).child_id == (#[trigger] vis@[m]) implies vis@
                    .contains(self.refs@[e3].parent_id) by {}
            }
            k += 1;
        }
        proof {
            assert(parent_closed(self.refs@, vis@));
            assert forall|a: u64| #[trigger] self.is_ancestor(a, id) implies vis@.contains(a) by {
                let c = choose|c: u64| #[trigger] self.has_edge(a, c) && self.reaches(c, id);
                let p = choose|p: Seq<u64>|
                    #[trigger] self.path_ok(p) && p.len() >= 1 && p[0] == c && p[p.len() - 1]
                        == id;
                let q = Seq::new(p.len() + 1, |i: int| if i == 0 { a } else { p[i - 1] });
                assert forall|j: int| 0 <= j < q.len() - 1 implies #[trigger] self.has_edge(
                    q[j],
                    q[j + 1],
                ) by {
                    if j == 0 {
                        assert(q[0] == a && q[1] == p[0]);
                    } else {
                        assert(q[j] == p[j - 1] && q[j + 1] == p[j]);
                        let jj = j - 1;
                        assert(self.has_edge(p[jj], p[jj + 1]));
                    }
                }
                assert(self.path_ok(q));
                assert(q.len() >= 2 && q[q.len() - 1] == id && q[0] == a);
                self.lemma_ancestor_path(vis@, q, id);
            }
        }
        vis
    }
}

/// Is `x` one of the listed ids?
pub fn contains_id(v: &Vec<u64>, x: u64) -> (r: bool)
    ensures
        r <==> v@.contains(x),
{
    let mut k: usize = 0;
    while k < v.len()
        invariant
            0 <= k <= v@.len(),
            forall|j: int| 0 <= j < k ==> v@[j] != x,
        decreases v@.len() - k,
    {
        if v[k] == x {
            assert(v@[k as int] == x);
            return true;
        }
        k += 1;
    }
    proof {
        if v@.contains(x) {
            let w = choose|w: int| 0 <= w < v@.len() && v@[w] == x;
            assert(v@[w] != x);
        }
    }
    false
}

} // verus!

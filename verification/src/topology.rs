//! Breadth-first topological ordering of parsed records: root location,
//! traversal with cycle tolerance, and the reachability facts the dense
//! remapping rests on.

use vstd::prelude::*;
use vstd::seq_lib::seq_to_set_is_finite;
use vstd::set::group_set_axioms;
use vstd::set_lib::lemma_len_subset;

use crate::node::{Node, NO_PARENT};

verus! {

/// Whether `id` is the identifier of some record.
pub open spec fn is_node_id(rs: Seq<Node>, id: u64) -> bool {
    exists|j: int| 0 <= j < rs.len() && rs[j].node_id == id
}

/// The set of all record identifiers.
pub open spec fn id_set(rs: Seq<Node>) -> Set<u64> {
    rs.map_values(|n: Node| n.node_id).to_set()
}

proof fn lemma_id_set(rs: Seq<Node>, id: u64)
    ensures
        id_set(rs).contains(id) <==> is_node_id(rs, id),
{
    let ids = rs.map_values(|n: Node| n.node_id);
    if is_node_id(rs, id) {
        let j = choose|j: int| 0 <= j < rs.len() && rs[j].node_id == id;
        assert(ids[j] == id);
        assert(ids.contains(id));
    }
    if ids.contains(id) {
        let j = choose|j: int| 0 <= j < ids.len() && ids[j] == id;
        assert(rs[j].node_id == id);
    }
}

/// Whether some record has identifier `c` and parent `p`.
pub open spec fn is_child_edge(rs: Seq<Node>, p: u64, c: u64) -> bool {
    exists|j: int| 0 <= j < rs.len() && rs[j].parent_id == p && rs[j].node_id == c
}

/// Whether `id` lies within `k` parent-to-child steps below the root.
pub open spec fn reachable_in(rs: Seq<Node>, root: u64, id: u64, k: nat) -> bool
    decreases k,
{
    if id == root {
        true
    } else if k == 0 {
        false
    } else {
        exists|p: u64| reachable_in(rs, root, p, (k - 1) as nat) && is_child_edge(rs, p, id)
    }
}

/// Whether a chain of parent links connects `id` to the root.
pub open spec fn reachable(rs: Seq<Node>, root: u64, id: u64) -> bool {
    exists|k: nat| reachable_in(rs, root, id, k)
}

pub proof fn lemma_reachable_root(rs: Seq<Node>, root: u64)
    ensures
        reachable(rs, root, root),
{
    assert(reachable_in(rs, root, root, 0));
}

pub proof fn lemma_reachable_step(rs: Seq<Node>, root: u64, p: u64, c: u64)
    requires
        reachable(rs, root, p),
        is_child_edge(rs, p, c),
    ensures
        reachable(rs, root, c),
{
    let k = choose|k: nat| reachable_in(rs, root, p, k);
    if c != root {
        assert(reachable_in(rs, root, p, ((k + 1) - 1) as nat) && is_child_edge(rs, p, c));
        assert(reachable_in(rs, root, c, k + 1));
    } else {
        assert(reachable_in(rs, root, c, 0));
    }
}

/// Identifiers of the records whose parent is `p`, in input order.
pub open spec fn children_of(rs: Seq<Node>, p: u64) -> Seq<u64>
    decreases rs.len(),
{
    if rs.len() == 0 {
        Seq::<u64>::empty()
    } else {
        children_of(rs.drop_last(), p) + (if rs.last().parent_id == p {
            seq![rs.last().node_id]
        } else {
            Seq::<u64>::empty()
        })
    }
}

/// The children of `p` are exactly the targets of its child edges.
pub proof fn lemma_children_edge(rs: Seq<Node>, p: u64)
    ensures
        forall|c: u64| #[trigger] children_of(rs, p).contains(c) <==> is_child_edge(rs, p, c),
    decreases rs.len(),
{
    if rs.len() == 0 {
        assert forall|c: u64| #[trigger] children_of(rs, p).contains(c) <==> is_child_edge(
            rs,
            p,
            c,
        ) by {
            assert(!children_of(rs, p).contains(c));
            assert(!is_child_edge(rs, p, c));
        }
    } else {
        let d = rs.drop_last();
        lemma_children_edge(d, p);
        assert forall|c: u64| #[trigger] children_of(rs, p).contains(c) <==> is_child_edge(
            rs,
            p,
            c,
        ) by {
            if children_of(rs, p).contains(c) {
                let cs = children_of(rs, p);
                let i = choose|i: int| 0 <= i < cs.len() && cs[i] == c;
                if i < children_of(d, p).len() {
                    assert(children_of(d, p).contains(c));
                    let j = choose|j: int| 0 <= j < d.len() && d[j].parent_id == p && d[j].node_id
                        == c;
                    assert(rs[j].parent_id == p && rs[j].node_id == c);
                } else {
                    assert(rs.last().parent_id == p && rs.last().node_id == c);
                    assert(rs[rs.len() - 1].parent_id == p && rs[rs.len() - 1].node_id == c);
                }
            }
            if is_child_edge(rs, p, c) {
                let j = choose|j: int| 0 <= j < rs.len() && rs[j].parent_id == p && rs[j].node_id
                    == c;
                if j < rs.len() - 1 {
                    assert(d[j].parent_id == p && d[j].node_id == c);
                    assert(children_of(d, p).contains(c));
                    let i = choose|i: int| 0 <= i < children_of(d, p).len() && children_of(d, p)[i]
                        == c;
                    assert(children_of(rs, p)[i] == c);
                    assert(children_of(rs, p).contains(c));
                } else {
                    let cs = children_of(rs, p);
                    assert(cs[cs.len() - 1] == c);
                    assert(cs.contains(c));
                }
            }
        }
    }
}

/// The identifiers of the records whose parent is `p`.
pub fn child_ids(rs: &Vec<Node>, p: u64) -> (cs: Vec<u64>)
    ensures
        cs@ == children_of(rs@, p),
{
    let mut cs: Vec<u64> = Vec::new();
    let mut i: usize = 0;
    proof {
        assert(cs@ =~= children_of(rs@.take(0), p));
    }
    while i < rs.len()
        invariant
            i <= rs@.len(),
            cs@ == children_of(rs@.take(i as int), p),
        decreases rs@.len() - i,
    {
        proof {
            assert(rs@.take(i + 1).drop_last() =~= rs@.take(i as int));
            assert(rs@.take(i + 1).last() == rs@[i as int]);
        }
        if rs[i].parent_id == p {
            cs.push(rs[i].node_id);
        }
        i = i + 1;
    }
    proof {
        assert(rs@.take(rs@.len() as int) =~= rs@);
    }
    cs
}

/// Whether `v` holds `x`.
pub fn contains_u64(v: &Vec<u64>, x: u64) -> (r: bool)
    ensures
        r == v@.contains(x),
{
    let mut i: usize = 0;
    while i < v.len()
        invariant
            i <= v@.len(),
            forall|j: int| 0 <= j < i ==> v@[j] != x,
        decreases v@.len() - i,
    {
        if v[i] == x {
            return true;
        }
        i = i + 1;
    }
    false
}

/// The first record whose parent is the no-parent sentinel, if any: the
/// root of the traversal.
pub fn find_root(rs: &Vec<Node>) -> (r: Option<usize>)
    ensures
        match r {
            Some(i) => 0 <= i < rs@.len() && rs@[i as int].parent_id == NO_PARENT && forall|j: int|
                0 <= j < i ==> rs@[j].parent_id != NO_PARENT,
            None => forall|j: int| 0 <= j < rs@.len() ==> rs@[j].parent_id != NO_PARENT,
        },
{
    let mut i: usize = 0;
    while i < rs.len()
        invariant
            i <= rs@.len(),
            forall|j: int| 0 <= j < i ==> rs@[j].parent_id != NO_PARENT,
        decreases rs@.len() - i,
    {
        if rs[i].parent_id == NO_PARENT {
            return Some(i);
        }
        i = i + 1;
    }
    None
}

/// Whether no two records share an identifier.
pub open spec fn unique_ids(rs: Seq<Node>) -> bool {
    forall|i: int, j: int|
        0 <= i < rs.len() && 0 <= j < rs.len() && i != j ==> (#[trigger] rs[i]).node_id != (
        #[trigger] rs[j]).node_id
}

/// Whether the identifiers are unique and none collides with the
/// no-parent sentinel, as parsing guarantees.
pub open spec fn canon_ids(rs: Seq<Node>) -> bool {
    unique_ids(rs) && forall|i: int| 0 <= i < rs.len() ==> (#[trigger] rs[i]).node_id != NO_PARENT
}

/// With unique identifiers a node has at most one parent.
proof fn lemma_unique_parent(rs: Seq<Node>, p: u64, q: u64, c: u64)
    requires
        unique_ids(rs),
        is_child_edge(rs, p, c),
        is_child_edge(rs, q, c),
    ensures
        p == q,
{
    let i = choose|i: int| 0 <= i < rs.len() && rs[i].parent_id == p && rs[i].node_id == c;
    let j = choose|j: int| 0 <= j < rs.len() && rs[j].parent_id == q && rs[j].node_id == c;
    if i != j {
        assert(rs[i].node_id != rs[j].node_id);
    }
}

/// With unique identifiers no identifier appears twice among the
/// children of `p`.
proof fn lemma_children_nodup(rs: Seq<Node>, p: u64)
    requires
        unique_ids(rs),
    ensures
        children_of(rs, p).no_duplicates(),
    decreases rs.len(),
{
    if rs.len() > 0 {
        let d = rs.drop_last();
        lemma_children_nodup(d, p);
        let cs = children_of(rs, p);
        let ds = children_of(d, p);
        assert forall|i: int, j: int|
            0 <= i < cs.len() && 0 <= j < cs.len() && i != j implies cs[i] != cs[j] by {
            if i < ds.len() && j < ds.len() {
                assert(ds[i] != ds[j]);
            } else if rs.last().parent_id == p {
                // One index names the last record's identifier: it stands
                // among the earlier children only through an earlier
                // record, which unique identifiers rule out.
                let k = if i < ds.len() {
                    i
                } else {
                    j
                };
                if 0 <= k < ds.len() && cs[k] == rs.last().node_id {
                    assert(ds[k] == cs[k]);
                    assert(ds.contains(ds[k]));
                    lemma_children_edge(d, p);
                    assert(is_child_edge(d, p, ds[k]));
                    let m = choose|m: int|
                        0 <= m < d.len() && d[m].parent_id == p && d[m].node_id == ds[k];
                    assert(rs[m].node_id == rs[rs.len() - 1].node_id);
                }
            }
        }
    }
}

/// When nothing in `cs` was visited, nothing is filtered.
proof fn lemma_unvisited_all(cs: Seq<u64>, vis: Seq<u64>)
    requires
        forall|i: int| 0 <= i < cs.len() ==> !vis.contains(#[trigger] cs[i]),
    ensures
        unvisited_children(cs, vis) == cs,
    decreases cs.len(),
{
    if cs.len() > 0 {
        assert(cs[cs.len() - 1] == cs.last());
        assert forall|i: int| 0 <= i < cs.drop_last().len() implies !vis.contains(
            #[trigger] cs.drop_last()[i],
        ) by {
            assert(cs.drop_last()[i] == cs[i]);
        }
        lemma_unvisited_all(cs.drop_last(), vis);
        assert(unvisited_children(cs, vis) =~= cs);
    }
}

/// The children lists of the first `k` visited nodes, one after another.
pub open spec fn children_cat(rs: Seq<Node>, ord: Seq<u64>, k: int) -> Seq<u64>
    decreases k,
{
    if k <= 0 {
        Seq::<u64>::empty()
    } else {
        children_cat(rs, ord, k - 1) + children_of(rs, ord[k - 1])
    }
}

/// The sequence `0, 1, ..., n - 1`.
pub open spec fn idseq(n: int) -> Seq<u64> {
    Seq::new(n as nat, |i: int| i as u64)
}

pub proof fn lemma_cat_len_mono(rs: Seq<Node>, ord: Seq<u64>, a: int, b: int)
    requires
        0 <= a <= b,
    ensures
        children_cat(rs, ord, a).len() <= children_cat(rs, ord, b).len(),
    decreases b - a,
{
    if a < b {
        lemma_cat_len_mono(rs, ord, a, b - 1);
    }
}

/// Inside the concatenation of children lists, the piece for position
/// `j` stands between the lengths of the neighbouring prefixes.
pub proof fn lemma_cat_block(rs: Seq<Node>, ord: Seq<u64>, j: int, t: int)
    requires
        0 <= j < t,
    ensures
        children_cat(rs, ord, t).subrange(
            children_cat(rs, ord, j).len() as int,
            children_cat(rs, ord, j + 1).len() as int,
        ) == children_of(rs, ord[j]),
    decreases t,
{
    let lo = children_cat(rs, ord, j).len() as int;
    let hi = children_cat(rs, ord, j + 1).len() as int;
    if t == j + 1 {
        assert(children_cat(rs, ord, t).subrange(lo, hi) =~= children_of(rs, ord[j]));
    } else {
        lemma_cat_block(rs, ord, j, t - 1);
        lemma_cat_len_mono(rs, ord, j + 1, t - 1);
        assert(children_cat(rs, ord, t).subrange(lo, hi) =~= children_cat(
            rs,
            ord,
            t - 1,
        ).subrange(lo, hi));
    }
}

/// Every index into the concatenation falls inside the piece of exactly
/// one position.
proof fn lemma_cat_index_block(rs: Seq<Node>, ord: Seq<u64>, t: int, p: int)
    requires
        0 <= p < children_cat(rs, ord, t).len(),
        0 <= t,
    ensures
        exists|j: int|
            0 <= j < t && children_cat(rs, ord, j).len() <= p < children_cat(
                rs,
                ord,
                #[trigger] (j + 1),
            ).len(),
    decreases t,
{
    if t > 0 {
        if p < children_cat(rs, ord, t - 1).len() {
            lemma_cat_index_block(rs, ord, t - 1, p);
        } else {
            assert(children_cat(rs, ord, (t - 1) + 1).len() == children_cat(rs, ord, t).len());
        }
    }
}

/// The first `k` children lists only read the first `k` positions.
pub proof fn lemma_children_cat_agree(rs: Seq<Node>, ord1: Seq<u64>, ord2: Seq<u64>, k: int)
    requires
        0 <= k <= ord1.len(),
        k <= ord2.len(),
        forall|i: int| 0 <= i < k ==> ord1[i] == ord2[i],
    ensures
        children_cat(rs, ord1, k) == children_cat(rs, ord2, k),
    decreases k,
{
    if k > 0 {
        lemma_children_cat_agree(rs, ord1, ord2, k - 1);
    }
}

/// Whether the records already stand in the shape a finished walk
/// leaves behind: each identifier is its position, the root is at
/// position 0, every parent precedes its children, and the whole
/// sequence is the root followed by each position's children in order.
pub open spec fn canonical_bfs_form(rs: Seq<Node>) -> bool {
    &&& 1 <= rs.len() <= 0x1_0000_0000_0000_0000
    &&& forall|i: int| 0 <= i < rs.len() ==> (#[trigger] rs[i]).node_id == i as u64
    &&& rs[0].parent_id == NO_PARENT
    &&& forall|i: int| 1 <= i < rs.len() ==> ((#[trigger] rs[i]).parent_id as int) < i
    &&& idseq(rs.len() as int) == seq![0u64] + children_cat(
        rs,
        idseq(rs.len() as int),
        rs.len() as int,
    )
}

/// When exactly the records at positions `lo .. hi` carry parent `p`,
/// the children of `p` are exactly those positions, in order.
pub proof fn lemma_children_of_interval(ms: Seq<Node>, p: u64, lo: int, hi: int)
    requires
        forall|i: int| 0 <= i < ms.len() ==> (#[trigger] ms[i]).node_id == i as u64,
        0 <= lo <= hi <= ms.len(),
        forall|i: int| 0 <= i < ms.len() ==> ((#[trigger] ms[i]).parent_id == p <==> lo <= i < hi),
    ensures
        children_of(ms, p) == idseq(ms.len() as int).subrange(lo, hi),
    decreases ms.len(),
{
    let n = ms.len() as int;
    if ms.len() == 0 {
        assert(children_of(ms, p) =~= idseq(n).subrange(lo, hi));
    } else {
        let d = ms.drop_last();
        assert(forall|i: int| 0 <= i < d.len() ==> (#[trigger] d[i]).node_id == i as u64);
        if ms.last().parent_id == p {
            // The last record matches, so the interval ends at the end.
            assert(ms[n - 1].parent_id == p);
            assert(hi == n && lo <= n - 1);
            assert(forall|i: int|
                0 <= i < d.len() ==> ((#[trigger] d[i]).parent_id == p <==> lo <= i < n - 1));
            lemma_children_of_interval(d, p, lo, n - 1);
            assert(ms.last().node_id == (n - 1) as u64);
            assert(children_of(ms, p) =~= idseq(n).subrange(lo, hi)) by {
                assert(children_of(ms, p) == children_of(d, p) + seq![ms.last().node_id]);
                assert(idseq(d.len() as int).subrange(lo, n - 1) =~= idseq(n).subrange(
                    lo,
                    n - 1,
                ));
            }
        } else {
            assert(ms[n - 1].parent_id != p);
            assert(!(lo <= n - 1 < hi));
            if lo == hi {
                assert(forall|i: int|
                    0 <= i < d.len() ==> ((#[trigger] d[i]).parent_id == p <==> 0 <= i < 0));
                lemma_children_of_interval(d, p, 0, 0);
                assert(children_of(ms, p) =~= idseq(n).subrange(lo, hi)) by {
                    assert(idseq(d.len() as int).subrange(0, 0) =~= idseq(n).subrange(lo, hi));
                }
            } else {
                assert(hi <= n - 1);
                assert(forall|i: int|
                    0 <= i < d.len() ==> ((#[trigger] d[i]).parent_id == p <==> lo <= i < hi));
                lemma_children_of_interval(d, p, lo, hi);
                assert(children_of(ms, p) =~= idseq(n).subrange(lo, hi)) by {
                    assert(idseq(d.len() as int).subrange(lo, hi) =~= idseq(n).subrange(lo, hi));
                }
            }
        }
    }
}

/// A child in the list of `x` is the record at its own position, and
/// its parent field is `x`.
proof fn lemma_child_parent_idx(rs: Seq<Node>, x: u64, c: u64)
    requires
        rs.len() <= 0x1_0000_0000_0000_0000,
        forall|i: int| 0 <= i < rs.len() ==> (#[trigger] rs[i]).node_id == i as u64,
        children_of(rs, x).contains(c),
    ensures
        0 <= c < rs.len(),
        rs[c as int].parent_id == x,
{
    lemma_children_edge(rs, x);
    assert(is_child_edge(rs, x, c));
    let r = choose|r: int| 0 <= r < rs.len() && rs[r].parent_id == x && rs[r].node_id == c;
    assert(rs[r].node_id == r as u64);
}

/// Walking records in canonical shape visits them exactly in position
/// order: the walk is the identity on an already normalized skeleton.
pub proof fn lemma_bfs_identity(rs: Seq<Node>)
    requires
        canonical_bfs_form(rs),
    ensures
        bfs_spec(rs, seq![0u64], Seq::<u64>::empty()) == idseq(rs.len() as int),
{
    let n = rs.len() as int;
    let ids = idseq(n);
    lemma_bfs_identity_rec(rs, 0, 1);
    assert(ids.subrange(0, 1) =~= seq![0u64]);
    assert(ids.take(0) =~= Seq::<u64>::empty());
    assert(ids.subrange(0, n) =~= ids);
}

proof fn lemma_bfs_identity_rec(rs: Seq<Node>, k: int, m: int)
    requires
        canonical_bfs_form(rs),
        0 <= k <= m <= rs.len(),
        m == 1 + children_cat(rs, idseq(rs.len() as int), k).len(),
    ensures
        bfs_spec(
            rs,
            idseq(rs.len() as int).subrange(k, m),
            idseq(rs.len() as int).take(k),
        ) == idseq(rs.len() as int).subrange(k, rs.len() as int),
    decreases rs.len() - k,
{
    let n = rs.len() as int;
    let ids = idseq(n);
    let q = ids.subrange(k, m);
    let vis = ids.take(k);
    assert(ids == seq![0u64] + children_cat(rs, ids, n));
    assert(ids.len() == n);
    assert((seq![0u64] + children_cat(rs, ids, n)).len() == 1 + children_cat(rs, ids, n).len());
    assert(n == 1 + children_cat(rs, ids, n).len());
    if k == m {
        if k < n {
            // The flat equation puts position `k` inside some piece `j`,
            // making `j` the parent of `k`; but every piece up to `k`
            // ends before `k`, so `j >= k`, against parents preceding.
            let p = k - 1;
            lemma_cat_index_block(rs, ids, n, p);
            let j = choose|j: int|
                0 <= j < n && children_cat(rs, ids, j).len() <= p < children_cat(
                    rs,
                    ids,
                    #[trigger] (j + 1),
                ).len();
            lemma_cat_block(rs, ids, j, n);
            lemma_cat_len_mono(rs, ids, j + 1, n);
            let blk = children_of(rs, ids[j]);
            let lo = children_cat(rs, ids, j).len() as int;
            let hi = children_cat(rs, ids, j + 1).len() as int;
            assert(blk == children_cat(rs, ids, n).subrange(lo, hi));
            assert(blk[p - lo] == children_cat(rs, ids, n)[p]);
            assert(ids[k] == (seq![0u64] + children_cat(rs, ids, n))[k]);
            assert(children_cat(rs, ids, n)[p] == ids[k]);
            assert(blk.contains(k as u64));
            lemma_child_parent_idx(rs, ids[j], k as u64);
            assert(rs[k].parent_id == ids[j]);
            if j < k {
                lemma_cat_len_mono(rs, ids, j + 1, k);
            }
            assert(j >= k);
            assert((rs[k].parent_id as int) == j);
            assert(false);
        }
        assert(q.len() == 0);
        assert(ids.subrange(k, n) =~= Seq::<u64>::empty());
    } else {
        let h = k as u64;
        assert(q[0] == ids[k]);
        assert(ids[k] == h);
        assert(!vis.contains(h)) by {
            if vis.contains(h) {
                let t = choose|t: int| 0 <= t < vis.len() && vis[t] == h;
                assert(vis[t] == t as u64);
            }
        }
        assert(is_node_id(rs, h)) by {
            assert(rs[k].node_id == h);
        }
        // The children of `k` are the identifiers `m .. m2`.
        lemma_cat_block(rs, ids, k, n);
        let blk = children_of(rs, ids[k]);
        let m2: int = 1 + children_cat(rs, ids, k + 1).len() as int;
        assert(children_cat(rs, ids, k + 1).len() == children_cat(rs, ids, k).len()
            + blk.len());
        lemma_cat_len_mono(rs, ids, k + 1, n);
        assert(m2 <= n);
        assert forall|t: int| 0 <= t < blk.len() implies blk[t] == ids[m + t] by {
            assert(blk[t] == children_cat(rs, ids, n).subrange(
                children_cat(rs, ids, k).len() as int,
                children_cat(rs, ids, k + 1).len() as int,
            )[t]);
            assert(blk[t] == children_cat(rs, ids, n)[m - 1 + t]);
            assert(ids[m + t] == (seq![0u64] + children_cat(rs, ids, n))[m + t]);
        }
        assert(blk =~= ids.subrange(m, m2));
        let vis2 = vis.push(h);
        assert forall|t: int| 0 <= t < blk.len() implies !vis2.contains(#[trigger] blk[t]) by {
            assert(blk[t] == ids[m + t]);
            assert(blk[t] == (m + t) as u64);
            if vis2.contains(blk[t]) {
                let w = choose|w: int| 0 <= w < vis2.len() && vis2[w] == blk[t];
                if w < vis.len() {
                    assert(vis2[w] == w as u64);
                } else {
                    assert(vis2[w] == h);
                }
            }
        }
        lemma_unvisited_all(blk, vis2);
        assert(children_of(rs, h) == blk);
        assert(bfs_spec(rs, q, vis) == seq![h] + bfs_spec(rs, q.skip(1) + blk, vis2));
        assert(q.skip(1) + blk =~= ids.subrange(k + 1, m2));
        assert(vis2 =~= ids.take(k + 1));
        lemma_bfs_identity_rec(rs, k + 1, m2);
        assert(seq![h] + ids.subrange(k + 1, n) =~= ids.subrange(k, n));
    }
}

/// Whether `root_id` names a record that uses the no-parent sentinel.
pub open spec fn root_marked(rs: Seq<Node>, root_id: u64) -> bool {
    exists|i: int| 0 <= i < rs.len() && rs[i].node_id == root_id && rs[i].parent_id == NO_PARENT
}

/// With canonical identifiers the walk never meets a visited identifier
/// again: every queue entry is still fresh when popped.
proof fn lemma_canon_fresh(order: Seq<u64>, queue: Seq<u64>, head: int)
    requires
        0 <= head < queue.len(),
        queue.take(head) == order,
        queue.no_duplicates(),
    ensures
        !order.contains(queue[head]),
{
    if order.contains(queue[head]) {
        let h = queue[head];
        let j = choose|j: int| 0 <= j < order.len() && order[j] == h;
        assert(queue.take(head)[j] == h);
        assert(queue[j] == queue[head]);
    }
}

/// With canonical identifiers and a sentinel-marked root, the children
/// of a freshly popped node are distinct and stand nowhere in the queue.
proof fn lemma_canon_step(rs: Seq<Node>, root_id: u64, order: Seq<u64>, queue: Seq<u64>, head: int)
    requires
        canon_ids(rs),
        root_marked(rs, root_id),
        0 <= head < queue.len(),
        queue.take(head) == order,
        !order.contains(queue[head]),
        forall|i: int| 0 <= i < queue.len() ==> is_node_id(rs, #[trigger] queue[i]),
        forall|i: int|
            0 <= i < queue.len() ==> queue[i] == root_id || exists|j: int|
                0 <= j < order.len() && is_child_edge(rs, order[j], #[trigger] queue[i]),
    ensures
        children_of(rs, queue[head]).no_duplicates(),
        forall|i: int|
            0 <= i < children_of(rs, queue[head]).len() ==> !queue.contains(
                #[trigger] children_of(rs, queue[head])[i],
            ) && children_of(rs, queue[head])[i] != queue[head],
{
    let h = queue[head];
    let cs = children_of(rs, h);
    lemma_children_nodup(rs, h);
    lemma_children_edge(rs, h);
    let rp = choose|i: int|
        0 <= i < rs.len() && rs[i].node_id == root_id && rs[i].parent_id == NO_PARENT;
    assert forall|i: int|
        0 <= i < cs.len() implies !queue.contains(#[trigger] cs[i]) && cs[i] != h by {
        let c = cs[i];
        assert(cs.contains(c));
        assert(is_child_edge(rs, h, c));
        // The root has no inbound edge from any real node.
        if c == root_id {
            let e = choose|e: int| 0 <= e < rs.len() && rs[e].parent_id == h && rs[e].node_id == c;
            if e != rp {
                assert(rs[e].node_id != rs[rp].node_id);
            }
            assert(h == NO_PARENT);
            assert(is_node_id(rs, h));
            let hi = choose|hi: int| 0 <= hi < rs.len() && rs[hi].node_id == h;
            assert(rs[hi].node_id != NO_PARENT);
        }
        // A queued identifier's only parent is already visited; `h` is not.
        if queue.contains(c) {
            let qi = choose|qi: int| 0 <= qi < queue.len() && queue[qi] == c;
            assert(queue[qi] == root_id || exists|j: int|
                0 <= j < order.len() && is_child_edge(rs, order[j], queue[qi]));
            if c != root_id {
                let j = choose|j: int| 0 <= j < order.len() && is_child_edge(rs, order[j], c);
                lemma_unique_parent(rs, h, order[j], c);
                assert(order.contains(h));
            }
        }
        if c == h {
            // Its own parent: then `h` could never have been queued.
            if h == root_id {
                let e = choose|e: int|
                    0 <= e < rs.len() && rs[e].parent_id == h && rs[e].node_id == c;
                if e != rp {
                    assert(rs[e].node_id != rs[rp].node_id);
                }
                assert(rs[rp].parent_id == NO_PARENT);
                let hi = choose|hi: int| 0 <= hi < rs.len() && rs[hi].node_id == h;
                assert(rs[hi].node_id != NO_PARENT);
            } else {
                assert(queue[head] == root_id || exists|j: int|
                    0 <= j < order.len() && is_child_edge(rs, order[j], queue[head]));
                let j = choose|j: int| 0 <= j < order.len() && is_child_edge(rs, order[j], h);
                lemma_unique_parent(rs, h, order[j], h);
                assert(order.contains(h));
            }
        }
    }
}

/// Whether any record uses the no-parent sentinel.
pub open spec fn has_root(rs: Seq<Node>) -> bool {
    exists|j: int| 0 <= j < rs.len() && rs[j].parent_id == NO_PARENT
}

/// Position of the first record using the no-parent sentinel, or
/// `rs.len()` when there is none.
pub open spec fn root_pos(rs: Seq<Node>) -> int
    decreases rs.len(),
{
    if rs.len() == 0 {
        0
    } else if rs[0].parent_id == NO_PARENT {
        0
    } else {
        1 + root_pos(rs.skip(1))
    }
}

/// The identifier the traversal starts from.
pub open spec fn root_id_of(rs: Seq<Node>) -> u64 {
    rs[root_pos(rs)].node_id
}

/// When a root exists, `root_pos` names a sentinel-parented record.
pub proof fn lemma_root_pos_props(rs: Seq<Node>)
    requires
        has_root(rs),
    ensures
        0 <= root_pos(rs) < rs.len(),
        rs[root_pos(rs)].parent_id == NO_PARENT,
        root_marked(rs, root_id_of(rs)),
    decreases rs.len(),
{
    if rs.len() > 0 && rs[0].parent_id != NO_PARENT {
        assert(has_root(rs.skip(1))) by {
            let j = choose|j: int| 0 <= j < rs.len() && rs[j].parent_id == NO_PARENT;
            assert(rs.skip(1)[j - 1].parent_id == NO_PARENT);
        }
        lemma_root_pos_props(rs.skip(1));
        assert(rs[root_pos(rs)] == rs.skip(1)[root_pos(rs.skip(1))]);
    }
}

/// A position where the first sentinel parent stands determines
/// `root_pos`.
pub proof fn lemma_root_pos_is(rs: Seq<Node>, k: int)
    requires
        0 <= k <= rs.len(),
        forall|j: int| 0 <= j < k ==> rs[j].parent_id != NO_PARENT,
        k < rs.len() ==> rs[k].parent_id == NO_PARENT,
    ensures
        root_pos(rs) == k,
    decreases rs.len(),
{
    if rs.len() > 0 && rs[0].parent_id != NO_PARENT {
        assert forall|j: int| 0 <= j < k - 1 implies rs.skip(1)[j].parent_id != NO_PARENT by {
            assert(rs[j + 1].parent_id != NO_PARENT);
        }
        assert(k - 1 < rs.skip(1).len() ==> rs.skip(1)[k - 1] == rs[k]);
        lemma_root_pos_is(rs.skip(1), k - 1);
    }
}

/// The members of `cs` not yet in `vis`, in order.
pub open spec fn unvisited_children(cs: Seq<u64>, vis: Seq<u64>) -> Seq<u64>
    decreases cs.len(),
{
    if cs.len() == 0 {
        Seq::<u64>::empty()
    } else {
        unvisited_children(cs.drop_last(), vis) + (if vis.contains(cs.last()) {
            Seq::<u64>::empty()
        } else {
            seq![cs.last()]
        })
    }
}

pub proof fn lemma_unvisited_children(cs: Seq<u64>, vis: Seq<u64>)
    ensures
        forall|c: u64| #[trigger] unvisited_children(cs, vis).contains(c) <==> (cs.contains(c)
            && !vis.contains(c)),
    decreases cs.len(),
{
    if cs.len() == 0 {
        assert forall|c: u64| #[trigger] unvisited_children(cs, vis).contains(c) <==> (cs.contains(
            c,
        ) && !vis.contains(c)) by {
            assert(!unvisited_children(cs, vis).contains(c));
            assert(!cs.contains(c));
        }
    } else {
        let d = cs.drop_last();
        lemma_unvisited_children(d, vis);
        assert forall|c: u64| #[trigger] unvisited_children(cs, vis).contains(c) <==> (cs.contains(
            c,
        ) && !vis.contains(c)) by {
            let us = unvisited_children(cs, vis);
            if us.contains(c) {
                let i = choose|i: int| 0 <= i < us.len() && us[i] == c;
                if i < unvisited_children(d, vis).len() {
                    assert(unvisited_children(d, vis).contains(c));
                    assert(d.contains(c));
                    let j = choose|j: int| 0 <= j < d.len() && d[j] == c;
                    assert(cs[j] == c);
                    assert(cs.contains(c));
                } else {
                    assert(c == cs.last());
                    assert(cs[cs.len() - 1] == c);
                    assert(cs.contains(c));
                }
            }
            if cs.contains(c) && !vis.contains(c) {
                let j = choose|j: int| 0 <= j < cs.len() && cs[j] == c;
                if j < cs.len() - 1 {
                    assert(d[j] == c);
                    assert(d.contains(c));
                    assert(unvisited_children(d, vis).contains(c));
                    let i = choose|i: int| 0 <= i < unvisited_children(d, vis).len()
                        && unvisited_children(d, vis)[i] == c;
                    assert(us[i] == c);
                    assert(us.contains(c));
                } else {
                    assert(us[us.len() - 1] == c);
                    assert(us.contains(c));
                }
            }
        }
    }
}

/// The visiting order of a breadth-first walk: the head of the queue is
/// skipped when already visited, else it is emitted and its children not
/// yet visited join the queue.
pub open spec fn bfs_spec(rs: Seq<Node>, queue: Seq<u64>, visited: Seq<u64>) -> Seq<u64>
    decreases id_set(rs).difference(visited.to_set()).len(), queue.len(),
    via bfs_spec_dec
{
    if queue.len() == 0 {
        Seq::<u64>::empty()
    } else {
        let h = queue[0];
        if visited.contains(h) || !is_node_id(rs, h) {
            bfs_spec(rs, queue.skip(1), visited)
        } else {
            let vis2 = visited.push(h);
            seq![h] + bfs_spec(
                rs,
                queue.skip(1) + unvisited_children(children_of(rs, h), vis2),
                vis2,
            )
        }
    }
}

#[via_fn]
proof fn bfs_spec_dec(rs: Seq<Node>, queue: Seq<u64>, visited: Seq<u64>) {
    lemma_bfs_measure(rs, queue, visited);
}

/// The identifiers a breadth-first walk pops while already visited: each
/// marks a cycle or a converging extra edge.
pub open spec fn bfs_cycles(rs: Seq<Node>, queue: Seq<u64>, visited: Seq<u64>) -> Seq<u64>
    decreases id_set(rs).difference(visited.to_set()).len(), queue.len(),
    via bfs_cycles_dec
{
    if queue.len() == 0 {
        Seq::<u64>::empty()
    } else {
        let h = queue[0];
        if visited.contains(h) {
            seq![h] + bfs_cycles(rs, queue.skip(1), visited)
        } else if !is_node_id(rs, h) {
            bfs_cycles(rs, queue.skip(1), visited)
        } else {
            let vis2 = visited.push(h);
            bfs_cycles(rs, queue.skip(1) + unvisited_children(children_of(rs, h), vis2), vis2)
        }
    }
}

#[via_fn]
proof fn bfs_cycles_dec(rs: Seq<Node>, queue: Seq<u64>, visited: Seq<u64>) {
    lemma_bfs_measure(rs, queue, visited);
}

/// Visiting a fresh identifier shrinks the set of identifiers still
/// unvisited.
proof fn lemma_bfs_measure(rs: Seq<Node>, queue: Seq<u64>, visited: Seq<u64>)
    ensures
        queue.len() > 0 && !visited.contains(queue[0]) && is_node_id(rs, queue[0]) ==> id_set(
            rs,
        ).difference(visited.push(queue[0]).to_set()).len() < id_set(rs).difference(
            visited.to_set(),
        ).len(),
{
    broadcast use group_set_axioms, seq_to_set_is_finite;

    if queue.len() > 0 && !visited.contains(queue[0]) && is_node_id(rs, queue[0]) {
        let h = queue[0];
        lemma_id_set(rs, h);
        let s1 = id_set(rs).difference(visited.to_set());
        let s2 = id_set(rs).difference(visited.push(h).to_set());
        assert(visited.push(h).to_set() =~= visited.to_set().insert(h)) by {
            assert forall|x: u64| visited.push(h).contains(x) <==> (visited.contains(x) || x
                == h) by {
                if visited.push(h).contains(x) && x != h {
                    let i = choose|i: int| 0 <= i < visited.push(h).len() && visited.push(h)[i]
                        == x;
                    assert(visited[i] == x);
                }
                if visited.contains(x) {
                    let i = choose|i: int| 0 <= i < visited.len() && visited[i] == x;
                    assert(visited.push(h)[i] == x);
                }
                if x == h {
                    assert(visited.push(h)[visited.len() as int] == x);
                }
            }
        }
        assert(s2 =~= s1.remove(h));
        assert(s1.contains(h));
        assert(id_set(rs).finite());
        assert(s1.finite());
        assert(s2.len() < s1.len());
    }
}

/// Whether every child of a member of `vs` is itself a member.
pub open spec fn closed_under_children(rs: Seq<Node>, vs: Seq<u64>) -> bool {
    forall|i: int, c: u64|
        0 <= i < vs.len() && #[trigger] is_child_edge(rs, vs[i], c) ==> vs.contains(c)
}

/// A set of identifiers that holds the root and all children of its
/// members holds everything reachable.
pub proof fn lemma_closed_reach(rs: Seq<Node>, root: u64, vs: Seq<u64>, id: u64, k: nat)
    requires
        vs.contains(root),
        closed_under_children(rs, vs),
        reachable_in(rs, root, id, k),
    ensures
        vs.contains(id),
    decreases k,
{
    if id != root {
        let p = choose|p: u64|
            reachable_in(rs, root, p, (k - 1) as nat) && is_child_edge(rs, p, id);
        lemma_closed_reach(rs, root, vs, p, (k - 1) as nat);
        let i = choose|i: int| 0 <= i < vs.len() && vs[i] == p;
        assert(is_child_edge(rs, vs[i], id));
    }
}

/// Walks the skeleton breadth-first from the root. Returns the visiting
/// order — distinct identifiers, the root first, every one reachable from
/// the root and every reachable one present, each preceded by a parent —
/// and the identifiers whose second arrival marked a cycle or a
/// converging extra edge.
#[verifier::rlimit(100)]
pub fn bfs_order(rs: &Vec<Node>, root_id: u64) -> (out: (Vec<u64>, Vec<u64>))
    requires
        is_node_id(rs@, root_id),
    ensures
        out.0@ == bfs_spec(rs@, seq![root_id], Seq::<u64>::empty()),
        out.1@ == bfs_cycles(rs@, seq![root_id], Seq::<u64>::empty()),
        out.0@.no_duplicates(),
        out.0@.len() >= 1,
        out.0@[0] == root_id,
        out.0@.len() <= rs@.len(),
        forall|i: int| 0 <= i < out.0@.len() ==> is_node_id(rs@, #[trigger] out.0@[i]),
        forall|id: u64| #[trigger] out.0@.contains(id) <==> reachable(rs@, root_id, id),
        forall|i: int|
            1 <= i < out.0@.len() ==> exists|j: int|
                0 <= j < i && is_child_edge(rs@, out.0@[j], #[trigger] out.0@[i]),
        forall|i: int| 0 <= i < out.1@.len() ==> out.0@.contains(#[trigger] out.1@[i]),
        canon_ids(rs@) && root_marked(rs@, root_id) ==> {
            &&& out.0@ == seq![root_id] + children_cat(rs@, out.0@, out.0@.len() as int)
            &&& out.1@.len() == 0
        },
{
    let mut order: Vec<u64> = Vec::new();
    let mut cycles: Vec<u64> = Vec::new();
    let mut queue: Vec<u64> = Vec::new();
    queue.push(root_id);
    let mut head: usize = 0;
    let ghost full_order = bfs_spec(rs@, seq![root_id], Seq::<u64>::empty());
    let ghost full_cycles = bfs_cycles(rs@, seq![root_id], Seq::<u64>::empty());
    proof {
        assert(queue@ =~= seq![root_id]);
        assert(queue@.skip(0) =~= seq![root_id]);
        lemma_reachable_root(rs@, root_id);
        assert(Seq::<u64>::empty() + full_order =~= full_order);
        assert(Seq::<u64>::empty() + full_cycles =~= full_cycles);
    }
    while head < queue.len()
        invariant
            head <= queue@.len(),
            is_node_id(rs@, root_id),
            forall|i: int| 0 <= i < queue@.len() ==> is_node_id(rs@, #[trigger] queue@[i]),
            forall|i: int| 0 <= i < order@.len() ==> is_node_id(rs@, #[trigger] order@[i]),
            order@.no_duplicates(),
            order@.len() <= rs@.len(),
            order@ + bfs_spec(rs@, queue@.skip(head as int), order@) == full_order,
            cycles@ + bfs_cycles(rs@, queue@.skip(head as int), order@) == full_cycles,
            forall|i: int| 0 <= i < order@.len() ==> reachable(rs@, root_id, #[trigger] order@[i]),
            forall|i: int| 0 <= i < queue@.len() ==> reachable(rs@, root_id, #[trigger] queue@[i]),
            forall|i: int, c: u64|
                0 <= i < order@.len() && #[trigger] is_child_edge(rs@, order@[i], c)
                    ==> order@.contains(c) || queue@.skip(head as int).contains(c),
            order@.len() == 0 ==> head == 0 && queue@ == seq![root_id],
            order@.len() > 0 ==> order@[0] == root_id,
            forall|i: int|
                0 <= i < queue@.len() ==> queue@[i] == root_id || exists|j: int|
                    0 <= j < order@.len() && is_child_edge(rs@, order@[j], #[trigger] queue@[i]),
            forall|i: int|
                1 <= i < order@.len() ==> exists|j: int|
                    0 <= j < i && is_child_edge(rs@, order@[j], #[trigger] order@[i]),
            forall|i: int| 0 <= i < cycles@.len() ==> order@.contains(#[trigger] cycles@[i]),
            canon_ids(rs@) && root_marked(rs@, root_id) ==> {
                &&& head == order@.len()
                &&& queue@.take(head as int) == order@
                &&& queue@ == seq![root_id] + children_cat(rs@, order@, head as int)
                &&& queue@.no_duplicates()
                &&& cycles@.len() == 0
            },
        decreases id_set(rs@).difference(order@.to_set()).len(), queue@.len() - head,
    {
        let h = queue[head];
        let ghost qrest = queue@.skip(head as int);
        proof {
            assert(qrest[0] == h);
            assert(qrest.skip(1) =~= queue@.skip(head as int + 1));
        }
        if contains_u64(&order, h) {
            proof {
                // With canonical identifiers a second arrival never
                // happens: each identifier has one inbound edge.
                if canon_ids(rs@) && root_marked(rs@, root_id) {
                    lemma_canon_fresh(order@, queue@, head as int);
                }
            }
            // A second arrival: warn and skip, never re-emit.
            cycles.push(h);
            head = head + 1;
            proof {
                assert(bfs_spec(rs@, qrest, order@) == bfs_spec(rs@, qrest.skip(1), order@));
                assert(bfs_cycles(rs@, qrest, order@) == seq![h] + bfs_cycles(
                    rs@,
                    qrest.skip(1),
                    order@,
                ));
                assert(cycles@ =~= cycles@.drop_last() + seq![h]);
                assert(cycles@.drop_last() + (seq![h] + bfs_cycles(rs@, qrest.skip(1), order@))
                    =~= cycles@ + bfs_cycles(rs@, qrest.skip(1), order@));
                assert(queue@.skip(head as int) =~= qrest.skip(1));
                assert forall|i: int, c: u64|
                    0 <= i < order@.len() && #[trigger] is_child_edge(rs@, order@[i], c)
                        implies order@.contains(c) || queue@.skip(head as int).contains(c) by {
                    if !order@.contains(c) && qrest.contains(c) {
                        let j = choose|j: int| 0 <= j < qrest.len() && qrest[j] == c;
                        if j == 0 {
                            assert(c == h);
                        } else {
                            assert(qrest.skip(1)[j - 1] == c);
                            assert(queue@.skip(head as int).contains(c));
                        }
                    }
                }
            }
        } else {
            let ghost old_ord = order@;
            let ghost old_q = queue@;
            order.push(h);
            let ghost vis2 = order@;
            proof {
                assert(vis2 == old_ord.push(h));
                assert forall|i: int, j: int|
                    0 <= i < vis2.len() && 0 <= j < vis2.len() && i != j implies vis2[i]
                    != vis2[j] by {
                    if i == vis2.len() - 1 {
                        if vis2[j] == h {
                            assert(old_ord[j] == h);
                            assert(old_ord.contains(h));
                        }
                    } else if j == vis2.len() - 1 {
                        if vis2[i] == h {
                            assert(old_ord[i] == h);
                            assert(old_ord.contains(h));
                        }
                    }
                }
                assert(vis2.no_duplicates());
                lemma_order_card(rs@, vis2);
                lemma_children_edge(rs@, h);
                lemma_unvisited_children(children_of(rs@, h), vis2);
                if canon_ids(rs@) && root_marked(rs@, root_id) {
                    lemma_canon_step(rs@, root_id, old_ord, old_q, head as int);
                }
            }
            // Enqueue the children not yet visited.
            let cs = child_ids(rs, h);
            let ghost qsnap = queue@;
            let mut ci: usize = 0;
            proof {
                assert(queue@ =~= qsnap + unvisited_children(cs@.take(0), vis2));
            }
            while ci < cs.len()
                invariant
                    ci <= cs@.len(),
                    cs@ == children_of(rs@, h),
                    order@ == vis2,
                    queue@ == qsnap + unvisited_children(cs@.take(ci as int), vis2),
                decreases cs@.len() - ci,
            {
                proof {
                    assert(cs@.take(ci + 1).drop_last() =~= cs@.take(ci as int));
                    assert(cs@.take(ci + 1).last() == cs@[ci as int]);
                }
                let c = cs[ci];
                if !contains_u64(&order, c) {
                    queue.push(c);
                    proof {
                        assert(queue@ =~= (qsnap + unvisited_children(cs@.take(ci as int), vis2))
                            + seq![c]);
                        assert(queue@ =~= qsnap + unvisited_children(cs@.take(ci + 1), vis2));
                    }
                } else {
                    proof {
                        assert(queue@ =~= qsnap + unvisited_children(cs@.take(ci + 1), vis2));
                    }
                }
                ci = ci + 1;
            }
            let ghost uc = unvisited_children(children_of(rs@, h), vis2);
            proof {
                assert(cs@.take(cs@.len() as int) =~= cs@);
                assert(queue@ == qsnap + uc);
            }
            head = head + 1;
            proof {
                // The emitted step matches one unfolding of the walk.
                assert(bfs_spec(rs@, qrest, old_ord) == seq![h] + bfs_spec(
                    rs@,
                    qrest.skip(1) + uc,
                    vis2,
                ));
                assert(bfs_cycles(rs@, qrest, old_ord) == bfs_cycles(
                    rs@,
                    qrest.skip(1) + uc,
                    vis2,
                ));
                assert(queue@.skip(head as int) =~= qrest.skip(1) + uc);
                assert(vis2 =~= old_ord + seq![h]);
                assert((old_ord + seq![h]) + bfs_spec(rs@, qrest.skip(1) + uc, vis2) =~= old_ord
                    + (seq![h] + bfs_spec(rs@, qrest.skip(1) + uc, vis2)));
                // Every identifier just enqueued is a child of `h`.
                assert forall|i: int|
                    0 <= i < queue@.len() implies is_node_id(rs@, #[trigger] queue@[i])
                    && reachable(rs@, root_id, queue@[i]) && (queue@[i] == root_id || exists|j: int|
                    0 <= j < order@.len() && is_child_edge(rs@, order@[j], queue@[i])) by {
                    if i < qsnap.len() {
                        assert(queue@[i] == qsnap[i]);
                        if qsnap[i] != root_id {
                            let j = choose|j: int|
                                0 <= j < old_ord.len() && is_child_edge(rs@, old_ord[j], qsnap[i]);
                            assert(order@[j] == old_ord[j]);
                        }
                    } else {
                        let c = queue@[i];
                        assert(uc[i - qsnap.len()] == c);
                        assert(uc.contains(c));
                        assert(children_of(rs@, h).contains(c));
                        assert(is_child_edge(rs@, h, c));
                        let j = choose|j: int|
                            0 <= j < rs@.len() && rs@[j].parent_id == h && rs@[j].node_id == c;
                        assert(is_node_id(rs@, c));
                        lemma_reachable_step(rs@, root_id, h, c);
                        assert(order@[order@.len() - 1] == h);
                        assert(is_child_edge(rs@, order@[order@.len() - 1], c));
                    }
                }
                // The tree stays closed: children of the newly visited
                // node are visited or queued.
                assert forall|i: int, c: u64|
                    0 <= i < order@.len() && #[trigger] is_child_edge(rs@, order@[i], c)
                        implies order@.contains(c) || queue@.skip(head as int).contains(c) by {
                    if i < old_ord.len() {
                        assert(old_ord[i] == order@[i]);
                        if old_ord.contains(c) {
                            let j = choose|j: int| 0 <= j < old_ord.len() && old_ord[j] == c;
                            assert(order@[j] == c);
                            assert(order@.contains(c));
                        } else if qrest.contains(c) {
                            let j = choose|j: int| 0 <= j < qrest.len() && qrest[j] == c;
                            if j == 0 {
                                assert(c == h);
                                assert(order@[order@.len() - 1] == c);
                                assert(order@.contains(c));
                            } else {
                                assert(qrest.skip(1)[j - 1] == c);
                                assert((qrest.skip(1) + uc)[j - 1] == c);
                                assert(queue@.skip(head as int).contains(c));
                            }
                        }
                    } else {
                        // Children of `h` itself.
                        assert(order@[i] == h);
                        assert(children_of(rs@, h).contains(c));
                        if vis2.contains(c) {
                            assert(order@.contains(c));
                        } else {
                            assert(uc.contains(c));
                            let j = choose|j: int| 0 <= j < uc.len() && uc[j] == c;
                            assert((qrest.skip(1) + uc)[qrest.skip(1).len() + j] == c);
                            assert(queue@.skip(head as int).contains(c));
                        }
                    }
                }
                // Every order entry after the first follows one of its parents.
                assert forall|i: int|
                    1 <= i < order@.len() implies exists|j: int|
                    0 <= j < i && is_child_edge(rs@, order@[j], #[trigger] order@[i]) by {
                    if i == order@.len() - 1 {
                        assert(order@[i] == h);
                        assert(old_ord.len() > 0);
                        let j = choose|j: int|
                            0 <= j < old_ord.len() && is_child_edge(rs@, old_ord[j], h);
                        assert(order@[j] == old_ord[j]);
                        assert(is_child_edge(rs@, order@[j], order@[i]));
                    } else {
                        let j = choose|j: int|
                            0 <= j < i && is_child_edge(rs@, old_ord[j], old_ord[i]);
                        assert(is_child_edge(rs@, order@[j], order@[i]));
                    }
                }
                assert forall|i: int|
                    0 <= i < cycles@.len() implies order@.contains(#[trigger] cycles@[i]) by {
                    assert(old_ord.contains(cycles@[i]));
                    let j = choose|j: int| 0 <= j < old_ord.len() && old_ord[j] == cycles@[i];
                    assert(order@[j] == cycles@[i]);
                }
                // The measure shrinks: a fresh identifier was visited.
                lemma_bfs_measure(rs@, qrest, old_ord);
                // With canonical identifiers the walk keeps its stricter
                // shape: popped prefix = order, queue = root + children
                // blocks, no duplicate entry.
                if canon_ids(rs@) && root_marked(rs@, root_id) {
                    let csv = children_of(rs@, h);
                    assert forall|k: int| 0 <= k < csv.len() implies !vis2.contains(
                        #[trigger] csv[k],
                    ) by {
                        if vis2.contains(csv[k]) {
                            let m = choose|m: int| 0 <= m < vis2.len() && vis2[m] == csv[k];
                            if m < old_ord.len() {
                                assert(old_q.take((head - 1) as int)[m] == csv[k]);
                                assert(old_q[m] == csv[k]);
                                assert(old_q.contains(csv[k]));
                            } else {
                                assert(vis2[m] == h);
                            }
                        }
                    }
                    lemma_unvisited_all(csv, vis2);
                    assert(queue@ == old_q + csv);
                    assert(queue@.take(head as int) =~= old_q.take(head as int));
                    assert(old_q.take(head as int) =~= old_q.take((head - 1) as int).push(
                        old_q[head - 1],
                    ));
                    assert(queue@.take(head as int) =~= order@);
                    lemma_children_cat_agree(rs@, order@, old_ord, (head - 1) as int);
                    assert(order@[head - 1] == h);
                    assert(children_cat(rs@, order@, head as int) == children_cat(
                        rs@,
                        order@,
                        (head - 1) as int,
                    ) + children_of(rs@, order@[head - 1]));
                    assert(queue@ =~= seq![root_id] + children_cat(rs@, order@, head as int));
                    assert(csv.no_duplicates());
                    assert forall|x: int, y: int|
                        0 <= x < queue@.len() && 0 <= y < queue@.len() && x != y implies queue@[x]
                        != queue@[y] by {
                        if x < old_q.len() && y < old_q.len() {
                            assert(queue@[x] == old_q[x] && queue@[y] == old_q[y]);
                        } else if old_q.len() <= x && old_q.len() <= y {
                            assert(queue@[x] == csv[x - old_q.len()]);
                            assert(queue@[y] == csv[y - old_q.len()]);
                        } else {
                            let o = if x < old_q.len() {
                                x
                            } else {
                                y
                            };
                            let w = if x < old_q.len() {
                                y
                            } else {
                                x
                            };
                            assert(queue@[w] == csv[w - old_q.len()]);
                            assert(queue@[o] == old_q[o]);
                            if queue@[o] == queue@[w] {
                                assert(old_q.contains(csv[w - old_q.len()]));
                            }
                        }
                    }
                    assert(queue@.no_duplicates());
                }
            }
        }
    }
    proof {
        assert(queue@.skip(head as int) =~= Seq::<u64>::empty());
        assert(order@ + bfs_spec(rs@, Seq::<u64>::empty(), order@) =~= order@);
        assert(cycles@ + bfs_cycles(rs@, Seq::<u64>::empty(), order@) =~= cycles@);
        if canon_ids(rs@) && root_marked(rs@, root_id) {
            assert(queue@.take(head as int) =~= queue@);
            assert(order@ == seq![root_id] + children_cat(rs@, order@, order@.len() as int));
        }
        if order@.len() == 0 {
            assert(queue@ == seq![root_id]);
            assert(false);
        }
        assert forall|id: u64| #[trigger] order@.contains(id) <==> reachable(
            rs@,
            root_id,
            id,
        ) by {
            if order@.contains(id) {
                let i = choose|i: int| 0 <= i < order@.len() && order@[i] == id;
                assert(reachable(rs@, root_id, order@[i]));
            }
            if reachable(rs@, root_id, id) {
                assert(closed_under_children(rs@, order@)) by {
                    assert forall|i: int, c: u64|
                        0 <= i < order@.len() && #[trigger] is_child_edge(rs@, order@[i], c)
                            implies order@.contains(c) by {
                        assert(order@.contains(c) || queue@.skip(head as int).contains(c));
                    }
                }
                assert(order@[0] == root_id);
                assert(order@.contains(root_id));
                let k = choose|k: nat| reachable_in(rs@, root_id, id, k);
                lemma_closed_reach(rs@, root_id, order@, id, k);
            }
        }
    }
    (order, cycles)
}

/// A run of distinct identifiers cannot outnumber the records.
proof fn lemma_order_card(rs: Seq<Node>, order: Seq<u64>)
    requires
        order.no_duplicates(),
        forall|i: int| 0 <= i < order.len() ==> is_node_id(rs, #[trigger] order[i]),
    ensures
        order.len() <= rs.len(),
{
    broadcast use group_set_axioms, seq_to_set_is_finite;

    let ids = rs.map_values(|n: Node| n.node_id);
    assert(order.to_set().subset_of(ids.to_set())) by {
        assert forall|x: u64| order.to_set().contains(x) implies ids.to_set().contains(x) by {
            assert(order.contains(x));
            let i = choose|i: int| 0 <= i < order.len() && order[i] == x;
            assert(is_node_id(rs, x));
            let j = choose|j: int| 0 <= j < rs.len() && rs[j].node_id == x;
            assert(ids[j] == x);
            assert(ids.contains(x));
        }
    }
    order.unique_seq_to_set();
    ids.lemma_cardinality_of_set();
    lemma_len_subset(order.to_set(), ids.to_set());
}

} // verus!

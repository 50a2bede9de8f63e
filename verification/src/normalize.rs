//! Applying the dense remap to the parsed records: sequential identifiers
//! in visiting order, parents re-pointed through the remap (the root to
//! itself, orphaned references to the root), zero radii repaired to 1, and
//! the per-type repair and label counters.

use vstd::prelude::*;
use vstd::std_specs::hash::group_hash_axioms;

use std::collections::HashMap;

use crate::node::{code_of_structure, Node, NO_PARENT};
use crate::topology::{child_ids, children_of, is_node_id, lemma_children_edge};

verus! {

/// The last record carrying `id`: the one an identifier lookup finds when
/// identifiers are not unique.
pub open spec fn last_with_id(rs: Seq<Node>, id: u64) -> Node
    decreases rs.len(),
{
    if rs.len() == 0 {
        arbitrary()
    } else if rs.last().node_id == id {
        rs.last()
    } else {
        last_with_id(rs.drop_last(), id)
    }
}

pub proof fn lemma_last_with_id_found(rs: Seq<Node>, id: u64, i: int)
    requires
        0 <= i < rs.len(),
        rs[i].node_id == id,
        forall|j: int| i < j < rs.len() ==> rs[j].node_id != id,
    ensures
        last_with_id(rs, id) == rs[i],
    decreases rs.len(),
{
    if i < rs.len() - 1 {
        lemma_last_with_id_found(rs.drop_last(), id, i);
    }
}

/// What the lookup finds is one of the records.
pub proof fn lemma_last_with_id_element(rs: Seq<Node>, id: u64)
    requires
        is_node_id(rs, id),
    ensures
        exists|j: int| 0 <= j < rs.len() && last_with_id(rs, id) == rs[j],
    decreases rs.len(),
{
    if rs.len() > 0 && rs.last().node_id != id {
        assert(rs[rs.len() - 1].node_id != id);
        let j = choose|j: int| 0 <= j < rs.len() && rs[j].node_id == id;
        assert(rs.drop_last()[j] == rs[j]);
        lemma_last_with_id_element(rs.drop_last(), id);
        let k = choose|k: int|
            0 <= k < rs.drop_last().len() && last_with_id(rs.drop_last(), id) == rs.drop_last()[k];
        assert(last_with_id(rs, id) == rs[k]);
    }
}

/// Finds the last record carrying `id`.
pub fn node_with_id(rs: &Vec<Node>, id: u64) -> (n: Node)
    requires
        is_node_id(rs@, id),
    ensures
        n == last_with_id(rs@, id),
{
    let mut i: usize = rs.len();
    while i > 0
        invariant
            i <= rs@.len(),
            forall|j: int| i <= j < rs@.len() ==> rs@[j].node_id != id,
        decreases i,
    {
        i = i - 1;
        if rs[i].node_id == id {
            proof {
                lemma_last_with_id_found(rs@, id, i as int);
            }
            return rs[i];
        }
    }
    proof {
        assert(!is_node_id(rs@, id));
    }
    unreached()
}

/// First position of `id` in the visiting order, if any.
pub fn index_in(order: &Vec<u64>, id: u64) -> (r: Option<usize>)
    ensures
        match r {
            Some(i) => 0 <= i < order@.len() && order@[i as int] == id && forall|j: int|
                0 <= j < i ==> order@[j] != id,
            None => !order@.contains(id),
        },
{
    let mut i: usize = 0;
    while i < order.len()
        invariant
            i <= order@.len(),
            forall|j: int| 0 <= j < i ==> order@[j] != id,
        decreases order@.len() - i,
    {
        if order[i] == id {
            return Some(i);
        }
        i = i + 1;
    }
    proof {
        if order@.contains(id) {
            let j = choose|j: int| 0 <= j < order@.len() && order@[j] == id;
            assert(order@[j] != id);
        }
    }
    None
}

/// The remapped parent of the record at position `i` of the visiting
/// order: itself for a root, the parent's position when the parent was
/// visited, and the root's position 0 for an orphaned reference.
pub open spec fn new_parent(rs: Seq<Node>, order: Seq<u64>, i: int) -> u64 {
    let orig = last_with_id(rs, order[i]);
    if orig.parent_id == NO_PARENT {
        i as u64
    } else if order.contains(orig.parent_id) {
        order.index_of(orig.parent_id) as u64
    } else {
        0u64
    }
}

/// The record at position `i` of the visiting order after remapping:
/// identifier `i`, remapped parent, zero radius repaired to 1, everything
/// else kept.
pub open spec fn normalized_node(rs: Seq<Node>, order: Seq<u64>, i: int) -> Node {
    let orig = last_with_id(rs, order[i]);
    Node {
        node_id: i as u64,
        structured_identifier: orig.structured_identifier,
        x_pos: orig.x_pos,
        y_pos: orig.y_pos,
        z_pos: orig.z_pos,
        radius: if orig.radius == 0 {
            1u64
        } else {
            orig.radius
        },
        parent_id: new_parent(rs, order, i),
    }
}

/// How many visited records of structural code `c` had radius zero.
pub open spec fn count_zero_repairs(rs: Seq<Node>, order: Seq<u64>, c: u8) -> int
    decreases order.len(),
{
    if order.len() == 0 {
        0int
    } else {
        count_zero_repairs(rs, order.drop_last(), c) + {
            let orig = last_with_id(rs, order.last());
            if orig.radius == 0 && code_of_structure(orig.structured_identifier) == c {
                1int
            } else {
                0int
            }
        }
    }
}

/// How many visited records carry structural code `c`.
pub open spec fn count_labels(rs: Seq<Node>, order: Seq<u64>, c: u8) -> int
    decreases order.len(),
{
    if order.len() == 0 {
        0int
    } else {
        count_labels(rs, order.drop_last(), c) + {
            let orig = last_with_id(rs, order.last());
            if code_of_structure(orig.structured_identifier) == c {
                1int
            } else {
                0int
            }
        }
    }
}

/// Remaps every visited record and repairs degenerate radii. Returns the
/// normalized records, the per-code zero-radius repair counters, and the
/// per-code label counters.
pub fn normalize_records(rs: &Vec<Node>, order: &Vec<u64>) -> (out: (Vec<Node>, Vec<u64>, Vec<u64>))
    requires
        order@.no_duplicates(),
        forall|i: int| 0 <= i < order@.len() ==> is_node_id(rs@, #[trigger] order@[i]),
    ensures
        out.0@.len() == order@.len(),
        forall|i: int| 0 <= i < order@.len() ==> out.0@[i] == normalized_node(rs@, order@, i),
        out.1@.len() == 8,
        forall|c: int| 0 <= c < 8 ==> out.1@[c] == count_zero_repairs(rs@, order@, c as u8),
        out.2@.len() == 8,
        forall|c: int| 0 <= c < 8 ==> out.2@[c] == count_labels(rs@, order@, c as u8),
{
    let mut nodes: Vec<Node> = Vec::new();
    let mut i: usize = 0;
    while i < order.len()
        invariant
            i <= order@.len(),
            order@.no_duplicates(),
            forall|k: int| 0 <= k < order@.len() ==> is_node_id(rs@, #[trigger] order@[k]),
            nodes@.len() == i,
            forall|k: int| 0 <= k < i ==> nodes@[k] == normalized_node(rs@, order@, k),
        decreases order@.len() - i,
    {
        let id = order[i];
        let orig = node_with_id(rs, id);
        let par: u64 = if orig.parent_id == NO_PARENT {
            i as u64
        } else {
            match index_in(order, orig.parent_id) {
                Some(j) => {
                    proof {
                        assert(order@.contains(orig.parent_id));
                        let k = order@.index_of(orig.parent_id);
                        assert(0 <= k < order@.len() && order@[k] == orig.parent_id);
                        if k != j {
                            assert(order@[k] != order@[j as int]);
                        }
                    }
                    j as u64
                },
                None => 0,
            }
        };
        let n = Node {
            node_id: i as u64,
            structured_identifier: orig.structured_identifier,
            x_pos: orig.x_pos,
            y_pos: orig.y_pos,
            z_pos: orig.z_pos,
            radius: if orig.radius == 0 {
                1
            } else {
                orig.radius
            },
            parent_id: par,
        };
        assert(n == normalized_node(rs@, order@, i as int));
        nodes.push(n);
        i = i + 1;
    }
    // The diagnostic counters, one pass per structural code.
    let mut repairs: Vec<u64> = Vec::new();
    let mut labels: Vec<u64> = Vec::new();
    let mut c: u8 = 0;
    while c < 8
        invariant
            c <= 8,
            order@.no_duplicates(),
            forall|k: int| 0 <= k < order@.len() ==> is_node_id(rs@, #[trigger] order@[k]),
            repairs@.len() == c,
            labels@.len() == c,
            forall|d: int| 0 <= d < c ==> repairs@[d] == count_zero_repairs(rs@, order@, d as u8),
            forall|d: int| 0 <= d < c ==> labels@[d] == count_labels(rs@, order@, d as u8),
        decreases 8 - c,
    {
        let mut rep: u64 = 0;
        let mut lab: u64 = 0;
        let mut k: usize = 0;
        proof {
            assert(count_zero_repairs(rs@, order@.take(0), c) == 0);
            assert(count_labels(rs@, order@.take(0), c) == 0);
        }
        while k < order.len()
            invariant
                k <= order@.len(),
                order@.no_duplicates(),
                forall|m: int| 0 <= m < order@.len() ==> is_node_id(rs@, #[trigger] order@[m]),
                rep <= k,
                lab <= k,
                rep == count_zero_repairs(rs@, order@.take(k as int), c),
                lab == count_labels(rs@, order@.take(k as int), c),
            decreases order@.len() - k,
        {
            proof {
                assert(order@.take(k + 1).drop_last() =~= order@.take(k as int));
                assert(order@.take(k + 1).last() == order@[k as int]);
            }
            let orig = node_with_id(rs, order[k]);
            if orig.structured_identifier.code() == c {
                lab = lab + 1;
                if orig.radius == 0 {
                    rep = rep + 1;
                }
            }
            k = k + 1;
        }
        proof {
            assert(order@.take(order@.len() as int) =~= order@);
        }
        repairs.push(rep);
        labels.push(lab);
        c = c + 1;
    }
    (nodes, repairs, labels)
}

/// Whether the records are in normalized form: the identifier of each is
/// its position, and every parent points at some position.
pub open spec fn normalized_form(ns: Seq<Node>) -> bool {
    &&& forall|i: int| 0 <= i < ns.len() ==> (#[trigger] ns[i]).node_id == i
    &&& forall|i: int| 0 <= i < ns.len() ==> (#[trigger] ns[i]).parent_id < ns.len()
}

/// Builds the remapped adjacency maps over normalized records: parent
/// position to children positions, present only where children exist, and
/// child position to its single-entry parent list.
pub fn build_maps(nodes: &Vec<Node>) -> (out: (HashMap<u64, Vec<u64>>, HashMap<u64, Vec<u64>>))
    requires
        normalized_form(nodes@),
    ensures
        forall|p: u64| #[trigger] out.0@.contains_key(p) <==> children_of(nodes@, p).len() > 0,
        forall|p: u64| #[trigger] out.0@.contains_key(p) ==> out.0@[p]@ == children_of(nodes@, p),
        forall|c: u64| #[trigger] out.1@.contains_key(c) <==> c < nodes@.len(),
        forall|c: u64| #[trigger]
            out.1@.contains_key(c) ==> out.1@[c]@ == seq![nodes@[c as int].parent_id],
{
    broadcast use group_hash_axioms;

    let mut pc: HashMap<u64, Vec<u64>> = HashMap::new();
    let mut p: usize = 0;
    while p < nodes.len()
        invariant
            normalized_form(nodes@),
            p <= nodes@.len(),
            forall|q: u64| #[trigger]
                pc@.contains_key(q) <==> (q < p && children_of(nodes@, q).len() > 0),
            forall|q: u64| #[trigger] pc@.contains_key(q) ==> pc@[q]@ == children_of(nodes@, q),
        decreases nodes@.len() - p,
    {
        let cs = child_ids(nodes, p as u64);
        if cs.len() > 0 {
            pc.insert(p as u64, cs);
        }
        p = p + 1;
    }
    proof {
        assert forall|q: u64| #[trigger] pc@.contains_key(q) <==> children_of(nodes@, q).len()
            > 0 by {
            if children_of(nodes@, q).len() > 0 && !(q < p) {
                let cs = children_of(nodes@, q);
                lemma_children_edge(nodes@, q);
                assert(cs.contains(cs[0]));
                let j = choose|j: int|
                    0 <= j < nodes@.len() && nodes@[j].parent_id == q && nodes@[j].node_id == cs[0];
                assert(nodes@[j].parent_id < nodes@.len());
            }
        }
    }
    let mut cp: HashMap<u64, Vec<u64>> = HashMap::new();
    let mut c: usize = 0;
    while c < nodes.len()
        invariant
            normalized_form(nodes@),
            c <= nodes@.len(),
            forall|q: u64| #[trigger] cp@.contains_key(q) <==> q < c,
            forall|q: u64| #[trigger]
                cp@.contains_key(q) ==> cp@[q]@ == seq![nodes@[q as int].parent_id],
        decreases nodes@.len() - c,
    {
        let parents = vec![nodes[c].parent_id];
        assert(parents@ =~= seq![nodes@[c as int].parent_id]);
        cp.insert(c as u64, parents);
        c = c + 1;
    }
    (pc, cp)
}

} // verus!

//! The single entry point of the morphology core: from the bytes of a
//! skeleton file to normalized records, remapped adjacency maps, and the
//! diagnostics of one invocation.

use vstd::prelude::*;

use std::collections::HashMap;

use crate::node::{Node, StructureIdentifier, SwcError, NO_PARENT};
use crate::normalize::{
    build_maps, count_labels, count_zero_repairs, normalize_records, normalized_form,
    normalized_node, last_with_id, lemma_last_with_id_found,
};
use crate::parser::{
    count_code, line_error, line_fails, lines_of, parse_records, records_of, split_lines,
    type_histogram, zero_warns_of,
};
use crate::topology::{
    bfs_cycles, bfs_order, bfs_spec, canon_ids, canonical_bfs_form, children_of, find_root,
    has_root, is_node_id, reachable, root_id_of, root_marked, root_pos, lemma_root_pos_is,
    unique_ids,
};
use crate::writer::{lemma_reparse_canonical, reparse_node};

verus! {

/// Whether no line stops the read under the given flags.
pub open spec fn parse_clean(lv: Seq<Seq<u8>>, warn: bool, strict: bool) -> bool {
    forall|j: int| 0 <= j < lv.len() ==> !line_fails(#[trigger] lv[j], warn, strict)
}

/// The visiting order a clean read produces.
pub open spec fn order_of(rs: Seq<Node>) -> Seq<u64> {
    bfs_spec(rs, seq![root_id_of(rs)], Seq::<u64>::empty())
}

/// The diagnostics of one invocation: all counters are local outputs,
/// never process-wide state.
pub struct Diagnostics {
    /// How many parsed records carry each structural code 0 through 7.
    pub type_counts: Vec<u64>,
    /// Identifier and type of each zero-radius record, in input order;
    /// gathered only while warnings are on.
    pub zero_radius_warnings: Vec<(u64, StructureIdentifier)>,
    /// Identifiers whose second arrival in the traversal marked a cycle
    /// or a converging extra edge.
    pub cycle_warnings: Vec<u64>,
    /// How many visited records of each structural code had their zero
    /// radius repaired to 1.
    pub zero_radius_repairs: Vec<u64>,
    /// How many visited records carry each structural code.
    pub label_breakdown: Vec<u64>,
}

/// What a successful read returns: the normalized records in visiting
/// order and the remapped adjacency maps over them.
pub struct Processed {
    pub nodes: Vec<Node>,
    pub parent_child_map: HashMap<u64, Vec<u64>>,
    pub child_parent_map: HashMap<u64, Vec<u64>>,
    pub diagnostics: Diagnostics,
}

/// Reads a skeleton file: parses every non-comment line, locates the
/// root, orders the records breadth-first with cycle tolerance, remaps
/// identifiers to the dense range starting at 0, repairs zero radii, and
/// builds the remapped adjacency maps. Fails on a malformed line, on a
/// zero radius the flags reject, or when no record uses the no-parent
/// sentinel.
pub fn process(content: &Vec<u8>, emit_warnings: bool, strict: bool) -> (r: Result<
    Processed,
    SwcError,
>)
    ensures
        ({
            let lv = lines_of(content@);
            let rs = records_of(lv);
            &&& (r is Ok <==> parse_clean(lv, emit_warnings, strict) && has_root(rs))
            &&& (r matches Err(e) ==> {
                ||| (e == SwcError::NoRootError && parse_clean(lv, emit_warnings, strict)
                    && !has_root(rs))
                ||| exists|k: int|
                    {
                        &&& 0 <= k < lv.len()
                        &&& line_fails(#[trigger] lv[k], emit_warnings, strict)
                        &&& forall|j: int|
                            0 <= j < k ==> !line_fails(#[trigger] lv[j], emit_warnings, strict)
                        &&& e == line_error(lv[k], k, emit_warnings, strict)
                    }
            })
            &&& (r matches Ok(out) ==> {
                let order = order_of(rs);
                &&& out.nodes@.len() == order.len()
                &&& 1 <= out.nodes@.len() <= rs.len()
                &&& forall|i: int|
                    0 <= i < order.len() ==> out.nodes@[i] == normalized_node(rs, order, i)
                &&& normalized_form(out.nodes@)
                &&& forall|i: int|
                    0 <= i < out.nodes@.len() ==> (#[trigger] out.nodes@[i]).in_bounds()
                        && out.nodes@[i].radius >= 1
                &&& forall|id: u64| #[trigger]
                    order.contains(id) <==> reachable(rs, root_id_of(rs), id)
                &&& (unique_ids(rs) ==> out.nodes@[0].parent_id == 0)
                &&& ((unique_ids(rs) && rs.len() <= 0x8000_0000_0000_0000)
                    ==> canonical_bfs_form(
                    out.nodes@.map_values(|m: Node| reparse_node(m)),
                ))
                &&& forall|p: u64| #[trigger]
                    out.parent_child_map@.contains_key(p) <==> children_of(out.nodes@, p).len()
                        > 0
                &&& forall|p: u64| #[trigger]
                    out.parent_child_map@.contains_key(p) ==> out.parent_child_map@[p]@
                        == children_of(out.nodes@, p)
                &&& forall|c: u64| #[trigger]
                    out.child_parent_map@.contains_key(c) <==> c < out.nodes@.len()
                &&& forall|c: u64| #[trigger]
                    out.child_parent_map@.contains_key(c) ==> out.child_parent_map@[c]@ == seq![
                        out.nodes@[c as int].parent_id,
                    ]
                &&& out.diagnostics.type_counts@.len() == 8
                &&& forall|c: int|
                    0 <= c < 8 ==> out.diagnostics.type_counts@[c] == count_code(rs, c as u8)
                &&& out.diagnostics.zero_radius_warnings@ == if emit_warnings {
                    zero_warns_of(rs)
                } else {
                    Seq::<(u64, StructureIdentifier)>::empty()
                }
                &&& out.diagnostics.cycle_warnings@ == bfs_cycles(
                    rs,
                    seq![root_id_of(rs)],
                    Seq::<u64>::empty(),
                )
                &&& out.diagnostics.zero_radius_repairs@.len() == 8
                &&& forall|c: int|
                    0 <= c < 8 ==> out.diagnostics.zero_radius_repairs@[c] == count_zero_repairs(
                        rs,
                        order,
                        c as u8,
                    )
                &&& out.diagnostics.label_breakdown@.len() == 8
                &&& forall|c: int|
                    0 <= c < 8 ==> out.diagnostics.label_breakdown@[c] == count_labels(
                        rs,
                        order,
                        c as u8,
                    )
            })
        }),
{
    let ghost lv = lines_of(content@);
    let lines = split_lines(content);
    let (records, zero_warns) = match parse_records(&lines, emit_warnings, strict) {
        Ok(v) => v,
        Err(e) => {
            return Err(e);
        },
    };
    let ghost rs = records_of(lv);
    let hist = type_histogram(&records);
    let root_idx = match find_root(&records) {
        Some(i) => i,
        None => {
            proof {
                if has_root(rs) {
                    let j = choose|j: int| 0 <= j < rs.len() && rs[j].parent_id == NO_PARENT;
                    assert(records@[j].parent_id == NO_PARENT);
                }
            }
            return Err(SwcError::NoRootError);
        },
    };
    proof {
        lemma_root_pos_is(rs, root_idx as int);
    }
    let root_id = records[root_idx].node_id;
    proof {
        assert(is_node_id(records@, root_id));
        assert(root_id == root_id_of(rs));
    }
    let (order, cycles) = bfs_order(&records, root_id);
    let (nodes, repairs, labels) = normalize_records(&records, &order);
    proof {
        // Every remapped parent is a position of the output.
        assert forall|i: int|
            0 <= i < nodes@.len() implies (#[trigger] nodes@[i]).parent_id < nodes@.len() by {
            assert(nodes@[i] == normalized_node(rs, order@, i));
            let orig = last_with_id(rs, order@[i]);
            if orig.parent_id != NO_PARENT && order@.contains(orig.parent_id) {
                let k = order@.index_of(orig.parent_id);
                assert(0 <= k < order@.len() && order@[k] == orig.parent_id);
            }
        }
        assert(normalized_form(nodes@));
        // Every normalized record keeps bounded geometry, and its radius
        // was repaired away from zero.
        crate::parser::lemma_records_in_bounds(lv);
        assert forall|i: int|
            0 <= i < nodes@.len() implies (#[trigger] nodes@[i]).in_bounds() && nodes@[i].radius
            >= 1 by {
            assert(nodes@[i] == normalized_node(rs, order@, i));
            assert(is_node_id(rs, order@[i]));
            crate::normalize::lemma_last_with_id_element(rs, order@[i]);
            let j = choose|j: int| 0 <= j < rs.len() && last_with_id(rs, order@[i]) == rs[j];
            assert(rs[j].in_bounds());
        }
        // With unique identifiers the anatomical root keeps the sentinel
        // and so maps to itself at position 0.
        if unique_ids(rs) {
            assert(order@[0] == root_id);
            assert(rs[root_pos(rs)].node_id == root_id);
            lemma_last_with_id_found(rs, root_id, root_pos(rs));
            assert(last_with_id(rs, order@[0]).parent_id == NO_PARENT);
            assert(nodes@[0] == normalized_node(rs, order@, 0));
            if rs.len() <= 0x8000_0000_0000_0000 {
                // The output, re-read, stands in canonical shape: the
                // ground for the round-trip law.
                assert(canon_ids(rs)) by {
                    assert forall|i: int|
                        0 <= i < rs.len() implies (#[trigger] rs[i]).node_id != NO_PARENT by {
                        assert(rs[i].in_bounds());
                    }
                }
                assert(root_marked(rs, root_id)) by {
                    assert(rs[root_pos(rs)].parent_id == NO_PARENT);
                }
                assert(has_root(rs)) by {
                    assert(records@[root_idx as int].parent_id == NO_PARENT);
                }
                lemma_reparse_canonical(rs, order@, nodes@);
            }
        }
    }
    let (pc, cp) = build_maps(&nodes);
    Ok(
        Processed {
            nodes,
            parent_child_map: pc,
            child_parent_map: cp,
            diagnostics: Diagnostics {
                type_counts: hist,
                zero_radius_warnings: zero_warns,
                cycle_warnings: cycles,
                zero_radius_repairs: repairs,
                label_breakdown: labels,
            },
        },
    )
}

/// Reads a skeleton file and returns the normalized records and the two
/// remapped adjacency maps, as the programmatic boundary hands them to
/// the dynamics layer. `emit_warnings` defaults to on, `strict` to off.
pub fn swc_reader(content: &Vec<u8>, emit_warnings: Option<bool>, strict: Option<bool>) -> (r:
    Result<(Vec<Node>, HashMap<u64, Vec<u64>>, HashMap<u64, Vec<u64>>), SwcError>)
    ensures
        ({
            let warn = emit_warnings.unwrap_or(true);
            let sm = strict.unwrap_or(false);
            let lv = lines_of(content@);
            let rs = records_of(lv);
            &&& (r is Ok <==> parse_clean(lv, warn, sm) && has_root(rs))
            &&& (r matches Ok(out) ==> {
                let order = order_of(rs);
                &&& out.0@.len() == order.len()
                &&& 1 <= out.0@.len() <= rs.len()
                &&& forall|i: int| 0 <= i < order.len() ==> out.0@[i] == normalized_node(rs, order, i)
                &&& normalized_form(out.0@)
                &&& forall|id: u64| #[trigger]
                    order.contains(id) <==> reachable(rs, root_id_of(rs), id)
                &&& (unique_ids(rs) ==> out.0@[0].parent_id == 0)
                &&& forall|p: u64| #[trigger]
                    out.1@.contains_key(p) <==> children_of(out.0@, p).len() > 0
                &&& forall|p: u64| #[trigger]
                    out.1@.contains_key(p) ==> out.1@[p]@ == children_of(out.0@, p)
                &&& forall|c: u64| #[trigger] out.2@.contains_key(c) <==> c < out.0@.len()
                &&& forall|c: u64| #[trigger]
                    out.2@.contains_key(c) ==> out.2@[c]@ == seq![out.0@[c as int].parent_id]
            })
        }),
{
    let warn = match emit_warnings {
        Some(w) => w,
        None => true,
    };
    let sm = match strict {
        Some(s) => s,
        None => false,
    };
    match process(content, warn, sm) {
        Ok(out) => Ok((out.nodes, out.parent_child_map, out.child_parent_map)),
        Err(e) => Err(e),
    }
}

} // verus!

use compartment_rs::node::{StructureIdentifier, SwcError};
use compartment_rs::swc_reader::{process, swc_reader};
use compartment_rs::writer::render_swc;

fn basic_swc() -> Vec<u8> {
    b"1 1 0 0 0 1 -1\n2 3 1 0 0 1 1\n3 3 2 0 0 1 1\n4 4 3 0 0 1 1\n5 6 4 0 0 1 4\n".to_vec()
}

#[test]
fn test_swc_reader_basic() {
    let content = basic_swc();
    let emit_warnings = Some(true);
    let strict = Some(true);

    let result = swc_reader(&content, emit_warnings, strict);
    assert!(result.is_ok());

    let (nodes, parent_child_map, child_parent_map) = result.unwrap();
    println!("Nodes length: {}", nodes.len());
    println!(
        "Nodes: {:?}",
        nodes.iter().map(|n| n.node_id).collect::<Vec<_>>()
    );

    // The skeleton has 5 nodes.
    assert_eq!(nodes.len(), 5);

    // Check assigned IDs
    for i in 0..5 {
        assert_eq!(nodes[i].node_id, i as u64);
    }

    // Root node self-referencing check
    let root_node = &nodes[0];
    assert_eq!(root_node.parent_id, root_node.node_id);

    // Check tree structure relationships based on old IDs mapped to new IDs
    // old id 1 (new 0) is root
    // old id 2 (new 1) -> old id 1 (new 0)
    // old id 3 (new 2) -> old id 1 (new 0)
    // old id 4 (new 3) -> old id 1 (new 0)
    // old id 5 (new 4) -> old id 4 (new 3)
    assert_eq!(nodes[1].parent_id, 0); // node 2 parent is 1
    assert_eq!(nodes[2].parent_id, 0); // node 3 parent is 1
    assert_eq!(nodes[3].parent_id, 0); // node 4 parent is 1
    assert_eq!(nodes[4].parent_id, 3); // node 5 parent is 4

    // Check map sizes
    // parent 0 -> children 0 (self), 1, 2, 3
    // parent 3 -> child 4
    assert_eq!(parent_child_map.get(&0).unwrap().len(), 4);
    assert!(parent_child_map.get(&0).unwrap().contains(&0));
    assert!(parent_child_map.get(&0).unwrap().contains(&1));
    assert!(parent_child_map.get(&0).unwrap().contains(&2));
    assert!(parent_child_map.get(&0).unwrap().contains(&3));

    assert_eq!(parent_child_map.get(&3).unwrap().len(), 1);
    assert!(parent_child_map.get(&3).unwrap().contains(&4));

    assert_eq!(child_parent_map.get(&1).unwrap()[0], 0);
    assert_eq!(child_parent_map.get(&2).unwrap()[0], 0);
    assert_eq!(child_parent_map.get(&3).unwrap()[0], 0);
    assert_eq!(child_parent_map.get(&4).unwrap()[0], 3);
}

#[test]
fn five_line_scenario_exact() {
    let out = process(&basic_swc(), true, false).unwrap();
    assert_eq!(out.nodes.len(), 5);
    for (i, n) in out.nodes.iter().enumerate() {
        assert_eq!(n.node_id, i as u64);
    }
    assert_eq!(out.nodes[0].parent_id, 0);
    assert_eq!(out.nodes[1].parent_id, 0);
    assert_eq!(out.nodes[2].parent_id, 0);
    assert_eq!(out.nodes[3].parent_id, 0);
    assert_eq!(out.nodes[4].parent_id, 3);
    // The map at key 0 holds exactly {0, 1, 2, 3}.
    assert_eq!(out.parent_child_map.get(&0).unwrap(), &vec![0, 1, 2, 3]);
    // Structural types survive the remap.
    assert_eq!(out.nodes[0].structured_identifier, StructureIdentifier::Soma);
    assert_eq!(
        out.nodes[1].structured_identifier,
        StructureIdentifier::BasalDendrite
    );
    assert_eq!(
        out.nodes[3].structured_identifier,
        StructureIdentifier::ApicalDendrite
    );
    assert_eq!(
        out.nodes[4].structured_identifier,
        StructureIdentifier::EndPoint
    );
    // Positions are held in hundredths.
    assert_eq!(out.nodes[1].x_pos, 100);
    assert_eq!(out.nodes[4].x_pos, 400);
    // Per-type histogram: one soma, two basal, one apical, one end point.
    assert_eq!(
        out.diagnostics.type_counts,
        vec![0, 1, 0, 2, 1, 0, 1, 0]
    );
    assert!(out.diagnostics.cycle_warnings.is_empty());
    assert!(out.diagnostics.zero_radius_warnings.is_empty());
}

#[test]
fn comments_are_skipped_everywhere() {
    let content =
        b"# header\n1 1 0 0 0 1 -1\n# middle comment\n2 3 1 0 0 1 1\n".to_vec();
    let out = process(&content, true, false).unwrap();
    assert_eq!(out.nodes.len(), 2);
    assert_eq!(out.nodes[1].parent_id, 0);
}

#[test]
fn unreachable_subtree_is_dropped() {
    // The chain 5 <- 6 never reaches the root and must vanish.
    let content =
        b"1 1 0 0 0 1 -1\n2 3 1 0 0 1 1\n5 3 7 0 0 1 99\n6 3 8 0 0 1 5\n".to_vec();
    let out = process(&content, true, false).unwrap();
    assert_eq!(out.nodes.len(), 2);
    assert_eq!(out.nodes[0].parent_id, 0);
    assert_eq!(out.nodes[1].parent_id, 0);
    // No remapped identifier beyond the reachable range.
    assert!(out.nodes.iter().all(|n| n.node_id < 2));
}

#[test]
fn cycle_is_skipped_with_warning() {
    // Two records share identifier 3, giving it two inbound edges; the
    // second arrival must be dropped with a warning, not looped on.
    let content =
        b"1 1 0 0 0 1 -1\n2 3 1 0 0 1 1\n3 3 2 0 0 1 1\n3 3 2 0 0 1 2\n".to_vec();
    let out = process(&content, true, false).unwrap();
    assert!(!out.diagnostics.cycle_warnings.is_empty());
    // Identifier 3 was emitted once, never twice.
    assert_eq!(out.nodes.len(), 3);
    let ids: Vec<u64> = out.nodes.iter().map(|n| n.node_id).collect();
    assert_eq!(ids, vec![0, 1, 2]);
}

#[test]
fn orphan_parent_falls_back_to_root() {
    // Identifier 2 appears twice; the lookup takes the later record,
    // whose parent 99 was never visited, so the reference is remapped to
    // the root's new identifier 0 instead of failing.
    let content = b"1 1 0 0 0 1 -1\n2 3 1 0 0 1 1\n2 4 2 0 0 1 99\n".to_vec();
    let out = process(&content, true, false).unwrap();
    assert_eq!(out.nodes.len(), 2);
    assert_eq!(
        out.nodes[1].structured_identifier,
        StructureIdentifier::ApicalDendrite
    );
    assert_eq!(out.nodes[1].x_pos, 200);
    assert_eq!(out.nodes[1].parent_id, 0);
}

#[test]
fn zero_radius_is_repaired_once() {
    let content = b"1 1 0 0 0 0 -1\n2 3 1 0 0 1 1\n".to_vec();
    let out = process(&content, true, false).unwrap();
    // The zero radius appears in the output as 1.
    assert_eq!(out.nodes[0].radius, 1);
    assert_eq!(out.nodes[1].radius, 1);
    // The repair counter for the soma code incremented exactly once.
    assert_eq!(out.diagnostics.zero_radius_repairs, vec![0, 1, 0, 0, 0, 0, 0, 0]);
    // The warning names the identifier and its type.
    assert_eq!(
        out.diagnostics.zero_radius_warnings,
        vec![(1, StructureIdentifier::Soma)]
    );
    // Every visited record counts toward its label unconditionally.
    assert_eq!(out.diagnostics.label_breakdown, vec![0, 1, 0, 1, 0, 0, 0, 0]);
}

#[test]
fn strict_rejects_zero_radius_non_endpoint() {
    let content = b"1 1 0 0 0 1 -1\n2 3 1 0 0 0 1\n".to_vec();
    let r = process(&content, true, true);
    assert_eq!(
        r.err().unwrap(),
        SwcError::GeometryError {
            node_id: 2,
            structure: StructureIdentifier::BasalDendrite
        }
    );
}

#[test]
fn strict_tolerates_zero_radius_endpoint() {
    let content = b"1 1 0 0 0 1 -1\n2 6 1 0 0 0 1\n".to_vec();
    let out = process(&content, true, true).unwrap();
    assert_eq!(out.nodes[1].radius, 1);
}

#[test]
fn strict_without_warnings_does_not_reject() {
    // Warnings off disables the strict check, as the boundary documents.
    let content = b"1 1 0 0 0 1 -1\n2 3 1 0 0 0 1\n".to_vec();
    let out = process(&content, false, true).unwrap();
    assert_eq!(out.nodes[1].radius, 1);
    assert!(out.diagnostics.zero_radius_warnings.is_empty());
}

#[test]
fn wrong_field_count_is_a_parse_error() {
    let content = b"# header\n1 1 0 0 0 1\n".to_vec();
    let r = process(&content, true, false);
    assert_eq!(r.err().unwrap(), SwcError::ParseError { line: 2 });
}

#[test]
fn bad_number_is_a_parse_error() {
    let content = b"1 1 0 0 0 one -1\n".to_vec();
    let r = process(&content, true, false);
    assert_eq!(r.err().unwrap(), SwcError::ParseError { line: 1 });
}

#[test]
fn empty_line_is_a_parse_error() {
    let content = b"1 1 0 0 0 1 -1\n\n".to_vec();
    let r = process(&content, true, false);
    assert_eq!(r.err().unwrap(), SwcError::ParseError { line: 2 });
}

#[test]
fn type_code_above_byte_range_is_a_parse_error() {
    // The structural code must fit one byte; 300 does not.
    let content = b"1 300 0 0 0 1 -1\n".to_vec();
    let r = process(&content, true, false);
    assert_eq!(r.err().unwrap(), SwcError::ParseError { line: 1 });
    // An unknown but in-range code maps to the custom type.
    let custom = b"1 1 0 0 0 1 -1\n2 99 1 0 0 1 1\n".to_vec();
    let out = process(&custom, true, false).unwrap();
    assert_eq!(
        out.nodes[1].structured_identifier,
        StructureIdentifier::Custom
    );
}

#[test]
fn missing_root_is_an_error() {
    let content = b"2 3 1 0 0 1 7\n7 3 2 0 0 1 2\n".to_vec();
    let r = process(&content, true, false);
    assert_eq!(r.err().unwrap(), SwcError::NoRootError);
}

#[test]
fn first_sentinel_record_wins_as_root() {
    // Two root candidates: the first in input order is the root; the
    // second stays unreachable and is dropped.
    let content = b"7 1 0 0 0 1 -1\n8 1 9 9 9 1 -1\n2 3 1 0 0 1 7\n".to_vec();
    let out = process(&content, true, false).unwrap();
    assert_eq!(out.nodes.len(), 2);
    assert_eq!(out.nodes[0].parent_id, 0);
    assert_eq!(out.nodes[1].parent_id, 0);
    assert_eq!(out.nodes[1].x_pos, 100);
}

#[test]
fn written_file_matches_format() {
    let out = process(&basic_swc(), true, false).unwrap();
    let written = render_swc(&out.nodes);
    let expected = "# Processed SWC file\n\
                    0 1 0.00 0.00 0.00 1 -1\n\
                    1 3 1.00 0.00 0.00 1 0\n\
                    2 3 2.00 0.00 0.00 1 0\n\
                    3 4 3.00 0.00 0.00 1 0\n\
                    4 6 4.00 0.00 0.00 1 3\n";
    assert_eq!(String::from_utf8(written).unwrap(), expected);
}

#[test]
fn round_trip_reproduces_the_tree() {
    let first = process(&basic_swc(), true, false).unwrap();
    let written = render_swc(&first.nodes);
    let second = process(&written, true, false).unwrap();
    assert_eq!(first.nodes, second.nodes);
    for p in 0..5u64 {
        assert_eq!(
            first.parent_child_map.get(&p),
            second.parent_child_map.get(&p)
        );
        assert_eq!(
            first.child_parent_map.get(&p),
            second.child_parent_map.get(&p)
        );
    }
}

#[test]
fn round_trip_with_fractional_positions() {
    let content = b"1 1 0.5 -2.25 3.75 2 -1\n2 6 1.5 -2.25 3.75 1 1\n".to_vec();
    let first = process(&content, true, false).unwrap();
    assert_eq!(first.nodes[0].x_pos, 50);
    assert_eq!(first.nodes[0].y_pos, -225);
    assert_eq!(first.nodes[0].z_pos, 375);
    let written = render_swc(&first.nodes);
    let second = process(&written, true, false).unwrap();
    assert_eq!(first.nodes, second.nodes);
}

#[test]
fn defaults_of_the_boundary_flags() {
    // emit_warnings defaults to on and strict to off: a zero radius on a
    // fork point passes and is repaired.
    let content = b"1 1 0 0 0 1 -1\n2 5 1 0 0 0 1\n".to_vec();
    let r = swc_reader(&content, None, None);
    let (nodes, _, _) = r.unwrap();
    assert_eq!(nodes[1].radius, 1);
    // With strict on it is rejected.
    let r2 = swc_reader(&content, None, Some(true));
    assert!(r2.is_err());
}

use compartment_rs::channels::{Channel, ChannelType, Dynamics, Extracellular, HodgkinHuxley, Passive};
use compartment_rs::compartments::{compute_length, Compartments};
use compartment_rs::node::{Node, StructureIdentifier};
use compartment_rs::swc_reader::process;

fn processed() -> compartment_rs::swc_reader::Processed {
    let content =
        b"1 1 0 0 0 1 -1\n2 3 1 0 0 1 1\n3 3 2 0 0 1 1\n4 4 3 0 0 1 1\n5 6 4 0 0 1 4\n".to_vec();
    process(&content, true, false).unwrap()
}

#[test]
fn tree_has_dummy_root_and_indexed_compartments() {
    let out = processed();
    let tree = Compartments::from_sorted_nodes(
        out.nodes,
        out.parent_child_map,
        out.child_parent_map,
    );
    assert_eq!(tree.components.len(), 6);
    let dummy = &tree.components[0];
    assert_eq!(dummy.name, "Dummy Root");
    assert_eq!(dummy.idx, 0);
    assert_eq!(dummy.length, 0);
    assert_eq!(dummy.diam, 0);
    assert!(dummy.parent_idxs.is_empty());
    assert!(dummy.children_idxs.is_empty());

    let soma = &tree.components[1];
    assert_eq!(soma.name, "Compartment: 1 (Soma)");
    assert_eq!(soma.idx, 1);
    // The anatomical root's parent is the dummy: no length.
    assert_eq!(soma.length, 0);
    assert_eq!(soma.diam, 2);
    assert_eq!(soma.children_idxs, vec![0, 1, 2, 3]);

    for i in 1..6 {
        assert_eq!(tree.components[i].idx, i as u64);
    }
    assert_eq!(tree.components[2].name, "Compartment: 2");
    assert_eq!(tree.components[5].name, "Compartment: 5");
    // Each record sits one unit from its parent: 1.00 = 100 hundredths.
    assert_eq!(tree.components[2].length, 100);
    assert_eq!(tree.components[3].length, 200);
    assert_eq!(tree.components[4].length, 300);
    assert_eq!(tree.components[5].length, 100);
    assert_eq!(tree.components[5].parent_idxs, vec![3]);
}

fn point(id: u64, x: i64, y: i64, z: i64) -> Node {
    Node {
        node_id: id,
        structured_identifier: StructureIdentifier::Undefined,
        x_pos: x,
        y_pos: y,
        z_pos: z,
        radius: 1,
        parent_id: 0,
    }
}

#[test]
fn euclidean_length_is_floored() {
    // A 3-4-5 triangle: exactly 5 units.
    let a = point(0, 0, 0, 0);
    let b = point(1, 300, 400, 0);
    assert_eq!(compute_length(&a, &b), 500);
    // sqrt(2) in hundredths, floored: 141.
    let c = point(2, 100, 100, 0);
    assert_eq!(compute_length(&a, &c), 141);
    assert_eq!(compute_length(&a, &a), 0);
}

#[test]
fn channel_attachment_leaves_geometry_alone() {
    let out = processed();
    let mut tree = Compartments::from_sorted_nodes(
        out.nodes,
        out.parent_child_map,
        out.child_parent_map,
    );
    let before_len = tree.components[2].length;
    let channel = Channel {
        channel_type: ChannelType::Passive(Passive {}),
        resistance: 1500,
        capacitance: 100,
        conductance: 7,
    };
    tree.components[2].set_channel(channel);
    assert_eq!(tree.components[2].channel, channel);
    assert_eq!(tree.components[2].length, before_len);
    assert_eq!(tree.components[2].idx, 2);
}

#[test]
fn channels_default_to_unspecified() {
    let c = Channel::default();
    assert!(matches!(c.channel_type, ChannelType::Unspecified));
    assert_eq!(c.resistance, 0);
    assert_eq!(c.capacitance, 0);
    assert_eq!(c.conductance, 0);
    assert!(matches!(ChannelType::default(), ChannelType::Unspecified));
}

#[test]
fn structure_codes_map_both_ways() {
    let expected = [
        StructureIdentifier::Undefined,
        StructureIdentifier::Soma,
        StructureIdentifier::Axon,
        StructureIdentifier::BasalDendrite,
        StructureIdentifier::ApicalDendrite,
        StructureIdentifier::ForkPoint,
        StructureIdentifier::EndPoint,
        StructureIdentifier::Custom,
    ];
    for code in 0u8..8 {
        assert_eq!(StructureIdentifier::from(code), expected[code as usize]);
        assert_eq!(expected[code as usize].code(), code);
    }
    assert_eq!(StructureIdentifier::from(99), StructureIdentifier::Custom);
    let converted: StructureIdentifier = 5u8.into();
    assert_eq!(converted, StructureIdentifier::ForkPoint);
}

#[test]
fn dynamics_capability_surface_exists() {
    let hh = HodgkinHuxley::new();
    hh.propagate();
    HodgkinHuxley::new().update();
    let ex = Extracellular::new();
    ex.update();
    let p = Passive::new();
    p.propagate();
}

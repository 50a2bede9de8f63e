//! The compartment tree: one compartment per normalized record plus a
//! synthetic dummy root at index 0, each with index-based parent and
//! child links, physical length to its parent, and diameter. Lengths are
//! in hundredths of a coordinate unit (the floor of the true Euclidean
//! distance); diameters are twice the whole-unit radius.

use vstd::prelude::*;
use vstd::std_specs::hash::group_hash_axioms;

use std::collections::HashMap;

use crate::channels::{default_channel, Channel};
use crate::node::{Node, MAX_POS};
use crate::normalize::normalized_form;

verus! {

/// The square of an integer.
pub open spec fn sq(x: int) -> int {
    x * x
}

/// Squares a coordinate difference.
fn square(x: i64) -> (r: u128)
    requires
        -2 * MAX_POS <= x <= 2 * MAX_POS,
    ensures
        r == sq(x as int),
{
    let y = x as i128;
    proof {
        assert(y * y == sq(x as int));
        assert(0 <= y * y && y * y <= 4_000_000_000_000_000_000_000_000_000_000int)
            by (nonlinear_arith)
            requires
                -2_000_000_000_000_000 <= y <= 2_000_000_000_000_000,
        ;
    }
    (y * y) as u128
}

/// Whether `r` is the whole part of the square root of `n`.
pub open spec fn is_sqrt_floor(n: int, r: int) -> bool {
    0 <= r && sq(r) <= n && n < sq(r + 1)
}

/// The whole part of the square root, by bisection.
fn isqrt(n: u128) -> (r: u64)
    ensures
        is_sqrt_floor(n as int, r as int),
{
    let mut lo: u128 = 0;
    let mut hi: u128 = 0xFFFF_FFFF_FFFF_FFFF;
    proof {
        assert(sq(0x1_0000_0000_0000_0000) > n as int);
    }
    while lo < hi
        invariant
            lo <= hi <= 0xFFFF_FFFF_FFFF_FFFF,
            sq(lo as int) <= n as int,
            (n as int) < sq(hi as int + 1),
        decreases hi - lo,
    {
        let mid: u128 = lo + (hi - lo + 1) / 2;
        assert(lo < mid <= hi);
        proof {
            assert(mid * mid <= 0xFFFF_FFFF_FFFF_FFFFu128 * 0xFFFF_FFFF_FFFF_FFFFu128)
                by (nonlinear_arith)
                requires
                    0 <= mid <= 0xFFFF_FFFF_FFFF_FFFFu128,
            ;
        }
        let m2: u128 = mid * mid;
        if m2 <= n {
            lo = mid;
        } else {
            hi = mid - 1;
        }
    }
    lo as u64
}

/// The squared Euclidean distance between two points.
pub open spec fn dist2(a: Node, b: Node) -> int {
    sq(a.x_pos - b.x_pos) + sq(a.y_pos - b.y_pos) + sq(a.z_pos - b.z_pos)
}

/// The straight-line distance between two points, in hundredths of a
/// coordinate unit, rounded down.
pub fn compute_length(curr: &Node, other: &Node) -> (r: u64)
    requires
        curr.in_bounds(),
        other.in_bounds(),
    ensures
        is_sqrt_floor(dist2(*curr, *other), r as int),
{
    let dx = square(curr.x_pos - other.x_pos);
    let dy = square(curr.y_pos - other.y_pos);
    let dz = square(curr.z_pos - other.z_pos);
    proof {
        assert(dx + dy + dz <= 0xFFFF_FFFF_FFFF_FFFF_FFFF_FFFF_FFFF_FFFFu128) by {
            assert(dx <= sq(2 * MAX_POS) && dy <= sq(2 * MAX_POS) && dz <= sq(2 * MAX_POS))
                by (nonlinear_arith)
                requires
                    dx == sq(curr.x_pos - other.x_pos),
                    dy == sq(curr.y_pos - other.y_pos),
                    dz == sq(curr.z_pos - other.z_pos),
                    -2 * MAX_POS <= curr.x_pos - other.x_pos <= 2 * MAX_POS,
                    -2 * MAX_POS <= curr.y_pos - other.y_pos <= 2 * MAX_POS,
                    -2 * MAX_POS <= curr.z_pos - other.z_pos <= 2 * MAX_POS,
            ;
        }
    }
    isqrt(dx + dy + dz)
}

/// The decimal digit characters of a whole number, most significant
/// first.
pub open spec fn u64_chars(n: int) -> Seq<char>
    decreases n,
{
    if n < 10 {
        seq![digit_char(n)]
    } else {
        u64_chars(n / 10).push(digit_char(n % 10))
    }
}

/// The character of one decimal digit.
pub open spec fn digit_char(d: int) -> char {
    if d == 0 {
        '0'
    } else if d == 1 {
        '1'
    } else if d == 2 {
        '2'
    } else if d == 3 {
        '3'
    } else if d == 4 {
        '4'
    } else if d == 5 {
        '5'
    } else if d == 6 {
        '6'
    } else if d == 7 {
        '7'
    } else if d == 8 {
        '8'
    } else {
        '9'
    }
}

/// One decimal digit as a string slice.
fn digit_str(d: u64) -> (s: &'static str)
    requires
        d < 10,
    ensures
        s@ == seq![digit_char(d as int)],
{
    let s: &'static str = match d {
        0 => "0",
        1 => "1",
        2 => "2",
        3 => "3",
        4 => "4",
        5 => "5",
        6 => "6",
        7 => "7",
        8 => "8",
        _ => "9",
    };
    proof {
        reveal_strlit("0");
        reveal_strlit("1");
        reveal_strlit("2");
        reveal_strlit("3");
        reveal_strlit("4");
        reveal_strlit("5");
        reveal_strlit("6");
        reveal_strlit("7");
        reveal_strlit("8");
        reveal_strlit("9");
        assert(s@ =~= seq![digit_char(d as int)]);
    }
    s
}

/// Appends a whole number in decimal.
fn push_u64(s: &mut String, n: u64)
    ensures
        final(s)@ == old(s)@ + u64_chars(n as int),
    decreases n,
{
    if n < 10 {
        s.append(digit_str(n));
        assert(final(s)@ =~= old(s)@ + u64_chars(n as int));
    } else {
        push_u64(s, n / 10);
        s.append(digit_str(n % 10));
        assert(final(s)@ =~= old(s)@ + u64_chars(n as int));
    }
}

/// The display name of the dummy root.
pub open spec fn dummy_name() -> Seq<char> {
    "Dummy Root"@
}

/// The display name of the compartment at index `i + 1`, built from the
/// record at position `i`.
pub open spec fn compartment_name(i: int) -> Seq<char> {
    if i == 0 {
        "Compartment: 1 (Soma)"@
    } else {
        "Compartment: "@ + u64_chars(i + 1)
    }
}

/// Builds the display name of the compartment for record position `i`.
fn make_name(i: usize) -> (s: String)
    requires
        i < usize::MAX,
    ensures
        s@ == compartment_name(i as int),
{
    if i == 0 {
        String::from_str("Compartment: 1 (Soma)")
    } else {
        let mut s = String::from_str("Compartment: ");
        push_u64(&mut s, i as u64 + 1);
        s
    }
}

/// One discretized segment of the modeled neuron: its place in the tree
/// by indices, its geometry, and the channel later attached by the
/// dynamics layer.
#[derive(Debug)]
pub struct Compartment {
    pub name: String,
    pub idx: u64,
    pub parent_idxs: Vec<u64>,
    pub children_idxs: Vec<u64>,
    pub length: u64,
    pub diam: u64,
    pub channel: Channel,
}

impl Compartment {
    /// Attaches channel parameters; topology, indices and geometry stay
    /// untouched.
    pub fn set_channel(&mut self, channel: Channel)
        ensures
            final(self).channel == channel,
            final(self).name == old(self).name,
            final(self).idx == old(self).idx,
            final(self).parent_idxs == old(self).parent_idxs,
            final(self).children_idxs == old(self).children_idxs,
            final(self).length == old(self).length,
            final(self).diam == old(self).diam,
    {
        self.channel = channel;
    }
}

/// The compartment tree: one owned, contiguous sequence; all linkage is
/// by indices into it.
pub struct Compartments {
    pub components: Vec<Compartment>,
}

impl Compartments {
    /// Builds the tree from normalized records and their adjacency maps:
    /// a dummy root at index 0, then one compartment per record, each
    /// with its index, the parent and child index lists looked up by its
    /// identifier, length 0 for a root (its parent is the dummy) and the
    /// floor of the Euclidean distance to its parent otherwise, and
    /// diameter twice the radius.
    pub fn from_sorted_nodes(
        sorted_nodes: Vec<Node>,
        parent_child_map: HashMap<u64, Vec<u64>>,
        child_parent_map: HashMap<u64, Vec<u64>>,
    ) -> (out: Compartments)
        requires
            normalized_form(sorted_nodes@),
            forall|i: int| 0 <= i < sorted_nodes@.len() ==> (#[trigger] sorted_nodes@[i]).in_bounds(),
        ensures
            out.components@.len() == sorted_nodes@.len() + 1,
            out.components@[0].name@ == dummy_name(),
            out.components@[0].idx == 0,
            out.components@[0].parent_idxs@ == Seq::<u64>::empty(),
            out.components@[0].children_idxs@ == Seq::<u64>::empty(),
            out.components@[0].length == 0,
            out.components@[0].diam == 0,
            out.components@[0].channel == default_channel(),
            forall|i: int|
                0 <= i < sorted_nodes@.len() ==> {
                    let comp = #[trigger] out.components@[i + 1];
                    let n = sorted_nodes@[i];
                    &&& comp.name@ == compartment_name(i)
                    &&& comp.idx == i + 1
                    &&& comp.diam == 2 * n.radius
                    &&& (n.parent_id == n.node_id ==> comp.length == 0)
                    &&& (n.parent_id != n.node_id ==> is_sqrt_floor(
                        dist2(n, sorted_nodes@[n.parent_id as int]),
                        comp.length as int,
                    ))
                    &&& comp.parent_idxs@ == (if child_parent_map@.contains_key(i as u64) {
                        child_parent_map@[i as u64]@
                    } else {
                        Seq::<u64>::empty()
                    })
                    &&& comp.children_idxs@ == (if parent_child_map@.contains_key(i as u64) {
                        parent_child_map@[i as u64]@
                    } else {
                        Seq::<u64>::empty()
                    })
                    &&& comp.channel == default_channel()
                },
    {
        broadcast use group_hash_axioms;

        let mut components: Vec<Compartment> = Vec::new();
        // The dummy root precedes the anatomical soma, so no record needs
        // a "no parent" special case.
        let dummy_root = Compartment {
            name: String::from_str("Dummy Root"),
            idx: 0,
            parent_idxs: Vec::new(),
            children_idxs: Vec::new(),
            length: 0,
            diam: 0,
            channel: Channel::default(),
        };
        components.push(dummy_root);
        let mut i: usize = 0;
        while i < sorted_nodes.len()
            invariant
                normalized_form(sorted_nodes@),
                forall|k: int|
                    0 <= k < sorted_nodes@.len() ==> (#[trigger] sorted_nodes@[k]).in_bounds(),
                i <= sorted_nodes@.len(),
                components@.len() == i + 1,
                components@[0].name@ == dummy_name(),
                components@[0].idx == 0,
                components@[0].parent_idxs@ == Seq::<u64>::empty(),
                components@[0].children_idxs@ == Seq::<u64>::empty(),
                components@[0].length == 0,
                components@[0].diam == 0,
                components@[0].channel == default_channel(),
                forall|k: int|
                    0 <= k < i ==> {
                        let comp = #[trigger] components@[k + 1];
                        let n = sorted_nodes@[k];
                        &&& comp.name@ == compartment_name(k)
                        &&& comp.idx == k + 1
                        &&& comp.diam == 2 * n.radius
                        &&& (n.parent_id == n.node_id ==> comp.length == 0)
                        &&& (n.parent_id != n.node_id ==> is_sqrt_floor(
                            dist2(n, sorted_nodes@[n.parent_id as int]),
                            comp.length as int,
                        ))
                        &&& comp.parent_idxs@ == (if child_parent_map@.contains_key(k as u64) {
                            child_parent_map@[k as u64]@
                        } else {
                            Seq::<u64>::empty()
                        })
                        &&& comp.children_idxs@ == (if parent_child_map@.contains_key(k as u64) {
                            parent_child_map@[k as u64]@
                        } else {
                            Seq::<u64>::empty()
                        })
                        &&& comp.channel == default_channel()
                    },
            decreases sorted_nodes@.len() - i,
        {
            let node = sorted_nodes[i];
            let name = make_name(i);
            // Length from the parent; a root's parent is the dummy and
            // carries no distance.
            let length: u64 = if node.parent_id == node.node_id {
                0
            } else {
                let parent_node = sorted_nodes[node.parent_id as usize];
                compute_length(&node, &parent_node)
            };
            let parents: Vec<u64> = match child_parent_map.get(&(i as u64)) {
                Some(v) => v.clone(),
                None => Vec::new(),
            };
            let children: Vec<u64> = match parent_child_map.get(&(i as u64)) {
                Some(v) => v.clone(),
                None => Vec::new(),
            };
            proof {
                if child_parent_map@.contains_key(i as u64) {
                    assert(parents@ =~= child_parent_map@[i as u64]@);
                }
                if parent_child_map@.contains_key(i as u64) {
                    assert(children@ =~= parent_child_map@[i as u64]@);
                }
            }
            let compartment = Compartment {
                name,
                idx: i as u64 + 1,
                parent_idxs: parents,
                children_idxs: children,
                length,
                diam: node.radius * 2,
                channel: Channel::default(),
            };
            components.push(compartment);
            i = i + 1;
        }
        Compartments { components }
    }
}

} // verus!

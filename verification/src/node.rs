//! The raw point record of a skeleton file and the errors a read can raise.

use vstd::prelude::*;

verus! {

/// Marks "no parent / is root" inside parsed records. The file writes `-1`
/// for it. Parsing rejects `u64::MAX` as a record identifier, so the marker
/// is distinct from every real identifier.
pub const NO_PARENT: u64 = u64::MAX;

/// Largest accepted magnitude of a position, in hundredths of a coordinate
/// unit. Keeps squared distances far inside `u128`.
pub const MAX_POS: i64 = 1_000_000_000_000_000;

/// Largest accepted radius, in whole coordinate units. Keeps the diameter
/// `2 * radius` inside `u64`.
pub const MAX_RADIUS: u64 = 1_000_000_000_000_000;

/// Structural role of a point, as coded in the file: 0 undefined, 1 soma,
/// 2 axon, 3 basal dendrite, 4 apical dendrite, 5 fork point, 6 end point;
/// any other code is custom.
#[derive(Debug, PartialEq, Eq, Structural, Hash, PartialOrd, Ord, Copy, Clone)]
pub enum StructureIdentifier {
    Undefined,
    Soma,
    Axon,
    BasalDendrite,
    ApicalDendrite,
    ForkPoint,
    EndPoint,
    Custom,
}

/// The structural type a numeric code denotes.
pub open spec fn structure_of_code(v: u8) -> StructureIdentifier {
    if v == 0 {
        StructureIdentifier::Undefined
    } else if v == 1 {
        StructureIdentifier::Soma
    } else if v == 2 {
        StructureIdentifier::Axon
    } else if v == 3 {
        StructureIdentifier::BasalDendrite
    } else if v == 4 {
        StructureIdentifier::ApicalDendrite
    } else if v == 5 {
        StructureIdentifier::ForkPoint
    } else if v == 6 {
        StructureIdentifier::EndPoint
    } else {
        StructureIdentifier::Custom
    }
}

/// The numeric code a structural type is written back as; custom types are
/// written as 7.
pub open spec fn code_of_structure(s: StructureIdentifier) -> u8 {
    match s {
        StructureIdentifier::Undefined => 0,
        StructureIdentifier::Soma => 1,
        StructureIdentifier::Axon => 2,
        StructureIdentifier::BasalDendrite => 3,
        StructureIdentifier::ApicalDendrite => 4,
        StructureIdentifier::ForkPoint => 5,
        StructureIdentifier::EndPoint => 6,
        StructureIdentifier::Custom => 7,
    }
}

impl From<u8> for StructureIdentifier {
    fn from(v: u8) -> (s: StructureIdentifier) {
        StructureIdentifier::from_code(v)
    }
}

impl vstd::std_specs::convert::FromSpecImpl<u8> for StructureIdentifier {
    open spec fn obeys_from_spec() -> bool {
        true
    }

    open spec fn from_spec(v: u8) -> StructureIdentifier {
        structure_of_code(v)
    }
}

impl StructureIdentifier {
    /// The structural type of a file code.
    pub fn from_code(v: u8) -> (s: StructureIdentifier)
        ensures
            s == structure_of_code(v),
    {
        match v {
            0 => StructureIdentifier::Undefined,
            1 => StructureIdentifier::Soma,
            2 => StructureIdentifier::Axon,
            3 => StructureIdentifier::BasalDendrite,
            4 => StructureIdentifier::ApicalDendrite,
            5 => StructureIdentifier::ForkPoint,
            6 => StructureIdentifier::EndPoint,
            _ => StructureIdentifier::Custom,
        }
    }

    /// The code this type is serialized as.
    pub fn code(self) -> (v: u8)
        ensures
            v == code_of_structure(self),
            v <= 7,
    {
        match self {
            StructureIdentifier::Undefined => 0,
            StructureIdentifier::Soma => 1,
            StructureIdentifier::Axon => 2,
            StructureIdentifier::BasalDendrite => 3,
            StructureIdentifier::ApicalDendrite => 4,
            StructureIdentifier::ForkPoint => 5,
            StructureIdentifier::EndPoint => 6,
            StructureIdentifier::Custom => 7,
        }
    }
}

/// One record of a skeleton file. `x_pos`, `y_pos` and `z_pos` are in
/// hundredths of a coordinate unit; `radius` is in whole units. A
/// `parent_id` of [`NO_PARENT`] marks a root candidate; after
/// normalization the root instead refers to itself.
#[derive(Debug, PartialEq, Eq, Structural, Copy, Clone)]
pub struct Node {
    pub node_id: u64,
    pub structured_identifier: StructureIdentifier,
    pub x_pos: i64,
    pub y_pos: i64,
    pub z_pos: i64,
    pub radius: u64,
    pub parent_id: u64,
}

impl Node {
    /// Whether every numeric field is inside the bounds parsing admits.
    pub open spec fn in_bounds(self) -> bool {
        &&& -MAX_POS <= self.x_pos <= MAX_POS
        &&& -MAX_POS <= self.y_pos <= MAX_POS
        &&& -MAX_POS <= self.z_pos <= MAX_POS
        &&& self.radius <= MAX_RADIUS
        &&& self.node_id != NO_PARENT
    }
}

/// Why a read failed. Cycles and unreachable records are not errors: they
/// are tolerated and reported through the diagnostics instead.
#[derive(Debug, PartialEq, Eq, Structural, Copy, Clone)]
pub enum SwcError {
    /// The 1-based line has the wrong field count or a field that does not
    /// parse as its numeric type.
    ParseError { line: usize },
    /// A record has radius zero on a structural type other than an end
    /// point, while warnings and strict mode are both on.
    GeometryError { node_id: u64, structure: StructureIdentifier },
    /// No record uses the no-parent sentinel, so nothing can be ordered.
    NoRootError,
}

} // verus!

//! The electrical models a compartment can carry. The morphology core
//! only stores which model and its lumped parameters; the dynamics
//! themselves belong to the simulation layer and are placeholders here.
//! Parameters are kept in hundredths of their engineering unit, so the
//! stored values are plain integers.

use vstd::prelude::*;

verus! {

/// Hodgkin-Huxley membrane dynamics (placeholder state).
#[derive(Debug, PartialEq, Eq, Structural, Copy, Clone)]
pub struct HodgkinHuxley {}

/// Extracellular-field dynamics (placeholder state).
#[derive(Debug, PartialEq, Eq, Structural, Copy, Clone)]
pub struct Extracellular {}

/// Passive leak dynamics (placeholder state).
#[derive(Debug, PartialEq, Eq, Structural, Copy, Clone)]
pub struct Passive {}

/// Which electrical model a compartment carries.
#[derive(Debug, PartialEq, Eq, Structural, Copy, Clone)]
pub enum ChannelType {
    Unspecified,
    Passive(Passive),
    Extracellular(Extracellular),
    HodgkinHuxley(HodgkinHuxley),
}

impl Default for ChannelType {
    fn default() -> (r: ChannelType)
        ensures
            r == ChannelType::Unspecified,
    {
        ChannelType::Unspecified
    }
}

/// The channel attached to one compartment: its model and lumped
/// electrical parameters, in hundredths of their unit.
#[derive(Debug, PartialEq, Eq, Structural, Copy, Clone)]
pub struct Channel {
    pub channel_type: ChannelType,
    pub resistance: i64,
    pub capacitance: i64,
    pub conductance: i64,
}

/// The channel a fresh compartment carries: no model, all parameters zero.
pub open spec fn default_channel() -> Channel {
    Channel {
        channel_type: ChannelType::Unspecified,
        resistance: 0,
        capacitance: 0,
        conductance: 0,
    }
}

impl Default for Channel {
    fn default() -> (r: Channel)
        ensures
            r == default_channel(),
    {
        Channel { channel_type: ChannelType::Unspecified, resistance: 0, capacitance: 0, conductance: 0 }
    }
}

/// The three-operation capability surface every electrical model offers.
/// The bodies are placeholders until the simulation layer exists.
pub trait Dynamics: Sized {
    /// A fresh state of this model.
    fn new() -> Self;

    /// Advances the propagated signal one step.
    fn propagate(self);

    /// Updates the internal state one step.
    fn update(self);
}

impl Dynamics for HodgkinHuxley {
    fn new() -> Self {
        HodgkinHuxley {  }
    }

    fn propagate(self) {
    }

    fn update(self) {
    }
}

impl Dynamics for Extracellular {
    fn new() -> Self {
        Extracellular {  }
    }

    fn propagate(self) {
    }

    fn update(self) {
    }
}

impl Dynamics for Passive {
    fn new() -> Self {
        Passive {  }
    }

    fn propagate(self) {
    }

    fn update(self) {
    }
}

} // verus!

use vstd::prelude::*;

use crate::refs::ScopeRef;
use crate::refs::VariableRef;

verus! {

/// A point in simulated time, in femtoseconds.
#[derive(PartialEq, Eq, Structural, Clone, Copy, Debug)]
pub struct CxxrtlTimestamp {
    pub femtoseconds: u128,
}

impl CxxrtlTimestamp {
    pub fn zero() -> (r: CxxrtlTimestamp)
        ensures
            r.femtoseconds == 0,
    {
        CxxrtlTimestamp { femtoseconds: 0 }
    }

    pub fn from_femtoseconds(femtoseconds: u128) -> (r: CxxrtlTimestamp)
        ensures
            r.femtoseconds == femtoseconds,
    {
        CxxrtlTimestamp { femtoseconds }
    }

    pub fn as_femtoseconds(&self) -> (r: u128)
        ensures
            r == self.femtoseconds,
    {
        self.femtoseconds
    }
}

/// What the simulator is doing.
#[derive(PartialEq, Eq, Structural, Clone, Copy, Debug)]
pub enum SimulationStatusType {
    Running,
    Paused,
    Finished,
}

/// The simulator's state and the latest simulated time.
#[derive(PartialEq, Eq, Structural, Clone, Copy, Debug)]
pub struct CxxrtlSimulationStatus {
    pub status: SimulationStatusType,
    pub latest_time: CxxrtlTimestamp,
}

/// What is known of one item (variable) of the design.
#[derive(PartialEq, Eq, Structural, Clone, Copy, Debug)]
pub struct CxxrtlItem {
    pub width: u32,
}

/// One point of an interval query: its time and the values of all referenced items,
/// one after the other, each as little-endian 32-bit words.
#[derive(Clone, Debug)]
pub struct Sample {
    pub time: CxxrtlTimestamp,
    pub item_values: Vec<u32>,
}

/// A command sent to the simulator.
#[derive(Clone, Debug)]
pub enum CxxrtlCommand {
    ListScopes { scope: Option<String> },
    ListItems { scope: Option<String> },
    ReferenceItems { reference: String, items: Vec<Vec<String>> },
    QueryInterval {
        start: CxxrtlTimestamp,
        end: CxxrtlTimestamp,
        collapse: bool,
        items: Option<String>,
        item_values_encoding: String,
        diagnostics: bool,
    },
    RunSimulation {
        until_time: Option<CxxrtlTimestamp>,
        until_diagnostics: Vec<String>,
        sample_item_values: bool,
    },
    PauseSimulation,
    GetSimulationStatus,
}

/// The simulator's answer to a command.
#[derive(Clone, Debug)]
pub enum CommandResponse {
    /// The names of the scopes on the wire.
    ListScopes { scopes: Vec<String> },
    /// The items, by name on the wire.
    ListItems { items: Vec<(String, CxxrtlItem)> },
    ReferenceItems,
    QueryInterval { samples: Vec<Sample> },
    RunSimulation,
    PauseSimulation { time: CxxrtlTimestamp },
    GetSimulationStatus(CxxrtlSimulationStatus),
}

} // verus!

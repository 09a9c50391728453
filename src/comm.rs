use vstd::prelude::*;

verus! {

/// The handle from which a connection to the physics simulator is opened. It
/// holds no state; opening the socket is left to the program around the
/// library.
#[derive(Debug, Clone, Copy, PartialEq, Eq, Structural)]
pub struct SimulationConnector;

impl SimulationConnector {
    pub fn new() -> (r: Self)
        ensures
            r == SimulationConnector,
    {
        SimulationConnector
    }
}

} // verus!

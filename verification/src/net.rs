use vstd::prelude::*;

verus! {

/// Reserved name of the power-rail net. The net interner allocates it at
/// index 0 before any circuit-specific name, and every propagation pass
/// starts from it.
pub const V_P: &'static str = "V+";

/// One relay entry of a netlist: the net its coil reads and the two
/// switch-state names its contacts drive.
#[derive(Debug)]
pub struct Relay {
    pub coil: String,
    pub a: String,
    pub b: String,
}

/// One switch entry of a netlist: the state name that controls it and the
/// names of the two terminal nets it joins.
#[derive(Debug)]
pub struct Switch {
    pub state: String,
    pub l: String,
    pub r: String,
}

/// A parsed circuit description: the input to `compile`.
#[derive(Debug)]
pub struct Netlist {
    pub relays: Vec<Relay>,
    pub switches: Vec<Switch>,
}

} // verus!

use vstd::prelude::*;

use std::collections::HashMap;

verus! {

/// The kind of a part, with what identifies it.
pub enum ComponentType {
    /// Resistance in ohms.
    Resistor(u32),
    /// Capacitance in picofarads.
    Capacitor(u32),
    /// Part number of an integrated circuit.
    IC(String),
    /// Part number of anything else.
    Other(String),
}

/// One kind of part on a board, with the designators it is placed at.
pub struct Component {
    pub part_type: ComponentType,
    pub package: String,
    pub designators: Vec<String>,
}

/// A board's bill of materials: each component with its quantity.
pub struct BOM {
    pub pcb_name: String,
    pub bom: HashMap<Component, u32>,
}

impl BOM {
    /// An empty bill of materials for the board named `name`.
    pub fn new(self, name: String) -> (r: BOM)
        ensures
            r.pcb_name@ == name@,
            r.bom@ == Map::<Component, u32>::empty(),
    {
        BOM { pcb_name: name, bom: HashMap::new() }
    }
}

} // verus!

//! The simulation front door: resolves a schematic by name and hands its
//! flattened, primitive-only form to whatever back end evaluates netlists.
//!
//! The boolean evaluation of a flattened netlist against test vectors is a
//! downstream consumer outside this library; this module only produces the
//! netlist that such a consumer requires.

use vstd::prelude::*;

use crate::flatten::FlatErrV;
use crate::flatten::FlattenError;
use crate::flatten::spec_flatten;
use crate::schematic::Design;
use crate::schematic::Schematic;
use crate::schematic::SchematicV;
use crate::schematic::find_schematic;

verus! {

/// Why a simulation request failed before any simulation could begin.
#[derive(Debug)]
pub enum SimulatorError {
    /// The requested schematic is not defined in the design.
    UnknownSchematic { name: String },
    /// The requested schematic could not be flattened.
    Flatten(FlattenError),
}

/// Mathematical model of a [`SimulatorError`].
#[verifier::ext_equal]
pub ghost enum SimErrV {
    UnknownSchematic { name: Seq<char> },
    Flatten(FlatErrV),
}

impl View for SimulatorError {
    type V = SimErrV;

    open spec fn view(&self) -> SimErrV {
        match self {
            SimulatorError::UnknownSchematic { name } => {
                SimErrV::UnknownSchematic { name: name@ }
            },
            SimulatorError::Flatten(e) => SimErrV::Flatten(e@),
        }
    }
}

/// Holds a design and prepares its schematics for simulation.
pub struct Simulator {
    pub design: Design,
}

impl Simulator {
    /// A simulator over the given design.
    pub fn new(design: Design) -> (r: Self)
        ensures
            r.design@ == design@,
    {
        Self { design }
    }

    /// The flattened form of the named schematic: the same interface, a
    /// primitive-only body — the sole input a simulation back end requires.
    /// Fails if the design defines no schematic of that name, or if
    /// flattening it fails.
    pub fn simulate(&self, schematic_name: &String) -> (r: Result<Schematic, SimulatorError>)
        ensures
            match r {
                Ok(f) => find_schematic(self.design@.schematics, schematic_name@) is Some
                    && spec_flatten(
                    find_schematic(self.design@.schematics, schematic_name@)->Some_0,
                    self.design@.schematics,
                ) == Ok::<SchematicV, FlatErrV>(f@),
                Err(e) => match e@ {
                    SimErrV::UnknownSchematic { name } => name == schematic_name@
                        && find_schematic(self.design@.schematics, schematic_name@) is None,
                    SimErrV::Flatten(fe) => find_schematic(
                        self.design@.schematics,
                        schematic_name@,
                    ) is Some && spec_flatten(
                        find_schematic(self.design@.schematics, schematic_name@)->Some_0,
                        self.design@.schematics,
                    ) == Err::<SchematicV, FlatErrV>(fe),
                },
            },
    {
        match self.design.find(schematic_name) {
            None => {
                Err(SimulatorError::UnknownSchematic { name: schematic_name.clone() })
            },
            Some(top) => {
                match top.flatten(self.design.get_schematics()) {
                    Ok(f) => Ok(f),
                    Err(e) => Err(SimulatorError::Flatten(e)),
                }
            },
        }
    }
}

} // verus!

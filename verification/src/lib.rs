//! A hierarchical logic-circuit elaborator.
//!
//! Source text describes schematics built from the primitive `nand` gate and
//! from instantiations of other schematics.  The front end (`parser`) turns
//! that text into a [`schematic::Design`]; the elaborator
//! ([`schematic::Schematic::flatten`]) reduces a chosen schematic to an
//! equivalent flat netlist of primitive gates, renaming the local wires of
//! every inlined instantiation so that no two expansions share a wire.

pub mod command;
pub mod flatten;
pub mod parser;
pub mod schematic;
pub mod simulator;

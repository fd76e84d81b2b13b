use elogic::command::{Action, Command};
use elogic::flatten::NameGenerator;
use elogic::schematic::{Instruction, Schematic};
use elogic::simulator::{Simulator, SimulatorError};
use elogic::parser::Parser;

fn s(x: &str) -> String {
    x.to_string()
}

fn names(xs: &[&str]) -> Vec<String> {
    xs.iter().map(|x| x.to_string()).collect()
}

fn instr(name: &str, inputs: &[&str], outputs: &[&str]) -> Instruction {
    Instruction::new(s(name), names(inputs), names(outputs))
}

#[test]
fn scheme_test_simple_scheme() {
    // The basis is nand; xor declares no locals of its own — the wires
    // e0..e3 are inferred from its body.
    let nand_scheme = Schematic::new(s("nand"), (names(&["a", "b"]), names(&["x"])), vec![]);
    let and_scheme = Schematic::new(
        s("and"),
        (names(&["a", "b"]), names(&["x"])),
        vec![instr("nand", &["a", "b"], &["t"]), instr("nand", &["t", "t"], &["x"])],
    );
    let or_scheme = Schematic::new(
        s("or"),
        (names(&["a", "b"]), names(&["x"])),
        vec![
            instr("nand", &["a", "a"], &["t0"]),
            instr("nand", &["b", "b"], &["t1"]),
            instr("nand", &["t0", "t1"], &["x"]),
        ],
    );
    let not_scheme = Schematic::new(
        s("not"),
        (names(&["a"]), names(&["x"])),
        vec![instr("nand", &["a", "a"], &["x"])],
    );
    let schemas = vec![nand_scheme, and_scheme, or_scheme, not_scheme];

    let xor_scheme = Schematic::new(
        s("xor"),
        (names(&["a", "b"]), names(&["x"])),
        vec![
            instr("not", &["a"], &["e0"]),
            instr("and", &["e0", "b"], &["e1"]),
            instr("not", &["b"], &["e2"]),
            instr("and", &["a", "e2"], &["e3"]),
            instr("or", &["e2", "e3"], &["x"]),
        ],
    );
    let flattened = xor_scheme.flatten(&schemas).expect("xor flattens");
    for i in &flattened.body {
        println!("  {}", i.render());
        assert_eq!(i.schematic_name, "nand");
        assert_eq!(i.pin_bindings.len(), 3);
    }
    assert_eq!(flattened.body.len(), 9);
}

#[test]
fn name_generator_counts_from_zero() {
    let mut ng = NameGenerator::new();
    assert_eq!(ng.get_next_name(), "_t.0");
    assert_eq!(ng.get_next_name(), "_t.1");
    assert_eq!(ng.get_next_name(), "_t.2");
    let mut other = NameGenerator::new();
    assert_eq!(other.get_next_name(), "_t.0");
}

#[test]
fn name_generator_renders_larger_counters_in_decimal() {
    let mut ng = NameGenerator::new();
    let mut last = String::new();
    for _ in 0..1234 {
        last = ng.get_next_name();
    }
    assert_eq!(last, "_t.1233");
}

#[test]
fn flattening_command_is_parsed() {
    let cl = names(&["elogic", "flatten", "xor", "from", "schematics/example01.elogic"]);
    let command = Command::new(&cl).expect("a valid flatten command");
    assert_eq!(command.action, Action::Flatten);
    assert_eq!(command.schematic, "xor");
    assert_eq!(command.file, "schematics/example01.elogic");
    assert_eq!(command.data, "");
}

#[test]
fn simulation_command_is_parsed() {
    let cl = names(&["elogic", "simulate", "xor", "from", "design.elogic", "with", "data.vec"]);
    let command = Command::new(&cl).expect("a valid simulate command");
    assert_eq!(command.action, Action::Simulate);
    assert_eq!(command.schematic, "xor");
    assert_eq!(command.file, "design.elogic");
    assert_eq!(command.data, "data.vec");
}

#[test]
fn malformed_command_lines_are_refused() {
    let err = Command::new(&names(&["elogic", "explode"])).expect_err("unknown action");
    assert_eq!(err, "Invalid command line.");
    let err = Command::new(&names(&["elogic", "flatten", "xor", "of", "f"]))
        .expect_err("wrong keyword");
    assert_eq!(err, "Invalid command line for flattening.");
    let err = Command::new(&names(&["elogic", "simulate", "xor", "from", "f", "and", "d"]))
        .expect_err("wrong keyword");
    assert_eq!(err, "Invalid command line for simulation.");
}

#[test]
fn simulator_flattens_the_requested_schematic() {
    let src = "define not a -> x\n  nand a a -> x\nend\n";
    let design = Parser::new(src).parse().expect("parses");
    let simulator = Simulator::new(design);
    let flattened = simulator.simulate(&s("not")).expect("not is defined");
    assert_eq!(flattened.name, "not");
    assert_eq!(flattened.body.len(), 1);
    assert_eq!(flattened.body[0].schematic_name, "nand");
}

#[test]
fn simulator_reports_an_unknown_schematic() {
    let design = Parser::new("").parse().expect("parses");
    let simulator = Simulator::new(design);
    match simulator.simulate(&s("ghost")) {
        Err(SimulatorError::UnknownSchematic { name }) => assert_eq!(name, "ghost"),
        other => panic!("expected an unknown-schematic failure, got {:?}", other),
    }
}

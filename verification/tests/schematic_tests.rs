use elogic::flatten::FlattenError;
use elogic::schematic::{Design, Instruction, Pin, Role, Schematic};

fn s(x: &str) -> String {
    x.to_string()
}

fn names(xs: &[&str]) -> Vec<String> {
    xs.iter().map(|x| x.to_string()).collect()
}

fn instr(name: &str, inputs: &[&str], outputs: &[&str]) -> Instruction {
    Instruction::new(s(name), names(inputs), names(outputs))
}

fn nand_schematic() -> Schematic {
    Schematic::new(s("nand"), (names(&["a", "b"]), names(&["x"])), vec![])
}

fn and_schematic() -> Schematic {
    Schematic::new(
        s("and"),
        (names(&["a", "b"]), names(&["x"])),
        vec![instr("nand", &["a", "b"], &["t"]), instr("nand", &["t", "t"], &["x"])],
    )
}

fn or_schematic() -> Schematic {
    Schematic::new(
        s("or"),
        (names(&["a", "b"]), names(&["x"])),
        vec![
            instr("nand", &["a", "a"], &["t0"]),
            instr("nand", &["b", "b"], &["t1"]),
            instr("nand", &["t0", "t1"], &["x"]),
        ],
    )
}

fn not_schematic() -> Schematic {
    Schematic::new(
        s("not"),
        (names(&["a"]), names(&["x"])),
        vec![instr("nand", &["a", "a"], &["x"])],
    )
}

fn xor_schematic() -> Schematic {
    Schematic::new(
        s("xor"),
        (names(&["a", "b"]), names(&["x"])),
        vec![
            instr("not", &["a"], &["e0"]),
            instr("and", &["e0", "b"], &["e1"]),
            instr("not", &["b"], &["e2"]),
            instr("and", &["a", "e2"], &["e3"]),
            instr("or", &["e2", "e3"], &["x"]),
        ],
    )
}

fn assert_instruction(i: &Instruction, name: &str, bindings: &[&str]) {
    assert_eq!(i.schematic_name, name);
    let expected: Vec<String> = bindings.iter().map(|b| b.to_string()).collect();
    assert_eq!(i.pin_bindings, expected);
}

#[test]
fn schematic_test_simple_scheme() {
    let schemas = vec![
        xor_schematic(),
        nand_schematic(),
        and_schematic(),
        or_schematic(),
        not_schematic(),
    ];

    let flattened = schemas[0].flatten(&schemas).expect("xor flattens");
    println!("->\n{}", flattened.render());

    assert_eq!(flattened.name, "xor");
    for i in &flattened.body {
        assert_eq!(i.schematic_name, "nand");
        assert_eq!(i.pin_bindings.len(), 3);
    }
}

#[test]
fn test_flatten_primitive_schematic() {
    let not_scheme = Schematic::new(
        String::from("not"),
        (vec!["a".to_string()], vec!["x".to_string()]),
        vec![instr("nand", &["a", "a"], &["x"])],
    );

    let library = vec![not_scheme];
    let flattened = library[0].flatten(&library).expect("not flattens");
    println!("->\n{}", flattened.render());

    assert_eq!(flattened.body.len(), 1);
    assert_instruction(&flattened.body[0], "nand", &["a", "a", "x"]);
}

#[test]
fn flatten_not_yields_single_unchanged_instruction() {
    let library = vec![nand_schematic(), not_schematic()];
    let flattened = library[1].flatten(&library).expect("not flattens");
    assert_eq!(flattened.name, "not");
    assert_eq!(flattened.body.len(), 1);
    assert_instruction(&flattened.body[0], "nand", &["a", "a", "x"]);
}

#[test]
fn flatten_primitive_body_with_local_is_verbatim() {
    // The body of `and` is already primitive; its own local `t` keeps its
    // name, and flattening returns the two instructions verbatim.
    let library = vec![nand_schematic(), and_schematic()];
    let flattened = library[1].flatten(&library).expect("and flattens");
    assert_eq!(flattened.body.len(), 2);
    assert_instruction(&flattened.body[0], "nand", &["a", "b", "t"]);
    assert_instruction(&flattened.body[1], "nand", &["t", "t", "x"]);
}

#[test]
fn flatten_is_idempotent() {
    let library = vec![
        nand_schematic(),
        and_schematic(),
        or_schematic(),
        not_schematic(),
        xor_schematic(),
    ];
    let once = library[4].flatten(&library).expect("xor flattens");
    let twice = once.flatten(&library).expect("a flat schematic flattens");
    assert_eq!(once.render(), twice.render());
}

#[test]
fn flatten_xor_expands_to_exact_primitive_netlist() {
    let library = vec![
        nand_schematic(),
        and_schematic(),
        or_schematic(),
        not_schematic(),
        xor_schematic(),
    ];
    let flattened = library[4].flatten(&library).expect("xor flattens");

    assert_eq!(flattened.body.len(), 9);
    assert_instruction(&flattened.body[0], "nand", &["a", "a", "e0"]);
    assert_instruction(&flattened.body[1], "nand", &["e0", "b", "_t.0"]);
    assert_instruction(&flattened.body[2], "nand", &["_t.0", "_t.0", "e1"]);
    assert_instruction(&flattened.body[3], "nand", &["b", "b", "e2"]);
    assert_instruction(&flattened.body[4], "nand", &["a", "e2", "_t.1"]);
    assert_instruction(&flattened.body[5], "nand", &["_t.1", "_t.1", "e3"]);
    assert_instruction(&flattened.body[6], "nand", &["e2", "e2", "_t.2"]);
    assert_instruction(&flattened.body[7], "nand", &["e3", "e3", "_t.3"]);
    assert_instruction(&flattened.body[8], "nand", &["_t.2", "_t.3", "x"]);

    // Four locals were generated in all: one per inlined `and`, two for the
    // inlined `or`, none for the two inlined `not`.
    let mut generated: Vec<String> = Vec::new();
    for i in &flattened.body {
        for b in &i.pin_bindings {
            if b.starts_with("_t.") && !generated.contains(b) {
                generated.push(b.clone());
            }
        }
    }
    assert_eq!(generated.len(), 4);
}

#[test]
fn sibling_instantiations_share_no_generated_local() {
    // Two instantiations of `and` in one body: each inlining gets its own
    // fresh local, so the two expansions never share a generated wire.
    let double = Schematic::new(
        s("double"),
        (names(&["a", "b"]), names(&["x", "y"])),
        vec![instr("and", &["a", "b"], &["x"]), instr("and", &["b", "a"], &["y"])],
    );
    let library = vec![nand_schematic(), and_schematic(), double];
    let flattened = library[2].flatten(&library).expect("double flattens");
    assert_eq!(flattened.body.len(), 4);
    assert_instruction(&flattened.body[0], "nand", &["a", "b", "_t.0"]);
    assert_instruction(&flattened.body[1], "nand", &["_t.0", "_t.0", "x"]);
    assert_instruction(&flattened.body[2], "nand", &["b", "a", "_t.1"]);
    assert_instruction(&flattened.body[3], "nand", &["_t.1", "_t.1", "y"]);
}

#[test]
fn flatten_preserves_the_pin_interface() {
    let library = vec![
        nand_schematic(),
        and_schematic(),
        or_schematic(),
        not_schematic(),
        xor_schematic(),
    ];
    let flattened = library[4].flatten(&library).expect("xor flattens");
    assert_eq!(flattened.pins.len(), library[4].pins.len());
    for (p, q) in flattened.pins.iter().zip(library[4].pins.iter()) {
        assert_eq!(p.name, q.name);
        assert_eq!(p.role, q.role);
    }
}

#[test]
fn undefined_schematic_fails_the_flatten() {
    let broken = Schematic::new(
        s("broken"),
        (names(&["a"]), names(&["x"])),
        vec![instr("missing", &["a"], &["x"])],
    );
    let library = vec![nand_schematic(), broken];
    match library[1].flatten(&library) {
        Err(FlattenError::UndefinedSchematic { name, referenced_in }) => {
            assert_eq!(name, "missing");
            assert_eq!(referenced_in, "broken");
        }
        other => panic!("expected an undefined-schematic failure, got {:?}", other),
    }
}

#[test]
fn instantiation_cycle_fails_the_flatten() {
    let looped = Schematic::new(
        s("looped"),
        (names(&["a"]), names(&["x"])),
        vec![instr("looped", &["a"], &["x"])],
    );
    let library = vec![looped];
    match library[0].flatten(&library) {
        Err(FlattenError::Cycle { name }) => assert_eq!(name, "looped"),
        other => panic!("expected a cycle failure, got {:?}", other),
    }
}

#[test]
fn arity_mismatch_fails_the_flatten() {
    let wrong = Schematic::new(
        s("wrong"),
        (names(&["a"]), names(&["x"])),
        vec![instr("not", &["a", "a"], &["x"])],
    );
    let library = vec![nand_schematic(), not_schematic(), wrong];
    match library[2].flatten(&library) {
        Err(FlattenError::ArityMismatch { schematic, expected, found }) => {
            assert_eq!(schematic, "not");
            assert_eq!(expected, 2);
            assert_eq!(found, 3);
        }
        other => panic!("expected an arity failure, got {:?}", other),
    }
}

#[test]
fn primitive_arity_is_checked_too() {
    let wrong = Schematic::new(
        s("wrong"),
        (names(&["a"]), names(&["x"])),
        vec![instr("nand", &["a"], &["x"])],
    );
    let library = vec![wrong];
    match library[0].flatten(&library) {
        Err(FlattenError::ArityMismatch { schematic, expected, found }) => {
            assert_eq!(schematic, "nand");
            assert_eq!(expected, 3);
            assert_eq!(found, 2);
        }
        other => panic!("expected an arity failure, got {:?}", other),
    }
}

#[test]
fn locals_are_inferred_in_first_occurrence_order() {
    let sch = or_schematic();
    let roles: Vec<Role> = sch.pins.iter().map(|p| p.role).collect();
    assert_eq!(
        roles,
        vec![Role::Input, Role::Input, Role::Output, Role::Local, Role::Local]
    );
    assert_eq!(sch.pins[3].name, "t0");
    assert_eq!(sch.pins[4].name, "t1");
}

#[test]
fn declared_interface_names_are_not_locals() {
    // A name bound in the body that is a declared input or output must not
    // be re-classified as a local pin.
    let sch = not_schematic();
    assert_eq!(sch.pins.len(), 2);
    assert_eq!(sch.pins[0].name, "a");
    assert_eq!(sch.pins[0].role, Role::Input);
    assert_eq!(sch.pins[1].name, "x");
    assert_eq!(sch.pins[1].role, Role::Output);
}

#[test]
fn design_lookup_returns_the_first_match() {
    let first = Schematic::new(s("dup"), (names(&["a"]), names(&["x"])), vec![]);
    let second = Schematic::new(s("dup"), (names(&["p", "q"]), names(&["r"])), vec![]);
    let design = Design::new(vec![first, second]);
    let found = design.find(&s("dup")).expect("dup is defined");
    assert_eq!(found.pins.len(), 2);
    assert!(design.find(&s("other")).is_none());
}

#[test]
fn render_shows_interface_locals_and_body() {
    let library = vec![nand_schematic(), and_schematic()];
    let rendered = library[1].render();
    assert_eq!(
        rendered,
        "scheme and a b -> x\n  -- Locals: t\nnand a b t\nnand t t x\nend\n\n"
    );
    let design = Design::new(library);
    let all = design.render();
    assert!(all.starts_with("scheme nand a b -> x\n"));
    assert!(all.ends_with("end\n\n"));
}

#[test]
fn pin_names_are_unique_for_distinct_interfaces() {
    // With pairwise distinct declared names, the inferred locals never
    // duplicate a pin name.
    let sch = xor_schematic();
    for i in 0..sch.pins.len() {
        for j in (i + 1)..sch.pins.len() {
            assert_ne!(sch.pins[i].name, sch.pins[j].name);
        }
    }
}

#[test]
fn pin_constructors_assign_the_roles() {
    assert_eq!(Pin::new_input(s("a")).role, Role::Input);
    assert_eq!(Pin::new_output(s("x")).role, Role::Output);
    assert_eq!(Pin::new_local(s("t")).role, Role::Local);
    let p = Pin::new(s("w"), Role::Output);
    assert_eq!(p.name, "w");
    assert_eq!(p.role, Role::Output);
}

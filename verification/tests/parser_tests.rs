use elogic::parser::{ParseErrorKind, Parser, Token};
use elogic::schematic::Role;

const EXAMPLE_DESIGN: &str = "\
-- A xor gate built from inverters, conjunctions and a disjunction,\n\
-- everything resting on the primitive nand gate.\n\
define not a -> x\n\
  nand a a -> x\n\
end\n\
\n\
define and a b -> x\n\
  nand a b -> t\n\
  nand t t -> x\n\
end\n\
\n\
define or a b -> x\n\
  nand a a -> t0\n\
  nand b b -> t1\n\
  nand t0 t1 -> x\n\
end\n\
\n\
define xor a b -> x\n\
  not a -> e0\n\
  and e0 b -> e1\n\
  not b -> e2\n\
  and a e2 -> e3\n\
  or e2 e3 -> x\n\
end\n";

#[test]
fn test_parse_design() {
    let mut parser = Parser::new(EXAMPLE_DESIGN);
    match parser.parse() {
        Ok(design) => println!("=> {:#?}", design),
        Err(err) => panic!("ERROR [{}]: {:?}", err.line, err.kind),
    }
}

#[test]
fn parse_builds_the_expected_schematics() {
    let mut parser = Parser::new(EXAMPLE_DESIGN);
    let design = parser.parse().expect("the example parses");
    let schematics = design.get_schematics();
    assert_eq!(schematics.len(), 4);
    assert_eq!(schematics[0].name, "not");
    assert_eq!(schematics[1].name, "and");
    assert_eq!(schematics[2].name, "or");
    assert_eq!(schematics[3].name, "xor");

    let and = &schematics[1];
    assert_eq!(and.pins.len(), 4);
    assert_eq!(and.pins[0].name, "a");
    assert_eq!(and.pins[0].role, Role::Input);
    assert_eq!(and.pins[2].name, "x");
    assert_eq!(and.pins[2].role, Role::Output);
    assert_eq!(and.pins[3].name, "t");
    assert_eq!(and.pins[3].role, Role::Local);
    assert_eq!(and.body.len(), 2);
    assert_eq!(and.body[0].schematic_name, "nand");
    assert_eq!(and.body[0].pin_bindings, vec!["a", "b", "t"]);
    assert_eq!(and.body[1].pin_bindings, vec!["t", "t", "x"]);
}

#[test]
fn comments_do_not_change_the_parsed_design() {
    let with_comment = "define not a -> x -- invert the input\n  nand a a -> x\nend\n";
    let without_comment = "define not a -> x\n  nand a a -> x\nend\n";
    let d1 = Parser::new(with_comment).parse().expect("comment form parses");
    let d2 = Parser::new(without_comment).parse().expect("stripped form parses");
    assert_eq!(d1.render(), d2.render());
}

#[test]
fn parse_then_flatten_gives_a_primitive_netlist() {
    let design = Parser::new(EXAMPLE_DESIGN).parse().expect("the example parses");
    let xor = design.find(&"xor".to_string()).expect("xor is defined");
    let flattened = xor.flatten(design.get_schematics()).expect("xor flattens");
    assert_eq!(flattened.body.len(), 9);
    for i in &flattened.body {
        assert_eq!(i.schematic_name, "nand");
        assert_eq!(i.pin_bindings.len(), 3);
    }
}

#[test]
fn empty_and_blank_sources_parse_to_empty_designs() {
    let d1 = Parser::new("").parse().expect("empty source parses");
    assert_eq!(d1.get_schematics().len(), 0);
    let d2 = Parser::new("\n\n  \n").parse().expect("blank source parses");
    assert_eq!(d2.get_schematics().len(), 0);
}

#[test]
fn blank_lines_between_schematics_are_skipped() {
    let src = "\n\ndefine a1 p -> q\nend\n\n\n\ndefine b2 p -> q\nend\n\n";
    let design = Parser::new(src).parse().expect("parses");
    assert_eq!(design.get_schematics().len(), 2);
}

#[test]
fn missing_arrow_is_an_expected_token_error() {
    let src = "define not a x\n  nand a a -> x\nend\n";
    let err = Parser::new(src).parse().expect_err("the arrow is missing");
    match err.kind {
        ParseErrorKind::ExpectedToken { expected: Token::Arrow, found: Some(Token::NewLine) } => {}
        other => panic!("unexpected failure: {:?}", other),
    }
    assert_eq!(err.line, 1);
}

#[test]
fn missing_end_is_reported_at_end_of_input() {
    let src = "define not a -> x\n  nand a a -> x\n";
    let err = Parser::new(src).parse().expect_err("the end is missing");
    match err.kind {
        ParseErrorKind::ExpectedToken { expected: Token::End, found: None } => {}
        other => panic!("unexpected failure: {:?}", other),
    }
    assert_eq!(err.line, 3);
}

#[test]
fn missing_name_is_an_expected_identifier_error() {
    let src = "define -> x\nend\n";
    let err = Parser::new(src).parse().expect_err("the name is missing");
    match err.kind {
        ParseErrorKind::ExpectedIdentifier { found: Some(Token::Arrow) } => {}
        other => panic!("unexpected failure: {:?}", other),
    }
    assert_eq!(err.line, 1);
}

#[test]
fn trailing_garbage_fails_the_parse() {
    let src = "define not a -> x\n  nand a a -> x\nend\nstray\n";
    let err = Parser::new(src).parse().expect_err("the stray word is refused");
    match err.kind {
        ParseErrorKind::ExpectedToken { expected: Token::Define, found: Some(Token::Ident(w)) } => {
            assert_eq!(w, "stray");
        }
        other => panic!("unexpected failure: {:?}", other),
    }
    assert_eq!(err.line, 4);
}

#[test]
fn malformed_lexemes_are_unknown_tokens() {
    let src = "define n+t a -> x\nend\n";
    let err = Parser::new(src).parse().expect_err("the lexeme is malformed");
    match err.kind {
        ParseErrorKind::ExpectedIdentifier { found: Some(Token::Unknown(w)) } => {
            assert_eq!(w, "n+t");
        }
        other => panic!("unexpected failure: {:?}", other),
    }
}

#[test]
fn lexemes_become_the_expected_tokens() {
    assert!(matches!(Token::from("define".to_string()), Token::Define));
    assert!(matches!(Token::from("end".to_string()), Token::End));
    assert!(matches!(Token::from("->".to_string()), Token::Arrow));
    match Token::from("abc12".to_string()) {
        Token::Ident(s) => assert_eq!(s, "abc12"),
        other => panic!("expected an identifier, got {:?}", other),
    }
    match Token::from("a.b".to_string()) {
        Token::Unknown(s) => assert_eq!(s, "a.b"),
        other => panic!("expected the unknown marker, got {:?}", other),
    }
}

#[test]
fn tokenize_splits_lines_and_strips_comments() {
    let toks = elogic::parser::tokenize("define x -- c\nend");
    assert_eq!(toks.len(), 5);
    assert!(matches!(toks[0], Token::Define));
    match &toks[1] {
        Token::Ident(s) => assert_eq!(s, "x"),
        other => panic!("expected an identifier, got {:?}", other),
    }
    assert!(matches!(toks[2], Token::NewLine));
    assert!(matches!(toks[3], Token::End));
    assert!(matches!(toks[4], Token::NewLine));
}

#[test]
fn error_lines_count_from_one() {
    let src = "define a1 p -> q\nend\n\ndefine b2 p q\nend\n";
    let err = Parser::new(src).parse().expect_err("the second define is broken");
    assert_eq!(err.line, 4);
}

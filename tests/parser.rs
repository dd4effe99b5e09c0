use abnf2lalrpop::grammar::Expected;
use abnf2lalrpop::parser;
use abnf2lalrpop::{render, Pat, Rule};

#[test]
fn strings() {
    let data = [
        r###""""###,
        r###""f""###,
        r###""foo""###,
        r###"r"foo""###,
        r###"r#"foo"#"###,
        r###"r#"f"oo"#"###,
        r###"r#"f""oo"#"###,
        r###"r##"f"#oo"##"###,
        r###"r##"f"测试#oo"##"###,
    ];
    for str in data {
        let src = format!("x = {str}");
        let res = parser::defs(&src);
        match res {
            Ok(_) => (),
            Err(e) => {
                let d = "^";
                let n = e.location.column;
                panic!("{src}\n{d:>n$} {e:?}")
            },
        }
    }
}

#[test]
fn it_works() {
    let src = r#"
        x = "x"
        y = x "foo" extern-rule
          / x x
        "#;
    let dst = r#"
        x: () = {
            "x" => (),
        }
        y: () = {
            x "foo" extern_rule => (),
            x x => (),
        }"#;
    let defs = parser::defs(src).unwrap();
    let out = defs.iter()
        .flat_map(|x| ["\n".into(), x.to_string()])
        .collect::<String>();
    let dst = dst.replace("\n        ", "\n");
    assert_eq!(out, dst);
}

fn atom_of(src: &str) -> String {
    let defs = parser::defs(src).unwrap();
    assert_eq!(defs.len(), 1);
    assert_eq!(defs[0].body.len(), 1);
    match &defs[0].body[0] {
        Pat::List(ps) => match &ps[0] {
            Pat::Atom(a) => a.clone(),
            other => panic!("not an atom: {other:?}"),
        },
        other => panic!("not a list: {other:?}"),
    }
}

#[test]
fn string_literals_are_kept_verbatim() {
    for lit in ["\"\"", "\"a-b\"", "r\"a\"", "r#\"f\"oo\"#", "r##\"f\"#oo\"##", "#\"x\"#", "\"测试\""] {
        assert_eq!(atom_of(&format!("x = {lit}")), lit);
    }
}

#[test]
fn hyphens_become_underscores() {
    let defs = parser::defs("a-b = c-d-e \"f-g\"").unwrap();
    assert_eq!(defs[0].name, "a_b");
    assert_eq!(defs[0].to_string(), "a_b: () = {\n    c_d_e \"f-g\" => (),\n}");
    let again = parser::defs("a_b = c_d_e \"f-g\"").unwrap();
    assert_eq!(again[0].to_string(), defs[0].to_string());
}

#[test]
fn repeat_grouping() {
    let defs = parser::defs("r = *a +(b c) [d] [e f] (g) ()").unwrap();
    assert_eq!(defs[0].to_string(), "r: () = {\n    a* (b c)+ d? (e f)? (g) () => (),\n}");
    let p = Pat::Repeat(vec![Pat::Atom("a".to_string()), Pat::Atom("b".to_string())], '*');
    assert_eq!(p.to_string(), "(a b)*");
    let p = Pat::Repeat(vec![Pat::Atom("a".to_string())], '+');
    assert_eq!(p.to_string(), "a+");
    let p = Pat::Repeat(vec![], '?');
    assert_eq!(p.to_string(), "()?");
}

#[test]
fn order_is_kept() {
    let src = "b = x / y / z\na = 1 / 2;\nc = q";
    let defs = parser::defs(src).unwrap();
    let names: Vec<String> = defs.iter().map(|d| d.name.clone()).collect();
    assert_eq!(names, vec!["b", "a", "c"]);
    assert_eq!(
        render(&defs),
        "grammar;\npub b: () = {\n    x => (),\n    y => (),\n    z => (),\n}\npub a: () = {\n    1 => (),\n    2 => (),\n}\npub c: () = {\n    q => (),\n}\n"
    );
}

#[test]
fn end_to_end_example() {
    let src = "x = \"x\"\ny = x \"foo\" extern-rule\n  / x x\n";
    let defs = parser::defs(src).unwrap();
    assert_eq!(
        render(&defs),
        "grammar;\npub x: () = {\n    \"x\" => (),\n}\npub y: () = {\n    x \"foo\" extern_rule => (),\n    x x => (),\n}\n"
    );
}

#[test]
fn empty_input_has_no_rules() {
    assert!(parser::defs("").unwrap().is_empty());
    assert!(parser::defs(" \n\t ").unwrap().is_empty());
    assert_eq!(render(&Vec::<Rule>::new()), "grammar;\n");
}

#[test]
fn unterminated_string_is_reported_at_its_start() {
    let e = parser::defs("x = \"abc").unwrap_err();
    assert_eq!(e.location.line, 1);
    assert_eq!(e.location.column, 5);
    assert_eq!(e.location.offset, 4);
    assert!(e.expected.contains(&Expected::Str));
    assert!(e.expected.contains(&Expected::Ident));
}

#[test]
fn malformed_rule_is_reported_on_its_line() {
    let e = parser::defs("a = b\nc = )").unwrap_err();
    assert_eq!(e.location.line, 2);
    assert_eq!(e.location.column, 5);
    assert!(e.expected.contains(&Expected::Token('(')));
    assert!(!e.expected.contains(&Expected::Eof));
    let e = parser::defs("a = b\n= d").unwrap_err();
    assert_eq!(e.location.line, 1);
    assert_eq!(e.location.column, 5);
    assert_eq!(Expected::Token('/').description(), "\"/\"");
    assert_eq!(Expected::Eof.description(), "EOF");
    let e = parser::defs("a = (b").unwrap_err();
    assert_eq!(e.location.column, 7);
    assert!(e.expected.contains(&Expected::Token(')')));
}

#[test]
fn raw_prefix_is_not_an_identifier() {
    let e = parser::defs("x = r#abc").unwrap_err();
    assert_eq!(e.location.column, 5);
    assert_eq!(atom_of("x = rx"), "rx");
    assert_eq!(atom_of("x = r"), "r");
}

#[test]
fn expected_items_are_listed_once() {
    let e = parser::defs("x = ").unwrap_err();
    let mut seen = e.expected.clone();
    seen.dedup();
    assert_eq!(seen.len(), e.expected.len());
    assert_eq!(e.location.offset, 4);
}

use igic::ast::{Expression, Term};
use igic::parser::{parse_formula, parse_gic_file};

fn parse_list(input: &str) -> Term {
    // A dummy predicate around the list, e.g. "p(<list>)", then its sole term.
    let wrapped = format!("p({});", input);
    let mut exprs = parse_gic_file(&wrapped).unwrap();
    if let Expression::Proposition(prop) = exprs.pop().unwrap() {
        prop.terms.into_iter().next().unwrap()
    } else {
        panic!("Expected proposition");
    }
}

fn cst(x: &str) -> Term {
    Term::FunctionApplication { name: x.to_string(), args: vec![] }
}

#[test]
fn test_empty_list() {
    assert_eq!(parse_list("[]"), Term::FunctionApplication { name: "empty_list".into(), args: vec![] });
}

#[test]
fn test_plain_list() {
    // [a,b,c] → cons(a, cons(b, cons(c, empty_list()))); lower-case names are constants.
    let t = parse_list("[a,b,c]");
    let expected = Term::FunctionApplication {
        name: "cons".into(),
        args: vec![
            cst("a"),
            Term::FunctionApplication {
                name: "cons".into(),
                args: vec![
                    cst("b"),
                    Term::FunctionApplication {
                        name: "cons".into(),
                        args: vec![cst("c"), Term::FunctionApplication { name: "empty_list".into(), args: vec![] }],
                    },
                ],
            },
        ],
    };
    assert_eq!(t, expected);
}

#[test]
fn test_list_cons_with_list_tail() {
    // [a|[b,c]] → cons(a, cons(b, cons(c, empty_list())))
    let t = parse_list("[a|[b,c]]");
    assert_eq!(t.to_text(), "[a, b, c]");
}

#[test]
fn test_list_cons_with_var_tail() {
    // [H|T] → cons(H, T)
    let t = parse_list("[H|T]");
    assert_eq!(
        t,
        Term::FunctionApplication {
            name: "cons".into(),
            args: vec![Term::Identifier("H".into()), Term::Identifier("T".into())],
        }
    );
}

#[test]
fn precedence_of_connectives() {
    // not binds tighter than and, and than or, or than impl; impl is right-associative.
    let e = parse_formula("not A and B or C impl D impl E").unwrap();
    let a = || Expression::Proposition(igic::ast::Proposition { name: "A".into(), terms: vec![] });
    let p = |n: &str| Expression::Proposition(igic::ast::Proposition { name: n.into(), terms: vec![] });
    let expected = Expression::Implies(
        Box::new(Expression::Or(
            Box::new(Expression::And(Box::new(Expression::Not(Box::new(a()))), Box::new(p("B")))),
            Box::new(p("C")),
        )),
        Box::new(Expression::Implies(Box::new(p("D")), Box::new(p("E")))),
    );
    assert_eq!(e, expected);
}

#[test]
fn knowledge_base_file_with_comments() {
    let text = "// rules\nforall X. P(X) impl Q(X);\nP(a); // a fact\nLength([1, -2], N);";
    let exprs = parse_gic_file(text).unwrap();
    assert_eq!(exprs.len(), 3);
    match &exprs[2] {
        Expression::Proposition(p) => {
            assert_eq!(p.terms[0].to_text(), "[1, -2]");
            assert_eq!(p.terms[1], Term::Identifier("N".into()));
        },
        _ => panic!("Expected proposition"),
    }
}

#[test]
fn parse_errors() {
    assert!(parse_gic_file("P(a)").is_err());
    assert!(parse_formula("P(a) and").is_err());
    assert!(parse_formula("P(a) Q(b)").is_err());
    assert!(parse_formula("P(99999999999999999999)").is_err());
}

#[test]
fn printing_round_trips() {
    let text = "R(f(X, g(a)), [H|T], -7, _Y_1(), c)";
    let e = parse_formula(text).unwrap();
    let printed = match &e {
        Expression::Proposition(p) => {
            let parts: Vec<String> = p.terms.iter().map(|t| t.to_text()).collect();
            format!("R({})", parts.join(", "))
        },
        _ => panic!("Expected proposition"),
    };
    assert_eq!(printed, "R(f(X, g(a)), [H|T], -7, _Y_1(), c)");
    assert_eq!(parse_formula(&printed).unwrap(), e);
}

#[test]
fn parse_print_parse_round_trip() {
    let inputs = [
        "forall X. P(X) impl Q(X)",
        "exists X. Between(1, 3, X)",
        "not (A() and B(a, [1, -2|T])) or bottom",
        "forall X. exists Y. R(X, f(Y), _Z_3()) and not S(Y)",
        "Length(cons(a, cons(b, empty_list())), N)",
    ];
    for text in inputs.iter() {
        let first = parse_formula(text).unwrap();
        let printed = first.to_text();
        let second = parse_formula(&printed).unwrap();
        assert_eq!(first, second, "{}", printed);
    }
}

#[test]
fn quantifier_body_runs_to_the_right() {
    let e = parse_formula("forall X. P(X) impl Q(X)").unwrap();
    assert_eq!(e.to_text(), "(forall X. (P(X) impl Q(X)))");
}

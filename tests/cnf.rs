use igic::ast::{Expression, Proposition, Term};
use igic::clause::{Clause, Literal, Program};
use igic::cnf::{to_cnf, Clausifier};
use igic::errors::GicError;

fn var(x: &str) -> Term {
    Term::Identifier(x.to_string())
}

fn prop(name: &str, terms: Vec<Term>) -> Proposition {
    Proposition { name: name.to_string(), terms }
}

fn atom(name: &str, terms: Vec<Term>) -> Expression {
    Expression::Proposition(prop(name, terms))
}

#[test]
fn test_cnf_forall_impl() {
    let mut clausifier = Clausifier::new();
    let expr = Expression::ForAll(
        "X".to_string(),
        Box::new(Expression::Implies(
            Box::new(Expression::Proposition(Proposition {
                name: "P".to_string(),
                terms: vec![Term::Identifier("X".to_string())],
            })),
            Box::new(Expression::Proposition(Proposition {
                name: "Q".to_string(),
                terms: vec![Term::Identifier("X".to_string())],
            })),
        )),
    );

    let clause = clausifier.clausify(expr).unwrap();

    // Positive literals come first within a clause.
    let expected_program = Program(vec![Clause(vec![
        Literal::Proposition(Proposition {
            name: "Q".to_string(),
            terms: vec![Term::Identifier("X".to_string())],
        }),
        Literal::Not(Proposition {
            name: "P".to_string(),
            terms: vec![Term::Identifier("X".to_string())],
        }),
    ])]);
    assert_eq!(clause, expected_program);
}

#[test]
fn test_cnf_and() {
    let mut clausifier = Clausifier::new();
    let expr = Expression::And(
        Box::new(Expression::Proposition(Proposition {
            name: "P".to_string(),
            terms: vec![Term::Identifier("X".to_string())],
        })),
        Box::new(Expression::Proposition(Proposition {
            name: "Q".to_string(),
            terms: vec![Term::Identifier("Y".to_string())],
        })),
    );

    let program = clausifier.clausify(expr).unwrap();
    let expected_program = Program(vec![
        Clause(vec![Literal::Proposition(Proposition {
            name: "P".to_string(),
            terms: vec![Term::Identifier("X".to_string())],
        })]),
        Clause(vec![Literal::Proposition(Proposition {
            name: "Q".to_string(),
            terms: vec![Term::Identifier("Y".to_string())],
        })]),
    ]);
    assert_eq!(program, expected_program);
}

#[test]
fn test_cnf_deskolem() {
    let mut clausifier = Clausifier::new();
    let expr = Expression::ForAll(
        "X".to_string(),
        Box::new(Expression::Exists(
            "Y".to_string(),
            Box::new(Expression::Proposition(Proposition {
                name: "R".to_string(),
                terms: vec![Term::Identifier("X".to_string()), Term::Identifier("Y".to_string())],
            })),
        )),
    );

    let program = clausifier.clausify(expr).unwrap();

    let expected_program = Program(vec![Clause(vec![Literal::Proposition(Proposition {
        name: "R".to_string(),
        terms: vec![
            Term::Identifier("X".to_string()),
            Term::FunctionApplication {
                name: "_Y_1".to_string(),
                args: vec![Term::Identifier("X".to_string())],
            },
        ],
    })])]);

    assert_eq!(program, expected_program);
}

#[test]
fn test_to_cnf_pipeline() {
    let expr = Expression::Implies(
        Box::new(Expression::Proposition(Proposition {
            name: "P".into(),
            terms: vec![Term::Identifier("x".into())],
        })),
        Box::new(Expression::Proposition(Proposition {
            name: "Q".into(),
            terms: vec![Term::Identifier("x".into())],
        })),
    );

    let cnf_clauses = to_cnf(expr);
    println!("CNF: {:?}", cnf_clauses);
}

#[test]
fn skolem_symbols_of_successive_formulas_differ() {
    let mut c = Clausifier::new();
    let f = || {
        Expression::ForAll(
            "X".to_string(),
            Box::new(Expression::Exists("Y".to_string(), Box::new(atom("R", vec![var("X"), var("Y")])))),
        )
    };
    let p1 = c.clausify(f()).unwrap();
    let p2 = c.clausify(f()).unwrap();
    let head = |p: &Program| match &p.0[0].0[0] {
        Literal::Proposition(q) => q.terms[1].clone(),
        Literal::Not(q) => q.terms[1].clone(),
    };
    assert_eq!(head(&p1), Term::FunctionApplication { name: "_Y_1".to_string(), args: vec![var("X")] });
    assert_eq!(head(&p2), Term::FunctionApplication { name: "_Y_2".to_string(), args: vec![var("X")] });
    assert_eq!(c.next_index(), 3);
}

#[test]
fn existential_without_universal_becomes_a_constant() {
    let expr = Expression::Exists("Y.".to_string(), Box::new(atom("P", vec![var("Y")])));
    let p = to_cnf(expr).unwrap();
    let expected = Program(vec![Clause(vec![Literal::Proposition(prop(
        "P",
        vec![Term::FunctionApplication { name: "_Y_1".to_string(), args: vec![] }],
    ))])]);
    assert_eq!(p, expected);
}

#[test]
fn disjunction_distributes_over_conjunction() {
    // (P or not Q) and R  ... or (S and not T)
    let e = Expression::Or(
        Box::new(Expression::Not(Box::new(atom("A", vec![])))),
        Box::new(Expression::And(Box::new(atom("B", vec![])), Box::new(atom("C", vec![])))),
    );
    let p = to_cnf(e).unwrap();
    let expected = Program(vec![
        Clause(vec![Literal::Proposition(prop("B", vec![])), Literal::Not(prop("A", vec![]))]),
        Clause(vec![Literal::Proposition(prop("C", vec![])), Literal::Not(prop("A", vec![]))]),
    ]);
    assert_eq!(p, expected);
}

#[test]
fn negation_is_pushed_inwards() {
    // not (A and forall X. B(X))  ==  not A or exists X. not B(X)
    let e = Expression::Not(Box::new(Expression::And(
        Box::new(atom("A", vec![])),
        Box::new(Expression::ForAll("X".to_string(), Box::new(atom("B", vec![var("X")])))),
    )));
    let p = to_cnf(e).unwrap();
    let sk = Term::FunctionApplication { name: "_X_1".to_string(), args: vec![] };
    let expected = Program(vec![Clause(vec![Literal::Not(prop("A", vec![])), Literal::Not(prop("B", vec![sk]))])]);
    assert_eq!(p, expected);
}

#[test]
fn bottom_is_not_a_literal() {
    let e = Expression::Bottom;
    assert!(matches!(to_cnf(e), Err(GicError::ClauseError(_))));
}

#[test]
fn add_to_program_accumulates() {
    let mut c = Clausifier::new();
    c.add_to_program(atom("P", vec![var("X")])).unwrap();
    c.add_to_program(Expression::And(Box::new(atom("Q", vec![])), Box::new(atom("R", vec![])))).unwrap();
    assert_eq!(c.get_progam_length(), 3);
    assert_eq!(c.slice_from(1).0.len(), 2);
    assert!(c.add_to_program(Expression::Bottom).is_err());
    assert_eq!(c.get_program().0.len(), 3);
}

#[test]
fn quantifiers_are_pulled_to_the_front() {
    // (forall X. P(X) and Q) and R  becomes  forall X. ((P(X) and Q) and R)
    let e = Expression::And(
        Box::new(Expression::And(
            Box::new(Expression::ForAll("X".to_string(), Box::new(atom("P", vec![var("X")])))),
            Box::new(atom("Q", vec![])),
        )),
        Box::new(atom("R", vec![])),
    );
    let pulled = igic::cnf::distribute_quantifiers(e);
    let expected = Expression::ForAll(
        "X".to_string(),
        Box::new(Expression::And(
            Box::new(Expression::And(Box::new(atom("P", vec![var("X")])), Box::new(atom("Q", vec![])))),
            Box::new(atom("R", vec![])),
        )),
    );
    assert_eq!(pulled, expected);
}

#[test]
fn left_operand_quantifier_is_pulled_first() {
    // (exists X. P(X)) and (forall Y. Q(Y))  becomes  exists X. forall Y. (P(X) and Q(Y))
    let e = Expression::And(
        Box::new(Expression::Exists("X".to_string(), Box::new(atom("P", vec![var("X")])))),
        Box::new(Expression::ForAll("Y".to_string(), Box::new(atom("Q", vec![var("Y")])))),
    );
    let pulled = igic::cnf::distribute_quantifiers(e);
    let expected = Expression::Exists(
        "X".to_string(),
        Box::new(Expression::ForAll(
            "Y".to_string(),
            Box::new(Expression::And(Box::new(atom("P", vec![var("X")])), Box::new(atom("Q", vec![var("Y")])))),
        )),
    );
    assert_eq!(pulled, expected);
    // So X is Skolemized to a constant.
    let e = Expression::And(
        Box::new(Expression::Exists("X".to_string(), Box::new(atom("P", vec![var("X")])))),
        Box::new(Expression::ForAll("Y".to_string(), Box::new(atom("Q", vec![var("Y")])))),
    );
    let p = to_cnf(e).unwrap();
    assert_eq!(
        p.0[0],
        Clause(vec![Literal::Proposition(prop("P", vec![Term::FunctionApplication { name: "_X_1".to_string(), args: vec![] }]))])
    );
}

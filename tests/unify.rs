use igic::ast::{Proposition, Term};
use igic::substitution::apply_substitution;
use igic::unify::{mgu, MguError, Unifiable};

fn var(x: &str) -> Term {
    Term::Identifier(x.to_string())
}

fn fun(f: &str, args: Vec<Term>) -> Term {
    Term::FunctionApplication { name: f.to_string(), args }
}

#[test]
fn test_mgu_decompose() {
    let clause1 = Unifiable::Prop(Proposition {
        name: "P".to_string(),
        terms: vec![Term::Identifier("X".to_string())],
    });
    let clause1_clone = clause1.clone();
    let clause2 = Unifiable::Prop(Proposition {
        name: "P".to_string(),
        terms: vec![Term::FunctionApplication { name: "0".to_string(), args: vec![] }],
    });
    let clause2_clone = clause2.clone();
    let equations = vec![(clause1, clause2)];
    let result = mgu(equations);
    let clause1_sub = apply_substitution(&result.as_ref().unwrap(), &clause1_clone);
    assert_eq!(clause1_sub, clause2_clone);
}

#[test]
fn test_mgu_err1() {
    let clause1 = Unifiable::Term(Term::Identifier("X".to_string()));
    let clause2 = Unifiable::Prop(Proposition {
        name: "P".to_string(),
        terms: vec![Term::FunctionApplication { name: "0".to_string(), args: vec![] }],
    });
    let equations = vec![(clause1, clause2)];
    let result = mgu(equations);
    assert!(result.is_err());
}

#[test]
fn test_mgu_nested_decomp_delete() {
    let clause1 = Unifiable::Term(Term::FunctionApplication {
        name: "f".to_string(),
        args: vec![Term::Identifier("X".to_string())],
    });
    let clause1_clone = clause1.clone();
    let clause2 = Unifiable::Term(Term::FunctionApplication {
        name: "f".to_string(),
        args: vec![Term::FunctionApplication {
            name: "g".to_string(),
            args: vec![Term::Identifier("Y".to_string())],
        }],
    });
    let equations = vec![(clause1, clause2)];
    let result = mgu(equations);
    let clause1_sub = apply_substitution(&result.as_ref().unwrap(), &clause1_clone);
    let expected = Unifiable::Term(Term::FunctionApplication {
        name: "f".to_string(),
        args: vec![Term::FunctionApplication {
            name: "g".to_string(),
            args: vec![Term::Identifier("Y".to_string())],
        }],
    });
    assert_eq!(clause1_sub, expected);
}

#[test]
fn test_mgu_swap() {
    let clause1 = Unifiable::Term(Term::Identifier("X".to_string()));
    let clause2 = Unifiable::Term(Term::FunctionApplication {
        name: "f".to_string(),
        args: vec![Term::Identifier("Y".to_string())],
    });
    let equations = vec![(clause2.clone(), clause1.clone())];
    let result = mgu(equations);
    assert!(result.is_ok());
    let sub = result.unwrap();
    let clause1_sub = apply_substitution(&sub, &clause1);
    assert_eq!(clause1_sub, clause2);
}

#[test]
fn test_trivial_mgu() {
    let clause1 = Unifiable::Term(Term::Identifier("X".to_string()));
    let clause2 = Unifiable::Term(Term::Identifier("X".to_string()));
    let clause3 = Unifiable::Term(Term::FunctionApplication { name: "a".to_string(), args: vec![] });
    let clause4 = Unifiable::Term(Term::FunctionApplication { name: "a".to_string(), args: vec![] });

    let equations = vec![(clause1, clause2), (clause3, clause4)];

    let result = mgu(equations);

    assert!(result.is_ok());
    let sub = result.unwrap();
    assert!(sub.is_empty(), "Expected empty substitution for trivial MGU");
}

#[test]
fn mgu_occurs_check_fails() {
    let eqs = vec![(Unifiable::Term(var("X")), Unifiable::Term(fun("f", vec![var("X")])))];
    assert!(matches!(mgu(eqs), Err(MguError::OccurCheck(_))));
}

#[test]
fn mgu_clash_on_different_symbols() {
    let eqs = vec![(Unifiable::Term(fun("f", vec![var("X")])), Unifiable::Term(fun("g", vec![var("X")])))];
    assert!(matches!(mgu(eqs), Err(MguError::Clash(_))));
    let eqs = vec![(Unifiable::Term(fun("f", vec![var("X")])), Unifiable::Term(fun("f", vec![])))];
    assert!(matches!(mgu(eqs), Err(MguError::Clash(_))));
    let eqs = vec![(Unifiable::Term(Term::Number(1)), Unifiable::Term(Term::Number(2)))];
    assert!(matches!(mgu(eqs), Err(MguError::Clash(_))));
}

#[test]
fn mgu_term_against_proposition() {
    let eqs = vec![(
        Unifiable::Term(fun("a", vec![])),
        Unifiable::Prop(Proposition { name: "P".to_string(), terms: vec![] }),
    )];
    assert!(matches!(mgu(eqs), Err(MguError::UnificationError(_))));
}

#[test]
fn mgu_is_idempotent_and_sound() {
    // f(X, g(Y)) = f(g(Z), X)
    let a = Unifiable::Term(fun("f", vec![var("X"), fun("g", vec![var("Y")])]));
    let b = Unifiable::Term(fun("f", vec![fun("g", vec![var("Z")]), var("X")]));
    let sub = mgu(vec![(a.clone(), b.clone())]).unwrap();
    let ia = apply_substitution(&sub, &a);
    let ib = apply_substitution(&sub, &b);
    assert_eq!(ia, ib);
    assert_eq!(apply_substitution(&sub, &ia), ia);
    // no image mentions a bound variable
    for k in sub.keys() {
        let image = sub.get(&k).unwrap().clone();
        let again = apply_substitution(&sub, &Unifiable::Term(image.clone()));
        assert_eq!(again, Unifiable::Term(image));
    }
}

#[test]
fn mgu_numbers_unify_with_themselves_and_variables() {
    let eqs = vec![
        (Unifiable::Term(Term::Number(7)), Unifiable::Term(Term::Number(7))),
        (Unifiable::Term(var("N")), Unifiable::Term(Term::Number(3))),
    ];
    let sub = mgu(eqs).unwrap();
    assert_eq!(sub.get(&"N".to_string()), Some(&Term::Number(3)));
    assert_eq!(sub.len(), 1);
}

#[test]
fn mgu_error_kind_after_decomposition() {
    // f(X) = f(g(X)): the occurs check fails once the arguments are split.
    let eqs = vec![(Unifiable::Term(fun("f", vec![var("X")])), Unifiable::Term(fun("f", vec![fun("g", vec![var("X")])])))];
    assert!(matches!(mgu(eqs), Err(MguError::OccurCheck(_))));
    // f(a) = f(b): the constants clash.
    let eqs = vec![(Unifiable::Term(fun("f", vec![fun("a", vec![])])), Unifiable::Term(fun("f", vec![fun("b", vec![])])))];
    assert!(matches!(mgu(eqs), Err(MguError::Clash(_))));
}

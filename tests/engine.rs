use igic::ast::{Expression, Proposition, Term};
use igic::builtins::{built_in_preds, Dispatch};
use igic::clause::{Clause, Literal, Program};
use igic::cnf::Clausifier;
use igic::resolution::{Resolver, StartError, Step};
use igic::substitution::Substitution;

fn var(x: &str) -> Term {
    Term::Identifier(x.to_string())
}

fn cst(x: &str) -> Term {
    Term::FunctionApplication { name: x.to_string(), args: vec![] }
}

fn num(n: i64) -> Term {
    Term::Number(n)
}

fn cons(h: Term, t: Term) -> Term {
    Term::FunctionApplication { name: "cons".to_string(), args: vec![h, t] }
}

fn nil() -> Term {
    cst("empty_list")
}

fn atom(name: &str, terms: Vec<Term>) -> Expression {
    Expression::Proposition(Proposition { name: name.to_string(), terms })
}

/// `forall X. P(X) impl Q(X); P(a);`
fn knowledge_base() -> Clausifier {
    let mut c = Clausifier::new();
    let rule = Expression::ForAll(
        "X".to_string(),
        Box::new(Expression::Implies(Box::new(atom("P", vec![var("X")])), Box::new(atom("Q", vec![var("X")])))),
    );
    c.add_to_program(rule).unwrap();
    c.add_to_program(atom("P", vec![cst("a")])).unwrap();
    c
}

/// Runs `query` against the knowledge base and collects up to `limit` answers.
fn answers(query: Expression, limit: usize) -> Vec<Vec<(String, Term)>> {
    let mut c = knowledge_base();
    let goal_program = c.clausify(Expression::Not(Box::new(query))).unwrap();
    let goal = goal_program.get_clause(0).unwrap().clone();
    let mut r = Resolver::start(c.get_program(), &goal).unwrap();
    let mut out = Vec::new();
    for _ in 0..100_000 {
        match r.step(c.get_program()) {
            Step::Answer(b) => {
                out.push(b);
                if out.len() >= limit {
                    return out;
                }
            },
            Step::Exhausted => return out,
            Step::Working => {},
            Step::Fatal(e) => panic!("fatal: {:?}", e),
        }
    }
    panic!("the search did not end");
}

fn some(v: &str, e: Expression) -> Expression {
    Expression::Exists(v.to_string(), Box::new(e))
}

#[test]
fn deterministic_single_answer() {
    let a = answers(atom("Q", vec![cst("a")]), 10);
    assert_eq!(a, vec![vec![]]);
}

#[test]
fn existential_binding() {
    let a = answers(some("X", atom("Q", vec![var("X")])), 10);
    assert_eq!(a, vec![vec![("X".to_string(), cst("a"))]]);
}

#[test]
fn arithmetic_answer() {
    let a = answers(some("Z", atom("Add", vec![num(2), num(3), var("Z")])), 10);
    assert_eq!(a, vec![vec![("Z".to_string(), num(5))]]);
    let a = answers(some("Z", atom("Mod", vec![num(-7), num(2), var("Z")])), 10);
    assert_eq!(a, vec![vec![("Z".to_string(), num(-1))]]);
    let a = answers(some("Z", atom("Div", vec![num(-7), num(2), var("Z")])), 10);
    assert_eq!(a, vec![vec![("Z".to_string(), num(-3))]]);
    let a = answers(atom("Mul", vec![num(4), num(5), num(20)]), 10);
    assert_eq!(a, vec![vec![]]);
    let a = answers(atom("Sub", vec![num(4), num(5), num(0)]), 10);
    assert_eq!(a.len(), 0);
}

#[test]
fn range_enumeration() {
    let a = answers(some("X", atom("Between", vec![num(1), num(3), var("X")])), 10);
    assert_eq!(
        a,
        vec![
            vec![("X".to_string(), num(1))],
            vec![("X".to_string(), num(2))],
            vec![("X".to_string(), num(3))],
        ]
    );
}

#[test]
fn between_single_value() {
    let a = answers(some("X", atom("Between", vec![num(3), num(3), var("X")])), 10);
    assert_eq!(a, vec![vec![("X".to_string(), num(3))]]);
}

#[test]
fn between_empty_range() {
    let a = answers(some("X", atom("Between", vec![num(5), num(3), var("X")])), 10);
    assert_eq!(a.len(), 0);
}

#[test]
fn elem_of_empty_list() {
    let a = answers(some("X", atom("Elem", vec![nil(), var("X")])), 10);
    assert_eq!(a.len(), 0);
}

#[test]
fn elem_enumerates_head_first() {
    let l = cons(cst("a"), cons(cst("b"), nil()));
    let a = answers(some("X", atom("Elem", vec![l, var("X")])), 10);
    assert_eq!(a, vec![vec![("X".to_string(), cst("a"))], vec![("X".to_string(), cst("b"))]]);
}

#[test]
fn list_length_bidirectional() {
    let l = cons(cst("a"), cons(cst("b"), nil()));
    let a = answers(some("N", atom("Length", vec![l, var("N")])), 10);
    assert_eq!(a, vec![vec![("N".to_string(), num(2))]]);
    let a = answers(some("L", atom("Length", vec![var("L"), num(2)])), 10);
    assert_eq!(a, vec![vec![("L".to_string(), cons(var("E0_1"), cons(var("E1_1"), nil())))]]);
}

#[test]
fn length_zero_is_the_empty_list() {
    assert_eq!(answers(atom("Length", vec![nil(), num(0)]), 10), vec![vec![]]);
    assert_eq!(answers(atom("Length", vec![cons(cst("a"), nil()), num(0)]), 10).len(), 0);
    let a = answers(some("L", atom("Length", vec![var("L"), num(0)])), 10);
    assert_eq!(a, vec![vec![("L".to_string(), nil())]]);
}

#[test]
fn length_with_both_free_enumerates_lengths() {
    let q = some("L", some("N", atom("Length", vec![var("L"), var("N")])));
    let a = answers(q, 3);
    assert_eq!(a.len(), 3);
    assert_eq!(a[0], vec![("L".to_string(), nil()), ("N".to_string(), num(0))]);
    assert_eq!(a[1], vec![("L".to_string(), cons(var("E0_3"), nil())), ("N".to_string(), num(1))]);
    assert_eq!(a[2][1], ("N".to_string(), num(2)));
}

#[test]
fn comparisons_and_equality() {
    assert_eq!(answers(atom("Lt", vec![num(1), num(2)]), 10), vec![vec![]]);
    assert_eq!(answers(atom("Gt_eq", vec![num(1), num(2)]), 10).len(), 0);
    assert_eq!(answers(atom("Diff_int", vec![num(1), num(2)]), 10), vec![vec![]]);
    assert_eq!(answers(atom("Eq", vec![cst("a"), cst("a")]), 10), vec![vec![]]);
    assert_eq!(answers(atom("Diff", vec![cst("a"), cst("a")]), 10).len(), 0);
    assert_eq!(answers(some("X", atom("Var", vec![var("X")])), 10), vec![vec![]]);
    assert_eq!(answers(atom("Is_list", vec![cons(cst("a"), nil())]), 10), vec![vec![]]);
    assert_eq!(answers(atom("Is_list", vec![cons(cst("a"), cst("b"))]), 10).len(), 0);
}

#[test]
fn division_by_zero_is_fatal() {
    let goal = Clause(vec![Literal::Not(Proposition {
        name: "Div".to_string(),
        terms: vec![num(1), num(0), var("Z")],
    })]);
    let sub = Substitution::new();
    let d = built_in_preds(&goal, &goal.0[0], &sub, "_1");
    assert!(matches!(d, Dispatch::Fatal(_)));
}

#[test]
fn resolver_refuses_non_horn_program() {
    let p = Program(vec![Clause(vec![
        Literal::Proposition(Proposition { name: "A".to_string(), terms: vec![] }),
        Literal::Proposition(Proposition { name: "B".to_string(), terms: vec![] }),
    ])]);
    let goal = Clause(vec![Literal::Not(Proposition { name: "A".to_string(), terms: vec![] })]);
    assert_eq!(Resolver::start(&p, &goal).err(), Some(StartError::NotHorn));
    let empty = Program(vec![]);
    assert_eq!(Resolver::start(&empty, &goal).err(), Some(StartError::EmptyProgram));
    assert_eq!(Resolver::start(&p, &Clause(vec![])).err(), Some(StartError::EmptyGoal));
    let not_goal = Clause(vec![Literal::Proposition(Proposition { name: "A".to_string(), terms: vec![] })]);
    assert_eq!(Resolver::start(&p, &not_goal).err(), Some(StartError::NotAGoal));
}

#[test]
fn renamed_clause_uses_are_apart() {
    let c = Clause(vec![Literal::Proposition(Proposition { name: "P".to_string(), terms: vec![var("X")] })]);
    let a = c.suffix_vars("_1");
    let b = c.suffix_vars("_2");
    assert_eq!(a.fv(), vec!["X_1".to_string()]);
    assert_eq!(b.fv(), vec!["X_2".to_string()]);
}

#[test]
fn skolemization_smoke_test() {
    let mut c = Clausifier::new();
    let e = Expression::ForAll(
        "X".to_string(),
        Box::new(Expression::Exists("Y".to_string(), Box::new(atom("R", vec![var("X"), var("Y")])))),
    );
    let p = c.clausify(e).unwrap();
    assert_eq!(p.0.len(), 1);
    assert_eq!(
        p.0[0],
        Clause(vec![Literal::Proposition(Proposition {
            name: "R".to_string(),
            terms: vec![var("X"), Term::FunctionApplication { name: "_Y_1".to_string(), args: vec![var("X")] }],
        })])
    );
}

#[test]
fn binary_resolvent_on_first_complementary_pair() {
    let p = |n: &str, t: Vec<Term>| Proposition { name: n.to_string(), terms: t };
    // {Q(X), ¬P(X)} and {P(a)}
    let c1 = Clause(vec![Literal::Proposition(p("Q", vec![var("X")])), Literal::Not(p("P", vec![var("X")]))]);
    let c2 = Clause(vec![Literal::Proposition(p("P", vec![cst("a")]))]);
    let (c, s) = igic::resolution::resolvent(&c1, &c2).unwrap();
    assert_eq!(c, Clause(vec![Literal::Proposition(p("Q", vec![cst("a")]))]));
    assert_eq!(s.get(&"X".to_string()), Some(&cst("a")));
    let c3 = Clause(vec![Literal::Proposition(p("P", vec![cst("b")]))]);
    let c4 = Clause(vec![Literal::Not(p("P", vec![cst("a")]))]);
    assert!(igic::resolution::resolvent(&c3, &c4).is_none());
}

#[test]
fn printing_programs() {
    let mut c = knowledge_base();
    let text = c.to_str_from(0);
    assert_eq!(text, "{\n  {Q(X), ¬P(X)},\n  {P(a)},\n}\n");
    assert_eq!(c.to_str_from(1), "{\n  {P(a)},\n}\n");
    c.add_to_program(atom("R", vec![num(-3), cons(var("H"), var("T"))])).unwrap();
    assert_eq!(c.to_str_from(2), "{\n  {R(-3, [H|T])},\n}\n");
}

#[test]
fn list_library_append_and_reverse() {
    let library = "\
forall L. Append([], L, L);
forall H. forall T. forall L. forall R. Append(T, L, R) impl Append([H|T], L, [H|R]);
forall A. Rev([], A, A);
forall H. forall T. forall A. forall R. Rev(T, [H|A], R) impl Rev([H|T], A, R);
forall L. forall R. Rev(L, [], R) impl Reverse(L, R);
";
    let mut c = Clausifier::new();
    for e in igic::parser::parse_gic_file(library).unwrap() {
        c.add_to_program(e).unwrap();
    }
    let run = |c: &mut Clausifier, q: &str| -> Vec<Vec<(String, Term)>> {
        let e = igic::parser::parse_formula(q).unwrap();
        let g = c.clausify(Expression::Not(Box::new(e))).unwrap();
        let goal = g.get_clause(0).unwrap().clone();
        let mut r = Resolver::start(c.get_program(), &goal).unwrap();
        let mut out = Vec::new();
        for _ in 0..100_000 {
            match r.step(c.get_program()) {
                Step::Answer(b) => out.push(b),
                Step::Exhausted => return out,
                Step::Working => {},
                Step::Fatal(e) => panic!("fatal: {:?}", e),
            }
        }
        panic!("the search did not end");
    };
    let a = run(&mut c, "exists X. Append([a, b], [c], X)");
    assert_eq!(a.len(), 1);
    assert_eq!(a[0][0].1.to_text(), "[a, b, c]");
    let a = run(&mut c, "exists R. Reverse([1, 2, 3], R)");
    assert_eq!(a.len(), 1);
    assert_eq!(a[0][0].1.to_text(), "[3, 2, 1]");
    let a = run(&mut c, "exists X. exists Y. Append(X, Y, [a, b])");
    assert_eq!(a.len(), 3);
}

#[test]
fn length_lists_use_new_variables() {
    // The list's variables carry the use number, so they differ from the query's E0.
    let a = answers(some("E0", atom("Length", vec![var("E0"), num(1)])), 10);
    assert_eq!(a, vec![vec![("E0".to_string(), cons(var("E0_1"), nil()))]]);
    // Two Length goals in one query get different variables.
    let q = some(
        "L",
        some(
            "M",
            Expression::And(
                Box::new(atom("Length", vec![var("L"), num(1)])),
                Box::new(atom("Length", vec![var("M"), num(1)])),
            ),
        ),
    );
    let a = answers(q, 10);
    assert_eq!(a.len(), 1);
    assert_ne!(a[0][0].1, a[0][1].1);
    let a = answers(some("E0", atom("Length", vec![var("E0"), num(0)])), 10);
    assert_eq!(a, vec![vec![("E0".to_string(), nil())]]);
}

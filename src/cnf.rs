use vstd::prelude::*;

use crate::ast::{expr_view, Expression, Proposition, SExpr};
use crate::clause::{lits_view, neg_lits, pos_lits, Clause, Literal, Program, SLit};
use crate::errors::GicError;
use crate::skolem::{desk, SkolemContext};

verus! {

/// Number of connectives, quantifiers and atoms of a formula.
pub open spec fn ssize(e: SExpr) -> nat
    decreases e,
{
    match e {
        SExpr::And(a, b) => 1 + ssize(*a) + ssize(*b),
        SExpr::Or(a, b) => 1 + ssize(*a) + ssize(*b),
        SExpr::Implies(a, b) => 1 + ssize(*a) + ssize(*b),
        SExpr::Not(a) => 1 + ssize(*a),
        SExpr::Exists(_, a) => 1 + ssize(*a),
        SExpr::ForAll(_, a) => 1 + ssize(*a),
        _ => 1,
    }
}

/// `A ⇒ B` rewritten to `¬A ∨ B` everywhere.
pub open spec fn elim(e: SExpr) -> SExpr
    decreases e,
{
    match e {
        SExpr::Implies(a, b) => SExpr::Or(
            Box::new(SExpr::Not(Box::new(elim(*a)))),
            Box::new(elim(*b)),
        ),
        SExpr::And(a, b) => SExpr::And(Box::new(elim(*a)), Box::new(elim(*b))),
        SExpr::Or(a, b) => SExpr::Or(Box::new(elim(*a)), Box::new(elim(*b))),
        SExpr::Not(a) => SExpr::Not(Box::new(elim(*a))),
        SExpr::Exists(v, a) => SExpr::Exists(v, Box::new(elim(*a))),
        SExpr::ForAll(v, a) => SExpr::ForAll(v, Box::new(elim(*a))),
        _ => e,
    }
}

/// Negations pushed down to the atoms, by De Morgan, quantifier duality and
/// double-negation elimination.
pub open spec fn nnf(e: SExpr) -> SExpr
    decreases e,
{
    match e {
        SExpr::Not(inner) => nnf_neg(*inner),
        SExpr::And(a, b) => SExpr::And(Box::new(nnf(*a)), Box::new(nnf(*b))),
        SExpr::Or(a, b) => SExpr::Or(Box::new(nnf(*a)), Box::new(nnf(*b))),
        SExpr::Exists(v, a) => SExpr::Exists(v, Box::new(nnf(*a))),
        SExpr::ForAll(v, a) => SExpr::ForAll(v, Box::new(nnf(*a))),
        _ => e,
    }
}

/// The negation normal form of `¬e`.
pub open spec fn nnf_neg(e: SExpr) -> SExpr
    decreases e,
{
    match e {
        SExpr::And(a, b) => SExpr::Or(Box::new(nnf_neg(*a)), Box::new(nnf_neg(*b))),
        SExpr::Or(a, b) => SExpr::And(Box::new(nnf_neg(*a)), Box::new(nnf_neg(*b))),
        SExpr::Not(x) => nnf(*x),
        SExpr::ForAll(v, x) => SExpr::Exists(v, Box::new(nnf_neg(*x))),
        SExpr::Exists(v, x) => SExpr::ForAll(v, Box::new(nnf_neg(*x))),
        _ => SExpr::Not(Box::new(e)),
    }
}

/// Quantifiers pulled out of conjunctions and disjunctions, repeatedly: each
/// operand is pulled first, then the quantifiers of both go above the connective.
pub open spec fn pull(e: SExpr) -> SExpr
    decreases e,
{
    match e {
        SExpr::And(a, b) => pull_and(pull(*a), pull(*b)),
        SExpr::Or(a, b) => pull_or(pull(*a), pull(*b)),
        SExpr::Exists(x, a) => SExpr::Exists(x, Box::new(pull(*a))),
        SExpr::ForAll(x, a) => SExpr::ForAll(x, Box::new(pull(*a))),
        _ => e,
    }
}

/// The quantifiers of the prenex formulas `a` and `b` pulled above their
/// conjunction: the left operand's quantifiers first, then the right one's.
pub open spec fn pull_and(a: SExpr, b: SExpr) -> SExpr
    decreases a, b,
{
    match a {
        SExpr::ForAll(x, a1) => SExpr::ForAll(x, Box::new(pull_and(*a1, b))),
        SExpr::Exists(x, a1) => SExpr::Exists(x, Box::new(pull_and(*a1, b))),
        _ => match b {
            SExpr::ForAll(x, b1) => SExpr::ForAll(x, Box::new(pull_and(a, *b1))),
            SExpr::Exists(x, b1) => SExpr::Exists(x, Box::new(pull_and(a, *b1))),
            _ => SExpr::And(Box::new(a), Box::new(b)),
        },
    }
}

/// The quantifiers of the prenex formulas `a` and `b` pulled above their
/// disjunction: the left operand's quantifiers first, then the right one's.
pub open spec fn pull_or(a: SExpr, b: SExpr) -> SExpr
    decreases a, b,
{
    match a {
        SExpr::ForAll(x, a1) => SExpr::ForAll(x, Box::new(pull_or(*a1, b))),
        SExpr::Exists(x, a1) => SExpr::Exists(x, Box::new(pull_or(*a1, b))),
        _ => match b {
            SExpr::ForAll(x, b1) => SExpr::ForAll(x, Box::new(pull_or(a, *b1))),
            SExpr::Exists(x, b1) => SExpr::Exists(x, Box::new(pull_or(a, *b1))),
            _ => SExpr::Or(Box::new(a), Box::new(b)),
        },
    }
}

/// A formula without quantifiers.
pub open spec fn qfree(e: SExpr) -> bool
    decreases e,
{
    match e {
        SExpr::Exists(_, _) => false,
        SExpr::ForAll(_, _) => false,
        SExpr::And(a, b) => qfree(*a) && qfree(*b),
        SExpr::Or(a, b) => qfree(*a) && qfree(*b),
        SExpr::Implies(a, b) => qfree(*a) && qfree(*b),
        SExpr::Not(a) => qfree(*a),
        _ => true,
    }
}

/// A prenex formula: a prefix of quantifiers over a formula without any.
pub open spec fn prenex(e: SExpr) -> bool
    decreases e,
{
    match e {
        SExpr::Exists(_, a) => prenex(*a),
        SExpr::ForAll(_, a) => prenex(*a),
        _ => qfree(e),
    }
}

/// No quantifier stands under a negation or an implication, as in negation normal form.
pub open spec fn quantifiers_outside(e: SExpr) -> bool
    decreases e,
{
    match e {
        SExpr::Exists(_, a) => quantifiers_outside(*a),
        SExpr::ForAll(_, a) => quantifiers_outside(*a),
        SExpr::And(a, b) => quantifiers_outside(*a) && quantifiers_outside(*b),
        SExpr::Or(a, b) => quantifiers_outside(*a) && quantifiers_outside(*b),
        _ => qfree(e),
    }
}

/// A formula without implications.
pub open spec fn no_impl(e: SExpr) -> bool
    decreases e,
{
    match e {
        SExpr::Implies(_, _) => false,
        SExpr::And(a, b) => no_impl(*a) && no_impl(*b),
        SExpr::Or(a, b) => no_impl(*a) && no_impl(*b),
        SExpr::Not(a) => no_impl(*a),
        SExpr::Exists(_, a) => no_impl(*a),
        SExpr::ForAll(_, a) => no_impl(*a),
        _ => true,
    }
}

pub proof fn lemma_elim_no_impl(e: SExpr)
    ensures
        no_impl(elim(e)),
    decreases e,
{
    reveal_with_fuel(no_impl, 3);
    match e {
        SExpr::Implies(a, b) => {
            lemma_elim_no_impl(*a);
            lemma_elim_no_impl(*b);
        },
        SExpr::And(a, b) => {
            lemma_elim_no_impl(*a);
            lemma_elim_no_impl(*b);
        },
        SExpr::Or(a, b) => {
            lemma_elim_no_impl(*a);
            lemma_elim_no_impl(*b);
        },
        SExpr::Not(a) => lemma_elim_no_impl(*a),
        SExpr::Exists(_, a) => lemma_elim_no_impl(*a),
        SExpr::ForAll(_, a) => lemma_elim_no_impl(*a),
        _ => {},
    }
}

/// Negation normal form keeps every quantifier outside negations.
pub proof fn lemma_nnf_outside(e: SExpr)
    requires
        no_impl(e),
    ensures
        quantifiers_outside(nnf(e)),
        quantifiers_outside(nnf_neg(e)),
    decreases e,
{
    reveal_with_fuel(qfree, 2);
    reveal_with_fuel(quantifiers_outside, 2);
    match e {
        SExpr::And(a, b) => {
            lemma_nnf_outside(*a);
            lemma_nnf_outside(*b);
        },
        SExpr::Or(a, b) => {
            lemma_nnf_outside(*a);
            lemma_nnf_outside(*b);
        },
        SExpr::Not(a) => lemma_nnf_outside(*a),
        SExpr::Exists(_, a) => lemma_nnf_outside(*a),
        SExpr::ForAll(_, a) => lemma_nnf_outside(*a),
        _ => {},
    }
}

pub proof fn lemma_merge_prenex(a: SExpr, b: SExpr)
    requires
        prenex(a),
        prenex(b),
    ensures
        prenex(pull_and(a, b)),
        prenex(pull_or(a, b)),
    decreases a, b,
{
    match a {
        SExpr::ForAll(_, a1) => lemma_merge_prenex(*a1, b),
        SExpr::Exists(_, a1) => lemma_merge_prenex(*a1, b),
        _ => match b {
            SExpr::ForAll(_, b1) => lemma_merge_prenex(a, *b1),
            SExpr::Exists(_, b1) => lemma_merge_prenex(a, *b1),
            _ => {},
        },
    }
}

/// Pulling the quantifiers out of a formula whose quantifiers stand outside
/// every negation gives a prenex formula.
pub proof fn lemma_pull_prenex(e: SExpr)
    requires
        quantifiers_outside(e),
    ensures
        prenex(pull(e)),
    decreases e,
{
    match e {
        SExpr::And(a, b) => {
            lemma_pull_prenex(*a);
            lemma_pull_prenex(*b);
            lemma_merge_prenex(pull(*a), pull(*b));
        },
        SExpr::Or(a, b) => {
            lemma_pull_prenex(*a);
            lemma_pull_prenex(*b);
            lemma_merge_prenex(pull(*a), pull(*b));
        },
        SExpr::Exists(_, a) => lemma_pull_prenex(*a),
        SExpr::ForAll(_, a) => lemma_pull_prenex(*a),
        _ => {},
    }
}

/// Every universal quantifier removed.
pub open spec fn strip(e: SExpr) -> SExpr
    decreases e,
{
    match e {
        SExpr::ForAll(_, a) => strip(*a),
        SExpr::And(a, b) => SExpr::And(Box::new(strip(*a)), Box::new(strip(*b))),
        SExpr::Or(a, b) => SExpr::Or(Box::new(strip(*a)), Box::new(strip(*b))),
        SExpr::Not(a) => SExpr::Not(Box::new(strip(*a))),
        _ => e,
    }
}

/// A clause with its positive literals moved before its negative ones.
pub open spec fn order(c: Seq<SLit>) -> Seq<SLit> {
    pos_lits(c) + neg_lits(c)
}

/// Every clause of `l` joined with every clause of `r`, in order.
pub open spec fn cross(l: Seq<Seq<SLit>>, r: Seq<Seq<SLit>>) -> Seq<Seq<SLit>>
    decreases l.len(),
{
    if l.len() == 0 {
        Seq::empty()
    } else {
        cross(l.drop_last(), r) + Seq::new(r.len(), |j: int| order(l.last() + r[j]))
    }
}

/// The literal that a formula is, if it is one.
pub open spec fn as_literal(e: SExpr) -> Option<SLit> {
    match e {
        SExpr::Prop(p) => Some(SLit::Pos(p)),
        SExpr::Not(a) => match *a {
            SExpr::Prop(p) => Some(SLit::Neg(p)),
            _ => None,
        },
        _ => None,
    }
}

/// The clauses of a quantifier-free formula in negation normal form: `∧`
/// concatenates, `∨` distributes; `None` when a leaf is not a literal.
pub open spec fn flat(e: SExpr) -> Option<Seq<Seq<SLit>>>
    decreases e,
{
    match e {
        SExpr::And(a, b) => match (flat(*a), flat(*b)) {
            (Some(l), Some(r)) => Some(l + r),
            _ => None,
        },
        SExpr::Or(a, b) => match (flat(*a), flat(*b)) {
            (Some(l), Some(r)) => Some(cross(l, r)),
            _ => None,
        },
        _ => match as_literal(e) {
            Some(lit) => Some(seq![seq![lit]]),
            None => None,
        },
    }
}

/// The clauses of `e` under the clause index `id`: the whole pipeline.
pub open spec fn clauses_of(e: SExpr, id: nat) -> Option<Seq<Seq<SLit>>> {
    flat(strip(desk(pull(nnf(elim(e))), Seq::empty(), Map::empty(), id)))
}

pub proof fn lemma_ssize_pos(e: SExpr)
    ensures
        ssize(e) >= 1,
{
}

pub fn eliminate_implications(expr: Expression) -> (r: Expression)
    ensures
        r@ == elim(expr@),
        no_impl(r@),
    decreases expr,
{
    proof {
        reveal_with_fuel(expr_view, 3);
        lemma_elim_no_impl(expr@);
    }
    match expr {
        Expression::Implies(a, b) => Expression::Or(
            Box::new(Expression::Not(Box::new(eliminate_implications(*a)))),
            Box::new(eliminate_implications(*b)),
        ),
        Expression::And(a, b) => Expression::And(
            Box::new(eliminate_implications(*a)),
            Box::new(eliminate_implications(*b)),
        ),
        Expression::Or(a, b) => Expression::Or(
            Box::new(eliminate_implications(*a)),
            Box::new(eliminate_implications(*b)),
        ),
        Expression::Not(inner) => Expression::Not(Box::new(eliminate_implications(*inner))),
        Expression::Exists(var, inner) => Expression::Exists(
            var,
            Box::new(eliminate_implications(*inner)),
        ),
        Expression::ForAll(var, inner) => Expression::ForAll(
            var,
            Box::new(eliminate_implications(*inner)),
        ),
        other => other,
    }
}

pub fn to_nnf(expr: Expression) -> (r: Expression)
    ensures
        r@ == nnf(expr@),
        no_impl(expr@) ==> quantifiers_outside(r@),
    decreases ssize(expr@),
{
    proof {
        reveal_with_fuel(expr_view, 3);
        reveal_with_fuel(ssize, 3);
        reveal_with_fuel(nnf, 2);
        reveal_with_fuel(nnf_neg, 2);
        if no_impl(expr@) {
            lemma_nnf_outside(expr@);
        }
    }
    match expr {
        Expression::Not(inner) => match *inner {
            Expression::And(a, b) => Expression::Or(
                Box::new(to_nnf(Expression::Not(a))),
                Box::new(to_nnf(Expression::Not(b))),
            ),
            Expression::Or(a, b) => Expression::And(
                Box::new(to_nnf(Expression::Not(a))),
                Box::new(to_nnf(Expression::Not(b))),
            ),
            Expression::Not(e) => to_nnf(*e),
            Expression::ForAll(v, e) => Expression::Exists(
                v,
                Box::new(to_nnf(Expression::Not(e))),
            ),
            Expression::Exists(v, e) => Expression::ForAll(
                v,
                Box::new(to_nnf(Expression::Not(e))),
            ),
            e => Expression::Not(Box::new(to_nnf(e))),
        },
        Expression::And(a, b) => Expression::And(Box::new(to_nnf(*a)), Box::new(to_nnf(*b))),
        Expression::Or(a, b) => Expression::Or(Box::new(to_nnf(*a)), Box::new(to_nnf(*b))),
        Expression::Exists(v, e) => Expression::Exists(v, Box::new(to_nnf(*e))),
        Expression::ForAll(v, e) => Expression::ForAll(v, Box::new(to_nnf(*e))),
        other => other,
    }
}

/// Pulls the quantifiers out of conjunctions and disjunctions until they all
/// stand in front: the result is prenex when no quantifier stands under a
/// negation or an implication.
pub fn distribute_quantifiers(expr: Expression) -> (r: Expression)
    ensures
        r@ == pull(expr@),
        quantifiers_outside(expr@) ==> prenex(r@),
    decreases expr,
{
    proof {
        reveal_with_fuel(expr_view, 2);
        if quantifiers_outside(expr@) {
            lemma_pull_prenex(expr@);
        }
    }
    match expr {
        Expression::And(a, b) => {
            let l = distribute_quantifiers(*a);
            let r = distribute_quantifiers(*b);
            distribute_and(l, r)
        },
        Expression::Or(a, b) => {
            let l = distribute_quantifiers(*a);
            let r = distribute_quantifiers(*b);
            distribute_or(l, r)
        },
        Expression::Exists(x, e) => Expression::Exists(x, Box::new(distribute_quantifiers(*e))),
        Expression::ForAll(x, e) => Expression::ForAll(x, Box::new(distribute_quantifiers(*e))),
        other => other,
    }
}

fn distribute_and(a: Expression, b: Expression) -> (r: Expression)
    ensures
        r@ == pull_and(a@, b@),
    decreases ssize(a@) + ssize(b@),
{
    proof {
        reveal_with_fuel(expr_view, 2);
        lemma_ssize_pos(a@);
        lemma_ssize_pos(b@);
    }
    match a {
        Expression::ForAll(x, a1) => Expression::ForAll(x, Box::new(distribute_and(*a1, b))),
        Expression::Exists(x, a1) => Expression::Exists(x, Box::new(distribute_and(*a1, b))),
        a => match b {
            Expression::ForAll(x, b1) => Expression::ForAll(x, Box::new(distribute_and(a, *b1))),
            Expression::Exists(x, b1) => Expression::Exists(x, Box::new(distribute_and(a, *b1))),
            b => Expression::And(Box::new(a), Box::new(b)),
        },
    }
}

fn distribute_or(a: Expression, b: Expression) -> (r: Expression)
    ensures
        r@ == pull_or(a@, b@),
    decreases ssize(a@) + ssize(b@),
{
    proof {
        reveal_with_fuel(expr_view, 2);
        lemma_ssize_pos(a@);
        lemma_ssize_pos(b@);
    }
    match a {
        Expression::ForAll(x, a1) => Expression::ForAll(x, Box::new(distribute_or(*a1, b))),
        Expression::Exists(x, a1) => Expression::Exists(x, Box::new(distribute_or(*a1, b))),
        a => match b {
            Expression::ForAll(x, b1) => Expression::ForAll(x, Box::new(distribute_or(a, *b1))),
            Expression::Exists(x, b1) => Expression::Exists(x, Box::new(distribute_or(a, *b1))),
            b => Expression::Or(Box::new(a), Box::new(b)),
        },
    }
}

pub fn remove_universal_quantifiers(expr: Expression) -> (r: Expression)
    ensures
        r@ == strip(expr@),
    decreases expr,
{
    match expr {
        Expression::ForAll(_, inner) => remove_universal_quantifiers(*inner),
        Expression::And(a, b) => Expression::And(
            Box::new(remove_universal_quantifiers(*a)),
            Box::new(remove_universal_quantifiers(*b)),
        ),
        Expression::Or(a, b) => Expression::Or(
            Box::new(remove_universal_quantifiers(*a)),
            Box::new(remove_universal_quantifiers(*b)),
        ),
        Expression::Not(e) => Expression::Not(Box::new(remove_universal_quantifiers(*e))),
        other => other,
    }
}

fn clause_error(msg: &str) -> (r: GicError)
    ensures
        r is ClauseError,
{
    GicError::ClauseError(String::from_str(msg))
}

/// The literal that `expr` is; a `ClauseError` when it is none.
pub fn expr_to_literal(expr: Expression) -> (r: Result<Literal, GicError>)
    ensures
        match r {
            Ok(l) => as_literal(expr@) == Some(l@),
            Err(e) => as_literal(expr@) is None && e is ClauseError,
        },
{
    proof {
        reveal_with_fuel(expr_view, 2);
    }
    match expr {
        Expression::Proposition(p) => Ok(Literal::Proposition(p)),
        Expression::Not(inner) => match *inner {
            Expression::Proposition(p) => Ok(Literal::Not(p)),
            _ => Err(clause_error("negation applied to a formula that is not a proposition")),
        },
        _ => Err(clause_error("a formula that is not a literal stands where a literal must")),
    }
}

/// `c` with its positive literals first, each group in its order.
fn order_literals(c: Vec<Literal>) -> (r: Vec<Literal>)
    ensures
        lits_view(r@) == order(lits_view(c@)),
{
    let ghost cv = lits_view(c@);
    let mut positives: Vec<Literal> = Vec::new();
    let mut negatives: Vec<Literal> = Vec::new();
    let mut i: usize = 0;
    while i < c.len()
        invariant
            cv == lits_view(c@),
            i <= c@.len(),
            lits_view(positives@) == pos_lits(cv.subrange(0, i as int)),
            lits_view(negatives@) == neg_lits(cv.subrange(0, i as int)),
        decreases c.len() - i,
    {
        let l = c[i].copy();
        proof {
            assert(cv.subrange(0, i + 1).drop_last() =~= cv.subrange(0, i as int));
            assert(cv.subrange(0, i + 1).last() == l@);
        }
        if l.is_positive() {
            positives.push(l);
        } else {
            negatives.push(l);
        }
        assert(lits_view(positives@) =~= pos_lits(cv.subrange(0, i + 1)));
        assert(lits_view(negatives@) =~= neg_lits(cv.subrange(0, i + 1)));
        i = i + 1;
    }
    assert(cv.subrange(0, cv.len() as int) =~= cv);
    positives.append(&mut negatives);
    assert(lits_view(positives@) =~= order(cv));
    positives
}

/// The clauses of a quantifier-free formula in negation normal form.
pub fn flatten_cnf(expr: Expression) -> (r: Result<Program, GicError>)
    ensures
        match r {
            Ok(p) => flat(expr@) == Some(p@),
            Err(e) => flat(expr@) is None && e is ClauseError,
        },
    decreases expr,
{
    match expr {
        Expression::And(a, b) => {
            let mut left = flatten_cnf(*a)?;
            let mut right = flatten_cnf(*b)?;
            left.append(&mut right);
            Ok(left)
        },
        Expression::Or(a, b) => {
            let left = flatten_cnf(*a)?;
            let right = flatten_cnf(*b)?;
            let mut result = Program::new();
            let mut i: usize = 0;
            while i < left.0.len()
                invariant
                    i <= left@.len(),
                    result@ == cross(left@.subrange(0, i as int), right@),
                decreases left.0.len() - i,
            {
                let ghost before = result@;
                let mut j: usize = 0;
                while j < right.0.len()
                    invariant
                        i < left@.len(),
                        j <= right@.len(),
                        result@ == before + Seq::new(
                            j as nat,
                            |k: int| order(left@[i as int] + right@[k]),
                        ),
                    decreases right.0.len() - j,
                {
                    let mut disj = left.0[i].copy();
                    let mut r = right.0[j].copy();
                    disj.append(&mut r);
                    let ordered = order_literals(disj.0);
                    result.push(Clause(ordered));
                    assert(result@ =~= before + Seq::new(
                        (j + 1) as nat,
                        |k: int| order(left@[i as int] + right@[k]),
                    ));
                    j = j + 1;
                }
                assert(left@.subrange(0, i + 1).drop_last() =~= left@.subrange(0, i as int));
                assert(result@ =~= cross(left@.subrange(0, i + 1), right@));
                i = i + 1;
            }
            assert(left@.subrange(0, left@.len() as int) =~= left@);
            Ok(result)
        },
        leaf => {
            let lit = expr_to_literal(leaf)?;
            let mut c: Vec<Literal> = Vec::new();
            c.push(lit);
            let mut p = Program::new();
            p.push(Clause(c));
            assert(p@ =~= seq![seq![lit@]]) by {
                assert(p@[0] =~= seq![lit@]);
            }
            Ok(p)
        },
    }
}

/// Turns formulas into clauses and keeps the clauses of all formulas added.
pub struct Clausifier {
    clause_id: usize,
    ctx: SkolemContext,
    program: Program,
}

impl Clausifier {
    /// The clause index that the next formula gets.
    pub closed spec fn next_id(&self) -> nat {
        self.clause_id as nat
    }

    /// The clauses added so far.
    pub closed spec fn clauses(&self) -> Seq<Seq<SLit>> {
        self.program@
    }

    pub fn new() -> (r: Clausifier)
        ensures
            r.next_id() == 1,
            r.clauses() == Seq::<Seq<SLit>>::empty(),
    {
        Clausifier { clause_id: 1, ctx: SkolemContext::new(), program: Program::new() }
    }

    /// The clause index that the next formula gets.
    pub fn next_index(&self) -> (r: usize)
        ensures
            r == self.next_id(),
    {
        self.clause_id
    }

    /// The clauses of `expr`, with Skolem symbols under the next clause index;
    /// the index then moves on by one.
    pub fn clausify(&mut self, expr: Expression) -> (r: Result<Program, GicError>)
        requires
            old(self).next_id() < usize::MAX,
        ensures
            final(self).next_id() == old(self).next_id() + 1,
            final(self).clauses() == old(self).clauses(),
            match r {
                Ok(p) => clauses_of(expr@, old(self).next_id()) == Some(p@),
                Err(e) => clauses_of(expr@, old(self).next_id()) is None && e is ClauseError,
            },
    {
        self.ctx.set_clause_id(self.clause_id);
        self.clause_id = self.clause_id + 1;
        let no_implications = eliminate_implications(expr);
        let nnf = to_nnf(no_implications);
        let prenex = distribute_quantifiers(nnf);
        let no_existentials = self.ctx.deskolem(prenex);
        let quantifier_free = remove_universal_quantifiers(no_existentials);
        flatten_cnf(quantifier_free)
    }

    /// Appends the clauses of `expr` to the program.
    pub fn add_to_program(&mut self, expr: Expression) -> (r: Result<(), GicError>)
        requires
            old(self).next_id() < usize::MAX,
        ensures
            final(self).next_id() == old(self).next_id() + 1,
            match r {
                Ok(_) => clauses_of(expr@, old(self).next_id()) matches Some(p) && final(self).clauses()
                    == old(self).clauses() + p,
                Err(e) => clauses_of(expr@, old(self).next_id()) is None && e is ClauseError
                    && final(self).clauses() == old(self).clauses(),
            },
    {
        let mut p = self.clausify(expr)?;
        self.program.append(&mut p);
        Ok(())
    }

    pub fn get_program(&self) -> (r: &Program)
        ensures
            r@ == self.clauses(),
    {
        &self.program
    }

    pub fn get_progam_length(&self) -> (r: usize)
        ensures
            r == self.clauses().len(),
    {
        self.program.len()
    }

    /// The printed form of the clauses from position `start` on.
    pub fn to_str_from(&self, start: usize) -> (r: String)
        ensures
            start <= self.clauses().len() ==> r@ == crate::display::program_text(
                self.clauses().subrange(start as int, self.clauses().len() as int),
            ),
    {
        self.slice_from(start).to_text()
    }

    /// The clauses from position `start` on.
    pub fn slice_from(&self, start: usize) -> (r: Program)
        ensures
            start <= self.clauses().len() ==> r@ == self.clauses().subrange(start as int, self.clauses().len() as int),
            start > self.clauses().len() ==> r@.len() == 0,
    {
        let mut out = Program::new();
        let mut i: usize = start;
        while i < self.program.0.len()
            invariant
                start <= i,
                start <= self.program@.len() ==> i <= self.program@.len(),
                start <= self.program@.len() ==> out@ == self.program@.subrange(start as int, i as int),
                start > self.program@.len() ==> out@.len() == 0,
            decreases self.program.0.len() - i,
        {
            out.push(self.program.0[i].copy());
            assert(out@ =~= self.program@.subrange(start as int, i + 1));
            i = i + 1;
        }
        out
    }
}

/// The clauses of one formula, with Skolem symbols under the clause index 1.
pub fn to_cnf(expr: Expression) -> (r: Result<Program, GicError>)
    ensures
        match r {
            Ok(p) => clauses_of(expr@, 1) == Some(p@),
            Err(e) => clauses_of(expr@, 1) is None && e is ClauseError,
        },
{
    let mut c = Clausifier::new();
    c.clausify(expr)
}

} // verus!

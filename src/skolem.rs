use vstd::prelude::*;

use crate::ast::{copy_string, str_eq, Expression, SExpr, STerm, Term};
use crate::substitution::{apply_prop, apply_to_prop, SSubst, Substitution};
use crate::text::{concat, decimal, decimal_string, trim_dots, trim_trailing_dots};

verus! {

/// The Skolem symbol minted for the variable `v` under the clause index `id`.
pub open spec fn skolem_name(v: Seq<char>, id: nat) -> Seq<char> {
    seq!['_'] + v + seq!['_'] + decimal(id)
}

/// `s` without repetitions, each name kept at its first occurrence.
pub open spec fn dedup(s: Seq<Seq<char>>) -> Seq<Seq<char>>
    decreases s.len(),
{
    if s.len() == 0 {
        s
    } else if dedup(s.drop_last()).contains(s.last()) {
        dedup(s.drop_last())
    } else {
        dedup(s.drop_last()).push(s.last())
    }
}

/// The Skolem term for `v`: a constant under no universal, else the Skolem
/// symbol applied to the universals in scope.
pub open spec fn skolem_term(v: Seq<char>, scope: Seq<Seq<char>>, id: nat) -> STerm {
    let args = dedup(scope);
    STerm::Fun(skolem_name(v, id), Seq::new(args.len(), |i: int| STerm::Var(args[i])))
}

/// Skolemization: each existential is dropped and its variable replaced, in its
/// scope, by its Skolem term; `env` holds the replacements in force.
pub open spec fn desk(e: SExpr, scope: Seq<Seq<char>>, env: SSubst, id: nat) -> SExpr
    decreases e,
{
    match e {
        SExpr::Exists(v, x) => {
            let w = trim_dots(v);
            desk(*x, scope, env.insert(w, skolem_term(w, scope, id)), id)
        },
        SExpr::ForAll(v, x) => {
            let w = trim_dots(v);
            SExpr::ForAll(w, Box::new(desk(*x, scope.push(w), env.remove(w), id)))
        },
        SExpr::And(a, b) => SExpr::And(
            Box::new(desk(*a, scope, env, id)),
            Box::new(desk(*b, scope, env, id)),
        ),
        SExpr::Or(a, b) => SExpr::Or(
            Box::new(desk(*a, scope, env, id)),
            Box::new(desk(*b, scope, env, id)),
        ),
        SExpr::Not(a) => SExpr::Not(Box::new(desk(*a, scope, env, id))),
        SExpr::Prop(p) => SExpr::Prop(apply_prop(env, p)),
        _ => e,
    }
}

/// Mints Skolem symbols for one input formula.
#[derive(Debug, Clone)]
pub struct SkolemContext {
    clause_id: usize,
}

impl SkolemContext {
    pub closed spec fn id(&self) -> nat {
        self.clause_id as nat
    }

    pub fn new() -> (r: SkolemContext)
        ensures
            r.id() == 1,
    {
        SkolemContext { clause_id: 1 }
    }

    pub fn set_clause_id(&mut self, id: usize)
        ensures
            final(self).id() == id,
    {
        self.clause_id = id;
    }

    /// The Skolem symbol for `var`: `_{var}_{clause index}`.
    pub fn next_name(&mut self, var: &str) -> (r: String)
        ensures
            r@ == skolem_name(var@, old(self).id()),
            final(self).id() == old(self).id(),
    {
        let a = concat("_", var);
        let b = concat(a.as_str(), "_");
        let d = decimal_string(self.clause_id as u64);
        proof {
            reveal_strlit("_");
        }
        concat(b.as_str(), d.as_str())
    }

    /// Replaces each existential of `expr` by its Skolem term.
    pub fn deskolem(&mut self, expr: Expression) -> (r: Expression)
        ensures
            r@ == desk(expr@, Seq::empty(), Map::empty(), old(self).id()),
            final(self).id() == old(self).id(),
    {
        let mut scope: Vec<String> = Vec::new();
        let mut env = Substitution::new();
        assert(names_view(scope@) =~= Seq::<Seq<char>>::empty());
        let r = deskolem(expr, &mut scope, &mut env, self);
        assert(scope@.len() == 0);
        r
    }
}

pub open spec fn names_view(s: Seq<String>) -> Seq<Seq<char>> {
    Seq::new(s.len(), |i: int| s[i]@)
}

/// The universals in scope, without repetitions, as variables.
fn scope_args(scope: &Vec<String>) -> (r: Vec<Term>)
    ensures
        r@.len() == dedup(names_view(scope@)).len(),
        forall|i: int|
            0 <= i < r@.len() ==> (#[trigger] r@[i])@ == STerm::Var(dedup(names_view(scope@))[i]),
{
    let mut seen: Vec<String> = Vec::new();
    let mut i: usize = 0;
    while i < scope.len()
        invariant
            i <= scope.len(),
            names_view(seen@) == dedup(names_view(scope@.subrange(0, i as int))),
        decreases scope.len() - i,
    {
        let ghost pre = names_view(scope@.subrange(0, i as int));
        let ghost next = names_view(scope@.subrange(0, i + 1));
        assert(next.drop_last() =~= pre);
        assert(next.last() == scope@[i as int]@);
        let mut found = false;
        let mut k: usize = 0;
        while k < seen.len()
            invariant
                i < scope.len(),
                k <= seen.len(),
                found == exists|j: int| 0 <= j < k && seen@[j]@ == scope@[i as int]@,
            decreases seen.len() - k,
        {
            if str_eq(&seen[k], &scope[i]) {
                found = true;
            }
            k = k + 1;
        }
        proof {
            if found {
                let j = choose|j: int| 0 <= j < seen@.len() && seen@[j]@ == scope@[i as int]@;
                assert(names_view(seen@)[j] == next.last());
            } else {
                assert(!names_view(seen@).contains(next.last())) by {
                    if names_view(seen@).contains(next.last()) {
                        let j = choose|j: int|
                            0 <= j < names_view(seen@).len() && names_view(seen@)[j] == next.last();
                        assert(seen@[j]@ == scope@[i as int]@);
                    }
                }
            }
        }
        if !found {
            seen.push(copy_string(&scope[i]));
        }
        assert(names_view(seen@) =~= dedup(next));
        i = i + 1;
    }
    assert(scope@.subrange(0, scope@.len() as int) =~= scope@);
    let mut out: Vec<Term> = Vec::new();
    let mut j: usize = 0;
    while j < seen.len()
        invariant
            j <= seen.len(),
            out@.len() == j,
            forall|m: int| 0 <= m < j ==> (#[trigger] out@[m])@ == STerm::Var(seen@[m]@),
        decreases seen.len() - j,
    {
        out.push(Term::Identifier(copy_string(&seen[j])));
        j = j + 1;
    }
    out
}

/// Skolemizes `expr` with the universals of `scope` in force and the
/// replacements of `env` pending.
fn deskolem(
    expr: Expression,
    scope: &mut Vec<String>,
    env: &mut Substitution,
    ctx: &mut SkolemContext,
) -> (r: Expression)
    requires
        old(env).wf(),
    ensures
        r@ == desk(expr@, names_view(old(scope)@), old(env)@, old(ctx).id()),
        final(scope)@ == old(scope)@,
        final(env).wf(),
        final(env)@ == old(env)@,
        final(ctx).id() == old(ctx).id(),
    decreases expr,
{
    match expr {
        Expression::Exists(var, inner) => {
            let v = trim_trailing_dots(var.as_str());
            let args = scope_args(scope);
            let name = ctx.next_name(v.as_str());
            let sk = Term::FunctionApplication { name, args };
            proof {
                assert(sk@ == skolem_term(v@, names_view(scope@), ctx.id())) by {
                    assert(sk@->Fun_1 =~= skolem_term(v@, names_view(scope@), ctx.id())->Fun_1);
                }
            }
            let mut inner_env = env.copy();
            inner_env.insert(v, sk);
            deskolem(*inner, scope, &mut inner_env, ctx)
        },
        Expression::ForAll(var, inner) => {
            let v = trim_trailing_dots(var.as_str());
            let mut inner_env = env.copy();
            inner_env.remove(&v);
            let c = copy_string(&v);
            let ghost cv = c;
            scope.push(c);
            let body = deskolem(*inner, scope, &mut inner_env, ctx);
            scope.pop();
            proof {
                assert(scope@ =~= old(scope)@);
                assert(names_view(old(scope)@.push(cv)) =~= names_view(old(scope)@).push(v@));
            }
            Expression::ForAll(v, Box::new(body))
        },
        Expression::And(a, b) => {
            let l = deskolem(*a, scope, env, ctx);
            let r = deskolem(*b, scope, env, ctx);
            Expression::And(Box::new(l), Box::new(r))
        },
        Expression::Or(a, b) => {
            let l = deskolem(*a, scope, env, ctx);
            let r = deskolem(*b, scope, env, ctx);
            Expression::Or(Box::new(l), Box::new(r))
        },
        Expression::Not(a) => {
            let x = deskolem(*a, scope, env, ctx);
            Expression::Not(Box::new(x))
        },
        Expression::Proposition(p) => Expression::Proposition(apply_to_prop(env, &p)),
        other => other,
    }
}

} // verus!

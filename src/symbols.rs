use vstd::prelude::*;

use crate::ast::{SExpr, SProp, STerm};
use crate::clause::{lit_prop, neg_lits, pos_lits, SLit};
use crate::cnf::{
    as_literal, clauses_of, cross, elim, flat, nnf, nnf_neg, order, pull, pull_and, pull_or, strip,
};
use crate::skolem::{desk, skolem_name, skolem_term};
use crate::substitution::{apply_prop, apply_term, SSubst};

verus! {

/// The function symbols of a term.
pub open spec fn tsyms(t: STerm) -> Set<Seq<char>>
    decreases t,
{
    match t {
        STerm::Fun(f, args) => set![f].union(tsyms_seq(args)),
        _ => Set::empty(),
    }
}

pub open spec fn tsyms_seq(ts: Seq<STerm>) -> Set<Seq<char>>
    decreases ts,
{
    if ts.len() == 0 {
        Set::empty()
    } else {
        tsyms_seq(ts.drop_last()).union(tsyms(ts.last()))
    }
}

pub proof fn lemma_tsyms_seq(ts: Seq<STerm>, x: Seq<char>)
    ensures
        tsyms_seq(ts).contains(x) <==> exists|i: int| 0 <= i < ts.len() && #[trigger] tsyms(ts[i]).contains(x),
    decreases ts,
{
    if ts.len() > 0 {
        let d = ts.drop_last();
        lemma_tsyms_seq(d, x);
        if tsyms_seq(ts).contains(x) {
            if !tsyms(ts.last()).contains(x) {
                let i = choose|i: int| 0 <= i < d.len() && #[trigger] tsyms(d[i]).contains(x);
                assert(ts[i] == d[i]);
            }
        }
        if exists|i: int| 0 <= i < ts.len() && #[trigger] tsyms(ts[i]).contains(x) {
            let i = choose|i: int| 0 <= i < ts.len() && #[trigger] tsyms(ts[i]).contains(x);
            if i < ts.len() - 1 {
                assert(d[i] == ts[i]);
            }
        }
    }
}

/// The function symbols of a proposition's arguments.
pub open spec fn psyms(p: SProp) -> Set<Seq<char>> {
    Set::new(
        |g: Seq<char>| exists|i: int| 0 <= i < p.terms.len() && #[trigger] tsyms(p.terms[i]).contains(g),
    )
}

/// The function symbols of a formula.
pub open spec fn esyms(e: SExpr) -> Set<Seq<char>>
    decreases e,
{
    match e {
        SExpr::Prop(p) => psyms(p),
        SExpr::Bottom => Set::empty(),
        SExpr::And(a, b) => esyms(*a).union(esyms(*b)),
        SExpr::Or(a, b) => esyms(*a).union(esyms(*b)),
        SExpr::Implies(a, b) => esyms(*a).union(esyms(*b)),
        SExpr::Not(a) => esyms(*a),
        SExpr::Exists(_, a) => esyms(*a),
        SExpr::ForAll(_, a) => esyms(*a),
    }
}

/// The function symbols of a clause.
pub open spec fn csyms(c: Seq<SLit>) -> Set<Seq<char>> {
    Set::new(
        |g: Seq<char>| exists|i: int| 0 <= i < c.len() && #[trigger] psyms(lit_prop(c[i])).contains(g),
    )
}

/// The function symbols of a program.
pub open spec fn prog_syms(p: Seq<Seq<SLit>>) -> Set<Seq<char>> {
    Set::new(|g: Seq<char>| exists|i: int| 0 <= i < p.len() && #[trigger] csyms(p[i]).contains(g))
}

/// The Skolem symbols of the clause index `k`.
pub open spec fn skolem_syms(k: nat) -> Set<Seq<char>> {
    Set::new(|g: Seq<char>| exists|v: Seq<char>| g == #[trigger] skolem_name(v, k))
}

pub proof fn lemma_tsyms_fun(f: Seq<char>, xs: Seq<STerm>, g: Seq<char>)
    ensures
        tsyms(STerm::Fun(f, xs)).contains(g) <==> (g == f || exists|i: int|
            0 <= i < xs.len() && #[trigger] tsyms(xs[i]).contains(g)),
{
    lemma_tsyms_seq(xs, g);
}

pub proof fn lemma_apply_syms(env: SSubst, t: STerm, g: Seq<char>)
    requires
        tsyms(apply_term(env, t)).contains(g),
    ensures
        tsyms(t).contains(g) || exists|x: Seq<char>|
            #[trigger] env.dom().contains(x) && tsyms(env[x]).contains(g),
    decreases t,
{
    if let STerm::Fun(f, args) = t {
        let at = apply_term(env, t);
        crate::substitution::lemma_apply_fun(env, f, args);
        lemma_tsyms_fun(f, crate::substitution::apply_terms(env, args), g);
        assert(at->Fun_1.len() == args.len());
        if g != f {
            let i = choose|i: int| 0 <= i < at->Fun_1.len() && #[trigger] tsyms(at->Fun_1[i]).contains(g);
            assert(at->Fun_1[i] == apply_term(env, args[i]));
            lemma_apply_syms(env, args[i], g);
            lemma_tsyms_fun(f, args, g);
        }
    }
}

pub proof fn lemma_elim_syms(e: SExpr, g: Seq<char>)
    requires
        esyms(elim(e)).contains(g),
    ensures
        esyms(e).contains(g),
    decreases e,
{
    reveal_with_fuel(esyms, 2);
    match e {
        SExpr::Implies(a, b) => {
            if esyms(elim(*a)).contains(g) {
                lemma_elim_syms(*a, g);
            } else {
                lemma_elim_syms(*b, g);
            }
        },
        SExpr::And(a, b) => {
            if esyms(elim(*a)).contains(g) {
                lemma_elim_syms(*a, g);
            } else {
                lemma_elim_syms(*b, g);
            }
        },
        SExpr::Or(a, b) => {
            if esyms(elim(*a)).contains(g) {
                lemma_elim_syms(*a, g);
            } else {
                lemma_elim_syms(*b, g);
            }
        },
        SExpr::Not(a) => lemma_elim_syms(*a, g),
        SExpr::Exists(_, a) => lemma_elim_syms(*a, g),
        SExpr::ForAll(_, a) => lemma_elim_syms(*a, g),
        _ => {},
    }
}

pub proof fn lemma_nnf_syms(e: SExpr, g: Seq<char>)
    ensures
        esyms(nnf(e)).contains(g) ==> esyms(e).contains(g),
        esyms(nnf_neg(e)).contains(g) ==> esyms(e).contains(g),
    decreases e,
{
    match e {
        SExpr::And(a, b) => {
            lemma_nnf_syms(*a, g);
            lemma_nnf_syms(*b, g);
        },
        SExpr::Or(a, b) => {
            lemma_nnf_syms(*a, g);
            lemma_nnf_syms(*b, g);
        },
        SExpr::Not(a) => lemma_nnf_syms(*a, g),
        SExpr::Exists(_, a) => lemma_nnf_syms(*a, g),
        SExpr::ForAll(_, a) => lemma_nnf_syms(*a, g),
        _ => {},
    }
}

pub proof fn lemma_merge_syms(a: SExpr, b: SExpr, g: Seq<char>)
    ensures
        esyms(pull_and(a, b)).contains(g) ==> esyms(a).contains(g) || esyms(b).contains(g),
        esyms(pull_or(a, b)).contains(g) ==> esyms(a).contains(g) || esyms(b).contains(g),
    decreases a, b,
{
    match a {
        SExpr::ForAll(_, a1) => lemma_merge_syms(*a1, b, g),
        SExpr::Exists(_, a1) => lemma_merge_syms(*a1, b, g),
        _ => match b {
            SExpr::ForAll(_, b1) => lemma_merge_syms(a, *b1, g),
            SExpr::Exists(_, b1) => lemma_merge_syms(a, *b1, g),
            _ => {},
        },
    }
}

pub proof fn lemma_pull_syms(e: SExpr, g: Seq<char>)
    requires
        esyms(pull(e)).contains(g),
    ensures
        esyms(e).contains(g),
    decreases e,
{
    match e {
        SExpr::And(a, b) => {
            lemma_merge_syms(pull(*a), pull(*b), g);
            if esyms(pull(*a)).contains(g) {
                lemma_pull_syms(*a, g);
            } else {
                lemma_pull_syms(*b, g);
            }
        },
        SExpr::Or(a, b) => {
            lemma_merge_syms(pull(*a), pull(*b), g);
            if esyms(pull(*a)).contains(g) {
                lemma_pull_syms(*a, g);
            } else {
                lemma_pull_syms(*b, g);
            }
        },
        SExpr::Exists(_, a) => lemma_pull_syms(*a, g),
        SExpr::ForAll(_, a) => lemma_pull_syms(*a, g),
        _ => {},
    }
}

/// Every image of `env` holds only Skolem symbols of the index `k`.
pub open spec fn env_skolem(env: SSubst, k: nat) -> bool {
    forall|x: Seq<char>, g: Seq<char>|
        #[trigger] env.dom().contains(x) && #[trigger] tsyms(env[x]).contains(g) ==> skolem_syms(
            k,
        ).contains(g)
}

pub proof fn lemma_desk_syms(e: SExpr, scope: Seq<Seq<char>>, env: SSubst, k: nat, g: Seq<char>)
    requires
        env_skolem(env, k),
        esyms(desk(e, scope, env, k)).contains(g),
    ensures
        esyms(e).contains(g) || skolem_syms(k).contains(g),
    decreases e,
{
    match e {
        SExpr::Exists(v, x) => {
            let w = crate::text::trim_dots(v);
            let env2 = env.insert(w, skolem_term(w, scope, k));
            assert forall|y: Seq<char>, h: Seq<char>|
                #[trigger] env2.dom().contains(y) && #[trigger] tsyms(env2[y]).contains(h) implies skolem_syms(
                k,
            ).contains(h) by {
                if y == w {
                    let st = skolem_term(w, scope, k);
                    assert(env2[y] == st);
                    assert(tsyms(st).contains(h));
                    assert(st is Fun && st->Fun_0 == skolem_name(w, k));
                    lemma_tsyms_fun(st->Fun_0, st->Fun_1, h);
                    if h != skolem_name(w, k) {
                        assert(exists|i: int| 0 <= i < st->Fun_1.len() && #[trigger] tsyms(st->Fun_1[i]).contains(h));
                        let i = choose|i: int| 0 <= i < st->Fun_1.len() && #[trigger] tsyms(st->Fun_1[i]).contains(h);
                        assert(st->Fun_1[i] is Var);
                        assert(tsyms(st->Fun_1[i]) == Set::<Seq<char>>::empty());
                    }
                    assert(h == skolem_name(w, k));
                } else {
                    assert(env.dom().contains(y) && env2[y] == env[y]);
                }
            }
            lemma_desk_syms(*x, scope, env2, k, g);
        },
        SExpr::ForAll(v, x) => {
            let w = crate::text::trim_dots(v);
            lemma_desk_syms(*x, scope.push(w), env.remove(w), k, g);
        },
        SExpr::And(a, b) => {
            if esyms(desk(*a, scope, env, k)).contains(g) {
                lemma_desk_syms(*a, scope, env, k, g);
            } else {
                lemma_desk_syms(*b, scope, env, k, g);
            }
        },
        SExpr::Or(a, b) => {
            if esyms(desk(*a, scope, env, k)).contains(g) {
                lemma_desk_syms(*a, scope, env, k, g);
            } else {
                lemma_desk_syms(*b, scope, env, k, g);
            }
        },
        SExpr::Not(a) => lemma_desk_syms(*a, scope, env, k, g),
        SExpr::Prop(p) => {
            let ap = apply_prop(env, p);
            let i = choose|i: int| 0 <= i < ap.terms.len() && #[trigger] tsyms(ap.terms[i]).contains(g);
            lemma_apply_syms(env, p.terms[i], g);
            if tsyms(p.terms[i]).contains(g) {
                assert(psyms(p).contains(g));
            } else {
                let x = choose|x: Seq<char>| #[trigger] env.dom().contains(x) && tsyms(env[x]).contains(g);
            }
        },
        _ => {},
    }
}

pub proof fn lemma_strip_syms(e: SExpr, g: Seq<char>)
    requires
        esyms(strip(e)).contains(g),
    ensures
        esyms(e).contains(g),
    decreases e,
{
    match e {
        SExpr::ForAll(_, a) => lemma_strip_syms(*a, g),
        SExpr::And(a, b) => {
            if esyms(strip(*a)).contains(g) {
                lemma_strip_syms(*a, g);
            } else {
                lemma_strip_syms(*b, g);
            }
        },
        SExpr::Or(a, b) => {
            if esyms(strip(*a)).contains(g) {
                lemma_strip_syms(*a, g);
            } else {
                lemma_strip_syms(*b, g);
            }
        },
        SExpr::Not(a) => lemma_strip_syms(*a, g),
        _ => {},
    }
}

/// Each positive or negative literal of a clause is a literal of the clause.
pub proof fn lemma_split_lits(c: Seq<SLit>)
    ensures
        forall|i: int| 0 <= i < pos_lits(c).len() ==> c.contains(#[trigger] pos_lits(c)[i]),
        forall|i: int| 0 <= i < neg_lits(c).len() ==> c.contains(#[trigger] neg_lits(c)[i]),
    decreases c.len(),
{
    if c.len() > 0 {
        let d = c.drop_last();
        lemma_split_lits(d);
        assert forall|l: SLit| d.contains(l) implies c.contains(l) by {
            let j = choose|j: int| 0 <= j < d.len() && d[j] == l;
            assert(c[j] == l);
        }
        assert(c[c.len() - 1] == c.last());
        assert(c.contains(c.last()));
        assert forall|i: int| 0 <= i < pos_lits(c).len() implies c.contains(#[trigger] pos_lits(c)[i]) by {
            if i < pos_lits(d).len() {
                assert(pos_lits(c)[i] == pos_lits(d)[i]);
                assert(d.contains(pos_lits(d)[i]));
            }
        }
        assert forall|i: int| 0 <= i < neg_lits(c).len() implies c.contains(#[trigger] neg_lits(c)[i]) by {
            if i < neg_lits(d).len() {
                assert(neg_lits(c)[i] == neg_lits(d)[i]);
                assert(d.contains(neg_lits(d)[i]));
            }
        }
    }
}

pub proof fn lemma_order_syms(c: Seq<SLit>, g: Seq<char>)
    requires
        csyms(order(c)).contains(g),
    ensures
        csyms(c).contains(g),
{
    lemma_split_lits(c);
    let o = order(c);
    let i = choose|i: int| 0 <= i < o.len() && #[trigger] psyms(lit_prop(o[i])).contains(g);
    let l = o[i];
    if i < pos_lits(c).len() {
        assert(l == pos_lits(c)[i]);
    } else {
        assert(l == neg_lits(c)[i - pos_lits(c).len()]);
    }
    assert(c.contains(l));
    let j = choose|j: int| 0 <= j < c.len() && c[j] == l;
    assert(psyms(lit_prop(c[j])).contains(g));
}

pub proof fn lemma_cross_syms(l: Seq<Seq<SLit>>, r: Seq<Seq<SLit>>, g: Seq<char>)
    requires
        prog_syms(cross(l, r)).contains(g),
    ensures
        prog_syms(l).contains(g) || prog_syms(r).contains(g),
    decreases l.len(),
{
    if l.len() > 0 {
        let x = cross(l, r);
        let front = cross(l.drop_last(), r);
        let i = choose|i: int| 0 <= i < x.len() && #[trigger] csyms(x[i]).contains(g);
        if i < front.len() {
            assert(x[i] == front[i]);
            lemma_cross_syms(l.drop_last(), r, g);
            if prog_syms(l.drop_last()).contains(g) {
                let j = choose|j: int| 0 <= j < l.drop_last().len() && #[trigger] csyms(l.drop_last()[j]).contains(g);
                assert(l[j] == l.drop_last()[j]);
                assert(csyms(l[j]).contains(g));
            }
        } else {
            let j = i - front.len();
            let c = l.last() + r[j];
            assert(x[i] == order(c));
            lemma_order_syms(c, g);
            let m = choose|m: int| 0 <= m < c.len() && #[trigger] psyms(lit_prop(c[m])).contains(g);
            if m < l.last().len() {
                assert(c[m] == l.last()[m]);
                assert(csyms(l[l.len() - 1]).contains(g));
            } else {
                assert(c[m] == r[j][m - l.last().len()]);
                assert(csyms(r[j]).contains(g));
            }
        }
    }
}

pub proof fn lemma_flat_syms(e: SExpr, g: Seq<char>)
    requires
        flat(e) is Some,
        prog_syms(flat(e)->Some_0).contains(g),
    ensures
        esyms(e).contains(g),
    decreases e,
{
    match e {
        SExpr::And(a, b) => {
            let l = flat(*a)->Some_0;
            let r = flat(*b)->Some_0;
            let p = l + r;
            let i = choose|i: int| 0 <= i < p.len() && #[trigger] csyms(p[i]).contains(g);
            if i < l.len() {
                assert(p[i] == l[i]);
                assert(prog_syms(l).contains(g));
                lemma_flat_syms(*a, g);
            } else {
                assert(p[i] == r[i - l.len()]);
                assert(prog_syms(r).contains(g));
                lemma_flat_syms(*b, g);
            }
        },
        SExpr::Or(a, b) => {
            lemma_cross_syms(flat(*a)->Some_0, flat(*b)->Some_0, g);
            if prog_syms(flat(*a)->Some_0).contains(g) {
                lemma_flat_syms(*a, g);
            } else {
                lemma_flat_syms(*b, g);
            }
        },
        _ => {
            let lit = as_literal(e)->Some_0;
            let p = seq![seq![lit]];
            let i = choose|i: int| 0 <= i < p.len() && #[trigger] csyms(p[i]).contains(g);
            assert(i == 0);
            let j = choose|j: int| 0 <= j < p[0].len() && #[trigger] psyms(lit_prop(p[0][j])).contains(g);
            assert(j == 0);
            match e {
                SExpr::Not(a) => {
                    assert(esyms(e) == esyms(*a));
                },
                _ => {},
            }
        },
    }
}

/// Every function symbol of the clauses of `e` under the index `k` is a symbol
/// of `e` or a Skolem symbol of the index `k`.
pub proof fn lemma_clause_syms(e: SExpr, k: nat, g: Seq<char>)
    requires
        clauses_of(e, k) is Some,
        prog_syms(clauses_of(e, k)->Some_0).contains(g),
    ensures
        esyms(e).contains(g) || skolem_syms(k).contains(g),
{
    let p1 = pull(nnf(elim(e)));
    let d = desk(p1, Seq::empty(), Map::empty(), k);
    lemma_flat_syms(strip(d), g);
    lemma_strip_syms(d, g);
    lemma_desk_syms(p1, Seq::empty(), Map::empty(), k, g);
    if esyms(p1).contains(g) {
        lemma_pull_syms(nnf(elim(e)), g);
        lemma_nnf_syms(elim(e), g);
        lemma_elim_syms(e, g);
    }
}

/// No symbol of `e` starts with `_`.
pub open spec fn no_underscore(e: SExpr) -> bool {
    forall|g: Seq<char>| #[trigger] esyms(e).contains(g) ==> g.len() == 0 || g[0] != '_'
}

/// The Skolem symbols that one call of the clausifier introduces appear nowhere
/// in the clauses of another call, when the input formulas use no symbol that
/// starts with `_`.
pub proof fn law_skolem_symbols_apart(e1: SExpr, k1: nat, e2: SExpr, k2: nat)
    requires
        k1 != k2,
        clauses_of(e1, k1) is Some,
        clauses_of(e2, k2) is Some,
        no_underscore(e1),
        no_underscore(e2),
    ensures
        forall|g: Seq<char>|
            #[trigger] prog_syms(clauses_of(e1, k1)->Some_0).contains(g) && !esyms(e1).contains(g)
                ==> !prog_syms(clauses_of(e2, k2)->Some_0).contains(g),
{
    assert forall|g: Seq<char>|
        #[trigger] prog_syms(clauses_of(e1, k1)->Some_0).contains(g) && !esyms(e1).contains(
            g,
        ) implies !prog_syms(clauses_of(e2, k2)->Some_0).contains(g) by {
        lemma_clause_syms(e1, k1, g);
        let v = choose|v: Seq<char>| g == #[trigger] skolem_name(v, k1);
        assert(g[0] == '_');
        if prog_syms(clauses_of(e2, k2)->Some_0).contains(g) {
            lemma_clause_syms(e2, k2, g);
            if !esyms(e2).contains(g) {
                let w = choose|w: Seq<char>| g == #[trigger] skolem_name(w, k2);
                crate::laws::law_skolem_fresh(v, w, k1, k2);
            }
        }
    }
}

} // verus!

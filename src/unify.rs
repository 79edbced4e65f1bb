use vstd::prelude::*;

use crate::ast::{
    copy_string, lemma_tvars_finite, lemma_tvars_seq, lemma_tvars_seq_finite, str_eq, tsize, tsizes,
    tvars, tvars_seq, Proposition, SProp, STerm, Term,
};

use crate::substitution::{
    apply_eqs, apply_substitution_to_equation, apply_substitution_to_sub, apply_term, apply_terms,
    apply_unif, compose, empty_substitution, idempotent, lemma_apply_agree, lemma_apply_fun,
    lemma_apply_untouched, lemma_vars_apply, SSubst, Substitution,
};

verus! {

/// Mathematical model of a term or a proposition.
pub enum SUnif {
    Term(STerm),
    Prop(SProp),
}

/// A term or a proposition: the values that unification works on.
#[derive(Debug, Clone, PartialEq, Eq, Hash)]
pub enum Unifiable {
    Term(Term),
    Prop(Proposition),
}

impl View for Unifiable {
    type V = SUnif;

    open spec fn view(&self) -> SUnif {
        match self {
            Unifiable::Term(t) => SUnif::Term(t@),
            Unifiable::Prop(p) => SUnif::Prop(p@),
        }
    }
}

pub open spec fn eqs_view(e: Seq<(Unifiable, Unifiable)>) -> Seq<(SUnif, SUnif)> {
    Seq::new(e.len(), |i: int| (e[i].0@, e[i].1@))
}

/// Why two values do not unify.
#[derive(Debug)]
pub enum MguError {
    /// Different function symbols, predicate names, arities or numbers.
    Clash(String),
    /// A term against a proposition.
    UnificationError(String),
    /// A variable against a term that contains it.
    OccurCheck(String),
}

pub open spec fn uvars(u: SUnif) -> Set<Seq<char>> {
    match u {
        SUnif::Term(t) => tvars(t),
        SUnif::Prop(p) => tvars_seq(p.terms),
    }
}

pub open spec fn usz(u: SUnif) -> nat {
    match u {
        SUnif::Term(t) => tsize(t),
        SUnif::Prop(p) => 1 + tsizes(p.terms),
    }
}

/// The variables of a list of equations.
pub open spec fn evars(e: Seq<(SUnif, SUnif)>) -> Set<Seq<char>>
    decreases e.len(),
{
    if e.len() == 0 {
        Set::empty()
    } else {
        evars(e.drop_last()).union(uvars(e.last().0)).union(uvars(e.last().1))
    }
}

/// The number of symbols in a list of equations.
pub open spec fn esize(e: Seq<(SUnif, SUnif)>) -> nat
    decreases e.len(),
{
    if e.len() == 0 {
        0
    } else {
        esize(e.drop_last()) + usz(e.last().0) + usz(e.last().1)
    }
}

/// `s` makes both sides of every equation equal.
pub open spec fn unifies(s: SSubst, e: Seq<(SUnif, SUnif)>) -> bool {
    forall|i: int| 0 <= i < e.len() ==> apply_unif(s, #[trigger] e[i].0) == apply_unif(s, e[i].1)
}

/// Some substitution makes both sides of every equation equal.
pub open spec fn unifiable(e: Seq<(SUnif, SUnif)>) -> bool {
    exists|s: SSubst| unifies(s, e)
}

/// The binding that an equation between a variable and another term calls for.
pub open spec fn bind_case(a: SUnif, b: SUnif) -> Option<(Seq<char>, STerm)> {
    match (a, b) {
        (SUnif::Term(STerm::Var(x)), SUnif::Term(t)) => if t != STerm::Var(x) {
            Some((x, t))
        } else {
            None
        },
        (SUnif::Term(t), SUnif::Term(STerm::Var(x))) => if !(t is Var) {
            Some((x, t))
        } else {
            None
        },
        _ => None,
    }
}

/// An equation between a variable or a number and itself.
pub open spec fn trivial_pair(a: SUnif, b: SUnif) -> bool {
    a == b && (a matches SUnif::Term(t) && (t is Var || t is Num))
}

/// The argument pairs of an equation between two applications of one symbol.
pub open spec fn decomposition(a: SUnif, b: SUnif) -> Option<Seq<(SUnif, SUnif)>> {
    match (a, b) {
        (SUnif::Term(STerm::Fun(f, xs)), SUnif::Term(STerm::Fun(g, ys))) => if f == g && xs.len()
            == ys.len() {
            Some(Seq::new(xs.len(), |i: int| (SUnif::Term(xs[i]), SUnif::Term(ys[i]))))
        } else {
            None
        },
        (SUnif::Prop(p), SUnif::Prop(q)) => if p.name == q.name && p.terms.len() == q.terms.len() {
            Some(
                Seq::new(
                    p.terms.len(),
                    |i: int| (SUnif::Term(p.terms[i]), SUnif::Term(q.terms[i])),
                ),
            )
        } else {
            None
        },
        _ => None,
    }
}

pub proof fn lemma_evars(e: Seq<(SUnif, SUnif)>, y: Seq<char>)
    ensures
        evars(e).contains(y) ==> exists|i: int|
            0 <= i < e.len() && (uvars(#[trigger] e[i].0).contains(y) || uvars(e[i].1).contains(y)),
        forall|i: int|
            0 <= i < e.len() && (uvars(#[trigger] e[i].0).contains(y) || uvars(e[i].1).contains(y))
                ==> evars(e).contains(y),
    decreases e.len(),
{
    if e.len() > 0 {
        let d = e.drop_last();
        lemma_evars(d, y);
        assert forall|i: int| 0 <= i < d.len() implies #[trigger] d[i] == e[i] by {}
        if evars(e).contains(y) && evars(d).contains(y) {
            let i = choose|i: int|
                0 <= i < d.len() && (uvars(#[trigger] d[i].0).contains(y) || uvars(d[i].1).contains(
                    y,
                ));
            assert(d[i] == e[i]);
        }
        assert forall|i: int|
            0 <= i < e.len() && (uvars(#[trigger] e[i].0).contains(y) || uvars(e[i].1).contains(
                y,
            )) implies evars(e).contains(y) by {
            if i < e.len() - 1 {
                assert(d[i] == e[i]);
            }
        }
    }
}

pub proof fn lemma_evars_finite(e: Seq<(SUnif, SUnif)>)
    ensures
        evars(e).finite(),
    decreases e.len(),
{
    if e.len() > 0 {
        lemma_evars_finite(e.drop_last());
        let p = e.last();
        match p.0 {
            SUnif::Term(t) => lemma_tvars_finite(t),
            SUnif::Prop(q) => lemma_tvars_seq_finite(q.terms),
        }
        match p.1 {
            SUnif::Term(t) => lemma_tvars_finite(t),
            SUnif::Prop(q) => lemma_tvars_seq_finite(q.terms),
        }
    }
}

/// Extending `θ` by `x ↦ θ(t)` is applying `x ↦ t` first, then `θ`.
pub proof fn lemma_extend_then(th: SSubst, x: Seq<char>, t: STerm, u: STerm)
    ensures
        apply_term(th.insert(x, apply_term(th, t)), u) == apply_term(th, apply_term(map![x => t], u)),
    decreases u,
{
    if let STerm::Fun(f, args) = u {
        assert forall|i: int| 0 <= i < args.len() implies apply_term(
            th.insert(x, apply_term(th, t)),
            args[i],
        ) == apply_term(th, apply_term(map![x => t], args[i])) by {
            lemma_extend_then(th, x, t, args[i]);
        }
        lemma_apply_fun(map![x => t], f, args);
        lemma_apply_fun(th, f, apply_terms(map![x => t], args));
        assert(apply_term(th.insert(x, apply_term(th, t)), u)->Fun_1 =~= apply_term(
            th,
            apply_term(map![x => t], u),
        )->Fun_1);
    }
}

/// Composition without a shared variable applies one substitution after the other.
pub proof fn lemma_compose_apply(n: SSubst, o: SSubst, u: STerm)
    requires
        forall|v: Seq<char>| #[trigger] n.dom().contains(v) ==> !o.dom().contains(v),
    ensures
        apply_term(compose(n, o), u) == apply_term(n, apply_term(o, u)),
    decreases u,
{
    if let STerm::Fun(f, args) = u {
        assert forall|i: int| 0 <= i < args.len() implies apply_term(compose(n, o), args[i])
            == apply_term(n, apply_term(o, args[i])) by {
            lemma_compose_apply(n, o, args[i]);
        }
        lemma_apply_fun(o, f, args);
        lemma_apply_fun(n, f, apply_terms(o, args));
        assert(apply_term(compose(n, o), u)->Fun_1 =~= apply_term(n, apply_term(o, u))->Fun_1);
    }
}

pub proof fn lemma_extend_then_unif(th: SSubst, x: Seq<char>, t: STerm, u: SUnif)
    ensures
        apply_unif(th.insert(x, apply_term(th, t)), u) == apply_unif(th, apply_unif(map![x => t], u)),
{
    match u {
        SUnif::Term(a) => lemma_extend_then(th, x, t, a),
        SUnif::Prop(p) => {
            assert forall|i: int| 0 <= i < p.terms.len() implies apply_term(
                th.insert(x, apply_term(th, t)),
                p.terms[i],
            ) == apply_term(th, apply_term(map![x => t], p.terms[i])) by {
                lemma_extend_then(th, x, t, p.terms[i]);
            }
            assert(apply_unif(th.insert(x, apply_term(th, t)), u)->Prop_0.terms =~= apply_unif(
                th,
                apply_unif(map![x => t], u),
            )->Prop_0.terms);
        },
    }
}

pub proof fn lemma_compose_apply_unif(n: SSubst, o: SSubst, u: SUnif)
    requires
        forall|v: Seq<char>| #[trigger] n.dom().contains(v) ==> !o.dom().contains(v),
    ensures
        apply_unif(compose(n, o), u) == apply_unif(n, apply_unif(o, u)),
{
    match u {
        SUnif::Term(a) => lemma_compose_apply(n, o, a),
        SUnif::Prop(p) => {
            assert forall|i: int| 0 <= i < p.terms.len() implies apply_term(compose(n, o), p.terms[i])
                == apply_term(n, apply_term(o, p.terms[i])) by {
                lemma_compose_apply(n, o, p.terms[i]);
            }
            assert(apply_unif(compose(n, o), u)->Prop_0.terms =~= apply_unif(
                n,
                apply_unif(o, u),
            )->Prop_0.terms);
        },
    }
}

pub proof fn lemma_unif_agree(s1: SSubst, s2: SSubst, u: SUnif)
    requires
        forall|v: Seq<char>|
            #[trigger] uvars(u).contains(v) ==> (s1.dom().contains(v) == s2.dom().contains(v)
                && (s1.dom().contains(v) ==> s1[v] == s2[v])),
    ensures
        apply_unif(s1, u) == apply_unif(s2, u),
{
    match u {
        SUnif::Term(a) => {
            assert(uvars(u) == tvars(a));
            lemma_apply_agree(s1, s2, a);
        },
        SUnif::Prop(p) => {
            assert forall|i: int| 0 <= i < p.terms.len() implies apply_term(s1, p.terms[i])
                == apply_term(s2, p.terms[i]) by {
                assert forall|v: Seq<char>| #[trigger] tvars(p.terms[i]).contains(v) implies (
                s1.dom().contains(v) == s2.dom().contains(v) && (s1.dom().contains(v) ==> s1[v]
                    == s2[v])) by {
                    lemma_tvars_seq(p.terms, v);
                    assert(uvars(u).contains(v));
                }
                lemma_apply_agree(s1, s2, p.terms[i]);
            }
            assert(apply_unif(s1, u)->Prop_0.terms =~= apply_unif(s2, u)->Prop_0.terms);
        },
    }
}

pub proof fn lemma_unif_untouched(s: SSubst, u: SUnif)
    requires
        forall|v: Seq<char>| uvars(u).contains(v) ==> !s.dom().contains(v),
    ensures
        apply_unif(s, u) == u,
{
    match u {
        SUnif::Term(a) => lemma_apply_untouched(s, a),
        SUnif::Prop(p) => {
            assert forall|i: int| 0 <= i < p.terms.len() implies apply_term(s, p.terms[i])
                == p.terms[i] by {
                assert forall|v: Seq<char>| tvars(p.terms[i]).contains(v) implies !s.dom().contains(
                    v,
                ) by {
                    lemma_tvars_seq(p.terms, v);
                }
                lemma_apply_untouched(s, p.terms[i]);
            }
            assert(apply_unif(s, u)->Prop_0.terms =~= p.terms);
        },
    }
}

/// The variables of `u` after binding `x` to a term `t` that does not hold `x`.
pub proof fn lemma_unif_vars_bind(x: Seq<char>, t: STerm, u: SUnif, y: Seq<char>)
    requires
        uvars(apply_unif(map![x => t], u)).contains(y),
    ensures
        (uvars(u).contains(y) && y != x) || (uvars(u).contains(x) && tvars(t).contains(y)),
{
    let m = map![x => t];
    match u {
        SUnif::Term(a) => {
            lemma_vars_apply(m, a, y);
        },
        SUnif::Prop(p) => {
            lemma_tvars_seq(apply_terms(m, p.terms), y);
            let i = choose|i: int|
                0 <= i < p.terms.len() && #[trigger] tvars(apply_terms(m, p.terms)[i]).contains(y);
            lemma_vars_apply(m, p.terms[i], y);
            lemma_tvars_seq(p.terms, y);
            lemma_tvars_seq(p.terms, x);
        },
    }
}

pub open spec fn vars_disjoint(e: Seq<(SUnif, SUnif)>, s: SSubst) -> bool {
    forall|v: Seq<char>| #[trigger] evars(e).contains(v) ==> !s.dom().contains(v)
}

pub open spec fn vars_within(e: Seq<(SUnif, SUnif)>, s: SSubst, v0: Set<Seq<char>>) -> bool {
    &&& forall|v: Seq<char>| #[trigger] evars(e).contains(v) ==> v0.contains(v)
    &&& forall|v: Seq<char>| #[trigger] s.dom().contains(v) ==> v0.contains(v)
    &&& forall|k: Seq<char>, v: Seq<char>|
        #![trigger s.dom().contains(k), tvars(s[k]).contains(v)]
        s.dom().contains(k) && tvars(s[k]).contains(v) ==> v0.contains(v)
}

/// Every unifier of the pending equations, after `s`, unifies the original ones.
pub open spec fn sound_so_far(e: Seq<(SUnif, SUnif)>, s: SSubst, e0: Seq<(SUnif, SUnif)>) -> bool {
    forall|th: SSubst|
        #[trigger] unifies(th, e) ==> forall|i: int|
            0 <= i < e0.len() ==> apply_unif(th, apply_unif(s, #[trigger] e0[i].0)) == apply_unif(
                th,
                apply_unif(s, e0[i].1),
            )
}

/// Every unifier of the original equations unifies the pending ones and is
/// left unchanged by composing it after `s`.
pub open spec fn general_so_far(e: Seq<(SUnif, SUnif)>, s: SSubst, e0: Seq<(SUnif, SUnif)>) -> bool {
    forall|th: SSubst|
        #[trigger] unifies(th, e0) ==> unifies(th, e) && forall|u: STerm|
            #[trigger] apply_term(th, apply_term(s, u)) == apply_term(th, u)
}

/// Binding `x` to what `θ` already gives it changes nothing.
pub proof fn lemma_insert_same(th: SSubst, x: Seq<char>, u: STerm)
    ensures
        apply_term(th.insert(x, apply_term(th, STerm::Var(x))), u) == apply_term(th, u),
    decreases u,
{
    let th2 = th.insert(x, apply_term(th, STerm::Var(x)));
    if let STerm::Fun(f, args) = u {
        assert forall|i: int| 0 <= i < args.len() implies apply_term(th2, args[i]) == apply_term(
            th,
            args[i],
        ) by {
            lemma_insert_same(th, x, args[i]);
        }
        assert(apply_term(th2, u)->Fun_1 =~= apply_term(th, u)->Fun_1);
    }
}

/// A substitution that unifies `x` with `t` absorbs the binding of `x` to `t`.
pub proof fn lemma_absorb(th: SSubst, x: Seq<char>, t: STerm, u: STerm)
    requires
        apply_term(th, STerm::Var(x)) == apply_term(th, t),
    ensures
        apply_term(th, apply_term(map![x => t], u)) == apply_term(th, u),
{
    lemma_extend_then(th, x, t, u);
    lemma_insert_same(th, x, u);
}

pub proof fn lemma_absorb_unif(th: SSubst, x: Seq<char>, t: STerm, u: SUnif)
    requires
        apply_term(th, STerm::Var(x)) == apply_term(th, t),
    ensures
        apply_unif(th, apply_unif(map![x => t], u)) == apply_unif(th, u),
{
    match u {
        SUnif::Term(a) => lemma_absorb(th, x, t, a),
        SUnif::Prop(p) => {
            assert forall|i: int| 0 <= i < p.terms.len() implies apply_term(
                th,
                apply_term(map![x => t], p.terms[i]),
            ) == apply_term(th, p.terms[i]) by {
                lemma_absorb(th, x, t, p.terms[i]);
            }
            assert(apply_unif(th, apply_unif(map![x => t], u))->Prop_0.terms =~= apply_unif(
                th,
                u,
            )->Prop_0.terms);
        },
    }
}

pub proof fn lemma_tsizes_index(ts: Seq<STerm>, i: int)
    requires
        0 <= i < ts.len(),
    ensures
        tsizes(ts) >= tsize(ts[i]),
    decreases ts.len(),
{
    if i < ts.len() - 1 {
        lemma_tsizes_index(ts.drop_last(), i);
        assert(ts.drop_last()[i] == ts[i]);
    }
}

/// An instance of a term is at least as large as the instance of each of its
/// variables, and larger when the term is an application.
pub proof fn lemma_occurs_size(th: SSubst, x: Seq<char>, t: STerm)
    requires
        tvars(t).contains(x),
    ensures
        tsize(apply_term(th, t)) >= tsize(apply_term(th, STerm::Var(x))),
        t is Fun ==> tsize(apply_term(th, t)) > tsize(apply_term(th, STerm::Var(x))),
    decreases t,
{
    if let STerm::Fun(f, args) = t {
        lemma_tvars_seq(args, x);
        let i = choose|i: int| 0 <= i < args.len() && #[trigger] tvars(args[i]).contains(x);
        lemma_occurs_size(th, x, args[i]);
        lemma_apply_fun(th, f, args);
        lemma_tsizes_index(apply_terms(th, args), i);
    }
}

/// An equation that the loop rejects has no unifier.
proof fn lemma_rejected(a: SUnif, b: SUnif, th: SSubst)
    requires
        decomposition(a, b) is None,
        !trivial_pair(a, b),
        bind_case(a, b) is None || (bind_case(a, b) matches Some((x, t)) && tvars(t).contains(x)),
    ensures
        apply_unif(th, a) != apply_unif(th, b),
{
    if apply_unif(th, a) == apply_unif(th, b) {
        match bind_case(a, b) {
            Some((x, t)) => {
                assert(!(t is Var)) by {
                    if let STerm::Var(y) = t {
                        assert(tvars(t).contains(x));
                        assert(y == x);
                    }
                }
                assert(t is Fun) by {
                    if t is Num {
                        assert(tvars(t) =~= Set::empty());
                    }
                }
                lemma_occurs_size(th, x, t);
                assert(apply_term(th, STerm::Var(x)) == apply_term(th, t)) by {
                    if a == SUnif::Term(STerm::Var(x)) {
                        assert(b == SUnif::Term(t));
                    } else {
                        assert(a == SUnif::Term(t) && b == SUnif::Term(STerm::Var(x)));
                    }
                }
            },
            None => {
                match (a, b) {
                    (SUnif::Term(t1), SUnif::Term(t2)) => {
                        assert(!(t1 is Var) && !(t2 is Var));
                        match (t1, t2) {
                            (STerm::Fun(f, xs), STerm::Fun(g, ys)) => {
                                lemma_apply_fun(th, f, xs);
                                lemma_apply_fun(th, g, ys);
                                assert(apply_terms(th, xs).len() == xs.len());
                                assert(apply_terms(th, ys).len() == ys.len());
                            },
                            (STerm::Fun(f, xs), _) => {
                                lemma_apply_fun(th, f, xs);
                            },
                            (_, STerm::Fun(g, ys)) => {
                                lemma_apply_fun(th, g, ys);
                            },
                            _ => {},
                        }
                    },
                    (SUnif::Prop(p), SUnif::Prop(q)) => {
                        assert(apply_terms(th, p.terms).len() == p.terms.len());
                        assert(apply_terms(th, q.terms).len() == q.terms.len());
                    },
                    _ => {},
                }
            },
        }
    }
}

/// The binding step keeps the invariants of the unification loop.
proof fn lemma_bind_step(
    s: SSubst,
    x: Seq<char>,
    t: STerm,
    rest: Seq<(SUnif, SUnif)>,
    a: SUnif,
    b: SUnif,
    e0: Seq<(SUnif, SUnif)>,
    v0: Set<Seq<char>>,
)
    requires
        idempotent(s),
        bind_case(a, b) == Some((x, t)),
        !tvars(t).contains(x),
        vars_disjoint(rest.push((a, b)), s),
        vars_within(rest.push((a, b)), s, v0),
        sound_so_far(rest.push((a, b)), s, e0),
        general_so_far(rest.push((a, b)), s, e0),
    ensures
        ({
            let s2 = compose(map![x => t], s);
            let e2 = apply_eqs(s2, rest);
            &&& general_so_far(e2, s2, e0)
            &&& idempotent(s2)
            &&& s2.dom() == s.dom().insert(x)
            &&& !s.dom().contains(x)
            &&& v0.contains(x)
            &&& vars_disjoint(e2, s2)
            &&& vars_within(e2, s2, v0)
            &&& sound_so_far(e2, s2, e0)
        }),
{
    let m = map![x => t];
    let s2 = compose(m, s);
    let e = rest.push((a, b));
    let e2 = apply_eqs(s2, rest);
    assert(e[e.len() - 1] == (a, b));
    assert(uvars(a).contains(x) || uvars(b).contains(x)) by {
        match a {
            SUnif::Term(STerm::Var(y)) => {
                if y == x {
                    assert(tvars(STerm::Var(y)).contains(x));
                } else {
                    assert(tvars(STerm::Var(x)).contains(x));
                }
            },
            _ => {
                assert(tvars(STerm::Var(x)).contains(x));
            },
        }
    }
    assert forall|v: Seq<char>| tvars(t).contains(v) implies uvars(a).contains(v) || uvars(
        b,
    ).contains(v) by {}
    lemma_evars(e, x);
    assert(evars(e).contains(x));
    assert(!s.dom().contains(x));
    assert(v0.contains(x));
    assert(s2.dom() =~= s.dom().insert(x));
    // The pending equations only mention unbound variables, so `s2` acts on them as `m`.
    assert forall|i: int| 0 <= i < rest.len() implies apply_unif(s2, #[trigger] rest[i].0)
        == apply_unif(m, rest[i].0) && apply_unif(s2, rest[i].1) == apply_unif(m, rest[i].1) by {
        assert(e[i] == rest[i]);
        assert forall|v: Seq<char>| #[trigger] uvars(rest[i].0).contains(v) implies (
        s2.dom().contains(v) == m.dom().contains(v) && (s2.dom().contains(v) ==> s2[v] == m[v])) by {
            lemma_evars(e, v);
        }
        assert forall|v: Seq<char>| #[trigger] uvars(rest[i].1).contains(v) implies (
        s2.dom().contains(v) == m.dom().contains(v) && (s2.dom().contains(v) ==> s2[v] == m[v])) by {
            lemma_evars(e, v);
        }
        lemma_unif_agree(s2, m, rest[i].0);
        lemma_unif_agree(s2, m, rest[i].1);
    }
    // Where the variables of the new equations come from.
    assert forall|v: Seq<char>| #[trigger] evars(e2).contains(v) implies evars(e).contains(v) && v
        != x by {
        lemma_evars(e2, v);
        let i = choose|i: int|
            0 <= i < e2.len() && (uvars(#[trigger] e2[i].0).contains(v) || uvars(e2[i].1).contains(
                v,
            ));
        assert(e[i] == rest[i]);
        if uvars(e2[i].0).contains(v) {
            lemma_unif_vars_bind(x, t, rest[i].0, v);
        } else {
            lemma_unif_vars_bind(x, t, rest[i].1, v);
        }
        lemma_evars(e, v);
        assert(evars(e).contains(v));
    }
    // Idempotence of the composition.
    assert forall|k: Seq<char>, y: Seq<char>|
        #![trigger s2.dom().contains(k), tvars(s2[k]).contains(y)]
        s2.dom().contains(k) && tvars(s2[k]).contains(y) implies !s2.dom().contains(y) by {
        if k == x {
            assert(s2[k] == t);
            lemma_evars(e, y);
        } else {
            assert(s2[k] == apply_term(m, s[k]));
            lemma_vars_apply(m, s[k], y);
            if tvars(s[k]).contains(y) && !m.dom().contains(y) {
            } else {
                lemma_evars(e, y);
            }
        }
    }
    // The images only mention variables of the original equations.
    assert forall|k: Seq<char>, y: Seq<char>|
        #![trigger s2.dom().contains(k), tvars(s2[k]).contains(y)]
        s2.dom().contains(k) && tvars(s2[k]).contains(y) implies v0.contains(y) by {
        if k == x {
            assert(s2[k] == t);
            lemma_evars(e, y);
        } else {
            assert(s2[k] == apply_term(m, s[k]));
            lemma_vars_apply(m, s[k], y);
            if tvars(s[k]).contains(y) && !m.dom().contains(y) {
            } else {
                lemma_evars(e, y);
            }
        }
    }
    // Soundness: a unifier of the new equations, extended by x, unifies the old ones.
    assert forall|th: SSubst| #[trigger] unifies(th, e2) implies forall|i: int|
        0 <= i < e0.len() ==> apply_unif(th, apply_unif(s2, #[trigger] e0[i].0)) == apply_unif(
            th,
            apply_unif(s2, e0[i].1),
        ) by {
        let th2 = th.insert(x, apply_term(th, t));
        assert forall|i: int| 0 <= i < e.len() implies apply_unif(th2, #[trigger] e[i].0)
            == apply_unif(th2, e[i].1) by {
            lemma_extend_then_unif(th, x, t, e[i].0);
            lemma_extend_then_unif(th, x, t, e[i].1);
            if i < rest.len() {
                assert(e[i] == rest[i]);
                assert(e2[i].0 == apply_unif(m, rest[i].0));
            } else {
                assert(e[i] == (a, b));
                let ta = SUnif::Term(t);
                assert(apply_unif(m, ta) == ta) by {
                    lemma_unif_untouched(m, ta);
                }
                assert(apply_unif(m, SUnif::Term(STerm::Var(x))) == ta);
            }
        }
        assert(unifies(th2, e));
        assert forall|i: int| 0 <= i < e0.len() implies apply_unif(
            th,
            apply_unif(s2, #[trigger] e0[i].0),
        ) == apply_unif(th, apply_unif(s2, e0[i].1)) by {
            assert forall|v: Seq<char>| #[trigger] m.dom().contains(v) implies !s.dom().contains(v) by {}
            lemma_compose_apply_unif(m, s, e0[i].0);
            lemma_compose_apply_unif(m, s, e0[i].1);
            lemma_extend_then_unif(th, x, t, apply_unif(s, e0[i].0));
            lemma_extend_then_unif(th, x, t, apply_unif(s, e0[i].1));
        }
    }
    // Generality: a unifier of the original equations agrees with x ↦ t.
    assert forall|th: SSubst| #[trigger] unifies(th, e0) implies unifies(th, e2) && forall|u: STerm|
        #[trigger] apply_term(th, apply_term(s2, u)) == apply_term(th, u) by {
        assert(unifies(th, e));
        assert(apply_unif(th, e[e.len() - 1].0) == apply_unif(th, e[e.len() - 1].1));
        assert(apply_term(th, STerm::Var(x)) == apply_term(th, t)) by {
            if a == SUnif::Term(STerm::Var(x)) && b == SUnif::Term(t) {
            } else {
                assert(a == SUnif::Term(t) && b == SUnif::Term(STerm::Var(x)));
            }
        }
        assert forall|u: STerm| #[trigger] apply_term(th, apply_term(s2, u)) == apply_term(th, u) by {
            assert forall|v: Seq<char>| #[trigger] m.dom().contains(v) implies !s.dom().contains(v) by {}
            lemma_compose_apply(m, s, u);
            lemma_absorb(th, x, t, apply_term(s, u));
        }
        assert forall|i: int| 0 <= i < e2.len() implies apply_unif(th, #[trigger] e2[i].0)
            == apply_unif(th, e2[i].1) by {
            assert(e[i] == rest[i]);
            lemma_absorb_unif(th, x, t, rest[i].0);
            lemma_absorb_unif(th, x, t, rest[i].1);
        }
    }
}

fn clash() -> (r: MguError)
    ensures
        r is Clash,
{
    MguError::Clash(String::from_str("the two sides have different heads"))
}

/// Splits an equation between two applications of one symbol into the
/// equations between their arguments.
fn decompose(pair: &(Unifiable, Unifiable)) -> (r: Result<Vec<(Unifiable, Unifiable)>, MguError>)
    ensures
        match r {
            Ok(v) => decomposition(pair.0@, pair.1@) == Some(eqs_view(v@)),
            Err(_) => decomposition(pair.0@, pair.1@) is None,
        },
{
    let (xs, ys) = match pair {
        (
            Unifiable::Term(Term::FunctionApplication { name: f, args: xs }),
            Unifiable::Term(Term::FunctionApplication { name: g, args: ys }),
        ) => {
            if !str_eq(f, g) || xs.len() != ys.len() {
                return Err(clash());
            }
            (xs, ys)
        },
        (Unifiable::Prop(p), Unifiable::Prop(q)) => {
            if !str_eq(&p.name, &q.name) || p.terms.len() != q.terms.len() {
                return Err(clash());
            }
            (&p.terms, &q.terms)
        },
        _ => {
            return Err(clash());
        },
    };
    let mut out: Vec<(Unifiable, Unifiable)> = Vec::new();
    let mut i: usize = 0;
    while i < xs.len()
        invariant
            xs.len() == ys.len(),
            i <= xs.len(),
            out@.len() == i,
            forall|j: int|
                0 <= j < i ==> (#[trigger] out@[j]).0@ == SUnif::Term(xs@[j]@) && out@[j].1@
                    == SUnif::Term(ys@[j]@),
        decreases xs.len() - i,
    {
        out.push((Unifiable::Term(xs[i].copy()), Unifiable::Term(ys[i].copy())));
        i = i + 1;
    }
    assert(decomposition(pair.0@, pair.1@)->Some_0 =~= eqs_view(out@));
    Ok(out)
}

/// Solves an equation with a variable on one side, or one between a variable or
/// a number and itself.
fn delete(pair: &(Unifiable, Unifiable)) -> (r: Result<Substitution, MguError>)
    ensures
        r is Ok ==> r->Ok_0.wf(),
        r is Ok && trivial_pair(pair.0@, pair.1@) ==> r->Ok_0@ == Map::<Seq<char>, STerm>::empty(),
        r is Ok && !trivial_pair(pair.0@, pair.1@) ==> (bind_case(pair.0@, pair.1@) matches Some((x, t))
            && !tvars(t).contains(x) && r->Ok_0@ == map![x => t]),
        (r is Err && r->Err_0 is OccurCheck) ==> (bind_case(pair.0@, pair.1@) matches Some((x, t))
            && tvars(t).contains(x)),
        r is Err && !(r is Err && r->Err_0 is OccurCheck) ==> (!trivial_pair(pair.0@, pair.1@)
            && bind_case(pair.0@, pair.1@) is None),
        (bind_case(pair.0@, pair.1@) matches Some((x, t)) && tvars(t).contains(x)) ==> (r is Err
            && r->Err_0 is OccurCheck),
        r is Err && !(r->Err_0 is OccurCheck) ==> (r->Err_0 is UnificationError <==> ((pair.0@ is Term)
            != (pair.1@ is Term))),
{
    match pair {
        (Unifiable::Term(Term::Identifier(x)), Unifiable::Term(Term::Identifier(y))) => {
            if str_eq(x, y) {
                assert(pair.0@ == pair.1@);
                assert(trivial_pair(pair.0@, pair.1@));
                Ok(Substitution::new())
            } else {
                let t = Term::Identifier(copy_string(y));
                assert(!tvars(t@).contains(x@));
                assert(bind_case(pair.0@, pair.1@) == Some((x@, t@)));
                assert(!trivial_pair(pair.0@, pair.1@));
                Ok(Substitution::singleton(copy_string(x), t))
            }
        },
        (Unifiable::Term(Term::Identifier(x)), Unifiable::Term(t)) => {
            assert(!(t@ is Var));
            if occurs_check(x, t) {
                let e = MguError::OccurCheck(String::from_str("a variable occurs in its own binding"));
                assert(bind_case(pair.0@, pair.1@) == Some((x@, t@)));
                return Err(e);
            }
            Ok(Substitution::singleton(copy_string(x), t.copy()))
        },
        (Unifiable::Term(t), Unifiable::Term(Term::Identifier(x))) => {
            assert(!(t@ is Var));
            if occurs_check(x, t) {
                return Err(MguError::OccurCheck(String::from_str("a variable occurs in its own binding")));
            }
            Ok(Substitution::singleton(copy_string(x), t.copy()))
        },
        (Unifiable::Term(Term::Number(n)), Unifiable::Term(Term::Number(m))) => {
            if *n == *m {
                Ok(Substitution::new())
            } else {
                Err(clash())
            }
        },
        (Unifiable::Term(_), Unifiable::Term(_)) => Err(clash()),
        (Unifiable::Prop(_), Unifiable::Prop(_)) => Err(clash()),
        _ => Err(
            MguError::UnificationError(String::from_str("a term against a proposition")),
        ),
    }
}

/// Whether the variable `x` occurs in `t`.
pub fn occurs_check(x: &String, t: &Term) -> (r: bool)
    ensures
        r == tvars(t@).contains(x@),
    decreases t,
{
    match t {
        Term::Identifier(y) => str_eq(x, y),
        Term::FunctionApplication { name, args } => {
            let mut i: usize = 0;
            while i < args.len()
                invariant
                    i <= args.len(),
                    forall|j: int| 0 <= j < i ==> !tvars(args@[j]@).contains(x@),
                    *t == (Term::FunctionApplication { name: *name, args: *args }),
                decreases args.len() - i,
            {
                assert(decreases_to!(*t => (*t)->args));
                assert(decreases_to!(*args => args@));
                assert(decreases_to!(args@ => args@[i as int]));
                if occurs_check(x, &args[i]) {
                    proof {
                        lemma_tvars_seq(t@->Fun_1, x@);
                        assert(tvars(t@->Fun_1[i as int]).contains(x@));
                    }
                    return true;
                }
                i = i + 1;
            }
            proof {
                lemma_tvars_seq(t@->Fun_1, x@);
            }
            false
        },
        Term::Number(_) => false,
    }
}

/// Why the worklist algorithm rejects an equation.
pub enum SFailure {
    Clash,
    OccurCheck,
    Mismatch,
}

/// The failure that an equation which neither decomposes, nor is trivial, nor
/// binds a variable, gives: an occurs check when a variable meets a term that
/// holds it, a mismatch for a term against a proposition, a clash otherwise.
pub open spec fn rejection(a: SUnif, b: SUnif) -> SFailure {
    if bind_case(a, b) is Some {
        SFailure::OccurCheck
    } else if (a is Term) != (b is Term) {
        SFailure::Mismatch
    } else {
        SFailure::Clash
    }
}

pub open spec fn failure_of(e: MguError) -> SFailure {
    match e {
        MguError::Clash(_) => SFailure::Clash,
        MguError::OccurCheck(_) => SFailure::OccurCheck,
        MguError::UnificationError(_) => SFailure::Mismatch,
    }
}

/// The outcome of the unification worklist from the pending equations and the
/// substitution so far: the last equation is taken; applications of one symbol
/// are decomposed, an equation between a value and itself is dropped, a
/// variable is bound (its binding composed in and applied to the rest) unless
/// it occurs in its term, and any other equation is rejected.
pub open spec fn run(pending: Seq<(SUnif, SUnif)>, s: SSubst, v0: Set<Seq<char>>) -> Result<
    SSubst,
    SFailure,
>
    decreases v0.difference(s.dom()).len(), esize(pending),
{
    if pending.len() == 0 {
        Ok(s)
    } else {
        let a = pending.last().0;
        let b = pending.last().1;
        let rest = pending.drop_last();
        match decomposition(a, b) {
            Some(d) => if esize(rest + d) < esize(pending) {
                run(rest + d, s, v0)
            } else {
                Ok(s)
            },
            None => if trivial_pair(a, b) {
                if esize(rest) < esize(pending) {
                    run(rest, s, v0)
                } else {
                    Ok(s)
                }
            } else {
                match bind_case(a, b) {
                    Some((x, t)) => if tvars(t).contains(x) {
                        Err(SFailure::OccurCheck)
                    } else {
                        let s2 = compose(map![x => t], s);
                        if v0.difference(s2.dom()).len() < v0.difference(s.dom()).len() {
                            run(apply_eqs(s2, rest), s2, v0)
                        } else {
                            Ok(s)
                        }
                    },
                    None => Err(rejection(a, b)),
                }
            },
        }
    }
}

/// The single equation `e` is rejected at once: its sides neither decompose
/// nor are equal, and no variable can be bound.
pub open spec fn rejected_at_once(e: Seq<(SUnif, SUnif)>) -> bool {
    &&& e.len() == 1
    &&& decomposition(e[0].0, e[0].1) is None
    &&& !trivial_pair(e[0].0, e[0].1)
    &&& (bind_case(e[0].0, e[0].1) is None || (bind_case(e[0].0, e[0].1) matches Some((x, t))
        && tvars(t).contains(x)))
}

/// A most general unifier of `equations`: an idempotent substitution that makes
/// both sides of each equation equal.
pub fn mgu(equations: Vec<(Unifiable, Unifiable)>) -> (r: Result<Substitution, MguError>)
    ensures
        r is Ok <==> unifiable(eqs_view(equations@)),
        r matches Ok(s) ==> run(eqs_view(equations@), Map::empty(), evars(eqs_view(equations@)))
            == Ok::<SSubst, SFailure>(s@),
        r matches Err(e) ==> run(eqs_view(equations@), Map::empty(), evars(eqs_view(equations@)))
            == Err::<SSubst, SFailure>(failure_of(e)),
        rejected_at_once(eqs_view(equations@)) ==> ({
            let (a, b) = eqs_view(equations@)[0];
            &&& r is Err
            &&& (bind_case(a, b) is Some <==> r->Err_0 is OccurCheck)
            &&& (r->Err_0 is UnificationError <==> (bind_case(a, b) is None && ((a is Term) != (
                b is Term))))
            &&& (r->Err_0 is Clash <==> (bind_case(a, b) is None && ((a is Term) == (b is Term))))
        }),
        r matches Ok(s) ==> {
            &&& s.wf()
            &&& idempotent(s@)
            &&& unifies(s@, eqs_view(equations@))
            &&& forall|v: Seq<char>| #[trigger] s@.dom().contains(v) ==> evars(eqs_view(equations@)).contains(v)
            &&& forall|k: Seq<char>, v: Seq<char>|
                #![trigger s@.dom().contains(k), tvars(s@[k]).contains(v)]
                s@.dom().contains(k) && tvars(s@[k]).contains(v) ==> evars(eqs_view(equations@)).contains(v)
            &&& forall|th: SSubst, u: STerm| #[trigger] unifies(th, eqs_view(equations@)) ==> #[trigger] apply_term(th, apply_term(s@, u)) == apply_term(th, u)
        },
{
    let ghost e0 = eqs_view(equations@);
    let ghost v0 = evars(e0);
    let mut pending = equations;
    let mut sub = empty_substitution();
    let ghost mut first = true;
    proof {
        lemma_evars_finite(e0);
        assert forall|th: SSubst| #[trigger] unifies(th, e0) implies unifies(th, e0) && forall|u: STerm|
            #[trigger] apply_term(th, apply_term(sub@, u)) == apply_term(th, u) by {
            assert forall|u: STerm| #[trigger] apply_term(th, apply_term(sub@, u)) == apply_term(th, u) by {
                lemma_apply_untouched(sub@, u);
            }
        }
        assert forall|th: SSubst| #[trigger] unifies(th, e0) implies forall|i: int|
            0 <= i < e0.len() ==> apply_unif(th, apply_unif(sub@, #[trigger] e0[i].0)) == apply_unif(
                th,
                apply_unif(sub@, e0[i].1),
            ) by {
            assert forall|i: int| 0 <= i < e0.len() implies apply_unif(
                th,
                apply_unif(sub@, #[trigger] e0[i].0),
            ) == apply_unif(th, apply_unif(sub@, e0[i].1)) by {
                lemma_unif_untouched(sub@, e0[i].0);
                lemma_unif_untouched(sub@, e0[i].1);
            }
        }
    }
    loop
        invariant
            sub.wf(),
            e0 == eqs_view(equations@),
            v0 == evars(e0),
            v0.finite(),
            idempotent(sub@),
            vars_disjoint(eqs_view(pending@), sub@),
            vars_within(eqs_view(pending@), sub@, v0),
            sound_so_far(eqs_view(pending@), sub@, e0),
            general_so_far(eqs_view(pending@), sub@, e0),
            first ==> eqs_view(pending@) == e0,
            run(e0, Map::empty(), v0) == run(eqs_view(pending@), sub@, v0),
            !first ==> !rejected_at_once(e0),
        decreases v0.difference(sub@.dom()).len(), esize(eqs_view(pending@)),
    {
        let ghost before = eqs_view(pending@);
        let pair = match pending.pop() {
            Some(p) => p,
            None => {
                proof {
                    let em = Map::<Seq<char>, STerm>::empty();
                    assert(unifies(em, eqs_view(pending@)));
                    assert(sound_so_far(eqs_view(pending@), sub@, e0));
                    assert forall|i: int| 0 <= i < e0.len() implies apply_unif(
                        sub@,
                        #[trigger] e0[i].0,
                    ) == apply_unif(sub@, e0[i].1) by {
                        lemma_unif_untouched(em, apply_unif(sub@, e0[i].0));
                        lemma_unif_untouched(em, apply_unif(sub@, e0[i].1));
                    }
                }
                assert(unifies(sub@, e0));
                assert(unifiable(e0));
                return Ok(sub);
            },
        };
        let ghost rest = eqs_view(pending@);
        let ghost a = pair.0@;
        let ghost b = pair.1@;
        proof {
            assert(before =~= rest.push((a, b)));
            assert(before.last() == (a, b));
            assert(before.drop_last() =~= rest);
            if first && e0.len() == 1 {
                assert(before[before.len() - 1] == (a, b));
                assert(e0[0] == (a, b));
            }
        }
        match decompose(&pair) {
            Ok(parts) => {
                proof {
                    first = false;
                }
                let ghost d = eqs_view(parts@);
                let mut parts = parts;
                pending.append(&mut parts);
                proof {
                    assert(eqs_view(pending@) =~= rest + d);
                    lemma_decompose_step(rest, a, b, sub@, e0, v0);
                    assert(run(before, sub@, v0) == run(rest + d, sub@, v0));
                }
            },
            Err(_) => {
                match delete(&pair) {
                    Ok(s) => {
                        proof {
                            first = false;
                        }
                        if !s.is_empty() {
                            let ghost x = bind_case(a, b)->Some_0.0;
                            let ghost t = bind_case(a, b)->Some_0.1;
                            let ghost old_dom = sub@.dom();
                            let ghost old_sub = sub@;
                            proof {
                                lemma_bind_step(sub@, x, t, rest, a, b, e0, v0);
                            }
                            apply_substitution_to_sub(&s, &mut sub);
                            apply_substitution_to_equation(&sub, &mut pending);
                            proof {
                                assert(v0.difference(sub@.dom()) =~= v0.difference(old_dom).remove(x));
                                assert(v0.difference(sub@.dom()).len() < v0.difference(old_dom).len());
                                assert(sub@ == compose(map![x => t], old_sub));
                                assert(run(before, old_sub, v0) == run(eqs_view(pending@), sub@, v0));
                            }
                        } else {
                            proof {
                                assert(trivial_pair(a, b)) by {
                                    if !trivial_pair(a, b) {
                                        assert(s@.dom().contains(bind_case(a, b)->Some_0.0));
                                    }
                                }
                                lemma_trivial_step(rest, a, sub@, e0, v0);
                                assert(run(before, sub@, v0) == run(rest, sub@, v0));
                            }
                        }
                    },
                    Err(e) => {
                        proof {
                            assert(failure_of(e) == rejection(a, b));
                            if rejected_at_once(e0) {
                                assert(first);
                                assert(before == e0);
                                assert(before[before.len() - 1] == (a, b));
                                assert(e0[0] == (a, b));
                            }
                            assert forall|th: SSubst| !unifies(th, e0) by {
                                if unifies(th, e0) {
                                    assert(unifies(th, before));
                                    assert(before[before.len() - 1] == (a, b));
                                    lemma_rejected(a, b, th);
                                }
                            }
                        }
                        return Err(e);
                    },
                }
            },
        }
    }
}

pub proof fn lemma_esize_concat(e: Seq<(SUnif, SUnif)>, d: Seq<(SUnif, SUnif)>)
    ensures
        esize(e + d) == esize(e) + esize(d),
    decreases d.len(),
{
    if d.len() > 0 {
        lemma_esize_concat(e, d.drop_last());
        assert((e + d).drop_last() =~= e + d.drop_last());
    }
}

pub proof fn lemma_esize_zip(xs: Seq<STerm>, ys: Seq<STerm>)
    requires
        xs.len() == ys.len(),
    ensures
        esize(Seq::new(xs.len(), |i: int| (SUnif::Term(xs[i]), SUnif::Term(ys[i]))))
            == tsizes(xs) + tsizes(ys),
    decreases xs.len(),
{
    if xs.len() > 0 {
        lemma_esize_zip(xs.drop_last(), ys.drop_last());
        assert(Seq::new(xs.len(), |i: int| (SUnif::Term(xs[i]), SUnif::Term(ys[i]))).drop_last()
            =~= Seq::new(
            xs.drop_last().len(),
            |i: int| (SUnif::Term(xs.drop_last()[i]), SUnif::Term(ys.drop_last()[i])),
        ));
    }
}

/// Replacing an equation by its argument equations keeps the invariants of the
/// unification loop and shrinks the worklist.
proof fn lemma_decompose_step(
    rest: Seq<(SUnif, SUnif)>,
    a: SUnif,
    b: SUnif,
    s: SSubst,
    e0: Seq<(SUnif, SUnif)>,
    v0: Set<Seq<char>>,
)
    requires
        decomposition(a, b) is Some,
        vars_disjoint(rest.push((a, b)), s),
        vars_within(rest.push((a, b)), s, v0),
        sound_so_far(rest.push((a, b)), s, e0),
        general_so_far(rest.push((a, b)), s, e0),
    ensures
        ({
            let e2 = rest + decomposition(a, b)->Some_0;
            &&& general_so_far(e2, s, e0)
            &&& vars_disjoint(e2, s)
            &&& vars_within(e2, s, v0)
            &&& sound_so_far(e2, s, e0)
            &&& esize(e2) < esize(rest.push((a, b)))
        }),
{
    let d = decomposition(a, b)->Some_0;
    let e = rest.push((a, b));
    let e2 = rest + d;
    assert(e[e.len() - 1] == (a, b));
    let (xs, ys) = match (a, b) {
        (SUnif::Term(STerm::Fun(_, xs)), SUnif::Term(STerm::Fun(_, ys))) => (xs, ys),
        (SUnif::Prop(p), SUnif::Prop(q)) => (p.terms, q.terms),
        _ => (Seq::empty(), Seq::empty()),
    };
    assert(d == Seq::new(xs.len(), |i: int| (SUnif::Term(xs[i]), SUnif::Term(ys[i]))));
    assert(uvars(a) == tvars_seq(xs));
    assert(uvars(b) == tvars_seq(ys));
    assert(usz(a) == 1 + tsizes(xs));
    assert(usz(b) == 1 + tsizes(ys));
    lemma_esize_concat(rest, d);
    lemma_esize_zip(xs, ys);
    assert(e.drop_last() =~= rest);
    assert forall|i: int| 0 <= i < rest.len() implies #[trigger] e2[i] == rest[i] && e[i] == rest[i] by {}
    assert forall|j: int| 0 <= j < d.len() implies #[trigger] e2[rest.len() + j] == d[j] by {}
    assert forall|v: Seq<char>| #[trigger] evars(e2).contains(v) implies evars(e).contains(v) by {
        lemma_evars(e2, v);
        lemma_evars(e, v);
        let i = choose|i: int|
            0 <= i < e2.len() && (uvars(#[trigger] e2[i].0).contains(v) || uvars(e2[i].1).contains(
                v,
            ));
        if i < rest.len() {
            assert(e2[i] == rest[i]);
            assert(e[i] == rest[i]);
        } else {
            let j = i - rest.len();
            assert(e2[i] == d[j]);
            lemma_tvars_seq(xs, v);
            lemma_tvars_seq(ys, v);
            assert(uvars(a).contains(v) || uvars(b).contains(v));
        }
    }
    assert forall|th: SSubst| #[trigger] unifies(th, e2) implies forall|i: int|
        0 <= i < e0.len() ==> apply_unif(th, apply_unif(s, #[trigger] e0[i].0)) == apply_unif(
            th,
            apply_unif(s, e0[i].1),
        ) by {
        assert forall|i: int| 0 <= i < e.len() implies apply_unif(th, #[trigger] e[i].0)
            == apply_unif(th, e[i].1) by {
            if i < rest.len() {
                assert(e2[i] == rest[i]);
                assert(e[i] == rest[i]);
                assert(apply_unif(th, e2[i].0) == apply_unif(th, e2[i].1));
            } else {
                assert forall|j: int| 0 <= j < xs.len() implies apply_term(th, xs[j]) == apply_term(
                    th,
                    ys[j],
                ) by {
                    let k = rest.len() + j;
                    assert(e2[k] == d[j]);
                    assert(apply_unif(th, e2[k].0) == apply_unif(th, e2[k].1));
                }
                assert(apply_terms(th, xs) =~= apply_terms(th, ys));
                match (a, b) {
                    (SUnif::Term(STerm::Fun(f, _)), SUnif::Term(STerm::Fun(g, _))) => {
                        lemma_apply_fun(th, f, xs);
                        lemma_apply_fun(th, g, ys);
                    },
                    _ => {},
                }
            }
        }
        assert(unifies(th, e));
    }
    assert forall|th: SSubst| #[trigger] unifies(th, e0) implies unifies(th, e2) && forall|u: STerm|
        #[trigger] apply_term(th, apply_term(s, u)) == apply_term(th, u) by {
        assert(unifies(th, e));
        assert(apply_unif(th, e[e.len() - 1].0) == apply_unif(th, e[e.len() - 1].1));
        match (a, b) {
            (SUnif::Term(STerm::Fun(f, _)), SUnif::Term(STerm::Fun(g, _))) => {
                lemma_apply_fun(th, f, xs);
                lemma_apply_fun(th, g, ys);
            },
            _ => {},
        }
        assert(apply_terms(th, xs) == apply_terms(th, ys));
        assert forall|i: int| 0 <= i < e2.len() implies apply_unif(th, #[trigger] e2[i].0)
            == apply_unif(th, e2[i].1) by {
            if i < rest.len() {
                assert(e2[i] == rest[i]);
                assert(e[i] == rest[i]);
            } else {
                let j = i - rest.len();
                assert(e2[rest.len() + j] == d[j]);
                assert(apply_terms(th, xs)[j] == apply_terms(th, ys)[j]);
            }
        }
    }
}

/// Dropping an equation between a value and itself keeps the invariants of the
/// unification loop and shrinks the worklist.
proof fn lemma_trivial_step(
    rest: Seq<(SUnif, SUnif)>,
    a: SUnif,
    s: SSubst,
    e0: Seq<(SUnif, SUnif)>,
    v0: Set<Seq<char>>,
)
    requires
        vars_disjoint(rest.push((a, a)), s),
        vars_within(rest.push((a, a)), s, v0),
        sound_so_far(rest.push((a, a)), s, e0),
        general_so_far(rest.push((a, a)), s, e0),
    ensures
        general_so_far(rest, s, e0),
        vars_disjoint(rest, s),
        vars_within(rest, s, v0),
        sound_so_far(rest, s, e0),
        esize(rest) < esize(rest.push((a, a))),
{
    let e = rest.push((a, a));
    assert(e.drop_last() =~= rest);
    assert(usz(a) >= 1) by {
        match a {
            SUnif::Term(t) => {
                match t {
                    STerm::Fun(_, _) => {},
                    _ => {},
                }
            },
            _ => {},
        }
    }
    assert forall|v: Seq<char>| #[trigger] evars(rest).contains(v) implies evars(e).contains(v) by {}
    assert forall|th: SSubst| #[trigger] unifies(th, rest) implies forall|i: int|
        0 <= i < e0.len() ==> apply_unif(th, apply_unif(s, #[trigger] e0[i].0)) == apply_unif(
            th,
            apply_unif(s, e0[i].1),
        ) by {
        assert forall|i: int| 0 <= i < e.len() implies apply_unif(th, #[trigger] e[i].0)
            == apply_unif(th, e[i].1) by {
            if i < rest.len() {
                assert(e[i] == rest[i]);
            }
        }
        assert(unifies(th, e));
    }
    assert forall|th: SSubst| #[trigger] unifies(th, e0) implies unifies(th, rest) by {
        assert(unifies(th, e));
        assert forall|i: int| 0 <= i < rest.len() implies apply_unif(th, #[trigger] rest[i].0)
            == apply_unif(th, rest[i].1) by {
            assert(e[i] == rest[i]);
        }
    }
}

} // verus!

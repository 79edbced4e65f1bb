use vstd::prelude::*;

use crate::ast::{lemma_tvars_seq, rename_term, tvars, SProp, STerm};
use crate::builtins::{
    arg, arith, arith_spec, bind_cont, builtin_conts, builtin_of, empty_list, length_spec, list_len,
    var_list, Builtin, SCont,
};
use crate::clause::{clause_vars, lit_prop, rename_clause, rename_lit, rename_prop, SLit};
use crate::ast::tvars_seq;
use crate::resolution::suffix_of;
use crate::skolem::skolem_name;
use crate::substitution::{
    apply_clause, apply_term, compose, idempotent, lemma_apply_clears, lemma_vars_apply, occurs_free,
    SSubst,
};
use crate::text::{decimal, digit};

verus! {

/// An idempotent substitution binds no variable to a term that contains it.
pub proof fn lemma_idempotent_occurs_free(s: SSubst)
    requires
        idempotent(s),
    ensures
        occurs_free(s),
{
    assert forall|k: Seq<char>| #[trigger] s.dom().contains(k) implies !tvars(s[k]).contains(k) by {
        if tvars(s[k]).contains(k) {
            assert(!s.dom().contains(k));
        }
    }
}

/// Composing an idempotent substitution into another one, when neither binds a
/// variable of the other and the new images avoid the old bindings, gives an
/// idempotent substitution.
pub proof fn lemma_compose_idempotent(new: SSubst, old: SSubst)
    requires
        idempotent(new),
        idempotent(old),
        forall|v: Seq<char>| #[trigger] new.dom().contains(v) ==> !old.dom().contains(v),
        forall|k: Seq<char>, v: Seq<char>|
            #![trigger new.dom().contains(k), tvars(new[k]).contains(v)]
            new.dom().contains(k) && tvars(new[k]).contains(v) ==> !old.dom().contains(v),
    ensures
        idempotent(compose(new, old)),
{
    let c = compose(new, old);
    assert forall|k: Seq<char>, y: Seq<char>|
        #![trigger c.dom().contains(k), tvars(c[k]).contains(y)]
        c.dom().contains(k) && tvars(c[k]).contains(y) implies !c.dom().contains(y) by {
        if new.dom().contains(k) {
            assert(c[k] == new[k]);
        } else {
            assert(c[k] == crate::substitution::apply_term(new, old[k]));
            lemma_vars_apply(new, old[k], y);
            if tvars(old[k]).contains(y) && !new.dom().contains(y) {
                assert(old.dom().contains(k) && tvars(old[k]).contains(y));
            } else {
                let v = choose|v: Seq<char>|
                    #![trigger tvars(old[k]).contains(v), new.dom().contains(v)]
                    tvars(old[k]).contains(v) && new.dom().contains(v) && tvars(new[v]).contains(y);
                assert(new.dom().contains(v) && tvars(new[v]).contains(y));
            }
        }
    }
}

proof fn lemma_digit(d: nat)
    requires
        d < 10,
    ensures
        digit(d) != '_',
        forall|e: nat| e < 10 && #[trigger] digit(e) == digit(d) ==> e == d,
{
    let ds = seq!['0', '1', '2', '3', '4', '5', '6', '7', '8', '9'];
    assert(ds[0] == '0' && ds[1] == '1' && ds[2] == '2' && ds[3] == '3' && ds[4] == '4');
    assert(ds[5] == '5' && ds[6] == '6' && ds[7] == '7' && ds[8] == '8' && ds[9] == '9');
}

/// The decimal digits hold no underscore, and there is at least one.
pub proof fn lemma_decimal_digits(n: nat)
    ensures
        decimal(n).len() >= 1,
        forall|i: int| 0 <= i < decimal(n).len() ==> #[trigger] decimal(n)[i] != '_',
    decreases n,
{
    if n < 10 {
        lemma_digit(n);
    } else {
        lemma_decimal_digits(n / 10);
        lemma_digit(n % 10);
        assert forall|i: int| 0 <= i < decimal(n).len() implies #[trigger] decimal(n)[i] != '_' by {
            if i < decimal(n).len() - 1 {
                assert(decimal(n)[i] == decimal(n / 10)[i]);
            }
        }
    }
}

/// Different numbers have different decimal digits.
pub proof fn lemma_decimal_injective(n: nat, m: nat)
    requires
        decimal(n) == decimal(m),
    ensures
        n == m,
    decreases n,
{
    lemma_decimal_digits(n);
    lemma_decimal_digits(m);
    if n < 10 && m < 10 {
        lemma_digit(n);
        lemma_digit(m);
        assert(decimal(n)[0] == digit(n));
        assert(decimal(m)[0] == digit(m));
        assert(digit(n) == digit(m));
    } else if n < 10 {
        lemma_decimal_digits(m / 10);
        assert(decimal(n).len() == 1);
        assert(decimal(m).len() == decimal(m / 10).len() + 1);
    } else if m < 10 {
        lemma_decimal_digits(n / 10);
        assert(decimal(m).len() == 1);
        assert(decimal(n).len() == decimal(n / 10).len() + 1);
    } else {
        let a = decimal(n);
        assert(a.last() == digit(n % 10));
        assert(decimal(m).last() == digit(m % 10));
        lemma_digit(n % 10);
        lemma_digit(m % 10);
        assert(decimal(n / 10) == a.drop_last());
        assert(decimal(m / 10) == decimal(m).drop_last());
        assert(digit(n % 10) == digit(m % 10));
        assert(n % 10 == m % 10);
        lemma_decimal_injective(n / 10, m / 10);
        assert(n == 10 * (n / 10) + n % 10) by (nonlinear_arith);
        assert(m == 10 * (m / 10) + m % 10) by (nonlinear_arith);
    }
}

/// A name that ends with `_` and the digits of a number determines the
/// number and what comes before.
pub proof fn lemma_suffix_split(a: Seq<char>, b: Seq<char>, n: nat, m: nat)
    requires
        a + suffix_of(n) == b + suffix_of(m),
    ensures
        n == m,
        a == b,
{
    let x = a + suffix_of(n);
    let y = b + suffix_of(m);
    let dn = decimal(n);
    let dm = decimal(m);
    lemma_decimal_digits(n);
    lemma_decimal_digits(m);
    assert(x.len() == a.len() + 1 + dn.len());
    assert(y.len() == b.len() + 1 + dm.len());
    if dn.len() < dm.len() {
        let p = x.len() - 1 - dn.len();
        assert(x[p] == '_');
        assert(y[p] == dm[p - b.len() - 1]);
    } else if dm.len() < dn.len() {
        let p = y.len() - 1 - dm.len();
        assert(y[p] == '_');
        assert(x[p] == dn[p - a.len() - 1]);
    }
    assert(dn.len() == dm.len());
    assert(a.len() == b.len());
    assert(dn =~= x.subrange(a.len() + 1int, x.len() as int));
    assert(dm =~= y.subrange(b.len() + 1int, y.len() as int));
    lemma_decimal_injective(n, m);
    assert(a =~= x.subrange(0, a.len() as int));
    assert(b =~= y.subrange(0, b.len() as int));
}

/// Skolem symbols minted under different clause indices are different, so no
/// symbol that one call of the clausifier mints appears among those of another.
pub proof fn law_skolem_fresh(v1: Seq<char>, v2: Seq<char>, k1: nat, k2: nat)
    requires
        k1 != k2,
    ensures
        skolem_name(v1, k1) != skolem_name(v2, k2),
{
    if skolem_name(v1, k1) == skolem_name(v2, k2) {
        assert(skolem_name(v1, k1) =~= (seq!['_'] + v1) + suffix_of(k1));
        assert(skolem_name(v2, k2) =~= (seq!['_'] + v2) + suffix_of(k2));
        lemma_suffix_split(seq!['_'] + v1, seq!['_'] + v2, k1, k2);
    }
}

/// Every variable of a renamed term is a variable name followed by the suffix.
pub proof fn lemma_renamed_term_vars(t: STerm, suffix: Seq<char>, y: Seq<char>)
    requires
        tvars(rename_term(t, suffix)).contains(y),
    ensures
        exists|x: Seq<char>| y == x + suffix,
    decreases t,
{
    match t {
        STerm::Var(x) => {
            assert(y == x + suffix);
        },
        STerm::Fun(f, args) => {
            let ra = rename_term(t, suffix)->Fun_1;
            lemma_tvars_seq(ra, y);
            let i = choose|i: int| 0 <= i < ra.len() && #[trigger] tvars(ra[i]).contains(y);
            lemma_renamed_term_vars(args[i], suffix, y);
        },
        STerm::Num(_) => {},
    }
}

/// Every variable of a renamed clause is a variable name followed by the suffix.
pub proof fn lemma_renamed_clause_vars(c: Seq<SLit>, suffix: Seq<char>, y: Seq<char>)
    requires
        clause_vars(rename_clause(c, suffix)).contains(y),
    ensures
        exists|x: Seq<char>| y == x + suffix,
    decreases c.len(),
{
    let rc = rename_clause(c, suffix);
    if c.len() > 0 {
        assert(rc.drop_last() =~= rename_clause(c.drop_last(), suffix));
        if clause_vars(rc.drop_last()).contains(y) {
            lemma_renamed_clause_vars(c.drop_last(), suffix, y);
        } else {
            let p = lit_prop(c.last());
            let rp = lit_prop(rc.last());
            assert(rc.last() == rename_lit(c.last(), suffix));
            assert(rp == rename_prop(p, suffix));
            lemma_tvars_seq(rp.terms, y);
            let i = choose|i: int| 0 <= i < rp.terms.len() && #[trigger] tvars(rp.terms[i]).contains(y);
            lemma_renamed_term_vars(p.terms[i], suffix, y);
        }
    }
}

/// Two uses of a clause, renamed with the suffixes of two different counter
/// values, share no variable.
pub proof fn law_renaming_apart(c: Seq<SLit>, n: nat, m: nat)
    requires
        n != m,
    ensures
        clause_vars(rename_clause(c, suffix_of(n))).disjoint(clause_vars(rename_clause(c, suffix_of(m)))),
{
    assert forall|y: Seq<char>|
        clause_vars(rename_clause(c, suffix_of(n))).contains(y) implies !clause_vars(
        rename_clause(c, suffix_of(m)),
    ).contains(y) by {
        lemma_renamed_clause_vars(c, suffix_of(n), y);
        if clause_vars(rename_clause(c, suffix_of(m))).contains(y) {
            lemma_renamed_clause_vars(c, suffix_of(m), y);
            let a = choose|x: Seq<char>| y == x + suffix_of(n);
            let b = choose|x: Seq<char>| y == x + suffix_of(m);
            lemma_suffix_split(a, b, n, m);
        }
    }
}

/// `Length(L, 0)` succeeds exactly when `L` unifies with `empty_list()`.
pub proof fn law_length_zero(goal: Seq<SLit>, sub: SSubst, p: SProp, suffix: Seq<char>)
    requires
        p.terms.len() == 2,
        arg(sub, p, 1) == STerm::Num(0),
    ensures
        length_spec(goal, sub, p, suffix) is Some <==> exists|th: SSubst|
            #[trigger] apply_term(th, arg(sub, p, 0)) == empty_list(),
{
    let l = arg(sub, p, 0);
    match l {
        STerm::Var(x) => {
            let th = map![x => empty_list()];
            assert(apply_term(th, l) == empty_list());
        },
        STerm::Fun(f, a) => {
            if length_spec(goal, sub, p, suffix) is Some {
                assert(list_len(l) == Some(0nat));
                if !(f == "empty_list"@ && a.len() == 0) {
                    if f == "cons"@ && a.len() == 2 {
                        assert(list_len(l) != Some(0nat));
                    }
                }
                assert(a =~= Seq::<STerm>::empty());
                let th = Map::<Seq<char>, STerm>::empty();
                crate::substitution::lemma_apply_fun(th, f, a);
                assert(crate::substitution::apply_terms(th, a) =~= Seq::<STerm>::empty());
                assert(apply_term(th, l) == empty_list());
            }
            if exists|th: SSubst| #[trigger] apply_term(th, l) == empty_list() {
                let th = choose|th: SSubst| #[trigger] apply_term(th, l) == empty_list();
                crate::substitution::lemma_apply_fun(th, f, a);
                assert(crate::substitution::apply_terms(th, a).len() == a.len());
                assert(f == "empty_list"@ && a.len() == 0);
                assert(list_len(l) == Some(0nat));
            }
        },
        STerm::Num(n) => {
            assert forall|th: SSubst| #[trigger] apply_term(th, l) != empty_list() by {}
        },
    }
}

/// The goal `g` mentions no variable that `s` binds, and `s` is idempotent.
pub open spec fn clean(g: Seq<SLit>, s: SSubst) -> bool {
    idempotent(s) && forall|v: Seq<char>| #[trigger] clause_vars(g).contains(v) ==> !s.dom().contains(v)
}

/// A variable occurs in a clause exactly when it occurs in one of its literals.
pub proof fn lemma_clause_vars(c: Seq<SLit>, y: Seq<char>)
    ensures
        clause_vars(c).contains(y) ==> exists|i: int|
            0 <= i < c.len() && tvars_seq(lit_prop(#[trigger] c[i]).terms).contains(y),
        forall|i: int|
            0 <= i < c.len() && tvars_seq(lit_prop(#[trigger] c[i]).terms).contains(y) ==> clause_vars(
                c,
            ).contains(y),
    decreases c.len(),
{
    if c.len() > 0 {
        let d = c.drop_last();
        lemma_clause_vars(d, y);
        assert forall|i: int| 0 <= i < d.len() implies #[trigger] d[i] == c[i] by {}
        if clause_vars(c).contains(y) && clause_vars(d).contains(y) {
            let i = choose|i: int|
                0 <= i < d.len() && tvars_seq(lit_prop(#[trigger] d[i]).terms).contains(y);
            assert(d[i] == c[i]);
        }
        assert forall|i: int|
            0 <= i < c.len() && tvars_seq(lit_prop(#[trigger] c[i]).terms).contains(y) implies clause_vars(
            c,
        ).contains(y) by {
            if i < c.len() - 1 {
                assert(d[i] == c[i]);
            }
        }
    }
}

/// Where the variables of an instance of a clause come from.
pub proof fn lemma_clause_vars_apply(s: SSubst, c: Seq<SLit>, y: Seq<char>)
    requires
        clause_vars(apply_clause(s, c)).contains(y),
    ensures
        (clause_vars(c).contains(y) && !s.dom().contains(y)) || exists|v: Seq<char>|
            #![trigger clause_vars(c).contains(v), s.dom().contains(v)]
            clause_vars(c).contains(v) && s.dom().contains(v) && tvars(s[v]).contains(y),
{
    let ac = apply_clause(s, c);
    lemma_clause_vars(ac, y);
    let i = choose|i: int| 0 <= i < ac.len() && tvars_seq(lit_prop(#[trigger] ac[i]).terms).contains(y);
    let ts = lit_prop(c[i]).terms;
    assert(lit_prop(ac[i]).terms == crate::substitution::apply_terms(s, ts));
    lemma_tvars_seq(crate::substitution::apply_terms(s, ts), y);
    let j = choose|j: int|
        0 <= j < ts.len() && #[trigger] tvars(crate::substitution::apply_terms(s, ts)[j]).contains(y);
    lemma_vars_apply(s, ts[j], y);
    if tvars(ts[j]).contains(y) && !s.dom().contains(y) {
        lemma_tvars_seq(ts, y);
        lemma_clause_vars(c, y);
    } else {
        let v = choose|v: Seq<char>|
            #![trigger tvars(ts[j]).contains(v), s.dom().contains(v)]
            tvars(ts[j]).contains(v) && s.dom().contains(v) && tvars(s[v]).contains(y);
        lemma_tvars_seq(ts, v);
        lemma_clause_vars(c, v);
        assert(clause_vars(c).contains(v));
    }
}

/// Dropping the selected literal keeps a goal clean.
pub proof fn lemma_rest_clean(g: Seq<SLit>, s: SSubst)
    requires
        clean(g, s),
        g.len() >= 1,
    ensures
        clean(crate::builtins::rest(g), s),
{
    let r = crate::builtins::rest(g);
    assert forall|v: Seq<char>| #[trigger] clause_vars(r).contains(v) implies !s.dom().contains(v) by {
        lemma_clause_vars(r, v);
        let i = choose|i: int| 0 <= i < r.len() && tvars_seq(lit_prop(#[trigger] r[i]).terms).contains(v);
        assert(r[i] == g[i + 1]);
        lemma_clause_vars(g, v);
    }
}

/// Applying an idempotent `sigma` that avoids the bindings of `s` to a goal
/// that avoids them too, and composing `sigma` into `s`, keeps things clean.
pub proof fn lemma_sigma_clean(c: Seq<SLit>, s: SSubst, sigma: SSubst)
    requires
        clean(c, s),
        idempotent(sigma),
        forall|v: Seq<char>| #[trigger] sigma.dom().contains(v) ==> !s.dom().contains(v),
        forall|k: Seq<char>, v: Seq<char>|
            #![trigger sigma.dom().contains(k), tvars(sigma[k]).contains(v)]
            sigma.dom().contains(k) && tvars(sigma[k]).contains(v) ==> !s.dom().contains(v),
    ensures
        clean(apply_clause(sigma, c), compose(sigma, s)),
{
    lemma_compose_idempotent(sigma, s);
    let c2 = apply_clause(sigma, c);
    let s2 = compose(sigma, s);
    assert forall|y: Seq<char>| #[trigger] clause_vars(c2).contains(y) implies !s2.dom().contains(y) by {
        lemma_clause_vars_apply(sigma, c, y);
        if !(clause_vars(c).contains(y) && !sigma.dom().contains(y)) {
            let v = choose|v: Seq<char>|
                #![trigger clause_vars(c).contains(v), sigma.dom().contains(v)]
                clause_vars(c).contains(v) && sigma.dom().contains(v) && tvars(sigma[v]).contains(y);
            assert(sigma.dom().contains(v) && tvars(sigma[v]).contains(y));
        }
    }
}

/// Binding a variable that is not bound yet to a term that avoids the
/// bindings and the variable itself keeps a goal clean.
pub proof fn lemma_bind_clean(g: Seq<SLit>, s: SSubst, x: Seq<char>, t: STerm)
    requires
        clean(g, s),
        g.len() >= 1,
        !s.dom().contains(x),
        !tvars(t).contains(x),
        forall|v: Seq<char>| tvars(t).contains(v) ==> !s.dom().contains(v),
    ensures
        clean(crate::builtins::bind_cont(g, s, x, t).0, crate::builtins::bind_cont(g, s, x, t).1),
{
    lemma_rest_clean(g, s);
    let m = map![x => t];
    assert forall|k: Seq<char>, y: Seq<char>|
        #![trigger m.dom().contains(k), tvars(m[k]).contains(y)]
        m.dom().contains(k) && tvars(m[k]).contains(y) implies !m.dom().contains(y) by {}
    lemma_sigma_clean(crate::builtins::rest(g), s, m);
}

/// An instance by an idempotent substitution mentions none of its variables.
pub proof fn lemma_applied_clause_avoids(s: SSubst, c: Seq<SLit>)
    requires
        idempotent(s),
    ensures
        forall|v: Seq<char>| #[trigger] clause_vars(apply_clause(s, c)).contains(v) ==> !s.dom().contains(v),
{
    assert forall|v: Seq<char>| #[trigger] clause_vars(apply_clause(s, c)).contains(v) implies !s.dom().contains(v) by {
        lemma_clause_vars_apply(s, c, v);
        if !(clause_vars(c).contains(v) && !s.dom().contains(v)) {
            let w = choose|w: Seq<char>|
                #![trigger clause_vars(c).contains(w), s.dom().contains(w)]
                clause_vars(c).contains(w) && s.dom().contains(w) && tvars(s[w]).contains(v);
            assert(s.dom().contains(w) && tvars(s[w]).contains(v));
        }
    }
}

/// The variables of a part of a clause are variables of the clause.
pub proof fn lemma_subrange_vars(c: Seq<SLit>, i: int, j: int, y: Seq<char>)
    requires
        0 <= i <= j <= c.len(),
        clause_vars(c.subrange(i, j)).contains(y),
    ensures
        clause_vars(c).contains(y),
{
    let d = c.subrange(i, j);
    lemma_clause_vars(d, y);
    let k = choose|k: int| 0 <= k < d.len() && tvars_seq(lit_prop(#[trigger] d[k]).terms).contains(y);
    assert(d[k] == c[i + k]);
    lemma_clause_vars(c, y);
}

/// The variables of two clauses put together.
pub proof fn lemma_concat_vars(a: Seq<SLit>, b: Seq<SLit>, y: Seq<char>)
    requires
        clause_vars(a + b).contains(y),
    ensures
        clause_vars(a).contains(y) || clause_vars(b).contains(y),
{
    let c = a + b;
    lemma_clause_vars(c, y);
    let k = choose|k: int| 0 <= k < c.len() && tvars_seq(lit_prop(#[trigger] c[k]).terms).contains(y);
    if k < a.len() {
        assert(c[k] == a[k]);
        lemma_clause_vars(a, y);
    } else {
        assert(c[k] == b[k - a.len()]);
        lemma_clause_vars(b, y);
    }
}

/// The variables of the proposition of a literal are variables of its clause.
pub proof fn lemma_lit_vars(c: Seq<SLit>, i: int, y: Seq<char>)
    requires
        0 <= i < c.len(),
        tvars_seq(lit_prop(c[i]).terms).contains(y),
    ensures
        clause_vars(c).contains(y),
{
    lemma_clause_vars(c, y);
}

/// An SLD resolvent with a use of a clause that avoids the bindings, by an
/// idempotent unifier of the selected literal and the head, is clean.
pub proof fn lemma_resolvent_clean(g: Seq<SLit>, s: SSubst, rc: Seq<SLit>, sigma: SSubst)
    requires
        clean(g, s),
        g.len() >= 1,
        rc.len() >= 1,
        forall|v: Seq<char>| #[trigger] clause_vars(rc).contains(v) ==> !s.dom().contains(v),
        idempotent(sigma),
        forall|v: Seq<char>|
            #[trigger] sigma.dom().contains(v) ==> tvars_seq(lit_prop(g[0]).terms).contains(v)
                || tvars_seq(lit_prop(rc[0]).terms).contains(v),
        forall|k: Seq<char>, v: Seq<char>|
            #![trigger sigma.dom().contains(k), tvars(sigma[k]).contains(v)]
            sigma.dom().contains(k) && tvars(sigma[k]).contains(v) ==> tvars_seq(
                lit_prop(g[0]).terms,
            ).contains(v) || tvars_seq(lit_prop(rc[0]).terms).contains(v),
    ensures
        clean(
            crate::resolution::sld_cont(g, s, rc, sigma).0,
            crate::resolution::sld_cont(g, s, rc, sigma).1,
        ),
{
    let body = rc.subrange(1, rc.len() as int) + crate::builtins::rest(g);
    assert forall|v: Seq<char>| #[trigger] clause_vars(body).contains(v) implies !s.dom().contains(v) by {
        lemma_concat_vars(rc.subrange(1, rc.len() as int), crate::builtins::rest(g), v);
        if clause_vars(rc.subrange(1, rc.len() as int)).contains(v) {
            lemma_subrange_vars(rc, 1, rc.len() as int, v);
        } else {
            lemma_subrange_vars(g, 1, g.len() as int, v);
        }
    }
    assert forall|v: Seq<char>| #[trigger] sigma.dom().contains(v) implies !s.dom().contains(v) by {
        if tvars_seq(lit_prop(g[0]).terms).contains(v) {
            lemma_lit_vars(g, 0, v);
        } else {
            lemma_lit_vars(rc, 0, v);
        }
    }
    assert forall|k: Seq<char>, v: Seq<char>|
        #![trigger sigma.dom().contains(k), tvars(sigma[k]).contains(v)]
        sigma.dom().contains(k) && tvars(sigma[k]).contains(v) implies !s.dom().contains(v) by {
        if tvars_seq(lit_prop(g[0]).terms).contains(v) {
            lemma_lit_vars(g, 0, v);
        } else {
            lemma_lit_vars(rc, 0, v);
        }
    }
    lemma_sigma_clean(body, s, sigma);
}

/// An argument that is a variable under an idempotent substitution is unbound.
pub proof fn lemma_arg_unbound(s: SSubst, p: SProp, i: int, x: Seq<char>)
    requires
        idempotent(s),
        0 <= i < p.terms.len(),
        arg(s, p, i) == STerm::Var(x),
    ensures
        !s.dom().contains(x),
{
    assert(tvars(arg(s, p, i)).contains(x));
    lemma_apply_clears(s, p.terms[i], x);
}

/// The continuations of every exactly specified built-in are clean.
pub proof fn lemma_builtin_conts_clean(g: Seq<SLit>, s: SSubst, p: SProp, k: Builtin, suffix: Seq<char>)
    requires
        clean(g, s),
        g.len() >= 1,
        builtin_of(p) == Some(k),
        k !is Elem,
    ensures
        forall|i: int|
            0 <= i < builtin_conts(g, s, p, k, suffix).len() ==> clean(
                (#[trigger] builtin_conts(g, s, p, k, suffix)[i]).0,
                builtin_conts(g, s, p, k, suffix)[i].1,
            ),
{
    lemma_rest_clean(g, s);
    let c = builtin_conts(g, s, p, k, suffix);
    assert forall|i: int| 0 <= i < c.len() implies clean((#[trigger] c[i]).0, c[i].1) by {
        match k {
            Builtin::Arith(op) => {
                if let STerm::Var(x) = arg(s, p, 2) {
                    if c[i] != (crate::builtins::rest(g), s) {
                        lemma_arg_unbound(s, p, 2, x);
                        let n = c[i].1;
                        let r = arith_spec(g, s, p, op)->Some_0;
                        let v = arith(op, arg(s, p, 0)->Num_0 as i64, arg(s, p, 1)->Num_0 as i64)->Some_0;
                        assert(c[i] == bind_cont(g, s, x, STerm::Num(v as int)));
                        lemma_bind_clean(g, s, x, STerm::Num(v as int));
                    }
                }
            },
            Builtin::Between => {
                if let STerm::Var(x) = arg(s, p, 2) {
                    lemma_arg_unbound(s, p, 2, x);
                    let lo = arg(s, p, 0)->Num_0;
                    assert(c[i] == bind_cont(g, s, x, STerm::Num(lo + i)));
                    lemma_bind_clean(g, s, x, STerm::Num(lo + i));
                }
            },
            Builtin::Length => {
                match (arg(s, p, 0), arg(s, p, 1)) {
                    (STerm::Fun(f, a), STerm::Var(y)) => {
                        lemma_arg_unbound(s, p, 1, y);
                        let n = list_len(STerm::Fun(f, a))->Some_0;
                        lemma_bind_clean(g, s, y, STerm::Num(n as int));
                    },
                    (STerm::Var(x), STerm::Num(n)) => {
                        lemma_arg_unbound(s, p, 0, x);
                        let l = apply_term(s, var_list(0, n as nat, suffix));
                        assert forall|v: Seq<char>| tvars(l).contains(v) implies !s.dom().contains(v) by {
                            lemma_apply_clears(s, var_list(0, n as nat, suffix), v);
                        }
                        lemma_bind_clean(g, s, x, l);
                    },
                    _ => {},
                }
            },
            _ => {},
        }
    }
}

/// The continuations of `Elem` are clean.
pub proof fn lemma_elem_conts_clean(g: Seq<SLit>, s: SSubst, p: SProp, v: Seq<SCont>)
    requires
        clean(g, s),
        g.len() >= 1,
        g[0] == SLit::Neg(p),
        p.terms.len() == 2,
        arg(s, p, 0) matches STerm::Fun(f, args) && f == "cons"@ && args.len() == 2,
        ({
            let args = arg(s, p, 0)->Fun_1;
            let next = SLit::Neg(SProp { name: "Elem"@, terms: seq![args[1], p.terms[1]] });
            &&& 1 <= v.len() <= 2
            &&& v.last() == (seq![next] + crate::builtins::rest(g), s)
            &&& v.len() == 2 ==> exists|sg: SSubst|
                #[trigger] idempotent(sg) && apply_term(sg, arg(s, p, 1)) == apply_term(sg, args[0])
                    && v[0] == (apply_clause(sg, crate::builtins::rest(g)), compose(sg, s))
                    && (forall|x: Seq<char>|
                    #[trigger] sg.dom().contains(x) ==> tvars(arg(s, p, 1)).contains(x) || tvars(
                        args[0],
                    ).contains(x)) && (forall|k: Seq<char>, x: Seq<char>|
                    #![trigger sg.dom().contains(k), tvars(sg[k]).contains(x)]
                    sg.dom().contains(k) && tvars(sg[k]).contains(x) ==> tvars(arg(s, p, 1)).contains(
                        x,
                    ) || tvars(args[0]).contains(x))
        }),
    ensures
        forall|i: int| 0 <= i < v.len() ==> clean((#[trigger] v[i]).0, v[i].1),
{
    let args = arg(s, p, 0)->Fun_1;
    lemma_rest_clean(g, s);
    // Variables of the list argument and of the element are unbound.
    assert forall|x: Seq<char>| tvars(arg(s, p, 0)).contains(x) implies !s.dom().contains(x) by {
        lemma_apply_clears(s, p.terms[0], x);
    }
    assert forall|x: Seq<char>| tvars(arg(s, p, 1)).contains(x) implies !s.dom().contains(x) by {
        lemma_apply_clears(s, p.terms[1], x);
    }
    assert forall|j: int, x: Seq<char>|
        #![trigger tvars(args[j]).contains(x)]
        0 <= j < 2 && tvars(args[j]).contains(x) implies !s.dom().contains(x) by {
        lemma_tvars_seq(args, x);
        assert(tvars(arg(s, p, 0)).contains(x));
    }
    let next = SLit::Neg(SProp { name: "Elem"@, terms: seq![args[1], p.terms[1]] });
    let last = seq![next] + crate::builtins::rest(g);
    assert forall|x: Seq<char>| #[trigger] clause_vars(last).contains(x) implies !s.dom().contains(x) by {
        lemma_concat_vars(seq![next], crate::builtins::rest(g), x);
        if clause_vars(seq![next]).contains(x) {
            lemma_clause_vars(seq![next], x);
            lemma_tvars_seq(seq![args[1], p.terms[1]], x);
            if tvars(p.terms[1]).contains(x) && !tvars(args[1]).contains(x) {
                lemma_tvars_seq(p.terms, x);
                lemma_lit_vars(g, 0, x);
            }
        } else {
            lemma_subrange_vars(g, 1, g.len() as int, x);
        }
    }
    if v.len() == 2 {
        let sg = choose|sg: SSubst|
            #[trigger] idempotent(sg) && apply_term(sg, arg(s, p, 1)) == apply_term(sg, args[0])
                && v[0] == (apply_clause(sg, crate::builtins::rest(g)), compose(sg, s))
                && (forall|x: Seq<char>|
                #[trigger] sg.dom().contains(x) ==> tvars(arg(s, p, 1)).contains(x) || tvars(
                    args[0],
                ).contains(x)) && (forall|k: Seq<char>, x: Seq<char>|
                #![trigger sg.dom().contains(k), tvars(sg[k]).contains(x)]
                sg.dom().contains(k) && tvars(sg[k]).contains(x) ==> tvars(arg(s, p, 1)).contains(x)
                    || tvars(args[0]).contains(x));
        lemma_sigma_clean(crate::builtins::rest(g), s, sg);
    }
}

/// The answers of `Length` with both arguments free are clean.
pub proof fn lemma_length_nth_clean(g: Seq<SLit>, s: SSubst, p: SProp, n: nat, suffix: Seq<char>)
    requires
        clean(g, s),
        g.len() >= 1,
        p.terms.len() == 2,
        crate::builtins::length_unbounded(s, p),
        crate::builtins::length_nth(g, s, p, n, suffix) is Some,
    ensures
        clean(
            crate::builtins::length_nth(g, s, p, n, suffix)->Some_0.0,
            crate::builtins::length_nth(g, s, p, n, suffix)->Some_0.1,
        ),
{
    let x = arg(s, p, 0)->Var_0;
    let y = arg(s, p, 1)->Var_0;
    lemma_arg_unbound(s, p, 0, x);
    lemma_arg_unbound(s, p, 1, y);
    let l = apply_term(s, var_list(0, n, suffix));
    let m = map![x => l, y => STerm::Num(n as int)];
    assert forall|v: Seq<char>| tvars(l).contains(v) implies !s.dom().contains(v) by {
        lemma_apply_clears(s, var_list(0, n, suffix), v);
    }
    assert(x != y);
    assert(m[x] == l);
    assert(m[y] == STerm::Num(n as int));
    assert forall|k: Seq<char>, v: Seq<char>|
        #![trigger m.dom().contains(k), tvars(m[k]).contains(v)]
        m.dom().contains(k) && tvars(m[k]).contains(v) implies !m.dom().contains(v) by {
        if k == x {
        } else {
            assert(k == y);
        }
    }
    assert forall|k: Seq<char>, v: Seq<char>|
        #![trigger m.dom().contains(k), tvars(m[k]).contains(v)]
        m.dom().contains(k) && tvars(m[k]).contains(v) implies !s.dom().contains(v) by {
        if k == x {
        } else {
            assert(k == y);
        }
    }
    lemma_rest_clean(g, s);
    lemma_sigma_clean(crate::builtins::rest(g), s, m);
}

/// Continuations whose models are clean, or none at all, are clean.
pub proof fn lemma_conts_clean_from(v: Seq<(crate::clause::Clause, crate::substitution::Substitution)>, c: Seq<SCont>)
    requires
        crate::builtins::conts_view(v) == c || v.len() == 0,
        forall|i: int| 0 <= i < c.len() ==> clean((#[trigger] c[i]).0, c[i].1),
    ensures
        crate::resolution::conts_clean(v),
{
    assert forall|i: int| 0 <= i < v.len() implies clean((#[trigger] v[i]).0@, v[i].1@) by {
        assert(crate::builtins::conts_view(v)[i] == (v[i].0@, v[i].1@));
    }
}

/// Every variable of a list built by `Length` is a name followed by the suffix.
pub proof fn lemma_var_list_vars(j: nat, k: nat, suffix: Seq<char>, y: Seq<char>)
    requires
        tvars(var_list(j, k, suffix)).contains(y),
    ensures
        exists|x: Seq<char>| y == x + suffix,
    decreases k - j,
{
    if j < k {
        let args = seq![STerm::Var(crate::builtins::elem_name(j) + suffix), var_list(j + 1, k, suffix)];
        assert(var_list(j, k, suffix) == STerm::Fun("cons"@, args));
        lemma_tvars_seq(args, y);
        let i = choose|i: int| 0 <= i < args.len() && #[trigger] tvars(args[i]).contains(y);
        if i == 0 {
            assert(y == crate::builtins::elem_name(j) + suffix);
        } else {
            lemma_var_list_vars(j + 1, k, suffix, y);
        }
    } else {
        assert(tvars(var_list(j, k, suffix)) =~= Set::empty()) by {
            assert(var_list(j, k, suffix) == empty_list());
            assert(tvars_seq(Seq::<STerm>::empty()) == Set::<Seq<char>>::empty());
        }
    }
}

/// The variables of a list that `Length` builds on the use `n` are new: they
/// are none of the variables of another use, whether of a clause or of
/// another `Length` list; and two elements of one list are different variables.
pub proof fn law_length_list_fresh(k: nat, n: nat, m: nat, c: Seq<SLit>, k2: nat)
    requires
        n != m,
    ensures
        tvars(var_list(0, k, suffix_of(n))).disjoint(clause_vars(rename_clause(c, suffix_of(m)))),
        tvars(var_list(0, k, suffix_of(n))).disjoint(tvars(var_list(0, k2, suffix_of(m)))),
        forall|i: nat, j: nat|
            i != j ==> #[trigger] crate::builtins::elem_name(i) + suffix_of(n) != #[trigger] crate::builtins::elem_name(j)
                + suffix_of(n),
{
    assert forall|y: Seq<char>| tvars(var_list(0, k, suffix_of(n))).contains(y) implies !clause_vars(
        rename_clause(c, suffix_of(m)),
    ).contains(y) by {
        lemma_var_list_vars(0, k, suffix_of(n), y);
        if clause_vars(rename_clause(c, suffix_of(m))).contains(y) {
            lemma_renamed_clause_vars(c, suffix_of(m), y);
            let a = choose|x: Seq<char>| y == x + suffix_of(n);
            let b = choose|x: Seq<char>| y == x + suffix_of(m);
            lemma_suffix_split(a, b, n, m);
        }
    }
    assert forall|y: Seq<char>| tvars(var_list(0, k, suffix_of(n))).contains(y) implies !tvars(
        var_list(0, k2, suffix_of(m)),
    ).contains(y) by {
        lemma_var_list_vars(0, k, suffix_of(n), y);
        if tvars(var_list(0, k2, suffix_of(m))).contains(y) {
            lemma_var_list_vars(0, k2, suffix_of(m), y);
            let a = choose|x: Seq<char>| y == x + suffix_of(n);
            let b = choose|x: Seq<char>| y == x + suffix_of(m);
            lemma_suffix_split(a, b, n, m);
        }
    }
    assert forall|i: nat, j: nat|
        i != j implies #[trigger] crate::builtins::elem_name(i) + suffix_of(n) != #[trigger] crate::builtins::elem_name(j)
            + suffix_of(n) by {
        let a = crate::builtins::elem_name(i);
        let b = crate::builtins::elem_name(j);
        if a + suffix_of(n) == b + suffix_of(n) {
            lemma_suffix_split(a, b, n, n);
            reveal_strlit("E");
            assert("E"@.len() == 1);
            assert(a.subrange(1, a.len() as int) =~= decimal(i));
            assert(b.subrange(1, b.len() as int) =~= decimal(j));
            lemma_decimal_injective(i, j);
        }
    }
}

} // verus!

use vstd::prelude::*;

use crate::ast::{copy_string, lemma_tvars_seq, tvars, Proposition, SProp, STerm, Term};
use crate::clause::{Clause, Literal, SLit};
use crate::unify::{eqs_view, SUnif, Unifiable};

verus! {

/// A finite mapping from variable names to terms, as a mathematical map.
pub type SSubst = Map<Seq<char>, STerm>;

/// Replaces each variable of `t` that `s` binds by its image.
pub open spec fn apply_term(s: SSubst, t: STerm) -> STerm
    decreases t,
{
    match t {
        STerm::Var(x) => if s.dom().contains(x) {
            s[x]
        } else {
            t
        },
        STerm::Fun(f, args) => STerm::Fun(
            f,
            Seq::new(
                args.len(),
                |i: int|
                    if 0 <= i < args.len() {
                        apply_term(s, args[i])
                    } else {
                        t
                    },
            ),
        ),
        STerm::Num(_) => t,
    }
}

pub open spec fn apply_terms(s: SSubst, ts: Seq<STerm>) -> Seq<STerm> {
    Seq::new(ts.len(), |i: int| apply_term(s, ts[i]))
}

pub open spec fn apply_prop(s: SSubst, p: SProp) -> SProp {
    SProp { name: p.name, terms: apply_terms(s, p.terms) }
}

pub open spec fn apply_unif(s: SSubst, u: SUnif) -> SUnif {
    match u {
        SUnif::Term(t) => SUnif::Term(apply_term(s, t)),
        SUnif::Prop(p) => SUnif::Prop(apply_prop(s, p)),
    }
}

pub open spec fn apply_lit(s: SSubst, l: SLit) -> SLit {
    match l {
        SLit::Pos(p) => SLit::Pos(apply_prop(s, p)),
        SLit::Neg(p) => SLit::Neg(apply_prop(s, p)),
    }
}

pub open spec fn apply_clause(s: SSubst, c: Seq<SLit>) -> Seq<SLit> {
    Seq::new(c.len(), |i: int| apply_lit(s, c[i]))
}

pub open spec fn apply_eqs(s: SSubst, e: Seq<(SUnif, SUnif)>) -> Seq<(SUnif, SUnif)> {
    Seq::new(e.len(), |i: int| (apply_unif(s, e[i].0), apply_unif(s, e[i].1)))
}

/// `new` after `old`: each image of `old` has `new` applied, then the bindings
/// of `new` are added, replacing those of the same variable.
pub open spec fn compose(new: SSubst, old: SSubst) -> SSubst {
    old.map_values(|v: STerm| apply_term(new, v)).union_prefer_right(new)
}

/// No image of `s` mentions a variable that `s` binds.
pub open spec fn idempotent(s: SSubst) -> bool {
    forall|k: Seq<char>, y: Seq<char>|
        #![trigger s.dom().contains(k), tvars(s[k]).contains(y)]
        s.dom().contains(k) && tvars(s[k]).contains(y) ==> !s.dom().contains(y)
}

/// No variable is bound to a term that contains it.
pub open spec fn occurs_free(s: SSubst) -> bool {
    forall|k: Seq<char>| #[trigger] s.dom().contains(k) ==> !tvars(s[k]).contains(k)
}

pub proof fn lemma_apply_fun(s: SSubst, f: Seq<char>, args: Seq<STerm>)
    ensures
        apply_term(s, STerm::Fun(f, args)) == STerm::Fun(f, apply_terms(s, args)),
{
    assert(apply_term(s, STerm::Fun(f, args))->Fun_1 =~= apply_terms(s, args));
}

/// A substitution leaves alone a term that holds none of its variables.
pub proof fn lemma_apply_untouched(s: SSubst, t: STerm)
    requires
        forall|v: Seq<char>| tvars(t).contains(v) ==> !s.dom().contains(v),
    ensures
        apply_term(s, t) == t,
    decreases t,
{
    if let STerm::Fun(f, args) = t {
        assert forall|i: int| 0 <= i < args.len() implies apply_term(s, args[i]) == args[i] by {
            assert forall|v: Seq<char>| tvars(args[i]).contains(v) implies !s.dom().contains(v) by {
                lemma_tvars_seq(args, v);
            }
            lemma_apply_untouched(s, args[i]);
        }
        assert(apply_term(s, t)->Fun_1 =~= args);
    }
}

/// Two substitutions that agree on the variables of a term apply alike to it.
pub proof fn lemma_apply_agree(s1: SSubst, s2: SSubst, t: STerm)
    requires
        forall|v: Seq<char>|
            #[trigger] tvars(t).contains(v) ==> (s1.dom().contains(v) == s2.dom().contains(v)
                && (s1.dom().contains(v) ==> s1[v] == s2[v])),
    ensures
        apply_term(s1, t) == apply_term(s2, t),
    decreases t,
{
    if let STerm::Var(x) = t {
        assert(tvars(t).contains(x));
    }
    if let STerm::Fun(f, args) = t {
        assert forall|i: int| 0 <= i < args.len() implies apply_term(s1, args[i]) == apply_term(
            s2,
            args[i],
        ) by {
            assert forall|v: Seq<char>| #[trigger] tvars(args[i]).contains(v) implies (s1.dom().contains(v)
                == s2.dom().contains(v) && (s1.dom().contains(v) ==> s1[v] == s2[v])) by {
                lemma_tvars_seq(args, v);
                assert(tvars(t).contains(v));
            }
            lemma_apply_agree(s1, s2, args[i]);
        }
        assert(apply_term(s1, t)->Fun_1 =~= apply_term(s2, t)->Fun_1);
    }
}

/// Where the variables of an instance come from.
pub proof fn lemma_vars_apply(s: SSubst, t: STerm, y: Seq<char>)
    requires
        tvars(apply_term(s, t)).contains(y),
    ensures
        (tvars(t).contains(y) && !s.dom().contains(y)) || exists|v: Seq<char>|
            #![trigger tvars(t).contains(v), s.dom().contains(v)]
            tvars(t).contains(v) && s.dom().contains(v) && tvars(s[v]).contains(y),
    decreases t,
{
    match t {
        STerm::Var(x) => {
            if s.dom().contains(x) {
                assert(tvars(t).contains(x));
            }
        },
        STerm::Fun(f, args) => {
            lemma_apply_fun(s, f, args);
            lemma_tvars_seq(apply_terms(s, args), y);
            let i = choose|i: int|
                0 <= i < args.len() && #[trigger] tvars(apply_terms(s, args)[i]).contains(y);
            lemma_vars_apply(s, args[i], y);
            if tvars(args[i]).contains(y) && !s.dom().contains(y) {
                lemma_tvars_seq(args, y);
            } else {
                let v = choose|v: Seq<char>|
                    #![trigger tvars(args[i]).contains(v), s.dom().contains(v)]
                    tvars(args[i]).contains(v) && s.dom().contains(v) && tvars(s[v]).contains(y);
                lemma_tvars_seq(args, v);
                assert(tvars(t).contains(v));
            }
        },
        STerm::Num(_) => {},
    }
}

/// An instance by `s` holds none of the variables that `s` binds, when `s` is idempotent.
pub proof fn lemma_apply_clears(s: SSubst, t: STerm, y: Seq<char>)
    requires
        idempotent(s),
        tvars(apply_term(s, t)).contains(y),
    ensures
        !s.dom().contains(y),
{
    lemma_vars_apply(s, t, y);
    if !(tvars(t).contains(y) && !s.dom().contains(y)) {
        let v = choose|v: Seq<char>|
            #![trigger tvars(t).contains(v), s.dom().contains(v)]
            tvars(t).contains(v) && s.dom().contains(v) && tvars(s[v]).contains(y);
        assert(s.dom().contains(v) && tvars(s[v]).contains(y));
    }
}

/// Applying an idempotent substitution twice is applying it once.
pub proof fn lemma_apply_idempotent(s: SSubst, t: STerm)
    requires
        idempotent(s),
    ensures
        apply_term(s, apply_term(s, t)) == apply_term(s, t),
{
    assert forall|v: Seq<char>| tvars(apply_term(s, t)).contains(v) implies !s.dom().contains(v) by {
        lemma_apply_clears(s, t, v);
    }
    lemma_apply_untouched(s, apply_term(s, t));
}

/// A finite substitution: a list of bindings, at most one per variable.
#[derive(Debug, Clone)]
pub struct Substitution {
    entries: Vec<(String, Term)>,
}

impl View for Substitution {
    type V = SSubst;

    closed spec fn view(&self) -> SSubst {
        Map::new(
            |k: Seq<char>| exists|i: int| 0 <= i < self.entries@.len() && self.entries@[i].0@ == k,
            |k: Seq<char>|
                self.entries@[choose|i: int|
                    0 <= i < self.entries@.len() && self.entries@[i].0@ == k].1@,
        )
    }
}

impl Substitution {
    /// The bindings name distinct variables.
    pub closed spec fn wf(&self) -> bool {
        forall|i: int, j: int|
            0 <= i < j < self.entries@.len() ==> self.entries@[i].0@ != self.entries@[j].0@
    }

    proof fn lemma_index(&self, i: int)
        requires
            self.wf(),
            0 <= i < self.entries@.len(),
        ensures
            self@.dom().contains(self.entries@[i].0@),
            self@[self.entries@[i].0@] == self.entries@[i].1@,
    {
        let k = self.entries@[i].0@;
        assert(self@.dom().contains(k));
        let j = choose|j: int| 0 <= j < self.entries@.len() && self.entries@[j].0@ == k;
        assert(i == j);
    }

    pub fn new() -> (r: Substitution)
        ensures
            r.wf(),
            r@ == Map::<Seq<char>, STerm>::empty(),
    {
        let r = Substitution { entries: Vec::new() };
        assert(r@ =~= Map::<Seq<char>, STerm>::empty());
        r
    }

    /// The substitution that binds `x` alone, to `t`.
    pub fn singleton(x: String, t: Term) -> (r: Substitution)
        ensures
            r.wf(),
            r@ == map![x@ => t@],
    {
        let ghost k = x@;
        let ghost v = t@;
        let mut entries: Vec<(String, Term)> = Vec::new();
        entries.push((x, t));
        let r = Substitution { entries };
        proof {
            r.lemma_index(0);
        }
        assert(r@ =~= map![k => v]);
        r
    }

    pub fn len(&self) -> (r: usize)
        requires
            self.wf(),
        ensures
            r == self@.dom().len(),
    {
        proof {
            self.lemma_len();
        }
        self.entries.len()
    }

    proof fn lemma_len(&self)
        requires
            self.wf(),
        ensures
            self@.dom().finite(),
            self@.dom().len() == self.entries@.len(),
    {
        let keys = Seq::new(self.entries@.len(), |i: int| self.entries@[i].0@);
        assert(keys.no_duplicates());
        assert forall|k: Seq<char>| self@.dom().contains(k) <==> keys.contains(k) by {
            if self@.dom().contains(k) {
                let j = choose|j: int| 0 <= j < self.entries@.len() && self.entries@[j].0@ == k;
                assert(keys[j] == k);
            }
            if keys.contains(k) {
                let j = choose|j: int| 0 <= j < keys.len() && keys[j] == k;
                assert(self.entries@[j].0@ == k);
            }
        }
        assert(self@.dom() =~= keys.to_set());
        keys.unique_seq_to_set();
    }

    pub fn is_empty(&self) -> (r: bool)
        requires
            self.wf(),
        ensures
            r == (self@.dom().len() == 0),
    {
        proof {
            self.lemma_len();
        }
        self.entries.len() == 0
    }

    /// The position of the binding of `x`, if any.
    fn find(&self, x: &String) -> (r: Option<usize>)
        requires
            self.wf(),
        ensures
            r matches Some(i) ==> i < self.entries@.len() && self.entries@[i as int].0@ == x@,
            r is None ==> !self@.dom().contains(x@),
    {
        let mut i: usize = 0;
        while i < self.entries.len()
            invariant
                i <= self.entries@.len(),
                forall|j: int| 0 <= j < i ==> self.entries@[j].0@ != x@,
            decreases self.entries.len() - i,
        {
            if str_eq(&self.entries[i].0, x) {
                return Some(i);
            }
            i = i + 1;
        }
        None
    }

    /// The image of the variable `x`, if `x` is bound.
    pub fn get(&self, x: &String) -> (r: Option<&Term>)
        requires
            self.wf(),
        ensures
            r matches Some(t) ==> self@.dom().contains(x@) && t@ == self@[x@],
            r is None ==> !self@.dom().contains(x@),
    {
        match self.find(x) {
            Some(i) => {
                proof {
                    self.lemma_index(i as int);
                }
                Some(&self.entries[i].1)
            },
            None => None,
        }
    }

    /// Binds `x` to `t`, replacing an earlier binding of `x`.
    pub fn insert(&mut self, x: String, t: Term)
        requires
            old(self).wf(),
        ensures
            final(self).wf(),
            final(self)@ == old(self)@.insert(x@, t@),
    {
        let ghost k = x@;
        let ghost v = t@;
        match self.find(&x) {
            Some(i) => {
                self.entries.set(i, (x, t));
                assert forall|j: int| 0 <= j < self.entries@.len() implies self.entries@[j].0@
                    == old(self).entries@[j].0@ by {}
                proof {
                    self.lemma_index(i as int);
                    assert forall|key: Seq<char>| #[trigger] self@.dom().contains(key) && key != k
                        implies self@[key] == old(self)@[key] by {
                        let j = choose|j: int|
                            0 <= j < self.entries@.len() && self.entries@[j].0@ == key;
                        self.lemma_index(j);
                        old(self).lemma_index(j);
                    }
                    assert forall|key: Seq<char>| #[trigger] old(self)@.dom().contains(key)
                        implies self@.dom().contains(key) by {
                        let j = choose|j: int|
                            0 <= j < old(self).entries@.len() && old(self).entries@[j].0@ == key;
                        self.lemma_index(j);
                    }
                }
                assert(self@ =~= old(self)@.insert(k, v));
            },
            None => {
                self.entries.push((x, t));
                proof {
                    let n = old(self).entries@.len() as int;
                    self.lemma_index(n);
                    assert forall|key: Seq<char>| #[trigger] self@.dom().contains(key) && key != k
                        implies old(self)@.dom().contains(key) && self@[key] == old(self)@[key] by {
                        let j = choose|j: int|
                            0 <= j < self.entries@.len() && self.entries@[j].0@ == key;
                        self.lemma_index(j);
                        old(self).lemma_index(j);
                    }
                    assert forall|key: Seq<char>| #[trigger] old(self)@.dom().contains(key)
                        implies self@.dom().contains(key) by {
                        let j = choose|j: int|
                            0 <= j < old(self).entries@.len() && old(self).entries@[j].0@ == key;
                        self.lemma_index(j);
                    }
                }
                assert(self@ =~= old(self)@.insert(k, v));
            },
        }
    }

    /// A deep copy of the substitution.
    pub fn copy(&self) -> (r: Substitution)
        requires
            self.wf(),
        ensures
            r.wf(),
            r@ == self@,
    {
        let mut entries: Vec<(String, Term)> = Vec::new();
        let mut i: usize = 0;
        while i < self.entries.len()
            invariant
                i <= self.entries@.len(),
                entries@.len() == i,
                forall|j: int|
                    0 <= j < i ==> (#[trigger] entries@[j]).0@ == self.entries@[j].0@ && entries@[j].1@
                        == self.entries@[j].1@,
            decreases self.entries.len() - i,
        {
            entries.push((copy_string(&self.entries[i].0), self.entries[i].1.copy()));
            i = i + 1;
        }
        let r = Substitution { entries };
        proof {
            assert forall|k: Seq<char>| #[trigger] r@.dom().contains(k) implies self@.dom().contains(k)
                && r@[k] == self@[k] by {
                let j = choose|j: int| 0 <= j < r.entries@.len() && r.entries@[j].0@ == k;
                r.lemma_index(j);
                self.lemma_index(j);
            }
            assert forall|k: Seq<char>| #[trigger] self@.dom().contains(k) implies r@.dom().contains(k) by {
                let j = choose|j: int| 0 <= j < self.entries@.len() && self.entries@[j].0@ == k;
                r.lemma_index(j);
            }
        }
        assert(r@ =~= self@);
        r
    }

    /// Drops the binding of `x`, if any.
    pub fn remove(&mut self, x: &String)
        requires
            old(self).wf(),
        ensures
            final(self).wf(),
            final(self)@ == old(self)@.remove(x@),
    {
        match self.find(x) {
            Some(i) => {
                self.entries.remove(i);
                proof {
                    let o = old(self).entries@;
                    let n = self.entries@;
                    assert forall|j: int| 0 <= j < n.len() implies #[trigger] n[j] == if j < i {
                        o[j]
                    } else {
                        o[j + 1]
                    } by {}
                    assert forall|k: Seq<char>| #[trigger] self@.dom().contains(k) implies old(
                        self,
                    )@.dom().contains(k) && k != x@ && self@[k] == old(self)@[k] by {
                        let j = choose|j: int| 0 <= j < n.len() && n[j].0@ == k;
                        self.lemma_index(j);
                        if j < i {
                            old(self).lemma_index(j);
                        } else {
                            old(self).lemma_index(j + 1);
                        }
                    }
                    assert forall|k: Seq<char>| #[trigger] old(self)@.dom().contains(k) && k != x@
                        implies self@.dom().contains(k) by {
                        let j = choose|j: int| 0 <= j < o.len() && o[j].0@ == k;
                        if j < i {
                            self.lemma_index(j);
                        } else {
                            self.lemma_index(j - 1);
                        }
                    }
                }
                assert(self@ =~= old(self)@.remove(x@));
            },
            None => {
                assert(self@ =~= old(self)@.remove(x@));
            },
        }
    }

    /// The variables that are bound, in the order in which they were first bound.
    pub fn keys(&self) -> (r: Vec<String>)
        requires
            self.wf(),
        ensures
            forall|k: Seq<char>|
                self@.dom().contains(k) <==> exists|i: int| 0 <= i < r@.len() && #[trigger] r@[i]@ == k,
            forall|i: int, j: int| 0 <= i < j < r@.len() ==> r@[i]@ != r@[j]@,
    {
        let mut out: Vec<String> = Vec::new();
        let mut i: usize = 0;
        while i < self.entries.len()
            invariant
                i <= self.entries@.len(),
                out@.len() == i,
                forall|j: int| 0 <= j < i ==> (#[trigger] out@[j])@ == self.entries@[j].0@,
            decreases self.entries.len() - i,
        {
            out.push(copy_string(&self.entries[i].0));
            i = i + 1;
        }
        proof {
            assert forall|k: Seq<char>| self@.dom().contains(k) implies exists|i: int|
                0 <= i < out@.len() && #[trigger] out@[i]@ == k by {
                let j = choose|j: int| 0 <= j < self.entries@.len() && self.entries@[j].0@ == k;
                assert(out@[j]@ == k);
            }
            assert forall|k: Seq<char>| (exists|i: int| 0 <= i < out@.len() && #[trigger] out@[i]@ == k)
                implies self@.dom().contains(k) by {
                let j = choose|j: int| 0 <= j < out@.len() && #[trigger] out@[j]@ == k;
                self.lemma_index(j);
            }
        }
        out
    }
}

pub use crate::ast::str_eq;

pub fn empty_substitution() -> (r: Substitution)
    ensures
        r.wf(),
        r@ == Map::<Seq<char>, STerm>::empty(),
{
    Substitution::new()
}

/// The term with each bound variable replaced by its image.
pub fn apply_to_term(sub: &Substitution, t: &Term) -> (r: Term)
    requires
        sub.wf(),
    ensures
        r@ == apply_term(sub@, t@),
    decreases t,
{
    match t {
        Term::Identifier(x) => match sub.get(x) {
            Some(v) => v.copy(),
            None => Term::Identifier(copy_string(x)),
        },
        Term::FunctionApplication { name, args } => {
            let mut new_args: Vec<Term> = Vec::new();
            let mut i: usize = 0;
            while i < args.len()
                invariant
                    sub.wf(),
                    i <= args.len(),
                    new_args@.len() == i,
                    forall|j: int| 0 <= j < i ==> (#[trigger] new_args@[j])@ == apply_term(sub@, args@[j]@),
                    *t == (Term::FunctionApplication { name: *name, args: *args }),
                decreases args.len() - i,
            {
                assert(decreases_to!(*t => (*t)->args));
                assert(decreases_to!(*args => args@));
                assert(decreases_to!(args@ => args@[i as int]));
                new_args.push(apply_to_term(sub, &args[i]));
                i = i + 1;
            }
            let r = Term::FunctionApplication { name: copy_string(name), args: new_args };
            assert(r@->Fun_1 =~= apply_term(sub@, t@)->Fun_1);
            r
        },
        Term::Number(n) => Term::Number(*n),
    }
}

/// The proposition with each bound variable replaced by its image.
pub fn apply_to_prop(sub: &Substitution, p: &Proposition) -> (r: Proposition)
    requires
        sub.wf(),
    ensures
        r@ == apply_prop(sub@, p@),
{
    let mut terms: Vec<Term> = Vec::new();
    let mut i: usize = 0;
    while i < p.terms.len()
        invariant
            sub.wf(),
            i <= p.terms.len(),
            terms@.len() == i,
            forall|j: int| 0 <= j < i ==> (#[trigger] terms@[j])@ == apply_term(sub@, p.terms@[j]@),
        decreases p.terms.len() - i,
    {
        terms.push(apply_to_term(sub, &p.terms[i]));
        i = i + 1;
    }
    let r = Proposition { name: copy_string(&p.name), terms };
    assert(r@.terms =~= apply_prop(sub@, p@).terms);
    r
}

/// The literal with each bound variable replaced by its image.
pub fn apply_to_literal(sub: &Substitution, l: &Literal) -> (r: Literal)
    requires
        sub.wf(),
    ensures
        r@ == apply_lit(sub@, l@),
{
    match l {
        Literal::Proposition(p) => Literal::Proposition(apply_to_prop(sub, p)),
        Literal::Not(p) => Literal::Not(apply_to_prop(sub, p)),
    }
}

/// Applies `sub` to a term or a proposition.
pub fn apply_substitution(sub: &Substitution, t: &Unifiable) -> (r: Unifiable)
    requires
        sub.wf(),
    ensures
        r@ == apply_unif(sub@, t@),
{
    match t {
        Unifiable::Term(x) => Unifiable::Term(apply_to_term(sub, x)),
        Unifiable::Prop(p) => Unifiable::Prop(apply_to_prop(sub, p)),
    }
}

/// Rewrites every literal of `clause` by `sub`.
pub fn apply_substitution_to_clause(sub: &Substitution, clause: &mut Clause)
    requires
        sub.wf(),
    ensures
        final(clause)@ == apply_clause(sub@, old(clause)@),
{
    let mut out: Vec<Literal> = Vec::new();
    let mut i: usize = 0;
    while i < clause.0.len()
        invariant
            sub.wf(),
            i <= clause.0.len(),
            out@.len() == i,
            *clause == *old(clause),
            forall|j: int| 0 <= j < i ==> (#[trigger] out@[j])@ == apply_lit(sub@, clause@[j]),
        decreases clause.0.len() - i,
    {
        out.push(apply_to_literal(sub, &clause.0[i]));
        i = i + 1;
    }
    clause.0 = out;
    assert(clause@ =~= apply_clause(sub@, old(clause)@));
}

/// Rewrites both sides of each pending equation by `sub`.
pub fn apply_substitution_to_equation(sub: &Substitution, eq: &mut Vec<(Unifiable, Unifiable)>)
    requires
        sub.wf(),
    ensures
        eqs_view(final(eq)@) == apply_eqs(sub@, eqs_view(old(eq)@)),
{
    let mut out: Vec<(Unifiable, Unifiable)> = Vec::new();
    let mut i: usize = 0;
    while i < eq.len()
        invariant
            sub.wf(),
            i <= eq.len(),
            out@.len() == i,
            *eq == *old(eq),
            forall|j: int|
                0 <= j < i ==> (#[trigger] out@[j]).0@ == apply_unif(sub@, eq@[j].0@) && out@[j].1@
                    == apply_unif(sub@, eq@[j].1@),
        decreases eq.len() - i,
    {
        let a = apply_substitution(sub, &eq[i].0);
        let b = apply_substitution(sub, &eq[i].1);
        out.push((a, b));
        i = i + 1;
    }
    *eq = out;
    assert(eqs_view(eq@) =~= apply_eqs(sub@, eqs_view(old(eq)@)));
}

/// Composes `s1` into `s2`: each image of `s2` gets `s1` applied, then the
/// bindings of `s1` are added, replacing those of the same variable.
pub fn apply_substitution_to_sub(s1: &Substitution, s2: &mut Substitution)
    requires
        s1.wf(),
        old(s2).wf(),
    ensures
        final(s2).wf(),
        final(s2)@ == compose(s1@, old(s2)@),
{
    let mut out = Substitution::new();
    let mut i: usize = 0;
    while i < s2.entries.len()
        invariant
            s1.wf(),
            s2.wf(),
            out.wf(),
            *s2 == *old(s2),
            i <= s2.entries@.len(),
            forall|k: Seq<char>|
                #[trigger] out@.dom().contains(k) <==> exists|j: int|
                    0 <= j < i && s2.entries@[j].0@ == k,
            forall|j: int|
                0 <= j < i ==> out@[#[trigger] s2.entries@[j].0@] == apply_term(
                    s1@,
                    s2.entries@[j].1@,
                ),
        decreases s2.entries.len() - i,
    {
        let v = apply_to_term(s1, &s2.entries[i].1);
        proof {
            assert forall|j: int| 0 <= j < i implies s2.entries@[j].0@ != s2.entries@[i as int].0@ by {}
        }
        out.insert(copy_string(&s2.entries[i].0), v);
        i = i + 1;
    }
    proof {
        assert forall|key: Seq<char>| #[trigger] out@.dom().contains(key) <==> s2@.dom().contains(key) by {
            if s2@.dom().contains(key) {
                let j = choose|j: int| 0 <= j < s2.entries@.len() && s2.entries@[j].0@ == key;
            }
            if out@.dom().contains(key) {
                let j = choose|j: int| 0 <= j < s2.entries@.len() && s2.entries@[j].0@ == key;
                s2.lemma_index(j);
            }
        }
        assert forall|key: Seq<char>| #[trigger] out@.dom().contains(key) implies out@[key]
            == apply_term(s1@, s2@[key]) by {
            let j = choose|j: int| 0 <= j < s2.entries@.len() && s2.entries@[j].0@ == key;
            s2.lemma_index(j);
        }
    }
    let mut k: usize = 0;
    while k < s1.entries.len()
        invariant
            s1.wf(),
            s2.wf(),
            out.wf(),
            *s2 == *old(s2),
            k <= s1.entries@.len(),
            forall|key: Seq<char>|
                #[trigger] out@.dom().contains(key) <==> (s2@.dom().contains(key) || exists|j: int|
                    0 <= j < k && s1.entries@[j].0@ == key),
            forall|key: Seq<char>|
                #[trigger] out@.dom().contains(key) ==> out@[key] == if exists|j: int|
                    0 <= j < k && s1.entries@[j].0@ == key {
                    s1@[key]
                } else {
                    apply_term(s1@, s2@[key])
                },
        decreases s1.entries.len() - k,
    {
        proof {
            s1.lemma_index(k as int);
        }
        out.insert(copy_string(&s1.entries[k].0), s1.entries[k].1.copy());
        proof {
            assert forall|key: Seq<char>| #[trigger] out@.dom().contains(key) implies out@[key]
                == if exists|j: int| 0 <= j < k + 1 && s1.entries@[j].0@ == key {
                s1@[key]
            } else {
                apply_term(s1@, s2@[key])
            } by {
                if exists|j: int| 0 <= j < k + 1 && s1.entries@[j].0@ == key {
                    let j = choose|j: int| 0 <= j < k + 1 && s1.entries@[j].0@ == key;
                    s1.lemma_index(j);
                }
            }
        }
        k = k + 1;
    }
    proof {
        assert forall|key: Seq<char>| s1@.dom().contains(key) implies exists|j: int|
            0 <= j < s1.entries@.len() && s1.entries@[j].0@ == key by {}
    }
    *s2 = out;
    assert(s2@ =~= compose(s1@, old(s2)@));
}

} // verus!

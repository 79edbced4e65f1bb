use vstd::prelude::*;

verus! {

/// Mathematical model of a term: a variable, a function symbol applied to
/// arguments (constants are zero-arity applications), or an integer.
pub enum STerm {
    Var(Seq<char>),
    Fun(Seq<char>, Seq<STerm>),
    Num(int),
}

/// Mathematical model of an atomic proposition.
pub struct SProp {
    pub name: Seq<char>,
    pub terms: Seq<STerm>,
}

/// Mathematical model of a first-order formula.
pub enum SExpr {
    Prop(SProp),
    Bottom,
    And(Box<SExpr>, Box<SExpr>),
    Or(Box<SExpr>, Box<SExpr>),
    Implies(Box<SExpr>, Box<SExpr>),
    Not(Box<SExpr>),
    Exists(Seq<char>, Box<SExpr>),
    ForAll(Seq<char>, Box<SExpr>),
}

/// Number of symbols in a term.
pub open spec fn tsize(t: STerm) -> nat
    decreases t,
{
    match t {
        STerm::Fun(_, args) => 1 + tsizes(args),
        _ => 1,
    }
}

pub open spec fn tsizes(ts: Seq<STerm>) -> nat
    decreases ts,
{
    if ts.len() == 0 {
        0
    } else {
        tsizes(ts.drop_last()) + tsize(ts.last())
    }
}

/// The variables of a term.
pub open spec fn tvars(t: STerm) -> Set<Seq<char>>
    decreases t,
{
    match t {
        STerm::Var(x) => set![x],
        STerm::Fun(_, args) => tvars_seq(args),
        STerm::Num(_) => Set::empty(),
    }
}

pub open spec fn tvars_seq(ts: Seq<STerm>) -> Set<Seq<char>>
    decreases ts,
{
    if ts.len() == 0 {
        Set::empty()
    } else {
        tvars_seq(ts.drop_last()).union(tvars(ts.last()))
    }
}

pub proof fn lemma_tvars_finite(t: STerm)
    ensures
        tvars(t).finite(),
    decreases t,
{
    if let STerm::Fun(_, args) = t {
        lemma_tvars_seq_finite(args);
    }
}

pub proof fn lemma_tvars_seq_finite(ts: Seq<STerm>)
    ensures
        tvars_seq(ts).finite(),
    decreases ts,
{
    if ts.len() > 0 {
        lemma_tvars_seq_finite(ts.drop_last());
        lemma_tvars_finite(ts.last());
    }
}

/// A variable occurs in a sequence of terms exactly when it occurs in one of them.
pub proof fn lemma_tvars_seq(ts: Seq<STerm>, x: Seq<char>)
    ensures
        tvars_seq(ts).contains(x) <==> exists|i: int| 0 <= i < ts.len() && #[trigger] tvars(ts[i]).contains(x),
    decreases ts,
{
    if ts.len() > 0 {
        lemma_tvars_seq(ts.drop_last(), x);
        if tvars_seq(ts).contains(x) {
            if !tvars(ts.last()).contains(x) {
                let i = choose|i: int| 0 <= i < ts.len() - 1 && #[trigger] tvars(ts.drop_last()[i]).contains(x);
                assert(ts[i] == ts.drop_last()[i]);
            }
        }
        if exists|i: int| 0 <= i < ts.len() && #[trigger] tvars(ts[i]).contains(x) {
            let i = choose|i: int| 0 <= i < ts.len() && #[trigger] tvars(ts[i]).contains(x);
            if i < ts.len() - 1 {
                assert(ts.drop_last()[i] == ts[i]);
            }
        }
    }
}

/// The model of a term after appending `suffix` to each variable name.
pub open spec fn rename_term(t: STerm, suffix: Seq<char>) -> STerm
    decreases t,
{
    match t {
        STerm::Var(x) => STerm::Var(x + suffix),
        STerm::Fun(f, args) => STerm::Fun(
            f,
            Seq::new(
                args.len(),
                |i: int|
                    if 0 <= i < args.len() {
                        rename_term(args[i], suffix)
                    } else {
                        t
                    },
            ),
        ),
        STerm::Num(_) => t,
    }
}

#[derive(Debug, PartialEq, Eq, Hash)]
pub enum Term {
    Identifier(String),
    FunctionApplication { name: String, args: Vec<Term> },
    Number(i64),
}

#[derive(Debug, Clone, PartialEq, Eq, Hash)]
pub struct Proposition {
    pub name: String,
    pub terms: Vec<Term>,
}

#[derive(Debug, PartialEq)]
pub enum Expression {
    Proposition(Proposition),
    Bottom,
    And(Box<Expression>, Box<Expression>),
    Or(Box<Expression>, Box<Expression>),
    Implies(Box<Expression>, Box<Expression>),
    Not(Box<Expression>),
    Exists(String, Box<Expression>),
    ForAll(String, Box<Expression>),
}

pub open spec fn term_view(t: Term) -> STerm
    decreases t,
{
    match t {
        Term::Identifier(x) => STerm::Var(x@),
        Term::FunctionApplication { name, args } => STerm::Fun(name@, terms_view(args@)),
        Term::Number(n) => STerm::Num(n as int),
    }
}

pub open spec fn terms_view(ts: Seq<Term>) -> Seq<STerm>
    decreases ts,
{
    Seq::new(
        ts.len(),
        |i: int|
            if 0 <= i < ts.len() {
                term_view(ts[i])
            } else {
                STerm::Num(0)
            },
    )
}

impl View for Term {
    type V = STerm;

    open spec fn view(&self) -> STerm {
        term_view(*self)
    }
}

impl View for Proposition {
    type V = SProp;

    open spec fn view(&self) -> SProp {
        SProp { name: self.name@, terms: terms_view(self.terms@) }
    }
}

pub open spec fn expr_view(e: Expression) -> SExpr
    decreases e,
{
    match e {
        Expression::Proposition(p) => SExpr::Prop(p@),
        Expression::Bottom => SExpr::Bottom,
        Expression::And(a, b) => SExpr::And(Box::new(expr_view(*a)), Box::new(expr_view(*b))),
        Expression::Or(a, b) => SExpr::Or(Box::new(expr_view(*a)), Box::new(expr_view(*b))),
        Expression::Implies(a, b) => SExpr::Implies(
            Box::new(expr_view(*a)),
            Box::new(expr_view(*b)),
        ),
        Expression::Not(a) => SExpr::Not(Box::new(expr_view(*a))),
        Expression::Exists(v, a) => SExpr::Exists(v@, Box::new(expr_view(*a))),
        Expression::ForAll(v, a) => SExpr::ForAll(v@, Box::new(expr_view(*a))),
    }
}

impl View for Expression {
    type V = SExpr;

    open spec fn view(&self) -> SExpr {
        expr_view(*self)
    }
}

/// Whether two strings hold the same characters.
pub fn str_eq(a: &String, b: &String) -> (r: bool)
    ensures
        r == (a@ == b@),
{
    a.eq(b)
}

/// A copy of a string with the same characters.
pub fn copy_string(s: &String) -> (r: String)
    ensures
        r@ == s@,
{
    s.clone()
}

impl Clone for Term {
    fn clone(&self) -> (r: Term)
        ensures
            r@ == self@,
    {
        self.copy()
    }
}

impl Term {
    /// A deep copy of the term.
    pub fn copy(&self) -> (r: Term)
        ensures
            r@ == self@,
        decreases self,
    {
        match self {
            Term::Identifier(x) => Term::Identifier(copy_string(x)),
            Term::FunctionApplication { name, args } => {
                let new_args = copy_terms(args);
                Term::FunctionApplication { name: copy_string(name), args: new_args }
            },
            Term::Number(n) => Term::Number(*n),
        }
    }

    /// Whether this term is a variable.
    pub fn is_var(&self) -> (r: bool)
        ensures
            r == (self@ is Var),
    {
        match self {
            Term::Identifier(_) => true,
            _ => false,
        }
    }

    /// Structural equality of two terms.
    pub fn equals(&self, other: &Term) -> (r: bool)
        ensures
            r == (self@ == other@),
        decreases self,
    {
        match self {
            Term::Identifier(x) => match other {
                Term::Identifier(y) => str_eq(x, y),
                _ => false,
            },
            Term::Number(n) => match other {
                Term::Number(m) => *n == *m,
                _ => false,
            },
            Term::FunctionApplication { name: f, args: a } => {
                let (g, b) = match other {
                    Term::FunctionApplication { name: g, args: b } => (g, b),
                    _ => {
                        return false;
                    },
                };
                if !str_eq(f, g) {
                    return false;
                }
                if a.len() != b.len() {
                    assert(self@->Fun_1.len() != other@->Fun_1.len());
                    return false;
                }
                let mut i: usize = 0;
                while i < a.len()
                    invariant
                        a.len() == b.len(),
                        i <= a.len(),
                        forall|j: int| 0 <= j < i ==> term_view(a@[j]) == term_view(b@[j]),
                        *self == (Term::FunctionApplication { name: *f, args: *a }),
                        *other == (Term::FunctionApplication { name: *g, args: *b }),
                    decreases a.len() - i,
                {
                    assert(decreases_to!(*self => (*self)->args));
                    assert(decreases_to!(*a => a@));
                    assert(decreases_to!(a@ => a@[i as int]));
                    if !a[i].equals(&b[i]) {
                        assert(terms_view(a@)[i as int] != terms_view(b@)[i as int]);
                        return false;
                    }
                    i = i + 1;
                }
                assert(terms_view(a@) =~= terms_view(b@));
                true
            },
        }
    }

    /// The term as a unifiable value, when it is a function application.
    pub fn to_unifiable(&self) -> (r: Option<crate::unify::Unifiable>)
        ensures
            r matches Some(u) ==> u@ == crate::unify::SUnif::Term(self@),
            r is Some <==> self@ is Fun,
    {
        match self {
            Term::FunctionApplication { .. } => Some(crate::unify::Unifiable::Term(self.copy())),
            _ => None,
        }
    }

    /// The term with `suffix` appended to the name of each of its variables.
    pub fn append_suffix_to_vars(&self, suffix: &str) -> (r: Term)
        ensures
            r@ == rename_term(self@, suffix@),
        decreases self,
    {
        match self {
            Term::Identifier(x) => {
                let s = copy_string(x);
                Term::Identifier(s.concat(suffix))
            },
            Term::FunctionApplication { name, args } => {
                let mut new_args: Vec<Term> = Vec::new();
                let mut i: usize = 0;
                while i < args.len()
                    invariant
                        i <= args.len(),
                        new_args@.len() == i,
                        forall|j: int|
                            0 <= j < i ==> term_view(#[trigger] new_args@[j]) == rename_term(
                                term_view(args@[j]),
                                suffix@,
                            ),
                        *self == (Term::FunctionApplication { name: *name, args: *args }),
                    decreases args.len() - i,
                {
                    assert(decreases_to!(*self => (*self)->args));
                    assert(decreases_to!(*args => args@));
                    assert(decreases_to!(args@ => args@[i as int]));
                    new_args.push(args[i].append_suffix_to_vars(suffix));
                    i = i + 1;
                }
                let r = Term::FunctionApplication { name: copy_string(name), args: new_args };
                assert(terms_view(new_args@) =~= rename_term(self@, suffix@)->Fun_1);
                r
            },
            Term::Number(n) => Term::Number(*n),
        }
    }
}

/// A deep copy of a sequence of terms.
pub fn copy_terms(ts: &Vec<Term>) -> (r: Vec<Term>)
    ensures
        terms_view(r@) == terms_view(ts@),
    decreases ts,
{
    let mut out: Vec<Term> = Vec::new();
    let mut i: usize = 0;
    while i < ts.len()
        invariant
            i <= ts.len(),
            out@.len() == i,
            forall|j: int| 0 <= j < i ==> term_view(#[trigger] out@[j]) == term_view(ts@[j]),
        decreases ts.len() - i,
    {
        assert(decreases_to!(ts => ts@[i as int]));
        out.push(ts[i].copy());
        i = i + 1;
    }
    assert(terms_view(out@) =~= terms_view(ts@));
    out
}

impl Proposition {
    /// A deep copy of the proposition.
    pub fn copy(&self) -> (r: Proposition)
        ensures
            r@ == self@,
    {
        Proposition { name: copy_string(&self.name), terms: copy_terms(&self.terms) }
    }

    /// Structural equality of two propositions.
    pub fn equals(&self, other: &Proposition) -> (r: bool)
        ensures
            r == (self@ == other@),
    {
        if !str_eq(&self.name, &other.name) {
            return false;
        }
        if self.terms.len() != other.terms.len() {
            assert(self@.terms.len() != other@.terms.len());
            return false;
        }
        let mut i: usize = 0;
        while i < self.terms.len()
            invariant
                self.terms.len() == other.terms.len(),
                i <= self.terms.len(),
                forall|j: int| 0 <= j < i ==> term_view(self.terms@[j]) == term_view(other.terms@[j]),
            decreases self.terms.len() - i,
        {
            if !self.terms[i].equals(&other.terms[i]) {
                assert(self@.terms[i as int] != other@.terms[i as int]);
                assert(self@.terms != other@.terms);
                return false;
            }
            i = i + 1;
        }
        assert(self@.terms =~= other@.terms);
        true
    }
}

} // verus!

use vstd::prelude::*;

use crate::ast::STerm;

use crate::ast::{
    copy_string, lemma_tvars_seq, rename_term, str_eq, tvars, tvars_seq, Proposition, SProp, Term,
};

verus! {

/// Mathematical model of a literal.
pub enum SLit {
    Pos(SProp),
    Neg(SProp),
}

pub open spec fn lit_prop(l: SLit) -> SProp {
    match l {
        SLit::Pos(p) => p,
        SLit::Neg(p) => p,
    }
}

pub open spec fn is_pos(l: SLit) -> bool {
    l is Pos
}

/// The variables of a clause.
pub open spec fn clause_vars(c: Seq<SLit>) -> Set<Seq<char>>
    decreases c.len(),
{
    if c.len() == 0 {
        Set::empty()
    } else {
        clause_vars(c.drop_last()).union(tvars_seq(lit_prop(c.last()).terms))
    }
}

/// The number of positive literals of a clause.
pub open spec fn count_pos(c: Seq<SLit>) -> nat
    decreases c.len(),
{
    if c.len() == 0 {
        0
    } else {
        count_pos(c.drop_last()) + if is_pos(c.last()) {
            1nat
        } else {
            0nat
        }
    }
}

/// The positive literals of a clause, in order.
pub open spec fn pos_lits(c: Seq<SLit>) -> Seq<SLit>
    decreases c.len(),
{
    if c.len() == 0 {
        Seq::empty()
    } else if is_pos(c.last()) {
        pos_lits(c.drop_last()).push(c.last())
    } else {
        pos_lits(c.drop_last())
    }
}

/// The negative literals of a clause, in order.
pub open spec fn neg_lits(c: Seq<SLit>) -> Seq<SLit>
    decreases c.len(),
{
    if c.len() == 0 {
        Seq::empty()
    } else if !is_pos(c.last()) {
        neg_lits(c.drop_last()).push(c.last())
    } else {
        neg_lits(c.drop_last())
    }
}

/// A clause is Horn when it has at most one positive literal.
pub open spec fn horn_clause(c: Seq<SLit>) -> bool {
    count_pos(c) <= 1
}

/// A program is Horn when each of its clauses is.
pub open spec fn horn_program(p: Seq<Seq<SLit>>) -> bool {
    forall|i: int| 0 <= i < p.len() ==> horn_clause(#[trigger] p[i])
}

pub open spec fn rename_prop(p: SProp, suffix: Seq<char>) -> SProp {
    SProp {
        name: p.name,
        terms: Seq::new(p.terms.len(), |i: int| rename_term(p.terms[i], suffix)),
    }
}

pub open spec fn rename_lit(l: SLit, suffix: Seq<char>) -> SLit {
    match l {
        SLit::Pos(p) => SLit::Pos(rename_prop(p, suffix)),
        SLit::Neg(p) => SLit::Neg(rename_prop(p, suffix)),
    }
}

/// The clause with `suffix` appended to the name of each of its variables.
pub open spec fn rename_clause(c: Seq<SLit>, suffix: Seq<char>) -> Seq<SLit> {
    Seq::new(c.len(), |i: int| rename_lit(c[i], suffix))
}

/// The names held by a list of strings.
pub open spec fn names_set(v: Seq<String>) -> Set<Seq<char>> {
    Set::new(|y: Seq<char>| exists|j: int| 0 <= j < v.len() && #[trigger] v[j]@ == y)
}

/// No name is held twice.
pub open spec fn names_distinct(v: Seq<String>) -> bool {
    forall|i: int, j: int| 0 <= i < j < v.len() ==> v[i]@ != v[j]@
}

/// The variable occurrences of a term, left to right.
pub open spec fn term_occ(t: STerm) -> Seq<Seq<char>>
    decreases t, 0nat,
{
    match t {
        STerm::Var(x) => seq![x],
        STerm::Fun(_, args) => args_occ(args),
        STerm::Num(_) => Seq::empty(),
    }
}

/// The variable occurrences of a sequence of terms, left to right.
pub open spec fn args_occ(ts: Seq<STerm>) -> Seq<Seq<char>>
    decreases ts, 1nat,
{
    if ts.len() == 0 {
        Seq::empty()
    } else {
        args_occ(ts.drop_last()) + term_occ(ts.last())
    }
}

/// The variable occurrences of a clause, left to right.
pub open spec fn clause_occ(c: Seq<SLit>) -> Seq<Seq<char>>
    decreases c.len(),
{
    if c.len() == 0 {
        Seq::empty()
    } else {
        clause_occ(c.drop_last()) + args_occ(lit_prop(c.last()).terms)
    }
}

/// `acc` followed by each name of `s` that is not there yet, in order of first occurrence.
pub open spec fn add_new(acc: Seq<Seq<char>>, s: Seq<Seq<char>>) -> Seq<Seq<char>>
    decreases s.len(),
{
    if s.len() == 0 {
        acc
    } else {
        let a = add_new(acc, s.drop_last());
        if a.contains(s.last()) {
            a
        } else {
            a.push(s.last())
        }
    }
}

pub proof fn lemma_add_new_concat(acc: Seq<Seq<char>>, a: Seq<Seq<char>>, b: Seq<Seq<char>>)
    ensures
        add_new(acc, a + b) == add_new(add_new(acc, a), b),
    decreases b.len(),
{
    if b.len() == 0 {
        assert(a + b =~= a);
    } else {
        lemma_add_new_concat(acc, a, b.drop_last());
        assert((a + b).drop_last() =~= a + b.drop_last());
        assert((a + b).last() == b.last());
    }
}

pub open spec fn names_of(v: Seq<String>) -> Seq<Seq<char>> {
    Seq::new(v.len(), |i: int| v[i]@)
}

/// Adds to `out` each variable of `t` that it does not hold yet.
fn collect_vars(t: &Term, out: &mut Vec<String>)
    requires
        names_distinct(old(out)@),
    ensures
        names_distinct(final(out)@),
        names_set(final(out)@) == names_set(old(out)@).union(tvars(t@)),
        names_of(final(out)@) == add_new(names_of(old(out)@), term_occ(t@)),
    decreases t,
{
    match t {
        Term::Identifier(x) => {
            assert(seq![x@].drop_last() =~= Seq::<Seq<char>>::empty());
            assert(term_occ(t@) == seq![x@]);
            assert(add_new(names_of(old(out)@), seq![x@].drop_last()) == names_of(old(out)@));
            assert(seq![x@].last() == x@);
            assert(add_new(names_of(old(out)@), seq![x@]) == if names_of(old(out)@).contains(x@) {
                names_of(old(out)@)
            } else {
                names_of(old(out)@).push(x@)
            });
            let mut found = false;
            let mut i: usize = 0;
            while i < out.len()
                invariant
                    i <= out@.len(),
                    found == exists|j: int| 0 <= j < i && out@[j]@ == x@,
                decreases out.len() - i,
            {
                if str_eq(&out[i], x) {
                    found = true;
                }
                i = i + 1;
            }
            proof {
                if found {
                    let j = choose|j: int| 0 <= j < out@.len() && out@[j]@ == x@;
                    assert(names_of(out@)[j] == x@);
                } else {
                    assert(!names_of(out@).contains(x@)) by {
                        if names_of(out@).contains(x@) {
                            let j = choose|j: int| 0 <= j < names_of(out@).len() && names_of(out@)[j] == x@;
                            assert(out@[j]@ == x@);
                        }
                    }
                }
            }
            if !found {
                let ghost before = names_of(out@);
                out.push(copy_string(x));
                assert(names_of(out@) =~= before.push(x@));
                assert(names_set(out@) =~= names_set(old(out)@).union(tvars(t@))) by {
                    assert forall|y: Seq<char>| names_set(old(out)@).contains(y) implies names_set(
                        out@,
                    ).contains(y) by {
                        let j = choose|j: int| 0 <= j < old(out)@.len() && #[trigger] old(out)@[j]@ == y;
                        assert(out@[j]@ == y);
                    }
                    assert(out@[out@.len() - 1]@ == x@);
                }
            } else {
                assert(names_set(out@) =~= names_set(old(out)@).union(tvars(t@)));
            }
        },
        Term::FunctionApplication { name, args } => {
            let mut i: usize = 0;
            while i < args.len()
                invariant
                    i <= args@.len(),
                    names_distinct(out@),
                    *t == (Term::FunctionApplication { name: *name, args: *args }),
                    names_set(out@) == names_set(old(out)@).union(
                        Set::new(|y: Seq<char>| exists|j: int| 0 <= j < i && #[trigger] tvars(args@[j]@).contains(y)),
                    ),
                    names_of(out@) == add_new(names_of(old(out)@), args_occ(crate::ast::terms_view(args@).subrange(0, i as int))),
                decreases args.len() - i,
            {
                assert(decreases_to!(*t => (*t)->args));
                assert(decreases_to!(*args => args@));
                assert(decreases_to!(args@ => args@[i as int]));
                let ghost before = names_set(out@);
                let ghost tv = crate::ast::terms_view(args@);
                collect_vars(&args[i], out);
                proof {
                    assert(tv.subrange(0, i + 1).drop_last() =~= tv.subrange(0, i as int));
                    assert(tv.subrange(0, i + 1).last() == args@[i as int]@);
                    lemma_add_new_concat(names_of(old(out)@), args_occ(tv.subrange(0, i as int)), term_occ(args@[i as int]@));
                }
                assert(names_set(out@) =~= names_set(old(out)@).union(
                    Set::new(|y: Seq<char>| exists|j: int| 0 <= j < i + 1 && #[trigger] tvars(args@[j]@).contains(y)),
                ));
                i = i + 1;
            }
            assert forall|y: Seq<char>| tvars(t@).contains(y) <==> exists|j: int|
                0 <= j < args@.len() && #[trigger] tvars(args@[j]@).contains(y) by {
                lemma_tvars_seq(t@->Fun_1, y);
                if tvars(t@).contains(y) {
                    let j = choose|j: int| 0 <= j < args@.len() && #[trigger] tvars(t@->Fun_1[j]).contains(y);
                    assert(tvars(args@[j]@).contains(y));
                }
                if exists|j: int| 0 <= j < args@.len() && #[trigger] tvars(args@[j]@).contains(y) {
                    let j = choose|j: int| 0 <= j < args@.len() && #[trigger] tvars(args@[j]@).contains(y);
                    assert(tvars(t@->Fun_1[j]).contains(y));
                }
            }
            assert(names_set(out@) =~= names_set(old(out)@).union(tvars(t@)));
            assert(crate::ast::terms_view(args@).subrange(0, args@.len() as int) =~= crate::ast::terms_view(args@));
        },
        Term::Number(_) => {
            assert(names_set(out@) =~= names_set(old(out)@).union(tvars(t@)));
        },
    }
}

#[derive(Debug, Clone, PartialEq, Eq, Hash)]
pub enum Literal {
    Proposition(Proposition),
    Not(Proposition),
}

impl View for Literal {
    type V = SLit;

    open spec fn view(&self) -> SLit {
        match self {
            Literal::Proposition(p) => SLit::Pos(p@),
            Literal::Not(p) => SLit::Neg(p@),
        }
    }
}

pub open spec fn lits_view(ls: Seq<Literal>) -> Seq<SLit> {
    Seq::new(ls.len(), |i: int| ls[i]@)
}

/// An ordered disjunction of literals; the first one is the selected literal.
#[derive(Debug, Clone, PartialEq, Eq, Hash)]
pub struct Clause(pub Vec<Literal>);

impl View for Clause {
    type V = Seq<SLit>;

    open spec fn view(&self) -> Seq<SLit> {
        lits_view(self.0@)
    }
}

/// An ordered sequence of clauses.
#[derive(Debug, Clone, PartialEq)]
pub struct Program(pub Vec<Clause>);

pub open spec fn clauses_view(cs: Seq<Clause>) -> Seq<Seq<SLit>> {
    Seq::new(cs.len(), |i: int| cs[i]@)
}

impl View for Program {
    type V = Seq<Seq<SLit>>;

    open spec fn view(&self) -> Seq<Seq<SLit>> {
        clauses_view(self.0@)
    }
}

impl Literal {
    pub fn is_positive(&self) -> (r: bool)
        ensures
            r == is_pos(self@),
    {
        match self {
            Literal::Proposition(_) => true,
            Literal::Not(_) => false,
        }
    }

    pub fn is_negative(&self) -> (r: bool)
        ensures
            r == !is_pos(self@),
    {
        !self.is_positive()
    }

    /// The proposition under the literal.
    pub fn prop(&self) -> (r: &Proposition)
        ensures
            r@ == lit_prop(self@),
    {
        match self {
            Literal::Proposition(p) => p,
            Literal::Not(p) => p,
        }
    }

    /// A deep copy of the literal.
    pub fn copy(&self) -> (r: Literal)
        ensures
            r@ == self@,
    {
        match self {
            Literal::Proposition(p) => Literal::Proposition(p.copy()),
            Literal::Not(p) => Literal::Not(p.copy()),
        }
    }

    /// The literal with `suffix` appended to the name of each of its variables.
    pub fn suffix_vars(&self, suffix: &str) -> (r: Literal)
        ensures
            r@ == rename_lit(self@, suffix@),
    {
        let p = self.prop();
        let mut terms: Vec<Term> = Vec::new();
        let mut i: usize = 0;
        while i < p.terms.len()
            invariant
                i <= p.terms.len(),
                terms@.len() == i,
                forall|j: int| 0 <= j < i ==> (#[trigger] terms@[j])@ == rename_term(p.terms@[j]@, suffix@),
            decreases p.terms.len() - i,
        {
            terms.push(p.terms[i].append_suffix_to_vars(suffix));
            i = i + 1;
        }
        let np = Proposition { name: copy_string(&p.name), terms };
        assert(np@ == rename_prop(p@, suffix@)) by {
            assert(np@.terms =~= rename_prop(p@, suffix@).terms);
        }
        match self {
            Literal::Proposition(_) => Literal::Proposition(np),
            Literal::Not(_) => Literal::Not(np),
        }
    }
}

/// A deep copy of a sequence of literals.
pub fn copy_literals(ls: &[Literal]) -> (r: Vec<Literal>)
    ensures
        lits_view(r@) == lits_view(ls@),
{
    let mut out: Vec<Literal> = Vec::new();
    let mut i: usize = 0;
    while i < ls.len()
        invariant
            i <= ls.len(),
            out@.len() == i,
            forall|j: int| 0 <= j < i ==> (#[trigger] out@[j])@ == ls@[j]@,
        decreases ls.len() - i,
    {
        out.push(ls[i].copy());
        i = i + 1;
    }
    assert(lits_view(out@) =~= lits_view(ls@));
    out
}

/// A deep copy of the literals of `ls` from position `start` on.
pub fn copy_literals_from(ls: &Vec<Literal>, start: usize) -> (r: Vec<Literal>)
    requires
        start <= ls@.len(),
    ensures
        lits_view(r@) == lits_view(ls@.subrange(start as int, ls@.len() as int)),
{
    let mut out: Vec<Literal> = Vec::new();
    let mut i: usize = start;
    while i < ls.len()
        invariant
            start <= i <= ls@.len(),
            out@.len() == i - start,
            forall|j: int| 0 <= j < i - start ==> (#[trigger] out@[j])@ == ls@[start + j]@,
        decreases ls.len() - i,
    {
        out.push(ls[i].copy());
        i = i + 1;
    }
    assert(lits_view(out@) =~= lits_view(ls@.subrange(start as int, ls@.len() as int)));
    out
}

impl Clause {
    pub fn new() -> (r: Clause)
        ensures
            r@ == Seq::<SLit>::empty(),
    {
        let r = Clause(Vec::new());
        assert(r@ =~= Seq::<SLit>::empty());
        r
    }

    pub fn from_literals(lits: Vec<Literal>) -> (r: Clause)
        ensures
            r@ == lits_view(lits@),
    {
        Clause(lits)
    }

    /// A deep copy of the clause.
    pub fn copy(&self) -> (r: Clause)
        ensures
            r@ == self@,
    {
        Clause(copy_literals(self.0.as_slice()))
    }

    pub fn is_empty(&self) -> (r: bool)
        ensures
            r == (self@.len() == 0),
    {
        self.0.len() == 0
    }

    /// A goal clause holds no positive literal.
    pub fn is_goal(&self) -> (r: bool)
        ensures
            r == (forall|i: int| 0 <= i < self@.len() ==> !is_pos(#[trigger] self@[i])),
    {
        let mut i: usize = 0;
        while i < self.0.len()
            invariant
                i <= self.0.len(),
                forall|j: int| 0 <= j < i ==> !is_pos(#[trigger] self@[j]),
            decreases self.0.len() - i,
        {
            if self.0[i].is_positive() {
                assert(is_pos(self@[i as int]));
                return false;
            }
            i = i + 1;
        }
        true
    }

    /// The positive literals, in order.
    pub fn positives(&self) -> (r: Vec<&Literal>)
        ensures
            Seq::new(r@.len(), |i: int| r@[i]@) == pos_lits(self@),
    {
        let mut out: Vec<&Literal> = Vec::new();
        let mut i: usize = 0;
        while i < self.0.len()
            invariant
                i <= self.0.len(),
                Seq::new(out@.len(), |k: int| out@[k]@) == pos_lits(self@.subrange(0, i as int)),
            decreases self.0.len() - i,
        {
            assert(self@.subrange(0, i + 1).drop_last() =~= self@.subrange(0, i as int));
            if self.0[i].is_positive() {
                out.push(&self.0[i]);
            }
            assert(Seq::new(out@.len(), |k: int| out@[k]@) =~= pos_lits(self@.subrange(0, i + 1)));
            i = i + 1;
        }
        assert(self@.subrange(0, self@.len() as int) =~= self@);
        out
    }

    /// The negative literals, in order.
    pub fn negatives(&self) -> (r: Vec<&Literal>)
        ensures
            Seq::new(r@.len(), |i: int| r@[i]@) == neg_lits(self@),
    {
        let mut out: Vec<&Literal> = Vec::new();
        let mut i: usize = 0;
        while i < self.0.len()
            invariant
                i <= self.0.len(),
                Seq::new(out@.len(), |k: int| out@[k]@) == neg_lits(self@.subrange(0, i as int)),
            decreases self.0.len() - i,
        {
            assert(self@.subrange(0, i + 1).drop_last() =~= self@.subrange(0, i as int));
            if self.0[i].is_negative() {
                out.push(&self.0[i]);
            }
            assert(Seq::new(out@.len(), |k: int| out@[k]@) =~= neg_lits(self@.subrange(0, i + 1)));
            i = i + 1;
        }
        assert(self@.subrange(0, self@.len() as int) =~= self@);
        out
    }

    pub fn len(&self) -> (r: usize)
        ensures
            r == self@.len(),
    {
        self.0.len()
    }

    /// Moves the literals of `other` to the end of this clause.
    pub fn append(&mut self, other: &mut Clause)
        ensures
            final(self)@ == old(self)@ + old(other)@,
            final(other)@.len() == 0,
    {
        self.0.append(&mut other.0);
        assert(self@ =~= old(self)@ + old(other)@);
    }

    /// The literals of the clause, in order.
    pub fn iter(&self) -> std::slice::Iter<'_, Literal> {
        self.0.iter()
    }

    /// The variables of the clause, each once.
    pub fn fv(&self) -> (r: Vec<String>)
        ensures
            names_distinct(r@),
            names_set(r@) == clause_vars(self@),
            names_of(r@) == add_new(Seq::empty(), clause_occ(self@)),
    {
        let mut out: Vec<String> = Vec::new();
        assert(names_of(out@) =~= Seq::<Seq<char>>::empty());
        assert(names_set(out@) =~= clause_vars(self@.subrange(0, 0)));
        let mut i: usize = 0;
        while i < self.0.len()
            invariant
                i <= self@.len(),
                names_distinct(out@),
                names_set(out@) == clause_vars(self@.subrange(0, i as int)),
                names_of(out@) == add_new(Seq::empty(), clause_occ(self@.subrange(0, i as int))),
            decreases self.0.len() - i,
        {
            let p = self.0[i].prop();
            let mut k: usize = 0;
            let ghost base = names_set(out@);
            let ghost base_names = names_of(out@);
            while k < p.terms.len()
                invariant
                    k <= p@.terms.len(),
                    names_distinct(out@),
                    names_set(out@) == base.union(tvars_seq(p@.terms.subrange(0, k as int))),
                    names_of(out@) == add_new(base_names, args_occ(p@.terms.subrange(0, k as int))),
                decreases p.terms.len() - k,
            {
                collect_vars(&p.terms[k], &mut out);
                assert(p@.terms.subrange(0, k + 1).drop_last() =~= p@.terms.subrange(0, k as int));
                proof {
                    lemma_add_new_concat(base_names, args_occ(p@.terms.subrange(0, k as int)), term_occ(p@.terms[k as int]));
                }
                assert(names_set(out@) =~= base.union(tvars_seq(p@.terms.subrange(0, k + 1))));
                k = k + 1;
            }
            assert(p@.terms.subrange(0, p@.terms.len() as int) =~= p@.terms);
            assert(self@.subrange(0, i + 1).drop_last() =~= self@.subrange(0, i as int));
            proof {
                lemma_add_new_concat(Seq::empty(), clause_occ(self@.subrange(0, i as int)), args_occ(p@.terms));
                assert(lit_prop(self@.subrange(0, i + 1).last()) == p@);
            }
            i = i + 1;
        }
        assert(self@.subrange(0, self@.len() as int) =~= self@);
        out
    }

    /// The clause with `suffix` appended to the name of each of its variables.
    pub fn suffix_vars(&self, suffix: &str) -> (r: Clause)
        ensures
            r@ == rename_clause(self@, suffix@),
    {
        let mut out: Vec<Literal> = Vec::new();
        let mut i: usize = 0;
        while i < self.0.len()
            invariant
                i <= self.0.len(),
                out@.len() == i,
                forall|j: int| 0 <= j < i ==> (#[trigger] out@[j])@ == rename_lit(self@[j], suffix@),
            decreases self.0.len() - i,
        {
            out.push(self.0[i].suffix_vars(suffix));
            i = i + 1;
        }
        let r = Clause(out);
        assert(r@ =~= rename_clause(self@, suffix@));
        r
    }
}

impl Program {
    pub fn new() -> (r: Program)
        ensures
            r@ == Seq::<Seq<SLit>>::empty(),
    {
        let r = Program(Vec::new());
        assert(r@ =~= Seq::<Seq<SLit>>::empty());
        r
    }

    pub fn get_clause(&self, index: usize) -> (r: Option<&Clause>)
        ensures
            index < self@.len() ==> (r matches Some(c) && c@ == self@[index as int]),
            index >= self@.len() ==> r is None,
    {
        if index < self.0.len() {
            Some(&self.0[index])
        } else {
            None
        }
    }

    /// Moves the clauses of `other` to the end of this program.
    pub fn append(&mut self, other: &mut Self)
        ensures
            final(self)@ == old(self)@ + old(other)@,
            final(other)@.len() == 0,
    {
        self.0.append(&mut other.0);
        assert(self@ =~= old(self)@ + old(other)@);
    }

    /// Adds a clause at the end of the program.
    pub fn push(&mut self, c: Clause)
        ensures
            final(self)@ == old(self)@.push(c@),
    {
        self.0.push(c);
        assert(self@ =~= old(self)@.push(c@));
    }

    /// Whether every clause has at most one positive literal.
    pub fn is_horn(&self) -> (r: bool)
        ensures
            r == horn_program(self@),
    {
        let mut i: usize = 0;
        while i < self.0.len()
            invariant
                i <= self.0.len(),
                forall|j: int| 0 <= j < i ==> horn_clause(#[trigger] self@[j]),
            decreases self.0.len() - i,
        {
            let c = &self.0[i];
            let mut count: usize = 0;
            let mut k: usize = 0;
            while k < c.0.len()
                invariant
                    k <= c.0.len(),
                    count == count_pos(c@.subrange(0, k as int)),
                    count <= k,
                decreases c.0.len() - k,
            {
                assert(c@.subrange(0, k + 1).drop_last() =~= c@.subrange(0, k as int));
                if c.0[k].is_positive() {
                    count = count + 1;
                }
                k = k + 1;
            }
            assert(c@.subrange(0, c@.len() as int) =~= c@);
            if count > 1 {
                assert(!horn_clause(self@[i as int]));
                return false;
            }
            i = i + 1;
        }
        true
    }

    pub fn is_empty(&self) -> (r: bool)
        ensures
            r == (self@.len() == 0),
    {
        self.0.len() == 0
    }

    pub fn len(&self) -> (r: usize)
        ensures
            r == self@.len(),
    {
        self.0.len()
    }
}

} // verus!

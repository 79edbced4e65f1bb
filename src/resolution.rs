use vstd::prelude::*;

use crate::ast::{copy_string, tvars, tvars_seq, SProp, STerm, Term};
use crate::builtins::{
    list_len,
    built_in_preds, builtin_conts, builtin_of, conts_view, conts_wf, divides_by_zero, length_nth,
    length_nth_pred, length_unbounded, rest, Builtin, Dispatch, SCont,
};
use crate::clause::{
    horn_program, is_pos, lit_prop, lits_view, rename_clause, Clause, Literal, Program, SLit,
};
use crate::errors::GicError;
use crate::substitution::apply_term;
use crate::laws::{clean, lemma_applied_clause_avoids, lemma_resolvent_clean};
use crate::substitution::{
    apply_unif, apply_clause, apply_prop, apply_substitution_to_clause, apply_substitution_to_sub, compose,
    idempotent, SSubst, Substitution,
};
use crate::text::{concat, decimal, decimal_string};
use crate::unify::{eqs_view, mgu, unifies, MguError, SUnif, Unifiable};

verus! {

/// `l` and `h` have opposite signs and `s` is a most general unifier of their
/// propositions: idempotent, it makes them equal, and every unifier of them is
/// left unchanged by composing it after `s`.
pub open spec fn complementary_unifier(l: SLit, h: SLit, s: SSubst) -> bool {
    &&& is_pos(l) != is_pos(h)
    &&& idempotent(s)
    &&& apply_prop(s, lit_prop(l)) == apply_prop(s, lit_prop(h))
    &&& forall|th: SSubst, u: STerm|
        #![trigger apply_prop(th, lit_prop(l)), apply_term(th, apply_term(s, u))]
        apply_prop(th, lit_prop(l)) == apply_prop(th, lit_prop(h)) ==> apply_term(
            th,
            apply_term(s, u),
        ) == apply_term(th, u)
}

/// Some substitution makes the propositions of `l` and `h` equal, and their
/// signs are opposite.
pub open spec fn complementary(l: SLit, h: SLit) -> bool {
    is_pos(l) != is_pos(h) && exists|s: SSubst|
        #[trigger] apply_prop(s, lit_prop(l)) == apply_prop(s, lit_prop(h))
}

/// Unifies two literals of opposite signs; literals of the same sign give `None`.
pub fn unify_literals(l1: &Literal, l2: &Literal) -> (r: Result<Option<Substitution>, MguError>)
    ensures
        is_pos(l1@) == is_pos(l2@) ==> r matches Ok(None),
        is_pos(l1@) != is_pos(l2@) ==> !(r matches Ok(None)),
        is_pos(l1@) != is_pos(l2@) ==> (r is Ok <==> complementary(l1@, l2@)),
        r matches Ok(Some(s)) ==> s.wf() && complementary_unifier(l1@, l2@, s@),
        r matches Ok(Some(s)) ==> forall|v: Seq<char>|
            #[trigger] s@.dom().contains(v) ==> tvars_seq(lit_prop(l1@).terms).contains(v)
                || tvars_seq(lit_prop(l2@).terms).contains(v),
        r matches Ok(Some(s)) ==> forall|k: Seq<char>, v: Seq<char>|
            #![trigger s@.dom().contains(k), tvars(s@[k]).contains(v)]
            s@.dom().contains(k) && tvars(s@[k]).contains(v) ==> tvars_seq(
                lit_prop(l1@).terms,
            ).contains(v) || tvars_seq(lit_prop(l2@).terms).contains(v),
{
    match (l1, l2) {
        (Literal::Proposition(p1), Literal::Not(p2)) | (Literal::Not(p1), Literal::Proposition(
            p2,
        )) => {
            let mut eq: Vec<(Unifiable, Unifiable)> = Vec::new();
            eq.push((Unifiable::Prop(p1.copy()), Unifiable::Prop(p2.copy())));
            let ghost e = eqs_view(eq@);
            proof {
                assert(e[0] == (SUnif::Prop(p1@), SUnif::Prop(p2@)));
                assert(e.len() == 1);
                assert(e.drop_last() =~= Seq::<(SUnif, SUnif)>::empty());
                assert(crate::unify::evars(e.drop_last()) == Set::<Seq<char>>::empty());
                assert(e.last() == e[0]);
                assert(crate::unify::evars(e) =~= tvars_seq(p1@.terms).union(tvars_seq(p2@.terms)));
                assert(lit_prop(l1@) == p1@);
                assert(lit_prop(l2@) == p2@);
                assert forall|s: SSubst| #[trigger] unifies(s, e) <==> apply_prop(s, p1@) == apply_prop(
                    s,
                    p2@,
                ) by {
                    if unifies(s, e) {
                        assert(apply_unif(s, e[0].0) == apply_unif(s, e[0].1));
                    }
                    if apply_prop(s, p1@) == apply_prop(s, p2@) {
                        assert forall|i: int| 0 <= i < e.len() implies apply_unif(s, #[trigger] e[i].0)
                            == apply_unif(s, e[i].1) by {
                            assert(i == 0);
                        }
                    }
                }
            }
            match mgu(eq) {
                Ok(s) => {
                    assert(unifies(s@, e));
                    assert forall|th: SSubst, u: STerm|
                        #![trigger apply_prop(th, lit_prop(l1@)), apply_term(th, apply_term(s@, u))]
                        apply_prop(th, lit_prop(l1@)) == apply_prop(th, lit_prop(l2@)) implies apply_term(
                        th,
                        apply_term(s@, u),
                    ) == apply_term(th, u) by {
                        assert(unifies(th, e));
                    }
                    assert forall|v: Seq<char>| #[trigger] s@.dom().contains(v) implies tvars_seq(
                        lit_prop(l1@).terms,
                    ).contains(v) || tvars_seq(lit_prop(l2@).terms).contains(v) by {
                        assert(crate::unify::evars(e).contains(v));
                        assert(tvars_seq(p1@.terms).union(tvars_seq(p2@.terms)).contains(v));
                        assert(tvars_seq(p1@.terms).contains(v) || tvars_seq(p2@.terms).contains(v));
                    }
                    assert forall|k: Seq<char>, v: Seq<char>|
                        #![trigger s@.dom().contains(k), tvars(s@[k]).contains(v)]
                        s@.dom().contains(k) && tvars(s@[k]).contains(v) implies tvars_seq(
                        lit_prop(l1@).terms,
                    ).contains(v) || tvars_seq(lit_prop(l2@).terms).contains(v) by {
                        assert(crate::unify::evars(e).contains(v));
                    }
                    assert(apply_prop(s@, lit_prop(l1@)) == apply_prop(s@, lit_prop(l2@)));
                    Ok(Some(s))
                },
                Err(err) => {
                    assert(!complementary(l1@, l2@)) by {
                        if complementary(l1@, l2@) {
                            let s = choose|s: SSubst|
                                #[trigger] apply_prop(s, lit_prop(l1@)) == apply_prop(s, lit_prop(l2@));
                            assert(unifies(s, e));
                        }
                    }
                    Err(err)
                },
            }
        },
        _ => Ok(None),
    }
}

/// `c` without its literal at position `i`.
pub open spec fn without(c: Seq<SLit>, i: int) -> Seq<SLit> {
    c.subrange(0, i) + c.subrange(i + 1, c.len() as int)
}

/// The literals of `ls` from position `i` on, but for the one at `skip`.
fn copy_without(ls: &Vec<Literal>, skip: usize) -> (r: Vec<Literal>)
    requires
        skip < ls@.len(),
    ensures
        lits_view(r@) == without(lits_view(ls@), skip as int),
{
    let mut out: Vec<Literal> = Vec::new();
    let mut i: usize = 0;
    while i < ls.len()
        invariant
            skip < ls@.len(),
            i <= ls@.len(),
            lits_view(out@) == if i <= skip {
                lits_view(ls@).subrange(0, i as int)
            } else {
                without(lits_view(ls@).subrange(0, i as int), skip as int)
            },
        decreases ls.len() - i,
    {
        let ghost before = lits_view(out@);
        if i != skip {
            out.push(ls[i].copy());
        }
        proof {
            let v = lits_view(ls@);
            if i < skip {
                assert(lits_view(out@) =~= v.subrange(0, i + 1));
            } else if i == skip {
                assert(lits_view(out@) =~= without(v.subrange(0, i + 1), skip as int));
            } else {
                assert(without(v.subrange(0, i + 1), skip as int) =~= without(
                    v.subrange(0, i as int),
                    skip as int,
                ).push(v[i as int]));
                assert(lits_view(out@) =~= before.push(v[i as int]));
                assert(lits_view(out@) =~= without(v.subrange(0, i + 1), skip as int));
            }
        }
        i = i + 1;
    }
    assert(lits_view(ls@).subrange(0, ls@.len() as int) =~= lits_view(ls@));
    out
}

/// The first pair, in the order of `c1` then `c2`, of a literal of `c1` and a
/// literal of `c2` of opposite signs whose propositions unify.
pub open spec fn first_pair(c1: Seq<SLit>, c2: Seq<SLit>, i: int, j: int) -> bool {
    &&& 0 <= i < c1.len()
    &&& 0 <= j < c2.len()
    &&& complementary(c1[i], c2[j])
    &&& forall|a: int, b: int|
        0 <= a < c1.len() && 0 <= b < c2.len() && (a < i || (a == i && b < j)) ==> !complementary(
            #[trigger] c1[a],
            #[trigger] c2[b],
        )
}

/// The binary resolvent of two clauses on their first complementary pair, with
/// the most general unifier used.
pub fn resolvent(c1: &Clause, c2: &Clause) -> (r: Option<(Clause, Substitution)>)
    ensures
        r is None ==> forall|a: int, b: int|
            0 <= a < c1@.len() && 0 <= b < c2@.len() ==> !complementary(
                #[trigger] c1@[a],
                #[trigger] c2@[b],
            ),
        r matches Some((c, s)) ==> s.wf() && exists|i: int, j: int|
            #[trigger] first_pair(c1@, c2@, i, j) && complementary_unifier(c1@[i], c2@[j], s@)
                && c@ == apply_clause(s@, without(c1@, i) + without(c2@, j)),
{
    let mut i: usize = 0;
    while i < c1.0.len()
        invariant
            i <= c1@.len(),
            forall|a: int, b: int|
                0 <= a < i && 0 <= b < c2@.len() ==> !complementary(#[trigger] c1@[a], #[trigger] c2@[b]),
        decreases c1.0.len() - i,
    {
        let mut j: usize = 0;
        while j < c2.0.len()
            invariant
                i < c1@.len(),
                j <= c2@.len(),
                forall|a: int, b: int|
                    0 <= a < i && 0 <= b < c2@.len() ==> !complementary(#[trigger] c1@[a], #[trigger] c2@[b]),
                forall|b: int| 0 <= b < j ==> !complementary(c1@[i as int], #[trigger] c2@[b]),
            decreases c2.0.len() - j,
        {
            if let Ok(Some(sub)) = unify_literals(&c1.0[i], &c2.0[j]) {
                let mut lits = copy_without(&c1.0, i);
                let mut more = copy_without(&c2.0, j);
                let ghost l1 = lits_view(lits@);
                let ghost l2 = lits_view(more@);
                lits.append(&mut more);
                let mut c = Clause(lits);
                assert(c@ =~= l1 + l2);
                apply_substitution_to_clause(&sub, &mut c);
                proof {
                    assert(complementary(c1@[i as int], c2@[j as int])) by {
                        assert(apply_prop(sub@, lit_prop(c1@[i as int])) == apply_prop(
                            sub@,
                            lit_prop(c2@[j as int]),
                        ));
                    }
                    assert(first_pair(c1@, c2@, i as int, j as int));
                }
                return Some((c, sub));
            }
            j = j + 1;
        }
        i = i + 1;
    }
    None
}

/// The suffix that renames the variables of a clause on its `n`-th use.
pub open spec fn suffix_of(n: nat) -> Seq<char> {
    seq!['_'] + decimal(n)
}

/// The `n`-th use of the clause `c`: its variables renamed by the suffix of
/// `n`, then `s` applied, so that it mentions no variable that `s` binds.
pub open spec fn renamed_use(c: Seq<SLit>, s: SSubst, n: nat) -> Seq<SLit> {
    apply_clause(s, rename_clause(c, suffix_of(n)))
}

/// The SLD resolvent of the goal `g`, under `s`, with the renamed clause `rc`
/// whose head unifies with the selected literal by `sigma`.
pub open spec fn sld_cont(g: Seq<SLit>, s: SSubst, rc: Seq<SLit>, sigma: SSubst) -> SCont {
    (apply_clause(sigma, rc.subrange(1, rc.len() as int) + rest(g)), compose(sigma, s))
}

/// `res` are resolvents of `g` with clauses of `prog` in program order, the
/// clause at position `i` in its use `counter + i`.
pub open spec fn resolvents(
    prog: Seq<Seq<SLit>>,
    g: Seq<SLit>,
    s: SSubst,
    counter: nat,
    res: Seq<SCont>,
) -> bool {
    exists|idx: Seq<int>|
        #![trigger idx.len()]
        idx.len() == res.len() && (forall|a: int, b: int|
            0 <= a < b < idx.len() ==> idx[a] < idx[b]) && forall|k: int|
            0 <= k < idx.len() ==> {
                let i = #[trigger] idx[k];
                let rc = renamed_use(prog[i], s, counter + i as nat);
                &&& 0 <= i < prog.len()
                &&& rc.len() >= 1
                &&& exists|sigma: SSubst|
                    complementary_unifier(g[0], rc[0], sigma) && res[k] == sld_cont(
                        g,
                        s,
                        rc,
                        sigma,
                    )
            } && forall|i: int|
            #![trigger prog[i]]
            0 <= i < prog.len() && (forall|k: int| 0 <= k < idx.len() ==> idx[k] != i) ==> (
            renamed_use(prog[i], s, counter + i as nat).len() == 0 || !complementary(
                g[0],
                renamed_use(prog[i], s, counter + i as nat)[0],
            ))
}

/// Mathematical model of a frame of the search.
pub enum SFrame {
    Goal(SCont),
    Lengths(SCont, SProp, nat),
}

/// An entry of the search stack: a goal with its substitution, or the
/// enumeration of `Length` with both arguments free, from the length `next` on.
#[derive(Debug)]
pub enum Frame {
    Goal(Clause, Substitution),
    Lengths { goal: Clause, sub: Substitution, prop: crate::ast::Proposition, next: u64 },
}

impl View for Frame {
    type V = SFrame;

    open spec fn view(&self) -> SFrame {
        match self {
            Frame::Goal(g, s) => SFrame::Goal((g@, s@)),
            Frame::Lengths { goal, sub, prop, next } => SFrame::Lengths(
                (goal@, sub@),
                prop@,
                *next as nat,
            ),
        }
    }
}

pub open spec fn frame_wf(f: Frame) -> bool {
    match f {
        Frame::Goal(g, s) => s.wf() && clean(g@, s@),
        Frame::Lengths { goal, sub, prop, next } => sub.wf() && goal@.len() >= 1 && prop@.terms.len()
            == 2 && length_unbounded(sub@, prop@) && next <= i64::MAX && clean(goal@, sub@),
    }
}

/// Every continuation goal avoids the variables that its substitution binds,
/// and every such substitution is idempotent.
pub open spec fn conts_clean(v: Seq<(Clause, Substitution)>) -> bool {
    forall|i: int| 0 <= i < v.len() ==> clean((#[trigger] v[i]).0@, v[i].1@)
}

/// Every substitution on the stack is idempotent, and its goal avoids the
/// variables that it binds.
pub open spec fn frames_clean(f: Seq<SFrame>) -> bool {
    forall|i: int|
        0 <= i < f.len() ==> match #[trigger] f[i] {
            SFrame::Goal((g, s)) => clean(g, s),
            SFrame::Lengths((g, s), _, _) => clean(g, s),
        }
}

pub open spec fn frames_view(v: Seq<Frame>) -> Seq<SFrame> {
    Seq::new(v.len(), |i: int| v[i]@)
}

/// The goal frames of a sequence of continuations, the last one first.
pub open spec fn pushed(res: Seq<SCont>) -> Seq<SFrame> {
    Seq::new(res.len(), |i: int| SFrame::Goal(res[res.len() - 1 - i]))
}

/// The bindings of an answer: each variable of `vars` that `s` binds, with its value.
pub open spec fn answer(vars: Seq<Seq<char>>, s: SSubst) -> Seq<(Seq<char>, STerm)>
    decreases vars.len(),
{
    if vars.len() == 0 {
        Seq::empty()
    } else if s.dom().contains(vars.last()) {
        answer(vars.drop_last(), s).push((vars.last(), s[vars.last()]))
    } else {
        answer(vars.drop_last(), s)
    }
}

/// Why the resolver does not start.
#[derive(Debug, Clone, Copy, PartialEq, Eq)]
pub enum StartError {
    EmptyGoal,
    NotAGoal,
    EmptyProgram,
    NotHorn,
}

/// What one step of the search came to.
#[derive(Debug)]
pub enum Step {
    /// An answer: the bindings of the variables of the query.
    Answer(Vec<(String, Term)>),
    /// No frame is left: the search is over.
    Exhausted,
    /// A frame was expanded; the search goes on.
    Working,
    /// The query is aborted.
    Fatal(GicError),
}

pub open spec fn bindings_view(b: Seq<(String, Term)>) -> Seq<(Seq<char>, STerm)> {
    Seq::new(b.len(), |i: int| (b[i].0@, b[i].1@))
}

/// Depth-first SLD resolution with a stack of frames, one step at a time.
#[derive(Debug)]
pub struct Resolver {
    stack: Vec<Frame>,
    counter: u64,
    free_vars: Vec<String>,
}

impl Resolver {
    pub closed spec fn frames(&self) -> Seq<SFrame> {
        frames_view(self.stack@)
    }

    /// The number of clause uses so far, plus one.
    pub closed spec fn uses(&self) -> nat {
        self.counter as nat
    }

    /// The variables of the query, each once.
    pub closed spec fn query_vars(&self) -> Seq<Seq<char>> {
        Seq::new(self.free_vars@.len(), |i: int| self.free_vars@[i]@)
    }

    pub closed spec fn wf(&self) -> bool {
        forall|i: int| 0 <= i < self.stack@.len() ==> frame_wf(#[trigger] self.stack@[i])
    }

    /// Every substitution that the resolver holds, composed from the unifier's
    /// results and the built-ins' bindings, is idempotent, and its goal avoids
    /// the variables that it binds.
    pub proof fn lemma_substitutions_idempotent(&self)
        requires
            self.wf(),
        ensures
            frames_clean(self.frames()),
    {
        assert forall|i: int| 0 <= i < self.frames().len() implies match #[trigger] self.frames()[i] {
            SFrame::Goal((g, s)) => clean(g, s),
            SFrame::Lengths((g, s), _, _) => clean(g, s),
        } by {
            assert(frame_wf(self.stack@[i]));
        }
    }

    /// A resolver for `goal` against `program`, or why there is none: the goal
    /// must be non-empty and hold only negative literals, and the program must
    /// be non-empty and Horn.
    pub fn start(program: &Program, goal: &Clause) -> (r: Result<Resolver, StartError>)
        ensures
            r matches Err(StartError::EmptyGoal) <==> goal@.len() == 0,
            r matches Err(StartError::NotAGoal) <==> goal@.len() > 0 && exists|i: int|
                0 <= i < goal@.len() && is_pos(#[trigger] goal@[i]),
            r matches Err(StartError::EmptyProgram) <==> goal@.len() > 0 && (forall|i: int|
                0 <= i < goal@.len() ==> !is_pos(#[trigger] goal@[i])) && program@.len() == 0,
            r matches Err(StartError::NotHorn) <==> goal@.len() > 0 && (forall|i: int|
                0 <= i < goal@.len() ==> !is_pos(#[trigger] goal@[i])) && program@.len() > 0
                && !horn_program(program@),
            r matches Ok(res) ==> {
                &&& res.wf()
                &&& res.frames() == seq![SFrame::Goal((goal@, Map::<Seq<char>, STerm>::empty()))]
                &&& res.uses() == 1
                &&& res.query_vars().to_set() == crate::clause::clause_vars(goal@)
                &&& res.query_vars().no_duplicates()
            },
    {
        if goal.is_empty() {
            return Err(StartError::EmptyGoal);
        }
        if !goal.is_goal() {
            return Err(StartError::NotAGoal);
        }
        if program.is_empty() {
            return Err(StartError::EmptyProgram);
        }
        if !program.is_horn() {
            return Err(StartError::NotHorn);
        }
        let free_vars = goal.fv();
        let mut stack: Vec<Frame> = Vec::new();
        stack.push(Frame::Goal(goal.copy(), Substitution::new()));
        let r = Resolver { stack, counter: 1, free_vars };
        proof {
            assert(clean(goal@, Map::<Seq<char>, STerm>::empty()));
            assert(frame_wf(r.stack@[0]));
            assert(r.frames() =~= seq![SFrame::Goal((goal@, Map::<Seq<char>, STerm>::empty()))]);
            assert forall|y: Seq<char>| r.query_vars().contains(y) <==> crate::clause::names_set(
                free_vars@,
            ).contains(y) by {
                if r.query_vars().contains(y) {
                    let j = choose|j: int| 0 <= j < r.query_vars().len() && r.query_vars()[j] == y;
                    assert(free_vars@[j]@ == y);
                }
                if crate::clause::names_set(free_vars@).contains(y) {
                    let j = choose|j: int| 0 <= j < free_vars@.len() && #[trigger] free_vars@[j]@ == y;
                    assert(r.query_vars()[j] == y);
                }
            }
            assert(r.query_vars().to_set() =~= crate::clause::clause_vars(goal@));
        }
        Ok(r)
    }

    /// The bindings of the query variables under `s`.
    fn answer_of(&self, s: &Substitution) -> (r: Vec<(String, Term)>)
        requires
            s.wf(),
        ensures
            bindings_view(r@) == answer(self.query_vars(), s@),
    {
        let mut out: Vec<(String, Term)> = Vec::new();
        let mut i: usize = 0;
        while i < self.free_vars.len()
            invariant
                s.wf(),
                i <= self.free_vars@.len(),
                bindings_view(out@) == answer(self.query_vars().subrange(0, i as int), s@),
            decreases self.free_vars.len() - i,
        {
            assert(self.query_vars().subrange(0, i + 1).drop_last() =~= self.query_vars().subrange(
                0,
                i as int,
            ));
            match s.get(&self.free_vars[i]) {
                Some(t) => {
                    out.push((copy_string(&self.free_vars[i]), t.copy()));
                },
                None => {},
            }
            assert(bindings_view(out@) =~= answer(self.query_vars().subrange(0, i + 1), s@));
            i = i + 1;
        }
        assert(self.query_vars().subrange(0, self.query_vars().len() as int) =~= self.query_vars());
        out
    }

    /// Pushes the goal frames of `conts`, the last one first, so that the
    /// first one is tried first.
    fn push_all(&mut self, conts: Vec<(Clause, Substitution)>)
        requires
            old(self).wf(),
            conts_wf(conts@),
            conts_clean(conts@),
        ensures
            final(self).wf(),
            final(self).frames() == old(self).frames() + pushed(conts_view(conts@)),
            final(self).uses() == old(self).uses(),
            final(self).query_vars() == old(self).query_vars(),
    {
        let mut conts = conts;
        let ghost all = conts_view(conts@);
        let ghost base = self.frames();
        while conts.len() > 0
            invariant
                self.wf(),
                conts_wf(conts@),
                conts_clean(conts@),
                conts_view(conts@) == all.subrange(0, conts@.len() as int),
                conts@.len() <= all.len(),
                self.frames() == base + pushed(all).subrange(0, all.len() - conts@.len()),
                self.uses() == old(self).uses(),
                self.query_vars() == old(self).query_vars(),
            decreases conts.len(),
        {
            let ghost n = conts@.len();
            let ghost before = conts@;
            let c = conts.pop().unwrap();
            proof {
                assert(c == before[n - 1]);
                assert(conts_view(before)[n - 1] == all[n - 1]);
                assert(conts_view(conts@) =~= all.subrange(0, conts@.len() as int));
                assert(all[n - 1] == (c.0@, c.1@));
                assert(conts_wf(conts@)) by {
                    assert forall|i: int| 0 <= i < conts@.len() implies (#[trigger] conts@[i]).1.wf() by {
                        assert(conts@[i] == before[i]);
                    }
                }
                assert(conts_clean(conts@)) by {
                    assert forall|i: int| 0 <= i < conts@.len() implies clean((#[trigger] conts@[i]).0@, conts@[i].1@) by {
                        assert(conts@[i] == before[i]);
                    }
                }
                assert(c.1.wf()) by {
                    assert(before[n - 1].1.wf());
                }
                assert(clean(c.0@, c.1@)) by {
                    assert(clean(before[n - 1].0@, before[n - 1].1@));
                }
            }
            let ghost fb = self.frames();
            self.stack.push(Frame::Goal(c.0, c.1));
            proof {
                assert(self.frames() =~= fb.push(SFrame::Goal(all[n - 1])));
                assert(pushed(all).subrange(0, all.len() - conts@.len()) =~= pushed(all).subrange(
                    0,
                    all.len() - n,
                ).push(SFrame::Goal(all[n - 1])));
            }
            assert(self.frames() =~= base + pushed(all).subrange(0, all.len() - conts@.len()));
        }
        assert(pushed(all).subrange(0, all.len() as int) =~= pushed(all));
    }

    /// The resolvents of the goal `g` under `s` with each clause of `program`,
    /// in program order; each clause is renamed by a new suffix.
    fn resolve(&mut self, program: &Program, g: &Clause, s: &Substitution) -> (r: Vec<(Clause, Substitution)>)
        requires
            old(self).wf(),
            s.wf(),
            clean(g@, s@),
            g@.len() >= 1,
            old(self).uses() + program@.len() <= u64::MAX,
        ensures
            final(self).wf(),
            final(self).frames() == old(self).frames(),
            final(self).query_vars() == old(self).query_vars(),
            final(self).uses() == old(self).uses() + program@.len(),
            conts_wf(r@),
            conts_clean(r@),
            resolvents(program@, g@, s@, old(self).uses(), conts_view(r@)),
    {
        let ghost start = self.counter as nat;
        let mut out: Vec<(Clause, Substitution)> = Vec::new();
        let ghost mut idx: Seq<int> = Seq::empty();
        let mut i: usize = 0;
        while i < program.0.len()
            invariant
                self.wf(),
                s.wf(),
                g@.len() >= 1,
                i <= program@.len(),
                self.frames() == old(self).frames(),
                self.query_vars() == old(self).query_vars(),
                self.counter == start + i,
                start + program@.len() <= u64::MAX,
                conts_wf(out@),
                conts_clean(out@),
                clean(g@, s@),
                idx.len() == out@.len(),
                forall|a: int, b: int| 0 <= a < b < idx.len() ==> idx[a] < idx[b],
                forall|k: int| 0 <= k < idx.len() ==> 0 <= #[trigger] idx[k] < i,
                forall|j: int|
                    #![trigger program@[j]]
                    0 <= j < i && (forall|k: int| 0 <= k < idx.len() ==> idx[k] != j) ==> (
                    renamed_use(program@[j], s@, start + j as nat).len() == 0
                        || !complementary(
                        g@[0],
                        renamed_use(program@[j], s@, start + j as nat)[0],
                    )),
                forall|k: int|
                    0 <= k < idx.len() ==> {
                        let j = #[trigger] idx[k];
                        let rc = renamed_use(program@[j], s@, start + j as nat);
                        &&& rc.len() >= 1
                        &&& exists|sigma: SSubst|
                            complementary_unifier(g@[0], rc[0], sigma) && conts_view(out@)[k]
                                == sld_cont(g@, s@, rc, sigma)
                    },
            decreases program.0.len() - i,
        {
            let d = decimal_string(self.counter);
            let suffix = concat("_", d.as_str());
            proof {
                reveal_strlit("_");
            }
            self.counter = self.counter + 1;
            let mut rc = program.0[i].suffix_vars(suffix.as_str());
            apply_substitution_to_clause(s, &mut rc);
            let ghost old_idx = idx;
            proof {
                assert(suffix@ == suffix_of(start + i as nat));
            }
            if rc.0.len() >= 1 {
                match unify_literals(&g.0[0], &rc.0[0]) {
                    Ok(Some(sigma)) => {
                        let mut lits = crate::clause::copy_literals_from(&rc.0, 1);
                        let mut tail = crate::clause::copy_literals_from(&g.0, 1);
                        let ghost lv = lits_view(lits@);
                        let ghost tv = lits_view(tail@);
                        lits.append(&mut tail);
                        let mut ng = Clause(lits);
                        proof {
                            assert(ng@ =~= lv + tv);
                            assert(lv =~= rc@.subrange(1, rc@.len() as int));
                            assert(tv =~= rest(g@));
                        }
                        apply_substitution_to_clause(&sigma, &mut ng);
                        let mut ns = s.copy();
                        apply_substitution_to_sub(&sigma, &mut ns);
                        let ghost prev = out@;
                        assert(clean(ng@, ns@)) by {
                            lemma_applied_clause_avoids(s@, rename_clause(program@[i as int], suffix_of(start + i as nat)));
                            lemma_resolvent_clean(g@, s@, rc@, sigma@);
                        }
                        proof {
                            assert(suffix@ == suffix_of(start + i as nat));
                            assert(rc@.subrange(1, rc@.len() as int) + rest(g@) =~= lits_view(
                                rc.0@.subrange(1, rc.0@.len() as int),
                            ) + lits_view(g.0@.subrange(1, g.0@.len() as int)));
                        }
                        out.push((ng, ns));
                        proof {
                            assert forall|k: int| 0 <= k < out@.len() implies clean((#[trigger] out@[k]).0@, out@[k].1@) by {
                                if k < prev.len() {
                                    assert(out@[k] == prev[k]);
                                }
                            }
                            idx = idx.push(i as int);
                            assert forall|k: int| 0 <= k < idx.len() implies {
                                let j = #[trigger] idx[k];
                                let rcj = renamed_use(program@[j], s@, start + j as nat);
                                &&& rcj.len() >= 1
                                &&& exists|sigma: SSubst|
                                    complementary_unifier(g@[0], rcj[0], sigma) && conts_view(
                                        out@,
                                    )[k] == sld_cont(g@, s@, rcj, sigma)
                            } by {
                                if k < prev.len() {
                                    assert(out@[k] == prev[k]);
                                    assert(conts_view(out@)[k] == conts_view(prev)[k]);
                                } else {
                                    assert(idx[k] == i);
                                    assert(rc@ == renamed_use(program@[i as int], s@, start + i as nat));
                                    assert(conts_view(out@)[k] == sld_cont(g@, s@, rc@, sigma@));
                                    assert(complementary_unifier(g@[0], rc@[0], sigma@));
                                }
                            }
                        }
                    },
                    _ => {},
                }
            }
            proof {
                assert forall|j: int|
                    #![trigger program@[j]]
                    0 <= j < i + 1 && (forall|k: int| 0 <= k < idx.len() ==> idx[k] != j) implies (
                    renamed_use(program@[j], s@, start + j as nat).len() == 0
                        || !complementary(
                        g@[0],
                        renamed_use(program@[j], s@, start + j as nat)[0],
                    )) by {
                    if j < i {
                        assert forall|k: int| 0 <= k < old_idx.len() implies old_idx[k] != j by {
                            assert(idx[k] == old_idx[k]);
                        }
                    } else if idx.len() > old_idx.len() {
                        assert(idx[idx.len() - 1] == i);
                    }
                }
            }
            i = i + 1;
        }
        proof {
            assert(idx.len() == out@.len());
        }
        out
    }

    /// The suffix of the current use: `_` and the decimal digits of the counter.
    fn use_suffix(&self) -> (r: String)
        ensures
            r@ == suffix_of(self.uses()),
    {
        let d = decimal_string(self.counter);
        proof {
            reveal_strlit("_");
        }
        concat("_", d.as_str())
    }

    /// One step of the search: the top frame is taken off the stack and expanded.
    /// An empty goal is an answer; a built-in literal is handled by the built-in
    /// table; any other selected literal is resolved against each clause of the
    /// program, in program order.
    #[verifier::rlimit(40)]
    pub fn step(&mut self, program: &Program) -> (r: Step)
        requires
            old(self).wf(),
        ensures
            final(self).wf(),
            final(self).query_vars() == old(self).query_vars(),
            final(self).uses() == old(self).uses() || final(self).uses() == old(self).uses() + 1
                || final(self).uses() == old(self).uses() + program@.len(),
            old(self).frames().len() == 0 <==> r is Exhausted,
            old(self).frames().len() == 0 ==> final(self).uses() == old(self).uses(),
            old(self).frames().len() > 0 ==> ({
                let top = old(self).frames().last();
                let below = old(self).frames().drop_last();
                match top {
                    SFrame::Lengths(c, p, n) => if old(self).uses() == u64::MAX {
                        r is Fatal
                    } else {
                        r is Working && final(self).uses() == old(self).uses() + 1
                            && final(self).frames() == (if n
                        < i64::MAX {
                        below.push(SFrame::Lengths(c, p, n + 1))
                    } else {
                        below
                    }) + match length_nth(c.0, c.1, p, n, suffix_of(old(self).uses())) {
                        Some(next) => seq![SFrame::Goal(next)],
                        None => Seq::empty(),
                    }
                    },
                    SFrame::Goal((g, s)) => if g.len() == 0 {
                        r matches Step::Answer(b) && bindings_view(b@) == answer(
                            old(self).query_vars(),
                            s,
                        ) && final(self).frames() == below && final(self).uses() == old(self).uses()
                    } else if old(self).uses() == u64::MAX {
                        r is Fatal
                    } else if g[0] is Neg && builtin_of(g[0]->Neg_0) is Some {
                        let p = g[0]->Neg_0;
                        let k = builtin_of(p)->Some_0;
                        let suffix = suffix_of(old(self).uses());
                        final(self).uses() == old(self).uses() + 1 && if k is Length && length_unbounded(s, p) {
                            r is Working && final(self).frames() == below.push(
                                SFrame::Lengths((g, s), p, 0),
                            )
                        } else if k matches Builtin::Arith(op) && divides_by_zero(s, p, op) {
                            r is Fatal
                        } else {
                            r is Working && exists|res: Seq<SCont>|
                                #![trigger pushed(res)]
                                final(self).frames() == below + pushed(res) && ((k !is Elem
                                    && k !is Length) ==> res == builtin_conts(g, s, p, k, suffix)) && (k is Length
                                    ==> (res == builtin_conts(g, s, p, k, suffix) || (list_len(
                                    crate::builtins::arg(s, p, 0),
                                ) matches Some(m) && m >= usize::MAX))) && (k is Elem ==> if (crate::builtins::arg(
                                    s,
                                    p,
                                    0,
                                ) matches STerm::Fun(f, args) && f == "cons"@ && args.len() == 2) {
                                    crate::builtins::elem_conts(g, s, p, res)
                                } else {
                                    res.len() == 0
                                })
                        }
                    } else {
                        (r is Fatal && old(self).uses() + program@.len() > u64::MAX && final(self).uses()
                            == old(self).uses()) || (r is Working && final(self).uses() == old(self).uses()
                            + program@.len() && exists|res: Seq<SCont>|
                            final(self).frames() == below + pushed(res) && resolvents(
                                program@,
                                g,
                                s,
                                old(self).uses(),
                                res,
                            ))
                    },
                }
            }),
    {
        let frame = match self.stack.pop() {
            Some(f) => f,
            None => {
                return Step::Exhausted;
            },
        };
        proof {
            assert(self.frames() =~= old(self).frames().drop_last());
            assert(frame_wf(old(self).stack@.last()));
        }
        match frame {
            Frame::Lengths { goal, sub, prop, next } => {
                if self.counter == u64::MAX {
                    return Step::Fatal(GicError::SemanticError(String::from_str("too many clause uses")));
                }
                let suffix = self.use_suffix();
                let c = length_nth_pred(&goal, &prop, &sub, next, suffix.as_str());
                proof {
                    if c is Some {
                        crate::laws::lemma_length_nth_clean(goal@, sub@, prop@, next as nat, suffix@);
                    }
                }
                self.counter = self.counter + 1;
                if next < 0x7fff_ffff_ffff_ffffu64 {
                    self.stack.push(Frame::Lengths { goal, sub, prop, next: next + 1 });
                }
                let ghost mid = self.frames();
                match c {
                    Some(c) => {
                        self.stack.push(Frame::Goal(c.0, c.1));
                        assert(self.frames() =~= mid + seq![SFrame::Goal((c.0@, c.1@))]);
                    },
                    None => {
                        assert(self.frames() =~= mid + Seq::<SFrame>::empty());
                    },
                }
                Step::Working
            },
            Frame::Goal(g, s) => {
                if g.0.len() == 0 {
                    let b = self.answer_of(&s);
                    return Step::Answer(b);
                }
                if self.counter == u64::MAX {
                    return Step::Fatal(GicError::SemanticError(String::from_str("too many clause uses")));
                }
                let suffix = self.use_suffix();
                let d = built_in_preds(&g, &g.0[0], &s, suffix.as_str());
                let builtin = match d {
                    Dispatch::NotBuiltin => false,
                    _ => true,
                };
                if builtin {
                    self.counter = self.counter + 1;
                }
                match d {
                    Dispatch::Branches(v) => {
                        let ghost vv = conts_view(v@);
                        self.push_all(v);
                        assert(self.frames() == old(self).frames().drop_last() + pushed(vv));
                        Step::Working
                    },
                    Dispatch::Unbounded => {
                        let prop = match &g.0[0] {
                            Literal::Not(p) => p.copy(),
                            Literal::Proposition(p) => p.copy(),
                        };
                        self.stack.push(Frame::Lengths { goal: g, sub: s, prop, next: 0 });
                        Step::Working
                    },
                    Dispatch::Fatal(e) => Step::Fatal(e),
                    Dispatch::NotBuiltin => {
                        if self.counter > u64::MAX - (program.0.len() as u64) {
                            return Step::Fatal(
                                GicError::SemanticError(String::from_str("too many clause uses")),
                            );
                        }
                        let res = self.resolve(program, &g, &s);
                        let ghost rv = conts_view(res@);
                        self.push_all(res);
                        assert(self.frames() == old(self).frames().drop_last() + pushed(rv));
                        assert(resolvents(program@, g@, s@, old(self).uses(), rv));
                        Step::Working
                    },
                }
            },
        }
    }
}

} // verus!

use vstd::prelude::*;

use crate::ast::{copy_string, str_eq, terms_view, tvars, Proposition, SProp, STerm, Term};
use crate::clause::{Clause, Literal, SLit};
use crate::errors::GicError;
use crate::substitution::{
    apply_clause, apply_substitution_to_clause, apply_substitution_to_sub, apply_term,
    apply_to_term, compose, idempotent, SSubst, Substitution,
};
use crate::text::{concat, decimal, decimal_string};
use crate::unify::{mgu, occurs_check, unifies, SUnif, Unifiable};

verus! {

/// A way on for the search: the goal that is left and the substitution so far.
pub type Continuation = (Clause, Substitution);

/// Mathematical model of a continuation.
pub type SCont = (Seq<SLit>, SSubst);

pub open spec fn conts_view(v: Seq<Continuation>) -> Seq<SCont> {
    Seq::new(v.len(), |i: int| (v[i].0@, v[i].1@))
}

pub open spec fn conts_wf(v: Seq<Continuation>) -> bool {
    forall|i: int| 0 <= i < v.len() ==> (#[trigger] v[i]).1.wf()
}

/// The goal without its selected literal.
pub open spec fn rest(goal: Seq<SLit>) -> Seq<SLit> {
    goal.subrange(1, goal.len() as int)
}

/// The `i`-th argument of `p` under `sub`.
pub open spec fn arg(sub: SSubst, p: SProp, i: int) -> STerm {
    apply_term(sub, p.terms[i])
}

/// The selected literal is solved and nothing is bound.
pub open spec fn stay(goal: Seq<SLit>, sub: SSubst) -> Seq<SCont> {
    seq![(rest(goal), sub)]
}

/// The selected literal is solved by binding `x` to `t`.
pub open spec fn bind_cont(goal: Seq<SLit>, sub: SSubst, x: Seq<char>, t: STerm) -> SCont {
    (apply_clause(map![x => t], rest(goal)), compose(map![x => t], sub))
}

pub open spec fn num_of(t: STerm) -> Option<int> {
    match t {
        STerm::Num(n) => Some(n),
        _ => None,
    }
}

/// The integer operations of the arithmetic built-ins.
#[derive(Debug, Clone, Copy, PartialEq, Eq)]
pub enum ArithOp {
    Add,
    Sub,
    Mul,
    Div,
    Mod,
}

/// The integer comparisons of the comparison built-ins.
#[derive(Debug, Clone, Copy, PartialEq, Eq)]
pub enum CmpOp {
    Lt,
    LtEq,
    Gt,
    GtEq,
    EqInt,
    DiffInt,
}

/// The result of an operation on 64-bit integers; `None` when it overflows or
/// divides by zero. Division truncates toward zero.
pub open spec fn arith(op: ArithOp, a: i64, b: i64) -> Option<i64> {
    match op {
        ArithOp::Add => a.checked_add(b),
        ArithOp::Sub => a.checked_sub(b),
        ArithOp::Mul => a.checked_mul(b),
        ArithOp::Div => a.checked_div(b),
        ArithOp::Mod => a.checked_rem(b),
    }
}

pub open spec fn compare(op: CmpOp, a: int, b: int) -> bool {
    match op {
        CmpOp::Lt => a < b,
        CmpOp::LtEq => a <= b,
        CmpOp::Gt => a > b,
        CmpOp::GtEq => a >= b,
        CmpOp::EqInt => a == b,
        CmpOp::DiffInt => a != b,
    }
}

pub open spec fn eq_spec(goal: Seq<SLit>, sub: SSubst, p: SProp) -> Option<Seq<SCont>> {
    if arg(sub, p, 0) == arg(sub, p, 1) {
        Some(stay(goal, sub))
    } else {
        None
    }
}

pub open spec fn diff_spec(goal: Seq<SLit>, sub: SSubst, p: SProp) -> Option<Seq<SCont>> {
    if arg(sub, p, 0) != arg(sub, p, 1) {
        Some(stay(goal, sub))
    } else {
        None
    }
}

pub open spec fn var_spec(goal: Seq<SLit>, sub: SSubst, p: SProp) -> Option<Seq<SCont>> {
    if arg(sub, p, 0) is Var {
        Some(stay(goal, sub))
    } else {
        None
    }
}

/// The arithmetic built-ins divide by zero.
pub open spec fn divides_by_zero(sub: SSubst, p: SProp, op: ArithOp) -> bool {
    (op is Div || op is Mod) && num_of(arg(sub, p, 0)) is Some && num_of(arg(sub, p, 1)) == Some(
        0int,
    )
}

pub open spec fn arith_spec(goal: Seq<SLit>, sub: SSubst, p: SProp, op: ArithOp) -> Option<
    Seq<SCont>,
> {
    match (arg(sub, p, 0), arg(sub, p, 1)) {
        (STerm::Num(a), STerm::Num(b)) => if i64::MIN <= a <= i64::MAX && i64::MIN <= b
            <= i64::MAX {
            match arith(op, a as i64, b as i64) {
                Some(v) => match arg(sub, p, 2) {
                    STerm::Num(n) => if n == v {
                        Some(stay(goal, sub))
                    } else {
                        None
                    },
                    STerm::Var(x) => Some(seq![bind_cont(goal, sub, x, STerm::Num(v as int))]),
                    _ => None,
                },
                None => None,
            }
        } else {
            None
        },
        _ => None,
    }
}

pub open spec fn compare_spec(goal: Seq<SLit>, sub: SSubst, p: SProp, op: CmpOp) -> Option<
    Seq<SCont>,
> {
    match (arg(sub, p, 0), arg(sub, p, 1)) {
        (STerm::Num(a), STerm::Num(b)) => if compare(op, a, b) {
            Some(stay(goal, sub))
        } else {
            None
        },
        _ => None,
    }
}

pub open spec fn between_spec(goal: Seq<SLit>, sub: SSubst, p: SProp) -> Option<Seq<SCont>> {
    match (arg(sub, p, 0), arg(sub, p, 1)) {
        (STerm::Num(lo), STerm::Num(hi)) => match arg(sub, p, 2) {
            STerm::Num(n) => if lo <= n <= hi {
                Some(stay(goal, sub))
            } else {
                None
            },
            STerm::Var(x) => if lo <= hi {
                Some(
                    Seq::new(
                        (hi - lo + 1) as nat,
                        |i: int| bind_cont(goal, sub, x, STerm::Num(lo + i)),
                    ),
                )
            } else {
                None
            },
            _ => None,
        },
        _ => None,
    }
}

/// The number of elements of a proper list: `cons` cells ending in `empty_list()`.
pub open spec fn list_len(t: STerm) -> Option<nat>
    decreases t,
{
    match t {
        STerm::Fun(f, args) => if f == "empty_list"@ && args.len() == 0 {
            Some(0)
        } else if f == "cons"@ && args.len() == 2 {
            match list_len(args[1]) {
                Some(n) => Some(n + 1),
                None => None,
            }
        } else {
            None
        },
        _ => None,
    }
}

pub open spec fn is_list_spec(goal: Seq<SLit>, sub: SSubst, p: SProp) -> Option<Seq<SCont>> {
    if list_len(arg(sub, p, 0)) is Some {
        Some(stay(goal, sub))
    } else {
        None
    }
}

pub open spec fn empty_list() -> STerm {
    STerm::Fun("empty_list"@, Seq::empty())
}

/// The name of the `i`-th element of a list built by `Length`.
pub open spec fn elem_name(i: nat) -> Seq<char> {
    "E"@ + decimal(i)
}

/// The list of the variables `E{k}` .. `E{n-1}`, each name followed by `suffix`.
pub open spec fn var_list(k: nat, n: nat, suffix: Seq<char>) -> STerm
    decreases n - k,
{
    if k >= n {
        empty_list()
    } else {
        STerm::Fun("cons"@, seq![STerm::Var(elem_name(k) + suffix), var_list(k + 1, n, suffix)])
    }
}

pub open spec fn length_spec(goal: Seq<SLit>, sub: SSubst, p: SProp, suffix: Seq<char>) -> Option<Seq<SCont>> {
    match (arg(sub, p, 0), arg(sub, p, 1)) {
        (STerm::Fun(f, a), STerm::Num(n)) => if list_len(STerm::Fun(f, a)) == Some(n as nat) && n
            >= 0 {
            Some(stay(goal, sub))
        } else {
            None
        },
        (STerm::Fun(f, a), STerm::Var(y)) => match list_len(STerm::Fun(f, a)) {
            Some(k) => if k <= i64::MAX {
                Some(seq![bind_cont(goal, sub, y, STerm::Num(k as int))])
            } else {
                None
            },
            None => None,
        },
        (STerm::Var(x), STerm::Num(n)) => if n >= 0 && !tvars(
            apply_term(sub, var_list(0, n as nat, suffix)),
        ).contains(x) {
            Some(seq![bind_cont(goal, sub, x, apply_term(sub, var_list(0, n as nat, suffix)))])
        } else {
            None
        },
        _ => None,
    }
}

/// `Length` with both arguments free: it enumerates every length.
pub open spec fn length_unbounded(sub: SSubst, p: SProp) -> bool {
    arg(sub, p, 0) is Var && arg(sub, p, 1) is Var && arg(sub, p, 0) != arg(sub, p, 1)
}

/// The `n`-th answer of `Length` with both arguments free: none when one of
/// the two variables occurs in the list.
pub open spec fn length_nth(goal: Seq<SLit>, sub: SSubst, p: SProp, n: nat, suffix: Seq<char>) -> Option<SCont> {
    let x = arg(sub, p, 0)->Var_0;
    let y = arg(sub, p, 1)->Var_0;
    let l = apply_term(sub, var_list(0, n, suffix));
    let m = map![x => l, y => STerm::Num(n as int)];
    if tvars(l).contains(x) || tvars(l).contains(y) {
        None
    } else {
        Some((apply_clause(m, rest(goal)), compose(m, sub)))
    }
}

/// Whether `name` holds the characters of `lit`.
pub fn name_is(name: &String, lit: &str) -> (r: bool)
    ensures
        r == (name@ == lit@),
{
    let l = String::from_str(lit);
    str_eq(name, &l)
}

/// The goal without its selected literal.
fn rest_of(goal: &Clause) -> (r: Clause)
    requires
        goal@.len() >= 1,
    ensures
        r@ == rest(goal@),
{
    let mut out: Vec<Literal> = Vec::new();
    let mut i: usize = 1;
    while i < goal.0.len()
        invariant
            1 <= i <= goal@.len(),
            out@.len() == i - 1,
            forall|j: int| 0 <= j < i - 1 ==> (#[trigger] out@[j])@ == goal@[j + 1],
        decreases goal.0.len() - i,
    {
        out.push(goal.0[i].copy());
        i = i + 1;
    }
    let r = Clause(out);
    assert(r@ =~= rest(goal@));
    r
}

/// The selected literal solved, nothing bound.
fn stay_cont(goal: &Clause, sub: &Substitution) -> (r: Vec<Continuation>)
    requires
        goal@.len() >= 1,
        sub.wf(),
    ensures
        conts_view(r@) == stay(goal@, sub@),
        conts_wf(r@),
{
    let mut v: Vec<Continuation> = Vec::new();
    v.push((rest_of(goal), sub.copy()));
    assert(conts_view(v@) =~= stay(goal@, sub@));
    v
}

/// The selected literal solved by binding `x` to `t`.
fn bind_continuation(goal: &Clause, sub: &Substitution, x: &String, t: Term) -> (r: Continuation)
    requires
        goal@.len() >= 1,
        sub.wf(),
    ensures
        (r.0@, r.1@) == bind_cont(goal@, sub@, x@, t@),
        r.1.wf(),
{
    let one = Substitution::singleton(copy_string(x), t);
    let mut g = rest_of(goal);
    apply_substitution_to_clause(&one, &mut g);
    let mut s = sub.copy();
    apply_substitution_to_sub(&one, &mut s);
    (g, s)
}

fn arg_of(sub: &Substitution, p: &Proposition, i: usize) -> (r: Term)
    requires
        sub.wf(),
        i < p@.terms.len(),
    ensures
        r@ == arg(sub@, p@, i as int),
{
    apply_to_term(sub, &p.terms[i])
}

/// `Eq(A, B)`: the two arguments are equal under `sub`.
pub fn eq_pred(sub: &Substitution, p: &Proposition, goal: &Clause) -> (r: Option<Vec<Continuation>>)
    requires
        sub.wf(),
        p@.terms.len() == 2,
        goal@.len() >= 1,
    ensures
        match r {
            Some(v) => eq_spec(goal@, sub@, p@) == Some(conts_view(v@)) && conts_wf(v@),
            None => eq_spec(goal@, sub@, p@) is None,
        },
{
    let a = arg_of(sub, p, 0);
    let b = arg_of(sub, p, 1);
    if a.equals(&b) {
        Some(stay_cont(goal, sub))
    } else {
        None
    }
}

/// `Diff(A, B)`: the two arguments differ under `sub`.
pub fn diff_pred(sub: &Substitution, p: &Proposition, goal: &Clause) -> (r: Option<Vec<Continuation>>)
    requires
        sub.wf(),
        p@.terms.len() == 2,
        goal@.len() >= 1,
    ensures
        match r {
            Some(v) => diff_spec(goal@, sub@, p@) == Some(conts_view(v@)) && conts_wf(v@),
            None => diff_spec(goal@, sub@, p@) is None,
        },
{
    let a = arg_of(sub, p, 0);
    let b = arg_of(sub, p, 1);
    if !a.equals(&b) {
        Some(stay_cont(goal, sub))
    } else {
        None
    }
}

/// `Var(A)`: the argument is an unbound variable under `sub`.
pub fn var_pred(sub: &Substitution, p: &Proposition, goal: &Clause) -> (r: Option<Vec<Continuation>>)
    requires
        sub.wf(),
        p@.terms.len() == 1,
        goal@.len() >= 1,
    ensures
        match r {
            Some(v) => var_spec(goal@, sub@, p@) == Some(conts_view(v@)) && conts_wf(v@),
            None => var_spec(goal@, sub@, p@) is None,
        },
{
    let a = arg_of(sub, p, 0);
    if a.is_var() {
        Some(stay_cont(goal, sub))
    } else {
        None
    }
}

fn apply_op(op: &ArithOp, a: i64, b: i64) -> (r: Option<i64>)
    ensures
        r == arith(*op, a, b),
{
    match op {
        ArithOp::Add => a.checked_add(b),
        ArithOp::Sub => a.checked_sub(b),
        ArithOp::Mul => a.checked_mul(b),
        ArithOp::Div => a.checked_div(b),
        ArithOp::Mod => a.checked_rem(b),
    }
}

/// `Add`, `Sub`, `Mul`, `Div`, `Mod` of `(A, B, C)`: `C` is, or gets bound to,
/// `A op B`; `A` and `B` must be integers. Dividing by zero is an error.
pub fn arithmetic_op_pred(goal: &Clause, prop: &Proposition, sub: &Substitution, op: ArithOp) -> (r:
    Result<Option<Vec<Continuation>>, GicError>)
    requires
        sub.wf(),
        prop@.terms.len() == 3,
        goal@.len() >= 1,
    ensures
        match r {
            Ok(Some(v)) => !divides_by_zero(sub@, prop@, op) && arith_spec(goal@, sub@, prop@, op)
                == Some(conts_view(v@)) && conts_wf(v@),
            Ok(None) => !divides_by_zero(sub@, prop@, op) && arith_spec(goal@, sub@, prop@, op) is None,
            Err(_) => divides_by_zero(sub@, prop@, op),
        },
{
    let t1 = arg_of(sub, prop, 0);
    let t2 = arg_of(sub, prop, 1);
    let a = match t1 {
        Term::Number(n) => n,
        _ => {
            return Ok(None);
        },
    };
    let b = match t2 {
        Term::Number(n) => n,
        _ => {
            return Ok(None);
        },
    };
    let is_division = match op {
        ArithOp::Div => true,
        ArithOp::Mod => true,
        _ => false,
    };
    if is_division && b == 0 {
        return Err(GicError::ArithmeticError(String::from_str("division by zero")));
    }
    let result = match apply_op(&op, a, b) {
        Some(v) => v,
        None => {
            return Ok(None);
        },
    };
    let t3 = arg_of(sub, prop, 2);
    match t3 {
        Term::Number(n) => {
            if n == result {
                Ok(Some(stay_cont(goal, sub)))
            } else {
                Ok(None)
            }
        },
        Term::Identifier(x) => {
            let c = bind_continuation(goal, sub, &x, Term::Number(result));
            let mut v: Vec<Continuation> = Vec::new();
            v.push(c);
            assert(conts_view(v@) =~= seq![bind_cont(goal@, sub@, x@, STerm::Num(result as int))]);
            Ok(Some(v))
        },
        _ => Ok(None),
    }
}

fn test_op(op: &CmpOp, a: i64, b: i64) -> (r: bool)
    ensures
        r == compare(*op, a as int, b as int),
{
    match op {
        CmpOp::Lt => a < b,
        CmpOp::LtEq => a <= b,
        CmpOp::Gt => a > b,
        CmpOp::GtEq => a >= b,
        CmpOp::EqInt => a == b,
        CmpOp::DiffInt => a != b,
    }
}

/// `Lt`, `Lt_eq`, `Gt`, `Gt_eq`, `Eq_int`, `Diff_int` of `(A, B)`: both are
/// integers and compare as the operation says.
pub fn compare_pred(goal: &Clause, prop: &Proposition, sub: &Substitution, op: CmpOp) -> (r: Option<
    Vec<Continuation>,
>)
    requires
        sub.wf(),
        prop@.terms.len() == 2,
        goal@.len() >= 1,
    ensures
        match r {
            Some(v) => compare_spec(goal@, sub@, prop@, op) == Some(conts_view(v@)) && conts_wf(v@),
            None => compare_spec(goal@, sub@, prop@, op) is None,
        },
{
    let t1 = arg_of(sub, prop, 0);
    let t2 = arg_of(sub, prop, 1);
    let a = match t1 {
        Term::Number(n) => n,
        _ => {
            return None;
        },
    };
    let b = match t2 {
        Term::Number(n) => n,
        _ => {
            return None;
        },
    };
    if test_op(&op, a, b) {
        Some(stay_cont(goal, sub))
    } else {
        None
    }
}

/// `Between(Lo, Hi, X)`: an integer `X` in `[Lo, Hi]`; a free `X` takes each
/// such value, in ascending order.
pub fn between_pred(goal: &Clause, prop: &Proposition, sub: &Substitution) -> (r: Option<
    Vec<Continuation>,
>)
    requires
        sub.wf(),
        prop@.terms.len() == 3,
        goal@.len() >= 1,
    ensures
        match r {
            Some(v) => between_spec(goal@, sub@, prop@) == Some(conts_view(v@)) && conts_wf(v@),
            None => between_spec(goal@, sub@, prop@) is None,
        },
{
    let t1 = arg_of(sub, prop, 0);
    let t2 = arg_of(sub, prop, 1);
    let lo = match t1 {
        Term::Number(n) => n,
        _ => {
            return None;
        },
    };
    let hi = match t2 {
        Term::Number(n) => n,
        _ => {
            return None;
        },
    };
    let t3 = arg_of(sub, prop, 2);
    match t3 {
        Term::Number(n) => {
            if lo <= n && n <= hi {
                Some(stay_cont(goal, sub))
            } else {
                None
            }
        },
        Term::Identifier(x) => {
            if lo > hi {
                return None;
            }
            let ghost want = Seq::new(
                (hi - lo + 1) as nat,
                |i: int| bind_cont(goal@, sub@, x@, STerm::Num(lo + i)),
            );
            let mut branches: Vec<Continuation> = Vec::new();
            let mut i: i64 = lo;
            let mut done = false;
            while !done
                invariant
                    lo <= i <= hi,
                    done ==> i == hi && branches@.len() == hi - lo + 1,
                    !done ==> branches@.len() == i - lo,
                    conts_wf(branches@),
                    forall|j: int|
                        0 <= j < branches@.len() ==> #[trigger] conts_view(branches@)[j] == want[j],
                    goal@.len() >= 1,
                    sub.wf(),
                    want.len() == hi - lo + 1,
                    forall|j: int|
                        0 <= j < want.len() ==> #[trigger] want[j] == bind_cont(
                            goal@,
                            sub@,
                            x@,
                            STerm::Num(lo + j),
                        ),
                decreases hi - i + if done {
                    0int
                } else {
                    1int
                },
            {
                let ghost prev = branches@;
                branches.push(bind_continuation(goal, sub, &x, Term::Number(i)));
                assert forall|j: int| 0 <= j < prev.len() implies #[trigger] conts_view(branches@)[j]
                    == want[j] by {
                    assert(branches@[j] == prev[j]);
                    assert(conts_view(prev)[j] == want[j]);
                }
                assert(conts_view(branches@)[i - lo] == want[i - lo]);
                if i == hi {
                    done = true;
                } else {
                    i = i + 1;
                }
            }
            assert(conts_view(branches@) =~= want);
            Some(branches)
        },
        _ => None,
    }
}

/// The number of elements of `t`, when it is a proper list.
pub fn get_length_of_list(t: &Term) -> (r: Option<usize>)
    ensures
        match r {
            Some(n) => list_len(t@) == Some(n as nat),
            None => list_len(t@) is None || list_len(t@)->Some_0 > usize::MAX,
        },
{
    let mut count: usize = 0;
    let mut cur = t;
    loop
        invariant
            list_len(t@) is Some <==> list_len(cur@) is Some,
            list_len(t@) is Some ==> list_len(t@)->Some_0 == list_len(cur@)->Some_0 + count,
        decreases cur,
    {
        match cur {
            Term::FunctionApplication { name, args } => {
                if name_is(name, "empty_list") && args.len() == 0 {
                    return Some(count);
                }
                if name_is(name, "cons") && args.len() == 2 {
                    if count == usize::MAX {
                        return None;
                    }
                    assert(decreases_to!(*cur => (*cur)->args));
                    assert(decreases_to!(*args => args@));
                    assert(decreases_to!(args@ => args@[1]));
                    count = count + 1;
                    cur = &args[1];
                } else {
                    return None;
                }
            },
            _ => {
                return None;
            },
        }
    }
}

/// `Is_list(A)`: the argument is a proper list under `sub`.
pub fn is_list_pred(goal: &Clause, p: &Proposition, sub: &Substitution) -> (r: Option<
    Vec<Continuation>,
>)
    requires
        sub.wf(),
        p@.terms.len() == 1,
        goal@.len() >= 1,
    ensures
        match r {
            Some(v) => is_list_spec(goal@, sub@, p@) == Some(conts_view(v@)) && conts_wf(v@),
            None => is_list_spec(goal@, sub@, p@) is None,
        },
{
    let t = arg_of(sub, p, 0);
    if is_proper_list(&t) {
        Some(stay_cont(goal, sub))
    } else {
        None
    }
}

/// Whether `t` is a proper list.
pub fn is_proper_list(t: &Term) -> (r: bool)
    ensures
        r == list_len(t@) is Some,
    decreases t,
{
    match t {
        Term::FunctionApplication { name, args } => {
            if name_is(name, "empty_list") && args.len() == 0 {
                true
            } else if name_is(name, "cons") && args.len() == 2 {
                assert(decreases_to!(*t => (*t)->args));
                assert(decreases_to!(*args => args@));
                assert(decreases_to!(args@ => args@[1]));
                is_proper_list(&args[1])
            } else {
                false
            }
        },
        _ => false,
    }
}

/// The list of the variables `E0` .. `E{n-1}`, each name followed by `suffix`.
pub fn generate_list_of_length(n: u64, suffix: &str) -> (r: Term)
    ensures
        r@ == var_list(0, n as nat, suffix@),
{
    let mut list = Term::FunctionApplication { name: String::from_str("empty_list"), args: Vec::new() };
    assert(list@->Fun_1 =~= Seq::<STerm>::empty());
    let mut i: u64 = n;
    while i > 0
        invariant
            i <= n,
            list@ == var_list(i as nat, n as nat, suffix@),
        decreases i,
    {
        i = i - 1;
        let d = decimal_string(i);
        let e = concat("E", d.as_str());
        let name = concat(e.as_str(), suffix);
        let ghost tail = list@;
        let mut args: Vec<Term> = Vec::new();
        args.push(Term::Identifier(name));
        args.push(list);
        assert(terms_view(args@) =~= seq![STerm::Var(elem_name(i as nat) + suffix@), tail]);
        list = Term::FunctionApplication { name: String::from_str("cons"), args };
    }
    list
}

/// `Length(L, N)` with at most one of its arguments free: `L` is a list of `N`
/// elements; a free `N` gets the length, a free `L` a list of `N` new variables.
/// With both arguments free `Length` enumerates every length without end, one
/// answer at a time: that is `length_nth_pred`, which the built-in table
/// announces as `Dispatch::Unbounded` and the resolver drives; here it gives
/// no continuation.
pub fn length_pred(goal: &Clause, prop: &Proposition, sub: &Substitution, suffix: &str) -> (r: Option<
    Vec<Continuation>,
>)
    requires
        sub.wf(),
        prop@.terms.len() == 2,
        goal@.len() >= 1,
    ensures
        length_unbounded(sub@, prop@) ==> r is None,
        match r {
            Some(v) => length_spec(goal@, sub@, prop@, suffix@) == Some(conts_view(v@)) && conts_wf(v@),
            None => length_spec(goal@, sub@, prop@, suffix@) is None || (list_len(arg(sub@, prop@, 0)) matches Some(
                k,
            ) && k >= usize::MAX),
        },
{
    let list_term = arg_of(sub, prop, 0);
    let len_term = arg_of(sub, prop, 1);
    match list_term {
        Term::FunctionApplication { .. } => {
            let true_length = match get_length_of_list(&list_term) {
                Some(k) => k,
                None => {
                    return None;
                },
            };
            match len_term {
                Term::Number(n) => {
                    let k = true_length as u64;
                    if n >= 0 && k <= 0x7fff_ffff_ffff_ffffu64 && k as i64 == n {
                        Some(stay_cont(goal, sub))
                    } else {
                        None
                    }
                },
                Term::Identifier(y) => {
                    let k = true_length as u64;
                    if k > 0x7fff_ffff_ffff_ffffu64 {
                        return None;
                    }
                    let c = bind_continuation(goal, sub, &y, Term::Number(k as i64));
                    let mut v: Vec<Continuation> = Vec::new();
                    v.push(c);
                    assert(conts_view(v@) =~= seq![
                        bind_cont(goal@, sub@, y@, STerm::Num(true_length as int)),
                    ]);
                    Some(v)
                },
                _ => None,
            }
        },
        Term::Identifier(x) => match len_term {
            Term::Number(n) => {
                if n < 0 {
                    return None;
                }
                let list = apply_to_term(sub, &generate_list_of_length(n as u64, suffix));
                if occurs_check(&x, &list) {
                    return None;
                }
                let ghost l = list@;
                let c = bind_continuation(goal, sub, &x, list);
                let mut v: Vec<Continuation> = Vec::new();
                v.push(c);
                assert(conts_view(v@) =~= seq![bind_cont(goal@, sub@, x@, l)]);
                Some(v)
            },
            _ => None,
        },
        _ => None,
    }
}

/// Whether `Length(L, N)` has both arguments free, and so enumerates every length.
pub fn length_is_unbounded(prop: &Proposition, sub: &Substitution) -> (r: bool)
    requires
        sub.wf(),
        prop@.terms.len() == 2,
    ensures
        r == length_unbounded(sub@, prop@),
{
    let a = arg_of(sub, prop, 0);
    let b = arg_of(sub, prop, 1);
    a.is_var() && b.is_var() && !a.equals(&b)
}

/// The `n`-th answer of `Length(L, N)` with both arguments free: `L` a list of
/// `n` new variables and `N = n`; none when `L` or `N` occurs in that list.
pub fn length_nth_pred(goal: &Clause, prop: &Proposition, sub: &Substitution, n: u64, suffix: &str) -> (r: Option<
    Continuation,
>)
    requires
        sub.wf(),
        prop@.terms.len() == 2,
        goal@.len() >= 1,
        length_unbounded(sub@, prop@),
        n <= i64::MAX,
    ensures
        match r {
            Some(c) => length_nth(goal@, sub@, prop@, n as nat, suffix@) == Some((c.0@, c.1@)) && c.1.wf(),
            None => length_nth(goal@, sub@, prop@, n as nat, suffix@) is None,
        },
{
    let a = arg_of(sub, prop, 0);
    let b = arg_of(sub, prop, 1);
    let (x, y) = match (a, b) {
        (Term::Identifier(x), Term::Identifier(y)) => (x, y),
        _ => {
            return None;
        },
    };
    let list = apply_to_term(sub, &generate_list_of_length(n, suffix));
    if occurs_check(&x, &list) || occurs_check(&y, &list) {
        return None;
    }
    let mut two = Substitution::singleton(copy_string(&x), list);
    two.insert(y, Term::Number(n as i64));
    let mut g = rest_of(goal);
    apply_substitution_to_clause(&two, &mut g);
    let mut s = sub.copy();
    apply_substitution_to_sub(&two, &mut s);
    Some((g, s))
}

/// `s` is a most general unifier of `a` and `b`: idempotent, it makes them
/// equal, every unifier of them is left unchanged by composing it after `s`,
/// and it mentions only their variables.
pub open spec fn mgu_of(s: SSubst, a: STerm, b: STerm) -> bool {
    &&& idempotent(s)
    &&& apply_term(s, a) == apply_term(s, b)
    &&& forall|th: SSubst, u: STerm|
        #![trigger apply_term(th, a), apply_term(th, apply_term(s, u))]
        apply_term(th, a) == apply_term(th, b) ==> apply_term(th, apply_term(s, u)) == apply_term(
            th,
            u,
        )
    &&& forall|x: Seq<char>|
        #[trigger] s.dom().contains(x) ==> tvars(a).contains(x) || tvars(b).contains(x)
    &&& forall|k: Seq<char>, x: Seq<char>|
        #![trigger s.dom().contains(k), tvars(s[k]).contains(x)]
        s.dom().contains(k) && tvars(s[k]).contains(x) ==> tvars(a).contains(x) || tvars(
            b,
        ).contains(x)
}

/// The continuations of `Elem(L, X)` on a list `cons(H, T)`: first, when `X`
/// and `H` unify, the goal that is left under their most general unifier;
/// then the goal `Elem(T, X)` in place of the selected literal.
pub open spec fn elem_conts(goal: Seq<SLit>, sub: SSubst, p: SProp, c: Seq<SCont>) -> bool {
    let args = arg(sub, p, 0)->Fun_1;
    let next = SLit::Neg(SProp { name: "Elem"@, terms: seq![args[1], p.terms[1]] });
    &&& 1 <= c.len() <= 2
    &&& (c.len() == 2 <==> exists|th: SSubst|
        #[trigger] apply_term(th, arg(sub, p, 1)) == apply_term(th, args[0]))
    &&& c.last() == (seq![next] + rest(goal), sub)
    &&& c.len() == 2 ==> exists|sg: SSubst|
        #[trigger] mgu_of(sg, arg(sub, p, 1), args[0]) && c[0] == (
            apply_clause(sg, rest(goal)),
            compose(sg, sub),
        )
}

/// `Elem(L, X)` on a list `cons(H, T)`: first `X` unified with `H`, when they
/// unify; then the goal `Elem(T, X)` in place of the selected literal.
pub fn list_elem(goal: &Clause, p: &Proposition, sub: &Substitution) -> (r: Option<Vec<Continuation>>)
    requires
        sub.wf(),
        p@.terms.len() == 2,
        goal@.len() >= 1,
    ensures
        r is Some <==> (arg(sub@, p@, 0) matches STerm::Fun(f, args) && f == "cons"@ && args.len()
            == 2),
        r matches Some(v) ==> conts_wf(v@) && elem_conts(goal@, sub@, p@, conts_view(v@)),
{
    let l = arg_of(sub, p, 0);
    let (name, args) = match &l {
        Term::FunctionApplication { name, args } => (name, args),
        _ => {
            return None;
        },
    };
    if !(name_is(name, "cons") && args.len() == 2) {
        return None;
    }
    let elem = arg_of(sub, p, 1);
    let mut v: Vec<Continuation> = Vec::new();
    let mut eqs: Vec<(Unifiable, Unifiable)> = Vec::new();
    eqs.push((Unifiable::Term(elem.copy()), Unifiable::Term(args[0].copy())));
    let ghost e = crate::unify::eqs_view(eqs@);
    let ghost mut sig: SSubst = Map::empty();
    let ghost unifiable = exists|th: SSubst| #[trigger] apply_term(th, elem@) == apply_term(th, args@[0]@);
    match mgu(eqs) {
        Ok(s) => {
            let mut g = rest_of(goal);
            apply_substitution_to_clause(&s, &mut g);
            let mut ns = sub.copy();
            apply_substitution_to_sub(&s, &mut ns);
            proof {
                assert(e[0] == (SUnif::Term(elem@), SUnif::Term(args@[0]@)));
                assert(e.len() == 1);
                assert(e.drop_last() =~= Seq::<(SUnif, SUnif)>::empty());
                assert(crate::unify::evars(e.drop_last()) == Set::<Seq<char>>::empty());
                assert(e.last() == e[0]);
                assert(crate::unify::uvars(e[0].0) == tvars(elem@));
                assert(crate::unify::uvars(e[0].1) == tvars(args@[0]@));
                assert(crate::unify::evars(e) =~= tvars(elem@).union(tvars(args@[0]@)));
                assert forall|th: SSubst| #[trigger] unifies(th, e) <==> apply_term(th, elem@)
                    == apply_term(th, args@[0]@) by {
                    if apply_term(th, elem@) == apply_term(th, args@[0]@) {
                        assert forall|i: int| 0 <= i < e.len() implies crate::substitution::apply_unif(
                            th,
                            #[trigger] e[i].0,
                        ) == crate::substitution::apply_unif(th, e[i].1) by {
                            assert(i == 0);
                        }
                    }
                    if unifies(th, e) {
                        assert(crate::substitution::apply_unif(th, e[0].0)
                            == crate::substitution::apply_unif(th, e[0].1));
                    }
                }
                assert(unifies(s@, e));
                assert forall|th: SSubst, u: STerm|
                    #![trigger apply_term(th, elem@), apply_term(th, apply_term(s@, u))]
                    apply_term(th, elem@) == apply_term(th, args@[0]@) implies apply_term(
                    th,
                    apply_term(s@, u),
                ) == apply_term(th, u) by {
                    assert(unifies(th, e));
                }
                assert forall|x: Seq<char>| #[trigger] s@.dom().contains(x) implies tvars(elem@).contains(x)
                    || tvars(args@[0]@).contains(x) by {
                    assert(crate::unify::evars(e).contains(x));
                }
                assert forall|k: Seq<char>, x: Seq<char>|
                    #![trigger s@.dom().contains(k), tvars(s@[k]).contains(x)]
                    s@.dom().contains(k) && tvars(s@[k]).contains(x) implies tvars(elem@).contains(x)
                        || tvars(args@[0]@).contains(x) by {
                    assert(crate::unify::evars(e).contains(x));
                }
                assert(mgu_of(s@, elem@, args@[0]@));
                assert(exists|th: SSubst| #[trigger] apply_term(th, elem@) == apply_term(th, args@[0]@))
                    by {
                    assert(apply_term(s@, elem@) == apply_term(s@, args@[0]@));
                }
            }
            proof {
                sig = s@;
            }
            v.push((g, ns));
            assert(conts_view(v@)[0] == (apply_clause(sig, rest(goal@)), compose(sig, sub@)));
        },
        Err(_) => {
            proof {
                assert(e[0] == (SUnif::Term(elem@), SUnif::Term(args@[0]@)));
                assert(e.len() == 1);
                assert(!exists|th: SSubst| #[trigger] apply_term(th, elem@) == apply_term(th, args@[0]@))
                    by {
                    if exists|th: SSubst| #[trigger] apply_term(th, elem@) == apply_term(th, args@[0]@) {
                        let th = choose|th: SSubst| #[trigger] apply_term(th, elem@) == apply_term(th, args@[0]@);
                        assert forall|i: int| 0 <= i < e.len() implies crate::substitution::apply_unif(
                            th,
                            #[trigger] e[i].0,
                        ) == crate::substitution::apply_unif(th, e[i].1) by {
                            assert(i == 0);
                        }
                        assert(unifies(th, e));
                    }
                }
            }
        },
    }
    let ghost first = conts_view(v@);
    let mut lits: Vec<Literal> = Vec::new();
    let mut terms: Vec<Term> = Vec::new();
    terms.push(args[1].copy());
    terms.push(p.terms[1].copy());
    let next = Proposition { name: String::from_str("Elem"), terms };
    assert(next@.terms =~= seq![args@[1]@, p@.terms[1]]);
    let ghost next_view = next@;
    lits.push(Literal::Not(next));
    let mut r = rest_of(goal);
    let mut g = Clause(lits);
    g.append(&mut r);
    v.push((g, sub.copy()));
    proof {
        if v@.len() == 2 {
            assert(conts_view(v@)[0] == first[0]);
        }
        assert(elem@ == arg(sub@, p@, 1));
        assert(args@[0]@ == arg(sub@, p@, 0)->Fun_1[0]);
        assert(args@[1]@ == arg(sub@, p@, 0)->Fun_1[1]);
        let c = conts_view(v@);
        assert(c.len() == 2 <==> unifiable);
        assert(c.last() == (seq![SLit::Neg(next_view)] + rest(goal@), sub@));
        if c.len() == 2 {
            assert(mgu_of(sig, arg(sub@, p@, 1), arg(sub@, p@, 0)->Fun_1[0]));
            assert(c[0] == (apply_clause(sig, rest(goal@)), compose(sig, sub@)));
        }
    }
    Some(v)
}

/// The built-in predicates.
#[derive(Debug, Clone, Copy, PartialEq, Eq)]
pub enum Builtin {
    Eq,
    Diff,
    Var,
    Arith(ArithOp),
    Cmp(CmpOp),
    Between,
    IsList,
    Length,
    Elem,
}

/// The built-in that a name and an arity stand for.
pub open spec fn builtin_of(p: SProp) -> Option<Builtin> {
    let n = p.terms.len();
    if p.name == "Eq"@ && n == 2 {
        Some(Builtin::Eq)
    } else if p.name == "Diff"@ && n == 2 {
        Some(Builtin::Diff)
    } else if p.name == "Var"@ && n == 1 {
        Some(Builtin::Var)
    } else if p.name == "Add"@ && n == 3 {
        Some(Builtin::Arith(ArithOp::Add))
    } else if p.name == "Sub"@ && n == 3 {
        Some(Builtin::Arith(ArithOp::Sub))
    } else if p.name == "Mul"@ && n == 3 {
        Some(Builtin::Arith(ArithOp::Mul))
    } else if p.name == "Div"@ && n == 3 {
        Some(Builtin::Arith(ArithOp::Div))
    } else if p.name == "Mod"@ && n == 3 {
        Some(Builtin::Arith(ArithOp::Mod))
    } else if p.name == "Lt"@ && n == 2 {
        Some(Builtin::Cmp(CmpOp::Lt))
    } else if p.name == "Lt_eq"@ && n == 2 {
        Some(Builtin::Cmp(CmpOp::LtEq))
    } else if p.name == "Gt"@ && n == 2 {
        Some(Builtin::Cmp(CmpOp::Gt))
    } else if p.name == "Gt_eq"@ && n == 2 {
        Some(Builtin::Cmp(CmpOp::GtEq))
    } else if p.name == "Eq_int"@ && n == 2 {
        Some(Builtin::Cmp(CmpOp::EqInt))
    } else if p.name == "Diff_int"@ && n == 2 {
        Some(Builtin::Cmp(CmpOp::DiffInt))
    } else if p.name == "Between"@ && n == 3 {
        Some(Builtin::Between)
    } else if p.name == "Is_list"@ && n == 1 {
        Some(Builtin::IsList)
    } else if p.name == "Length"@ && n == 2 {
        Some(Builtin::Length)
    } else if p.name == "Elem"@ && n == 2 {
        Some(Builtin::Elem)
    } else {
        None
    }
}

/// The built-in that `p` calls, if any.
pub fn builtin_kind(p: &Proposition) -> (r: Option<Builtin>)
    ensures
        r == builtin_of(p@),
{
    let n = p.terms.len();
    let name = &p.name;
    if name_is(name, "Eq") && n == 2 {
        Some(Builtin::Eq)
    } else if name_is(name, "Diff") && n == 2 {
        Some(Builtin::Diff)
    } else if name_is(name, "Var") && n == 1 {
        Some(Builtin::Var)
    } else if name_is(name, "Add") && n == 3 {
        Some(Builtin::Arith(ArithOp::Add))
    } else if name_is(name, "Sub") && n == 3 {
        Some(Builtin::Arith(ArithOp::Sub))
    } else if name_is(name, "Mul") && n == 3 {
        Some(Builtin::Arith(ArithOp::Mul))
    } else if name_is(name, "Div") && n == 3 {
        Some(Builtin::Arith(ArithOp::Div))
    } else if name_is(name, "Mod") && n == 3 {
        Some(Builtin::Arith(ArithOp::Mod))
    } else if name_is(name, "Lt") && n == 2 {
        Some(Builtin::Cmp(CmpOp::Lt))
    } else if name_is(name, "Lt_eq") && n == 2 {
        Some(Builtin::Cmp(CmpOp::LtEq))
    } else if name_is(name, "Gt") && n == 2 {
        Some(Builtin::Cmp(CmpOp::Gt))
    } else if name_is(name, "Gt_eq") && n == 2 {
        Some(Builtin::Cmp(CmpOp::GtEq))
    } else if name_is(name, "Eq_int") && n == 2 {
        Some(Builtin::Cmp(CmpOp::EqInt))
    } else if name_is(name, "Diff_int") && n == 2 {
        Some(Builtin::Cmp(CmpOp::DiffInt))
    } else if name_is(name, "Between") && n == 3 {
        Some(Builtin::Between)
    } else if name_is(name, "Is_list") && n == 1 {
        Some(Builtin::IsList)
    } else if name_is(name, "Length") && n == 2 {
        Some(Builtin::Length)
    } else if name_is(name, "Elem") && n == 2 {
        Some(Builtin::Elem)
    } else {
        None
    }
}

/// What the built-in table makes of a selected literal.
#[derive(Debug)]
pub enum Dispatch {
    /// Not a built-in: the literal is resolved against the program.
    NotBuiltin,
    /// A built-in, with its continuations in the order in which they are to be tried.
    Branches(Vec<Continuation>),
    /// `Length` with both arguments free: one continuation per length, without end.
    Unbounded,
    /// A fatal error of the built-in, such as a division by zero.
    Fatal(GicError),
}

/// The continuations that an exactly specified built-in gives.
pub open spec fn builtin_conts(goal: Seq<SLit>, sub: SSubst, p: SProp, k: Builtin, suffix: Seq<char>) -> Seq<SCont> {
    let r = match k {
        Builtin::Eq => eq_spec(goal, sub, p),
        Builtin::Diff => diff_spec(goal, sub, p),
        Builtin::Var => var_spec(goal, sub, p),
        Builtin::Arith(op) => arith_spec(goal, sub, p, op),
        Builtin::Cmp(op) => compare_spec(goal, sub, p, op),
        Builtin::Between => between_spec(goal, sub, p),
        Builtin::IsList => is_list_spec(goal, sub, p),
        Builtin::Length => length_spec(goal, sub, p, suffix),
        Builtin::Elem => None,
    };
    match r {
        Some(s) => s,
        None => Seq::empty(),
    }
}

fn some_or_empty(r: Option<Vec<Continuation>>) -> (v: Vec<Continuation>)
    requires
        r matches Some(v) ==> conts_wf(v@),
    ensures
        conts_wf(v@),
        conts_view(v@) == match r {
            Some(w) => conts_view(w@),
            None => Seq::empty(),
        },
        r matches Some(w) ==> v@ == w@,
        r is None ==> v@.len() == 0,
{
    match r {
        Some(v) => v,
        None => {
            let v: Vec<Continuation> = Vec::new();
            assert(conts_view(v@) =~= Seq::<SCont>::empty());
            v
        },
    }
}

/// Asks the built-in table about the selected literal `lit` of `goal`; the
/// variables of a list that `Length` builds have `suffix` after their names.
/// Built-ins answer only negative literals (goal literals). `Length` with
/// both arguments free has answers without end: the table returns
/// `Dispatch::Unbounded`, and the caller takes its answers one at a time from
/// `length_nth_pred`.
pub fn built_in_preds(goal: &Clause, lit: &Literal, sub: &Substitution, suffix: &str) -> (r: Dispatch)
    requires
        sub.wf(),
        goal@.len() >= 1,
        goal@[0] == lit@,
    ensures
        crate::laws::clean(goal@, sub@) ==> (r matches Dispatch::Branches(v)
            ==> crate::resolution::conts_clean(v@)),
        r is NotBuiltin <==> !(lit@ is Neg && builtin_of(lit@->Neg_0) is Some),
        r is Unbounded <==> (lit@ is Neg && builtin_of(lit@->Neg_0) == Some(Builtin::Length)
            && length_unbounded(sub@, lit@->Neg_0)),
        r is Fatal <==> (lit@ is Neg && (builtin_of(lit@->Neg_0) matches Some(Builtin::Arith(op))
            && divides_by_zero(sub@, lit@->Neg_0, op))),
        r matches Dispatch::Branches(v) ==> {
            let p = lit@->Neg_0;
            let k = builtin_of(p)->Some_0;
            &&& conts_wf(v@)
            &&& (k !is Elem && k !is Length) ==> conts_view(v@) == builtin_conts(goal@, sub@, p, k, suffix@)
            &&& k is Length ==> (conts_view(v@) == builtin_conts(goal@, sub@, p, k, suffix@) || (list_len(
                arg(sub@, p, 0),
            ) matches Some(n) && n >= usize::MAX))
            &&& k is Elem ==> if (arg(sub@, p, 0) matches STerm::Fun(f, args) && f == "cons"@
                && args.len() == 2) {
                elem_conts(goal@, sub@, p, conts_view(v@))
            } else {
                v@.len() == 0
            }
        },
{
    let p = match lit {
        Literal::Not(p) => p,
        Literal::Proposition(_) => {
            return Dispatch::NotBuiltin;
        },
    };
    let k = match builtin_kind(p) {
        Some(k) => k,
        None => {
            return Dispatch::NotBuiltin;
        },
    };
    proof {
        if k !is Elem {
            if crate::laws::clean(goal@, sub@) {
                crate::laws::lemma_builtin_conts_clean(goal@, sub@, p@, k, suffix@);
            }
        }
    }
    let r = match k {
        Builtin::Eq => some_or_empty(eq_pred(sub, p, goal)),
        Builtin::Diff => some_or_empty(diff_pred(sub, p, goal)),
        Builtin::Var => some_or_empty(var_pred(sub, p, goal)),
        Builtin::Arith(op) => match arithmetic_op_pred(goal, p, sub, op) {
            Ok(r) => some_or_empty(r),
            Err(e) => {
                return Dispatch::Fatal(e);
            },
        },
        Builtin::Cmp(op) => some_or_empty(compare_pred(goal, p, sub, op)),
        Builtin::Between => some_or_empty(between_pred(goal, p, sub)),
        Builtin::IsList => some_or_empty(is_list_pred(goal, p, sub)),
        Builtin::Length => {
            if length_is_unbounded(p, sub) {
                return Dispatch::Unbounded;
            }
            some_or_empty(length_pred(goal, p, sub, suffix))
        },
        Builtin::Elem => {
            let e = list_elem(goal, p, sub);
            proof {
                if e is Some {
                    if crate::laws::clean(goal@, sub@) {
                        crate::laws::lemma_elem_conts_clean(goal@, sub@, p@, conts_view(e->Some_0@));
                    }
                }
            }
            let r = some_or_empty(e);
            proof {
                if crate::laws::clean(goal@, sub@) {
                    crate::laws::lemma_conts_clean_from(r@, conts_view(r@));
                }
            }
            r
        },
    };
    proof {
        if k !is Elem {
            if crate::laws::clean(goal@, sub@) {
                crate::laws::lemma_conts_clean_from(r@, builtin_conts(goal@, sub@, p@, k, suffix@));
            }
        }
    }
    Dispatch::Branches(r)
}

} // verus!

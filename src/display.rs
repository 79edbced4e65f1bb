use vstd::prelude::*;

use crate::ast::{Expression, SExpr, SProp, STerm, Term};
use crate::clause::{Clause, Literal, Program, SLit};
use crate::text::{concat, decimal, decimal_string};

verus! {

/// An integer in decimal, with a leading `-` when it is negative.
pub open spec fn int_text(n: int) -> Seq<char> {
    if n < 0 {
        seq!['-'] + decimal((-n) as nat)
    } else {
        decimal(n as nat)
    }
}

/// A name that starts with a lower-case ASCII letter, which reads back as a constant.
pub open spec fn starts_lower(f: Seq<char>) -> bool {
    f.len() > 0 && 'a' <= f[0] <= 'z'
}

/// Whether `f` starts with a lower-case ASCII letter.
fn name_starts_lower(f: &String) -> (r: bool)
    ensures
        r == starts_lower(f@),
{
    let s = f.as_str();
    if s.unicode_len() == 0 {
        return false;
    }
    let c = s.get_char(0);
    'a' <= c && c <= 'z'
}

pub open spec fn is_nil(t: STerm) -> bool {
    t matches STerm::Fun(f, args) && f == "empty_list"@ && args.len() == 0
}

pub open spec fn is_cons(t: STerm) -> bool {
    t matches STerm::Fun(f, args) && f == "cons"@ && args.len() == 2
}

/// The printed form of a term: lists as `[a, b]` or `[a, b|T]`, applications
/// as `f(x, y)`, variables by their names and integers in decimal.
pub open spec fn term_text(t: STerm) -> Seq<char>
    decreases t, 1nat,
{
    match t {
        STerm::Var(x) => x,
        STerm::Num(n) => int_text(n),
        STerm::Fun(f, args) => if is_nil(t) {
            "[]"@
        } else if is_cons(t) {
            "["@ + list_text(t) + "]"@
        } else if args.len() == 0 && starts_lower(f) {
            f
        } else {
            f + "("@ + args_text(args) + ")"@
        },
    }
}

/// The elements of the list that the `cons` cell `t` starts.
pub open spec fn list_text(t: STerm) -> Seq<char>
    decreases t, 0nat,
{
    match t {
        STerm::Fun(_, args) => if args.len() == 2 {
            let tail = args[1];
            if is_nil(tail) {
                term_text(args[0])
            } else if is_cons(tail) {
                term_text(args[0]) + ", "@ + list_text(tail)
            } else {
                term_text(args[0]) + "|"@ + term_text(tail)
            }
        } else {
            Seq::empty()
        },
        _ => Seq::empty(),
    }
}

/// Terms separated by `, `.
pub open spec fn args_text(args: Seq<STerm>) -> Seq<char>
    decreases args, 0nat,
{
    if args.len() == 0 {
        Seq::empty()
    } else if args.len() == 1 {
        term_text(args[0])
    } else {
        args_text(args.drop_last()) + ", "@ + term_text(args.last())
    }
}

/// The printed form of an integer.
pub fn int_to_text(n: i64) -> (r: String)
    ensures
        r@ == int_text(n as int),
{
    if n < 0 {
        let m = (-(n + 1)) as u64 + 1;
        let d = decimal_string(m);
        proof {
            reveal_strlit("-");
        }
        concat("-", d.as_str())
    } else {
        decimal_string(n as u64)
    }
}

impl Term {
    /// The printed form of the term.
    pub fn to_text(&self) -> (r: String)
        ensures
            r@ == term_text(self@),
        decreases self, 1nat,
    {
        match self {
            Term::Identifier(x) => crate::ast::copy_string(x),
            Term::Number(n) => int_to_text(*n),
            Term::FunctionApplication { name, args } => {
                if crate::builtins::name_is(name, "empty_list") && args.len() == 0 {
                    return String::from_str("[]");
                }
                if crate::builtins::name_is(name, "cons") && args.len() == 2 {
                    let body = list_to_text(self);
                    let a = concat("[", body.as_str());
                    return concat(a.as_str(), "]");
                }
                if args.len() == 0 && name_starts_lower(name) {
                    return crate::ast::copy_string(name);
                }
                assert(decreases_to!(*self => (*self)->args));
                let inner = args_to_text(args);
                let a = concat(name.as_str(), "(");
                let b = concat(a.as_str(), inner.as_str());
                concat(b.as_str(), ")")
            },
        }
    }
}

/// The elements of the list that the `cons` cell `t` starts.
fn list_to_text(t: &Term) -> (r: String)
    requires
        is_cons(t@),
    ensures
        r@ == list_text(t@),
    decreases t, 0nat,
{
    match t {
        Term::FunctionApplication { name, args } => {
            assert(decreases_to!(*t => (*t)->args));
            assert(decreases_to!(*args => args@));
            assert(decreases_to!(args@ => args@[0]));
            assert(decreases_to!(args@ => args@[1]));
            let first = args[0].to_text();
            let tail = &args[1];
            assert(tail@ == t@->Fun_1[1]);
            if let Term::FunctionApplication { name: tn, args: ta } = tail {
                if crate::builtins::name_is(tn, "empty_list") && ta.len() == 0 {
                    assert(tail@->Fun_1.len() == 0);
                    assert(is_nil(t@->Fun_1[1]));
                    return first;
                }
                if crate::builtins::name_is(tn, "cons") && ta.len() == 2 {
                    let more = list_to_text(tail);
                    let a = concat(first.as_str(), ", ");
                    return concat(a.as_str(), more.as_str());
                }
            }
            let rest = tail.to_text();
            let a = concat(first.as_str(), "|");
            concat(a.as_str(), rest.as_str())
        },
        _ => String::new(),
    }
}

/// Terms separated by `, `.
fn args_to_text(args: &Vec<Term>) -> (r: String)
    ensures
        r@ == args_text(crate::ast::terms_view(args@)),
    decreases args, 0nat,
{
    let ghost ts = crate::ast::terms_view(args@);
    let mut out = String::new();
    let mut i: usize = 0;
    while i < args.len()
        invariant
            i <= args@.len(),
            ts == crate::ast::terms_view(args@),
            out@ == args_text(ts.subrange(0, i as int)),
        decreases args.len() - i,
    {
        proof {
            let pre = ts.subrange(0, i + 1);
            assert(pre.drop_last() =~= ts.subrange(0, i as int));
        }
        assert(decreases_to!(args => args@));
        assert(decreases_to!(args@ => args@[i as int]));
        let s = args[i].to_text();
        if i == 0 {
            assert(ts.subrange(0, 1) =~= seq![ts[0]]);
            out = s;
        } else {
            let a = concat(out.as_str(), ", ");
            out = concat(a.as_str(), s.as_str());
        }
        i = i + 1;
    }
    assert(ts.subrange(0, ts.len() as int) =~= ts);
    out
}

/// The printed form of a proposition: `P(x, y)`.
pub open spec fn prop_text(p: SProp) -> Seq<char> {
    p.name + "("@ + args_text(p.terms) + ")"@
}

/// The printed form of a literal; a negative one starts with `¬`.
pub open spec fn lit_text(l: SLit) -> Seq<char> {
    match l {
        SLit::Pos(p) => prop_text(p),
        SLit::Neg(p) => "¬"@ + prop_text(p),
    }
}

/// The literals of a clause separated by `, `.
pub open spec fn lits_text(c: Seq<SLit>) -> Seq<char>
    decreases c.len(),
{
    if c.len() == 0 {
        Seq::empty()
    } else if c.len() == 1 {
        lit_text(c[0])
    } else {
        lits_text(c.drop_last()) + ", "@ + lit_text(c.last())
    }
}

/// The printed form of a clause: its literals in braces.
pub open spec fn clause_text(c: Seq<SLit>) -> Seq<char> {
    "{"@ + lits_text(c) + "}"@
}

/// One line per clause, indented and ended by a comma.
pub open spec fn clause_lines(p: Seq<Seq<SLit>>) -> Seq<char>
    decreases p.len(),
{
    if p.len() == 0 {
        Seq::empty()
    } else {
        clause_lines(p.drop_last()) + "  "@ + clause_text(p.last()) + ",\n"@
    }
}

/// The printed form of a program: its clauses, one per line, in braces.
pub open spec fn program_text(p: Seq<Seq<SLit>>) -> Seq<char> {
    "{\n"@ + clause_lines(p) + "}\n"@
}

fn args_vec_text(args: &Vec<Term>) -> (r: String)
    ensures
        r@ == args_text(crate::ast::terms_view(args@)),
{
    args_to_text(args)
}

impl Literal {
    /// The printed form of the literal.
    pub fn to_text(&self) -> (r: String)
        ensures
            r@ == lit_text(self@),
    {
        let p = self.prop();
        let inner = args_vec_text(&p.terms);
        let a = concat(p.name.as_str(), "(");
        let b = concat(a.as_str(), inner.as_str());
        let t = concat(b.as_str(), ")");
        if self.is_positive() {
            t
        } else {
            concat("¬", t.as_str())
        }
    }
}

impl Clause {
    /// The printed form of the clause.
    pub fn to_text(&self) -> (r: String)
        ensures
            r@ == clause_text(self@),
    {
        let mut out = String::new();
        let mut i: usize = 0;
        while i < self.0.len()
            invariant
                i <= self@.len(),
                out@ == lits_text(self@.subrange(0, i as int)),
            decreases self.0.len() - i,
        {
            assert(self@.subrange(0, i + 1).drop_last() =~= self@.subrange(0, i as int));
            let l = self.0[i].to_text();
            if i == 0 {
                assert(self@.subrange(0, 1) =~= seq![self@[0]]);
                out = l;
            } else {
                let a = concat(out.as_str(), ", ");
                out = concat(a.as_str(), l.as_str());
            }
            i = i + 1;
        }
        assert(self@.subrange(0, self@.len() as int) =~= self@);
        let a = concat("{", out.as_str());
        concat(a.as_str(), "}")
    }
}

impl Program {
    /// The printed form of the program.
    pub fn to_text(&self) -> (r: String)
        ensures
            r@ == program_text(self@),
    {
        let mut out = String::new();
        let mut i: usize = 0;
        while i < self.0.len()
            invariant
                i <= self@.len(),
                out@ == clause_lines(self@.subrange(0, i as int)),
            decreases self.0.len() - i,
        {
            assert(self@.subrange(0, i + 1).drop_last() =~= self@.subrange(0, i as int));
            let c = self.0[i].to_text();
            let a = concat(out.as_str(), "  ");
            let b = concat(a.as_str(), c.as_str());
            out = concat(b.as_str(), ",\n");
            i = i + 1;
        }
        assert(self@.subrange(0, self@.len() as int) =~= self@);
        let a = concat("{\n", out.as_str());
        concat(a.as_str(), "}\n")
    }
}

/// The printed form of a formula in the input language, with every binary
/// connective and quantifier in parentheses.
pub open spec fn expr_text(e: SExpr) -> Seq<char>
    decreases e,
{
    match e {
        SExpr::Prop(p) => prop_text(p),
        SExpr::Bottom => "bottom"@,
        SExpr::And(a, b) => "("@ + expr_text(*a) + " and "@ + expr_text(*b) + ")"@,
        SExpr::Or(a, b) => "("@ + expr_text(*a) + " or "@ + expr_text(*b) + ")"@,
        SExpr::Implies(a, b) => "("@ + expr_text(*a) + " impl "@ + expr_text(*b) + ")"@,
        SExpr::Not(a) => "not "@ + expr_text(*a),
        SExpr::Exists(v, a) => "(exists "@ + v + ". "@ + expr_text(*a) + ")"@,
        SExpr::ForAll(v, a) => "(forall "@ + v + ". "@ + expr_text(*a) + ")"@,
    }
}

fn wrap(open: &str, a: &String, mid: &str, b: &String, close: &str) -> (r: String)
    ensures
        r@ == open@ + a@ + mid@ + b@ + close@,
{
    let x = concat(open, a.as_str());
    let y = concat(x.as_str(), mid);
    let z = concat(y.as_str(), b.as_str());
    concat(z.as_str(), close)
}

impl Expression {
    /// The printed form of the formula, which reads back as the same formula.
    pub fn to_text(&self) -> (r: String)
        ensures
            r@ == expr_text(self@),
        decreases self,
    {
        proof {
            reveal_with_fuel(crate::ast::expr_view, 2);
        }
        match self {
            Expression::Proposition(p) => {
                let inner = args_vec_text(&p.terms);
                let head = concat(p.name.as_str(), "(");
                let body = concat(head.as_str(), inner.as_str());
                concat(body.as_str(), ")")
            },
            Expression::Bottom => String::from_str("bottom"),
            Expression::And(a, b) => wrap("(", &a.to_text(), " and ", &b.to_text(), ")"),
            Expression::Or(a, b) => wrap("(", &a.to_text(), " or ", &b.to_text(), ")"),
            Expression::Implies(a, b) => wrap("(", &a.to_text(), " impl ", &b.to_text(), ")"),
            Expression::Not(a) => {
                let t = a.to_text();
                concat("not ", t.as_str())
            },
            Expression::Exists(v, a) => {
                let head = concat("(exists ", v.as_str());
                wrap(head.as_str(), &String::new(), ". ", &a.to_text(), ")")
            },
            Expression::ForAll(v, a) => {
                let head = concat("(forall ", v.as_str());
                wrap(head.as_str(), &String::new(), ". ", &a.to_text(), ")")
            },
        }
    }
}

} // verus!

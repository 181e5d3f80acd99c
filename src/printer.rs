//! The canonical source text of a syntax tree: binary operations fully
//! parenthesised, no whitespace but the single spaces that separate words.
use vstd::prelude::*;
use vstd::string::*;
use crate::ast::{Expr, Lit, Tree, trees};
use crate::grammar::{is_ident_char, is_ident_start, is_keyword};

verus! {

broadcast use {vstd::seq::group_seq_axioms, vstd::std_specs::vec::group_vec_axioms};

pub open spec fn digit_char(d: int) -> char {
    if d == 0 {
        '0'
    } else if d == 1 {
        '1'
    } else if d == 2 {
        '2'
    } else if d == 3 {
        '3'
    } else if d == 4 {
        '4'
    } else if d == 5 {
        '5'
    } else if d == 6 {
        '6'
    } else if d == 7 {
        '7'
    } else if d == 8 {
        '8'
    } else {
        '9'
    }
}

/// The decimal digits of `n`, without leading zeros.
pub open spec fn num_text(n: nat) -> Seq<char>
    decreases n,
{
    if n < 10 {
        seq![digit_char(n as int)]
    } else {
        num_text(n / 10) + seq![digit_char((n % 10) as int)]
    }
}

/// The word that a variable or type name holds.
pub open spec fn word_of(t: Tree) -> Seq<char> {
    match t {
        Tree::Var(w) => w,
        Tree::Type(w) => w,
        _ => seq![],
    }
}

/// `w` can stand as an identifier: identifier characters, not starting with
/// a digit, and not a reserved word.
pub open spec fn is_name(w: Seq<char>) -> bool {
    &&& w.len() > 0
    &&& is_ident_start(w[0])
    &&& forall|k: int| 0 <= k < w.len() ==> #[trigger] is_ident_char(w[k])
    &&& !is_keyword(w)
}

/// `w` can stand between the quotes of a string literal.
pub open spec fn is_text(w: Seq<char>) -> bool {
    forall|k: int| 0 <= k < w.len() ==> #[trigger] w[k] != '\\' && w[k] != '"'
}

/// `t` is an expression that the grammar can produce.
pub open spec fn wf_expr(t: Tree) -> bool
    decreases t,
{
    match t {
        Tree::Int(n) => 0 <= n <= i64::MAX as int,
        Tree::Str(w) => is_text(w),
        Tree::Var(w) => is_name(w),
        Tree::Neg(a) => wf_expr(*a),
        Tree::Add(a, b) => wf_expr(*a) && wf_expr(*b),
        Tree::Sub(a, b) => wf_expr(*a) && wf_expr(*b),
        Tree::Mul(a, b) => wf_expr(*a) && wf_expr(*b),
        Tree::Div(a, b) => wf_expr(*a) && wf_expr(*b),
        Tree::Call(f, xs) => {
            &&& *f is Var
            &&& is_name((*f)->Var_0)
            &&& forall|k: int| 0 <= k < xs.len() ==> wf_expr(#[trigger] xs[k])
        },
        _ => false,
    }
}

/// Texts joined by commas.
pub open spec fn join(parts: Seq<Seq<char>>) -> Seq<char>
    decreases parts.len(),
{
    if parts.len() == 0 {
        seq![]
    } else if parts.len() == 1 {
        parts[0]
    } else {
        parts[0] + seq![','] + join(parts.drop_first())
    }
}

pub open spec fn binary_text(a: Seq<char>, op: char, b: Seq<char>) -> Seq<char> {
    seq!['('] + a + seq![op] + b + seq![')']
}

/// The canonical text of an expression.
pub open spec fn expr_text(t: Tree) -> Seq<char>
    decreases t, 0int,
{
    match t {
        Tree::Int(n) => if n >= 0 {
            num_text(n as nat)
        } else {
            seq!['-'] + num_text((-n) as nat)
        },
        Tree::Str(w) => seq!['"'] + w + seq!['"'],
        Tree::Var(w) => w,
        Tree::Neg(a) => seq!['-'] + expr_text(*a),
        Tree::Add(a, b) => binary_text(expr_text(*a), '+', expr_text(*b)),
        Tree::Sub(a, b) => binary_text(expr_text(*a), '-', expr_text(*b)),
        Tree::Mul(a, b) => binary_text(expr_text(*a), '*', expr_text(*b)),
        Tree::Div(a, b) => binary_text(expr_text(*a), '/', expr_text(*b)),
        Tree::Call(f, xs) => {
            word_of(*f) + seq!['('] + args_text(xs, 0) + seq![')']
        },
        _ => seq![],
    }
}

/// The canonical texts of the expressions `xs[k..]`, joined by commas.
pub open spec fn args_text(xs: Seq<Tree>, k: int) -> Seq<char>
    decreases xs, xs.len() - k,
{
    if 0 <= k < xs.len() - 1 {
        expr_text(xs[k]) + seq![','] + args_text(xs, k + 1)
    } else if 0 <= k && k == xs.len() - 1 {
        expr_text(xs[k])
    } else {
        seq![]
    }
}

/// `t` is a statement that the grammar can produce.
pub open spec fn wf_stmt(t: Tree) -> bool {
    match t {
        Tree::Assign { name, typ, rhs } => {
            &&& *name is Var
            &&& is_name((*name)->Var_0)
            &&& *typ is Type
            &&& is_name((*typ)->Type_0)
            &&& wf_expr(*rhs)
        },
        Tree::Return { value } => wf_expr(*value),
        _ => wf_expr(t),
    }
}

/// The canonical text of a statement, without its `;`.
pub open spec fn stmt_text(t: Tree) -> Seq<char> {
    match t {
        Tree::Assign { name, typ, rhs } => word_of(*typ) + seq![' '] + word_of(*name) + seq!['=']
            + expr_text(*rhs),
        Tree::Return { value } => seq!['r', 'e', 't', ' '] + expr_text(*value),
        _ => expr_text(t),
    }
}

/// The statements of a block, each followed by `;`.
pub open spec fn stmts_text(ts: Seq<Tree>) -> Seq<char>
    decreases ts.len(),
{
    if ts.len() == 0 {
        seq![]
    } else {
        stmt_text(ts[0]) + seq![';'] + stmts_text(ts.drop_first())
    }
}

/// `t` is a parameter: a variable with a name.
pub open spec fn wf_param(t: Tree) -> bool {
    t is Var && is_name(t->Var_0)
}

/// `t` is a function definition that the grammar can produce.
pub open spec fn wf_func(t: Tree) -> bool {
    match t {
        Tree::Func { name, return_type, args, body } => {
            &&& *name is Var
            &&& is_name((*name)->Var_0)
            &&& *return_type is Type
            &&& is_name((*return_type)->Type_0)
            &&& forall|k: int| 0 <= k < args.len() ==> wf_param(#[trigger] args[k])
            &&& forall|k: int| 0 <= k < body.len() ==> wf_stmt(#[trigger] body[k])
        },
        _ => false,
    }
}

/// `p` is a program that the grammar can produce.
pub open spec fn wf_program(p: Seq<Tree>) -> bool {
    forall|k: int| 0 <= k < p.len() ==> wf_func(#[trigger] p[k])
}

/// The names of the parameters `ps`.
pub open spec fn param_texts(ps: Seq<Tree>) -> Seq<Seq<char>> {
    Seq::new(ps.len(), |k: int| word_of(ps[k]))
}

/// The canonical text of a function definition.
pub open spec fn func_text(t: Tree) -> Seq<char> {
    match t {
        Tree::Func { name, return_type, args, body } => seq!['f', 'c', 'n', ' ']
            + word_of(*return_type) + seq![' '] + word_of(*name) + seq!['('] + join(
            param_texts(args),
        ) + seq![')'] + seq!['{'] + stmts_text(body) + seq!['}'],
        _ => seq![],
    }
}

/// The canonical text of a program: its function definitions one after another.
pub open spec fn program_text(p: Seq<Tree>) -> Seq<char>
    decreases p.len(),
{
    if p.len() == 0 {
        seq![]
    } else {
        func_text(p[0]) + program_text(p.drop_first())
    }
}

fn digit_str(d: u64) -> (r: &'static str)
    requires
        d < 10,
    ensures
        r@ == seq![digit_char(d as int)],
{
    if d == 0 {
        proof {
            reveal_strlit("0");
        }
        "0"
    } else if d == 1 {
        proof {
            reveal_strlit("1");
        }
        "1"
    } else if d == 2 {
        proof {
            reveal_strlit("2");
        }
        "2"
    } else if d == 3 {
        proof {
            reveal_strlit("3");
        }
        "3"
    } else if d == 4 {
        proof {
            reveal_strlit("4");
        }
        "4"
    } else if d == 5 {
        proof {
            reveal_strlit("5");
        }
        "5"
    } else if d == 6 {
        proof {
            reveal_strlit("6");
        }
        "6"
    } else if d == 7 {
        proof {
            reveal_strlit("7");
        }
        "7"
    } else if d == 8 {
        proof {
            reveal_strlit("8");
        }
        "8"
    } else {
        proof {
            reveal_strlit("9");
        }
        "9"
    }
}

fn write_num(n: u64, out: &mut String)
    ensures
        final(out)@ == old(out)@ + num_text(n as nat),
    decreases n,
{
    if n < 10 {
        out.append(digit_str(n));
    } else {
        write_num(n / 10, out);
        out.append(digit_str(n % 10));
    }
}

fn write_lit(out: &mut String, lit: &str)
    ensures
        final(out)@ == old(out)@ + lit@,
{
    out.append(lit);
}

/// Appends the name that a variable or type node holds.
fn write_word(e: &Expr, out: &mut String)
    ensures
        final(out)@ == old(out)@ + word_of(e.tree()),
{
    match e {
        Expr::Var(w) => out.append(w.as_str()),
        Expr::Type(w) => out.append(w.as_str()),
        _ => {
            assert(old(out)@ + seq![] =~= old(out)@);
        },
    }
}

fn write_expr(e: &Expr, out: &mut String)
    ensures
        final(out)@ == old(out)@ + expr_text(e.tree()),
    decreases e,
{
    proof {
        reveal_strlit("(");
        reveal_strlit(")");
        reveal_strlit("-");
        reveal_strlit("\"");
        reveal_strlit(",");
    }
    let ghost start = out@;
    match e {
        Expr::Lit(Lit::Int(n)) => {
            if *n >= 0 {
                write_num(*n as u64, out);
            } else {
                write_lit(out, "-");
                let m: u64 = if *n == i64::MIN {
                    9223372036854775808u64
                } else {
                    (-*n) as u64
                };
                write_num(m, out);
                assert(out@ =~= start + (seq!['-'] + num_text((-(*n as int)) as nat)));
            }
        },
        Expr::Lit(Lit::Str(w)) => {
            write_lit(out, "\"");
            out.append(w.as_str());
            write_lit(out, "\"");
            assert(out@ =~= start + (seq!['"'] + w@ + seq!['"']));
        },
        Expr::Var(w) => {
            out.append(w.as_str());
        },
        Expr::Neg(a) => {
            write_lit(out, "-");
            write_expr(a, out);
            assert(out@ =~= start + (seq!['-'] + expr_text(a.tree())));
        },
        Expr::Add(a, b) => {
            proof {
                reveal_strlit("+");
            }
            write_lit(out, "(");
            write_expr(a, out);
            write_lit(out, "+");
            write_expr(b, out);
            write_lit(out, ")");
            assert(out@ =~= start + binary_text(expr_text(a.tree()), '+', expr_text(b.tree())));
        },
        Expr::Sub(a, b) => {
            proof {
                reveal_strlit("-");
            }
            write_lit(out, "(");
            write_expr(a, out);
            write_lit(out, "-");
            write_expr(b, out);
            write_lit(out, ")");
            assert(out@ =~= start + binary_text(expr_text(a.tree()), '-', expr_text(b.tree())));
        },
        Expr::Mul(a, b) => {
            proof {
                reveal_strlit("*");
            }
            write_lit(out, "(");
            write_expr(a, out);
            write_lit(out, "*");
            write_expr(b, out);
            write_lit(out, ")");
            assert(out@ =~= start + binary_text(expr_text(a.tree()), '*', expr_text(b.tree())));
        },
        Expr::Div(a, b) => {
            proof {
                reveal_strlit("/");
            }
            write_lit(out, "(");
            write_expr(a, out);
            write_lit(out, "/");
            write_expr(b, out);
            write_lit(out, ")");
            assert(out@ =~= start + binary_text(expr_text(a.tree()), '/', expr_text(b.tree())));
        },
        Expr::Call(f, xs) => {
            let ghost ts = e.tree()->Call_1;
            write_word(f, out);
            write_lit(out, "(");
            let ghost mid = out@;
            let n = xs.len();
            proof {
                assert(decreases_to!(*e => (*e)->Call_1));
                assert forall|m: int| 0 <= m < n implies #[trigger] decreases_to!(*e => xs@[m]) by {
                    assert(decreases_to!(*xs => xs@));
                    assert(decreases_to!(xs@ => xs@[m]));
                }
            }
            let mut k: usize = 0;
            while k < n
                invariant
                    n == xs@.len(),
                    forall|m: int| 0 <= m < n ==> #[trigger] decreases_to!(*e => xs@[m]),
                    ts.len() == n,
                    forall|m: int| 0 <= m < n ==> #[trigger] ts[m] == xs@[m].tree(),
                    k <= n,
                    out@ + (if 0 < k < n {
                        seq![',']
                    } else {
                        seq![]
                    }) + args_text(ts, k as int) == mid + args_text(ts, 0),
                decreases n - k,
            {
                let ghost before = out@;
                if k > 0 {
                    write_lit(out, ",");
                }
                proof {
                    reveal_strlit(",");
                }
                let ghost sepk = if 0 < k < n {
                    seq![',']
                } else {
                    seq![]
                };
                write_expr(&xs[k], out);
                proof {
                    let tk = expr_text(ts[k as int]);
                    assert(out@ =~= before + sepk + tk);
                    if k + 1 < n {
                        assert(args_text(ts, k as int) == tk + seq![','] + args_text(ts, k + 1));
                    } else {
                        assert(args_text(ts, k as int) == tk);
                        assert(args_text(ts, k + 1) == Seq::<char>::empty());
                    }
                    assert(out@ + (if 0 < k + 1 < n {
                        seq![',']
                    } else {
                        seq![]
                    }) + args_text(ts, k + 1) =~= before + (if 0 < k < n {
                        seq![',']
                    } else {
                        seq![]
                    }) + args_text(ts, k as int));
                }
                k = k + 1;
            }
            write_lit(out, ")");
            assert(out@ =~= start + (word_of(f.tree()) + seq!['('] + args_text(ts, 0) + seq![')']));
        },
        _ => {
            assert(out@ =~= start + expr_text(e.tree()));
        },
    }
}

fn write_stmt(t: &Expr, out: &mut String)
    ensures
        final(out)@ == old(out)@ + stmt_text(t.tree()),
{
    let ghost start = out@;
    match t {
        Expr::Assign { name, typ, rhs } => {
            proof {
                reveal_strlit(" ");
                reveal_strlit("=");
            }
            write_word(typ, out);
            write_lit(out, " ");
            write_word(name, out);
            write_lit(out, "=");
            write_expr(rhs, out);
            assert(out@ =~= start + stmt_text(t.tree()));
        },
        Expr::Return { value } => {
            proof {
                reveal_strlit("ret ");
            }
            write_lit(out, "ret ");
            write_expr(value, out);
            assert(out@ =~= start + stmt_text(t.tree()));
        },
        _ => {
            write_expr(t, out);
        },
    }
}

fn write_func(f: &Expr, out: &mut String)
    ensures
        final(out)@ == old(out)@ + func_text(f.tree()),
{
    let ghost start = out@;
    match f {
        Expr::Func { name, return_type, args, body } => {
            proof {
                reveal_strlit("fcn ");
                reveal_strlit(" ");
                reveal_strlit("(");
                reveal_strlit(")");
                reveal_strlit("{");
                reveal_strlit("}");
            }
            let ghost ps = f.tree()->Func_args;
            let ghost bs = f.tree()->Func_body;
            let ghost parts = param_texts(ps);
            write_lit(out, "fcn ");
            write_word(return_type, out);
            write_lit(out, " ");
            write_word(name, out);
            write_lit(out, "(");
            let ghost mid = out@;
            let n = args.len();
            assert(parts.subrange(0, n as int) =~= parts);
            assert(out@ + seq![] =~= out@);
            let mut k: usize = 0;
            while k < n
                invariant
                    n == args@.len(),
                    parts.len() == n,
                    forall|m: int| 0 <= m < n ==> #[trigger] parts[m] == word_of(args@[m].tree()),
                    k <= n,
                    out@ + (if 0 < k < n {
                        seq![',']
                    } else {
                        seq![]
                    }) + join(parts.subrange(k as int, n as int)) == mid + join(parts),
                decreases n - k,
            {
                proof {
                    reveal_strlit(",");
                }
                let ghost before = out@;
                let ghost sepk = if 0 < k < n {
                    seq![',']
                } else {
                    seq![]
                };
                if k > 0 {
                    write_lit(out, ",");
                }
                write_word(&args[k], out);
                proof {
                    let w = parts[k as int];
                    assert(out@ =~= before + sepk + w);
                    let r = parts.subrange(k as int, n as int);
                    let r1 = parts.subrange(k + 1, n as int);
                    assert(r.drop_first() =~= r1);
                    assert(r[0] == w);
                    if k + 1 < n {
                        assert(join(r) == w + seq![','] + join(r1));
                    } else {
                        assert(join(r) == w);
                        assert(r1.len() == 0);
                    }
                    assert(out@ + (if 0 < k + 1 < n {
                        seq![',']
                    } else {
                        seq![]
                    }) + join(r1) =~= before + sepk + join(r));
                }
                k = k + 1;
            }
            assert(parts.subrange(0, n as int) =~= parts);
            write_lit(out, ")");
            write_lit(out, "{");
            let ghost mid2 = out@;
            let m = body.len();
            assert(bs.subrange(0, m as int) =~= bs);
            let mut k: usize = 0;
            while k < m
                invariant
                    m == body@.len(),
                    bs.len() == m,
                    forall|q: int| 0 <= q < m ==> #[trigger] bs[q] == body@[q].tree(),
                    k <= m,
                    out@ + stmts_text(bs.subrange(k as int, m as int)) == mid2 + stmts_text(bs),
                decreases m - k,
            {
                proof {
                    reveal_strlit(";");
                }
                let ghost before = out@;
                write_stmt(&body[k], out);
                write_lit(out, ";");
                proof {
                    let r = bs.subrange(k as int, m as int);
                    let r1 = bs.subrange(k + 1, m as int);
                    assert(r.drop_first() =~= r1);
                    assert(stmts_text(r) == stmt_text(bs[k as int]) + seq![';'] + stmts_text(r1));
                    assert(out@ + stmts_text(r1) =~= before + stmts_text(r));
                }
                k = k + 1;
            }
            assert(bs.subrange(0, m as int) =~= bs);
            assert(bs.subrange(m as int, m as int) =~= Seq::<Tree>::empty());
            write_lit(out, "}");
            assert(out@ =~= start + func_text(f.tree()));
        },
        _ => {
            assert(out@ =~= start + func_text(f.tree()));
        },
    }
}

/// The canonical text of an expression.
pub fn expr_source(e: &Expr) -> (r: String)
    ensures
        r@ == expr_text(e.tree()),
{
    let mut out = String::new();
    write_expr(e, &mut out);
    assert(out@ =~= expr_text(e.tree()));
    out
}

/// The canonical text of a program: its function definitions, one after another.
pub fn program_source(p: &Vec<Expr>) -> (r: String)
    ensures
        r@ == program_text(trees(p@)),
{
    let ghost ts = trees(p@);
    let mut out = String::new();
    let n = p.len();
    assert(ts.subrange(0, n as int) =~= ts);
    assert(out@ + program_text(ts) =~= program_text(ts));
    let mut k: usize = 0;
    while k < n
        invariant
            n == p@.len(),
            ts == trees(p@),
            k <= n,
            out@ + program_text(ts.subrange(k as int, n as int)) == program_text(ts),
        decreases n - k,
    {
        let ghost before = out@;
        write_func(&p[k], &mut out);
        proof {
            let r = ts.subrange(k as int, n as int);
            let r1 = ts.subrange(k + 1, n as int);
            assert(r.drop_first() =~= r1);
            assert(program_text(r) == func_text(ts[k as int]) + program_text(r1));
            assert(out@ + program_text(r1) =~= before + program_text(r));
        }
        k = k + 1;
    }
    assert(ts.subrange(n as int, n as int) =~= Seq::<Tree>::empty());
    assert(out@ + program_text(Seq::<Tree>::empty()) =~= out@);
    out
}

} // verus!

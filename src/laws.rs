//! What holds of the grammar and the canonical text together.
use vstd::prelude::*;
use crate::ast::Tree;
use crate::error::ParseError;
use crate::grammar::{
    at, at_fcn, digits_len, digits_value, is_digit, is_ident_char, is_ident_start, is_ws, kw_fcn,
    kw_ret, p_arg_list, p_args, p_atom, p_block, p_expr, p_func, p_funcs, p_ident, p_int,
    p_param_list, p_params, p_product, p_product_rest, p_program, p_stmt, p_stmts, p_str, p_sum,
    p_sum_rest, p_unary, skip_ws, text_len, word_at, word_end, word_len, ws_len,
};
use crate::printer::{
    args_text, binary_text, digit_char, expr_text, func_text, is_name, is_text, join, num_text,
    param_texts, program_text, stmt_text, stmts_text, wf_expr, wf_func, wf_param, wf_program,
    wf_stmt,
};

verus! {

broadcast use vstd::seq::group_seq_axioms;

/// `x` stands in `s` from position `i` on.
pub open spec fn occurs(s: Seq<char>, i: int, x: Seq<char>) -> bool {
    &&& 0 <= i
    &&& i + x.len() <= s.len()
    &&& forall|m: int| 0 <= m < x.len() ==> s[i + m] == #[trigger] x[m]
}

/// What may follow a unary expression in canonical text.
pub open spec fn ends_unary(s: Seq<char>, e: int) -> bool {
    e == s.len() || (0 <= e < s.len() && (s[e] == ')' || s[e] == ',' || s[e] == ';' || s[e]
        == '+' || s[e] == '-' || s[e] == '*' || s[e] == '/'))
}

/// What may follow an expression in canonical text.
pub open spec fn ends_expr(s: Seq<char>, e: int) -> bool {
    e == s.len() || (0 <= e < s.len() && (s[e] == ')' || s[e] == ',' || s[e] == ';'))
}

proof fn lemma_split(s: Seq<char>, i: int, a: Seq<char>, b: Seq<char>)
    requires
        occurs(s, i, a + b),
    ensures
        occurs(s, i, a),
        occurs(s, i + a.len(), b),
{
    assert forall|m: int| 0 <= m < a.len() implies s[i + m] == #[trigger] a[m] by {
        assert((a + b)[m] == a[m]);
    }
    assert forall|m: int| 0 <= m < b.len() implies s[i + a.len() + m] == #[trigger] b[m] by {
        assert((a + b)[a.len() + m] == b[m]);
        assert(i + a.len() + m == i + (a.len() + m));
    }
}

proof fn lemma_word_len(s: Seq<char>, i: int, n: int)
    requires
        0 <= i,
        0 <= n,
        i + n <= s.len(),
        forall|m: int| i <= m < i + n ==> is_ident_char(#[trigger] s[m]),
        !(i + n < s.len() && is_ident_char(s[i + n])),
    ensures
        word_len(s, i) == n,
    decreases n,
{
    if n > 0 {
        lemma_word_len(s, i + 1, n - 1);
    }
}

proof fn lemma_digits_len(s: Seq<char>, i: int, n: int)
    requires
        0 <= i,
        0 <= n,
        i + n <= s.len(),
        forall|m: int| i <= m < i + n ==> is_digit(#[trigger] s[m]),
        !(i + n < s.len() && is_digit(s[i + n])),
    ensures
        digits_len(s, i) == n,
    decreases n,
{
    if n > 0 {
        lemma_digits_len(s, i + 1, n - 1);
    }
}

proof fn lemma_text_len(s: Seq<char>, i: int, n: int)
    requires
        0 <= i,
        0 <= n,
        i + n <= s.len(),
        forall|m: int| i <= m < i + n ==> #[trigger] s[m] != '\\' && s[m] != '"',
        i + n < s.len() && s[i + n] == '"',
    ensures
        text_len(s, i) == n,
    decreases n,
{
    if n > 0 {
        lemma_text_len(s, i + 1, n - 1);
    }
}

/// A run of identifier characters not followed by another is read as one word.
proof fn lemma_word(s: Seq<char>, i: int, w: Seq<char>)
    requires
        forall|k: int| 0 <= k < w.len() ==> #[trigger] is_ident_char(w[k]),
        occurs(s, i, w),
        !(i + w.len() < s.len() && is_ident_char(s[i + w.len()])),
    ensures
        word_at(s, i) == w,
        word_end(s, i) == i + w.len(),
{
    assert forall|m: int| i <= m < i + w.len() implies is_ident_char(#[trigger] s[m]) by {
        assert(s[i + (m - i)] == w[m - i]);
    }
    lemma_word_len(s, i, w.len() as int);
    assert(word_at(s, i) =~= w);
}

/// A name in canonical text is read back as that identifier.
proof fn lemma_name(s: Seq<char>, i: int, w: Seq<char>)
    requires
        is_name(w),
        occurs(s, i, w),
        !(i + w.len() < s.len() && is_ident_char(s[i + w.len()])),
    ensures
        word_at(s, i) == w,
        word_end(s, i) == i + w.len(),
        is_ident_start(s[i]),
        p_ident(s, i) == Ok::<(Seq<char>, int), ParseError>((w, skip_ws(s, i + w.len()))),
{
    assert(s[i + 0] == w[0]);
    lemma_word(s, i, w);
}

proof fn lemma_num_digits(n: nat)
    ensures
        num_text(n).len() > 0,
        forall|m: int| 0 <= m < num_text(n).len() ==> is_digit(#[trigger] num_text(n)[m]),
    decreases n,
{
    if n >= 10 {
        lemma_num_digits(n / 10);
    }
}

proof fn lemma_num_value(s: Seq<char>, i: int, n: nat)
    requires
        occurs(s, i, num_text(n)),
    ensures
        digits_value(s, i, i + num_text(n).len()) == n,
    decreases n,
{
    if n < 10 {
        assert(s[i + 0] == num_text(n)[0]);
        assert(digits_value(s, i, i) == 0);
    } else {
        let a = num_text(n / 10);
        let d = digit_char((n % 10) as int);
        lemma_split(s, i, a, seq![d]);
        lemma_num_value(s, i, n / 10);
        assert(s[i + a.len() + 0] == seq![d][0]);
        assert(s[i + a.len()] == d);
        assert(n == (n / 10) * 10 + n % 10);
    }
}

/// The first character of canonical text is never whitespace.
proof fn lemma_text_start(t: Tree)
    requires
        wf_expr(t),
    ensures
        expr_text(t).len() > 0,
        !is_ws(expr_text(t)[0]),
        expr_text(t)[0] != ')',
        expr_text(t)[0] != '}',
{
    match t {
        Tree::Int(n) => {
            lemma_num_digits(n as nat);
        },
        Tree::Call(f, xs) => {
            assert(is_name((*f)->Var_0));
        },
        _ => {},
    }
}

spec fn n_args(t: Tree) -> int {
    match t {
        Tree::Call(_, xs) => xs.len() as int,
        _ => 0,
    }
}

proof fn lemma_int(s: Seq<char>, i: int, n: int)
    requires
        0 <= n <= i64::MAX as int,
        occurs(s, i, num_text(n as nat)),
        ends_unary(s, i + num_text(n as nat).len()),
    ensures
        p_unary(s, i) == Ok::<(Tree, int), ParseError>((Tree::Int(n), i + num_text(n as nat).len())),
{
    let x = num_text(n as nat);
    let e = i + x.len();
    lemma_num_digits(n as nat);
    assert forall|m: int| i <= m < i + x.len() implies is_digit(#[trigger] s[m]) by {
        assert(s[i + (m - i)] == x[m - i]);
    }
    lemma_digits_len(s, i, x.len() as int);
    lemma_num_value(s, i, n as nat);
    assert(is_digit(s[i]));
    assert(!at(s, i, '-'));
    assert(skip_ws(s, e) == e);
    assert(p_int(s, i) == Ok::<(Tree, int), ParseError>((Tree::Int(n), e)));
    assert(p_atom(s, i) == p_int(s, i));
}

proof fn lemma_str(s: Seq<char>, i: int, w: Seq<char>)
    requires
        is_text(w),
        occurs(s, i, seq!['"'] + w + seq!['"']),
        ends_unary(s, i + w.len() + 2),
    ensures
        p_unary(s, i) == Ok::<(Tree, int), ParseError>((Tree::Str(w), i + w.len() + 2)),
{
    lemma_split(s, i, seq!['"'] + w, seq!['"']);
    lemma_split(s, i, seq!['"'], w);
    assert(s[i + 0] == seq!['"'][0]);
    assert(s[i + 1 + w.len() + 0] == seq!['"'][0]);
    assert forall|m: int| i + 1 <= m < i + 1 + w.len() implies #[trigger] s[m] != '\\' && s[m]
        != '"' by {
        assert(s[i + 1 + (m - i - 1)] == w[m - i - 1]);
    }
    lemma_text_len(s, i + 1, w.len() as int);
    assert(s.subrange(i + 1, i + 1 + w.len()) =~= w);
    assert(!is_digit(s[i]));
    assert(!at(s, i, '-'));
    assert(p_atom(s, i) == p_str(s, i));
    assert(skip_ws(s, i + w.len() + 2) == i + w.len() + 2);
    assert(p_str(s, i) == Ok::<(Tree, int), ParseError>((Tree::Str(w), i + w.len() + 2)));
}

/// The text of the arguments `xs[k..]` starts as that of `xs[k]`.
proof fn lemma_args_start(xs: Seq<Tree>, k: int)
    requires
        0 <= k < xs.len(),
        wf_expr(xs[k]),
    ensures
        args_text(xs, k).len() > 0,
        args_text(xs, k)[0] == expr_text(xs[k])[0],
        !is_ws(args_text(xs, k)[0]),
{
    lemma_text_start(xs[k]);
}

/// A well-formed expression in canonical text is read back as itself at the
/// level of unary expressions.
proof fn lemma_unary(s: Seq<char>, i: int, t: Tree)
    requires
        wf_expr(t),
        occurs(s, i, expr_text(t)),
        ends_unary(s, i + expr_text(t).len()),
    ensures
        p_unary(s, i) == Ok::<(Tree, int), ParseError>((t, i + expr_text(t).len())),
    decreases t, n_args(t) + 3,
{
    lemma_text_start(t);
    assert(s[i + 0] == expr_text(t)[0]);
    match t {
        Tree::Int(n) => {
            assert(expr_text(t) == num_text(n as nat));
            lemma_int(s, i, n);
            assert(p_unary(s, i) == Ok::<(Tree, int), ParseError>((t, i + expr_text(t).len())));
        },
        Tree::Str(w) => {
            lemma_str(s, i, w);
            assert(p_unary(s, i) == Ok::<(Tree, int), ParseError>((t, i + expr_text(t).len())));
        },
        Tree::Var(w) => {
            lemma_name(s, i, w);
            assert(skip_ws(s, i + w.len()) == i + w.len());
            assert(!at(s, i, '-'));
            assert(!is_digit(s[i]));
            assert(p_unary(s, i) == p_atom(s, i));
            assert(p_unary(s, i) == Ok::<(Tree, int), ParseError>((t, i + expr_text(t).len())));
        },
        Tree::Neg(a) => {
            lemma_split(s, i, seq!['-'], expr_text(*a));
            lemma_text_start(*a);
            assert(s[i + 1 + 0] == expr_text(*a)[0]);
            lemma_unary(s, i + 1, *a);
            assert(p_unary(s, i) == Ok::<(Tree, int), ParseError>((t, i + expr_text(t).len())));
        },
        Tree::Call(_, _) => {
            lemma_call(s, i, t);
        },
        Tree::Add(a, b) => {
            lemma_binary(s, i, t, *a, *b, '+');
        },
        Tree::Sub(a, b) => {
            lemma_binary(s, i, t, *a, *b, '-');
        },
        Tree::Mul(a, b) => {
            lemma_binary(s, i, t, *a, *b, '*');
        },
        Tree::Div(a, b) => {
            lemma_binary(s, i, t, *a, *b, '/');
        },
        _ => {},
    }
}

proof fn lemma_call(s: Seq<char>, i: int, t: Tree)
    requires
        wf_expr(t),
        t is Call,
        occurs(s, i, expr_text(t)),
        ends_unary(s, i + expr_text(t).len()),
    ensures
        p_unary(s, i) == Ok::<(Tree, int), ParseError>((t, i + expr_text(t).len())),
    decreases t, n_args(t) + 2,
{
    let f = *t->Call_0;
    let xs = t->Call_1;
    let w = f->Var_0;
    let x = expr_text(t);
    let e = i + x.len();
    let a = args_text(xs, 0);
    assert(x == w + seq!['('] + a + seq![')']);
    assert(x =~= (w + seq!['(']) + (a + seq![')']));
    lemma_split(s, i, w + seq!['('], a + seq![')']);
    lemma_split(s, i, w, seq!['(']);
    let j = i + w.len();
    assert(s[j + 0] == seq!['('][0]);
    lemma_name(s, i, w);
    assert(skip_ws(s, j) == j);
    assert(at(s, j, '('));
    assert(!at(s, i, '-'));
    if xs.len() == 0 {
        assert(a =~= seq![]);
        assert(xs =~= seq![]);
        assert(s[j + 1 + 0] == (a + seq![')'])[0]);
        assert(skip_ws(s, j + 1) == j + 1);
        assert(skip_ws(s, j + 2) == e);
        assert(p_args(s, j + 1) == Ok::<(Seq<Tree>, int), ParseError>((xs, e)));
    } else {
        assert(wf_expr(xs[0]));
        lemma_args_start(xs, 0);
        assert(s[j + 1 + 0] == (a + seq![')'])[0]);
        assert(skip_ws(s, j + 1) == j + 1);
        lemma_args(s, j + 1, t, 0);
        assert(xs.subrange(0, xs.len() as int) =~= xs);
        assert(p_args(s, j + 1) == Ok::<(Seq<Tree>, int), ParseError>((xs, e)));
    }
    assert(p_atom(s, i) == Ok::<(Tree, int), ParseError>((t, e)));
}

/// The binary node for the operator `op`.
spec fn binary(op: char, a: Tree, b: Tree) -> Tree {
    if op == '+' {
        Tree::Add(Box::new(a), Box::new(b))
    } else if op == '-' {
        Tree::Sub(Box::new(a), Box::new(b))
    } else if op == '*' {
        Tree::Mul(Box::new(a), Box::new(b))
    } else {
        Tree::Div(Box::new(a), Box::new(b))
    }
}

#[verifier::spinoff_prover]
#[verifier::rlimit(60)]
proof fn lemma_binary(s: Seq<char>, i: int, t: Tree, a: Tree, b: Tree, op: char)
    requires
        op == '+' || op == '-' || op == '*' || op == '/',
        t == binary(op, a, b),
        wf_expr(a),
        wf_expr(b),
        expr_text(t) == binary_text(expr_text(a), op, expr_text(b)),
        occurs(s, i, expr_text(t)),
        ends_unary(s, i + expr_text(t).len()),
    ensures
        p_unary(s, i) == Ok::<(Tree, int), ParseError>((t, i + expr_text(t).len())),
    decreases t, 1int,
{
    let ta = expr_text(a);
    let tb = expr_text(b);
    let x = expr_text(t);
    lemma_split(s, i, seq!['('] + ta + seq![op] + tb, seq![')']);
    lemma_split(s, i, seq!['('] + ta + seq![op], tb);
    lemma_split(s, i, seq!['('] + ta, seq![op]);
    lemma_split(s, i, seq!['('], ta);
    let i1 = i + 1;
    let j = i1 + ta.len();
    let j1 = j + 1;
    let k = j1 + tb.len();
    let e = k + 1;
    assert(x.len() == e - i);
    assert(s[i + 0] == seq!['('][0]);
    assert(s[j + 0] == seq![op][0]);
    assert(s[k + 0] == seq![')'][0]);
    lemma_text_start(a);
    lemma_text_start(b);
    assert(s[i1 + 0] == ta[0]);
    assert(s[j1 + 0] == tb[0]);
    lemma_unary(s, i1, a);
    lemma_unary(s, j1, b);
    assert(skip_ws(s, i + 1) == i1);
    assert(skip_ws(s, j + 1) == j1);
    assert(skip_ws(s, k + 1) == e);
    assert(p_product_rest(s, k, b) == Ok::<(Tree, int), ParseError>((b, k)));
    assert(p_product(s, j1) == Ok::<(Tree, int), ParseError>((b, k)));
    if op == '+' || op == '-' {
        assert(p_product_rest(s, j, a) == Ok::<(Tree, int), ParseError>((a, j)));
        assert(p_product(s, i1) == Ok::<(Tree, int), ParseError>((a, j)));
        assert(p_sum_rest(s, k, t) == Ok::<(Tree, int), ParseError>((t, k)));
        assert(p_sum_rest(s, j, a) == Ok::<(Tree, int), ParseError>((t, k)));
    } else {
        assert(p_product_rest(s, k, t) == Ok::<(Tree, int), ParseError>((t, k)));
        assert(p_product_rest(s, j, a) == Ok::<(Tree, int), ParseError>((t, k)));
        assert(p_product(s, i1) == Ok::<(Tree, int), ParseError>((t, k)));
        assert(p_sum_rest(s, k, t) == Ok::<(Tree, int), ParseError>((t, k)));
    }
    assert(p_sum(s, i1) == Ok::<(Tree, int), ParseError>((t, k)));
    assert(p_expr(s, i1) == Ok::<(Tree, int), ParseError>((t, k)));
    assert(p_atom(s, i) == Ok::<(Tree, int), ParseError>((t, e)));
}

/// The arguments of a call, from the `k`-th on, in canonical text.
proof fn lemma_args(s: Seq<char>, p: int, t: Tree, k: int)
    requires
        wf_expr(t),
        t is Call,
        0 <= k < t->Call_1.len(),
        occurs(s, p, args_text(t->Call_1, k) + seq![')']),
        ends_unary(s, p + args_text(t->Call_1, k).len() + 1),
    ensures
        p_arg_list(s, p) == Ok::<(Seq<Tree>, int), ParseError>(
            (
                t->Call_1.subrange(k, t->Call_1.len() as int),
                p + args_text(t->Call_1, k).len() + 1,
            ),
        ),
    decreases t, n_args(t) - k,
{
    let xs = t->Call_1;
    let n = xs.len() as int;
    let y = xs[k];
    assert(wf_expr(y));
    let ty = expr_text(y);
    let q = p + ty.len();
    if k == n - 1 {
        assert(args_text(xs, k) == ty);
        lemma_split(s, p, ty, seq![')']);
        assert(s[q + 0] == seq![')'][0]);
        lemma_expr(s, p, y);
        assert(skip_ws(s, q + 1) == q + 1);
        assert(xs.subrange(k, n) =~= seq![y]);
    } else {
        let rest = args_text(xs, k + 1);
        assert(args_text(xs, k) == ty + seq![','] + rest);
        assert(args_text(xs, k) + seq![')'] =~= (ty + seq![',']) + (rest + seq![')']));
        lemma_split(s, p, ty + seq![','], rest + seq![')']);
        lemma_split(s, p, ty, seq![',']);
        assert(s[q + 0] == seq![','][0]);
        lemma_expr(s, p, y);
        assert(wf_expr(xs[k + 1]));
        lemma_args_start(xs, k + 1);
        assert(s[q + 1 + 0] == (rest + seq![')'])[0]);
        assert(skip_ws(s, q + 1) == q + 1);
        lemma_args(s, q + 1, t, k + 1);
        assert(seq![y] + xs.subrange(k + 1, n) =~= xs.subrange(k, n));
    }
}

/// A well-formed expression in canonical text, followed by `)`, `,`, `;` or
/// the end of the input, is read back as itself.
proof fn lemma_expr(s: Seq<char>, i: int, t: Tree)
    requires
        wf_expr(t),
        occurs(s, i, expr_text(t)),
        ends_expr(s, i + expr_text(t).len()),
    ensures
        p_expr(s, i) == Ok::<(Tree, int), ParseError>((t, i + expr_text(t).len())),
    decreases t, n_args(t) + 4,
{
    let e = i + expr_text(t).len();
    lemma_unary(s, i, t);
    assert(p_product_rest(s, e, t) == Ok::<(Tree, int), ParseError>((t, e)));
    assert(p_product(s, i) == Ok::<(Tree, int), ParseError>((t, e)));
    assert(p_sum_rest(s, e, t) == Ok::<(Tree, int), ParseError>((t, e)));
    assert(p_sum(s, i) == Ok::<(Tree, int), ParseError>((t, e)));
}

/// Every well-formed expression, written out in canonical text, is read back
/// as itself, and the whole text is consumed.
pub proof fn law_expression_text_parses_back(t: Tree)
    requires
        wf_expr(t),
    ensures
        skip_ws(expr_text(t), 0) == 0,
        p_expr(expr_text(t), 0) == Ok::<(Tree, int), ParseError>((t, expr_text(t).len() as int)),
{
    let s = expr_text(t);
    lemma_text_start(t);
    lemma_expr(s, 0, t);
}

/// The first character of a statement's canonical text.
proof fn lemma_stmt_start(t: Tree)
    requires
        wf_stmt(t),
    ensures
        stmt_text(t).len() > 0,
        !is_ws(stmt_text(t)[0]),
        stmt_text(t)[0] != '}',
{
    match t {
        Tree::Assign { name, typ, rhs } => {
            assert(is_name((*typ)->Type_0));
        },
        Tree::Return { value } => {},
        _ => {
            lemma_text_start(t);
        },
    }
}

proof fn lemma_decl(s: Seq<char>, i: int, t: Tree)
    requires
        wf_stmt(t),
        t is Assign,
        occurs(s, i, stmt_text(t)),
        i + stmt_text(t).len() < s.len(),
        s[i + stmt_text(t).len()] == ';',
    ensures
        p_stmt(s, i) == Ok::<(Tree, int), ParseError>((t, i + stmt_text(t).len())),
{
    reveal(p_stmt);
    let name = t->Assign_name;
    let typ = t->Assign_typ;
    let rhs = t->Assign_rhs;
    let tt = (*typ)->Type_0;
    let nn = (*name)->Var_0;
    let te = expr_text(*rhs);
    lemma_split(s, i, tt + seq![' '] + nn + seq!['='], te);
    lemma_split(s, i, tt + seq![' '] + nn, seq!['=']);
    lemma_split(s, i, tt + seq![' '], nn);
    lemma_split(s, i, tt, seq![' ']);
    let k0 = i + tt.len();
    let k = k0 + 1;
    let m0 = k + nn.len();
    let m = m0 + 1;
    assert(s[k0 + 0] == seq![' '][0]);
    assert(s[m0 + 0] == seq!['='][0]);
    assert(s[k + 0] == nn[0]);
    lemma_text_start(*rhs);
    assert(s[m + 0] == te[0]);
    lemma_name(s, i, tt);
    lemma_name(s, k, nn);
    assert(ws_len(s, k) == 0);
    assert(skip_ws(s, k0) == k);
    assert(skip_ws(s, m0) == m0);
    assert(skip_ws(s, m) == m);
    lemma_expr(s, m, *rhs);
    assert(*name == Tree::Var(nn));
    assert(*typ == Tree::Type(tt));
}

proof fn lemma_return(s: Seq<char>, i: int, t: Tree)
    requires
        wf_stmt(t),
        t is Return,
        occurs(s, i, stmt_text(t)),
        i + stmt_text(t).len() < s.len(),
        s[i + stmt_text(t).len()] == ';',
    ensures
        p_stmt(s, i) == Ok::<(Tree, int), ParseError>((t, i + stmt_text(t).len())),
{
    reveal(p_stmt);
    let value = t->Return_value;
    let te = expr_text(*value);
    lemma_split(s, i, seq!['r', 'e', 't', ' '], te);
    assert(seq!['r', 'e', 't', ' '] =~= kw_ret() + seq![' ']);
    lemma_split(s, i, kw_ret(), seq![' ']);
    assert(s[i + 3 + 0] == seq![' '][0]);
    lemma_word(s, i, kw_ret());
    assert(s[i + 0] == kw_ret()[0]);
    lemma_text_start(*value);
    assert(s[i + 4 + 0] == te[0]);
    assert(ws_len(s, i + 4) == 0);
    assert(skip_ws(s, i + 3) == i + 4);
    lemma_expr(s, i + 4, *value);
}

#[verifier::spinoff_prover]
proof fn lemma_expr_stmt(s: Seq<char>, i: int, t: Tree)
    requires
        wf_expr(t),
        occurs(s, i, expr_text(t)),
        i + expr_text(t).len() < s.len(),
        s[i + expr_text(t).len()] == ';',
    ensures
        p_stmt(s, i) == Ok::<(Tree, int), ParseError>((t, i + expr_text(t).len())),
{
    reveal(p_stmt);
    let x = expr_text(t);
    let q = i + x.len();
    lemma_text_start(t);
    lemma_expr(s, i, t);
    assert(s[i + 0] == x[0]);
    match t {
        Tree::Var(w) => {
            lemma_name(s, i, w);
            assert(skip_ws(s, q) == q);
        },
        Tree::Call(f, xs) => {
            let w = (*f)->Var_0;
            let rest = seq!['('] + args_text(xs, 0) + seq![')'];
            assert(x =~= w + rest);
            lemma_split(s, i, w, rest);
            assert(s[i + w.len() + 0] == rest[0]);
            lemma_name(s, i, w);
            assert(skip_ws(s, i + w.len()) == i + w.len());
        },
        _ => {},
    }
}

/// A well-formed statement in canonical text, followed by `;`, is read back
/// as itself.
proof fn lemma_stmt(s: Seq<char>, i: int, t: Tree)
    requires
        wf_stmt(t),
        occurs(s, i, stmt_text(t)),
        i + stmt_text(t).len() < s.len(),
        s[i + stmt_text(t).len()] == ';',
    ensures
        p_stmt(s, i) == Ok::<(Tree, int), ParseError>((t, i + stmt_text(t).len())),
{
    match t {
        Tree::Assign { .. } => lemma_decl(s, i, t),
        Tree::Return { .. } => lemma_return(s, i, t),
        _ => lemma_expr_stmt(s, i, t),
    }
}

/// The statements `ts` in canonical text, followed by `}`, are read back as
/// themselves.
proof fn lemma_stmts(s: Seq<char>, i: int, ts: Seq<Tree>)
    requires
        forall|k: int| 0 <= k < ts.len() ==> wf_stmt(#[trigger] ts[k]),
        occurs(s, i, stmts_text(ts) + seq!['}']),
        !(i + stmts_text(ts).len() + 1 < s.len() && is_ws(s[i + stmts_text(ts).len() + 1])),
    ensures
        p_stmts(s, i) == Ok::<(Seq<Tree>, int), ParseError>(
            (ts, i + stmts_text(ts).len() + 1),
        ),
    decreases ts.len(),
{
    let x = stmts_text(ts);
    if ts.len() == 0 {
        assert(s[i + 0] == (x + seq!['}'])[0]);
        assert(ts =~= seq![]);
    } else {
        let st = stmt_text(ts[0]);
        let rest = ts.drop_first();
        let rt = stmts_text(rest);
        assert(x + seq!['}'] =~= (st + seq![';']) + (rt + seq!['}']));
        lemma_split(s, i, st + seq![';'], rt + seq!['}']);
        lemma_split(s, i, st, seq![';']);
        let q = i + st.len();
        assert(s[q + 0] == seq![';'][0]);
        assert(wf_stmt(ts[0]));
        lemma_stmt_start(ts[0]);
        assert(s[i + 0] == st[0]);
        lemma_stmt(s, i, ts[0]);
        if rest.len() > 0 {
            assert(wf_stmt(rest[0]));
            lemma_stmt_start(rest[0]);
            assert(rt[0] == stmt_text(rest[0])[0]);
        }
        assert(s[q + 1 + 0] == (rt + seq!['}'])[0]);
        assert(skip_ws(s, q + 1) == q + 1);
        lemma_stmts(s, q + 1, rest);
        assert(seq![ts[0]] + rest =~= ts);
    }
}

/// The parameters `ps` in canonical text, followed by `)`, are read back as
/// themselves.
proof fn lemma_params(s: Seq<char>, i: int, ps: Seq<Tree>)
    requires
        ps.len() > 0,
        forall|k: int| 0 <= k < ps.len() ==> wf_param(#[trigger] ps[k]),
        occurs(s, i, join(param_texts(ps)) + seq![')']),
        !(i + join(param_texts(ps)).len() + 1 < s.len() && is_ws(
            s[i + join(param_texts(ps)).len() + 1],
        )),
    ensures
        p_param_list(s, i) == Ok::<(Seq<Tree>, int), ParseError>(
            (ps, i + join(param_texts(ps)).len() + 1),
        ),
    decreases ps.len(),
{
    let parts = param_texts(ps);
    let w = ps[0]->Var_0;
    assert(wf_param(ps[0]));
    assert(parts[0] == w);
    assert(ps[0] == Tree::Var(w));
    let j = i + w.len();
    if ps.len() == 1 {
        assert(join(parts) == w);
        lemma_split(s, i, w, seq![')']);
        assert(s[j + 0] == seq![')'][0]);
        lemma_name(s, i, w);
        assert(skip_ws(s, j) == j);
        assert(skip_ws(s, j + 1) == j + 1);
        assert(ps =~= seq![Tree::Var(w)]);
    } else {
        let rest = ps.drop_first();
        assert(parts.drop_first() =~= param_texts(rest));
        let rj = join(param_texts(rest));
        assert(join(parts) == w + seq![','] + rj);
        assert(join(parts) + seq![')'] =~= (w + seq![',']) + (rj + seq![')']));
        lemma_split(s, i, w + seq![','], rj + seq![')']);
        lemma_split(s, i, w, seq![',']);
        assert(s[j + 0] == seq![','][0]);
        lemma_name(s, i, w);
        assert(skip_ws(s, j) == j);
        assert(wf_param(rest[0]));
        assert(param_texts(rest)[0] == rest[0]->Var_0);
        assert(rj[0] == rest[0]->Var_0[0]);
        assert(s[j + 1 + 0] == (rj + seq![')'])[0]);
        assert(skip_ws(s, j + 1) == j + 1);
        lemma_params(s, j + 1, rest);
        assert(seq![Tree::Var(w)] + rest =~= ps);
    }
}

/// A well-formed function definition in canonical text is read back as itself.
#[verifier::spinoff_prover]
#[verifier::rlimit(60)]
proof fn lemma_func(s: Seq<char>, i: int, f: Tree)
    requires
        wf_func(f),
        occurs(s, i, func_text(f)),
        !(i + func_text(f).len() < s.len() && is_ws(s[i + func_text(f).len()])),
    ensures
        at_fcn(s, i),
        p_func(s, i) == Ok::<(Tree, int), ParseError>((f, i + func_text(f).len())),
{
    reveal(p_func);
    let name = f->Func_name;
    let return_type = f->Func_return_type;
    let ps = f->Func_args;
    let body = f->Func_body;
    let tt = (*return_type)->Type_0;
    let nn = (*name)->Var_0;
    let jp = join(param_texts(ps));
    let tb = stmts_text(body);
    let kw = seq!['f', 'c', 'n', ' '];
    let x1 = kw + tt;
    let x2 = x1 + seq![' '];
    let x3 = x2 + nn;
    let x4 = x3 + seq!['('];
    let x5 = x4 + jp;
    let x6 = x5 + seq![')'];
    let x7 = x6 + seq!['{'];
    let x8 = x7 + tb;
    assert(func_text(f) == x8 + seq!['}']);
    lemma_split(s, i, x8, seq!['}']);
    lemma_split(s, i, x7, tb);
    lemma_split(s, i, x6, seq!['{']);
    lemma_split(s, i, x5, seq![')']);
    lemma_split(s, i, x4, jp);
    lemma_split(s, i, x3, seq!['(']);
    lemma_split(s, i, x2, nn);
    lemma_split(s, i, x1, seq![' ']);
    lemma_split(s, i, kw, tt);
    assert(kw =~= kw_fcn() + seq![' ']);
    lemma_split(s, i, kw_fcn(), seq![' ']);
    let t0 = i + 4;
    let n0 = t0 + tt.len() + 1;
    let o = n0 + nn.len();
    let j0 = o + 1;
    let c = j0 + jp.len();
    let b0 = c + 1;
    let b1 = b0 + 1;
    let z = b1 + tb.len();
    assert(s[i + 3 + 0] == seq![' '][0]);
    assert(s[t0 + tt.len() + 0] == seq![' '][0]);
    assert(s[o + 0] == seq!['('][0]);
    assert(s[c + 0] == seq![')'][0]);
    assert(s[b0 + 0] == seq!['{'][0]);
    assert(s[z + 0] == seq!['}'][0]);
    assert(s[t0 + 0] == tt[0]);
    assert(s[n0 + 0] == nn[0]);
    lemma_word(s, i, kw_fcn());
    assert(s[i + 0] == kw_fcn()[0]);
    assert(ws_len(s, t0) == 0);
    assert(skip_ws(s, i + 3) == t0);
    lemma_name(s, t0, tt);
    assert(ws_len(s, n0) == 0);
    assert(skip_ws(s, t0 + tt.len()) == n0);
    lemma_name(s, n0, nn);
    assert(skip_ws(s, o) == o);
    assert(skip_ws(s, c + 1) == b0);
    if ps.len() == 0 {
        assert(jp =~= seq![]);
        assert(ps =~= seq![]);
        assert(skip_ws(s, j0) == j0);
        assert(p_params(s, j0) == Ok::<(Seq<Tree>, int), ParseError>((ps, b0)));
    } else {
        assert(wf_param(ps[0]));
        assert(param_texts(ps)[0] == ps[0]->Var_0);
        assert(jp[0] == ps[0]->Var_0[0]);
        assert(s[j0 + 0] == jp[0]);
        assert(skip_ws(s, j0) == j0);
        lemma_params(s, j0, ps);
        assert(p_params(s, j0) == Ok::<(Seq<Tree>, int), ParseError>((ps, b0)));
    }
    if body.len() > 0 {
        assert(wf_stmt(body[0]));
        lemma_stmt_start(body[0]);
        assert(tb[0] == stmt_text(body[0])[0]);
        assert(s[b1 + 0] == tb[0]);
    }
    assert(skip_ws(s, b1) == b1);
    lemma_stmts(s, b1, body);
    assert(p_block(s, b0) == Ok::<(Seq<Tree>, int), ParseError>((body, z + 1)));
    assert(*name == Tree::Var(nn));
    assert(*return_type == Tree::Type(tt));
}

/// The function definitions `p` in canonical text, up to the end of the
/// input, are read back as themselves.
proof fn lemma_funcs(s: Seq<char>, i: int, p: Seq<Tree>)
    requires
        wf_program(p),
        occurs(s, i, program_text(p)),
        i + program_text(p).len() == s.len(),
    ensures
        p_funcs(s, i) == Ok::<Seq<Tree>, ParseError>(p),
    decreases p.len(),
{
    if p.len() == 0 {
        assert(p =~= seq![]);
    } else {
        let ft = func_text(p[0]);
        let rest = p.drop_first();
        let rt = program_text(rest);
        lemma_split(s, i, ft, rt);
        assert(wf_func(p[0]));
        assert(wf_program(rest));
        if rest.len() > 0 {
            assert(wf_func(rest[0]));
            assert(rt[0] == func_text(rest[0])[0]);
            assert(s[i + ft.len() + 0] == rt[0]);
        }
        lemma_func(s, i, p[0]);
        lemma_funcs(s, i + ft.len(), rest);
        assert(seq![p[0]] + rest =~= p);
    }
}

/// Every well-formed program, written out in canonical text, is read back as
/// itself: it is accepted, and its function definitions come back in the
/// order in which they stand in the text.
pub proof fn law_program_text_parses_back(p: Seq<Tree>)
    requires
        wf_program(p),
    ensures
        p_program(program_text(p)) == Ok::<Seq<Tree>, ParseError>(p),
{
    let s = program_text(p);
    if p.len() > 0 {
        assert(wf_func(p[0]));
        assert(s[0] == func_text(p[0])[0]);
    }
    assert(skip_ws(s, 0) == 0);
    lemma_funcs(s, 0, p);
}

/// Printing depends on the tree alone: two programs with the same model get
/// the same canonical text, character for character.
pub proof fn law_printing_is_deterministic(a: Seq<Tree>, b: Seq<Tree>)
    requires
        a == b,
    ensures
        program_text(a) == program_text(b),
{
}

/// Printing a well-formed program, parsing the text and printing the result
/// again gives back the text that was printed first.
pub proof fn law_reprinting_is_stable(p: Seq<Tree>)
    requires
        wf_program(p),
    ensures
        p_program(program_text(p)) is Ok,
        program_text(p_program(program_text(p))->Ok_0) == program_text(p),
{
    law_program_text_parses_back(p);
}

} // verus!

//! The executable parser, proved to agree with the grammar in `grammar`.
use vstd::prelude::*;
use vstd::string::*;
use crate::ast::{Expr, Lit, Tree, trees, boxed_trees};
use crate::error::{Expected, ParseError};
use crate::grammar::{
    is_ws, is_digit, is_ident_start, char_at, at, remaining, digits_len, skip_ws, word_end,
    digits_end, text_end, digits_value, kw_return, is_keyword, unexpected, expect, expect_close,
    p_ident, p_int, p_str, p_expr, p_sum, p_sum_rest, p_product, p_product_rest, p_unary,
    p_atom, p_args, p_arg_list, p_stmt, p_stmts, p_block, p_param_list, p_params, p_func,
    p_funcs, p_program, PResult,
};

verus! {

broadcast use vstd::std_specs::vec::group_vec_axioms;

/// `r` is the executable form of the grammar's answer `t`.
pub open spec fn agrees(r: Result<(Expr, usize), ParseError>, t: PResult<Tree>) -> bool {
    match r {
        Ok((e, j)) => t == Ok::<(Tree, int), ParseError>((e.tree(), j as int)),
        Err(x) => t == Err::<(Tree, int), ParseError>(x),
    }
}

/// `r` is the executable form of the grammar's answer `t`, for a list of nodes.
pub open spec fn agrees_all(
    r: Result<(Vec<Expr>, usize), ParseError>,
    t: PResult<Seq<Tree>>,
) -> bool {
    match r {
        Ok((v, j)) => t == Ok::<(Seq<Tree>, int), ParseError>((trees(v@), j as int)),
        Err(x) => t == Err::<(Seq<Tree>, int), ParseError>(x),
    }
}

/// On success, the parse ended after `i` and within the input.
pub open spec fn advanced<T>(r: Result<(T, usize), ParseError>, i: usize, n: int) -> bool {
    match r {
        Ok((_, j)) => i < j <= n,
        Err(_) => true,
    }
}

/// The answer `t` with the nodes `pre` put in front of the nodes it found.
pub open spec fn prefixed(pre: Seq<Tree>, t: PResult<Seq<Tree>>) -> PResult<Seq<Tree>> {
    match t {
        Ok((xs, j)) => Ok((pre + xs, j)),
        Err(e) => Err(e),
    }
}

fn is_ws_char(c: char) -> (b: bool)
    ensures
        b == is_ws(c),
{
    c == ' ' || c == '\t' || c == '\n' || c == '\r' || c == '\x0C'
}

fn is_digit_char(c: char) -> (b: bool)
    ensures
        b == is_digit(c),
{
    '0' <= c && c <= '9'
}

fn is_ident_start_char(c: char) -> (b: bool)
    ensures
        b == is_ident_start(c),
{
    ('a' <= c && c <= 'z') || ('A' <= c && c <= 'Z') || c == '_'
}

fn is_at(cs: &Vec<char>, i: usize, c: char) -> (b: bool)
    ensures
        b == at(cs@, i as int, c),
        b ==> i < cs.len(),
{
    i < cs.len() && cs[i] == c
}

fn char_at_pos(cs: &Vec<char>, i: usize) -> (r: Option<char>)
    ensures
        r == char_at(cs@, i as int),
{
    if i < cs.len() {
        Some(cs[i])
    } else {
        None
    }
}

fn unexpected_at(cs: &Vec<char>, i: usize, expected: Expected) -> (e: ParseError)
    ensures
        e == unexpected(cs@, i as int, expected),
{
    ParseError::UnexpectedToken { expected, found: char_at_pos(cs, i), pos: i }
}

fn skip_ws_from(cs: &Vec<char>, i: usize) -> (j: usize)
    requires
        i <= cs@.len(),
    ensures
        j == skip_ws(cs@, i as int),
        i <= j <= cs@.len(),
{
    let mut j = i;
    while j < cs.len() && is_ws_char(cs[j])
        invariant
            i <= j <= cs@.len(),
            skip_ws(cs@, j as int) == skip_ws(cs@, i as int),
        decreases cs@.len() - j,
    {
        j = j + 1;
    }
    j
}

fn word_end_from(cs: &Vec<char>, i: usize) -> (j: usize)
    requires
        i <= cs@.len(),
    ensures
        j == word_end(cs@, i as int),
        i <= j <= cs@.len(),
{
    let mut j = i;
    while j < cs.len() && (is_ident_start_char(cs[j]) || is_digit_char(cs[j]))
        invariant
            i <= j <= cs@.len(),
            word_end(cs@, j as int) == word_end(cs@, i as int),
        decreases cs@.len() - j,
    {
        j = j + 1;
    }
    j
}

fn text_end_from(cs: &Vec<char>, i: usize) -> (j: usize)
    requires
        i <= cs@.len(),
    ensures
        j == text_end(cs@, i as int),
        i <= j <= cs@.len(),
{
    let mut j = i;
    while j < cs.len() && cs[j] != '\\' && cs[j] != '"'
        invariant
            i <= j <= cs@.len(),
            text_end(cs@, j as int) == text_end(cs@, i as int),
        decreases cs@.len() - j,
    {
        j = j + 1;
    }
    j
}

/// Whether the word `s[i..e]` is the three characters `a`, `b`, `c`.
fn word_is3(cs: &Vec<char>, i: usize, e: usize, a: char, b: char, c: char) -> (r: bool)
    requires
        i <= e <= cs@.len(),
    ensures
        r == (cs@.subrange(i as int, e as int) == seq![a, b, c]),
{
    let r = e - i == 3 && cs[i] == a && cs[i + 1] == b && cs[i + 2] == c;
    proof {
        let w = cs@.subrange(i as int, e as int);
        if r {
            assert(w =~= seq![a, b, c]);
        } else if w == seq![a, b, c] {
            assert(w.len() == 3 && w[0] == a && w[1] == b && w[2] == c);
        }
    }
    r
}

/// Whether the word `s[i..e]` is `return`.
fn word_is_return(cs: &Vec<char>, i: usize, e: usize) -> (r: bool)
    requires
        i <= e <= cs@.len(),
    ensures
        r == (cs@.subrange(i as int, e as int) == kw_return()),
{
    let r = e - i == 6 && cs[i] == 'r' && cs[i + 1] == 'e' && cs[i + 2] == 't' && cs[i + 3] == 'u'
        && cs[i + 4] == 'r' && cs[i + 5] == 'n';
    proof {
        let w = cs@.subrange(i as int, e as int);
        if r {
            assert(w =~= kw_return());
        } else if w == kw_return() {
            assert(w.len() == 6 && w[0] == 'r' && w[1] == 'e' && w[2] == 't' && w[3] == 'u'
                && w[4] == 'r' && w[5] == 'n');
        }
    }
    r
}

fn word_is_keyword(cs: &Vec<char>, i: usize, e: usize) -> (r: bool)
    requires
        i <= e <= cs@.len(),
    ensures
        r == is_keyword(cs@.subrange(i as int, e as int)),
{
    word_is3(cs, i, e, 'f', 'c', 'n') || word_is3(cs, i, e, 'r', 'e', 't') || word_is_return(
        cs,
        i,
        e,
    )
}

fn expect_char(cs: &Vec<char>, i: usize, c: char) -> (r: Result<usize, ParseError>)
    requires
        i <= cs@.len(),
    ensures
        match r {
            Ok(k) => expect(cs@, i as int, c) == Ok::<int, ParseError>(k as int) && i < k <= cs@.len(),
            Err(e) => expect(cs@, i as int, c) == Err::<int, ParseError>(e),
        },
{
    if is_at(cs, i, c) {
        Ok(skip_ws_from(cs, i + 1))
    } else {
        Err(unexpected_at(cs, i, Expected::Char(c)))
    }
}

fn expect_closing(cs: &Vec<char>, i: usize, c: char) -> (r: Result<usize, ParseError>)
    requires
        i <= cs@.len(),
    ensures
        match r {
            Ok(k) => expect_close(cs@, i as int, c) == Ok::<int, ParseError>(k as int) && i < k
                <= cs@.len(),
            Err(e) => expect_close(cs@, i as int, c) == Err::<int, ParseError>(e),
        },
{
    if is_at(cs, i, c) {
        Ok(skip_ws_from(cs, i + 1))
    } else if i >= cs.len() {
        Err(ParseError::UnterminatedGroup { pos: i })
    } else {
        Err(unexpected_at(cs, i, Expected::Char(c)))
    }
}

/// An identifier that is not a reserved word.
fn ident(src: &str, cs: &Vec<char>, i: usize) -> (r: Result<(String, usize), ParseError>)
    requires
        cs@ == src@,
        i <= cs@.len(),
    ensures
        match r {
            Ok((w, j)) => p_ident(cs@, i as int) == Ok::<(Seq<char>, int), ParseError>(
                (w@, j as int),
            ) && i < j <= cs@.len(),
            Err(e) => p_ident(cs@, i as int) == Err::<(Seq<char>, int), ParseError>(e),
        },
{
    if i < cs.len() && is_ident_start_char(cs[i]) {
        let e = word_end_from(cs, i);
        if !word_is_keyword(cs, i, e) {
            let w = String::from_str(src.substring_char(i, e));
            return Ok((w, skip_ws_from(cs, e)));
        }
    }
    Err(unexpected_at(cs, i, Expected::Identifier))
}

/// An integer literal at the digit at `i`.
fn int_lit(cs: &Vec<char>, i: usize) -> (r: Result<(Expr, usize), ParseError>)
    requires
        i < cs@.len(),
        is_digit(cs@[i as int]),
    ensures
        agrees(r, p_int(cs@, i as int)),
        advanced(r, i, cs@.len() as int),
{
    let mut k = i;
    let mut v: i64 = 0;
    let mut overflow = false;
    while k < cs.len() && is_digit_char(cs[k])
        invariant
            i <= k <= cs@.len(),
            digits_end(cs@, k as int) == digits_end(cs@, i as int),
            digits_value(cs@, i as int, k as int) >= 0,
            overflow ==> digits_value(cs@, i as int, k as int) > i64::MAX as int,
            !overflow ==> v as int == digits_value(cs@, i as int, k as int),
        decreases cs@.len() - k,
    {
        let d = (cs[k] as u32 - '0' as u32) as i64;
        if !overflow {
            match v.checked_mul(10) {
                None => {
                    overflow = true;
                },
                Some(m) => match m.checked_add(d) {
                    None => {
                        overflow = true;
                    },
                    Some(n) => {
                        v = n;
                    },
                },
            }
        }
        k = k + 1;
    }
    proof {
        assert(digits_len(cs@, i as int) > 0);
    }
    if overflow {
        Err(ParseError::NumericOverflow { pos: i })
    } else {
        Ok((Expr::Lit(Lit::Int(v)), skip_ws_from(cs, k)))
    }
}

/// A string literal at the `"` at `i`.
fn str_lit(src: &str, cs: &Vec<char>, i: usize) -> (r: Result<(Expr, usize), ParseError>)
    requires
        cs@ == src@,
        i < cs.len(),
    ensures
        agrees(r, p_str(cs@, i as int)),
        advanced(r, i, cs@.len() as int),
{
    let e = text_end_from(cs, i + 1);
    if is_at(cs, e, '"') {
        let t = String::from_str(src.substring_char(i + 1, e));
        Ok((Expr::Lit(Lit::Str(t)), skip_ws_from(cs, e + 1)))
    } else {
        Err(ParseError::LexicalError { pos: e })
    }
}

/// An expression at `i`.
fn expr(src: &str, cs: &Vec<char>, i: usize) -> (r: Result<(Expr, usize), ParseError>)
    requires
        cs@ == src@,
        i <= cs@.len(),
    ensures
        agrees(r, p_expr(cs@, i as int)),
        advanced(r, i, cs@.len() as int),
    decreases remaining(cs@, i as int), 9int,
{
    sum(src, cs, i)
}

fn sum(src: &str, cs: &Vec<char>, i: usize) -> (r: Result<(Expr, usize), ParseError>)
    requires
        cs@ == src@,
        i <= cs@.len(),
    ensures
        agrees(r, p_sum(cs@, i as int)),
        advanced(r, i, cs@.len() as int),
    decreases remaining(cs@, i as int), 8int,
{
    let (l, j) = match product(src, cs, i) {
        Err(e) => return Err(e),
        Ok(p) => p,
    };
    let ghost s = cs@;
    let ghost goal = p_sum(s, i as int);
    assert(goal == p_sum_rest(s, j as int, l.tree()));
    let mut acc = l;
    let mut k = j;
    loop
        invariant
            cs@ == src@,
            s == cs@,
            i < k <= cs@.len(),
            goal == p_sum(s, i as int),
            goal == p_sum_rest(s, k as int, acc.tree()),
        decreases remaining(s, k as int),
    {
        if is_at(cs, k, '+') || is_at(cs, k, '-') {
            let plus = is_at(cs, k, '+');
            let k1 = skip_ws_from(cs, k + 1);
            let (r, m) = match product(src, cs, k1) {
                Err(e) => return Err(e),
                Ok(p) => p,
            };
            let ghost ta = acc.tree();
            let ghost tr = r.tree();
            acc = if plus {
                Expr::Add(Box::new(acc), Box::new(r))
            } else {
                Expr::Sub(Box::new(acc), Box::new(r))
            };
            proof {
                if plus {
                    assert(acc.tree() == Tree::Add(Box::new(ta), Box::new(tr)));
                } else {
                    assert(acc.tree() == Tree::Sub(Box::new(ta), Box::new(tr)));
                }
            }
            k = m;
        } else {
            return Ok((acc, k));
        }
    }
}

fn product(src: &str, cs: &Vec<char>, i: usize) -> (r: Result<(Expr, usize), ParseError>)
    requires
        cs@ == src@,
        i <= cs@.len(),
    ensures
        agrees(r, p_product(cs@, i as int)),
        advanced(r, i, cs@.len() as int),
    decreases remaining(cs@, i as int), 6int,
{
    let (l, j) = match unary(src, cs, i) {
        Err(e) => return Err(e),
        Ok(p) => p,
    };
    let ghost s = cs@;
    let ghost goal = p_product(s, i as int);
    assert(goal == p_product_rest(s, j as int, l.tree()));
    let mut acc = l;
    let mut k = j;
    loop
        invariant
            cs@ == src@,
            s == cs@,
            i < k <= cs@.len(),
            goal == p_product(s, i as int),
            goal == p_product_rest(s, k as int, acc.tree()),
        decreases remaining(s, k as int),
    {
        if is_at(cs, k, '*') || is_at(cs, k, '/') {
            let times = is_at(cs, k, '*');
            let k1 = skip_ws_from(cs, k + 1);
            let (r, m) = match unary(src, cs, k1) {
                Err(e) => return Err(e),
                Ok(p) => p,
            };
            let ghost ta = acc.tree();
            let ghost tr = r.tree();
            acc = if times {
                Expr::Mul(Box::new(acc), Box::new(r))
            } else {
                Expr::Div(Box::new(acc), Box::new(r))
            };
            proof {
                if times {
                    assert(acc.tree() == Tree::Mul(Box::new(ta), Box::new(tr)));
                } else {
                    assert(acc.tree() == Tree::Div(Box::new(ta), Box::new(tr)));
                }
            }
            k = m;
        } else {
            return Ok((acc, k));
        }
    }
}

fn unary(src: &str, cs: &Vec<char>, i: usize) -> (r: Result<(Expr, usize), ParseError>)
    requires
        cs@ == src@,
        i <= cs@.len(),
    ensures
        agrees(r, p_unary(cs@, i as int)),
        advanced(r, i, cs@.len() as int),
    decreases remaining(cs@, i as int), 4int,
{
    if is_at(cs, i, '-') {
        let k = skip_ws_from(cs, i + 1);
        match unary(src, cs, k) {
            Err(e) => Err(e),
            Ok((x, j)) => {
                let ghost tx = x.tree();
                let n = Expr::Neg(Box::new(x));
                assert(n.tree() == Tree::Neg(Box::new(tx)));
                Ok((n, j))
            },
        }
    } else {
        atom(src, cs, i)
    }
}

fn atom(src: &str, cs: &Vec<char>, i: usize) -> (r: Result<(Expr, usize), ParseError>)
    requires
        cs@ == src@,
        i <= cs@.len(),
    ensures
        agrees(r, p_atom(cs@, i as int)),
        advanced(r, i, cs@.len() as int),
    decreases remaining(cs@, i as int), 3int,
{
    if i >= cs.len() {
        return Err(unexpected_at(cs, i, Expected::Expression));
    }
    let c = cs[i];
    if is_digit_char(c) {
        int_lit(cs, i)
    } else if c == '"' {
        str_lit(src, cs, i)
    } else if c == '(' {
        let k = skip_ws_from(cs, i + 1);
        match expr(src, cs, k) {
            Err(e) => Err(e),
            Ok((x, j)) => match expect_closing(cs, j, ')') {
                Err(e) => Err(e),
                Ok(m) => Ok((x, m)),
            },
        }
    } else if is_ident_start_char(c) {
        match ident(src, cs, i) {
            Err(e) => Err(e),
            Ok((w, j)) => {
                if is_at(cs, j, '(') {
                    let k = skip_ws_from(cs, j + 1);
                    match args(src, cs, k) {
                        Err(e) => Err(e),
                        Ok((xs, m)) => {
                            let ghost tw = w@;
                            let f = Box::new(Expr::Var(w));
                            assert(f.tree() == Tree::Var(tw));
                            let call = Expr::Call(f, xs);
                            assert(call.tree()->Call_1 =~= trees(xs@));
                            assert(call.tree() == Tree::Call(Box::new(Tree::Var(tw)), trees(xs@)));
                            Ok((call, m))
                        },
                    }
                } else {
                    Ok((Expr::Var(w), j))
                }
            },
        }
    } else {
        Err(unexpected_at(cs, i, Expected::Expression))
    }
}

/// The arguments of a call after its `(`, through the closing `)`.
fn args(src: &str, cs: &Vec<char>, i: usize) -> (r: Result<(Vec<Expr>, usize), ParseError>)
    requires
        cs@ == src@,
        i <= cs@.len(),
    ensures
        agrees_all(r, p_args(cs@, i as int)),
        advanced(r, i, cs@.len() as int),
    decreases remaining(cs@, i as int), 11int,
{
    let mut xs: Vec<Expr> = Vec::new();
    if is_at(cs, i, ')') {
        assert(trees(xs@) =~= seq![]);
        return Ok((xs, skip_ws_from(cs, i + 1)));
    }
    let ghost s = cs@;
    let mut k = i;
    assert(prefixed(trees(xs@), p_arg_list(s, k as int)) == p_arg_list(s, k as int)) by {
        assert(trees(xs@) =~= seq![]);
        assert(forall|ys: Seq<Tree>| seq![] + ys =~= ys);
    }
    loop
        invariant
            cs@ == src@,
            s == cs@,
            i <= k <= cs@.len(),
            !at(s, i as int, ')'),
            p_args(s, i as int) == prefixed(trees(xs@), p_arg_list(s, k as int)),
        decreases remaining(s, k as int),
    {
        let (x, j) = match expr(src, cs, k) {
            Err(e) => return Err(e),
            Ok(p) => p,
        };
        let ghost pre = trees(xs@);
        let ghost tx = x.tree();
        xs.push(x);
        assert(trees(xs@) =~= pre + seq![tx]);
        if is_at(cs, j, ',') {
            let k1 = skip_ws_from(cs, j + 1);
            assert(forall|ys: Seq<Tree>| pre + (seq![tx] + ys) =~= (pre + seq![tx]) + ys);
            k = k1;
        } else {
            match expect_closing(cs, j, ')') {
                Err(e) => return Err(e),
                Ok(m) => {
                    return Ok((xs, m));
                },
            }
        }
    }
}

/// A statement at `i` (its `;` is the block's to read).
fn stmt(src: &str, cs: &Vec<char>, i: usize) -> (r: Result<(Expr, usize), ParseError>)
    requires
        cs@ == src@,
        i <= cs@.len(),
    ensures
        agrees(r, p_stmt(cs@, i as int)),
        advanced(r, i, cs@.len() as int),
{
    reveal(p_stmt);
    if i < cs.len() && is_ident_start_char(cs[i]) {
        let e = word_end_from(cs, i);
        let k = skip_ws_from(cs, e);
        if word_is3(cs, i, e, 'r', 'e', 't') || word_is_return(cs, i, e) {
            match expr(src, cs, k) {
                Err(err) => Err(err),
                Ok((x, j)) => {
                    let ghost tx = x.tree();
                    let ret = Expr::Return { value: Box::new(x) };
                    assert(ret.tree() == Tree::Return { value: Box::new(tx) });
                    Ok((ret, j))
                },
            }
        } else if !word_is_keyword(cs, i, e) && k < cs.len() && is_ident_start_char(cs[k]) {
            let typ = String::from_str(src.substring_char(i, e));
            let (n, j) = match ident(src, cs, k) {
                Err(err) => return Err(err),
                Ok(p) => p,
            };
            let m = match expect_char(cs, j, '=') {
                Err(err) => return Err(err),
                Ok(m) => m,
            };
            let (x, q) = match expr(src, cs, m) {
                Err(err) => return Err(err),
                Ok(p) => p,
            };
            let ghost tn = n@;
            let ghost tt = typ@;
            let ghost tx = x.tree();
            let name = Box::new(Expr::Var(n));
            let typ = Box::new(Expr::Type(typ));
            assert(name.tree() == Tree::Var(tn));
            assert(typ.tree() == Tree::Type(tt));
            let a = Expr::Assign { name, typ, rhs: Box::new(x) };
            assert(a.tree() == Tree::Assign {
                name: Box::new(Tree::Var(tn)),
                typ: Box::new(Tree::Type(tt)),
                rhs: Box::new(tx),
            });
            Ok((a, q))
        } else {
            expr(src, cs, i)
        }
    } else {
        expr(src, cs, i)
    }
}

/// The statements of a block after its `{`, through the closing `}`.
fn stmts(src: &str, cs: &Vec<char>, i: usize) -> (r: Result<(Vec<Expr>, usize), ParseError>)
    requires
        cs@ == src@,
        i <= cs@.len(),
    ensures
        agrees_all(r, p_stmts(cs@, i as int)),
        advanced(r, i, cs@.len() as int),
{
    let ghost s = cs@;
    let mut xs: Vec<Expr> = Vec::new();
    let mut k = i;
    assert(prefixed(trees(xs@), p_stmts(s, k as int)) == p_stmts(s, i as int)) by {
        assert(trees(xs@) =~= seq![]);
        assert(forall|ys: Seq<Tree>| seq![] + ys =~= ys);
    }
    loop
        invariant
            cs@ == src@,
            s == cs@,
            i <= k <= cs@.len(),
            p_stmts(s, i as int) == prefixed(trees(xs@), p_stmts(s, k as int)),
        decreases remaining(s, k as int),
    {
        if is_at(cs, k, '}') {
            let m = skip_ws_from(cs, k + 1);
            assert(trees(xs@) + seq![] =~= trees(xs@));
            return Ok((xs, m));
        }
        if k >= cs.len() {
            return Err(ParseError::UnterminatedGroup { pos: k });
        }
        let (x, j) = match stmt(src, cs, k) {
            Err(e) => return Err(e),
            Ok(p) => p,
        };
        let m = match expect_char(cs, j, ';') {
            Err(e) => return Err(e),
            Ok(m) => m,
        };
        let ghost pre = trees(xs@);
        let ghost tx = x.tree();
        xs.push(x);
        assert(trees(xs@) =~= pre + seq![tx]);
        assert(forall|ys: Seq<Tree>| pre + (seq![tx] + ys) =~= (pre + seq![tx]) + ys);
        k = m;
    }
}

/// A block: `{`, statements each ended by `;`, `}`.
fn block(src: &str, cs: &Vec<char>, i: usize) -> (r: Result<(Vec<Expr>, usize), ParseError>)
    requires
        cs@ == src@,
        i <= cs@.len(),
    ensures
        agrees_all(r, p_block(cs@, i as int)),
        advanced(r, i, cs@.len() as int),
{
    match expect_char(cs, i, '{') {
        Err(e) => Err(e),
        Ok(j) => stmts(src, cs, j),
    }
}

/// The parameters of a function after its `(`, through the closing `)`.
fn params(src: &str, cs: &Vec<char>, i: usize) -> (r: Result<(Vec<Box<Expr>>, usize), ParseError>)
    requires
        cs@ == src@,
        i <= cs@.len(),
    ensures
        match r {
            Ok((v, j)) => p_params(cs@, i as int) == Ok::<(Seq<Tree>, int), ParseError>(
                (boxed_trees(v@), j as int),
            ) && i < j <= cs@.len(),
            Err(e) => p_params(cs@, i as int) == Err::<(Seq<Tree>, int), ParseError>(e),
        },
{
    let mut xs: Vec<Box<Expr>> = Vec::new();
    if is_at(cs, i, ')') {
        assert(boxed_trees(xs@) =~= seq![]);
        return Ok((xs, skip_ws_from(cs, i + 1)));
    }
    let ghost s = cs@;
    let mut k = i;
    assert(prefixed(boxed_trees(xs@), p_param_list(s, k as int)) == p_param_list(s, i as int)) by {
        assert(boxed_trees(xs@) =~= seq![]);
        assert(forall|ys: Seq<Tree>| seq![] + ys =~= ys);
    }
    loop
        invariant
            cs@ == src@,
            s == cs@,
            i <= k <= cs@.len(),
            p_params(s, i as int) == p_param_list(s, i as int),
            p_param_list(s, i as int) == prefixed(boxed_trees(xs@), p_param_list(s, k as int)),
        decreases remaining(s, k as int),
    {
        let (w, j) = match ident(src, cs, k) {
            Err(e) => return Err(e),
            Ok(p) => p,
        };
        let ghost pre = boxed_trees(xs@);
        let ghost tw = w@;
        let x = Box::new(Expr::Var(w));
        assert(x.tree() == Tree::Var(tw));
        xs.push(x);
        assert(boxed_trees(xs@) =~= pre + seq![Tree::Var(tw)]);
        if is_at(cs, j, ',') {
            assert(forall|ys: Seq<Tree>|
                pre + (seq![Tree::Var(tw)] + ys) =~= (pre + seq![Tree::Var(tw)]) + ys);
            k = skip_ws_from(cs, j + 1);
        } else {
            match expect_closing(cs, j, ')') {
                Err(e) => return Err(e),
                Ok(m) => {
                    return Ok((xs, m));
                },
            }
        }
    }
}

/// A function definition at the word `fcn` at `i`.
fn func(src: &str, cs: &Vec<char>, i: usize) -> (r: Result<(Expr, usize), ParseError>)
    requires
        cs@ == src@,
        i < cs@.len(),
    ensures
        agrees(r, p_func(cs@, i as int)),
        advanced(r, i, cs@.len() as int),
{
    reveal(p_func);
    let e = word_end_from(cs, i);
    let k = skip_ws_from(cs, e);
    let (t, j) = match ident(src, cs, k) {
        Err(err) => return Err(err),
        Ok(p) => p,
    };
    let (n, k2) = match ident(src, cs, j) {
        Err(err) => return Err(err),
        Ok(p) => p,
    };
    let m = match expect_char(cs, k2, '(') {
        Err(err) => return Err(err),
        Ok(m) => m,
    };
    let (ps, q) = match params(src, cs, m) {
        Err(err) => return Err(err),
        Ok(p) => p,
    };
    let (body, r) = match block(src, cs, q) {
        Err(err) => return Err(err),
        Ok(p) => p,
    };
    let ghost tn = n@;
    let ghost tt = t@;
    let ghost tps = boxed_trees(ps@);
    let ghost tbody = trees(body@);
    let name = Box::new(Expr::Var(n));
    let return_type = Box::new(Expr::Type(t));
    assert(name.tree() == Tree::Var(tn));
    assert(return_type.tree() == Tree::Type(tt));
    let f = Expr::Func { name, return_type, args: ps, body: Box::new(body) };
    assert(f.tree()->Func_args =~= tps);
    assert(f.tree()->Func_body =~= tbody);
    assert(f.tree() == Tree::Func {
        name: Box::new(Tree::Var(tn)),
        return_type: Box::new(Tree::Type(tt)),
        args: tps,
        body: tbody,
    });
    Ok((f, r))
}

/// The characters of `src`, in order.
fn chars_of(src: &str) -> (cs: Vec<char>)
    ensures
        cs@ == src@,
{
    let n = src.unicode_len();
    let mut cs: Vec<char> = Vec::new();
    let mut k: usize = 0;
    while k < n
        invariant
            n == src@.len(),
            k <= n,
            cs@ == src@.subrange(0, k as int),
        decreases n - k,
    {
        cs.push(src.get_char(k));
        k = k + 1;
        assert(cs@ =~= src@.subrange(0, k as int));
    }
    assert(cs@ =~= src@);
    cs
}

/// Parses a whole program: function definitions until the end of the input.
///
/// The result is exactly what the grammar `p_program` gives: the definitions
/// in the order in which they stand in the text, or the first error met.
pub fn parse(src: &str) -> (r: Result<Vec<Expr>, ParseError>)
    ensures
        match r {
            Ok(v) => p_program(src@) == Ok::<Seq<Tree>, ParseError>(trees(v@)),
            Err(e) => p_program(src@) == Err::<Seq<Tree>, ParseError>(e),
        },
{
    let cs = chars_of(src);
    let ghost s = cs@;
    let mut fs: Vec<Expr> = Vec::new();
    let mut k = skip_ws_from(&cs, 0);
    assert(p_program(s) == p_funcs(s, k as int));
    loop
        invariant
            cs@ == src@,
            s == cs@,
            k <= cs@.len(),
            p_program(s) == match p_funcs(s, k as int) {
                Ok(ys) => Ok::<Seq<Tree>, ParseError>(trees(fs@) + ys),
                Err(e) => Err(e),
            },
        decreases remaining(s, k as int),
    {
        if k >= cs.len() {
            assert(trees(fs@) + seq![] =~= trees(fs@));
            return Ok(fs);
        }
        let e = word_end_from(&cs, k);
        if !word_is3(&cs, k, e, 'f', 'c', 'n') {
            return Err(ParseError::TrailingInput { pos: k });
        }
        let (f, j) = match func(src, &cs, k) {
            Err(err) => return Err(err),
            Ok(p) => p,
        };
        let ghost pre = trees(fs@);
        let ghost tf = f.tree();
        fs.push(f);
        assert(trees(fs@) =~= pre + seq![tf]);
        assert(forall|ys: Seq<Tree>| pre + (seq![tf] + ys) =~= (pre + seq![tf]) + ys);
        k = j;
    }
}

/// Parses one expression at the start of `src` (after any whitespace).
///
/// On success gives the expression and the position, in characters, at which
/// the input that follows it starts; exactly what the grammar `p_expr` gives.
pub fn parse_expression(src: &str) -> (r: Result<(Expr, usize), ParseError>)
    ensures
        agrees(r, p_expr(src@, skip_ws(src@, 0))),
{
    let cs = chars_of(src);
    let k = skip_ws_from(&cs, 0);
    expr(src, &cs, k)
}

} // verus!

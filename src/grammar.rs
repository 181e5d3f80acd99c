//! The language's grammar, as functions on character sequences.
//!
//! Each rule takes the input and a position at which no whitespace stands, and
//! gives either what it recognised together with the position after it (with
//! the whitespace that follows skipped), or the error that stops the parse.
//! Choices are decided by looking ahead, never by backtracking.
//!
//! Reserved words (`fcn`, `ret`, `return`) are never names. Only whitespace
//! separates tokens. Every statement in a block, the last one included, ends
//! with `;`.
//!
//! A rule that succeeds always ends after the position it started at, so the
//! checks `i <= j` and `i < j` before a rule goes on from `j` always hold; they
//! are there so that the recursion can be seen to terminate.
use vstd::prelude::*;
use crate::ast::Tree;
use crate::error::{Expected, ParseError};

verus! {

pub type PResult<T> = Result<(T, int), ParseError>;

pub open spec fn is_ws(c: char) -> bool {
    c == ' ' || c == '\t' || c == '\n' || c == '\r' || c == '\x0C'
}

pub open spec fn is_digit(c: char) -> bool {
    '0' <= c && c <= '9'
}

pub open spec fn is_ident_start(c: char) -> bool {
    ('a' <= c && c <= 'z') || ('A' <= c && c <= 'Z') || c == '_'
}

pub open spec fn is_ident_char(c: char) -> bool {
    is_ident_start(c) || is_digit(c)
}

/// The character at `i`, or `None` past either end.
pub open spec fn char_at(s: Seq<char>, i: int) -> Option<char> {
    if 0 <= i < s.len() {
        Some(s[i])
    } else {
        None
    }
}

pub open spec fn at(s: Seq<char>, i: int, c: char) -> bool {
    char_at(s, i) == Some(c)
}

/// How many characters remain from `i` on.
pub open spec fn remaining(s: Seq<char>, i: int) -> int {
    if i < s.len() {
        s.len() - i
    } else {
        0
    }
}

/// The length of the run of whitespace that starts at `i`.
pub open spec fn ws_len(s: Seq<char>, i: int) -> nat
    decreases remaining(s, i),
{
    if 0 <= i < s.len() && is_ws(s[i]) {
        1 + ws_len(s, i + 1)
    } else {
        0
    }
}

/// The length of the run of identifier characters that starts at `i`.
pub open spec fn word_len(s: Seq<char>, i: int) -> nat
    decreases remaining(s, i),
{
    if 0 <= i < s.len() && is_ident_char(s[i]) {
        1 + word_len(s, i + 1)
    } else {
        0
    }
}

/// The length of the run of decimal digits that starts at `i`.
pub open spec fn digits_len(s: Seq<char>, i: int) -> nat
    decreases remaining(s, i),
{
    if 0 <= i < s.len() && is_digit(s[i]) {
        1 + digits_len(s, i + 1)
    } else {
        0
    }
}

/// The length of the run of characters other than `\` and `"` that starts at `i`.
pub open spec fn text_len(s: Seq<char>, i: int) -> nat
    decreases remaining(s, i),
{
    if 0 <= i < s.len() && s[i] != '\\' && s[i] != '"' {
        1 + text_len(s, i + 1)
    } else {
        0
    }
}

/// The first position at or after `i` that holds no whitespace.
pub open spec fn skip_ws(s: Seq<char>, i: int) -> int {
    i + ws_len(s, i)
}

pub open spec fn word_end(s: Seq<char>, i: int) -> int {
    i + word_len(s, i)
}

pub open spec fn digits_end(s: Seq<char>, i: int) -> int {
    i + digits_len(s, i)
}

pub open spec fn text_end(s: Seq<char>, i: int) -> int {
    i + text_len(s, i)
}

/// The number that the decimal digits `s[i..j]` denote.
pub open spec fn digits_value(s: Seq<char>, i: int, j: int) -> int
    decreases j - i,
{
    if j <= i {
        0
    } else {
        digits_value(s, i, j - 1) * 10 + (s[j - 1] as int - '0' as int)
    }
}

pub open spec fn kw_fcn() -> Seq<char> {
    seq!['f', 'c', 'n']
}

pub open spec fn kw_ret() -> Seq<char> {
    seq!['r', 'e', 't']
}

pub open spec fn kw_return() -> Seq<char> {
    seq!['r', 'e', 't', 'u', 'r', 'n']
}

/// Reserved words can never be used as names.
pub open spec fn is_keyword(w: Seq<char>) -> bool {
    w == kw_fcn() || w == kw_ret() || w == kw_return()
}

/// The word (a run of identifier characters) that starts at `i`.
pub open spec fn word_at(s: Seq<char>, i: int) -> Seq<char> {
    s.subrange(i, word_end(s, i))
}

pub open spec fn unexpected(s: Seq<char>, i: int, expected: Expected) -> ParseError {
    ParseError::UnexpectedToken { expected, found: char_at(s, i), pos: i as usize }
}

/// The punctuation character `c` at `i`.
pub open spec fn expect(s: Seq<char>, i: int, c: char) -> Result<int, ParseError> {
    if at(s, i, c) {
        Ok(skip_ws(s, i + 1))
    } else {
        Err(unexpected(s, i, Expected::Char(c)))
    }
}

/// The closing delimiter `c` of a group at `i`; where the input has ended, the
/// group is unterminated.
pub open spec fn expect_close(s: Seq<char>, i: int, c: char) -> Result<int, ParseError> {
    if at(s, i, c) {
        Ok(skip_ws(s, i + 1))
    } else if i >= s.len() {
        Err(ParseError::UnterminatedGroup { pos: i as usize })
    } else {
        Err(unexpected(s, i, Expected::Char(c)))
    }
}

/// An identifier that is not a reserved word.
pub open spec fn p_ident(s: Seq<char>, i: int) -> PResult<Seq<char>> {
    if 0 <= i < s.len() && is_ident_start(s[i]) && !is_keyword(word_at(s, i)) {
        Ok((word_at(s, i), skip_ws(s, word_end(s, i))))
    } else {
        Err(unexpected(s, i, Expected::Identifier))
    }
}

/// An integer literal: a run of decimal digits that fits in 64 signed bits.
pub open spec fn p_int(s: Seq<char>, i: int) -> PResult<Tree> {
    let e = digits_end(s, i);
    if digits_value(s, i, e) > i64::MAX as int {
        Err(ParseError::NumericOverflow { pos: i as usize })
    } else {
        Ok((Tree::Int(digits_value(s, i, e)), skip_ws(s, e)))
    }
}

/// A string literal at the `"` at `i`.
pub open spec fn p_str(s: Seq<char>, i: int) -> PResult<Tree> {
    let e = text_end(s, i + 1);
    if at(s, e, '"') {
        Ok((Tree::Str(s.subrange(i + 1, e)), skip_ws(s, e + 1)))
    } else {
        Err(ParseError::LexicalError { pos: e as usize })
    }
}

/// `expr ::= sum`
pub open spec fn p_expr(s: Seq<char>, i: int) -> PResult<Tree>
    decreases remaining(s, i), 9int,
{
    p_sum(s, i)
}

/// `sum ::= product (("+" | "-") product)*`, folded to the left.
pub open spec fn p_sum(s: Seq<char>, i: int) -> PResult<Tree>
    decreases remaining(s, i), 8int,
{
    match p_product(s, i) {
        Err(e) => Err(e),
        Ok((l, j)) => if i <= j {
            p_sum_rest(s, j, l)
        } else {
            Ok((l, j))
        },
    }
}

/// The operators and operands that follow the left operand `l` of a sum.
pub open spec fn p_sum_rest(s: Seq<char>, i: int, l: Tree) -> PResult<Tree>
    decreases remaining(s, i), 7int,
{
    if at(s, i, '+') || at(s, i, '-') {
        match p_product(s, skip_ws(s, i + 1)) {
            Err(e) => Err(e),
            Ok((r, j)) => {
                let t = if at(s, i, '+') {
                    Tree::Add(Box::new(l), Box::new(r))
                } else {
                    Tree::Sub(Box::new(l), Box::new(r))
                };
                if i < j {
                    p_sum_rest(s, j, t)
                } else {
                    Ok((t, j))
                }
            },
        }
    } else {
        Ok((l, i))
    }
}

/// `product ::= unary (("*" | "/") unary)*`, folded to the left.
pub open spec fn p_product(s: Seq<char>, i: int) -> PResult<Tree>
    decreases remaining(s, i), 6int,
{
    match p_unary(s, i) {
        Err(e) => Err(e),
        Ok((l, j)) => if i <= j {
            p_product_rest(s, j, l)
        } else {
            Ok((l, j))
        },
    }
}

/// The operators and operands that follow the left operand `l` of a product.
pub open spec fn p_product_rest(s: Seq<char>, i: int, l: Tree) -> PResult<Tree>
    decreases remaining(s, i), 5int,
{
    if at(s, i, '*') || at(s, i, '/') {
        match p_unary(s, skip_ws(s, i + 1)) {
            Err(e) => Err(e),
            Ok((r, j)) => {
                let t = if at(s, i, '*') {
                    Tree::Mul(Box::new(l), Box::new(r))
                } else {
                    Tree::Div(Box::new(l), Box::new(r))
                };
                if i < j {
                    p_product_rest(s, j, t)
                } else {
                    Ok((t, j))
                }
            },
        }
    } else {
        Ok((l, i))
    }
}

/// `unary ::= "-" unary | atom`
pub open spec fn p_unary(s: Seq<char>, i: int) -> PResult<Tree>
    decreases remaining(s, i), 4int,
{
    if at(s, i, '-') {
        match p_unary(s, skip_ws(s, i + 1)) {
            Err(e) => Err(e),
            Ok((x, j)) => Ok((Tree::Neg(Box::new(x)), j)),
        }
    } else {
        p_atom(s, i)
    }
}

/// `atom ::= INT | STRING | "(" expr ")" | IDENT "(" args ")" | IDENT`
pub open spec fn p_atom(s: Seq<char>, i: int) -> PResult<Tree>
    decreases remaining(s, i), 3int,
{
    if !(0 <= i < s.len()) {
        Err(unexpected(s, i, Expected::Expression))
    } else if is_digit(s[i]) {
        p_int(s, i)
    } else if s[i] == '"' {
        p_str(s, i)
    } else if s[i] == '(' {
        match p_expr(s, skip_ws(s, i + 1)) {
            Err(e) => Err(e),
            Ok((x, j)) => match expect_close(s, j, ')') {
                Err(e) => Err(e),
                Ok(k) => Ok((x, k)),
            },
        }
    } else if is_ident_start(s[i]) {
        match p_ident(s, i) {
            Err(e) => Err(e),
            Ok((w, j)) => if at(s, j, '(') {
                match p_args(s, skip_ws(s, j + 1)) {
                    Err(e) => Err(e),
                    Ok((xs, k)) => Ok((Tree::Call(Box::new(Tree::Var(w)), xs), k)),
                }
            } else {
                Ok((Tree::Var(w), j))
            },
        }
    } else {
        Err(unexpected(s, i, Expected::Expression))
    }
}

/// The arguments of a call after its `(`, through the closing `)`.
pub open spec fn p_args(s: Seq<char>, i: int) -> PResult<Seq<Tree>>
    decreases remaining(s, i), 11int,
{
    if at(s, i, ')') {
        Ok((seq![], skip_ws(s, i + 1)))
    } else {
        p_arg_list(s, i)
    }
}

/// `expr ("," expr)* ")"`
pub open spec fn p_arg_list(s: Seq<char>, i: int) -> PResult<Seq<Tree>>
    decreases remaining(s, i), 10int,
{
    match p_expr(s, i) {
        Err(e) => Err(e),
        Ok((x, j)) => if at(s, j, ',') {
            let k = skip_ws(s, j + 1);
            if i <= j {
                match p_arg_list(s, k) {
                    Err(e) => Err(e),
                    Ok((xs, m)) => Ok((seq![x] + xs, m)),
                }
            } else {
                Ok((seq![x], k))
            }
        } else {
            match expect_close(s, j, ')') {
                Err(e) => Err(e),
                Ok(k) => Ok((seq![x], k)),
            }
        },
    }
}

/// `stmt ::= ("ret" | "return") expr | IDENT IDENT "=" expr | expr`
///
/// A statement that starts with two identifiers is a declaration: the type
/// first, then the name.
#[verifier::opaque]
pub open spec fn p_stmt(s: Seq<char>, i: int) -> PResult<Tree> {
    if 0 <= i < s.len() && is_ident_start(s[i]) {
        let w = word_at(s, i);
        let k = skip_ws(s, word_end(s, i));
        if w == kw_ret() || w == kw_return() {
            match p_expr(s, k) {
                Err(e) => Err(e),
                Ok((x, j)) => Ok((Tree::Return { value: Box::new(x) }, j)),
            }
        } else if !is_keyword(w) && 0 <= k < s.len() && is_ident_start(s[k]) {
            match p_ident(s, k) {
                Err(e) => Err(e),
                Ok((n, j)) => match expect(s, j, '=') {
                    Err(e) => Err(e),
                    Ok(m) => match p_expr(s, m) {
                        Err(e) => Err(e),
                        Ok((x, q)) => Ok(
                            (
                                Tree::Assign {
                                    name: Box::new(Tree::Var(n)),
                                    typ: Box::new(Tree::Type(w)),
                                    rhs: Box::new(x),
                                },
                                q,
                            ),
                        ),
                    },
                },
            }
        } else {
            p_expr(s, i)
        }
    } else {
        p_expr(s, i)
    }
}

/// `(stmt ";")* "}"`: the statements of a block after its `{`.
pub open spec fn p_stmts(s: Seq<char>, i: int) -> PResult<Seq<Tree>>
    decreases remaining(s, i),
{
    if at(s, i, '}') {
        Ok((seq![], skip_ws(s, i + 1)))
    } else if i >= s.len() {
        Err(ParseError::UnterminatedGroup { pos: i as usize })
    } else {
        match p_stmt(s, i) {
            Err(e) => Err(e),
            Ok((x, j)) => match expect(s, j, ';') {
                Err(e) => Err(e),
                Ok(k) => if i <= j {
                    match p_stmts(s, k) {
                        Err(e) => Err(e),
                        Ok((xs, m)) => Ok((seq![x] + xs, m)),
                    }
                } else {
                    Ok((seq![x], k))
                },
            },
        }
    }
}

/// `block ::= "{" (stmt ";")* "}"`
pub open spec fn p_block(s: Seq<char>, i: int) -> PResult<Seq<Tree>> {
    match expect(s, i, '{') {
        Err(e) => Err(e),
        Ok(j) => p_stmts(s, j),
    }
}

/// `IDENT ("," IDENT)* ")"`: the parameters of a function after the first.
pub open spec fn p_param_list(s: Seq<char>, i: int) -> PResult<Seq<Tree>>
    decreases remaining(s, i),
{
    match p_ident(s, i) {
        Err(e) => Err(e),
        Ok((w, j)) => if at(s, j, ',') {
            match p_param_list(s, skip_ws(s, j + 1)) {
                Err(e) => Err(e),
                Ok((ws, k)) => Ok((seq![Tree::Var(w)] + ws, k)),
            }
        } else {
            match expect_close(s, j, ')') {
                Err(e) => Err(e),
                Ok(k) => Ok((seq![Tree::Var(w)], k)),
            }
        },
    }
}

/// The parameters of a function after its `(`, through the closing `)`.
pub open spec fn p_params(s: Seq<char>, i: int) -> PResult<Seq<Tree>> {
    if at(s, i, ')') {
        Ok((seq![], skip_ws(s, i + 1)))
    } else {
        p_param_list(s, i)
    }
}

/// `func_def ::= "fcn" IDENT IDENT "(" params ")" block`, the return type
/// first, then the name.
#[verifier::opaque]
pub open spec fn p_func(s: Seq<char>, i: int) -> PResult<Tree> {
    match p_ident(s, skip_ws(s, word_end(s, i))) {
        Err(e) => Err(e),
        Ok((t, j)) => match p_ident(s, j) {
            Err(e) => Err(e),
            Ok((n, k)) => match expect(s, k, '(') {
                Err(e) => Err(e),
                Ok(m) => match p_params(s, m) {
                    Err(e) => Err(e),
                    Ok((ps, q)) => match p_block(s, q) {
                        Err(e) => Err(e),
                        Ok((body, r)) => Ok(
                            (
                                Tree::Func {
                                    name: Box::new(Tree::Var(n)),
                                    return_type: Box::new(Tree::Type(t)),
                                    args: ps,
                                    body,
                                },
                                r,
                            ),
                        ),
                    },
                },
            },
        },
    }
}

/// Whether the word `fcn` stands at `i`.
pub open spec fn at_fcn(s: Seq<char>, i: int) -> bool {
    0 <= i < s.len() && word_at(s, i) == kw_fcn()
}

/// The function definitions from `i` to the end of the input.
pub open spec fn p_funcs(s: Seq<char>, i: int) -> Result<Seq<Tree>, ParseError>
    decreases remaining(s, i),
{
    if i >= s.len() {
        Ok(seq![])
    } else if at_fcn(s, i) {
        match p_func(s, i) {
            Err(e) => Err(e),
            Ok((f, j)) => if i < j {
                match p_funcs(s, j) {
                    Err(e) => Err(e),
                    Ok(fs) => Ok(seq![f] + fs),
                }
            } else {
                Ok(seq![f])
            },
        }
    } else {
        Err(ParseError::TrailingInput { pos: i as usize })
    }
}

/// `program ::= func_def* EOF`, with whitespace allowed around every token.
pub open spec fn p_program(s: Seq<char>) -> Result<Seq<Tree>, ParseError> {
    p_funcs(s, skip_ws(s, 0))
}

} // verus!

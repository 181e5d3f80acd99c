//! What the grammar gives back is always well formed.
use vstd::prelude::*;
use crate::ast::Tree;
use crate::grammar::{
    at, digits_end, digits_value, is_digit, is_ident_char, is_ident_start, is_keyword, kw_ret,
    kw_return, p_arg_list, p_args, p_atom, p_expr, p_func, p_funcs, p_ident, p_param_list,
    p_params, p_product, p_product_rest, p_program, p_stmt, p_stmts, p_sum, p_sum_rest, p_unary,
    remaining, skip_ws, text_end, word_at, word_end, word_len,
};
use crate::laws::law_program_text_parses_back;
use crate::printer::{
    is_name, is_text, program_text, wf_expr, wf_func, wf_param, wf_program, wf_stmt,
};

verus! {

broadcast use vstd::seq::group_seq_axioms;

proof fn lemma_word_chars(s: Seq<char>, i: int)
    requires
        0 <= i,
    ensures
        word_end(s, i) <= s.len() || word_end(s, i) == i,
        forall|m: int| i <= m < word_end(s, i) ==> is_ident_char(#[trigger] s[m]),
    decreases remaining(s, i),
{
    if 0 <= i < s.len() && is_ident_char(s[i]) {
        lemma_word_chars(s, i + 1);
    }
}

proof fn lemma_text_chars(s: Seq<char>, i: int)
    requires
        0 <= i,
    ensures
        text_end(s, i) <= s.len() || text_end(s, i) == i,
        forall|m: int| i <= m < text_end(s, i) ==> #[trigger] s[m] != '\\' && s[m] != '"',
    decreases remaining(s, i),
{
    if 0 <= i < s.len() && s[i] != '\\' && s[i] != '"' {
        lemma_text_chars(s, i + 1);
    }
}

proof fn lemma_digit_chars(s: Seq<char>, i: int)
    requires
        0 <= i,
    ensures
        digits_end(s, i) <= s.len() || digits_end(s, i) == i,
        forall|m: int| i <= m < digits_end(s, i) ==> is_digit(#[trigger] s[m]),
    decreases remaining(s, i),
{
    if 0 <= i < s.len() && is_digit(s[i]) {
        lemma_digit_chars(s, i + 1);
    }
}

proof fn lemma_value_nonneg(s: Seq<char>, i: int, j: int)
    requires
        0 <= i,
        j <= s.len(),
        forall|m: int| i <= m < j ==> is_digit(#[trigger] s[m]),
    ensures
        digits_value(s, i, j) >= 0,
    decreases j - i,
{
    if j > i {
        lemma_value_nonneg(s, i, j - 1);
        assert(is_digit(s[j - 1]));
    }
}

/// An identifier read by the grammar is a name.
proof fn lemma_ident_name(s: Seq<char>, i: int)
    requires
        p_ident(s, i) is Ok,
    ensures
        is_name(p_ident(s, i)->Ok_0.0),
        p_ident(s, i)->Ok_0.0 == word_at(s, i),
{
    lemma_word_chars(s, i);
    let w = word_at(s, i);
    assert(is_ident_char(s[i]));
    assert(word_len(s, i) > 0);
    assert(w[0] == s[i]);
    assert forall|k: int| 0 <= k < w.len() implies #[trigger] is_ident_char(w[k]) by {
        assert(w[k] == s[i + k]);
    }
}

/// The results of every expression rule are well-formed expressions.
proof fn lemma_wf_expr(s: Seq<char>, i: int)
    requires
        0 <= i,
    ensures
        p_expr(s, i) is Ok ==> wf_expr(p_expr(s, i)->Ok_0.0),
    decreases remaining(s, i), 9int,
{
    lemma_wf_sum(s, i);
}

proof fn lemma_wf_sum(s: Seq<char>, i: int)
    requires
        0 <= i,
    ensures
        p_sum(s, i) is Ok ==> wf_expr(p_sum(s, i)->Ok_0.0),
    decreases remaining(s, i), 8int,
{
    lemma_wf_product(s, i);
    if let Ok((l, j)) = p_product(s, i) {
        if i <= j {
            lemma_wf_sum_rest(s, j, l);
        }
    }
}

proof fn lemma_wf_sum_rest(s: Seq<char>, i: int, l: Tree)
    requires
        0 <= i,
        wf_expr(l),
    ensures
        p_sum_rest(s, i, l) is Ok ==> wf_expr(p_sum_rest(s, i, l)->Ok_0.0),
    decreases remaining(s, i), 7int,
{
    if at(s, i, '+') || at(s, i, '-') {
        let k = skip_ws(s, i + 1);
        lemma_wf_product(s, k);
        if let Ok((r, j)) = p_product(s, k) {
            let t = if at(s, i, '+') {
                Tree::Add(Box::new(l), Box::new(r))
            } else {
                Tree::Sub(Box::new(l), Box::new(r))
            };
            assert(wf_expr(t));
            if i < j {
                lemma_wf_sum_rest(s, j, t);
            }
        }
    }
}

proof fn lemma_wf_product(s: Seq<char>, i: int)
    requires
        0 <= i,
    ensures
        p_product(s, i) is Ok ==> wf_expr(p_product(s, i)->Ok_0.0),
    decreases remaining(s, i), 6int,
{
    lemma_wf_unary(s, i);
    if let Ok((l, j)) = p_unary(s, i) {
        if i <= j {
            lemma_wf_product_rest(s, j, l);
        }
    }
}

proof fn lemma_wf_product_rest(s: Seq<char>, i: int, l: Tree)
    requires
        0 <= i,
        wf_expr(l),
    ensures
        p_product_rest(s, i, l) is Ok ==> wf_expr(p_product_rest(s, i, l)->Ok_0.0),
    decreases remaining(s, i), 5int,
{
    if at(s, i, '*') || at(s, i, '/') {
        let k = skip_ws(s, i + 1);
        lemma_wf_unary(s, k);
        if let Ok((r, j)) = p_unary(s, k) {
            let t = if at(s, i, '*') {
                Tree::Mul(Box::new(l), Box::new(r))
            } else {
                Tree::Div(Box::new(l), Box::new(r))
            };
            assert(wf_expr(t));
            if i < j {
                lemma_wf_product_rest(s, j, t);
            }
        }
    }
}

proof fn lemma_wf_unary(s: Seq<char>, i: int)
    requires
        0 <= i,
    ensures
        p_unary(s, i) is Ok ==> wf_expr(p_unary(s, i)->Ok_0.0),
    decreases remaining(s, i), 4int,
{
    if at(s, i, '-') {
        lemma_wf_unary(s, skip_ws(s, i + 1));
    } else {
        lemma_wf_atom(s, i);
    }
}

proof fn lemma_wf_atom(s: Seq<char>, i: int)
    requires
        0 <= i,
    ensures
        p_atom(s, i) is Ok ==> wf_expr(p_atom(s, i)->Ok_0.0),
    decreases remaining(s, i), 3int,
{
    if 0 <= i < s.len() {
        if is_digit(s[i]) {
            lemma_digit_chars(s, i);
            lemma_value_nonneg(s, i, digits_end(s, i));
        } else if s[i] == '"' {
            lemma_text_chars(s, i + 1);
            let w = s.subrange(i + 1, text_end(s, i + 1));
            assert forall|k: int| 0 <= k < w.len() implies #[trigger] w[k] != '\\' && w[k]
                != '"' by {
                assert(w[k] == s[i + 1 + k]);
            }
            assert(is_text(w));
        } else if s[i] == '(' {
            lemma_wf_expr(s, skip_ws(s, i + 1));
        } else if is_ident_start(s[i]) {
            if let Ok((w, j)) = p_ident(s, i) {
                lemma_ident_name(s, i);
                if at(s, j, '(') {
                    let k = skip_ws(s, j + 1);
                    lemma_wf_args(s, k);
                    if let Ok((xs, m)) = p_args(s, k) {
                        let t = Tree::Call(Box::new(Tree::Var(w)), xs);
                        assert(wf_expr(t));
                    }
                }
            }
        }
    }
}

proof fn lemma_wf_args(s: Seq<char>, i: int)
    requires
        0 <= i,
    ensures
        p_args(s, i) is Ok ==> forall|k: int|
            0 <= k < p_args(s, i)->Ok_0.0.len() ==> wf_expr(#[trigger] p_args(s, i)->Ok_0.0[k]),
    decreases remaining(s, i), 11int,
{
    if !at(s, i, ')') {
        lemma_wf_arg_list(s, i);
    }
}

proof fn lemma_wf_arg_list(s: Seq<char>, i: int)
    requires
        0 <= i,
    ensures
        p_arg_list(s, i) is Ok ==> forall|k: int|
            0 <= k < p_arg_list(s, i)->Ok_0.0.len() ==> wf_expr(
                #[trigger] p_arg_list(s, i)->Ok_0.0[k],
            ),
    decreases remaining(s, i), 10int,
{
    lemma_wf_expr(s, i);
    if let Ok((x, j)) = p_expr(s, i) {
        if at(s, j, ',') {
            let k = skip_ws(s, j + 1);
            if i <= j {
                lemma_wf_arg_list(s, k);
                if let Ok((xs, m)) = p_arg_list(s, k) {
                    let r = seq![x] + xs;
                    assert forall|q: int| 0 <= q < r.len() implies wf_expr(#[trigger] r[q]) by {
                        if q > 0 {
                            assert(r[q] == xs[q - 1]);
                        }
                    }
                }
            }
        }
    }
}

proof fn lemma_wf_stmt(s: Seq<char>, i: int)
    requires
        0 <= i,
    ensures
        p_stmt(s, i) is Ok ==> wf_stmt(p_stmt(s, i)->Ok_0.0),
{
    reveal(p_stmt);
    lemma_wf_expr(s, i);
    if 0 <= i < s.len() && is_ident_start(s[i]) {
        let w = word_at(s, i);
        let k = skip_ws(s, word_end(s, i));
        lemma_wf_expr(s, k);
        if !(w == kw_ret() || w == kw_return()) && !is_keyword(w) && 0 <= k < s.len()
            && is_ident_start(s[k]) {
            if let Ok((n, j)) = p_ident(s, k) {
                lemma_ident_name(s, k);
                lemma_word_chars(s, i);
                assert(word_len(s, i) > 0);
                assert forall|q: int| 0 <= q < w.len() implies #[trigger] is_ident_char(w[q]) by {
                    assert(w[q] == s[i + q]);
                }
                assert(w[0] == s[i]);
                assert(is_name(w));
                let m = skip_ws(s, j + 1);
                lemma_wf_expr(s, m);
            }
        }
    }
}

proof fn lemma_wf_stmts(s: Seq<char>, i: int)
    requires
        0 <= i,
    ensures
        p_stmts(s, i) is Ok ==> forall|k: int|
            0 <= k < p_stmts(s, i)->Ok_0.0.len() ==> wf_stmt(#[trigger] p_stmts(s, i)->Ok_0.0[k]),
    decreases remaining(s, i),
{
    if !at(s, i, '}') && i < s.len() {
        lemma_wf_stmt(s, i);
        if let Ok((x, j)) = p_stmt(s, i) {
            if at(s, j, ';') && i <= j {
                let k = skip_ws(s, j + 1);
                lemma_wf_stmts(s, k);
                if let Ok((xs, m)) = p_stmts(s, k) {
                    let r = seq![x] + xs;
                    assert forall|q: int| 0 <= q < r.len() implies wf_stmt(#[trigger] r[q]) by {
                        if q > 0 {
                            assert(r[q] == xs[q - 1]);
                        }
                    }
                }
            }
        }
    }
}

proof fn lemma_wf_param_list(s: Seq<char>, i: int)
    requires
        0 <= i,
    ensures
        p_param_list(s, i) is Ok ==> forall|k: int|
            0 <= k < p_param_list(s, i)->Ok_0.0.len() ==> wf_param(
                #[trigger] p_param_list(s, i)->Ok_0.0[k],
            ),
    decreases remaining(s, i),
{
    if let Ok((w, j)) = p_ident(s, i) {
        lemma_ident_name(s, i);
        if at(s, j, ',') {
            let k = skip_ws(s, j + 1);
            lemma_wf_param_list(s, k);
            if let Ok((ws, m)) = p_param_list(s, k) {
                let r = seq![Tree::Var(w)] + ws;
                assert forall|q: int| 0 <= q < r.len() implies wf_param(#[trigger] r[q]) by {
                    if q > 0 {
                        assert(r[q] == ws[q - 1]);
                    }
                }
            }
        }
    }
}

proof fn lemma_wf_func(s: Seq<char>, i: int)
    requires
        0 <= i,
    ensures
        p_func(s, i) is Ok ==> wf_func(p_func(s, i)->Ok_0.0),
{
    reveal(p_func);
    let i0 = skip_ws(s, word_end(s, i));
    if let Ok((t, j)) = p_ident(s, i0) {
        lemma_ident_name(s, i0);
        if let Ok((n, k)) = p_ident(s, j) {
            lemma_ident_name(s, j);
            let m = skip_ws(s, k + 1);
            if !at(s, m, ')') {
                lemma_wf_param_list(s, m);
            }
            if let Ok((ps, q)) = p_params(s, m) {
                if at(s, q, '{') {
                    lemma_wf_stmts(s, skip_ws(s, q + 1));
                }
            }
        }
    }
}

proof fn lemma_wf_funcs(s: Seq<char>, i: int)
    requires
        0 <= i,
    ensures
        p_funcs(s, i) is Ok ==> wf_program(p_funcs(s, i)->Ok_0),
    decreases remaining(s, i),
{
    if i < s.len() {
        lemma_wf_func(s, i);
        if let Ok((f, j)) = p_func(s, i) {
            if i < j {
                lemma_wf_funcs(s, j);
                if let Ok(fs) = p_funcs(s, j) {
                    let r = seq![f] + fs;
                    assert forall|q: int| 0 <= q < r.len() implies wf_func(#[trigger] r[q]) by {
                        if q > 0 {
                            assert(r[q] == fs[q - 1]);
                        }
                    }
                }
            }
        }
    }
}

/// Every program that the parser accepts is well formed, and its canonical
/// text is read back as the same program: parsing, printing and parsing
/// again loses nothing.
pub proof fn law_parsed_program_prints_back(s: Seq<char>)
    requires
        p_program(s) is Ok,
    ensures
        wf_program(p_program(s)->Ok_0),
        p_program(program_text(p_program(s)->Ok_0)) == p_program(s),
{
    lemma_wf_funcs(s, skip_ws(s, 0));
    law_program_text_parses_back(p_program(s)->Ok_0);
}

} // verus!

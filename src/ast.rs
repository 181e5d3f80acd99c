use vstd::prelude::*;

verus! {

broadcast use vstd::std_specs::vec::group_vec_axioms;

/// A literal value. Integer literals are 64-bit signed; string literals hold
/// their characters verbatim, with no escape processing.
#[derive(Debug)]
pub enum Lit {
    Int(i64),
    Str(String),
}

/// A node of the syntax tree: expressions, statements and function definitions.
#[derive(Debug)]
pub enum Expr {
    Lit(Lit),
    Var(String),
    Type(String),
    Neg(Box<Expr>),
    Add(Box<Expr>, Box<Expr>),
    Sub(Box<Expr>, Box<Expr>),
    Mul(Box<Expr>, Box<Expr>),
    Div(Box<Expr>, Box<Expr>),
    Call(Box<Expr>, Vec<Expr>),
    Assign { name: Box<Expr>, typ: Box<Expr>, rhs: Box<Expr> },
    Func { name: Box<Expr>, return_type: Box<Expr>, args: Vec<Box<Expr>>, body: Box<Vec<Expr>> },
    Return { value: Box<Expr> },
}

/// The mathematical model of a syntax tree node.
pub enum Tree {
    Int(int),
    Str(Seq<char>),
    Var(Seq<char>),
    Type(Seq<char>),
    Neg(Box<Tree>),
    Add(Box<Tree>, Box<Tree>),
    Sub(Box<Tree>, Box<Tree>),
    Mul(Box<Tree>, Box<Tree>),
    Div(Box<Tree>, Box<Tree>),
    Call(Box<Tree>, Seq<Tree>),
    Assign { name: Box<Tree>, typ: Box<Tree>, rhs: Box<Tree> },
    Func { name: Box<Tree>, return_type: Box<Tree>, args: Seq<Tree>, body: Seq<Tree> },
    Return { value: Box<Tree> },
}

impl Expr {
    /// The model of this node.
    pub open spec fn tree(&self) -> Tree
        decreases self,
    {
        match self {
            Expr::Lit(Lit::Int(n)) => Tree::Int(*n as int),
            Expr::Lit(Lit::Str(s)) => Tree::Str(s@),
            Expr::Var(s) => Tree::Var(s@),
            Expr::Type(s) => Tree::Type(s@),
            Expr::Neg(a) => Tree::Neg(Box::new(a.tree())),
            Expr::Add(a, b) => Tree::Add(Box::new(a.tree()), Box::new(b.tree())),
            Expr::Sub(a, b) => Tree::Sub(Box::new(a.tree()), Box::new(b.tree())),
            Expr::Mul(a, b) => Tree::Mul(Box::new(a.tree()), Box::new(b.tree())),
            Expr::Div(a, b) => Tree::Div(Box::new(a.tree()), Box::new(b.tree())),
            Expr::Call(f, xs) => Tree::Call(
                Box::new(f.tree()),
                Seq::new(
                    xs@.len(),
                    |i: int|
                        if 0 <= i < xs@.len() {
                            xs@[i].tree()
                        } else {
                            Tree::Int(0)
                        },
                ),
            ),
            Expr::Assign { name, typ, rhs } => Tree::Assign {
                name: Box::new(name.tree()),
                typ: Box::new(typ.tree()),
                rhs: Box::new(rhs.tree()),
            },
            Expr::Func { name, return_type, args, body } => Tree::Func {
                name: Box::new(name.tree()),
                return_type: Box::new(return_type.tree()),
                args: Seq::new(
                    args@.len(),
                    |i: int|
                        if 0 <= i < args@.len() {
                            args@[i].tree()
                        } else {
                            Tree::Int(0)
                        },
                ),
                body: Seq::new(
                    body@.len(),
                    |i: int|
                        if 0 <= i < body@.len() {
                            body@[i].tree()
                        } else {
                            Tree::Int(0)
                        },
                ),
            },
            Expr::Return { value } => Tree::Return { value: Box::new(value.tree()) },
        }
    }
}

/// The models of a sequence of nodes, in order.
pub open spec fn trees(v: Seq<Expr>) -> Seq<Tree> {
    v.map_values(|e: Expr| e.tree())
}

/// The models of a sequence of boxed nodes, in order.
pub open spec fn boxed_trees(v: Seq<Box<Expr>>) -> Seq<Tree> {
    v.map_values(|e: Box<Expr>| e.tree())
}

} // verus!

//! Expression trees: immutable, recursively owned arithmetic expressions,
//! their postfix rendering, and the one-level decomposition that undo uses.

use vstd::prelude::*;

use crate::text::is_number_text;
use crate::token::SpecToken;

verus! {

/// An arithmetic expression. A leaf keeps the literal text of its number;
/// every other variant owns its operand subtrees. Values are only ever built
/// by a successful reduction, so a leaf's text always lies in the number
/// grammar.
#[derive(Debug)]
pub enum Expr {
    Number(String),
    Add(Box<Expr>, Box<Expr>),
    Subtract(Box<Expr>, Box<Expr>),
    Divide(Box<Expr>, Box<Expr>),
    Multiply(Box<Expr>, Box<Expr>),
    Sqrt(Box<Expr>),
    Power(Box<Expr>, Box<Expr>),
}

/// The mathematical model of an expression tree.
pub enum SpecExpr {
    Number(Seq<char>),
    Add(Box<SpecExpr>, Box<SpecExpr>),
    Subtract(Box<SpecExpr>, Box<SpecExpr>),
    Divide(Box<SpecExpr>, Box<SpecExpr>),
    Multiply(Box<SpecExpr>, Box<SpecExpr>),
    Sqrt(Box<SpecExpr>),
    Power(Box<SpecExpr>, Box<SpecExpr>),
}

pub open spec fn expr_view(e: Expr) -> SpecExpr
    decreases e,
{
    match e {
        Expr::Number(s) => SpecExpr::Number(s@),
        Expr::Add(x, y) => SpecExpr::Add(Box::new(expr_view(*x)), Box::new(expr_view(*y))),
        Expr::Subtract(x, y) => SpecExpr::Subtract(
            Box::new(expr_view(*x)),
            Box::new(expr_view(*y)),
        ),
        Expr::Divide(x, y) => SpecExpr::Divide(Box::new(expr_view(*x)), Box::new(expr_view(*y))),
        Expr::Multiply(x, y) => SpecExpr::Multiply(
            Box::new(expr_view(*x)),
            Box::new(expr_view(*y)),
        ),
        Expr::Sqrt(x) => SpecExpr::Sqrt(Box::new(expr_view(*x))),
        Expr::Power(x, y) => SpecExpr::Power(Box::new(expr_view(*x)), Box::new(expr_view(*y))),
    }
}

impl View for Expr {
    type V = SpecExpr;

    open spec fn view(&self) -> SpecExpr {
        expr_view(*self)
    }
}

/// Every number leaf holds a text in the floating-point literal grammar.
pub open spec fn wf_expr(e: SpecExpr) -> bool
    decreases e,
{
    match e {
        SpecExpr::Number(s) => is_number_text(s),
        SpecExpr::Add(x, y) => wf_expr(*x) && wf_expr(*y),
        SpecExpr::Subtract(x, y) => wf_expr(*x) && wf_expr(*y),
        SpecExpr::Divide(x, y) => wf_expr(*x) && wf_expr(*y),
        SpecExpr::Multiply(x, y) => wf_expr(*x) && wf_expr(*y),
        SpecExpr::Sqrt(x) => wf_expr(*x),
        SpecExpr::Power(x, y) => wf_expr(*x) && wf_expr(*y),
    }
}

/// The postfix rendering of an expression: operands first, the operator
/// symbol last, single spaces in between.
pub open spec fn render_expr(e: SpecExpr) -> Seq<char>
    decreases e,
{
    match e {
        SpecExpr::Number(s) => s,
        SpecExpr::Add(x, y) => render_expr(*x) + seq![' '] + render_expr(*y) + seq![' ', '+'],
        SpecExpr::Subtract(x, y) => render_expr(*x) + seq![' '] + render_expr(*y) + seq![' ', '-'],
        SpecExpr::Divide(x, y) => render_expr(*x) + seq![' '] + render_expr(*y) + seq![' ', '/'],
        SpecExpr::Multiply(x, y) => render_expr(*x) + seq![' '] + render_expr(*y) + seq![' ', '*'],
        SpecExpr::Sqrt(x) => render_expr(*x) + seq![' ', 's', 'q', 'r', 't'],
        SpecExpr::Power(x, y) => render_expr(*x) + seq![' '] + render_expr(*y) + seq![' ', '^'],
    }
}

/// The postfix token sequence of an expression: feeding these tokens to an
/// empty stack machine rebuilds the expression.
pub open spec fn expr_tokens(e: SpecExpr) -> Seq<SpecToken>
    decreases e,
{
    match e {
        SpecExpr::Number(s) => seq![SpecToken::Number(s)],
        SpecExpr::Add(x, y) => expr_tokens(*x) + expr_tokens(*y) + seq![SpecToken::Plus],
        SpecExpr::Subtract(x, y) => expr_tokens(*x) + expr_tokens(*y) + seq![SpecToken::Minus],
        SpecExpr::Divide(x, y) => expr_tokens(*x) + expr_tokens(*y) + seq![SpecToken::Slash],
        SpecExpr::Multiply(x, y) => expr_tokens(*x) + expr_tokens(*y) + seq![SpecToken::Star],
        SpecExpr::Sqrt(x) => expr_tokens(*x) + seq![SpecToken::Sqrt],
        SpecExpr::Power(x, y) => expr_tokens(*x) + expr_tokens(*y) + seq![SpecToken::Caret],
    }
}

/// The immediate children of an expression, in operand order; a number leaf
/// has none.
pub open spec fn children_of(e: SpecExpr) -> Seq<SpecExpr> {
    match e {
        SpecExpr::Number(_) => seq![],
        SpecExpr::Add(x, y) => seq![*x, *y],
        SpecExpr::Subtract(x, y) => seq![*x, *y],
        SpecExpr::Divide(x, y) => seq![*x, *y],
        SpecExpr::Multiply(x, y) => seq![*x, *y],
        SpecExpr::Sqrt(x) => seq![*x],
        SpecExpr::Power(x, y) => seq![*x, *y],
    }
}

impl Expr {
    /// A deep copy with the same model.
    pub fn duplicate(&self) -> (r: Expr)
        ensures
            r@ == self@,
        decreases *self,
    {
        match self {
            Expr::Number(s) => Expr::Number(s.clone()),
            Expr::Add(x, y) => Expr::Add(Box::new(x.duplicate()), Box::new(y.duplicate())),
            Expr::Subtract(x, y) => Expr::Subtract(
                Box::new(x.duplicate()),
                Box::new(y.duplicate()),
            ),
            Expr::Divide(x, y) => Expr::Divide(Box::new(x.duplicate()), Box::new(y.duplicate())),
            Expr::Multiply(x, y) => Expr::Multiply(
                Box::new(x.duplicate()),
                Box::new(y.duplicate()),
            ),
            Expr::Sqrt(x) => Expr::Sqrt(Box::new(x.duplicate())),
            Expr::Power(x, y) => Expr::Power(Box::new(x.duplicate()), Box::new(y.duplicate())),
        }
    }

    /// The shallow, one-level decomposition that undo performs: copies of
    /// the immediate children in operand order.
    pub fn undo(&self) -> (r: Vec<Expr>)
        ensures
            r@.map_values(|e: Expr| e@) == children_of(self@),
    {
        let mut r: Vec<Expr> = Vec::new();
        match self {
            Expr::Number(_) => {},
            Expr::Add(x, y) | Expr::Subtract(x, y) | Expr::Divide(x, y) | Expr::Multiply(x, y)
                | Expr::Power(x, y) => {
                r.push(x.duplicate());
                r.push(y.duplicate());
            },
            Expr::Sqrt(x) => {
                r.push(x.duplicate());
            },
        }
        proof {
            assert(r@.map_values(|e: Expr| e@) =~= children_of(self@));
        }
        r
    }

    /// Renders the expression in its canonical postfix form.
    pub fn render(&self) -> (r: String)
        ensures
            r@ == render_expr(self@),
        decreases *self,
    {
        match self {
            Expr::Number(s) => s.clone(),
            Expr::Add(x, y) => {
                let ry = y.render();
                let r = Self::join_binary(x.render(), ry.as_str(), " +");
                proof {
                    reveal_strlit(" +");
                    assert(" +"@ =~= seq![' ', '+']);
                }
                r
            },
            Expr::Subtract(x, y) => {
                let ry = y.render();
                let r = Self::join_binary(x.render(), ry.as_str(), " -");
                proof {
                    reveal_strlit(" -");
                    assert(" -"@ =~= seq![' ', '-']);
                }
                r
            },
            Expr::Divide(x, y) => {
                let ry = y.render();
                let r = Self::join_binary(x.render(), ry.as_str(), " /");
                proof {
                    reveal_strlit(" /");
                    assert(" /"@ =~= seq![' ', '/']);
                }
                r
            },
            Expr::Multiply(x, y) => {
                let ry = y.render();
                let r = Self::join_binary(x.render(), ry.as_str(), " *");
                proof {
                    reveal_strlit(" *");
                    assert(" *"@ =~= seq![' ', '*']);
                }
                r
            },
            Expr::Power(x, y) => {
                let ry = y.render();
                let r = Self::join_binary(x.render(), ry.as_str(), " ^");
                proof {
                    reveal_strlit(" ^");
                    assert(" ^"@ =~= seq![' ', '^']);
                }
                r
            },
            Expr::Sqrt(x) => {
                let mut r = x.render();
                r.append(" sqrt");
                proof {
                    reveal_strlit(" sqrt");
                    assert(" sqrt"@ =~= seq![' ', 's', 'q', 'r', 't']);
                }
                r
            },
        }
    }

    fn join_binary(rx: String, ry: &str, suffix: &str) -> (r: String)
        ensures
            r@ == rx@ + seq![' '] + ry@ + suffix@,
    {
        let mut r = rx;
        r.append(" ");
        r.append(ry);
        r.append(suffix);
        proof {
            reveal_strlit(" ");
            assert(" "@ =~= seq![' ']);
            assert(r@ =~= rx@ + seq![' '] + ry@ + suffix@);
        }
        r
    }
}

} // verus!

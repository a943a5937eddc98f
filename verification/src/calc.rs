//! The stack machine: feeds classified tokens over an operand stack of
//! expression trees, reducing operators, and undoing the most recent
//! reduction on demand.

use vstd::prelude::*;

use crate::expr::{children_of, render_expr, wf_expr, Expr, SpecExpr};
use crate::text::{fragments, split_words, words};
use crate::token::{
    all_wf_tokens, classify, infix_tokens, lemma_classified_wf, lemma_to_postfix_wf,
    postfix_tokens, to_postfix, views_of, wf_token, SpecToken, Token,
};

verus! {

/// What a feed can fail with. Every error is terminal for the batch being
/// fed and leaves the engine usable.
#[derive(Debug)]
pub enum CalcError {
    MissingOperand,
    MissingOperands,
    UnknownToken(String),
    NothingToUndo,
}

/// The mathematical model of an error.
pub enum SpecCalcError {
    MissingOperand,
    MissingOperands,
    UnknownToken(Seq<char>),
    NothingToUndo,
}

impl View for CalcError {
    type V = SpecCalcError;

    open spec fn view(&self) -> SpecCalcError {
        match self {
            CalcError::MissingOperand => SpecCalcError::MissingOperand,
            CalcError::MissingOperands => SpecCalcError::MissingOperands,
            CalcError::UnknownToken(t) => SpecCalcError::UnknownToken(t@),
            CalcError::NothingToUndo => SpecCalcError::NothingToUndo,
        }
    }
}

/// The human-readable message of an error; an unknown token embeds its
/// offending text.
pub open spec fn error_message(e: SpecCalcError) -> Seq<char> {
    match e {
        SpecCalcError::MissingOperand => "Missing operand"@,
        SpecCalcError::MissingOperands => "Missing operands"@,
        SpecCalcError::UnknownToken(t) => "Unknown token: "@ + t,
        SpecCalcError::NothingToUndo => "Nothing to undo"@,
    }
}

impl CalcError {
    /// The message shown to a caller.
    pub fn message(&self) -> (r: String)
        ensures
            r@ == error_message(self@),
    {
        match self {
            CalcError::MissingOperand => String::from_str("Missing operand"),
            CalcError::MissingOperands => String::from_str("Missing operands"),
            CalcError::NothingToUndo => String::from_str("Nothing to undo"),
            CalcError::UnknownToken(t) => {
                let mut r = String::from_str("Unknown token: ");
                r.append(t.as_str());
                r
            },
        }
    }
}

/// Selects how a feed reads its text: conventional infix notation, or
/// postfix words split on whitespace.
pub enum Format<'a> {
    Infix(&'a str),
    Postfix(&'a str),
}

/// The binary operator tokens the stack machine reduces.
pub open spec fn is_binary_op(t: SpecToken) -> bool {
    ||| t is Plus
    ||| t is Minus
    ||| t is Slash
    ||| t is Star
    ||| t is Caret
}

/// The node a binary operator builds from the two popped operands: `x` was
/// pushed before `y`.
pub open spec fn combine(t: SpecToken, x: SpecExpr, y: SpecExpr) -> SpecExpr {
    if t is Plus {
        SpecExpr::Add(Box::new(x), Box::new(y))
    } else if t is Minus {
        SpecExpr::Subtract(Box::new(x), Box::new(y))
    } else if t is Slash {
        SpecExpr::Divide(Box::new(x), Box::new(y))
    } else if t is Star {
        SpecExpr::Multiply(Box::new(x), Box::new(y))
    } else {
        SpecExpr::Power(Box::new(x), Box::new(y))
    }
}

/// One transition of the stack machine: the stack after the token, and the
/// error it raises, if any. A binary operator facing a single operand
/// consumes it before failing; processing a whole batch stops at the first
/// error, leaving exactly this stack.
pub open spec fn step(mem: Seq<SpecExpr>, t: SpecToken) -> (Seq<SpecExpr>, Option<SpecCalcError>) {
    if is_binary_op(t) {
        if mem.len() >= 2 {
            (
                mem.drop_last().drop_last().push(
                    combine(t, mem[mem.len() - 2], mem.last()),
                ),
                None,
            )
        } else if mem.len() == 1 {
            (mem.drop_last(), Some(SpecCalcError::MissingOperand))
        } else {
            (mem, Some(SpecCalcError::MissingOperands))
        }
    } else {
        match t {
            SpecToken::Sqrt => if mem.len() >= 1 {
                (mem.drop_last().push(SpecExpr::Sqrt(Box::new(mem.last()))), None)
            } else {
                (mem, Some(SpecCalcError::MissingOperand))
            },
            SpecToken::Undo => if mem.len() >= 1 {
                (mem.drop_last() + children_of(mem.last()), None)
            } else {
                (mem, Some(SpecCalcError::NothingToUndo))
            },
            SpecToken::Number(s) => (mem.push(SpecExpr::Number(s)), None),
            SpecToken::Unknown(u) => (mem, Some(SpecCalcError::UnknownToken(u))),
            _ => (mem, None),
        }
    }
}

/// Transitions for a whole token sequence, stopping at the first error.
pub open spec fn run(mem: Seq<SpecExpr>, ts: Seq<SpecToken>) -> (
    Seq<SpecExpr>,
    Option<SpecCalcError>,
)
    decreases ts.len(),
{
    if ts.len() == 0 {
        (mem, None)
    } else {
        let first = step(mem, ts[0]);
        if first.1 is Some {
            first
        } else {
            run(first.0, ts.skip(1))
        }
    }
}

/// The children of a well-formed expression are well-formed.
pub proof fn lemma_children_wf(e: SpecExpr)
    requires
        wf_expr(e),
    ensures
        forall|i: int| 0 <= i < children_of(e).len() ==> wf_expr(#[trigger] children_of(e)[i]),
{
    match e {
        SpecExpr::Number(_) => {},
        SpecExpr::Add(x, y) => {},
        SpecExpr::Subtract(x, y) => {},
        SpecExpr::Divide(x, y) => {},
        SpecExpr::Multiply(x, y) => {},
        SpecExpr::Sqrt(x) => {},
        SpecExpr::Power(x, y) => {},
    }
}

pub open spec fn mem_views(v: Seq<Expr>) -> Seq<SpecExpr> {
    v.map_values(|e: Expr| e@)
}

proof fn lemma_mem_push(v: Seq<Expr>, e: Expr)
    ensures
        mem_views(v.push(e)) == mem_views(v).push(e@),
{
    assert(mem_views(v.push(e)) =~= mem_views(v).push(e@));
}

proof fn lemma_mem_drop(v: Seq<Expr>)
    requires
        v.len() > 0,
    ensures
        mem_views(v.drop_last()) == mem_views(v).drop_last(),
{
    assert(mem_views(v.drop_last()) =~= mem_views(v).drop_last());
}

/// The engine: an operand stack ("memory") of expression trees. After any
/// sequence of feeds the stack holds exactly the top-level results not yet
/// combined.
#[derive(Debug)]
pub struct Calc {
    memory: Vec<Expr>,
}

impl View for Calc {
    type V = Seq<SpecExpr>;

    closed spec fn view(&self) -> Seq<SpecExpr> {
        mem_views(self.memory@)
    }
}

/// Every expression of a stack is well-formed.
pub open spec fn all_wf_exprs(mem: Seq<SpecExpr>) -> bool {
    forall|i: int| 0 <= i < mem.len() ==> wf_expr(#[trigger] mem[i])
}

impl Calc {
    /// Every expression on the stack is well-formed. Feeds preserve this,
    /// even when they fail.
    pub open spec fn wf(self) -> bool {
        all_wf_exprs(self@)
    }

    /// A fresh engine with an empty stack.
    pub fn empty() -> (c: Calc)
        ensures
            c@ == Seq::<SpecExpr>::empty(),
            c.wf(),
    {
        let c = Calc { memory: Vec::with_capacity(100) };
        proof {
            assert(c@ =~= Seq::<SpecExpr>::empty());
        }
        c
    }

    /// Feeds a single token: the reduction step of the machine.
    fn parse_token(&mut self, token: Token) -> (r: Result<(), CalcError>)
        requires
            old(self).wf(),
            wf_token(token@),
        ensures
            final(self).wf(),
            final(self)@ == step(old(self)@, token@).0,
            r is Ok <==> step(old(self)@, token@).1 is None,
            r matches Err(e) ==> step(old(self)@, token@).1 == Some(e@),
    {
        let ghost m0 = self@;
        match token {
            Token::Plus | Token::Minus | Token::Slash | Token::Star | Token::Caret => {
                proof {
                    if self.memory@.len() > 0 {
                        lemma_mem_drop(self.memory@);
                    }
                }
                let y = match self.memory.pop() {
                    Some(v) => v,
                    None => {
                        return Err(CalcError::MissingOperands);
                    },
                };
                proof {
                    if self.memory@.len() > 0 {
                        lemma_mem_drop(self.memory@);
                    }
                }
                let x = match self.memory.pop() {
                    Some(v) => v,
                    None => {
                        return Err(CalcError::MissingOperand);
                    },
                };
                let combined = match token {
                    Token::Plus => Expr::Add(Box::new(x), Box::new(y)),
                    Token::Minus => Expr::Subtract(Box::new(x), Box::new(y)),
                    Token::Slash => Expr::Divide(Box::new(x), Box::new(y)),
                    Token::Star => Expr::Multiply(Box::new(x), Box::new(y)),
                    _ => Expr::Power(Box::new(x), Box::new(y)),
                };
                proof {
                    lemma_mem_push(self.memory@, combined);
                }
                self.memory.push(combined);
                proof {
                    assert(self@ =~= step(m0, token@).0);
                }
                Ok(())
            },
            Token::Sqrt => {
                proof {
                    if self.memory@.len() > 0 {
                        lemma_mem_drop(self.memory@);
                    }
                }
                let x = match self.memory.pop() {
                    Some(v) => v,
                    None => {
                        return Err(CalcError::MissingOperand);
                    },
                };
                let combined = Expr::Sqrt(Box::new(x));
                proof {
                    lemma_mem_push(self.memory@, combined);
                }
                self.memory.push(combined);
                proof {
                    assert(self@ =~= step(m0, token@).0);
                }
                Ok(())
            },
            Token::Undo => {
                proof {
                    if self.memory@.len() > 0 {
                        lemma_mem_drop(self.memory@);
                    }
                }
                let x = match self.memory.pop() {
                    Some(v) => v,
                    None => {
                        return Err(CalcError::NothingToUndo);
                    },
                };
                proof {
                    lemma_children_wf(x@);
                }
                let children = x.undo();
                let ghost base = self@;
                let ghost kids = children_of(x@);
                let mut k: usize = 0;
                proof {
                    assert(base + kids.take(0) =~= base);
                }
                while k < children.len()
                    invariant
                        k <= children@.len(),
                        children@.map_values(|e: Expr| e@) == kids,
                        forall|i: int| 0 <= i < kids.len() ==> wf_expr(#[trigger] kids[i]),
                        forall|i: int| 0 <= i < base.len() ==> wf_expr(#[trigger] base[i]),
                        self@ == base + kids.take(k as int),
                    decreases children@.len() - k,
                {
                    let c = children[k].duplicate();
                    proof {
                        lemma_mem_push(self.memory@, c);
                        assert(base + kids.take(k as int) + seq![kids[k as int]] =~= base
                            + kids.take(k + 1));
                    }
                    self.memory.push(c);
                    k = k + 1;
                }
                proof {
                    assert(kids.take(children@.len() as int) =~= kids);
                    assert(self@ =~= step(m0, token@).0);
                }
                Ok(())
            },
            Token::Number(s) => {
                let leaf = Expr::Number(s);
                proof {
                    lemma_mem_push(self.memory@, leaf);
                }
                self.memory.push(leaf);
                proof {
                    assert(self@ =~= step(m0, token@).0);
                }
                Ok(())
            },
            Token::Unknown(t) => Err(CalcError::UnknownToken(t)),
            Token::GroupOpen | Token::GroupClose => Ok(()),
        }
    }

    /// Feeds an already classified token sequence, stopping at the first
    /// error.
    #[verifier::loop_isolation(false)]
    fn drive(&mut self, tokens: Vec<Token>) -> (r: Result<(), CalcError>)
        requires
            old(self).wf(),
            all_wf_tokens(views_of(tokens@)),
        ensures
            final(self).wf(),
            final(self)@ == run(old(self)@, views_of(tokens@)).0,
            r is Ok <==> run(old(self)@, views_of(tokens@)).1 is None,
            r matches Err(e) ==> run(old(self)@, views_of(tokens@)).1 == Some(e@),
    {
        let ghost ts = views_of(tokens@);
        let ghost m0 = self@;
        let mut tokens = tokens;
        while tokens.len() > 0
            invariant
                self.wf(),
                all_wf_tokens(views_of(tokens@)),
                run(m0, ts) == run(self@, views_of(tokens@)),
            decreases tokens@.len(),
        {
            let ghost pre = views_of(tokens@);
            let t = tokens.remove(0);
            proof {
                assert(views_of(tokens@) =~= pre.skip(1));
                assert(t@ == pre[0]);
            }
            let ghost mcur = self@;
            match self.parse_token(t) {
                Ok(_) => {
                    proof {
                        assert(run(mcur, pre) == run(self@, pre.skip(1)));
                    }
                },
                Err(e) => {
                    proof {
                        assert(run(mcur, pre).1 == Some(e@));
                        assert(run(mcur, pre).0 == self@);
                    }
                    return Err(e);
                },
            }
        }
        proof {
            assert(views_of(tokens@) =~= Seq::<SpecToken>::empty());
        }
        Ok(())
    }
}

/// The token sequence a feed processes: infix text is scanned and reordered
/// into postfix; postfix text is split on whitespace and classified as it
/// stands.
pub open spec fn feed_tokens<'a>(f: Format<'a>) -> Seq<SpecToken> {
    match f {
        Format::Infix(s) => to_postfix(infix_tokens(s@)),
        Format::Postfix(s) => postfix_tokens(s@),
    }
}

impl Calc {
    /// The sole mutating entry point: reads the text per the chosen format
    /// and feeds the resulting postfix token sequence, stopping at the first
    /// error and leaving the stack in the state reached by then.
    pub fn input(&mut self, input: Format) -> (r: Result<(), CalcError>)
        requires
            old(self).wf(),
        ensures
            final(self).wf(),
            final(self)@ == run(old(self)@, feed_tokens(input)).0,
            r is Ok <==> run(old(self)@, feed_tokens(input)).1 is None,
            r matches Err(e) ==> run(old(self)@, feed_tokens(input)).1 == Some(e@),
    {
        match input {
            Format::Infix(text_in) => {
                let tokens = Token::shunting_yard(text_in);
                proof {
                    lemma_classified_wf(fragments(text_in@));
                    lemma_to_postfix_wf(infix_tokens(text_in@));
                }
                self.drive(tokens)
            },
            Format::Postfix(text_in) => {
                let parts = split_words(text_in);
                let ghost pt = postfix_tokens(text_in@);
                let mut tokens: Vec<Token> = Vec::new();
                let mut i: usize = 0;
                proof {
                    assert(views_of(tokens@) =~= pt.take(0));
                }
                while i < parts.len()
                    invariant
                        i <= parts@.len(),
                        parts@.map_values(|w: String| w@) == words(text_in@),
                        pt == postfix_tokens(text_in@),
                        pt.len() == parts@.len(),
                        views_of(tokens@) == pt.take(i as int),
                    decreases parts@.len() - i,
                {
                    let t = Token::new(parts[i].as_str());
                    proof {
                        assert(t@ == classify(words(text_in@)[i as int]));
                        assert(t@ == pt[i as int]);
                        assert(views_of(tokens@.push(t)) =~= views_of(tokens@).push(t@));
                        assert(pt.take(i as int).push(pt[i as int]) =~= pt.take(i + 1));
                    }
                    tokens.push(t);
                    i = i + 1;
                }
                proof {
                    assert(pt.take(parts@.len() as int) =~= pt);
                    lemma_classified_wf(words(text_in@));
                }
                self.drive(tokens)
            },
        }
    }

    /// Builds an engine by feeding one batch of postfix text into an empty
    /// stack; a failing batch yields the error instead.
    pub fn postfix(input: &str) -> (r: Result<Calc, CalcError>)
        ensures
            r matches Ok(c) ==> c@ == run(Seq::<SpecExpr>::empty(), postfix_tokens(input@)).0
                && c.wf(),
            r is Ok <==> run(Seq::<SpecExpr>::empty(), postfix_tokens(input@)).1 is None,
            r matches Err(e) ==> run(Seq::<SpecExpr>::empty(), postfix_tokens(input@)).1 == Some(
                e@,
            ),
    {
        let mut c = Calc::empty();
        match c.input(Format::Postfix(input)) {
            Ok(_) => Ok(c),
            Err(e) => Err(e),
        }
    }

    /// Builds an engine by feeding one batch of infix text into an empty
    /// stack; a failing batch yields the error instead.
    pub fn infix(input: &str) -> (r: Result<Calc, CalcError>)
        ensures
            r matches Ok(c) ==> c@ == run(
                Seq::<SpecExpr>::empty(),
                to_postfix(infix_tokens(input@)),
            ).0 && c.wf(),
            r is Ok <==> run(Seq::<SpecExpr>::empty(), to_postfix(infix_tokens(input@))).1
                is None,
            r matches Err(e) ==> run(Seq::<SpecExpr>::empty(), to_postfix(infix_tokens(input@))).1
                == Some(e@),
    {
        let mut c = Calc::empty();
        match c.input(Format::Infix(input)) {
            Ok(_) => Ok(c),
            Err(e) => Err(e),
        }
    }

    /// The operand stack, bottom to top. Callers that evaluate numerically
    /// read the expression trees from here.
    pub fn memory(&self) -> (r: &Vec<Expr>)
        ensures
            mem_views(r@) == self@,
    {
        &self.memory
    }

    /// A deep copy of the engine, as callers clone before a speculative feed
    /// and discard the clone on error.
    pub fn duplicate(&self) -> (c: Calc)
        ensures
            c@ == self@,
    {
        let mut memory: Vec<Expr> = Vec::new();
        let mut i: usize = 0;
        proof {
            assert(mem_views(memory@) =~= self@.take(0));
        }
        while i < self.memory.len()
            invariant
                i <= self.memory@.len(),
                mem_views(memory@) == self@.take(i as int),
            decreases self.memory@.len() - i,
        {
            let e = self.memory[i].duplicate();
            proof {
                lemma_mem_push(memory@, e);
                assert(self@.take(i as int).push(self@[i as int]) =~= self@.take(i + 1));
            }
            memory.push(e);
            i = i + 1;
        }
        proof {
            assert(self@.take(self.memory@.len() as int) =~= self@);
        }
        Calc { memory }
    }
}

impl Default for Calc {
    /// A fresh engine, as a fresh session starts with.
    fn default() -> (c: Calc)
        ensures
            c@ == Seq::<SpecExpr>::empty(),
            c.wf(),
    {
        Calc::empty()
    }
}

/// The rendering of the whole stack: each expression in postfix form, bottom
/// to top, joined by single spaces.
pub open spec fn render_memory(mem: Seq<SpecExpr>) -> Seq<char>
    decreases mem.len(),
{
    if mem.len() == 0 {
        Seq::<char>::empty()
    } else if mem.len() == 1 {
        render_expr(mem[0])
    } else {
        render_expr(mem[0]) + seq![' '] + render_memory(mem.skip(1))
    }
}

pub proof fn lemma_render_memory_push(mem: Seq<SpecExpr>, e: SpecExpr)
    ensures
        render_memory(mem.push(e)) == if mem.len() == 0 {
            render_expr(e)
        } else {
            render_memory(mem) + seq![' '] + render_expr(e)
        },
    decreases mem.len(),
{
    if mem.len() == 0 {
        assert(mem.push(e)[0] == e);
    } else {
        assert(mem.push(e).skip(1) =~= mem.skip(1).push(e));
        lemma_render_memory_push(mem.skip(1), e);
        assert(mem.push(e)[0] == mem[0]);
        if mem.len() > 1 {
            assert(render_expr(mem[0]) + seq![' '] + (render_memory(mem.skip(1)) + seq![' ']
                + render_expr(e)) =~= render_expr(mem[0]) + seq![' '] + render_memory(mem.skip(1))
                + seq![' '] + render_expr(e));
        }
    }
}

impl Calc {
    /// Renders the stack in its canonical postfix form.
    pub fn render(&self) -> (r: String)
        ensures
            r@ == render_memory(self@),
    {
        let mut r = String::new();
        let mut i: usize = 0;
        proof {
            assert(self@.take(0) =~= Seq::<SpecExpr>::empty());
        }
        while i < self.memory.len()
            invariant
                i <= self.memory@.len(),
                r@ == render_memory(self@.take(i as int)),
            decreases self.memory@.len() - i,
        {
            let ghost pre = self@.take(i as int);
            let piece = self.memory[i].render();
            if i > 0 {
                r.append(" ");
            }
            r.append(piece.as_str());
            proof {
                reveal_strlit(" ");
                assert(" "@ =~= seq![' ']);
                lemma_render_memory_push(pre, self@[i as int]);
                assert(pre.push(self@[i as int]) =~= self@.take(i + 1));
            }
            i = i + 1;
        }
        proof {
            assert(self@.take(self.memory@.len() as int) =~= self@);
        }
        r
    }
}

} // verus!

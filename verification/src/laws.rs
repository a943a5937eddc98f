//! The laws the engine obeys, proved over the models: feeds preserve
//! well-formedness, undo structurally inverts the reduction just performed
//! and restores the previous rendering, and rendering a stack and feeding the
//! text back as postfix rebuilds the stack exactly. The last law makes the
//! postfix rendering a canonical interchange form: an engine fed infix text
//! and an engine fed the rendering of the first engine's stack end up with
//! structurally equal stacks, and so with equal evaluations.

use vstd::prelude::*;

use crate::calc::{
    all_wf_exprs, combine, is_binary_op, lemma_children_wf, render_memory, run, step,
};
use crate::expr::{children_of, expr_tokens, render_expr, wf_expr, SpecExpr};
use crate::text::{
    digit_end, fragments, is_number_text, is_space, lemma_number_no_space, lemma_words_concat,
    lemma_words_single, words,
};
use crate::token::{
    all_wf_tokens, classify, infix_tokens, lemma_classified_wf, lemma_to_postfix_wf,
    postfix_tokens, to_postfix, wf_token, SpecToken,
};

verus! {

/// One step of the machine keeps every stacked expression well-formed,
/// whether or not the step errs.
pub proof fn lemma_step_wf(mem: Seq<SpecExpr>, t: SpecToken)
    requires
        all_wf_exprs(mem),
        wf_token(t),
    ensures
        all_wf_exprs(step(mem, t).0),
{
    let m2 = step(mem, t).0;
    if is_binary_op(t) {
        if mem.len() >= 2 {
            assert forall|i: int| 0 <= i < m2.len() implies wf_expr(#[trigger] m2[i]) by {
                if i < m2.len() - 1 {
                    assert(m2[i] == mem[i]);
                } else {
                    assert(wf_expr(mem[mem.len() - 2]) && wf_expr(mem[mem.len() - 1]));
                }
            }
        } else if mem.len() == 1 {
            assert(all_wf_exprs(mem.drop_last()));
        }
    } else {
        match t {
            SpecToken::Sqrt => {
                if mem.len() >= 1 {
                    assert forall|i: int| 0 <= i < m2.len() implies wf_expr(#[trigger] m2[i]) by {
                        if i < m2.len() - 1 {
                            assert(m2[i] == mem[i]);
                        } else {
                            assert(wf_expr(mem[mem.len() - 1]));
                        }
                    }
                }
            },
            SpecToken::Undo => {
                if mem.len() >= 1 {
                    lemma_children_wf(mem.last());
                    assert forall|i: int| 0 <= i < m2.len() implies wf_expr(#[trigger] m2[i]) by {
                        if i < mem.len() - 1 {
                            assert(m2[i] == mem[i]);
                        } else {
                            assert(m2[i] == children_of(mem.last())[i - (mem.len() - 1)]);
                        }
                    }
                }
            },
            SpecToken::Number(s) => {
                assert forall|i: int| 0 <= i < m2.len() implies wf_expr(#[trigger] m2[i]) by {
                    if i < m2.len() - 1 {
                        assert(m2[i] == mem[i]);
                    }
                }
            },
            _ => {},
        }
    }
}

/// A whole feed keeps every stacked expression well-formed.
pub proof fn lemma_run_wf(mem: Seq<SpecExpr>, ts: Seq<SpecToken>)
    requires
        all_wf_exprs(mem),
        all_wf_tokens(ts),
    ensures
        all_wf_exprs(run(mem, ts).0),
    decreases ts.len(),
{
    if ts.len() > 0 {
        lemma_step_wf(mem, ts[0]);
        if !(step(mem, ts[0]).1 is Some) {
            assert(all_wf_tokens(ts.skip(1)));
            lemma_run_wf(step(mem, ts[0]).0, ts.skip(1));
        }
    }
}

/// Undo is a structural inverse of the reduction just performed: after a
/// binary operator combines the two topmost operands, an immediate undo
/// pops the combined node and pushes the operands back, restoring the
/// stack exactly as it was.
pub proof fn lemma_undo_reverses_reduction(mem: Seq<SpecExpr>, t: SpecToken)
    requires
        is_binary_op(t),
        mem.len() >= 2,
    ensures
        step(mem, t).1 is None,
        step(step(mem, t).0, SpecToken::Undo).1 is None,
        step(step(mem, t).0, SpecToken::Undo).0 == mem,
{
    let m1 = step(mem, t).0;
    let node = combine(t, mem[mem.len() - 2], mem.last());
    assert(m1.last() == node);
    assert(children_of(node) =~= seq![mem[mem.len() - 2], mem.last()]);
    assert(m1.drop_last() =~= mem.drop_last().drop_last());
    assert(m1.drop_last() + children_of(node) =~= mem);
}

/// Rendering after an immediate undo equals rendering before the operator
/// that the undo reverses was applied.
pub proof fn lemma_undo_restores_rendering(mem: Seq<SpecExpr>, t: SpecToken)
    requires
        is_binary_op(t),
        mem.len() >= 2,
    ensures
        render_memory(step(step(mem, t).0, SpecToken::Undo).0) == render_memory(mem),
{
    lemma_undo_reverses_reduction(mem, t);
}

/// Each fragment classified, under a name (the same mapping that both
/// tokenizing paths use).
pub open spec fn classified(ws: Seq<Seq<char>>) -> Seq<SpecToken> {
    ws.map_values(|w: Seq<char>| classify(w))
}

proof fn lemma_classified_concat(a: Seq<Seq<char>>, b: Seq<Seq<char>>)
    ensures
        classified(a + b) == classified(a) + classified(b),
{
    assert(classified(a + b) =~= classified(a) + classified(b));
}

/// A text in the number grammar classifies as a number token and nothing
/// else.
proof fn lemma_classify_number(s: Seq<char>)
    requires
        is_number_text(s),
    ensures
        classify(s) == SpecToken::Number(s),
{
    if s.len() == 1 {
        if s[0] == '+' || s[0] == '-' {
            assert(digit_end(s, 1) == 1);
            assert(false);
        } else if s[0] == '/' || s[0] == '÷' || s[0] == '*' || s[0] == '×' || s[0] == '^' || s[0]
            == '(' || s[0] == ')' {
            assert(digit_end(s, 0) == 0);
            assert(digit_end(s, 1) == 1);
            assert(false);
        }
    } else {
        if s =~= seq!['s', 'q', 'r', 't'] {
            assert(digit_end(s, 0) == 0);
            assert(false);
        }
        if s =~= seq!['u', 'n', 'd', 'o'] {
            assert(digit_end(s, 0) == 0);
            assert(false);
        }
    }
}

/// The words of `rx ++ " " ++ ry ++ " c"`, for a non-space symbol `c`.
proof fn lemma_binary_words(rx: Seq<char>, ry: Seq<char>, c: char)
    requires
        !is_space(c),
    ensures
        words(rx + seq![' '] + ry + seq![' ', c]) == words(rx) + words(ry) + seq![seq![c]],
{
    let tail = ry + seq![' '] + seq![c];
    assert(rx + seq![' '] + ry + seq![' ', c] =~= rx + seq![' '] + tail);
    lemma_words_concat(rx, tail);
    lemma_words_concat(ry, seq![c]);
    assert(forall|i: int| 0 <= i < seq![c].len() ==> !is_space(#[trigger] seq![c][i]));
    lemma_words_single(seq![c]);
    assert(words(rx) + (words(ry) + seq![seq![c]]) =~= words(rx) + words(ry) + seq![seq![c]]);
}

/// One binary operator case of `lemma_render_words`: assembles the split of
/// the whole rendering from the splits of the operand renderings.
proof fn lemma_binary_assemble(x: SpecExpr, y: SpecExpr, c: char, t: SpecToken)
    requires
        !is_space(c),
        classify(seq![c]) == t,
        classified(words(render_expr(x))) == expr_tokens(x),
        classified(words(render_expr(y))) == expr_tokens(y),
    ensures
        classified(words(render_expr(x) + seq![' '] + render_expr(y) + seq![' ', c]))
            == expr_tokens(x) + expr_tokens(y) + seq![t],
{
    let rx = render_expr(x);
    let ry = render_expr(y);
    lemma_binary_words(rx, ry, c);
    lemma_classified_concat(words(rx) + words(ry), seq![seq![c]]);
    lemma_classified_concat(words(rx), words(ry));
    assert((words(rx) + words(ry)) + seq![seq![c]] =~= words(rx) + words(ry) + seq![seq![c]]);
    assert(classified(seq![seq![c]]) =~= seq![t]);
}

/// Splitting the rendering of a well-formed expression recovers exactly its
/// postfix token sequence.
proof fn lemma_render_words(e: SpecExpr)
    requires
        wf_expr(e),
    ensures
        classified(words(render_expr(e))) == expr_tokens(e),
    decreases e,
{
    match e {
        SpecExpr::Number(s) => {
            lemma_number_no_space(s);
            lemma_words_single(s);
            lemma_classify_number(s);
            assert(classified(seq![s]) =~= seq![SpecToken::Number(s)]);
        },
        SpecExpr::Add(x, y) => {
            lemma_render_words(*x);
            lemma_render_words(*y);
            lemma_binary_assemble(*x, *y, '+', SpecToken::Plus);
        },
        SpecExpr::Subtract(x, y) => {
            lemma_render_words(*x);
            lemma_render_words(*y);
            lemma_binary_assemble(*x, *y, '-', SpecToken::Minus);
        },
        SpecExpr::Divide(x, y) => {
            lemma_render_words(*x);
            lemma_render_words(*y);
            lemma_binary_assemble(*x, *y, '/', SpecToken::Slash);
        },
        SpecExpr::Multiply(x, y) => {
            lemma_render_words(*x);
            lemma_render_words(*y);
            lemma_binary_assemble(*x, *y, '*', SpecToken::Star);
        },
        SpecExpr::Power(x, y) => {
            lemma_render_words(*x);
            lemma_render_words(*y);
            lemma_binary_assemble(*x, *y, '^', SpecToken::Caret);
        },
        SpecExpr::Sqrt(x) => {
            lemma_render_words(*x);
            let rx = render_expr(*x);
            let kw = seq!['s', 'q', 'r', 't'];
            assert(render_expr(e) =~= rx + seq![' '] + kw);
            lemma_words_concat(rx, kw);
            assert(forall|i: int| 0 <= i < kw.len() ==> !is_space(#[trigger] kw[i]));
            lemma_words_single(kw);
            lemma_classified_concat(words(rx), seq![kw]);
            assert(classify(kw) == SpecToken::Sqrt);
            assert(classified(seq![kw]) =~= seq![SpecToken::Sqrt]);
        },
    }
}

/// Feeding a concatenation feeds the first part and, if no error stopped it,
/// the second part from where the first left off.
pub proof fn lemma_run_append(mem: Seq<SpecExpr>, a: Seq<SpecToken>, b: Seq<SpecToken>)
    ensures
        run(mem, a + b) == if run(mem, a).1 is Some {
            run(mem, a)
        } else {
            run(run(mem, a).0, b)
        },
    decreases a.len(),
{
    if a.len() == 0 {
        assert(a + b =~= b);
    } else {
        assert((a + b)[0] == a[0]);
        assert((a + b).skip(1) =~= a.skip(1) + b);
        if !(step(mem, a[0]).1 is Some) {
            lemma_run_append(step(mem, a[0]).0, a.skip(1), b);
        }
    }
}

/// Feeding the postfix token sequence of an expression pushes exactly that
/// expression.
proof fn lemma_run_expr_tokens(mem: Seq<SpecExpr>, e: SpecExpr)
    ensures
        run(mem, expr_tokens(e)) == (mem.push(e), Option::<crate::calc::SpecCalcError>::None),
    decreases e,
{
    match e {
        SpecExpr::Number(s) => {
            let ts = expr_tokens(e);
            assert(ts[0] == SpecToken::Number(s));
            assert(ts.skip(1) =~= Seq::<SpecToken>::empty());
            let m1 = mem.push(e);
            assert(step(mem, ts[0]) == (m1, Option::<crate::calc::SpecCalcError>::None));
            assert(run(m1, ts.skip(1)) == (m1, Option::<crate::calc::SpecCalcError>::None));
            assert(run(mem, ts) == (m1, Option::<crate::calc::SpecCalcError>::None));
        },
        SpecExpr::Add(x, y) => {
            lemma_run_expr_tokens(mem, *x);
            lemma_run_expr_tokens(mem.push(*x), *y);
            lemma_binary_run(mem, *x, *y, e, SpecToken::Plus);
        },
        SpecExpr::Subtract(x, y) => {
            lemma_run_expr_tokens(mem, *x);
            lemma_run_expr_tokens(mem.push(*x), *y);
            lemma_binary_run(mem, *x, *y, e, SpecToken::Minus);
        },
        SpecExpr::Divide(x, y) => {
            lemma_run_expr_tokens(mem, *x);
            lemma_run_expr_tokens(mem.push(*x), *y);
            lemma_binary_run(mem, *x, *y, e, SpecToken::Slash);
        },
        SpecExpr::Multiply(x, y) => {
            lemma_run_expr_tokens(mem, *x);
            lemma_run_expr_tokens(mem.push(*x), *y);
            lemma_binary_run(mem, *x, *y, e, SpecToken::Star);
        },
        SpecExpr::Power(x, y) => {
            lemma_run_expr_tokens(mem, *x);
            lemma_run_expr_tokens(mem.push(*x), *y);
            lemma_binary_run(mem, *x, *y, e, SpecToken::Caret);
        },
        SpecExpr::Sqrt(x) => {
            lemma_run_expr_tokens(mem, *x);
            lemma_run_append(mem, expr_tokens(*x), seq![SpecToken::Sqrt]);
            let m1 = mem.push(*x);
            let ts = seq![SpecToken::Sqrt];
            assert(ts.skip(1) =~= Seq::<SpecToken>::empty());
            assert(m1.drop_last() =~= mem);
            assert(step(m1, SpecToken::Sqrt).0 =~= mem.push(e));
            assert(step(m1, SpecToken::Sqrt) == (
                mem.push(e),
                Option::<crate::calc::SpecCalcError>::None,
            ));
            assert(run(mem.push(e), ts.skip(1)) == (
                mem.push(e),
                Option::<crate::calc::SpecCalcError>::None,
            ));
            assert(run(m1, ts) == (mem.push(e), Option::<crate::calc::SpecCalcError>::None));
        },
    }
}

/// One binary operator case of `lemma_run_expr_tokens`: given that the
/// operand token sequences push the operands, the operator combines them.
proof fn lemma_binary_run(mem: Seq<SpecExpr>, x: SpecExpr, y: SpecExpr, e: SpecExpr, t: SpecToken)
    requires
        is_binary_op(t),
        expr_tokens(e) == expr_tokens(x) + expr_tokens(y) + seq![t],
        combine(t, x, y) == e,
        run(mem, expr_tokens(x)) == (mem.push(x), Option::<crate::calc::SpecCalcError>::None),
        run(mem.push(x), expr_tokens(y)) == (
            mem.push(x).push(y),
            Option::<crate::calc::SpecCalcError>::None,
        ),
    ensures
        run(mem, expr_tokens(e)) == (mem.push(e), Option::<crate::calc::SpecCalcError>::None),
{
    assert(expr_tokens(e) =~= expr_tokens(x) + (expr_tokens(y) + seq![t]));
    lemma_run_append(mem, expr_tokens(x), expr_tokens(y) + seq![t]);
    lemma_run_append(mem.push(x), expr_tokens(y), seq![t]);
    let m2 = mem.push(x).push(y);
    let ts = seq![t];
    assert(ts.skip(1) =~= Seq::<SpecToken>::empty());
    assert(m2[m2.len() - 2] == x && m2.last() == y);
    assert(m2.drop_last().drop_last() =~= mem);
    assert(step(m2, t) == (mem.push(e), Option::<crate::calc::SpecCalcError>::None));
    assert(run(mem.push(e), ts.skip(1)) == (
        mem.push(e),
        Option::<crate::calc::SpecCalcError>::None,
    ));
    assert(run(m2, ts) == (mem.push(e), Option::<crate::calc::SpecCalcError>::None));
}

proof fn lemma_roundtrip_helper(mem0: Seq<SpecExpr>, mem: Seq<SpecExpr>)
    requires
        all_wf_exprs(mem),
    ensures
        run(mem0, classified(words(render_memory(mem)))) == (
            mem0 + mem,
            Option::<crate::calc::SpecCalcError>::None,
        ),
    decreases mem.len(),
{
    if mem.len() == 0 {
        assert(words(render_memory(mem)) =~= Seq::<Seq<char>>::empty());
        assert(classified(Seq::<Seq<char>>::empty()) =~= Seq::<SpecToken>::empty());
        assert(mem0 + mem =~= mem0);
    } else if mem.len() == 1 {
        assert(wf_expr(mem[0]));
        lemma_render_words(mem[0]);
        lemma_run_expr_tokens(mem0, mem[0]);
        assert(mem0 + mem =~= mem0.push(mem[0]));
    } else {
        assert(wf_expr(mem[0]));
        let rest = mem.skip(1);
        assert(all_wf_exprs(rest));
        lemma_words_concat(render_expr(mem[0]), render_memory(rest));
        lemma_classified_concat(words(render_expr(mem[0])), words(render_memory(rest)));
        lemma_render_words(mem[0]);
        lemma_run_append(
            mem0,
            expr_tokens(mem[0]),
            classified(words(render_memory(rest))),
        );
        lemma_run_expr_tokens(mem0, mem[0]);
        lemma_roundtrip_helper(mem0.push(mem[0]), rest);
        assert(mem0.push(mem[0]) + rest =~= mem0 + mem);
    }
}

/// The canonical round-trip of the postfix form: rendering any well-formed
/// stack and feeding the text back into an empty engine as postfix input
/// succeeds and rebuilds the stack exactly.
pub proof fn lemma_render_reparse(mem: Seq<SpecExpr>)
    requires
        all_wf_exprs(mem),
    ensures
        run(Seq::<SpecExpr>::empty(), postfix_tokens(render_memory(mem))) == (
            mem,
            Option::<crate::calc::SpecCalcError>::None,
        ),
{
    lemma_roundtrip_helper(Seq::<SpecExpr>::empty(), mem);
    assert(postfix_tokens(render_memory(mem)) =~= classified(words(render_memory(mem))));
    assert(Seq::<SpecExpr>::empty() + mem =~= mem);
}

/// Infix/postfix equivalence: when a feed of infix text succeeds, feeding
/// the postfix rendering of the resulting stack into a fresh engine succeeds
/// and leaves a structurally equal stack — so the two engines evaluate
/// equally.
pub proof fn lemma_infix_postfix_equivalence(s: Seq<char>)
    requires
        run(Seq::<SpecExpr>::empty(), to_postfix(infix_tokens(s))).1 is None,
    ensures
        ({
            let m = run(Seq::<SpecExpr>::empty(), to_postfix(infix_tokens(s))).0;
            run(Seq::<SpecExpr>::empty(), postfix_tokens(render_memory(m))) == (
                m,
                Option::<crate::calc::SpecCalcError>::None,
            )
        }),
{
    lemma_classified_wf(fragments(s));
    lemma_to_postfix_wf(infix_tokens(s));
    assert(all_wf_exprs(Seq::<SpecExpr>::empty()));
    lemma_run_wf(Seq::<SpecExpr>::empty(), to_postfix(infix_tokens(s)));
    let m = run(Seq::<SpecExpr>::empty(), to_postfix(infix_tokens(s))).0;
    lemma_render_reparse(m);
}

} // verus!

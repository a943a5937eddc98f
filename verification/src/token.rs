//! Tokens: classification of input fragments, the precedence table, and the
//! infix-to-postfix reordering (shunting yard).

use vstd::prelude::*;

use crate::text::{
    fragments, is_number_fragment, is_number_text, split_fragments, split_words, words,
};

verus! {

/// A classified input fragment. A `Number` keeps the literal text it was
/// read from; the numeric value is of no concern to the engine until a
/// caller evaluates the finished expression trees.
#[derive(Debug, PartialEq)]
pub enum Token {
    Number(String),
    Plus,
    Minus,
    Slash,
    Star,
    Sqrt,
    Undo,
    Caret,
    GroupOpen,
    GroupClose,
    Unknown(String),
}

/// The mathematical model of a token: the same variants over sequences of
/// characters.
pub enum SpecToken {
    Number(Seq<char>),
    Plus,
    Minus,
    Slash,
    Star,
    Sqrt,
    Undo,
    Caret,
    GroupOpen,
    GroupClose,
    Unknown(Seq<char>),
}

impl View for Token {
    type V = SpecToken;

    open spec fn view(&self) -> SpecToken {
        match self {
            Token::Number(s) => SpecToken::Number(s@),
            Token::Plus => SpecToken::Plus,
            Token::Minus => SpecToken::Minus,
            Token::Slash => SpecToken::Slash,
            Token::Star => SpecToken::Star,
            Token::Sqrt => SpecToken::Sqrt,
            Token::Undo => SpecToken::Undo,
            Token::Caret => SpecToken::Caret,
            Token::GroupOpen => SpecToken::GroupOpen,
            Token::GroupClose => SpecToken::GroupClose,
            Token::Unknown(s) => SpecToken::Unknown(s@),
        }
    }
}

/// The total classification of one fragment. Every operator and grouping
/// mark is a fixed text, a text in the floating-point literal grammar is a
/// `Number`, and anything else is `Unknown`.
pub open spec fn classify(s: Seq<char>) -> SpecToken {
    if s.len() == 1 && s[0] == '+' {
        SpecToken::Plus
    } else if s.len() == 1 && s[0] == '-' {
        SpecToken::Minus
    } else if s.len() == 1 && (s[0] == '/' || s[0] == '÷') {
        SpecToken::Slash
    } else if s.len() == 1 && (s[0] == '*' || s[0] == '×') {
        SpecToken::Star
    } else if s.len() == 1 && s[0] == '^' {
        SpecToken::Caret
    } else if s =~= seq!['s', 'q', 'r', 't'] {
        SpecToken::Sqrt
    } else if s =~= seq!['u', 'n', 'd', 'o'] {
        SpecToken::Undo
    } else if s.len() == 1 && s[0] == '(' {
        SpecToken::GroupOpen
    } else if s.len() == 1 && s[0] == ')' {
        SpecToken::GroupClose
    } else if is_number_text(s) {
        SpecToken::Number(s)
    } else {
        SpecToken::Unknown(s)
    }
}

/// The token sequence of postfix input: split on whitespace, classify each
/// word.
pub open spec fn postfix_tokens(s: Seq<char>) -> Seq<SpecToken> {
    words(s).map_values(|w: Seq<char>| classify(w))
}

/// The token sequence of infix input before reordering: scan into fragments,
/// classify each.
pub open spec fn infix_tokens(s: Seq<char>) -> Seq<SpecToken> {
    fragments(s).map_values(|w: Seq<char>| classify(w))
}

impl Token {
    /// Classifies one fragment of input text.
    pub fn new(token: &str) -> (t: Token)
        ensures
            t@ == classify(token@),
    {
        let n = token.unicode_len();
        if n == 1 {
            let c = token.get_char(0);
            if c == '+' {
                return Token::Plus;
            } else if c == '-' {
                return Token::Minus;
            } else if c == '/' || c == '÷' {
                return Token::Slash;
            } else if c == '*' || c == '×' {
                return Token::Star;
            } else if c == '^' {
                return Token::Caret;
            } else if c == '(' {
                return Token::GroupOpen;
            } else if c == ')' {
                return Token::GroupClose;
            }
        } else if n == 4 {
            let c0 = token.get_char(0);
            let c1 = token.get_char(1);
            let c2 = token.get_char(2);
            let c3 = token.get_char(3);
            if c0 == 's' && c1 == 'q' && c2 == 'r' && c3 == 't' {
                proof {
                    assert(token@ =~= seq!['s', 'q', 'r', 't']);
                }
                return Token::Sqrt;
            }
            if c0 == 'u' && c1 == 'n' && c2 == 'd' && c3 == 'o' {
                proof {
                    assert(token@ =~= seq!['u', 'n', 'd', 'o']);
                }
                return Token::Undo;
            }
        }
        if is_number_fragment(token) {
            Token::Number(String::from_str(token))
        } else {
            Token::Unknown(String::from_str(token))
        }
    }
}

/// The precedence rank a token carries when the reordering pass compares it
/// against the pending operator stack.
pub open spec fn spec_order(t: SpecToken) -> i8 {
    match t {
        SpecToken::Number(_) => 0,
        SpecToken::Unknown(_) => 0,
        SpecToken::Undo => 0,
        SpecToken::Plus => 1,
        SpecToken::Minus => 1,
        SpecToken::Star => 3,
        SpecToken::Slash => 3,
        SpecToken::Caret => 4,
        SpecToken::Sqrt => 4,
        SpecToken::GroupOpen => i8::MAX,
        SpecToken::GroupClose => i8::MAX,
    }
}

impl Token {
    /// The conventional ranking that decides which pending operation is
    /// reduced first: addition and subtraction lowest, then multiplication
    /// and division, then exponentiation; grouping marks outrank everything.
    /// One rank is left unoccupied between the additive and multiplicative
    /// tiers.
    pub fn order(&self) -> (r: i8)
        ensures
            r == spec_order(self@),
    {
        match self {
            Token::Number(_) | Token::Unknown(_) | Token::Undo => 0,
            Token::Plus | Token::Minus => 1,
            Token::Star | Token::Slash => 3,
            Token::Caret | Token::Sqrt => 4,
            Token::GroupOpen | Token::GroupClose => i8::MAX,
        }
    }
}

/// The text a token shows when rendered: operators show their canonical
/// symbol, a number shows its literal text, and the tokens that have no
/// rendering (`undo` and the grouping marks) show nothing.
pub open spec fn token_text(t: SpecToken) -> Seq<char> {
    match t {
        SpecToken::Number(s) => s,
        SpecToken::Plus => seq!['+'],
        SpecToken::Minus => seq!['-'],
        SpecToken::Slash => seq!['/'],
        SpecToken::Star => seq!['*'],
        SpecToken::Caret => seq!['^'],
        SpecToken::Sqrt => seq!['s', 'q', 'r', 't'],
        SpecToken::Undo => seq![],
        SpecToken::GroupOpen => seq![],
        SpecToken::GroupClose => seq![],
        SpecToken::Unknown(u) => u,
    }
}

impl Token {
    /// Renders this token as text.
    pub fn text(&self) -> (r: String)
        ensures
            r@ == token_text(self@),
    {
        match self {
            Token::Number(s) => s.clone(),
            Token::Unknown(u) => u.clone(),
            Token::Plus => {
                proof {
                    reveal_strlit("+");
                    assert("+"@ =~= seq!['+']);
                }
                String::from_str("+")
            },
            Token::Minus => {
                proof {
                    reveal_strlit("-");
                    assert("-"@ =~= seq!['-']);
                }
                String::from_str("-")
            },
            Token::Slash => {
                proof {
                    reveal_strlit("/");
                    assert("/"@ =~= seq!['/']);
                }
                String::from_str("/")
            },
            Token::Star => {
                proof {
                    reveal_strlit("*");
                    assert("*"@ =~= seq!['*']);
                }
                String::from_str("*")
            },
            Token::Caret => {
                proof {
                    reveal_strlit("^");
                    assert("^"@ =~= seq!['^']);
                }
                String::from_str("^")
            },
            Token::Sqrt => {
                proof {
                    reveal_strlit("sqrt");
                    assert("sqrt"@ =~= seq!['s', 'q', 'r', 't']);
                }
                String::from_str("sqrt")
            },
            Token::Undo | Token::GroupOpen | Token::GroupClose => {
                proof {
                    reveal_strlit("");
                    assert(""@ =~= Seq::<char>::empty());
                }
                String::from_str("")
            },
        }
    }
}

/// The tokens that the reordering pass treats as operators.
pub open spec fn is_shunt_operator(t: SpecToken) -> bool {
    ||| t is Plus
    ||| t is Minus
    ||| t is Slash
    ||| t is Star
    ||| t is Sqrt
    ||| t is Caret
}

/// Pops pending operators that outrank or tie the incoming operator `t`,
/// stopping at a group opening or at a pending `^` (which, being
/// right-associative, never preempts an incoming operator). Returns the
/// remaining stack and the extended output.
pub open spec fn pop_for(ops: Seq<SpecToken>, out: Seq<SpecToken>, t: SpecToken) -> (
    Seq<SpecToken>,
    Seq<SpecToken>,
)
    decreases ops.len(),
{
    if ops.len() == 0 {
        (ops, out)
    } else {
        let l = ops.last();
        if spec_order(l) >= spec_order(t) && !(l is GroupOpen) && !(l is Caret) {
            pop_for(ops.drop_last(), out.push(l), t)
        } else {
            (ops, out)
        }
    }
}

/// Pops pending operators into the output until a group opening is popped
/// and discarded; an exhausted stack ends the search silently.
pub open spec fn pop_group(ops: Seq<SpecToken>, out: Seq<SpecToken>) -> (
    Seq<SpecToken>,
    Seq<SpecToken>,
)
    decreases ops.len(),
{
    if ops.len() == 0 {
        (ops, out)
    } else if ops.last() is GroupOpen {
        (ops.drop_last(), out)
    } else {
        pop_group(ops.drop_last(), out.push(ops.last()))
    }
}

/// One step per incoming token, then the remaining operator stack drained
/// last-in first-out.
pub open spec fn shunt(ts: Seq<SpecToken>, ops: Seq<SpecToken>, out: Seq<SpecToken>) -> Seq<
    SpecToken,
>
    decreases ts.len(),
{
    if ts.len() == 0 {
        out + ops.reverse()
    } else {
        let t = ts[0];
        let rest = ts.skip(1);
        if t is GroupOpen {
            shunt(rest, ops.push(t), out)
        } else if t is GroupClose {
            let popped = pop_group(ops, out);
            shunt(rest, popped.0, popped.1)
        } else if is_shunt_operator(t) {
            let popped = pop_for(ops, out, t);
            shunt(rest, popped.0.push(t), popped.1)
        } else {
            shunt(rest, ops, out.push(t))
        }
    }
}

/// The postfix reordering of a token sequence.
pub open spec fn to_postfix(ts: Seq<SpecToken>) -> Seq<SpecToken> {
    shunt(ts, seq![], seq![])
}

pub open spec fn views_of(v: Seq<Token>) -> Seq<SpecToken> {
    v.map_values(|t: Token| t@)
}

/// A number token carries a text in the literal grammar; classification
/// only ever produces such tokens, and reordering keeps it that way.
pub open spec fn wf_token(t: SpecToken) -> bool {
    match t {
        SpecToken::Number(s) => is_number_text(s),
        _ => true,
    }
}

pub open spec fn all_wf_tokens(ts: Seq<SpecToken>) -> bool {
    forall|i: int| 0 <= i < ts.len() ==> wf_token(#[trigger] ts[i])
}

/// Classifying any fragment sequence yields only well-formed tokens.
pub proof fn lemma_classified_wf(ws: Seq<Seq<char>>)
    ensures
        all_wf_tokens(ws.map_values(|w: Seq<char>| classify(w))),
{
    let ts = ws.map_values(|w: Seq<char>| classify(w));
    assert forall|i: int| 0 <= i < ts.len() implies wf_token(#[trigger] ts[i]) by {
        assert(ts[i] == classify(ws[i]));
    }
}

proof fn lemma_pop_for_wf(ops: Seq<SpecToken>, out: Seq<SpecToken>, t: SpecToken)
    requires
        all_wf_tokens(ops),
        all_wf_tokens(out),
    ensures
        all_wf_tokens(pop_for(ops, out, t).0),
        all_wf_tokens(pop_for(ops, out, t).1),
    decreases ops.len(),
{
    if ops.len() > 0 {
        let l = ops.last();
        if spec_order(l) >= spec_order(t) && !(l is GroupOpen) && !(l is Caret) {
            assert(all_wf_tokens(ops.drop_last()));
            assert(all_wf_tokens(out.push(l)));
            lemma_pop_for_wf(ops.drop_last(), out.push(l), t);
        }
    }
}

proof fn lemma_pop_group_wf(ops: Seq<SpecToken>, out: Seq<SpecToken>)
    requires
        all_wf_tokens(ops),
        all_wf_tokens(out),
    ensures
        all_wf_tokens(pop_group(ops, out).0),
        all_wf_tokens(pop_group(ops, out).1),
    decreases ops.len(),
{
    if ops.len() > 0 {
        assert(all_wf_tokens(ops.drop_last()));
        if !(ops.last() is GroupOpen) {
            assert(all_wf_tokens(out.push(ops.last())));
            lemma_pop_group_wf(ops.drop_last(), out.push(ops.last()));
        }
    }
}

proof fn lemma_shunt_wf(ts: Seq<SpecToken>, ops: Seq<SpecToken>, out: Seq<SpecToken>)
    requires
        all_wf_tokens(ts),
        all_wf_tokens(ops),
        all_wf_tokens(out),
    ensures
        all_wf_tokens(shunt(ts, ops, out)),
    decreases ts.len(),
{
    if ts.len() == 0 {
        let r = out + ops.reverse();
        assert forall|i: int| 0 <= i < r.len() implies wf_token(#[trigger] r[i]) by {
            if i < out.len() {
                assert(r[i] == out[i]);
            } else {
                assert(r[i] == ops[ops.len() - 1 - (i - out.len())]);
            }
        }
    } else {
        let t = ts[0];
        let rest = ts.skip(1);
        assert(all_wf_tokens(rest));
        if t is GroupOpen {
            assert(all_wf_tokens(ops.push(t)));
            lemma_shunt_wf(rest, ops.push(t), out);
        } else if t is GroupClose {
            lemma_pop_group_wf(ops, out);
            lemma_shunt_wf(rest, pop_group(ops, out).0, pop_group(ops, out).1);
        } else if is_shunt_operator(t) {
            lemma_pop_for_wf(ops, out, t);
            assert(all_wf_tokens(pop_for(ops, out, t).0.push(t)));
            lemma_shunt_wf(rest, pop_for(ops, out, t).0.push(t), pop_for(ops, out, t).1);
        } else {
            assert(all_wf_tokens(out.push(t)));
            lemma_shunt_wf(rest, ops, out.push(t));
        }
    }
}

/// Reordering a well-formed token sequence yields a well-formed one.
pub proof fn lemma_to_postfix_wf(ts: Seq<SpecToken>)
    requires
        all_wf_tokens(ts),
    ensures
        all_wf_tokens(to_postfix(ts)),
{
    assert(all_wf_tokens(Seq::<SpecToken>::empty()));
    lemma_shunt_wf(ts, seq![], seq![]);
}

proof fn lemma_views_push(v: Seq<Token>, t: Token)
    ensures
        views_of(v.push(t)) == views_of(v).push(t@),
{
    assert(views_of(v.push(t)) =~= views_of(v).push(t@));
}

proof fn lemma_views_drop_last(v: Seq<Token>)
    requires
        v.len() > 0,
    ensures
        views_of(v.drop_last()) == views_of(v).drop_last(),
{
    assert(views_of(v.drop_last()) =~= views_of(v).drop_last());
}

impl Token {
    /// Reorders infix text into a postfix token sequence with an operator
    /// side-stack. Unmatched group closings drain the whole stack silently;
    /// unmatched group openings are drained into the output at the end.
    pub fn shunting_yard(input: &str) -> (r: Vec<Token>)
        ensures
            views_of(r@) == to_postfix(infix_tokens(input@)),
    {
        let frags = split_fragments(input);
        let ghost all = infix_tokens(input@);
        let mut operators: Vec<Token> = Vec::new();
        let mut output: Vec<Token> = Vec::new();
        let mut i: usize = 0;
        proof {
            assert(all =~= frags@.map_values(|w: String| w@).map_values(
                |w: Seq<char>| classify(w),
            ));
            assert(all.skip(0) =~= all);
            assert(views_of(operators@) =~= Seq::<SpecToken>::empty());
            assert(views_of(output@) =~= Seq::<SpecToken>::empty());
        }
        while i < frags.len()
            invariant
                i <= frags@.len() == all.len(),
                forall|j: int|
                    0 <= j < all.len() ==> all[j] == classify(frags@.map_values(|w: String| w@)[j]),
                shunt(all, seq![], seq![]) == shunt(
                    all.skip(i as int),
                    views_of(operators@),
                    views_of(output@),
                ),
            decreases frags@.len() - i,
        {
            let token = Token::new(frags[i].as_str());
            proof {
                assert(token@ == all[i as int]);
                assert(all.skip(i as int)[0] == all[i as int]);
                assert(all.skip(i as int).skip(1) =~= all.skip(i + 1));
            }
            match token {
                Token::GroupOpen => {
                    proof {
                        lemma_views_push(operators@, token);
                    }
                    operators.push(token);
                },
                Token::GroupClose => {
                    let ghost target = pop_group(views_of(operators@), views_of(output@));
                    let mut searching = true;
                    while searching
                        invariant
                            target == if searching {
                                pop_group(views_of(operators@), views_of(output@))
                            } else {
                                (views_of(operators@), views_of(output@))
                            },
                        decreases operators@.len() + (if searching {
                            1int
                        } else {
                            0int
                        }),
                    {
                        proof {
                            if operators@.len() > 0 {
                                lemma_views_drop_last(operators@);
                            }
                        }
                        match operators.pop() {
                            None => {
                                searching = false;
                            },
                            Some(op) => {
                                match op {
                                    Token::GroupOpen => {
                                        searching = false;
                                    },
                                    _ => {
                                        proof {
                                            lemma_views_push(output@, op);
                                        }
                                        output.push(op);
                                    },
                                }
                            },
                        }
                    }
                },
                Token::Plus | Token::Minus | Token::Slash | Token::Star | Token::Sqrt
                    | Token::Caret => {
                    let ghost target = pop_for(views_of(operators@), views_of(output@), token@);
                    let mut searching = true;
                    while searching
                        invariant
                            target == if searching {
                                pop_for(views_of(operators@), views_of(output@), token@)
                            } else {
                                (views_of(operators@), views_of(output@))
                            },
                        decreases operators@.len() + (if searching {
                            1int
                        } else {
                            0int
                        }),
                    {
                        if operators.len() == 0 {
                            searching = false;
                        } else {
                            let last = operators.len() - 1;
                            let preempts = operators[last].order() >= token.order() && !matches!(
                                operators[last],
                                Token::GroupOpen,
                            ) && !matches!(operators[last], Token::Caret);
                            if preempts {
                                proof {
                                    lemma_views_drop_last(operators@);
                                }
                                match operators.pop() {
                                    Some(op) => {
                                        proof {
                                            lemma_views_push(output@, op);
                                        }
                                        output.push(op);
                                    },
                                    None => {
                                        assert(false);
                                    },
                                }
                            } else {
                                searching = false;
                            }
                        }
                    }
                    proof {
                        lemma_views_push(operators@, token);
                    }
                    operators.push(token);
                },
                _ => {
                    proof {
                        lemma_views_push(output@, token);
                    }
                    output.push(token);
                },
            }
            i = i + 1;
        }
        proof {
            assert(all.skip(i as int) =~= Seq::<SpecToken>::empty());
        }
        while operators.len() > 0
            invariant
                shunt(all, seq![], seq![]) == views_of(output@) + views_of(operators@).reverse(),
            decreases operators@.len(),
        {
            let ghost ops0 = views_of(operators@);
            let ghost out0 = views_of(output@);
            proof {
                lemma_views_drop_last(operators@);
            }
            match operators.pop() {
                Some(op) => {
                    proof {
                        lemma_views_push(output@, op);
                        assert(out0.push(ops0.last()) + ops0.drop_last().reverse() =~= out0
                            + ops0.reverse());
                    }
                    output.push(op);
                },
                None => {
                    assert(false);
                },
            }
        }
        proof {
            assert(views_of(output@) + views_of(operators@).reverse() =~= views_of(output@));
        }
        output
    }
}

} // verus!

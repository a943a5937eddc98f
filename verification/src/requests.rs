//! The values exchanged with the transport layer around the engine, and the
//! computation behind its handlers. The transport itself (routing,
//! serialization framing) lives outside the library and deals in these plain
//! values.

use vstd::prelude::*;

use crate::calc::{render_memory, run, Calc, CalcError};
use crate::expr::SpecExpr;
use crate::token::{infix_tokens, postfix_tokens, to_postfix, SpecToken};

verus! {

/// A calculation request: the input text, and whether it is infix (postfix
/// when absent or false).
pub struct CalcRequest {
    pub input: String,
    pub infix: Option<bool>,
}

/// A calculation response: the canonical postfix rendering of the stack the
/// request produced.
#[derive(Debug)]
pub struct CalcResponse {
    pub output: String,
}

/// The token sequence a request asks to feed.
pub open spec fn request_tokens(req: CalcRequest) -> Seq<SpecToken> {
    if req.infix == Some(true) {
        to_postfix(infix_tokens(req.input@))
    } else {
        postfix_tokens(req.input@)
    }
}

/// Feeds the request's text into a fresh engine and renders the resulting
/// stack; a malformed request yields the feed's error instead.
pub fn respond(request: &CalcRequest) -> (r: Result<CalcResponse, CalcError>)
    ensures
        r is Ok <==> run(Seq::<SpecExpr>::empty(), request_tokens(*request)).1 is None,
        r matches Ok(resp) ==> resp.output@ == render_memory(
            run(Seq::<SpecExpr>::empty(), request_tokens(*request)).0,
        ),
        r matches Err(e) ==> run(Seq::<SpecExpr>::empty(), request_tokens(*request)).1 == Some(
            e@,
        ),
{
    let infix_mode = match request.infix {
        Some(b) => b,
        None => false,
    };
    let built = if infix_mode {
        Calc::infix(request.input.as_str())
    } else {
        Calc::postfix(request.input.as_str())
    };
    match built {
        Ok(c) => Ok(CalcResponse { output: c.render() }),
        Err(e) => Err(e),
    }
}

} // verus!

//! Messages on the wire: one line of JSON each, and what admission reads of
//! it.

use crate::server::json::{text_at, text_in, value_under, value_under_of, JsonAtV};
use crate::server::serve::{gate, gate_of, refusal, refusal_text, Gate};
use crate::text::{str_eq, trim, trim_of, Text};
use vstd::prelude::*;

verus! {

// ---------------------------------------------------------------------------
// Parsing
/// What is read of a message.
pub type Parts = (Option<String>, Option<String>, bool);

/// What is read of a message, as values.
pub type PartsV = (Option<Seq<char>>, Option<Seq<char>>, bool);

pub open spec fn parts_in(r: Result<Parts, String>) -> Result<PartsV, Seq<char>> {
    match r {
        Ok(p) => Ok((text_in(p.0), text_in(p.1), p.2)),
        Err(e) => Err(e@),
    }
}

/// The message in a JSON text: the text under `method`, the text under `token`
/// in `params`, and whether there is an `id`; or why the text is no JSON.
pub open spec fn message_of(line: Seq<char>) -> Result<PartsV, Seq<char>> {
    match value_under_of(line, "/method"@) {
        Err(e) => Err(e),
        Ok(method) => match value_under_of(line, "/params/token"@) {
            Err(e) => Err(e),
            Ok(token) => match value_under_of(line, "/id"@) {
                Err(e) => Err(e),
                Ok(id) => Ok((text_at(method), text_at(token), id != JsonAtV::Missing)),
            },
        },
    }
}

/// Reads the message in a JSON text.
pub fn parse_message(line: &str) -> (r: Result<Parts, String>)
    ensures
        parts_in(r) == message_of(line@),
{
    let method = match value_under(line, "/method") {
        Err(e) => {
            return Err(e);
        },
        Ok(v) => v,
    };
    let token = match value_under(line, "/params/token") {
        Err(e) => {
            return Err(e);
        },
        Ok(v) => v,
    };
    let id = match value_under(line, "/id") {
        Err(e) => {
            return Err(e);
        },
        Ok(v) => v,
    };
    let asks = id.is_there();
    Ok((method.text(), token.text(), asks))
}

// ---------------------------------------------------------------------------
// Lines
/// One line from a client.
#[derive(Debug)]
pub enum Incoming {
    /// Nothing but white space.
    Blank,
    /// No JSON: what the client is told.
    Unparsed(String),
    Message { method: String, token: String, asks: bool },
}

/// A line as a value.
pub enum IncomingV {
    Blank,
    Unparsed(Seq<char>),
    Message { method: Seq<char>, token: Seq<char>, asks: bool },
}

impl View for Incoming {
    type V = IncomingV;

    open spec fn view(&self) -> IncomingV {
        match self {
            Incoming::Blank => IncomingV::Blank,
            Incoming::Unparsed(e) => IncomingV::Unparsed(e@),
            Incoming::Message { method, token, asks } => IncomingV::Message {
                method: method@,
                token: token@,
                asks: *asks,
            },
        }
    }
}

pub open spec fn or_empty(s: Option<Seq<char>>) -> Seq<char> {
    match s {
        Some(s) => s,
        None => seq![],
    }
}

/// A parsed line: a member that is not there, or is no text, reads as empty.
pub open spec fn incoming_of(parsed: Result<PartsV, Seq<char>>) -> IncomingV {
    match parsed {
        Err(e) => IncomingV::Unparsed("parse error: "@ + e),
        Ok(p) => IncomingV::Message { method: or_empty(p.0), token: or_empty(p.1), asks: p.2 },
    }
}

fn unwrap_text(s: Option<String>) -> (r: String)
    ensures
        r@ == or_empty(text_in(s)),
{
    match s {
        Some(s) => s,
        None => {
            let r = String::new();
            assert(r@ =~= seq![]);
            r
        },
    }
}

/// What a parsed line is.
pub fn incoming(parsed: Result<Parts, String>) -> (r: Incoming)
    ensures
        r@ == incoming_of(parts_in(parsed)),
{
    match parsed {
        Err(e) => Incoming::Unparsed(Text::new("parse error: ").lit(e.as_str()).done()),
        Ok((method, token, asks)) => Incoming::Message {
            method: unwrap_text(method),
            token: unwrap_text(token),
            asks,
        },
    }
}

/// What a line is.
pub open spec fn line_of(line: Seq<char>) -> IncomingV {
    let text = trim_of(line);
    if text.len() == 0 {
        IncomingV::Blank
    } else {
        incoming_of(message_of(text))
    }
}

/// Reads one line from a client.
pub fn read_message(line: &str) -> (r: Incoming)
    ensures
        r@ == line_of(line@),
{
    let text = trim(line);
    if str_eq(text.as_str(), "") {
        proof {
            reveal_strlit("");
        }
        return Incoming::Blank;
    }
    proof {
        reveal_strlit("");
        if text@.len() == 0 {
            assert(text@ =~= ""@);
        }
    }
    incoming(parse_message(text.as_str()))
}

// ---------------------------------------------------------------------------
// Admission
/// Whether the token of a message is looked up: on the first step of a
/// connection that has not shown one.
pub fn wants_token(authenticated: bool, method: &str) -> (r: bool)
    ensures
        r == (!authenticated && method@ == "initialize"@),
{
    !authenticated && str_eq(method, "initialize")
}

/// What the client is told of a verdict.
pub open spec fn told(g: Gate, asks: bool) -> Option<Seq<char>> {
    if asks {
        refusal_text(g)
    } else {
        None
    }
}

/// Decides on a message of a connection: the verdict, and what the client is
/// told, where the message asks for an answer.
pub fn decide(authenticated: bool, method: &str, asks: bool, token_known: bool) -> (r: (
    Gate,
    Option<&'static str>,
))
    ensures
        r.0 == gate_of(authenticated, method@, token_known),
        match r.1 {
            Some(t) => told(r.0, asks) == Some(t@),
            None => told(r.0, asks) is None,
        },
{
    let g = gate(authenticated, method, token_known);
    if asks {
        (g, refusal(g))
    } else {
        (g, None)
    }
}

/// A refused request is answered, and its connection is never admitted by it;
/// what is let through is answered by its handler alone.
pub proof fn refused_requests_are_answered(
    authenticated: bool,
    method: Seq<char>,
    token_known: bool,
)
    ensures
        ({
            let g = gate_of(authenticated, method, token_known);
            let refused = !authenticated && method != "ping"@ && !(method == "initialize"@
                && token_known);
            &&& refused <==> told(g, true) is Some
            &&& refused ==> !crate::server::serve::admitted(authenticated, g)
            &&& told(g, false) is None
        }),
{
    reveal_strlit("ping");
    reveal_strlit("initialize");
    assert("ping"@.len() != "initialize"@.len());
}

} // verus!

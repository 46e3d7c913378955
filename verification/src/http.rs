//! What is sent to a model's API and what comes back, as plain values.
use vstd::prelude::*;

use serde_json::Value as Json;

use crate::fault::{Fault, FaultView};
use crate::json;
use crate::json::JsonView;
use crate::oracle::Delay;
use crate::text;

verus! {

/// A POST request.
pub struct Request {
    pub url: String,
    pub headers: Vec<(String, String)>,
    pub body: String,
    pub timeout: Delay,
}

/// What came of a request.
pub enum Reply {
    /// A success status and this body.
    Body(String),
    /// A success status and a body that could not be read, for this reason.
    Unreadable(String),
    /// An error status and its body (empty if it could not be read).
    Status(u16, String),
    /// No response, for this reason.
    Transport(String),
}

impl Reply {
    /// The body of a successful response from `api`.
    pub open spec fn content(self, api: Seq<char>) -> Result<Seq<char>, FaultView> {
        match self {
            Reply::Body(s) => Ok(s@),
            Reply::Unreadable(e) => Err(
                FaultView::OracleErr("failed reading response body: "@ + e@),
            ),
            Reply::Status(code, detail) => Err(
                FaultView::OracleErr(
                    api + " returned "@ + text::decimal(code as nat) + ": "@ + snippet(detail@),
                ),
            ),
            Reply::Transport(e) => Err(FaultView::OracleErr("transport error: "@ + e@)),
        }
    }

    /// The JSON of a successful response from `api`.
    pub open spec fn response(self, api: Seq<char>) -> Result<JsonView, FaultView> {
        match self.content(api) {
            Err(f) => Err(f),
            Ok(s) => body_json(s),
        }
    }

    /// The body of a successful response from `api`; the fault of any other.
    pub fn body(&self, api: &str) -> (r: Result<String, Fault>)
        ensures
            match r {
                Ok(s) => self.content(api@) == Ok::<Seq<char>, FaultView>(s@),
                Err(f) => self.content(api@) == Err::<Seq<char>, FaultView>(f@),
            },
    {
        match self {
            Reply::Body(s) => Ok(s.clone()),
            Reply::Unreadable(e) => Err(
                Fault::OracleErr("failed reading response body: ".to_owned().concat(e.as_str())),
            ),
            Reply::Status(code, detail) => {
                let short = first_chars(detail.as_str(), 300);
                Err(
                    Fault::OracleErr(
                        api.to_owned().concat(" returned ").concat(
                            text::decimal_text(*code as u64).as_str(),
                        ).concat(": ").concat(short.as_str()),
                    ),
                )
            },
            Reply::Transport(e) => Err(
                Fault::OracleErr("transport error: ".to_owned().concat(e.as_str())),
            ),
        }
    }
}

/// The first 300 characters of a text.
pub open spec fn snippet(s: Seq<char>) -> Seq<char> {
    if s.len() > 300 {
        s.take(300)
    } else {
        s
    }
}

/// The first `n` characters of a text, or all of them.
pub fn first_chars(s: &str, n: usize) -> (r: String)
    ensures
        r@ == (if s@.len() > n {
            s@.take(n as int)
        } else {
            s@
        }),
{
    if s.unicode_len() > n {
        let head = s.substring_char(0, n);
        assert(head@ =~= s@.take(n as int));
        head.to_owned()
    } else {
        s.to_owned()
    }
}

/// The JSON of a response body.
pub open spec fn body_json(body: Seq<char>) -> Result<JsonView, FaultView> {
    match json::parsed(vstd::utf8::encode_utf8(body)) {
        Ok(t) => Ok(t),
        Err(e) => Err(FaultView::OracleErr("response is not valid JSON: "@ + e)),
    }
}

/// Parses a response body.
pub fn parse_body(body: &str) -> (r: Result<Json, Fault>)
    ensures
        match r {
            Ok(v) => body_json(body@) == Ok::<JsonView, FaultView>(json::tree(v)),
            Err(f) => body_json(body@) == Err::<JsonView, FaultView>(f@),
        },
{
    match json::parse(body.as_bytes()) {
        Ok(v) => Ok(v),
        Err(e) => Err(
            Fault::OracleErr("response is not valid JSON: ".to_owned().concat(e.as_str())),
        ),
    }
}

} // verus!

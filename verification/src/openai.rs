//! Any OpenAI-compatible Chat Completions server as a journaled oracle.
//!
//! This module decides what is sent and what is made of the reply; sending is
//! left to the program that owns the connection.
use vstd::prelude::*;
use vstd::utf8::*;

use serde_json::Value as Json;

use crate::anthropic;
use crate::anthropic::Temperature;
use crate::fault::{Fault, FaultView};
use crate::http::{Reply, Request};
use crate::json;
use crate::json::JsonView;
use crate::oracle::Delay;
use crate::text;
use crate::value::Value;

verus! {

/// The settings of an oracle backed by an OpenAI-compatible Chat Completions
/// API.
pub struct OpenAiOracle {
    pub api_key: String,
    pub base_url: String,
    pub model: String,
    pub max_tokens: Option<u32>,
    pub temperature: Option<Temperature>,
    pub system: Option<String>,
    pub timeout: Delay,
}

/// `url` without the slashes at its end.
pub open spec fn without_slashes(url: Seq<char>) -> Seq<char>
    decreases url.len(),
{
    if url.len() > 0 && url.last() == '/' {
        without_slashes(url.drop_last())
    } else {
        url
    }
}

/// The completion text of a response, which must not be empty.
pub open spec fn completion(response: JsonView) -> Result<Seq<char>, FaultView> {
    match response.at("choices"@).items() {
        Some(choices) if choices.len() > 0 => {
            let choice = choices[0];
            let content = anthropic::or_text(
                choice.at("message"@).at("content"@).text(),
                Seq::empty(),
            );
            if content.len() == 0 {
                Err(
                    FaultView::OracleErr(
                        "response contained no completion text (finish_reason: "@
                            + anthropic::or_text(choice.at("finish_reason"@).text(), "unknown"@)
                            + ")"@,
                    ),
                )
            } else {
                Ok(content)
            }
        },
        _ => Err(FaultView::OracleErr("response has no choices"@)),
    }
}

/// What is made of a reply.
pub open spec fn reply_outcome(reply: Reply) -> Result<Seq<u8>, FaultView> {
    match reply.response("openai-compatible api"@) {
        Err(f) => Err(f),
        Ok(response) => match completion(response) {
            Err(f) => Err(f),
            Ok(s) => Ok(encode_utf8(s)),
        },
    }
}

/// Is the oracle one with nothing set but its key?
pub open spec fn is_plain(o: OpenAiOracle, key: Seq<char>) -> bool {
    &&& o.api_key@ == key
    &&& o.base_url@ == "https://api.openai.com/v1"@
    &&& o.model@ == "gpt-5"@
    &&& o.max_tokens is None
    &&& o.temperature is None
    &&& o.system is None
    &&& o.timeout@ == 120 * 1_000_000_000
}

impl OpenAiOracle {
    /// The messages that are sent for a prompt.
    pub open spec fn messages_for(&self, prompt: Seq<u8>) -> Seq<JsonView> {
        let user = anthropic::message("user"@, JsonView::Str(text::lossy_text(prompt)));
        match self.system {
            Some(s) => seq![anthropic::message("system"@, JsonView::Str(s@)), user],
            None => seq![user],
        }
    }

    /// The members of the request body for `prompt`.
    pub open spec fn body_members(&self, prompt: Seq<u8>) -> Map<Seq<char>, JsonView> {
        let base = Map::<Seq<char>, JsonView>::empty().insert(
            "model"@,
            JsonView::Str(self.model@),
        ).insert("messages"@, JsonView::Arr(self.messages_for(prompt)));
        let capped = anthropic::with_member(
            base,
            "max_tokens"@,
            match self.max_tokens {
                Some(m) => Some(JsonView::UInt(m as u64)),
                None => None,
            },
        );
        anthropic::with_member(
            capped,
            "temperature"@,
            match self.temperature {
                Some(t) => Some(json::tree(t.number)),
                None => None,
            },
        )
    }

    /// Builds with an explicit API key (empty for servers that do not check
    /// one).
    pub fn new(api_key: &str) -> (r: Self)
        ensures
            is_plain(r, api_key@),
    {
        OpenAiOracle {
            api_key: api_key.to_owned(),
            base_url: "https://api.openai.com/v1".to_owned(),
            model: "gpt-5".to_owned(),
            max_tokens: None,
            temperature: None,
            system: None,
            timeout: Delay::from_parts(120, 0),
        }
    }

    /// Builds from the value of the `OPENAI_API_KEY` environment variable;
    /// that of `OPENAI_BASE_URL`, when set, overrides the endpoint.
    pub fn from_env(key: Option<&str>, base_url: Option<&str>) -> (r: Result<Self, Fault>)
        ensures
            match r {
                Err(f) => key is None && f@ == FaultView::OracleErr("OPENAI_API_KEY is not set"@),
                Ok(o) => key matches Some(k) && match base_url {
                    None => is_plain(o, k@),
                    Some(url) => o.base_url@ == without_slashes(url@) && exists|p: OpenAiOracle|
                        #[trigger] is_plain(p, k@) && o == (OpenAiOracle {
                            base_url: o.base_url,
                            ..p
                        }),
                },
            },
    {
        match key {
            None => Err(Fault::OracleErr("OPENAI_API_KEY is not set".to_owned())),
            Some(k) => {
                let plain = Self::new(k);
                match base_url {
                    None => Ok(plain),
                    Some(url) => {
                        let o = plain.base_url(url);
                        assert(is_plain(plain, k@));
                        Ok(o)
                    },
                }
            },
        }
    }

    pub fn model(self, model: &str) -> (r: Self)
        ensures
            r.model@ == model@,
            r == (OpenAiOracle { model: r.model, ..self }),
    {
        OpenAiOracle { model: model.to_owned(), ..self }
    }

    /// Caps the completion length. Omitted unless set.
    pub fn max_tokens(self, max_tokens: u32) -> (r: Self)
        ensures
            r == (OpenAiOracle { max_tokens: Some(max_tokens), ..self }),
    {
        OpenAiOracle { max_tokens: Some(max_tokens), ..self }
    }

    pub fn temperature(self, t: Temperature) -> (r: Self)
        ensures
            r == (OpenAiOracle { temperature: Some(t), ..self }),
    {
        OpenAiOracle { temperature: Some(t), ..self }
    }

    /// A system message prepended to every call.
    pub fn system(self, system: &str) -> (r: Self)
        ensures
            r.system matches Some(s) && s@ == system@,
            r == (OpenAiOracle { system: r.system, ..self }),
    {
        OpenAiOracle { system: Some(system.to_owned()), ..self }
    }

    /// Points at any compatible server. The path is the API root; slashes at
    /// its end are dropped.
    pub fn base_url(self, url: &str) -> (r: Self)
        ensures
            r.base_url@ == without_slashes(url@),
            r == (OpenAiOracle { base_url: r.base_url, ..self }),
    {
        let mut n: usize = url.unicode_len();
        assert(url@.take(n as int) =~= url@);
        while n > 0 && url.get_char(n - 1) == '/'
            invariant
                n <= url@.len(),
                without_slashes(url@) == without_slashes(url@.take(n as int)),
            decreases n,
        {
            assert(url@.take(n as int).drop_last() =~= url@.take(n - 1));
            n -= 1;
        }
        let root = url.substring_char(0, n);
        assert(root@ =~= url@.take(n as int));
        OpenAiOracle { base_url: root.to_owned(), ..self }
    }

    pub fn timeout(self, d: Delay) -> (r: Self)
        ensures
            r == (OpenAiOracle { timeout: d, ..self }),
    {
        OpenAiOracle { timeout: d, ..self }
    }

    /// The request body for `prompt`.
    pub fn build_request(&self, prompt: &Value) -> (r: Json)
        ensures
            json::tree(r) == JsonView::Obj(self.body_members(prompt@)),
    {
        let mut messages: Vec<Json> = Vec::new();
        if let Some(s) = &self.system {
            messages.push(anthropic::role_message("system", json::string(s.as_str())));
        }
        messages.push(anthropic::role_message("user", json::string(prompt.as_str().as_str())));
        assert(json::trees(messages@) =~= self.messages_for(prompt@));
        let mut pairs: Vec<(String, Json)> = Vec::new();
        assert(json::members(json::pair_trees(pairs@)) =~= Map::empty());
        anthropic::push_member(&mut pairs, "model", json::string(self.model.as_str()));
        anthropic::push_member(&mut pairs, "messages", json::array(messages));
        if let Some(m) = self.max_tokens {
            anthropic::push_member(&mut pairs, "max_tokens", json::number(m));
        }
        if let Some(t) = &self.temperature {
            anthropic::push_member(&mut pairs, "temperature", json::copy(&t.number));
        }
        json::object(pairs)
    }

    /// The request for `prompt`: where it goes, its headers and its body. There
    /// is an `authorization` header only with a key.
    pub fn request(&self, prompt: &Value) -> (r: Request)
        ensures
            r.url@ == self.base_url@ + "/chat/completions"@,
            r.headers@.len() == (if self.api_key@.len() > 0 {
                2nat
            } else {
                1nat
            }),
            r.headers@[0].0@ == "content-type"@ && r.headers@[0].1@ == "application/json"@,
            self.api_key@.len() > 0 ==> r.headers@[1].0@ == "authorization"@ && r.headers@[1].1@
                == "Bearer "@ + self.api_key@,
            r.body@ == json::printed(JsonView::Obj(self.body_members(prompt@))),
            r.timeout == self.timeout,
    {
        let body = self.build_request(prompt);
        let mut headers: Vec<(String, String)> = Vec::new();
        headers.push(("content-type".to_owned(), "application/json".to_owned()));
        if !self.api_key.as_str().is_empty() {
            headers.push(
                ("authorization".to_owned(), "Bearer ".to_owned().concat(self.api_key.as_str())),
            );
        }
        Request {
            url: self.base_url.clone().concat("/chat/completions"),
            headers,
            body: json::print(&body),
            timeout: self.timeout,
        }
    }

    /// Pulls the completion text out of a Chat Completions response.
    pub fn extract_text(response: &Json) -> (r: Result<String, Fault>)
        ensures
            match r {
                Ok(s) => completion(json::tree(*response)) == Ok::<Seq<char>, FaultView>(s@),
                Err(f) => completion(json::tree(*response)) == Err::<Seq<char>, FaultView>(f@),
            },
    {
        match json::items_at(response, "choices") {
            None => Err(Fault::OracleErr("response has no choices".to_owned())),
            Some(choices) => {
                if choices.len() == 0 {
                    return Err(Fault::OracleErr("response has no choices".to_owned()));
                }
                let choice = &choices[0];
                assert(json::trees(choices@)[0] == json::tree(*choice));
                let content = match json::get(choice, "message") {
                    None => None,
                    Some(m) => json::text_at(m, "content"),
                };
                let found = match content {
                    Some(s) => s,
                    None => "",
                };
                proof {
                    reveal_strlit("");
                    assert(""@ =~= Seq::<char>::empty());
                }
                if found.is_empty() {
                    let reason = match json::text_at(choice, "finish_reason") {
                        Some(s) => s,
                        None => "unknown",
                    };
                    Err(
                        Fault::OracleErr(
                            "response contained no completion text (finish_reason: ".to_owned()
                                .concat(reason).concat(")"),
                        ),
                    )
                } else {
                    Ok(found.to_owned())
                }
            },
        }
    }

    /// What is made of the reply to a request.
    pub fn outcome(&self, reply: &Reply) -> (r: Result<Value, Fault>)
        ensures
            match r {
                Ok(v) => reply_outcome(*reply) == Ok::<Seq<u8>, FaultView>(v@),
                Err(f) => reply_outcome(*reply) == Err::<Seq<u8>, FaultView>(f@),
            },
    {
        match reply.body("openai-compatible api") {
            Err(f) => Err(f),
            Ok(body) => match crate::http::parse_body(body.as_str()) {
                Err(f) => Err(f),
                Ok(response) => match Self::extract_text(&response) {
                    Err(f) => Err(f),
                    Ok(s) => Ok(Value::from(s)),
                },
            },
        }
    }

    /// Identifies the model for the journal's provenance field.
    pub fn provenance(&self) -> (r: String)
        ensures
            r@ == (match self.temperature {
                Some(t) => "openai:"@ + self.model@ + "@temperature="@ + t.text@,
                None => "openai:"@ + self.model@,
            }),
    {
        let name = "openai:".to_owned().concat(self.model.as_str());
        match &self.temperature {
            Some(t) => name.concat("@temperature=").concat(t.text.as_str()),
            None => name,
        }
    }
}

} // verus!

//! The Anthropic Messages API as a journaled oracle.
//!
//! This module decides what is sent and what is made of the reply; sending is
//! left to the program that owns the connection.
//!
//! A plain-text prompt is sent as a single user message. A [`Conversation`]
//! prompt sends the full message history with the oracle's declared tools, and
//! the journaled outcome is a [`Turn`] carrying the assistant's content
//! blocks, the stop reason and the token usage.
use vstd::prelude::*;
use vstd::utf8::*;

use serde_json::Value as Json;

use crate::fault::{Fault, FaultView};
use crate::http::{Reply, Request};
use crate::json;
use crate::json::JsonView;
use crate::oracle::Delay;
use crate::text;
use crate::value::Value;

verus! {

/// A sampling temperature: the number as it is sent, and as it is named in the
/// provenance.
pub struct Temperature {
    pub number: Json,
    pub text: String,
}

/// The settings of an oracle backed by the Anthropic Messages API.
pub struct AnthropicOracle {
    pub api_key: String,
    pub base_url: String,
    pub model: String,
    pub max_tokens: u32,
    pub temperature: Option<Temperature>,
    pub system: Option<String>,
    pub tools: Option<Json>,
    pub timeout: Delay,
}

/// Is the prompt a structured one: a JSON object with a `messages` array?
pub open spec fn is_structured(prompt: Seq<u8>) -> bool {
    json::parsed(prompt) matches Ok(t) && t.at("messages"@).items() is Some
}

/// The message of a role.
pub open spec fn message(role: Seq<char>, content: JsonView) -> JsonView {
    JsonView::Obj(
        Map::empty().insert("role"@, JsonView::Str(role)).insert("content"@, content),
    )
}

/// The messages that are sent for a prompt.
pub open spec fn messages_for(prompt: Seq<u8>) -> JsonView {
    if is_structured(prompt) {
        json::parsed(prompt)->Ok_0.at("messages"@)
    } else {
        JsonView::Arr(seq![message("user"@, JsonView::Str(text::lossy_text(prompt)))])
    }
}

/// `m` with `key` set to `v`, if there is a `v`.
pub open spec fn with_member(
    m: Map<Seq<char>, JsonView>,
    key: Seq<char>,
    v: Option<JsonView>,
) -> Map<Seq<char>, JsonView> {
    match v {
        Some(v) => m.insert(key, v),
        None => m,
    }
}

/// The text of a `text` block.
pub open spec fn block_text(block: JsonView) -> Seq<char> {
    match block.at("text"@).text() {
        Some(s) if block.at("type"@).text() == Some("text"@) => s,
        _ => Seq::empty(),
    }
}

/// The concatenated texts of the `text` blocks.
pub open spec fn blocks_text(blocks: Seq<JsonView>) -> Seq<char>
    decreases blocks.len(),
{
    if blocks.len() == 0 {
        Seq::empty()
    } else {
        blocks_text(blocks.drop_last()) + block_text(blocks.last())
    }
}

/// A text, or another if there is none.
pub open spec fn or_text(t: Option<Seq<char>>, other: Seq<char>) -> Seq<char> {
    match t {
        Some(s) => s,
        None => other,
    }
}

/// The text of a response: its `text` blocks, which must not all be empty.
pub open spec fn response_text(response: JsonView) -> Result<Seq<char>, FaultView> {
    match response.at("content"@).items() {
        None => Err(FaultView::OracleErr("response has no content array"@)),
        Some(blocks) => if blocks_text(blocks).len() == 0 {
            Err(
                FaultView::OracleErr(
                    "response contained no text blocks (stop_reason: "@ + or_text(
                        response.at("stop_reason"@).text(),
                        "unknown"@,
                    ) + ")"@,
                ),
            )
        } else {
            Ok(blocks_text(blocks))
        },
    }
}

/// The concatenated texts of the `text` blocks.
fn concat_blocks(blocks: &Vec<Json>) -> (r: String)
    ensures
        r@ == blocks_text(json::trees(blocks@)),
{
    let ghost all = json::trees(blocks@);
    let mut out = String::new();
    assert(all.take(0) =~= Seq::empty());
    let mut i: usize = 0;
    while i < blocks.len()
        invariant
            i <= blocks@.len(),
            all == json::trees(blocks@),
            out@ == blocks_text(all.take(i as int)),
        decreases blocks@.len() - i,
    {
        let b = &blocks[i];
        proof {
            assert(all.take(i + 1).drop_last() =~= all.take(i as int));
            assert(all.take(i + 1).last() == json::tree(*b));
            assert(out@ + Seq::empty() =~= out@);
        }
        if json::is_text_at(b, "type", "text") {
            if let Some(s) = json::text_at(b, "text") {
                out.append(s);
            }
        }
        i += 1;
    }
    assert(all.take(all.len() as int) =~= all);
    out
}

/// The prompt as JSON, if it is a structured one.
fn parse_structured(prompt: &Value) -> (r: Option<Json>)
    ensures
        match r {
            Some(v) => is_structured(prompt@) && json::parsed(prompt@) == Ok::<
                JsonView,
                Seq<char>,
            >(json::tree(v)),
            None => !is_structured(prompt@),
        },
{
    match json::parse(prompt.as_bytes()) {
        Err(e) => None,
        Ok(v) => match json::items_at(&v, "messages") {
            None => None,
            Some(list) => Some(v),
        },
    }
}

impl AnthropicOracle {
    /// The members of the request body for `prompt`.
    pub open spec fn body_members(&self, prompt: Seq<u8>) -> Map<Seq<char>, JsonView> {
        let base = Map::<Seq<char>, JsonView>::empty().insert(
            "model"@,
            JsonView::Str(self.model@),
        ).insert("max_tokens"@, JsonView::UInt(self.max_tokens as u64)).insert(
            "messages"@,
            messages_for(prompt),
        );
        let warm = with_member(
            base,
            "temperature"@,
            match self.temperature {
                Some(t) => Some(json::tree(t.number)),
                None => None,
            },
        );
        let told = with_member(
            warm,
            "system"@,
            match self.system {
                Some(s) => Some(JsonView::Str(s@)),
                None => None,
            },
        );
        with_member(
            told,
            "tools"@,
            match self.tools {
                Some(v) if is_structured(prompt) => Some(json::tree(v)),
                _ => None,
            },
        )
    }

    /// Builds with an explicit API key and model.
    pub fn new(api_key: &str, model: &str) -> (r: Self)
        ensures
            r.api_key@ == api_key@,
            r.base_url@ == "https://api.anthropic.com"@,
            r.model@ == model@,
            r.max_tokens == 1024,
            r.temperature is None,
            r.system is None,
            r.tools is None,
            r.timeout@ == 120 * 1_000_000_000,
    {
        AnthropicOracle {
            api_key: api_key.to_owned(),
            base_url: "https://api.anthropic.com".to_owned(),
            model: model.to_owned(),
            max_tokens: 1024,
            temperature: None,
            system: None,
            tools: None,
            timeout: Delay::from_parts(120, 0),
        }
    }

    /// Builds from the value of the `ANTHROPIC_API_KEY` environment variable,
    /// if it is set.
    pub fn from_env(key: Option<&str>, model: &str) -> (r: Result<Self, Fault>)
        ensures
            match r {
                Ok(o) => key matches Some(k) && o.api_key@ == k@ && o.base_url@
                    == "https://api.anthropic.com"@ && o.model@ == model@
                    && o.max_tokens == 1024 && o.temperature is None && o.system is None
                    && o.tools is None && o.timeout@ == 120 * 1_000_000_000,
                Err(f) => key is None && f@ == FaultView::OracleErr(
                    "ANTHROPIC_API_KEY is not set"@,
                ),
            },
    {
        match key {
            None => Err(Fault::OracleErr("ANTHROPIC_API_KEY is not set".to_owned())),
            Some(k) => Ok(Self::new(k, model)),
        }
    }

    pub fn model(self, model: &str) -> (r: Self)
        ensures
            r.model@ == model@,
            r == (AnthropicOracle { model: r.model, ..self }),
    {
        AnthropicOracle { model: model.to_owned(), ..self }
    }

    pub fn max_tokens(self, max_tokens: u32) -> (r: Self)
        ensures
            r == (AnthropicOracle { max_tokens, ..self }),
    {
        AnthropicOracle { max_tokens, ..self }
    }

    pub fn temperature(self, t: Temperature) -> (r: Self)
        ensures
            r == (AnthropicOracle { temperature: Some(t), ..self }),
    {
        AnthropicOracle { temperature: Some(t), ..self }
    }

    pub fn system(self, system: &str) -> (r: Self)
        ensures
            r.system matches Some(s) && s@ == system@,
            r == (AnthropicOracle { system: r.system, ..self }),
    {
        AnthropicOracle { system: Some(system.to_owned()), ..self }
    }

    /// Declares tools (a Messages API `tools` array) sent with every
    /// [`Conversation`] prompt. Plain-text prompts never send tools.
    pub fn tools(self, tools: Json) -> (r: Self)
        ensures
            r == (AnthropicOracle { tools: Some(tools), ..self }),
    {
        AnthropicOracle { tools: Some(tools), ..self }
    }

    /// Overrides the API endpoint (proxies, gateways, mock servers in tests).
    pub fn base_url(self, url: &str) -> (r: Self)
        ensures
            r.base_url@ == url@,
            r == (AnthropicOracle { base_url: r.base_url, ..self }),
    {
        AnthropicOracle { base_url: url.to_owned(), ..self }
    }

    pub fn timeout(self, d: Delay) -> (r: Self)
        ensures
            r == (AnthropicOracle { timeout: d, ..self }),
    {
        AnthropicOracle { timeout: d, ..self }
    }

    /// The request body for `prompt`.
    ///
    /// A plain-text prompt becomes a single user message. A structured prompt,
    /// as produced by [`Conversation::prompt`], is sent as the full
    /// conversation, with the oracle's declared tools attached.
    pub fn build_request(&self, prompt: &Value) -> (r: Json)
        ensures
            json::tree(r) == JsonView::Obj(self.body_members(prompt@)),
    {
        let structured = parse_structured(prompt);
        let messages: Json = match &structured {
            Some(convo) => match json::get(convo, "messages") {
                Some(list) => json::copy(list),
                None => json::null(),
            },
            None => {
                let one = role_message("user", json::string(prompt.as_str().as_str()));
                let mut list: Vec<Json> = Vec::new();
                list.push(one);
                assert(json::trees(list@) =~= seq![json::tree(one)]);
                json::array(list)
            },
        };
        assert(json::tree(messages) == messages_for(prompt@));
        let mut pairs: Vec<(String, Json)> = Vec::new();
        push_member(&mut pairs, "model", json::string(self.model.as_str()));
        push_member(&mut pairs, "max_tokens", json::number(self.max_tokens));
        push_member(&mut pairs, "messages", messages);
        if let Some(t) = &self.temperature {
            push_member(&mut pairs, "temperature", json::copy(&t.number));
        }
        if let Some(s) = &self.system {
            push_member(&mut pairs, "system", json::string(s.as_str()));
        }
        if structured.is_some() {
            if let Some(tools) = &self.tools {
                push_member(&mut pairs, "tools", json::copy(tools));
            }
        }
        json::object(pairs)
    }

    /// The request for `prompt`: where it goes, its headers and its body.
    pub fn request(&self, prompt: &Value) -> (r: Request)
        ensures
            r.url@ == self.base_url@ + "/v1/messages"@,
            r.headers@.len() == 3,
            r.headers@[0].0@ == "x-api-key"@ && r.headers@[0].1@ == self.api_key@,
            r.headers@[1].0@ == "anthropic-version"@ && r.headers@[1].1@ == "2023-06-01"@,
            r.headers@[2].0@ == "content-type"@ && r.headers@[2].1@ == "application/json"@,
            r.body@ == json::printed(JsonView::Obj(self.body_members(prompt@))),
            r.timeout == self.timeout,
    {
        let body = self.build_request(prompt);
        let mut headers: Vec<(String, String)> = Vec::new();
        headers.push(("x-api-key".to_owned(), self.api_key.clone()));
        headers.push(("anthropic-version".to_owned(), "2023-06-01".to_owned()));
        headers.push(("content-type".to_owned(), "application/json".to_owned()));
        Request {
            url: self.base_url.clone().concat("/v1/messages"),
            headers,
            body: json::print(&body),
            timeout: self.timeout,
        }
    }

    /// Pulls the concatenated text blocks out of a Messages API response.
    pub fn extract_text(response: &Json) -> (r: Result<String, Fault>)
        ensures
            match r {
                Ok(s) => response_text(json::tree(*response)) == Ok::<Seq<char>, FaultView>(s@),
                Err(f) => response_text(json::tree(*response)) == Err::<Seq<char>, FaultView>(f@),
            },
    {
        match json::items_at(response, "content") {
            None => Err(Fault::OracleErr("response has no content array".to_owned())),
            Some(blocks) => {
                let out = concat_blocks(blocks);
                if out.as_str().is_empty() {
                    let reason = match json::text_at(response, "stop_reason") {
                        Some(s) => s,
                        None => "unknown",
                    };
                    Err(
                        Fault::OracleErr(
                            "response contained no text blocks (stop_reason: ".to_owned().concat(
                                reason,
                            ).concat(")"),
                        ),
                    )
                } else {
                    Ok(out)
                }
            },
        }
    }

    /// What is made of the reply to the request for `prompt`.
    ///
    /// A structured prompt journals the whole assistant turn, so that the
    /// journal is a complete audit record of the conversation. A plain prompt
    /// keeps the text-in, text-out contract.
    pub fn outcome(&self, prompt: &Value, reply: &Reply) -> (r: Result<Value, Fault>)
        ensures
            match r {
                Ok(v) => reply_outcome(prompt@, *reply) == Ok::<Seq<u8>, FaultView>(v@),
                Err(f) => reply_outcome(prompt@, *reply) == Err::<Seq<u8>, FaultView>(f@),
            },
    {
        match reply.body("anthropic api") {
            Err(f) => Err(f),
            Ok(body) => match crate::http::parse_body(body.as_str()) {
                Err(f) => Err(f),
                Ok(response) => {
                    if parse_structured(prompt).is_some() {
                        match Turn::from_response(&response) {
                            Err(f) => Err(f),
                            Ok(turn) => Ok(turn.to_value()),
                        }
                    } else {
                        match Self::extract_text(&response) {
                            Err(f) => Err(f),
                            Ok(s) => Ok(Value::from(s)),
                        }
                    }
                },
            },
        }
    }

    /// Identifies the model for the journal's provenance field.
    pub fn provenance(&self) -> (r: String)
        ensures
            r@ == (match self.temperature {
                Some(t) => "anthropic:"@ + self.model@ + "@temperature="@ + t.text@,
                None => "anthropic:"@ + self.model@,
            }),
    {
        let name = "anthropic:".to_owned().concat(self.model.as_str());
        match &self.temperature {
            Some(t) => name.concat("@temperature=").concat(t.text.as_str()),
            None => name,
        }
    }
}

/// What is made of a reply to `prompt`.
pub open spec fn reply_outcome(prompt: Seq<u8>, reply: Reply) -> Result<Seq<u8>, FaultView> {
    match reply.response("anthropic api"@) {
        Err(f) => Err(f),
        Ok(response) => if is_structured(prompt) {
            match response_turn(response) {
                Err(f) => Err(f),
                Ok(turn) => Ok(encode_utf8(json::printed(turn.as_json()))),
            }
        } else {
            match response_text(response) {
                Err(f) => Err(f),
                Ok(s) => Ok(encode_utf8(s)),
            }
        },
    }
}

/// Adds a member to the members of an object.
pub fn push_member(pairs: &mut Vec<(String, Json)>, key: &str, v: Json)
    ensures
        json::members(json::pair_trees(final(pairs)@)) == json::members(
            json::pair_trees(old(pairs)@),
        ).insert(key@, json::tree(v)),
{
    pairs.push((key.to_owned(), v));
    proof {
        let all = json::pair_trees(pairs@);
        assert(all.drop_last() =~= json::pair_trees(old(pairs)@));
        assert(all.last() == (key@, json::tree(v)));
    }
}

/// The message of a role.
pub fn role_message(role: &str, content: Json) -> (r: Json)
    ensures
        json::tree(r) == message(role@, json::tree(content)),
{
    let mut pairs: Vec<(String, Json)> = Vec::new();
    assert(json::members(json::pair_trees(pairs@)) =~= Map::empty());
    push_member(&mut pairs, "role", json::string(role));
    push_member(&mut pairs, "content", content);
    json::object(pairs)
}

/// One assistant turn, as journaled: the full content-block array, the stop
/// reason, and token usage. This is the outcome an audit replays.
#[derive(Debug)]
pub struct Turn {
    pub content: Json,
    pub stop_reason: String,
    pub usage: Json,
}

/// What a [`Turn`] says.
#[verifier::ext_equal]
pub struct TurnView {
    pub content: JsonView,
    pub stop_reason: Seq<char>,
    pub usage: JsonView,
}

impl View for Turn {
    type V = TurnView;

    open spec fn view(&self) -> TurnView {
        TurnView {
            content: json::tree(self.content),
            stop_reason: self.stop_reason@,
            usage: json::tree(self.usage),
        }
    }
}

impl Clone for Turn {
    fn clone(&self) -> (r: Self)
        ensures
            r@ == self@,
    {
        Turn {
            content: json::copy(&self.content),
            stop_reason: self.stop_reason.clone(),
            usage: json::copy(&self.usage),
        }
    }
}

impl TurnView {
    /// The journal representation, as JSON.
    pub open spec fn as_json(self) -> JsonView {
        JsonView::Obj(
            Map::empty().insert("content"@, self.content).insert(
                "stop_reason"@,
                JsonView::Str(self.stop_reason),
            ).insert("usage"@, self.usage),
        )
    }
}

/// The turn that a response carries.
pub open spec fn response_turn(response: JsonView) -> Result<TurnView, FaultView> {
    if response.at("content"@).items() is None {
        Err(FaultView::OracleErr("response has no content array"@))
    } else {
        Ok(
            TurnView {
                content: response.at("content"@),
                stop_reason: or_text(response.at("stop_reason"@).text(), "unknown"@),
                usage: response.at("usage"@),
            },
        )
    }
}

/// One tool invocation requested by the model.
#[derive(Debug)]
pub struct ToolUse {
    pub id: String,
    pub name: String,
    pub input: Json,
}

/// What a [`ToolUse`] says.
#[verifier::ext_equal]
pub struct ToolUseView {
    pub id: Seq<char>,
    pub name: Seq<char>,
    pub input: JsonView,
}

impl View for ToolUse {
    type V = ToolUseView;

    open spec fn view(&self) -> ToolUseView {
        ToolUseView { id: self.id@, name: self.name@, input: json::tree(self.input) }
    }
}

impl Clone for ToolUse {
    fn clone(&self) -> (r: Self)
        ensures
            r@ == self@,
    {
        ToolUse {
            id: self.id.clone(),
            name: self.name.clone(),
            input: json::copy(&self.input),
        }
    }
}

/// The tool invocations among some content blocks, in order.
pub open spec fn blocks_tools(blocks: Seq<JsonView>) -> Seq<ToolUseView>
    decreases blocks.len(),
{
    if blocks.len() == 0 {
        Seq::empty()
    } else {
        let before = blocks_tools(blocks.drop_last());
        let b = blocks.last();
        if b.at("type"@).text() == Some("tool_use"@) {
            before.push(
                ToolUseView {
                    id: or_text(b.at("id"@).text(), Seq::empty()),
                    name: or_text(b.at("name"@).text(), Seq::empty()),
                    input: b.at("input"@),
                },
            )
        } else {
            before
        }
    }
}

/// The views of a list of tool invocations.
pub open spec fn tool_views(list: Seq<ToolUse>) -> Seq<ToolUseView> {
    list.map_values(|t: ToolUse| t@)
}

/// The items of an array; none of anything else.
pub open spec fn blocks_of(content: JsonView) -> Seq<JsonView> {
    match content.items() {
        Some(s) => s,
        None => Seq::empty(),
    }
}

impl Turn {
    /// Builds from a live Messages API response body.
    pub fn from_response(response: &Json) -> (r: Result<Turn, Fault>)
        ensures
            match r {
                Ok(t) => response_turn(json::tree(*response)) == Ok::<TurnView, FaultView>(t@),
                Err(f) => response_turn(json::tree(*response)) == Err::<TurnView, FaultView>(f@),
            },
    {
        let content: Json = match json::get(response, "content") {
            Some(c) => {
                if json::as_array(c).is_none() {
                    return Err(Fault::OracleErr("response has no content array".to_owned()));
                }
                json::copy(c)
            },
            None => {
                return Err(Fault::OracleErr("response has no content array".to_owned()));
            },
        };
        let stop_reason = match json::text_at(response, "stop_reason") {
            Some(s) => s.to_owned(),
            None => "unknown".to_owned(),
        };
        let usage: Json = match json::get(response, "usage") {
            Some(u) => json::copy(u),
            None => json::null(),
        };
        Ok(Turn { content, stop_reason, usage })
    }

    /// Parses a journaled oracle outcome back into a turn, identically while
    /// recording and while replaying.
    pub fn parse(outcome: &Value) -> (r: Result<Turn, Fault>)
        ensures
            match r {
                Ok(t) => journaled_turn(outcome@) == Ok::<TurnView, FaultView>(t@),
                Err(f) => journaled_turn(outcome@) == Err::<TurnView, FaultView>(f@),
            },
    {
        match json::parse(outcome.as_bytes()) {
            Err(e) => Err(
                Fault::OracleErr(
                    "journaled turn is not valid JSON: ".to_owned().concat(e.as_str()),
                ),
            ),
            Ok(v) => Self::from_response(&v),
        }
    }

    /// The journal representation of this turn. It parses back to the same
    /// turn, if the content is an array and neither it nor the usage holds
    /// non-integer numbers or is nested too deeply.
    pub fn to_value(&self) -> (r: Value)
        ensures
            r@ == encode_utf8(json::printed(self@.as_json())),
            self@.content.items() is Some && self@.content.is_exact(126) && self@.usage.is_exact(
                126,
            ) ==> journaled_turn(r@) == Ok::<TurnView, FaultView>(self@),
    {
        let mut pairs: Vec<(String, Json)> = Vec::new();
        assert(json::members(json::pair_trees(pairs@)) =~= Map::empty());
        push_member(&mut pairs, "content", json::copy(&self.content));
        push_member(&mut pairs, "stop_reason", json::string(self.stop_reason.as_str()));
        push_member(&mut pairs, "usage", json::copy(&self.usage));
        let v = json::object(pairs);
        proof {
            lemma_turn_members(self@);
        }
        let s = json::print(&v);
        Value::from(s)
    }

    /// The concatenated text blocks (empty when the turn is tools-only).
    pub fn text(&self) -> (r: String)
        ensures
            r@ == blocks_text(blocks_of(self@.content)),
    {
        match json::as_array(&self.content) {
            None => String::new(),
            Some(blocks) => concat_blocks(blocks),
        }
    }

    /// True when the model stopped to call tools.
    pub fn wants_tools(&self) -> (r: bool)
        ensures
            r == (self@.stop_reason == "tool_use"@),
    {
        text::same_text(self.stop_reason.as_str(), "tool_use")
    }

    /// Every `tool_use` block in this turn, in order.
    pub fn tool_uses(&self) -> (r: Vec<ToolUse>)
        ensures
            tool_views(r@) == blocks_tools(blocks_of(self@.content)),
    {
        let mut out: Vec<ToolUse> = Vec::new();
        assert(tool_views(out@) =~= Seq::empty());
        match json::as_array(&self.content) {
            None => out,
            Some(blocks) => {
                let ghost all = json::trees(blocks@);
                assert(all.take(0) =~= Seq::empty());
                let mut i: usize = 0;
                while i < blocks.len()
                    invariant
                        i <= blocks@.len(),
                        all == json::trees(blocks@),
                        tool_views(out@) == blocks_tools(all.take(i as int)),
                    decreases blocks@.len() - i,
                {
                    let b = &blocks[i];
                    let ghost before = out@;
                    proof {
                        assert(all.take(i + 1).drop_last() =~= all.take(i as int));
                        assert(all.take(i + 1).last() == json::tree(*b));
                    }
                    if json::is_text_at(b, "type", "tool_use") {
                        let t = ToolUse {
                            id: text_or_empty(b, "id"),
                            name: text_or_empty(b, "name"),
                            input: match json::get(b, "input") {
                                Some(v) => json::copy(v),
                                None => json::null(),
                            },
                        };
                        out.push(t);
                        assert(tool_views(out@) =~= tool_views(before).push(t@));
                    }
                    i += 1;
                }
                assert(all.take(all.len() as int) =~= all);
                out
            },
        }
    }
}

/// The text of the member `key`; empty if it is no string.
fn text_or_empty(v: &Json, key: &str) -> (r: String)
    ensures
        r@ == or_text(json::tree(*v).at(key@).text(), Seq::empty()),
{
    match json::text_at(v, key) {
        Some(s) => s.to_owned(),
        None => String::new(),
    }
}

/// The turn that a journaled outcome holds.
pub open spec fn journaled_turn(outcome: Seq<u8>) -> Result<TurnView, FaultView> {
    match json::parsed(outcome) {
        Err(e) => Err(FaultView::OracleErr("journaled turn is not valid JSON: "@ + e)),
        Ok(t) => response_turn(t),
    }
}

/// The members of a turn's representation are its parts.
proof fn lemma_turn_members(t: TurnView)
    ensures
        t.as_json().at("content"@) == t.content,
        t.as_json().at("stop_reason"@) == JsonView::Str(t.stop_reason),
        t.as_json().at("usage"@) == t.usage,
        t.content.is_exact(126) && t.usage.is_exact(126) ==> t.as_json().is_exact(127),
{
    reveal_strlit("content");
    reveal_strlit("stop_reason");
    reveal_strlit("usage");
    assert("content"@.len() != "stop_reason"@.len());
    assert("content"@.len() != "usage"@.len());
    assert("usage"@.len() != "stop_reason"@.len());
    assert(JsonView::Str(t.stop_reason).is_exact(126));
    if t.content.is_exact(126) && t.usage.is_exact(126) {
        let m = t.as_json()->Obj_0;
        assert forall|k: Seq<char>| #[trigger] m.dom().contains(k) implies m[k].is_exact(126) by {
            assert(k == "content"@ || k == "stop_reason"@ || k == "usage"@);
        }
    }
}

/// The message history of a tool-use loop, sent whole on every draw.
///
/// The conversation is rebuilt from journaled values on every attempt, so the
/// serialized prompt is byte-identical across record, resume and replay.
#[derive(Debug)]
pub struct Conversation {
    messages: Vec<Json>,
}

impl View for Conversation {
    type V = Seq<JsonView>;

    closed spec fn view(&self) -> Seq<JsonView> {
        json::trees(self.messages@)
    }
}

impl Clone for Conversation {
    fn clone(&self) -> (r: Self)
        ensures
            r@ == self@,
    {
        Conversation { messages: json::copy_all(&self.messages) }
    }
}

/// The block of one tool's result.
pub open spec fn result_block(tool_use_id: Seq<char>, result: Seq<char>) -> JsonView {
    JsonView::Obj(
        Map::empty().insert("type"@, JsonView::Str("tool_result"@)).insert(
            "tool_use_id"@,
            JsonView::Str(tool_use_id),
        ).insert("content"@, JsonView::Str(result)),
    )
}

/// Is the message one of tool results: a user message whose content is an
/// array of `tool_result` blocks?
pub open spec fn is_result_message(m: JsonView) -> bool {
    m.at("role"@).text() == Some("user"@) && (m.at("content"@).items() matches Some(s)
        && forall|i: int|
        0 <= i < s.len() ==> (#[trigger] s[i]).at("type"@).text() == Some("tool_result"@))
}

/// The messages after one tool's result: it joins the last message if that is
/// one of tool results, else it starts a new one.
pub open spec fn with_result(messages: Seq<JsonView>, block: JsonView) -> Seq<JsonView> {
    if messages.len() > 0 && is_result_message(messages.last()) {
        messages.drop_last().push(
            message(
                "user"@,
                JsonView::Arr(messages.last().at("content"@).items()->0.push(block)),
            ),
        )
    } else {
        messages.push(message("user"@, JsonView::Arr(seq![block])))
    }
}

/// The structured prompt of some messages, as JSON.
pub open spec fn prompt_json(messages: Seq<JsonView>) -> JsonView {
    JsonView::Obj(Map::empty().insert("messages"@, JsonView::Arr(messages)))
}

impl Default for Conversation {
    /// No messages.
    fn default() -> (r: Self)
        ensures
            r@ == Seq::<JsonView>::empty(),
    {
        let r = Conversation { messages: Vec::new() };
        assert(r@ =~= Seq::empty());
        r
    }
}

impl Conversation {
    /// Starts a conversation with one user message.
    pub fn user(text: &str) -> (r: Self)
        ensures
            r@ == seq![message("user"@, JsonView::Str(text@))],
    {
        let mut c = Conversation::default();
        c.push_user(text);
        assert(c@ =~= seq![message("user"@, JsonView::Str(text@))]);
        c
    }

    pub fn push_user(&mut self, text: &str)
        ensures
            final(self)@ == old(self)@.push(message("user"@, JsonView::Str(text@))),
    {
        let m = role_message("user", json::string(text));
        self.push(m);
    }

    /// Appends the assistant's turn exactly as journaled, as the Messages API
    /// requires for the follow-up request.
    pub fn push_assistant(&mut self, turn: &Turn)
        ensures
            final(self)@ == old(self)@.push(message("assistant"@, turn@.content)),
    {
        let m = role_message("assistant", json::copy(&turn.content));
        self.push(m);
    }

    fn push(&mut self, m: Json)
        ensures
            final(self)@ == old(self)@.push(json::tree(m)),
    {
        self.messages.push(m);
        assert(self@ =~= old(self)@.push(json::tree(m)));
    }

    /// Appends one tool's result. Consecutive results coalesce into a single
    /// user message of `tool_result` blocks, per the Messages API shape.
    pub fn push_tool_result(&mut self, tool_use_id: &str, result: &str)
        ensures
            final(self)@ == with_result(old(self)@, result_block(tool_use_id@, result@)),
    {
        let mut pairs: Vec<(String, Json)> = Vec::new();
        assert(json::members(json::pair_trees(pairs@)) =~= Map::empty());
        push_member(&mut pairs, "type", json::string("tool_result"));
        push_member(&mut pairs, "tool_use_id", json::string(tool_use_id));
        push_member(&mut pairs, "content", json::string(result));
        let block = json::object(pairs);
        let n: usize = self.messages.len();
        if n > 0 && result_message(&self.messages[n - 1]) {
            let ghost last = json::tree(self.messages@[n - 1]);
            assert(self@.last() == last);
            let mut blocks: Vec<Json> = match json::items_at(&self.messages[n - 1], "content") {
                Some(list) => json::copy_all(list),
                None => Vec::new(),
            };
            let ghost before = json::trees(blocks@);
            blocks.push(block);
            assert(json::trees(blocks@) =~= before.push(json::tree(block)));
            let m = role_message("user", json::array(blocks));
            let gone = self.messages.pop();
            assert(self@ =~= old(self)@.drop_last());
            self.push(m);
        } else {
            let mut blocks: Vec<Json> = Vec::new();
            blocks.push(block);
            assert(json::trees(blocks@) =~= seq![json::tree(block)]);
            let m = role_message("user", json::array(blocks));
            self.push(m);
        }
    }

    /// The structured prompt. Serialization is deterministic, so identical
    /// histories yield identical prompt bytes: the property journal
    /// verification depends on.
    pub fn prompt(&self) -> (r: Value)
        ensures
            r@ == encode_utf8(json::printed(prompt_json(self@))),
            prompt_json(self@).is_exact(127) ==> is_structured(r@) && messages_for(r@)
                == JsonView::Arr(self@),
    {
        let list = json::array(json::copy_all(&self.messages));
        let mut pairs: Vec<(String, Json)> = Vec::new();
        assert(json::members(json::pair_trees(pairs@)) =~= Map::empty());
        push_member(&mut pairs, "messages", list);
        let v = json::object(pairs);
        let s = json::print(&v);
        Value::from(s)
    }
}

/// Is the message one of tool results?
fn result_message(m: &Json) -> (r: bool)
    ensures
        r == is_result_message(json::tree(*m)),
{
    if !json::is_text_at(m, "role", "user") {
        return false;
    }
    match json::items_at(m, "content") {
        None => false,
        Some(blocks) => {
            let ghost all = json::trees(blocks@);
            let mut i: usize = 0;
            while i < blocks.len()
                invariant
                    i <= blocks@.len(),
                    all == json::trees(blocks@),
                    json::tree(*m).at("role"@).text() == Some("user"@),
                    json::tree(*m).at("content"@).items() == Some(all),
                    forall|j: int|
                        0 <= j < i ==> (#[trigger] all[j]).at("type"@).text() == Some(
                            "tool_result"@,
                        ),
                decreases blocks@.len() - i,
            {
                assert(all[i as int] == json::tree(blocks@[i as int]));
                if !json::is_text_at(&blocks[i], "type", "tool_result") {
                    return false;
                }
                i += 1;
            }
            true
        },
    }
}

} // verus!

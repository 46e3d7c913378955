//! What the model adapters send and what they make of a reply, told by the
//! members of the JSON values that go out and come in.
use vstd::prelude::*;
use vstd::utf8::*;

use serde_json::Value as Json;

use crate::anthropic;
use crate::anthropic::{AnthropicOracle, Conversation, Turn, TurnView};
use crate::fault::{Fault, FaultView};
use crate::http;
use crate::http::{Reply, Request};
use crate::json;
use crate::json::JsonView;
use crate::openai;
use crate::openai::OpenAiOracle;
use crate::text;
use crate::value::Value;

verus! {

/// The keys that are used side by side are different keys.
proof fn lemma_keys()
    ensures
        "role"@ != "content"@,
        "type"@ != "tool_use_id"@,
        "type"@ != "content"@,
        "tool_use_id"@ != "content"@,
        "model"@ != "max_tokens"@,
        "model"@ != "messages"@,
        "model"@ != "temperature"@,
        "model"@ != "system"@,
        "model"@ != "tools"@,
        "max_tokens"@ != "messages"@,
        "max_tokens"@ != "temperature"@,
        "max_tokens"@ != "system"@,
        "max_tokens"@ != "tools"@,
        "messages"@ != "temperature"@,
        "messages"@ != "system"@,
        "messages"@ != "tools"@,
        "temperature"@ != "system"@,
        "temperature"@ != "tools"@,
        "system"@ != "tools"@,
        "content"@ != "stop_reason"@,
        "content"@ != "usage"@,
        "stop_reason"@ != "usage"@,
{
    reveal_strlit("role");
    reveal_strlit("content");
    reveal_strlit("type");
    reveal_strlit("tool_use_id");
    reveal_strlit("model");
    reveal_strlit("max_tokens");
    reveal_strlit("messages");
    reveal_strlit("temperature");
    reveal_strlit("system");
    reveal_strlit("tools");
    reveal_strlit("stop_reason");
    reveal_strlit("usage");
    assert("model"@[0] == 'm' && "tools"@[0] == 't');
    assert("role"@.len() == 4 && "content"@.len() == 7 && "type"@.len() == 4);
    assert("model"@.len() == 5 && "max_tokens"@.len() == 10 && "messages"@.len() == 8);
    assert("temperature"@.len() == 11 && "system"@.len() == 6 && "tools"@.len() == 5);
    assert("tool_use_id"@.len() == 11 && "stop_reason"@.len() == 11 && "usage"@.len() == 5);
}

/// Is `m` a message of `role`?
pub open spec fn is_from(m: JsonView, role: Seq<char>) -> bool {
    m.at("role"@).text() == Some(role)
}

/// Is `m` a user message of nothing but tool results?
pub open spec fn gives_results(m: JsonView) -> bool {
    is_from(m, "user"@) && (m.at("content"@).items() matches Some(blocks) && forall|i: int|
        0 <= i < blocks.len() ==> (#[trigger] blocks[i]).at("type"@).text() == Some(
            "tool_result"@,
        ))
}

/// A tool's result is told last, in a user message: its block names the call
/// that it answers and holds the result. Behind other results it joins their
/// message, which keeps them; behind anything else it starts a message of its
/// own. No other message changes.
pub proof fn law_tool_result_is_told_last(
    before: Conversation,
    after: Conversation,
    tool_use_id: &str,
    result: &str,
)
    requires
        exists|c: &mut Conversation| #[trigger]
            call_ensures(Conversation::push_tool_result, (c, tool_use_id, result), ()) && *c
                == before && *final(c) == after,
    ensures
        ({
            let before = before@;
            let after = after@;
            let blocks = after.last().at("content"@).items()->0;
            let block = blocks.last();
            &&& after.len() > 0 && gives_results(after.last()) && blocks.len() > 0
            &&& block.at("type"@).text() == Some("tool_result"@)
            &&& block.at("tool_use_id"@).text() == Some(tool_use_id@)
            &&& block.at("content"@).text() == Some(result@)
            &&& if before.len() > 0 && gives_results(before.last()) {
                &&& after.drop_last() == before.drop_last()
                &&& Some(blocks.drop_last()) == before.last().at("content"@).items()
            } else {
                after.drop_last() == before && blocks.len() == 1
            }
        }),
{
    let c = choose|c: &mut Conversation| #[trigger]
        call_ensures(Conversation::push_tool_result, (c, tool_use_id, result), ()) && *c == before
            && *final(c) == after;
    assert(call_ensures(Conversation::push_tool_result, (c, tool_use_id, result), ()));
    lemma_keys();
    let before = before@;
    let after = after@;
    let block = anthropic::result_block(tool_use_id@, result@);
    assert(after == anthropic::with_result(before, block));
    assert(block.at("content"@).text() == Some(result@));
    assert(block.at("tool_use_id"@).text() == Some(tool_use_id@));
    assert(block.at("type"@).text() == Some("tool_result"@));
    let joins = before.len() > 0 && anthropic::is_result_message(before.last());
    assert(joins == (before.len() > 0 && gives_results(before.last())));
    if joins {
        let kept = before.last().at("content"@).items()->0;
        assert(after.drop_last() =~= before.drop_last());
        assert(kept.push(block).drop_last() =~= kept);
    } else {
        assert(after.drop_last() =~= before);
    }
}

/// A user's text is said last, by the user; nothing else changes.
pub proof fn law_user_text_is_said_last(before: Conversation, after: Conversation, said: &str)
    requires
        exists|c: &mut Conversation| #[trigger]
            call_ensures(Conversation::push_user, (c, said), ()) && *c == before
                && *final(c) == after,
    ensures
        after@.len() == before@.len() + 1,
        after@.drop_last() == before@,
        is_from(after@.last(), "user"@),
        after@.last().at("content"@).text() == Some(said@),
{
    let c = choose|c: &mut Conversation| #[trigger]
        call_ensures(Conversation::push_user, (c, said), ()) && *c == before
            && *final(c) == after;
    assert(call_ensures(Conversation::push_user, (c, said), ()));
    lemma_keys();
    assert(after@.drop_last() =~= before@);
}

/// An assistant's turn is said last, by the assistant, with the content as it
/// was journaled; nothing else changes.
pub proof fn law_turn_is_said_last(before: Conversation, after: Conversation, turn: &Turn)
    requires
        exists|c: &mut Conversation| #[trigger]
            call_ensures(Conversation::push_assistant, (c, turn), ()) && *c == before
                && *final(c) == after,
    ensures
        after@.len() == before@.len() + 1,
        after@.drop_last() == before@,
        is_from(after@.last(), "assistant"@),
        after@.last().at("content"@) == json::tree(turn.content),
{
    let c = choose|c: &mut Conversation| #[trigger]
        call_ensures(Conversation::push_assistant, (c, turn), ()) && *c == before
            && *final(c) == after;
    assert(call_ensures(Conversation::push_assistant, (c, turn), ()));
    lemma_keys();
    assert(after@.drop_last() =~= before@);
}

/// A conversation starts with what the user said.
pub proof fn law_conversation_starts_with_the_user(said: &str, c: Conversation)
    requires
        call_ensures(Conversation::user, (said,), c),
    ensures
        c@.len() == 1,
        is_from(c@[0], "user"@),
        c@[0].at("content"@).text() == Some(said@),
{
    lemma_keys();
}

/// What a structured prompt asks the model to go on from: its messages.
pub open spec fn history(prompt: Seq<u8>) -> Option<Seq<JsonView>> {
    match json::parsed(prompt) {
        Ok(t) => t.at("messages"@).items(),
        Err(e) => None,
    }
}

/// The body of a Messages API request says which model is asked, for how much,
/// at what temperature and under which system prompt, if one is set. The
/// messages are those of a structured prompt; any other prompt is one user
/// message of its text. Declared tools go with a structured prompt only.
/// Nothing else is sent.
pub proof fn law_messages_request(o: &AnthropicOracle, prompt: &Value, r: Json, key: Seq<char>)
    requires
        call_ensures(AnthropicOracle::build_request, (o, prompt), r),
    ensures
        ({
            let t = json::tree(r);
            &&& t.at("model"@).text() == Some(o.model@)
            &&& t.at("max_tokens"@) == JsonView::UInt(o.max_tokens as u64)
            &&& match history(prompt@) {
                Some(list) => t.at("messages"@).items() == Some(list),
                None => (t.at("messages"@).items() matches Some(list) && list.len() == 1 && is_from(
                    list[0],
                    "user"@,
                ) && list[0].at("content"@).text() == Some(text::lossy_text(prompt@))),
            }
            &&& match o.temperature {
                Some(x) => t.has("temperature"@) && t.at("temperature"@) == json::tree(x.number),
                None => !t.has("temperature"@),
            }
            &&& match o.system {
                Some(s) => t.at("system"@).text() == Some(s@),
                None => !t.has("system"@),
            }
            &&& match o.tools {
                Some(x) if history(prompt@) is Some => t.has("tools"@) && t.at("tools"@)
                    == json::tree(x),
                _ => !t.has("tools"@),
            }
            &&& t.has(key) ==> key == "model"@ || key == "max_tokens"@ || key == "messages"@ || key
                == "temperature"@ || key == "system"@ || key == "tools"@
        }),
{
    lemma_keys();
    assert(anthropic::is_structured(prompt@) == (history(prompt@) is Some));
}

/// A Messages API request goes to the messages path of the endpoint, carries
/// the key, the version of the API and the kind of its body, and its body is
/// the printed request.
pub proof fn law_messages_request_is_sent(
    o: &AnthropicOracle,
    prompt: &Value,
    body: Json,
    r: Request,
)
    requires
        call_ensures(AnthropicOracle::build_request, (o, prompt), body),
        call_ensures(AnthropicOracle::request, (o, prompt), r),
    ensures
        r.body@ == json::printed(json::tree(body)),
        r.url@ == o.base_url@ + "/v1/messages"@,
        r.timeout == o.timeout,
        r.headers@.len() == 3,
        has_header(r, "x-api-key"@, o.api_key@),
        has_header(r, "anthropic-version"@, "2023-06-01"@),
        has_header(r, "content-type"@, "application/json"@),
{
    assert(r.headers@[0].0@ == "x-api-key"@);
    assert(r.headers@[1].0@ == "anthropic-version"@);
    assert(r.headers@[2].0@ == "content-type"@);
}

/// Is the header set to `value`?
pub open spec fn has_header(r: Request, name: Seq<char>, value: Seq<char>) -> bool {
    exists|i: int|
        0 <= i < r.headers@.len() && (#[trigger] r.headers@[i]).0@ == name && r.headers@[i].1@
            == value
}

/// The body of a Chat Completions request says which model is asked, for how
/// much and at what temperature, if that is set. The system message, if there
/// is one, comes first; the prompt is the last message, said by the user.
/// Nothing else is sent.
pub proof fn law_chat_request(o: &OpenAiOracle, prompt: &Value, r: Json, key: Seq<char>)
    requires
        call_ensures(OpenAiOracle::build_request, (o, prompt), r),
    ensures
        ({
            let t = json::tree(r);
            let list = t.at("messages"@).items()->0;
            &&& t.at("model"@).text() == Some(o.model@)
            &&& t.at("messages"@).items() is Some && list.len() > 0
            &&& is_from(list.last(), "user"@)
            &&& list.last().at("content"@).text() == Some(text::lossy_text(prompt@))
            &&& match o.system {
                Some(s) => list.len() == 2 && is_from(list[0], "system"@)
                    && list[0].at("content"@).text() == Some(s@),
                None => list.len() == 1,
            }
            &&& match o.max_tokens {
                Some(n) => t.at("max_tokens"@) == JsonView::UInt(n as u64),
                None => !t.has("max_tokens"@),
            }
            &&& match o.temperature {
                Some(x) => t.has("temperature"@) && t.at("temperature"@) == json::tree(x.number),
                None => !t.has("temperature"@),
            }
            &&& t.has(key) ==> key == "model"@ || key == "max_tokens"@ || key == "messages"@ || key
                == "temperature"@
        }),
{
    lemma_keys();
}

/// A Chat Completions request goes to the completions path of the endpoint. It
/// carries a bearer token if there is a key and no authorization otherwise.
pub proof fn law_chat_request_is_sent(o: &OpenAiOracle, prompt: &Value, body: Json, r: Request)
    requires
        call_ensures(OpenAiOracle::build_request, (o, prompt), body),
        call_ensures(OpenAiOracle::request, (o, prompt), r),
    ensures
        r.body@ == json::printed(json::tree(body)),
        r.url@ == o.base_url@ + "/chat/completions"@,
        r.timeout == o.timeout,
        has_header(r, "content-type"@, "application/json"@),
        o.api_key@.len() > 0 ==> has_header(r, "authorization"@, "Bearer "@ + o.api_key@),
        o.api_key@.len() == 0 ==> r.headers@.len() == 1,
{
    assert(r.headers@[0].0@ == "content-type"@);
    if o.api_key@.len() > 0 {
        assert(r.headers@[1].0@ == "authorization"@);
    }
}

/// An endpoint is kept without the slashes at its end, and with all else: what
/// was dropped is slashes, and what is kept does not end in one.
pub proof fn law_endpoint_loses_slashes_only(url: Seq<char>)
    ensures
        ({
            let kept = openai::without_slashes(url);
            &&& kept.len() <= url.len() && url.take(kept.len() as int) == kept
            &&& kept.len() > 0 ==> kept.last() != '/'
            &&& forall|i: int| kept.len() <= i < url.len() ==> #[trigger] url[i] == '/'
        }),
    decreases url.len(),
{
    let kept = openai::without_slashes(url);
    if url.len() > 0 && url.last() == '/' {
        let rest = url.drop_last();
        law_endpoint_loses_slashes_only(rest);
        assert(url.take(kept.len() as int) =~= rest.take(kept.len() as int));
        assert forall|i: int| kept.len() <= i < url.len() implies #[trigger] url[i] == '/' by {
            if i < rest.len() {
                assert(rest[i] == url[i]);
            }
        }
    } else {
        assert(url.take(kept.len() as int) =~= kept);
    }
}

/// The text of content blocks is that of the text blocks, in order: a text
/// block adds its text, any other block nothing.
pub proof fn law_blocks_text_adds_up(a: Seq<JsonView>, b: Seq<JsonView>, block: JsonView)
    ensures
        anthropic::blocks_text(a + b) == anthropic::blocks_text(a) + anthropic::blocks_text(b),
        block.at("type"@).text() == Some("text"@) && block.at("text"@).text() is Some
            ==> anthropic::blocks_text(seq![block]) == block.at("text"@).text()->0,
        block.at("type"@).text() != Some("text"@) || block.at("text"@).text() is None
            ==> anthropic::blocks_text(seq![block]).len() == 0,
    decreases b.len(),
{
    let none = Seq::<JsonView>::empty();
    assert(seq![block].drop_last() =~= none);
    reveal_with_fuel(anthropic::blocks_text, 2);
    assert(anthropic::blocks_text(seq![block]) =~= anthropic::block_text(block));
    if b.len() == 0 {
        assert(a + b =~= a);
        assert(anthropic::blocks_text(a) + anthropic::blocks_text(b) =~= anthropic::blocks_text(a));
    } else {
        law_blocks_text_adds_up(a, b.drop_last(), block);
        assert((a + b).drop_last() =~= a + b.drop_last());
        assert(anthropic::blocks_text(a + b) =~= anthropic::blocks_text(a) + anthropic::blocks_text(
            b,
        ));
    }
}

/// The tool calls of content blocks are those of the tool-use blocks, in order:
/// each is told by its id, its name and its input, and any other block adds
/// none.
pub proof fn law_tool_calls_add_up(a: Seq<JsonView>, b: Seq<JsonView>, block: JsonView)
    ensures
        anthropic::blocks_tools(a + b) == anthropic::blocks_tools(a) + anthropic::blocks_tools(b),
        block.at("type"@).text() != Some("tool_use"@) ==> anthropic::blocks_tools(
            seq![block],
        ).len() == 0,
        block.at("type"@).text() == Some("tool_use"@) ==> ({
            let calls = anthropic::blocks_tools(seq![block]);
            &&& calls.len() == 1 && calls[0].input == block.at("input"@)
            &&& match block.at("id"@).text() {
                Some(id) => calls[0].id == id,
                None => calls[0].id.len() == 0,
            }
            &&& match block.at("name"@).text() {
                Some(name) => calls[0].name == name,
                None => calls[0].name.len() == 0,
            }
        }),
    decreases b.len(),
{
    let none = Seq::<JsonView>::empty();
    assert(seq![block].drop_last() =~= none);
    reveal_with_fuel(anthropic::blocks_tools, 2);
    if b.len() == 0 {
        assert(a + b =~= a);
        assert(anthropic::blocks_tools(a) + anthropic::blocks_tools(b)
            =~= anthropic::blocks_tools(a));
    } else {
        law_tool_calls_add_up(a, b.drop_last(), block);
        assert((a + b).drop_last() =~= a + b.drop_last());
        assert(anthropic::blocks_tools(a + b) =~= anthropic::blocks_tools(a)
            + anthropic::blocks_tools(b));
    }
}

/// A turn is what the response holds: its content, which must be an array, why
/// it stopped, and its usage. It wants tools if that is why it stopped.
pub proof fn law_turn_is_the_response(
    response: &Json,
    r: Result<Turn, Fault>,
    turn: &Turn,
    wants: bool,
)
    requires
        call_ensures(Turn::from_response, (response,), r),
        call_ensures(Turn::wants_tools, (turn,), wants),
    ensures
        ({
            let t = json::tree(*response);
            match r {
                Ok(turn) => {
                    &&& t.at("content"@).items() is Some
                    &&& json::tree(turn.content) == t.at("content"@)
                    &&& json::tree(turn.usage) == t.at("usage"@)
                    &&& match t.at("stop_reason"@).text() {
                        Some(s) => turn.stop_reason@ == s,
                        None => turn.stop_reason@ == "unknown"@,
                    }
                },
                Err(f) => t.at("content"@).items() is None && f is OracleErr,
            }
        }),
        wants <==> turn.stop_reason@ == "tool_use"@,
{
    if let Err(f) = r {
        assert(f@ is OracleErr);
    }
}

/// The text and the tool calls of a turn are those of its content.
pub proof fn law_turn_tells_its_content(turn: &Turn, said: String, calls: Vec<anthropic::ToolUse>)
    requires
        call_ensures(Turn::text, (turn,), said),
        call_ensures(Turn::tool_uses, (turn,), calls),
    ensures
        match json::tree(turn.content).items() {
            Some(blocks) => said@ == anthropic::blocks_text(blocks) && anthropic::tool_views(calls@)
                == anthropic::blocks_tools(blocks),
            None => said@.len() == 0 && calls@.len() == 0,
        },
{
    if json::tree(turn.content).items() is None {
        assert(anthropic::tool_views(calls@).len() == calls@.len());
    }
}

/// A turn that is journaled and parsed is the turn that was journaled, if its
/// content is an array and what it holds is printed exactly.
pub proof fn law_journaled_turn_reads_back(
    turn: &Turn,
    journaled: Value,
    r: Result<Turn, Fault>,
)
    requires
        call_ensures(Turn::to_value, (turn,), journaled),
        call_ensures(Turn::parse, (&journaled,), r),
        json::tree(turn.content).items() is Some,
        json::tree(turn.content).is_exact(126),
        json::tree(turn.usage).is_exact(126),
    ensures
        r matches Ok(back) && json::tree(back.content) == json::tree(turn.content)
            && back.stop_reason@ == turn.stop_reason@ && json::tree(back.usage) == json::tree(
            turn.usage,
        ),
{
    assert(anthropic::journaled_turn(journaled@) == Ok::<TurnView, FaultView>(turn@));
}

/// A conversation that is made a prompt is the history that the model goes on
/// from, if what it holds is printed exactly.
pub proof fn law_prompt_carries_the_conversation(c: &Conversation, prompt: Value)
    requires
        call_ensures(Conversation::prompt, (c,), prompt),
        JsonView::Arr(c@).is_exact(126),
    ensures
        history(prompt@) == Some(c@),
{
    let t = anthropic::prompt_json(c@);
    let m = t->Obj_0;
    assert forall|k: Seq<char>| #[trigger] m.dom().contains(k) implies m[k].is_exact(126) by {
        assert(k == "messages"@);
    }
    assert(t.is_exact(127));
    assert(anthropic::messages_for(prompt@) == JsonView::Arr(c@));
}

/// A body is handed on as it came; every other reply is a fault of the model
/// call that tells what went wrong: the status and the start of its body, or
/// the reason.
pub proof fn law_failed_reply_is_an_oracle_fault(reply: &Reply, api: &str, r: Result<String, Fault>)
    requires
        call_ensures(Reply::body, (reply, api), r),
    ensures
        match *reply {
            Reply::Body(s) => r matches Ok(x) && x@ == s@,
            Reply::Unreadable(e) => r matches Err(Fault::OracleErr(m)) && text::holds(m@, e@),
            Reply::Transport(e) => r matches Err(Fault::OracleErr(m)) && text::holds(m@, e@),
            Reply::Status(code, detail) => r matches Err(Fault::OracleErr(m)) && text::holds(
                m@,
                api@,
            ) && text::holds(m@, " returned "@ + text::decimal(code as nat) + ": "@)
                && http::snippet(detail@).is_suffix_of(m@),
        },
{
    match *reply {
        Reply::Body(s) => {},
        Reply::Unreadable(e) => {
            text::lemma_holds_itself(e@);
            text::lemma_holds_in_sum("failed reading response body: "@, e@, e@);
        },
        Reply::Transport(e) => {
            text::lemma_holds_itself(e@);
            text::lemma_holds_in_sum("transport error: "@, e@, e@);
        },
        Reply::Status(code, detail) => {
            let n = text::decimal(code as nat);
            let status = " returned "@ + n + ": "@;
            text::lemma_regroup(api@, " returned "@, n);
            text::lemma_regroup(api@, " returned "@ + n, ": "@);
            text::lemma_holds_itself(api@);
            text::lemma_holds_itself(status);
            text::lemma_holds_in_sum(api@, status, api@);
            text::lemma_holds_in_sum(api@, status, status);
            text::lemma_holds_in_sum(api@ + status, http::snippet(detail@), api@);
            text::lemma_holds_in_sum(api@ + status, http::snippet(detail@), status);
            assert((api@ + status + http::snippet(detail@)).skip((api@ + status).len() as int)
                =~= http::snippet(detail@));
        },
    }
}

/// The start of an error body is at most 300 characters of it, and all of it if
/// it has no more.
pub proof fn law_snippet_is_a_start(s: Seq<char>)
    ensures
        http::snippet(s).len() <= 300,
        http::snippet(s).is_prefix_of(s),
        s.len() <= 300 ==> http::snippet(s) == s,
        s.len() > 300 ==> http::snippet(s).len() == 300,
{
}

/// A plain prompt is answered by the text of the response, and a structured one
/// by the whole turn. A reply without either is a fault of the model call.
pub proof fn law_messages_reply(
    o: &AnthropicOracle,
    prompt: &Value,
    reply: &Reply,
    r: Result<Value, Fault>,
)
    requires
        call_ensures(AnthropicOracle::outcome, (o, prompt, reply), r),
    ensures
        *reply !is Body ==> r matches Err(Fault::OracleErr(_)),
        *reply matches Reply::Body(s) ==> match json::parsed(encode_utf8(s@)) {
            Err(e) => r matches Err(Fault::OracleErr(_)),
            Ok(t) => match t.at("content"@).items() {
                None => r matches Err(Fault::OracleErr(_)),
                Some(blocks) => if history(prompt@) is Some {
                    r matches Ok(v) && exists|turn: JsonView| #[trigger]
                        is_turn_of(turn, t) && v@ == encode_utf8(json::printed(turn))
                } else if anthropic::blocks_text(blocks).len() > 0 {
                    r matches Ok(v) && v@ == encode_utf8(anthropic::blocks_text(blocks))
                } else {
                    r matches Err(Fault::OracleErr(_))
                },
            },
        },
{
    lemma_keys();
    assert(anthropic::is_structured(prompt@) == (history(prompt@) is Some));
    if let Err(f) = r {
        assert(f@ is OracleErr);
    }
    if let Reply::Body(s) = *reply {
        if let Ok(t) = json::parsed(encode_utf8(s@)) {
            if t.at("content"@).items() is Some {
                let turn = anthropic::response_turn(t)->Ok_0.as_json();
                assert(is_turn_of(turn, t));
            }
        }
    }
}

/// Does `turn` hold the content, the stop reason and the usage of `response`,
/// and nothing else?
pub open spec fn is_turn_of(turn: JsonView, response: JsonView) -> bool {
    &&& turn.at("content"@) == response.at("content"@)
    &&& turn.at("usage"@) == response.at("usage"@)
    &&& match response.at("stop_reason"@).text() {
        Some(s) => turn.at("stop_reason"@).text() == Some(s),
        None => turn.at("stop_reason"@).text() == Some("unknown"@),
    }
    &&& turn matches JsonView::Obj(m) && m.dom() == set!["content"@, "stop_reason"@, "usage"@]
}

/// The answer of a Chat Completions reply is the content of the first choice's
/// message, if there is a choice and its content is a text that is not empty;
/// every other reply is a fault of the model call.
pub proof fn law_chat_reply(o: &OpenAiOracle, reply: &Reply, r: Result<Value, Fault>)
    requires
        call_ensures(OpenAiOracle::outcome, (o, reply), r),
    ensures
        match r {
            Err(f) => f is OracleErr,
            Ok(v) => *reply is Body,
        },
        *reply matches Reply::Body(s) ==> (json::parsed(encode_utf8(s@)) matches Ok(t) ==> (
        t.at("choices"@).items() matches Some(list) ==> (list.len() > 0 ==> (match list[0].at(
            "message"@,
        ).at("content"@).text() {
            Some(said) => if said.len() > 0 {
                r matches Ok(v) && v@ == encode_utf8(said)
            } else {
                r is Err
            },
            None => r is Err,
        })))),
        r is Ok ==> (*reply matches Reply::Body(s) && (json::parsed(encode_utf8(s@)) matches Ok(t)
            && (t.at("choices"@).items() matches Some(list) && list.len() > 0))),
{
    if let Err(f) = r {
        assert(f@ is OracleErr);
    }
}

/// The provenance of a draw names the adapter's kind and its model, and the
/// temperature if one is set.
pub proof fn law_provenance_names_the_model(
    a: &AnthropicOracle,
    o: &OpenAiOracle,
    x: String,
    y: String,
)
    requires
        call_ensures(AnthropicOracle::provenance, (a,), x),
        call_ensures(OpenAiOracle::provenance, (o,), y),
    ensures
        ("anthropic:"@ + a.model@).is_prefix_of(x@),
        ("openai:"@ + o.model@).is_prefix_of(y@),
        match a.temperature {
            Some(t) => x@ == "anthropic:"@ + a.model@ + ("@temperature="@ + t.text@),
            None => x@.len() == "anthropic:"@.len() + a.model@.len(),
        },
        match o.temperature {
            Some(t) => y@ == "openai:"@ + o.model@ + ("@temperature="@ + t.text@),
            None => y@.len() == "openai:"@.len() + o.model@.len(),
        },
{
    let p = "anthropic:"@ + a.model@;
    let q = "openai:"@ + o.model@;
    if let Some(t) = a.temperature {
        text::lemma_regroup(p, "@temperature="@, t.text@);
    }
    if let Some(t) = o.temperature {
        text::lemma_regroup(q, "@temperature="@, t.text@);
    }
    assert(x@.take(p.len() as int) =~= p);
    assert(y@.take(q.len() as int) =~= q);
}

/// A response without text tells why it has none: the fault names the reason
/// that the model gave for stopping, if it gave one.
pub proof fn law_empty_reply_tells_why(response: JsonView)
    ensures
        ({
            let reason = response.at("stop_reason"@).text();
            &&& response.at("content"@).items() is None ==> anthropic::response_text(
                response,
            ) is Err
            &&& response.at("content"@).items() matches Some(blocks)
                ==> anthropic::blocks_text(blocks).len() == 0 ==> (anthropic::response_text(
                response,
            ) matches Err(FaultView::OracleErr(m)) && (reason matches Some(s) ==> text::holds(m, s))
                && (reason is None ==> text::holds(m, "unknown"@)))
        }),
        response.at("choices"@).items() matches Some(list) ==> list.len() > 0 ==> ({
            let reason = list[0].at("finish_reason"@).text();
            list[0].at("message"@).at("content"@).text() is None ==> (openai::completion(
                response,
            ) matches Err(FaultView::OracleErr(m)) && (reason matches Some(s) ==> text::holds(m, s))
                && (reason is None ==> text::holds(m, "unknown"@)))
        }),
{
    let s = anthropic::or_text(response.at("stop_reason"@).text(), "unknown"@);
    let a = "response contained no text blocks (stop_reason: "@;
    text::lemma_holds_itself(s);
    text::lemma_holds_in_sum(a, s, s);
    text::lemma_holds_in_sum(a + s, ")"@, s);
    if let Some(list) = response.at("choices"@).items() {
        if list.len() > 0 {
            let f = anthropic::or_text(list[0].at("finish_reason"@).text(), "unknown"@);
            let b = "response contained no completion text (finish_reason: "@;
            text::lemma_holds_itself(f);
            text::lemma_holds_in_sum(b, f, f);
            text::lemma_holds_in_sum(b + f, ")"@, f);
        }
    }
}

/// A new adapter asks its own endpoint for its own model, with nothing set that
/// was not given; without a key in the environment there is none.
pub proof fn law_new_adapters_are_plain(
    key: &str,
    model: &str,
    env: Option<&str>,
    a: AnthropicOracle,
    b: Result<AnthropicOracle, Fault>,
    c: OpenAiOracle,
    d: Result<OpenAiOracle, Fault>,
)
    requires
        call_ensures(AnthropicOracle::new, (key, model), a),
        call_ensures(AnthropicOracle::from_env, (env, model), b),
        call_ensures(OpenAiOracle::new, (key,), c),
        call_ensures(OpenAiOracle::from_env, (env, None::<&str>), d),
    ensures
        a.api_key@ == key@ && a.model@ == model@ && a.base_url@ == "https://api.anthropic.com"@,
        a.temperature is None && a.system is None && a.tools is None && a.max_tokens == 1024,
        a.timeout@ == 120_000_000_000,
        b is Ok <==> env is Some,
        b matches Ok(o) ==> o.api_key@ == env->0@ && o.model@ == model@ && o.base_url@
            == a.base_url@ && o.max_tokens == a.max_tokens && o.temperature is None && o.system
            is None && o.tools is None,
        b matches Err(f) ==> f is OracleErr,
        c.api_key@ == key@ && c.base_url@ == "https://api.openai.com/v1"@ && c.model@ == "gpt-5"@,
        c.temperature is None && c.system is None && c.max_tokens is None,
        c.timeout@ == 120_000_000_000,
        d is Ok <==> env is Some,
        d matches Ok(o) ==> o.api_key@ == env->0@ && o.model@ == c.model@ && o.base_url@
            == c.base_url@ && o.max_tokens is None && o.temperature is None && o.system is None,
        d matches Err(f) ==> f is OracleErr,
{
    if let Err(f) = b {
        assert(f@ is OracleErr);
    }
    if let Err(f) = d {
        assert(f@ is OracleErr);
    }
}

/// Each setting of an adapter changes what it names and keeps the rest.
pub proof fn law_adapter_settings(
    a: AnthropicOracle,
    o: OpenAiOracle,
    said: &str,
    n: u32,
    tools: Json,
    a1: AnthropicOracle,
    a2: AnthropicOracle,
    a3: AnthropicOracle,
    a4: AnthropicOracle,
    a5: AnthropicOracle,
    o1: OpenAiOracle,
    o2: OpenAiOracle,
    o3: OpenAiOracle,
    o4: OpenAiOracle,
)
    requires
        call_ensures(AnthropicOracle::model, (a, said), a1),
        call_ensures(AnthropicOracle::max_tokens, (a, n), a2),
        call_ensures(AnthropicOracle::system, (a, said), a3),
        call_ensures(AnthropicOracle::tools, (a, tools), a4),
        call_ensures(AnthropicOracle::base_url, (a, said), a5),
        call_ensures(OpenAiOracle::model, (o, said), o1),
        call_ensures(OpenAiOracle::max_tokens, (o, n), o2),
        call_ensures(OpenAiOracle::system, (o, said), o3),
        call_ensures(OpenAiOracle::base_url, (o, said), o4),
    ensures
        a1.model@ == said@ && a1 == (AnthropicOracle { model: a1.model, ..a }),
        a2.max_tokens == n && a2 == (AnthropicOracle { max_tokens: n, ..a }),
        a3.system is Some && a3.system->0@ == said@ && a3 == (AnthropicOracle {
            system: a3.system,
            ..a
        }),
        a4.tools == Some(tools) && a4 == (AnthropicOracle { tools: Some(tools), ..a }),
        a5.base_url@ == said@ && a5 == (AnthropicOracle { base_url: a5.base_url, ..a }),
        o1.model@ == said@ && o1 == (OpenAiOracle { model: o1.model, ..o }),
        o2.max_tokens == Some(n) && o2 == (OpenAiOracle { max_tokens: Some(n), ..o }),
        o3.system is Some && o3.system->0@ == said@ && o3 == (OpenAiOracle {
            system: o3.system,
            ..o
        }),
        o4.base_url@.is_prefix_of(said@) && o4 == (OpenAiOracle { base_url: o4.base_url, ..o }),
        said@.len() > 0 && said@.last() != '/' ==> o4.base_url@ == said@,
{
    law_endpoint_loses_slashes_only(said@);
}

} // verus!

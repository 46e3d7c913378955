use serde_json::Value as Json;

use pragmatic::anthropic::{AnthropicOracle, Conversation, Temperature, Turn};
use pragmatic::fault::Fault;
use pragmatic::http::Reply;
use pragmatic::openai::OpenAiOracle;
use pragmatic::oracle::Delay;
use pragmatic::value::Value;

fn json(text: &str) -> Json {
    serde_json::from_str(text).unwrap()
}

fn temperature(t: f64) -> Temperature {
    Temperature {
        number: Json::from(t),
        text: format!("{t}"),
    }
}

#[test]
fn request_body_shape() {
    let oracle = AnthropicOracle::new("test-key", "opus-4-8")
        .model("sonnet-5")
        .max_tokens(512)
        .temperature(temperature(0.7))
        .system("be terse");
    let body = oracle.build_request(&Value::from("hello"));
    assert_eq!(body["model"], "sonnet-5");
    assert_eq!(body["max_tokens"], 512);
    assert_eq!(body["temperature"], 0.7);
    assert_eq!(body["system"], "be terse");
    assert_eq!(body["messages"][0]["role"], "user");
    assert_eq!(body["messages"][0]["content"], "hello");
}

#[test]
fn optional_fields_omitted_by_default() {
    let oracle = AnthropicOracle::new("k", "sonnet-5");
    let body = oracle.build_request(&Value::from("p"));
    assert!(body.get("temperature").is_none());
    assert!(body.get("system").is_none());
}

#[test]
fn extracts_and_concatenates_text_blocks() {
    let response = json(
        r#"{ "content": [
                { "type": "text", "text": "Hello " },
                { "type": "tool_use", "id": "x", "name": "t", "input": {} },
                { "type": "text", "text": "world" }
            ],
            "stop_reason": "end_turn" }"#,
    );
    assert_eq!(
        AnthropicOracle::extract_text(&response).unwrap(),
        "Hello world"
    );
}

#[test]
fn empty_content_is_an_oracle_error() {
    let response = json(r#"{ "content": [], "stop_reason": "max_tokens" }"#);
    assert!(matches!(
        AnthropicOracle::extract_text(&response),
        Err(Fault::OracleErr(_))
    ));
}

#[test]
fn structured_prompt_sends_full_conversation_and_tools() {
    let oracle = AnthropicOracle::new("k", "sonnet-5").tools(json(r#"[{ "name": "search" }]"#));
    let mut convo = Conversation::user("find papers");
    let turn = Turn {
        content: json(
            r#"[{ "type": "tool_use", "id": "tu_1", "name": "search",
                  "input": { "q": "durable execution" } }]"#,
        ),
        stop_reason: "tool_use".into(),
        usage: Json::Null,
    };
    convo.push_assistant(&turn);
    convo.push_tool_result("tu_1", "3 hits");

    let body = oracle.build_request(&convo.prompt());
    let messages = body["messages"].as_array().unwrap();
    assert_eq!(messages.len(), 3);
    assert_eq!(messages[1]["content"][0]["type"], "tool_use");
    assert_eq!(messages[2]["content"][0]["type"], "tool_result");
    assert_eq!(messages[2]["content"][0]["tool_use_id"], "tu_1");
    assert_eq!(body["tools"][0]["name"], "search");
}

#[test]
fn plain_prompts_never_send_tools() {
    let oracle = AnthropicOracle::new("k", "sonnet-5").tools(json(r#"[{ "name": "search" }]"#));
    let body = oracle.build_request(&Value::from("just text"));
    assert!(body.get("tools").is_none());
    assert_eq!(body["messages"][0]["content"], "just text");
}

#[test]
fn consecutive_tool_results_coalesce_into_one_user_message() {
    let mut convo = Conversation::user("go");
    let turn = Turn {
        content: json(
            r#"[{ "type": "tool_use", "id": "a", "name": "t", "input": {} },
                { "type": "tool_use", "id": "b", "name": "t", "input": {} }]"#,
        ),
        stop_reason: "tool_use".into(),
        usage: Json::Null,
    };
    convo.push_assistant(&turn);
    convo.push_tool_result("a", "ra");
    convo.push_tool_result("b", "rb");

    let body: Json = serde_json::from_slice(convo.prompt().as_bytes()).unwrap();
    let messages = body["messages"].as_array().unwrap();
    assert_eq!(messages.len(), 3, "both results share one user message");
    assert_eq!(messages[2]["content"].as_array().unwrap().len(), 2);
}

#[test]
fn turn_roundtrips_through_the_journal_representation() {
    let turn = Turn {
        content: json(
            r#"[{ "type": "text", "text": "using tools " },
                { "type": "tool_use", "id": "tu_9", "name": "calc",
                  "input": { "expr": "2+2" } }]"#,
        ),
        stop_reason: "tool_use".into(),
        usage: json(r#"{ "input_tokens": 12, "output_tokens": 34 }"#),
    };
    let back = Turn::parse(&turn.to_value()).unwrap_or_else(|f| panic!("{f:?}"));
    assert_eq!(back.content, turn.content);
    assert_eq!(back.stop_reason, "tool_use");
    assert!(back.wants_tools());
    assert_eq!(back.text(), "using tools ");
    let calls = back.tool_uses();
    assert_eq!(calls.len(), 1);
    assert_eq!(calls[0].id, "tu_9");
    assert_eq!(calls[0].name, "calc");
    assert_eq!(calls[0].input["expr"], "2+2");
}

#[test]
fn conversation_prompt_bytes_are_deterministic() {
    let build = || {
        let mut c = Conversation::user("q");
        c.push_tool_result("id", "r");
        c.prompt()
    };
    assert_eq!(build(), build());
}

#[test]
fn provenance_names_the_model() {
    let oracle = AnthropicOracle::new("k", "sonnet-5")
        .model("opus-4-8")
        .temperature(temperature(0.0));
    assert_eq!(
        oracle.provenance(),
        "anthropic:opus-4-8@temperature=0"
    );
}

#[test]
fn lib_request_body_shape() {
    let oracle = OpenAiOracle::new("test-key")
        .model("gpt-5")
        .max_tokens(512)
        .temperature(temperature(0.7))
        .system("be terse");
    let body = oracle.build_request(&Value::from("hello"));
    assert_eq!(body["model"], "gpt-5");
    assert_eq!(body["max_tokens"], 512);
    assert_eq!(body["temperature"], 0.7);
    assert_eq!(body["messages"][0]["role"], "system");
    assert_eq!(body["messages"][0]["content"], "be terse");
    assert_eq!(body["messages"][1]["role"], "user");
    assert_eq!(body["messages"][1]["content"], "hello");
}

#[test]
fn lib_optional_fields_omitted_by_default() {
    let oracle = OpenAiOracle::new("k");
    let body = oracle.build_request(&Value::from("p"));
    assert!(body.get("max_tokens").is_none());
    assert!(body.get("temperature").is_none());
    assert_eq!(body["messages"].as_array().unwrap().len(), 1);
    assert_eq!(body["messages"][0]["role"], "user");
}

#[test]
fn extracts_completion_text() {
    let response = json(
        r#"{ "choices": [{
                "message": { "role": "assistant", "content": "Hello world" },
                "finish_reason": "stop"
            }] }"#,
    );
    assert_eq!(
        OpenAiOracle::extract_text(&response).unwrap(),
        "Hello world"
    );
}

#[test]
fn lib_empty_content_is_an_oracle_error() {
    let response = json(
        r#"{ "choices": [{
                "message": { "role": "assistant", "content": "" },
                "finish_reason": "length"
            }] }"#,
    );
    assert!(matches!(
        OpenAiOracle::extract_text(&response),
        Err(Fault::OracleErr(_))
    ));
}

#[test]
fn no_choices_is_an_oracle_error() {
    let response = json(r#"{ "choices": [] }"#);
    assert!(matches!(
        OpenAiOracle::extract_text(&response),
        Err(Fault::OracleErr(_))
    ));
}

#[test]
fn base_url_trailing_slash_is_normalized() {
    let oracle = OpenAiOracle::new("k").base_url("http://localhost:11434/v1/");
    assert_eq!(oracle.base_url, "http://localhost:11434/v1");
}

#[test]
fn lib_provenance_names_the_model() {
    let oracle = OpenAiOracle::new("k")
        .model("llama3.3")
        .temperature(temperature(0.0));
    assert_eq!(oracle.provenance(), "openai:llama3.3@temperature=0");
}

fn ok_body(text: &str) -> String {
    format!(
        r#"{{"id":"chatcmpl-test","object":"chat.completion",
           "model":"gpt-5","choices":[{{"index":0,
           "message":{{"role":"assistant","content":"{text}"}},
           "finish_reason":"stop"}}],
           "usage":{{"prompt_tokens":10,"completion_tokens":5}}}}"#
    )
}

#[test]
fn a_call_sends_its_request_and_returns_the_completion() {
    let oracle = OpenAiOracle::new("test-key")
        .base_url("http://127.0.0.1:9")
        .model("gpt-5")
        .system("be terse")
        .timeout(Delay::from_millis(1500));
    let request = oracle.request(&Value::from("say hello"));
    assert_eq!(request.url, "http://127.0.0.1:9/chat/completions");
    assert!(request
        .headers
        .contains(&("authorization".to_string(), "Bearer test-key".to_string())));
    assert!(request.body.contains(r#""model":"gpt-5""#));
    assert!(request.body.contains(r#""role":"system""#));
    assert!(request.body.contains("say hello"));
    assert_eq!(request.timeout, Delay::from_millis(1500));

    let out = oracle
        .outcome(&Reply::Body(ok_body("Hello from the mock")))
        .unwrap();
    assert_eq!(out.as_str(), "Hello from the mock");
}

#[test]
fn no_auth_header_without_key() {
    let oracle = OpenAiOracle::new("").base_url("http://127.0.0.1:9").model("llama3.3");
    let request = oracle.request(&Value::from("p"));
    assert!(
        !request
            .headers
            .iter()
            .any(|h| h.0.to_ascii_lowercase() == "authorization"),
        "keyless call must not send an Authorization header"
    );
    oracle
        .outcome(&Reply::Body(ok_body("local")))
        .expect("call succeeds");
}

#[test]
fn rate_limit_maps_to_oracle_fault() {
    let oracle = OpenAiOracle::new("k");
    let err = oracle
        .outcome(&Reply::Status(
            429,
            r#"{"error":{"type":"rate_limit_error","message":"slow down"}}"#.into(),
        ))
        .unwrap_err();
    match err {
        Fault::OracleErr(msg) => {
            assert!(
                msg.contains("429"),
                "message should carry the status: {msg}"
            );
            assert!(
                msg.contains("slow down"),
                "message should carry detail: {msg}"
            );
        }
        other => panic!("expected OracleErr, got {other:?}"),
    }
}

#[test]
fn server_error_and_malformed_are_faults_not_panics() {
    let oracle = OpenAiOracle::new("k");
    // 500 server error
    assert!(matches!(
        oracle.outcome(&Reply::Status(500, r#"{"error":{}}"#.into())),
        Err(Fault::OracleErr(_))
    ));
    // 200 with garbage JSON
    assert!(matches!(
        oracle.outcome(&Reply::Body("{not json at all".into())),
        Err(Fault::OracleErr(_))
    ));
    // Connection refused (server not listening)
    assert!(matches!(
        oracle.outcome(&Reply::Transport("connection refused".into())),
        Err(Fault::OracleErr(_))
    ));
}

#[test]
fn anthropic_calls_carry_key_and_version() {
    let oracle = AnthropicOracle::new("test-key", "sonnet-5").base_url("http://127.0.0.1:9");
    let request = oracle.request(&Value::from("p"));
    assert_eq!(request.url, "http://127.0.0.1:9/v1/messages");
    assert!(request
        .headers
        .contains(&("x-api-key".to_string(), "test-key".to_string())));
    let sent: Json = serde_json::from_str(&request.body).unwrap();
    assert_eq!(sent, oracle.build_request(&Value::from("p")));
}

#[test]
fn a_plain_prompt_draws_text_and_a_structured_one_a_turn() {
    let oracle = AnthropicOracle::new("k", "sonnet-5");
    let body = r#"{ "content": [{ "type": "text", "text": "hi" }],
                    "stop_reason": "end_turn", "usage": { "output_tokens": 3 } }"#;
    let plain = oracle
        .outcome(&Value::from("p"), &Reply::Body(body.into()))
        .unwrap();
    assert_eq!(plain.as_str(), "hi");
    let turn = oracle
        .outcome(&Conversation::user("p").prompt(), &Reply::Body(body.into()))
        .unwrap();
    let turn = Turn::parse(&turn).unwrap_or_else(|f| panic!("{f:?}"));
    assert_eq!(turn.stop_reason, "end_turn");
    assert_eq!(turn.text(), "hi");
    assert!(!turn.wants_tools());
    assert_eq!(turn.usage["output_tokens"], 3);
}

#[test]
fn a_missing_key_is_a_fault() {
    assert!(matches!(AnthropicOracle::from_env(None, "m"), Err(Fault::OracleErr(_))));
    assert!(AnthropicOracle::from_env(Some("k"), "m").is_ok());
    let openai = OpenAiOracle::from_env(Some("k"), Some("http://localhost/v1/"))
        .unwrap_or_else(|f| panic!("{f:?}"));
    assert_eq!(openai.base_url, "http://localhost/v1");
}

#[test]
fn an_outcome_that_is_no_turn_does_not_parse() {
    assert!(Turn::parse(&Value::from("not json")).is_err());
}

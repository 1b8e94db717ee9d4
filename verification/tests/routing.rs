use rayline_c82::dispatch::{
    dispatch_request_shape, materialize_claude_tools_for_non_anthropic, policy_owned_dispatch,
    remove_anthropic_only_controls, worker_arm, DispatchError, WorkerManifest,
};
use rayline_c82::history::{anthropic_messages_to_turns, HistoryError};
use rayline_c82::json::{Json, JsonObject};
use rayline_c82::number::JsonNumber;
use rayline_c82::sse::{next_sse_frame, rewrite_sse_frame};

fn json(text: &str) -> Json {
    Json::parse(text).unwrap()
}

fn object(text: &str) -> JsonObject {
    match json(text) {
        Json::Object(object) => object,
        _ => panic!("not an object"),
    }
}

fn worker(id: &str) -> WorkerManifest {
    WorkerManifest {
        id: id.to_owned(),
        openrouter_max_retries: 2,
        openrouter_provider_slug: Json::text("provider"),
        openrouter_provider_order: json("[\"provider\"]"),
        openrouter_allow_fallbacks: Json::Bool(false),
        minimum_completion_tokens: 100,
        max_completion_tokens: Some(1000),
        temperature: Some(json("0.25")),
    }
}

fn turns(text: &str) -> Vec<(String, String)> {
    anthropic_messages_to_turns(&json(text))
        .unwrap()
        .into_iter()
        .map(|turn| (turn.role, turn.text))
        .collect()
}

fn said(role: &str, text: &str) -> (String, String) {
    (role.to_owned(), text.to_owned())
}

#[test]
fn tool_rendering_matches_python_json_spacing_and_ascii() {
    let request = json(
        r#"{
            "messages": [
                {"role":"assistant","content":[
                    {"type":"tool_use","id":"1","name":"run","input":{"z":"é","a":1}}
                ]},
                {"role":"user","content":[
                    {"type":"text","text":"context"},
                    {"type":"tool_result","tool_use_id":"1","is_error":true,"content":"failed"}
                ]}
            ]
        }"#,
    );
    let turns = anthropic_messages_to_turns(&request).unwrap();
    assert_eq!(
        turns[0].text,
        "[tool_call run] {\"a\": 1, \"z\": \"\\u00e9\"}"
    );
    assert_eq!(
        turns[1].text,
        "context\n\n[tool_result run] [tool error]\nfailed"
    );
}

#[test]
fn rewrites_complete_sse_event_models() {
    let frame = b"event: message_start\ndata: {\"type\":\"message_start\",\"message\":{\"model\":\"private/model\"}}\n\n";
    let rewritten = String::from_utf8(rewrite_sse_frame(frame)).unwrap();
    assert!(rewritten.contains("\"model\":\"rayline/router\""));
    assert!(!rewritten.contains("private/model"));
}

#[test]
fn extracts_only_complete_sse_frames() {
    let buffer = b"event: ping\ndata: {}\n\nevent: partial";
    let (frame, consumed) = next_sse_frame(buffer).unwrap();
    assert_eq!(frame, b"event: ping\ndata: {}\n\n");
    assert_eq!(&buffer[consumed..], b"event: partial");
}

#[test]
fn materializes_claude_tools_for_non_anthropic_arms() {
    let mut object = object(
        r#"{
            "tools": [
                {
                    "name":"Bash",
                    "defer_loading":true,
                    "allowed_callers":["code_execution"],
                    "eager_input_streaming":true
                },
                {"name":"Read"}
            ]
        }"#,
    );
    materialize_claude_tools_for_non_anthropic(&mut object);
    let tools = match object.get("tools") {
        Some(Json::Array(tools)) => tools,
        _ => panic!("no tools"),
    };
    assert_eq!(tools[0], json(r#"{"name":"Bash"}"#));
    assert_eq!(tools[1], json(r#"{"name":"Read"}"#));
}

#[test]
fn removes_anthropic_only_controls_owned_by_c82_policy() {
    let mut object = object(
        r#"{
            "context_management":{"edits":[]},
            "diagnostics":{"enabled":true},
            "output_config":{"effort":"high"},
            "thinking":{"type":"adaptive"},
            "reasoning":{"effort":"high"},
            "metadata":{"user_id":"kept"}
        }"#,
    );
    remove_anthropic_only_controls(&mut object);
    assert_eq!(
        Json::Object(object),
        json(
            r#"{
                "reasoning":{"effort":"high"},
                "metadata":{"user_id":"kept"}
            }"#
        )
    );
}

#[test]
fn dispatch_shape_records_only_field_names_and_counts() {
    let shape = dispatch_request_shape(&json(
        r#"{
            "model":"secret-model",
            "messages":[{"role":"user","content":"private prompt"}],
            "tools":[
                {"name":"Bash","description":"private description","input_schema":{"type":"object"}},
                {"name":"Read","input_schema":{"type":"object"}}
            ]
        }"#,
    ));
    assert_eq!(
        shape,
        json(
            r#"{
                "top_level_keys":["messages","model","tools"],
                "tool_count":2,
                "tool_keys":["description","input_schema","name"]
            }"#
        )
    );
    assert!(!shape.to_text().contains("private"));
    assert!(!shape.to_text().contains("secret-model"));
}

#[test]
fn shape_of_what_is_no_object_names_nothing() {
    assert_eq!(
        dispatch_request_shape(&json("[1,2]")),
        json(r#"{"top_level_keys":[]}"#)
    );
    assert_eq!(
        dispatch_request_shape(&json(r#"{"tools":"none","b":1,"a":2}"#)),
        json(r#"{"top_level_keys":["a","b","tools"],"tool_count":0,"tool_keys":[]}"#)
    );
    assert_eq!(
        dispatch_request_shape(&json(r#"{"tools":[3,{"z":1},{"a":1,"z":2}]}"#)),
        json(r#"{"top_level_keys":["tools"],"tool_count":3,"tool_keys":["a","z"]}"#)
    );
}

#[test]
fn shapes_agree_where_names_agree() {
    let one = json(r#"{"model":"a","tools":[{"name":"x"}]}"#);
    let other = json(r#"{"model":{"b":1},"tools":[{"name":[2]}]}"#);
    assert_eq!(dispatch_request_shape(&one), dispatch_request_shape(&other));
}

#[test]
fn plain_content_is_one_text_block() {
    assert_eq!(
        turns(r#"{"messages":[{"role":"user","content":"hi"},{"role":"assistant","content":"ho"}]}"#),
        vec![said("user", "hi"), said("assistant", "ho")]
    );
}

#[test]
fn other_roles_and_blocks_are_passed_over() {
    assert_eq!(
        turns(
            r#"{"messages":[
                {"role":"system","content":"x"},
                {"content":"y"},
                {"role":"user","content":[5,{"type":"image"},{"type":"text","text":""},{"type":"text","text":"a"},{"type":"text","text":"b"}]},
                {"role":"assistant","content":7}
            ]}"#
        ),
        vec![said("user", "a\nb"), said("assistant", "")]
    );
}

#[test]
fn tool_arguments_that_are_no_object_stand_bare() {
    assert_eq!(
        turns(
            r#"{"messages":[{"role":"assistant","content":[
                {"type":"text","text":"so"},
                {"type":"tool_use","name":"a","input":"é"},
                {"type":"tool_use","name":"b","input":true},
                {"type":"tool_use","name":"c","input":[1,"é"]},
                {"type":"tool_use"}
            ]}]}"#
        ),
        vec![said(
            "assistant",
            "so\n[tool_call a] é\n[tool_call b] True\n[tool_call c] [1,\"é\"]\n[tool_call ] "
        )]
    );
}

#[test]
fn tool_results_are_named_by_their_calls() {
    assert_eq!(
        turns(
            r#"{"messages":[
                {"role":"user","content":[{"type":"tool_result","tool_use_id":"1","content":"early"}]},
                {"role":"assistant","content":[{"type":"tool_use","id":"1","name":"one","input":{}}]},
                {"role":"user","content":[
                    {"type":"tool_result","tool_use_id":"1","content":[{"type":"text","text":"x"},{"type":"image"},{"type":"text"}]},
                    {"type":"tool_result","tool_use_id":"2","is_error":false}
                ]}
            ]}"#
        ),
        vec![
            said("user", "[tool_result ]\nearly"),
            said("assistant", "[tool_call one] {}"),
            said("user", "[tool_result one]\nx\n\n\n[tool_result ]\n"),
        ]
    );
}

#[test]
fn longer_conversation_keeps_its_earlier_turns() {
    let short = turns(r#"{"messages":[{"role":"user","content":"a"}]}"#);
    let long = turns(
        r#"{"messages":[{"role":"user","content":"a"},{"role":"tool"},{"role":"assistant","content":"b"}]}"#,
    );
    assert_eq!(long.len(), 2);
    assert_eq!(long[..1], short[..]);
}

#[test]
fn request_without_messages_has_no_turns() {
    assert_eq!(
        anthropic_messages_to_turns(&json(r#"{"messages":"none"}"#)),
        Err(HistoryError::MissingMessages)
    );
    assert_eq!(
        anthropic_messages_to_turns(&json("[]")),
        Err(HistoryError::MissingMessages)
    );
    assert_eq!(
        HistoryError::MissingMessages.message(),
        "C82 Anthropic request must contain messages"
    );
}

#[test]
fn policy_owns_limits_temperature_tools_and_controls() {
    let body = json(
        r#"{"max_tokens":5000,"temperature":1,"thinking":{},"tools":[{"name":"x","defer_loading":true}],"kept":"as is"}"#,
    );
    let dispatch = policy_owned_dispatch(body, &worker("w")).unwrap();
    assert_eq!(
        dispatch,
        json(r#"{"kept":"as is","max_tokens":1000,"temperature":0.25,"tools":[{"name":"x"}]}"#)
    );
    assert_eq!(
        policy_owned_dispatch(dispatch.copy(), &worker("w")).unwrap(),
        dispatch
    );
}

#[test]
fn token_limit_is_raised_to_the_minimum() {
    for body in [r#"{"max_tokens":5}"#, r#"{"max_tokens":-5}"#, r#"{"max_tokens":5.5}"#, "{}"] {
        assert_eq!(
            policy_owned_dispatch(json(body), &worker("w")).unwrap(),
            json(r#"{"max_tokens":100,"temperature":0.25}"#)
        );
    }
    let mut free = worker("w");
    free.minimum_completion_tokens = 0;
    free.max_completion_tokens = None;
    free.temperature = None;
    assert_eq!(
        policy_owned_dispatch(json(r#"{"temperature":1,"max_tokens":"x"}"#), &free).unwrap(),
        json(r#"{"max_tokens":"x"}"#)
    );
    assert_eq!(
        policy_owned_dispatch(json(r#"{"max_tokens":18446744073709551615}"#), &free).unwrap(),
        Json::Object({
            let mut object = JsonObject::new();
            object.insert("max_tokens".to_owned(), Json::Number(JsonNumber::Unsigned(u64::MAX)));
            object
        })
    );
}

#[test]
fn dispatch_errors_name_their_cause() {
    assert_eq!(
        policy_owned_dispatch(json("[]"), &worker("w")),
        Err(DispatchError::BodyNotObject)
    );
    let mut torn = worker("w");
    torn.max_completion_tokens = Some(99);
    assert_eq!(
        policy_owned_dispatch(json("{}"), &torn),
        Err(DispatchError::LimitsIncompatible)
    );
    let workers = vec![worker("a"), worker("b"), worker("b")];
    assert_eq!(worker_arm(&workers, &worker("b")), Ok(1));
    assert_eq!(
        worker_arm(&workers, &worker("c")),
        Err(DispatchError::WorkerAbsent)
    );
    assert_eq!(
        DispatchError::WorkerAbsent.message(),
        "C82 worker is absent from manifest"
    );
    assert_eq!(
        DispatchError::BodyNotObject.message(),
        "Anthropic request body must be an object"
    );
    assert_eq!(
        DispatchError::LimitsIncompatible.message(),
        "C82 worker completion limits are incompatible"
    );
}

#[test]
fn tools_that_are_no_array_stay() {
    let mut body = object(r#"{"tools":{"defer_loading":true}}"#);
    materialize_claude_tools_for_non_anthropic(&mut body);
    assert_eq!(Json::Object(body), json(r#"{"tools":{"defer_loading":true}}"#));
    let mut body = object(r#"{"a":1}"#);
    materialize_claude_tools_for_non_anthropic(&mut body);
    assert_eq!(Json::Object(body), json(r#"{"a":1}"#));
    let mut body = object(r#"{"tools":[7,{"allowed_callers":1,"b":2}]}"#);
    materialize_claude_tools_for_non_anthropic(&mut body);
    assert_eq!(Json::Object(body), json(r#"{"tools":[7,{"b":2}]}"#));
}

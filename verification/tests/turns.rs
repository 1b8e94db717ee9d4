use rayline_c82::dispatch::WorkerManifest;
use rayline_c82::json::Json;
use rayline_c82::record::{
    decision_record, log_line, pre_response_failure_record, Decision, RouteReport,
};
use rayline_c82::reply::{
    forwards_header, is_event_stream, merged_headers, reply_headers, UpstreamHeader,
};
use rayline_c82::retry::{
    retry_exponent, transport_error_class, transport_failure_message, AttemptOutcome, Dispatching,
    Settled, TransportFlags,
};
use rayline_c82::startup::{check_startup, is_slow_fallback, readiness, Readiness, StartupError};
use rayline_c82::turn::{
    commits_state, open_turn, request_id, route_decided, selected_worker, upstream_headers, TurnEnd,
    TurnError,
};

fn json(text: &str) -> Json {
    Json::parse(text).unwrap()
}

fn worker(id: &str) -> WorkerManifest {
    WorkerManifest {
        id: id.to_owned(),
        openrouter_max_retries: 2,
        openrouter_provider_slug: Json::text("slug"),
        openrouter_provider_order: json("[\"slug\"]"),
        openrouter_allow_fallbacks: Json::Bool(true),
        minimum_completion_tokens: 0,
        max_completion_tokens: None,
        temperature: None,
    }
}

fn flags(timeout: bool, connect: bool, request: bool, body: bool) -> TransportFlags {
    TransportFlags { timeout, connect, request, body }
}

fn response(status: u16) -> AttemptOutcome {
    AttemptOutcome::Response { status }
}

fn silence() -> AttemptOutcome {
    AttemptOutcome::Transport { flags: flags(true, false, true, false) }
}

fn again(settled: Settled) -> Dispatching {
    match settled {
        Settled::Again(next) => next,
        _ => panic!("settled"),
    }
}

#[test]
fn transport_errors_have_one_class() {
    assert_eq!(transport_error_class(flags(true, true, true, true)), "timeout");
    assert_eq!(transport_error_class(flags(false, true, true, true)), "connect");
    assert_eq!(transport_error_class(flags(false, false, true, true)), "request");
    assert_eq!(transport_error_class(flags(false, false, false, true)), "body");
    assert_eq!(transport_error_class(flags(false, false, false, false)), "transport");
}

#[test]
fn busy_and_failing_upstreams_are_asked_again() {
    let first = Dispatching::new(2);
    assert_eq!((first.attempt(), first.total()), (1, 3));
    assert!(first.will_retry(response(429)));
    assert!(first.will_retry(response(500)));
    assert!(first.will_retry(response(599)));
    assert!(first.will_retry(silence()));
    assert!(!first.will_retry(response(200)));
    assert!(!first.will_retry(response(404)));
    assert!(!first.will_retry(response(499)));
    assert!(!first.will_retry(response(600)));
    let second = again(first.settle(response(429), 10, 500));
    assert_eq!(second.attempt(), 2);
    let third = again(second.settle(silence(), 20, 1000));
    assert_eq!(third.attempt(), 3);
    assert!(!third.will_retry(response(503)));
    match third.settle(response(503), 30, 2000) {
        Settled::Responded(attempts) => assert_eq!(
            Json::Array(attempts),
            json(
                r#"[
                    {"attempt":1,"status":429,"transport_error":false,"latency_ms":10,"retry_delay_ms":500},
                    {"attempt":2,"status":null,"transport_error":true,"error_class":"timeout","latency_ms":20,"retry_delay_ms":1000},
                    {"attempt":3,"status":503,"transport_error":false,"latency_ms":30,"retry_delay_ms":0}
                ]"#
            )
        ),
        _ => panic!("not settled"),
    }
}

#[test]
fn last_silence_is_a_failure() {
    match Dispatching::new(0).settle(silence(), 5, 7) {
        Settled::Failed(attempts) => assert_eq!(
            Json::Array(attempts),
            json(
                r#"[{"attempt":1,"status":null,"transport_error":true,"error_class":"timeout","latency_ms":5,"retry_delay_ms":0}]"#
            )
        ),
        _ => panic!("not failed"),
    }
    match Dispatching::new(5).settle(response(200), 5, 7) {
        Settled::Responded(attempts) => assert_eq!(attempts.len(), 1),
        _ => panic!("not settled"),
    }
    assert_eq!(Dispatching::new(u64::MAX).total(), u64::MAX);
    assert_eq!(
        transport_failure_message(3),
        "C82 OpenRouter transport failed after 3 attempts"
    );
}

#[test]
fn no_run_exceeds_the_allowed_attempts() {
    for retries in 0..5u64 {
        let mut made = 0;
        let mut due = Dispatching::new(retries);
        loop {
            made += 1;
            match due.settle(silence(), 0, 0) {
                Settled::Again(next) => due = next,
                Settled::Failed(attempts) => {
                    assert_eq!(attempts.len(), made);
                    break;
                }
                Settled::Responded(_) => panic!("no response came"),
            }
        }
        assert_eq!(made as u64, retries + 1);
    }
}

#[test]
fn delays_double_up_to_a_limit() {
    assert_eq!(retry_exponent(0), 0);
    assert_eq!(retry_exponent(1), 0);
    assert_eq!(retry_exponent(2), 1);
    assert_eq!(retry_exponent(31), 30);
    assert_eq!(retry_exponent(u64::MAX), 30);
}

#[test]
fn start_needs_the_pinned_artifact_and_a_key() {
    let key = || Some("key".to_owned());
    assert_eq!(check_startup("a", "a", key()), Ok("key".to_owned()));
    assert_eq!(check_startup("b", "a", None), Err(StartupError::ArtifactNotPinned));
    assert_eq!(check_startup("a", "a", None), Err(StartupError::KeyMissing));
    assert_eq!(check_startup("a", "a", Some(String::new())), Err(StartupError::KeyEmpty));
    assert_eq!(
        StartupError::ArtifactNotPinned.message(),
        "C82 artifact commit is not the Rayline-pinned immutable commit"
    );
    assert_eq!(
        StartupError::KeyMissing.message(),
        "C82 requires inherited OPENROUTER_API_KEY"
    );
    assert_eq!(
        StartupError::KeyEmpty.message(),
        "OPENROUTER_API_KEY cannot be empty for C82"
    );
}

#[test]
fn encoder_is_waited_for_until_the_deadline() {
    assert_eq!(readiness(true, 400_000), Readiness::Ready);
    assert_eq!(readiness(false, 0), Readiness::Wait { poll_ms: 500 });
    assert_eq!(readiness(false, 299_999), Readiness::Wait { poll_ms: 500 });
    assert_eq!(readiness(false, 300_000), Readiness::GiveUp);
    assert!(is_slow_fallback("cpu", "auto"));
    assert!(!is_slow_fallback("cpu", "cpu"));
    assert!(!is_slow_fallback("cuda", "auto"));
}

#[test]
fn requests_need_an_episode_and_messages() {
    let request = json(r#"{"messages":[{"role":"user","content":"a"}]}"#);
    let opened = open_turn(Some(" e1\t"), &request).ok().unwrap();
    assert_eq!(opened.episode_id, "e1");
    assert_eq!(opened.turns.len(), 1);
    assert_eq!(open_turn(None, &request).err(), Some(TurnError::MissingEpisode));
    assert_eq!(open_turn(Some(" "), &json("{}")).err(), Some(TurnError::MissingEpisode));
    assert_eq!(open_turn(Some("e"), &json("{}")).err(), Some(TurnError::MissingMessages));
    assert_eq!(
        TurnError::MissingEpisode.message(),
        "C82 requests require x-rayline-episode-id"
    );
    assert_eq!(
        TurnError::MissingMessages.message(),
        "C82 Anthropic request must contain messages"
    );
    assert_eq!(TurnError::InvalidArm.message(), "C82 selected invalid arm");
    assert_eq!(request_id(Some("given"), "fresh".to_owned()), "given");
    assert_eq!(request_id(None, "fresh".to_owned()), "fresh");
}

#[test]
fn chosen_arm_must_exist() {
    let workers = vec![worker("a"), worker("b")];
    assert_eq!(selected_worker(&workers, 1).unwrap().id, "b");
    assert_eq!(selected_worker(&workers, 2).err(), Some(TurnError::InvalidArm));
}

#[test]
fn only_success_counts_as_a_turn() {
    assert!(commits_state(TurnEnd::Answered { status: 200 }));
    assert!(commits_state(TurnEnd::Answered { status: 299 }));
    assert!(!commits_state(TurnEnd::Answered { status: 199 }));
    assert!(!commits_state(TurnEnd::Answered { status: 300 }));
    assert!(!commits_state(TurnEnd::Answered { status: 503 }));
    assert!(!commits_state(TurnEnd::Unanswered));
}

#[test]
fn upstream_is_told_the_version() {
    let headers = upstream_headers(None);
    assert_eq!(headers.len(), 4);
    assert_eq!(headers[0], ("content-type".to_owned(), "application/json".to_owned()));
    assert_eq!(headers[1], ("http-referer".to_owned(), "https://rayline.ai".to_owned()));
    assert_eq!(headers[2], ("x-title".to_owned(), "Rayline".to_owned()));
    assert_eq!(headers[3], ("anthropic-version".to_owned(), "2023-06-01".to_owned()));
    assert_eq!(upstream_headers(Some("x"))[3].1, "x");
}

#[test]
fn metrics_are_told_of_the_route() {
    let update = route_decided(&json(r#"{"model":"asked"}"#), "r", 12, &worker("w"));
    assert_eq!(update.request_id, "r");
    assert_eq!(update.route_id.as_deref(), Some("c82-12"));
    assert_eq!(update.target, "remote");
    assert_eq!(update.endpoint_id.as_deref(), Some("openrouter"));
    assert_eq!(update.selected_model.as_deref(), Some("w"));
    assert_eq!(update.requested_model.as_deref(), Some("asked"));
    assert_eq!(update.policy.as_deref(), Some("c82"));
    assert_eq!(update.task_class.as_deref(), Some("c82"));
    assert_eq!((update.agent_id, update.agent_type), (None, None));
    assert_eq!(route_decided(&json("{}"), "r", 0, &worker("w")).requested_model, None);
}

#[test]
fn event_streams_are_known_by_their_content_type() {
    assert!(is_event_stream(Some("text/event-stream")));
    assert!(is_event_stream(Some("Text/Event-Stream; charset=utf-8")));
    assert!(!is_event_stream(Some("application/json")));
    assert!(!is_event_stream(None));
}

#[test]
fn lengths_and_hop_headers_do_not_pass() {
    assert!(forwards_header("x-request", false));
    assert!(!forwards_header("x-request", true));
    assert!(!forwards_header("Content-Length", false));
}

#[test]
fn replies_name_worker_and_policy() {
    let headers = reply_headers("x-id", "r1", "bad\nvalue", "commit");
    assert_eq!(headers.len(), 4);
    assert_eq!(headers[0], ("x-id".to_owned(), "r1".to_owned()));
    assert_eq!(headers[1], ("x-rayline-selected-model".to_owned(), "c82".to_owned()));
    assert_eq!(headers[2], ("x-rayline-policy".to_owned(), "c82".to_owned()));
    assert_eq!(headers[3], ("x-rayline-artifact-commit".to_owned(), "commit".to_owned()));
    for (text, legal) in [("a\tb", true), ("a\u{7f}", false), ("", true), ("é", true), ("\u{1}", false)] {
        let expected = if legal { text } else { "c82" };
        assert_eq!(reply_headers("x-id", text, "w", "c")[0].1, expected);
    }
}

fn decision(prior_arm: Option<usize>) -> Decision {
    Decision {
        artifact_commit: "commit".to_owned(),
        request_id: "r".to_owned(),
        episode_id: "hello world".to_owned(),
        prior_arm,
        turn_index: 3,
        next_turn_index: 4,
        committed: true,
        status: 200,
        upstream_header_latency_ms: 11,
        total_latency_ms: 12,
    }
}

fn report() -> RouteReport {
    RouteReport {
        selected_arm: 1,
        device: Json::text("cuda"),
        encode_mode: Json::text("warm"),
        cached_prefix_tokens: Json::unsigned(5),
        serialized_tokens: Json::unsigned(6),
        kv_session_retained: Json::Bool(true),
        kv_evictions: Json::unsigned(0),
        raw_scores: json("[0.5,0.25]"),
        adjusted_scores: json("[0.5,0.5]"),
        switch_cost_usd: json("[0.0,0.125]"),
        cache_miss_tokens: json("[1,2]"),
        stay_margin: json("0.5"),
        cold_switch_multiplier: json("1.5"),
        stayed: Json::Bool(false),
        encode_latency_ms: Json::unsigned(7),
        head_latency_us: Json::unsigned(8),
    }
}

#[test]
fn decisions_are_recorded_without_content() {
    let workers = vec![worker("a"), worker("b")];
    let record = decision_record(
        &workers,
        &decision(Some(0)),
        &report(),
        &workers[1],
        &json(r#"{"messages":"private","tools":[{"name":"secret"}]}"#),
        vec![Json::unsigned(1)],
    );
    assert_eq!(
        record,
        json(
            r#"{
                "schema_version":"rayline.c82-decision.v1",
                "artifact_commit":"commit",
                "request_id":"r",
                "episode_id_sha256":"b94d27b9934d3e08a52e52d7da7dabfac484efe37a5380ee9088f7ace2efcde9",
                "turn_index":3,
                "next_turn_index":4,
                "state_committed":true,
                "prior_arm":"a",
                "selected_arm":"b",
                "selected_arm_index":1,
                "device":"cuda",
                "encode_mode":"warm",
                "cache":{"cached_prefix_tokens":5,"serialized_tokens":6,"kv_session_retained":true,"evictions":0},
                "scores":{"raw":[0.5,0.25],"adjusted":[0.5,0.5],"switch_cost_usd":[0.0,0.125],"cache_miss_tokens":[1,2],"stay_margin":0.5,"cold_switch_multiplier":1.5,"stayed":false},
                "dispatch":{"provider":"slug","provider_order":["slug"],"fallbacks":true,"request_shape":{"top_level_keys":["messages","tools"],"tool_count":1,"tool_keys":["name"]},"attempts":[1],"http_status":200},
                "latency_ms":{"encode":7,"head_us":8,"upstream_headers":11,"total_to_headers":12}
            }"#
        )
    );
    let text = record.to_text();
    assert!(!text.contains("private") && !text.contains("secret") && !text.contains("hello"));
}

#[test]
fn prior_worker_may_be_unknown() {
    let workers = vec![worker("a"), worker("b")];
    for prior in [None, Some(2)] {
        let record =
            decision_record(&workers, &decision(prior), &report(), &workers[1], &json("{}"), vec![]);
        assert_eq!(record.get("prior_arm"), Some(&Json::Null));
    }
}

#[test]
fn failures_are_recorded_uncommitted() {
    assert_eq!(
        pre_response_failure_record("commit", &worker("w"), vec![Json::Null]),
        json(
            r#"{
                "schema_version":"rayline.c82-decision.v1",
                "artifact_commit":"commit",
                "state_committed":false,
                "selected_arm":"w",
                "dispatch":{"provider":"slug","attempts":[null],"terminal":"pre_response_transport_failure"}
            }"#
        )
    );
}

#[test]
fn each_record_is_one_line() {
    let line = log_line(&json("{\"a\": \"x\\ny\"}"));
    assert_eq!(line, b"{\"a\":\"x\\ny\"}\n");
}

#[test]
fn record_reads_back_from_its_line() {
    let record = pre_response_failure_record("commit\n", &worker("w"), vec![json("{\"attempt\":1}")]);
    let line = log_line(&record);
    assert_eq!(Json::parse_bytes(&line[..line.len() - 1]), Some(record));
}

#[test]
fn attempts_are_recorded_in_order_and_none_counts_but_the_last() {
    let outcomes = [response(500), silence(), response(429)];
    let mut due = Dispatching::new(3);
    for (i, outcome) in outcomes.iter().enumerate() {
        assert_eq!(due.attempt(), i as u64 + 1);
        if let AttemptOutcome::Response { status } = outcome {
            assert!(!commits_state(TurnEnd::Answered { status: *status }));
        }
        due = again(due.settle(*outcome, 10 + i as u64, 20 + i as u64));
    }
    assert!(!due.will_retry(response(200)));
    match due.settle(response(200), 13, 99) {
        Settled::Responded(attempts) => {
            assert_eq!(attempts.len(), 4);
            for (i, attempt) in attempts.iter().enumerate() {
                assert_eq!(attempt.get("attempt"), Some(&Json::unsigned(i as u64 + 1)));
                assert_eq!(attempt.get("latency_ms"), Some(&Json::unsigned(i as u64 + 10)));
            }
            assert_eq!(attempts[1].get("retry_delay_ms"), Some(&Json::unsigned(21)));
            assert_eq!(attempts[3].get("retry_delay_ms"), Some(&Json::unsigned(0)));
        }
        _ => panic!("no answer"),
    }
}

fn upstream(name: &str, value: &[u8], hop_by_hop: bool) -> UpstreamHeader {
    UpstreamHeader { name: name.to_owned(), value: value.to_vec(), hop_by_hop }
}

fn own(name: &str, value: &str) -> (String, String) {
    (name.to_owned(), value.to_owned())
}

#[test]
fn own_headers_stand_in_place_of_the_upstreams() {
    let headers = vec![
        upstream("set-cookie", b"a", false),
        upstream("connection", b"close", true),
        upstream("X-Rayline-Policy", b"other", false),
        upstream("Content-Length", b"3", false),
        upstream("set-cookie", b"\xff", false),
    ];
    let merged = merged_headers(&headers, &vec![own("x-id", "1"), own("x-rayline-policy", "c82")]);
    assert_eq!(
        merged,
        vec![
            ("set-cookie".to_owned(), b"a".to_vec()),
            ("set-cookie".to_owned(), b"\xff".to_vec()),
            ("x-id".to_owned(), b"1".to_vec()),
            ("x-rayline-policy".to_owned(), b"c82".to_vec()),
        ]
    );
    let merged = merged_headers(&vec![], &vec![own("a", "1"), own("b", "2"), own("A", "3")]);
    assert_eq!(
        merged,
        vec![("b".to_owned(), b"2".to_vec()), ("A".to_owned(), b"3".to_vec())]
    );
}

#[test]
fn episode_digest_has_64_digits() {
    let record = decision_record(
        &vec![worker("w")],
        &decision(None),
        &report(),
        &worker("w"),
        &json("{}"),
        vec![],
    );
    assert_eq!(record.get_text("episode_id_sha256").unwrap().len(), 64);
}

use rayline_c82::alias::{rewrite_body, rewrite_models, rewrite_parsed_body, PUBLIC_MODEL_ALIAS};
use rayline_c82::json::Json;
use rayline_c82::retry::TransportFlags;
use rayline_c82::sse::{
    next_sse_frame, rewrite_sse_frame, rewrite_sse_line, sse_line_data, SseRewriter,
};

fn json(text: &str) -> Json {
    Json::parse(text).unwrap()
}

fn rewritten(frame: &str) -> String {
    String::from_utf8(rewrite_sse_frame(frame.as_bytes())).unwrap()
}

#[test]
fn every_model_member_names_the_public_model() {
    assert_eq!(PUBLIC_MODEL_ALIAS, "rayline/router");
    let mut value = json(r#"{"model":{"model":1},"a":[{"model":null},"model"],"models":"x"}"#);
    rewrite_models(&mut value);
    let expected = json(
        r#"{"model":"rayline/router","a":[{"model":"rayline/router"},"model"],"models":"x"}"#,
    );
    assert_eq!(value, expected);
    rewrite_models(&mut value);
    assert_eq!(value, expected);
}

#[test]
fn values_that_differ_in_models_alone_become_the_same() {
    let mut one = json(r#"{"a":[{"model":"x"}],"model":1}"#);
    let mut other = json(r#"{"a":[{"model":{"y":2}}],"model":"z"}"#);
    rewrite_models(&mut one);
    rewrite_models(&mut other);
    assert_eq!(one, other);
}

#[test]
fn bodies_are_rewritten_if_they_are_json() {
    assert_eq!(
        rewrite_body(b" {\"model\": \"x\", \"n\": 1.50} "),
        b"{\"model\":\"rayline/router\",\"n\":1.5}"
    );
    assert_eq!(rewrite_body(b"{\"model\":"), b"{\"model\":");
    assert_eq!(rewrite_body(b"\xff"), b"\xff");
    assert_eq!(rewrite_parsed_body(b"x", None), b"x");
    assert_eq!(
        rewrite_parsed_body(b"x", Some(json(r#"{"model":1}"#))),
        b"{\"model\":\"rayline/router\"}"
    );
}

#[test]
fn frames_end_with_either_blank_line() {
    assert_eq!(next_sse_frame(b""), None);
    assert_eq!(next_sse_frame(b"\n"), None);
    assert_eq!(next_sse_frame(b"a\r\n\r"), None);
    assert_eq!(next_sse_frame(b"a\n\r\n"), None);
    assert_eq!(next_sse_frame(b"a\r\n\r\nb"), Some((b"a\r\n\r\n".to_vec(), 5)));
    assert_eq!(next_sse_frame(b"a\r\n\nb\n\n"), Some((b"a\r\n\n".to_vec(), 4)));
    assert_eq!(next_sse_frame(b"\n\n\n\n"), Some((b"\n\n".to_vec(), 2)));
}

#[test]
fn lines_keep_their_breaks() {
    assert_eq!(
        rewritten("event: x\r\ndata:{\"model\":\"p\"}\r\n\r\n"),
        "event: x\r\ndata: {\"model\":\"rayline/router\"}\r\n\r\n"
    );
    assert_eq!(rewritten("data: {\"a\": 1}"), "data: {\"a\":1}");
    assert_eq!(rewritten("data: [DONE]\n\n"), "data: [DONE]\n\n");
    assert_eq!(rewritten("data: not json\n"), "data: not json\n");
    assert_eq!(rewritten(" data: {\"model\":1}\n"), " data: {\"model\":1}\n");
    assert_eq!(rewritten("x\r\r\ny\r"), "x\r\ny");
    assert_eq!(rewritten("data: \u{3000}[1, 2]\n"), "data: [1,2]\n");
    assert_eq!(rewritten(""), "");
}

#[test]
fn frames_that_are_not_utf8_stay() {
    assert_eq!(
        rewrite_sse_frame(b"data: {\"model\":\"\xff\"}\n\n"),
        b"data: {\"model\":\"\xff\"}\n\n"
    );
}

#[test]
fn lines_are_rewritten_one_by_one() {
    let first = "data: {\"model\":1}\n";
    let second = "data: {\"model\":2}\r\nx";
    assert_eq!(
        rewritten(&format!("{first}{second}")),
        format!("{}{}", rewritten(first), rewritten(second))
    );
}

#[test]
fn data_of_a_line_may_be_json() {
    assert_eq!(sse_line_data("data:  x \n"), Some("x ".to_owned()));
    assert_eq!(sse_line_data("data:"), Some("".to_owned()));
    assert_eq!(sse_line_data("data: [DONE]\r\n"), None);
    assert_eq!(sse_line_data("dat: x"), None);
    assert_eq!(sse_line_data("event: data:"), None);
    assert_eq!(
        rewrite_sse_line("data: ...\r\n", Some(json(r#"{"model":"x"}"#))),
        "data: {\"model\":\"rayline/router\"}\r\n"
    );
    assert_eq!(rewrite_sse_line("data: ...\r\n", None), "data: ...\r\n");
}

#[test]
fn chunks_do_not_matter() {
    let stream = b"data: {\"model\":\"a\"}\r\n\r\nevent: e\ndata: {\"model\":\"b\"}\n\ndata: {\"model\":\"c\"}";
    let mut whole = SseRewriter::new();
    let expected = whole.push(stream);
    assert_eq!(
        expected,
        vec![
            b"data: {\"model\":\"rayline/router\"}\r\n\r\n".to_vec(),
            b"event: e\ndata: {\"model\":\"rayline/router\"}\n\n".to_vec(),
        ]
    );
    let tail = whole.finish();
    assert_eq!(tail, Some(b"data: {\"model\":\"rayline/router\"}".to_vec()));
    for size in 1..stream.len() {
        let mut rewriter = SseRewriter::new();
        let mut frames = Vec::new();
        for chunk in stream.chunks(size) {
            frames.extend(rewriter.push(chunk));
        }
        assert_eq!(frames, expected);
        assert_eq!(rewriter.finish(), tail);
    }
    assert_eq!(SseRewriter::new().finish(), None);
}

#[test]
fn framing_loses_nothing() {
    let stream = b"a\n\n\n\nb\r\n\r\nc";
    let mut rest: &[u8] = stream;
    let mut collected = Vec::new();
    while let Some((frame, consumed)) = next_sse_frame(rest) {
        collected.extend(frame);
        rest = &rest[consumed..];
    }
    collected.extend_from_slice(rest);
    assert_eq!(collected, stream);
    assert_eq!(next_sse_frame(rest), None);
}

#[test]
fn client_reads_the_public_model() {
    let body = br#"{"id":"m","model":"private","choices":[{"model":"other","n":3}]}"#;
    let mut expected = Json::parse_bytes(body).unwrap();
    rewrite_models(&mut expected);
    assert_eq!(Json::parse_bytes(&rewrite_body(body)), Some(expected));
}

#[test]
fn one_frame_stays_one_frame() {
    let frames = [
        "data: {\"model\":\"x\\n\\n\"}\n\n",
        "event: e\r\ndata:{\"a\":\"\\r\\n\\r\\n\"}\r\n\r\n",
        "data: {\"a\":\n\n",
        "data: [1,\r\n\n",
        "\n\n",
        ": \u{e9}\u{85}\u{2028}\n\n",
    ];
    let mut sent = Vec::new();
    for frame in frames {
        assert_eq!(next_sse_frame(frame.as_bytes()), Some((frame.as_bytes().to_vec(), frame.len())));
        let after = rewrite_sse_frame(frame.as_bytes());
        assert_eq!(next_sse_frame(&after), Some((after.clone(), after.len())));
        sent.push(after);
    }
    let mut client = SseRewriter::new();
    assert_eq!(client.push(&sent.concat()), sent);
    assert_eq!(client.finish(), None);
}

#[test]
fn stray_carriage_return_may_end_a_frame_early() {
    let frame = b"x\r\n\r\r\ny\n\n";
    assert_eq!(next_sse_frame(frame), Some((frame.to_vec(), frame.len())));
    let after = rewrite_sse_frame(frame);
    assert_eq!(after, b"x\r\n\r\ny\n\n");
    assert_eq!(next_sse_frame(&after), Some((b"x\r\n\r\n".to_vec(), 5)));
}

#[test]
fn frames_keep_their_line_feeds_and_breaks() {
    let frame = "event: e\r\ndata: {\"model\":\"a\\nb\"}\ndata: [1, 2]\r\n: x\n\n";
    let after = rewritten(frame);
    let breaks = |text: &str| {
        text.split_inclusive('\n').map(|line| line.ends_with("\r\n")).collect::<Vec<bool>>()
    };
    assert_eq!(breaks(&after), breaks(frame));
    assert_eq!(after.matches('\n').count(), frame.matches('\n').count());
    assert_eq!(rewritten("x\r\r\ny\r").matches('\n').count(), 1);
}

#[test]
fn frames_are_rewritten_once_and_for_all() {
    let frames = [
        "data:\u{3000}{\"model\": \"a\", \"n\": [ -3 ]}\r\n\r\n",
        "data: [DONE]\n\n",
        "data:  [ ]\ndata: \"x\\u0001\"\ndata: 12\ndata: null\n",
        "data: {\"a\":\r\r\nz\r",
        "\r",
    ];
    for frame in frames {
        let once = rewritten(frame);
        assert_eq!(rewritten(&once), once);
    }
}

#[test]
fn frames_that_differ_in_models_alone_become_the_same() {
    assert_eq!(
        rewritten("event: e\ndata: {\"model\":\"x\",\"a\":[{\"model\":1}]}\n\n"),
        rewritten("event: e\ndata:{\"a\": [{\"model\": [2]}], \"model\": null}\n\n")
    );
}

#[test]
fn failed_stream_ends_with_its_error_and_without_its_rest() {
    let failures = [
        (true, true, true, true, "C82 upstream stream failed: timeout"),
        (false, true, true, true, "C82 upstream stream failed: connect"),
        (false, false, true, true, "C82 upstream stream failed: request"),
        (false, false, false, true, "C82 upstream stream failed: body"),
        (false, false, false, false, "C82 upstream stream failed: transport"),
    ];
    for (timeout, connect, request, body, expected) in failures {
        let mut rewriter = SseRewriter::new();
        assert_eq!(rewriter.push(b"data: {\"model\":1}\n\ndata: {\"mod").len(), 1);
        assert_eq!(rewriter.fail(TransportFlags { timeout, connect, request, body }), expected);
    }
}

use quic_torrent_client_server::quic_client::{
    detect_response_type, response_text, response_type_label, stream_failure, ConnectOutcome,
    ConnectStep, RetryPolicy, TransportError,
};

use ConnectOutcome::{Connected, Failed, TimedOut};

#[test]
fn the_standard_policy_allows_two_more_attempts() {
    let p = RetryPolicy::standard();
    assert_eq!(p.max_attempts, 3);
    assert_eq!(p.timeout_secs, 20);
    assert_eq!(p.after_attempt(1, Connected), ConnectStep::Proceed);
    assert_eq!(p.after_attempt(1, TimedOut), ConnectStep::Retry);
    assert_eq!(p.after_attempt(2, Failed), ConnectStep::Retry);
    assert_eq!(p.after_attempt(3, TimedOut), ConnectStep::GiveUp(TransportError::ConnectTimeout));
    assert_eq!(p.after_attempt(3, Failed), ConnectStep::GiveUp(TransportError::ConnectError));
    assert_eq!(p.after_attempt(3, Connected), ConnectStep::Proceed);
}

#[test]
fn connecting_ends_with_the_first_connection_or_the_last_failure() {
    let p = RetryPolicy::standard();
    assert_eq!(p.connect(&[Connected]), Some(Ok(1)));
    assert_eq!(p.connect(&[TimedOut, Connected]), Some(Ok(2)));
    assert_eq!(p.connect(&[Failed, TimedOut, Connected]), Some(Ok(3)));
    assert_eq!(p.connect(&[Failed, TimedOut, TimedOut]), Some(Err(TransportError::ConnectTimeout)));
    assert_eq!(p.connect(&[TimedOut, TimedOut, Failed]), Some(Err(TransportError::ConnectError)));
    assert_eq!(
        p.connect(&[TimedOut, TimedOut, Failed, Connected]),
        Some(Err(TransportError::ConnectError))
    );
    assert_eq!(p.connect(&[Connected, Failed]), Some(Ok(1)));
    assert_eq!(p.connect(&[]), None);
    assert_eq!(p.connect(&[TimedOut, Failed]), None);
}

#[test]
fn a_policy_of_one_attempt_never_retries() {
    let p = RetryPolicy { max_attempts: 1, timeout_secs: 10 };
    assert_eq!(p.connect(&[TimedOut, Connected]), Some(Err(TransportError::ConnectTimeout)));
    assert_eq!(p.connect(&[Failed]), Some(Err(TransportError::ConnectError)));
    let none = RetryPolicy { max_attempts: 0, timeout_secs: 10 };
    assert_eq!(none.connect(&[Failed, Connected]), Some(Err(TransportError::ConnectError)));
    assert_eq!(none.connect(&[Connected]), Some(Ok(1)));
    assert_eq!(stream_failure(), TransportError::StreamError);
}

#[test]
fn responses_are_named_for_the_log() {
    assert_eq!(
        detect_response_type(r#"{"interval":60,"peers":[],"complete":0,"incomplete":0}"#),
        "TrackerAnnounceResponse"
    );
    assert_eq!(
        detect_response_type(r#"{"data":[1],"filename":"a","size":1}"#),
        "FileResponse"
    );
    assert_eq!(detect_response_type(r#"{"answer":"a","metadata":null}"#), "AiResponse");
    assert_eq!(detect_response_type(r#"{"answer":"a"}"#), "UnknownResponse");
    assert_eq!(detect_response_type(r#"{"error":"e","code":"C"}"#), "ErrorResponse");
    assert_eq!(detect_response_type(r#"{"peers":[]}"#), "UnknownResponse");
    assert_eq!(detect_response_type(""), "UnknownResponse");
    assert_eq!(
        detect_response_type(r#"{"error":"no \"peers\" and no \"interval\""}"#),
        "ErrorResponse"
    );
    assert_eq!(detect_response_type(r#"{"note":"\"error\""}"#), "UnknownResponse");
    assert_eq!(
        response_type_label(true, true, true, true, true, true, true),
        "TrackerAnnounceResponse"
    );
    assert_eq!(response_type_label(true, false, true, true, true, true, true), "FileResponse");
    assert_eq!(response_type_label(false, true, true, false, true, true, true), "AiResponse");
    assert_eq!(response_type_label(true, false, false, true, true, false, true), "ErrorResponse");
    assert_eq!(response_type_label(true, false, false, true, true, false, false), "UnknownResponse");
}

#[test]
fn a_response_that_is_no_text_does_not_deserialize() {
    assert_eq!(response_text(br#"{"error":"e"}"#), Ok(r#"{"error":"e"}"#.to_string()));
    assert_eq!(response_text("gr\u{fc}n".as_bytes()), Ok("gr\u{fc}n".to_string()));
    assert_eq!(response_text(b""), Ok(String::new()));
    assert_eq!(response_text(&[0x7b, 0xff, 0x7d]), Err(TransportError::DeserializeError));
    assert_eq!(response_text(&[0xe2, 0x82]), Err(TransportError::DeserializeError));
}

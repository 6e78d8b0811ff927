use quic_torrent_client_server::dispatch::{
    after_delegation, after_local, after_probe, after_read, ai_unavailable, classify_request,
    classify_shape, detect_request_type, file_not_found, file_too_large, invalid_encoding,
    request_type_label, resolve_file_name, route_ai, route_classified, route_stream,
    sanitize_filename, serialization_error, unknown_request, AiRoute, FileDecision, FileProbe,
    LocalStep, RequestKind, Route, MAX_FILE_SIZE,
};
use quic_torrent_client_server::messages::{AiResponse, ErrorResponse, ResponseMetadata};

fn error(text: &str, code: &str) -> ErrorResponse {
    ErrorResponse { error: text.to_string(), code: Some(code.to_string()) }
}

#[test]
fn shapes_are_tried_in_a_fixed_order() {
    assert_eq!(classify_shape(true, true, true, true), RequestKind::Announce);
    assert_eq!(classify_shape(true, true, false, false), RequestKind::Announce);
    assert_eq!(classify_shape(true, false, true, true), RequestKind::File);
    assert_eq!(classify_shape(false, true, true, false), RequestKind::File);
    assert_eq!(classify_shape(true, false, false, true), RequestKind::Ai);
    assert_eq!(classify_shape(false, false, false, true), RequestKind::Ai);
    assert_eq!(classify_shape(true, false, false, false), RequestKind::Unknown);
    assert_eq!(classify_shape(false, true, false, false), RequestKind::Unknown);
    assert_eq!(classify_shape(false, false, false, false), RequestKind::Unknown);
}

#[test]
fn requests_are_classified_by_their_members() {
    assert_eq!(
        classify_request(r#"{"info_hash":"H","peer_id":"alpha","port":6881,"event":"started"}"#),
        RequestKind::Announce
    );
    assert_eq!(classify_request(r#"{"file":"hello_world.txt"}"#), RequestKind::File);
    assert_eq!(classify_request(r#"{"query":"hi","context":null}"#), RequestKind::Ai);
    assert_eq!(classify_request(r#"{"type":"ping","data":"x"}"#), RequestKind::Unknown);
    assert_eq!(classify_request(r#"{"info_hash":"H","file":"f"}"#), RequestKind::File);
    assert_eq!(
        classify_request(r#"{"query":"q","file":"f","peer_id":"p","info_hash":"h"}"#),
        RequestKind::Announce
    );
    assert_eq!(classify_request(r#"{"data":"\"file\""}"#), RequestKind::Unknown);
    assert_eq!(classify_request(r#"["file","query"]"#), RequestKind::Unknown);
    assert_eq!(classify_request(r#""file""#), RequestKind::Unknown);
    assert_eq!(classify_request(r#"{"file":"#), RequestKind::Unknown);
    assert_eq!(classify_request(""), RequestKind::Unknown);
    assert_eq!(classify_request(r#"{"inner":{"file":"f"}}"#), RequestKind::Unknown);
}

#[test]
fn the_logged_name_goes_by_the_members_of_the_request() {
    assert_eq!(
        detect_request_type(r#"{"info_hash":"H","peer_id":"P"}"#),
        "TrackerAnnounceRequest"
    );
    assert_eq!(detect_request_type(r#"{"info_hash":"H"}"#), "UnknownRequest");
    assert_eq!(detect_request_type(r#"{"file":"a"}"#), "FileRequest");
    assert_eq!(detect_request_type(r#"{"query":"a","type":"t"}"#), "AiRequest");
    assert_eq!(detect_request_type(r#"{"query":"file"}"#), "AiRequest");
    assert_eq!(detect_request_type(r#"{"type":"ping"}"#), "CustomJSON");
    assert_eq!(detect_request_type(r#"{"data":"\"file\""}"#), "UnknownRequest");
    assert_eq!(detect_request_type(r#"{"data":"\"type\""}"#), "UnknownRequest");
    assert_eq!(detect_request_type(r#"not json but "file" is in it"#), "UnknownRequest");
    assert_eq!(detect_request_type("file"), "UnknownRequest");
    assert_eq!(detect_request_type(""), "UnknownRequest");
    assert_eq!(request_type_label(RequestKind::Announce, true), "TrackerAnnounceRequest");
    assert_eq!(request_type_label(RequestKind::File, false), "FileRequest");
    assert_eq!(request_type_label(RequestKind::Ai, true), "AiRequest");
    assert_eq!(request_type_label(RequestKind::Unknown, true), "CustomJSON");
    assert_eq!(request_type_label(RequestKind::Unknown, false), "UnknownRequest");
}

#[test]
fn every_stream_gets_an_answer() {
    match route_stream(b"") {
        Route::Reject(e) => assert_eq!(e, error("Unknown request type", "UNKNOWN_REQUEST")),
        _ => panic!("a stream without bytes must be refused"),
    }
    match route_stream(&[0xff, 0xfe, 0x7b]) {
        Route::Reject(e) => assert_eq!(e, error("Invalid UTF-8 encoding", "INVALID_ENCODING")),
        _ => panic!("bytes that are not text must be refused"),
    }
    match route_stream(br#"{"type":"ping"}"#) {
        Route::Reject(e) => assert_eq!(e, error("Unknown request type", "UNKNOWN_REQUEST")),
        _ => panic!("an unknown request must be refused"),
    }
    match route_stream(b"not json") {
        Route::Reject(e) => assert_eq!(e.code.as_deref(), Some("UNKNOWN_REQUEST")),
        _ => panic!("text that is no JSON must be refused"),
    }
    match route_stream(br#"{"file":"a.txt"}"#) {
        Route::Handle(kind, text) => {
            assert_eq!(kind, RequestKind::File);
            assert_eq!(text, r#"{"file":"a.txt"}"#);
        },
        _ => panic!("a file request must be handled"),
    }
    match route_stream("{\"query\":\"gr\u{fc}\u{df}e\"}".as_bytes()) {
        Route::Handle(kind, text) => {
            assert_eq!(kind, RequestKind::Ai);
            assert_eq!(text, "{\"query\":\"gr\u{fc}\u{df}e\"}");
        },
        _ => panic!("an AI query must be handled"),
    }
    match route_stream(br#"{"peer_id":"P","info_hash":"H","port":1}"#) {
        Route::Handle(kind, _) => assert_eq!(kind, RequestKind::Announce),
        _ => panic!("an announce must be handled"),
    }
    match route_classified(RequestKind::Unknown, "x".to_string()) {
        Route::Reject(e) => assert_eq!(e, error("Unknown request type", "UNKNOWN_REQUEST")),
        _ => panic!("a request of no known kind must be refused"),
    }
    match route_classified(RequestKind::Ai, "x".to_string()) {
        Route::Handle(kind, text) => {
            assert_eq!(kind, RequestKind::Ai);
            assert_eq!(text, "x");
        },
        _ => panic!("a classified request must be handled"),
    }
}

#[test]
fn fixed_refusals_have_their_words_and_codes() {
    assert_eq!(invalid_encoding(), error("Invalid UTF-8 encoding", "INVALID_ENCODING"));
    assert_eq!(unknown_request(), error("Unknown request type", "UNKNOWN_REQUEST"));
    assert_eq!(serialization_error(), error("Internal server error", "SERIALIZATION_ERROR"));
    assert_eq!(ai_unavailable(), error("AI processing not available", "AI_UNAVAILABLE"));
    assert_eq!(ErrorResponse::with_code("a", "B"), error("a", "B"));
}

#[test]
fn a_traversal_attempt_stays_a_plain_name() {
    assert_eq!(sanitize_filename("../../etc/passwd"), "etcpasswd");
    assert_eq!(resolve_file_name("../../etc/passwd"), "etcpasswd");
    assert_eq!(sanitize_filename("..\\..\\windows\\system32"), "windowssystem32");
    assert_eq!(sanitize_filename("/absolute/path.txt"), "absolutepath.txt");
    assert_eq!(sanitize_filename("hello_world.txt"), "hello_world.txt");
    assert_eq!(sanitize_filename("a..b"), "ab");
    assert_eq!(sanitize_filename("dir/file..txt"), "dirfiletxt");
    assert_eq!(resolve_file_name("a/.b"), "a.b");
    assert_eq!(resolve_file_name(".hidden"), ".hidden");
    assert_eq!(resolve_file_name("././."), "...");
    assert_eq!(resolve_file_name("./../."), "hello_world.txt");
}

#[test]
fn the_served_name_is_never_a_directory_or_a_path() {
    let requests = [
        "", ".", "..", "...", "....", "./.", ".\\.", "/", "\\", "../", "..\\../", "/./", "./", "/.", "./..",
        "../../etc/passwd", "a/b\\c", "\\/\\/", "x/../y", "/./.", ".../", "..../.",
    ];
    for request in requests {
        let name = resolve_file_name(request);
        assert!(!name.is_empty(), "{:?}", request);
        assert!(name != "." && name != "..", "{:?}", request);
        assert!(!name.contains('/') && !name.contains('\\'), "{:?}", request);
    }
    for request in ["", ".", "..", "...", "....", "./.", ".\\.", "/", "../", "..\\../", "/./.", ".../"] {
        assert_eq!(resolve_file_name(request), "hello_world.txt", "{:?}", request);
    }
    assert_eq!(resolve_file_name("data.json"), "data.json");
}

#[test]
fn missing_and_oversized_files_are_refused() {
    assert_eq!(MAX_FILE_SIZE, 5 * 1024 * 1024);
    match after_probe("a.txt", "/srv/seed/a.txt", FileProbe::Missing) {
        FileDecision::Reject(e) => {
            assert_eq!(e, error("File not found: /srv/seed/a.txt", "FILE_NOT_FOUND"))
        },
        FileDecision::Read => panic!("a missing file cannot be read"),
    }
    match after_probe("big.bin", "/srv/seed/big.bin", FileProbe::Found(5242881)) {
        FileDecision::Reject(e) => assert_eq!(
            e,
            error(
                "File too large: big.bin (5242881 bytes). Maximum size: 5242880 bytes. Use chunked transfer for larger files.",
                "FILE_TOO_LARGE"
            )
        ),
        FileDecision::Read => panic!("a file above the limit cannot be sent"),
    }
    assert!(matches!(after_probe("a", "p", FileProbe::Found(5242880)), FileDecision::Read));
    assert!(matches!(after_probe("a", "p", FileProbe::Found(0)), FileDecision::Read));
    assert_eq!(file_not_found("x"), error("File not found: x", "FILE_NOT_FOUND"));
    assert_eq!(
        file_too_large("n", u64::MAX).error,
        "File too large: n (18446744073709551615 bytes). Maximum size: 5242880 bytes. Use chunked transfer for larger files."
    );
}

#[test]
fn a_read_file_is_sent_under_the_requested_name() {
    let resp = after_read("../a.txt", "/srv/seed/a.txt", Some(b"Hello World!".to_vec())).unwrap();
    assert_eq!(resp.data, b"Hello World!".to_vec());
    assert_eq!(resp.filename, "../a.txt");
    assert_eq!(resp.size, 12);
    assert_eq!(
        after_read("a.txt", "/srv/seed/a.txt", None),
        Err(error("File not found: /srv/seed/a.txt", "FILE_NOT_FOUND"))
    );
}

#[test]
fn an_ai_query_goes_local_first_then_to_another_node() {
    assert_eq!(route_ai(true, true), AiRoute::Local);
    assert_eq!(route_ai(true, false), AiRoute::Local);
    assert_eq!(route_ai(false, true), AiRoute::Delegate);
    assert_eq!(route_ai(false, false), AiRoute::Unavailable);
}

#[test]
fn a_failed_delegation_is_answered_as_unavailable() {
    let resp = AiResponse { answer: "42".to_string(), metadata: None };
    assert_eq!(after_delegation(Ok(resp.clone())), Ok(resp));
    assert_eq!(
        after_delegation(Err("No available node for AI processing".to_string())),
        Err(error("AI processing not available", "AI_UNAVAILABLE"))
    );
}

#[test]
fn a_failure_of_the_local_processor_is_never_sent_as_an_answer() {
    let meta = ResponseMetadata {
        input_tokens: Some(3),
        output_tokens: Some(4),
        total_tokens: Some(7),
        processing_time_ms: Some(1),
    };
    for has_work_distribution in [true, false] {
        match after_local(Ok(("hi".to_string(), meta.clone())), has_work_distribution) {
            LocalStep::Answer(response) => assert_eq!(
                response,
                AiResponse { answer: "hi".to_string(), metadata: Some(meta.clone()) }
            ),
            _ => panic!("the answer of the processor must be sent"),
        }
    }
    assert!(matches!(after_local(Err("model missing".to_string()), true), LocalStep::Delegate));
    match after_local(Err("model missing".to_string()), false) {
        LocalStep::Reject(e) => assert_eq!(e, error("AI processing not available", "AI_UNAVAILABLE")),
        _ => panic!("a failure without work distribution must be refused"),
    }
}

//! What the server does with a request: how a payload is classified, which
//! handler gets it, and what is answered where a request cannot be served.

use vstd::prelude::*;
use vstd::string::StringExecFns;
use vstd::utf8::{decode_utf8, valid_utf8};
use crate::messages::{
    AiResponse, ErrorResponse, ErrorView, FileResponse, FileResponseView, ResponseMetadata,
};
use crate::text::{decimal_string, decimal_text, replace_all, str_eq, str_replace, utf8_text};

verus! {

/// The largest file that is sent in one response, in bytes.
pub const MAX_FILE_SIZE: u64 = 5242880;

/// The kinds of request that the server tells apart.
#[derive(Debug, Clone, Copy, PartialEq, Eq, Structural)]
pub enum RequestKind {
    /// An announce to the tracker.
    Announce,
    /// A request for a file.
    File,
    /// A query for the AI stage.
    Ai,
    /// None of these.
    Unknown,
}

/// The kind of a payload by the fields that it has. The shapes are tried in
/// a fixed order and the first that fits decides: an announce has an info
/// hash and a peer identifier, a file request a file, an AI query a query.
pub open spec fn kind_of_shape(info_hash: bool, peer_id: bool, file: bool, query: bool) -> RequestKind {
    if info_hash && peer_id {
        RequestKind::Announce
    } else if file {
        RequestKind::File
    } else if query {
        RequestKind::Ai
    } else {
        RequestKind::Unknown
    }
}

/// The kind of a payload of which it is known which of the four
/// distinguishing fields it has.
pub fn classify_shape(info_hash: bool, peer_id: bool, file: bool, query: bool) -> (r: RequestKind)
    ensures
        r == kind_of_shape(info_hash, peer_id, file, query),
{
    if info_hash && peer_id {
        RequestKind::Announce
    } else if file {
        RequestKind::File
    } else if query {
        RequestKind::Ai
    } else {
        RequestKind::Unknown
    }
}

/// Whether `text` is a JSON object that has the member `field`, as
/// `serde_json` reads it.
pub uninterp spec fn json_field_present(text: Seq<char>, field: Seq<char>) -> bool;

/// Calls `serde_json::from_str` for a `serde_json::Value` and then
/// `Value::get` with the name of the field. Trusted: the result depends on
/// the text and the name alone.
#[verifier::external_body]
pub(crate) fn json_has_field(text: &str, field: &str) -> (r: bool)
    ensures
        r == json_field_present(text@, field@),
{
    match serde_json::from_str::<serde_json::Value>(text) {
        Ok(value) => value.get(field).is_some(),
        Err(_) => false,
    }
}

/// The kind of the request that `text` holds, by the members that it has as
/// a JSON object.
pub open spec fn kind_of_text(text: Seq<char>) -> RequestKind {
    kind_of_shape(
        json_field_present(text, "info_hash"@),
        json_field_present(text, "peer_id"@),
        json_field_present(text, "file"@),
        json_field_present(text, "query"@),
    )
}

/// Classifies a request by the members that it has as a JSON object.
pub fn classify_request(text: &str) -> (r: RequestKind)
    ensures
        r == kind_of_text(text@),
{
    classify_shape(
        json_has_field(text, "info_hash"),
        json_has_field(text, "peer_id"),
        json_has_field(text, "file"),
        json_has_field(text, "query"),
    )
}

/// The name under which a request of a kind is logged; a request of no
/// known kind that has the member `type` is named a custom message.
pub open spec fn type_name_of(kind: RequestKind, has_type: bool) -> Seq<char> {
    match kind {
        RequestKind::Announce => "TrackerAnnounceRequest"@,
        RequestKind::File => "FileRequest"@,
        RequestKind::Ai => "AiRequest"@,
        RequestKind::Unknown => if has_type {
            "CustomJSON"@
        } else {
            "UnknownRequest"@
        },
    }
}

/// The name under which a request is logged, by the members that it has as a
/// JSON object.
pub open spec fn request_type_name(json: Seq<char>) -> Seq<char> {
    type_name_of(kind_of_text(json), json_field_present(json, "type"@))
}

/// The name under which a request of a kind is logged.
pub fn request_type_label(kind: RequestKind, has_type: bool) -> (r: &'static str)
    ensures
        r@ == type_name_of(kind, has_type),
{
    match kind {
        RequestKind::Announce => "TrackerAnnounceRequest",
        RequestKind::File => "FileRequest",
        RequestKind::Ai => "AiRequest",
        RequestKind::Unknown => {
            if has_type {
                "CustomJSON"
            } else {
                "UnknownRequest"
            }
        },
    }
}

/// The name under which a request is logged, by the members that it has as a
/// JSON object.
pub fn detect_request_type(json: &str) -> (r: &'static str)
    ensures
        r@ == request_type_name(json@),
{
    request_type_label(classify_request(json), json_has_field(json, "type"))
}

/// The answer to bytes that are not text.
pub fn invalid_encoding() -> (r: ErrorResponse)
    ensures
        r@ == (ErrorView { error: "Invalid UTF-8 encoding"@, code: Some("INVALID_ENCODING"@) }),
{
    ErrorResponse::with_code("Invalid UTF-8 encoding", "INVALID_ENCODING")
}

/// The answer to a request of no known kind.
pub fn unknown_request() -> (r: ErrorResponse)
    ensures
        r@ == (ErrorView { error: "Unknown request type"@, code: Some("UNKNOWN_REQUEST"@) }),
{
    ErrorResponse::with_code("Unknown request type", "UNKNOWN_REQUEST")
}

/// The answer where a response could not be put into bytes.
pub fn serialization_error() -> (r: ErrorResponse)
    ensures
        r@ == (ErrorView { error: "Internal server error"@, code: Some("SERIALIZATION_ERROR"@) }),
{
    ErrorResponse::with_code("Internal server error", "SERIALIZATION_ERROR")
}

/// The answer to an AI query that can be handled neither here nor elsewhere.
pub fn ai_unavailable() -> (r: ErrorResponse)
    ensures
        r@ == (ErrorView { error: "AI processing not available"@, code: Some("AI_UNAVAILABLE"@) }),
{
    ErrorResponse::with_code("AI processing not available", "AI_UNAVAILABLE")
}

/// What the server does with the bytes of one stream. Every stream gets an
/// answer.
pub enum Route {
    /// The request is refused with this answer.
    Reject(ErrorResponse),
    /// The request, as text, goes to the handler of its kind.
    Handle(RequestKind, String),
}

/// The route of a request that was classified: a refusal for a request of no
/// known kind, else the handler of its kind.
pub fn route_classified(kind: RequestKind, text: String) -> (r: Route)
    ensures
        match kind {
            RequestKind::Unknown => r matches Route::Reject(e) && e@ == (ErrorView {
                error: "Unknown request type"@,
                code: Some("UNKNOWN_REQUEST"@),
            }),
            _ => r == Route::Handle(kind, text),
        },
{
    match kind {
        RequestKind::Unknown => Route::Reject(unknown_request()),
        _ => Route::Handle(kind, text),
    }
}

/// The route that the bytes of a stream take: a refusal for no bytes, for
/// bytes that are not text and for a request of no known kind, else the
/// handler of the kind of the request.
pub open spec fn route_of(buffer: Seq<u8>, r: Route) -> bool {
    if buffer.len() == 0 {
        r matches Route::Reject(e) && e@ == (ErrorView {
            error: "Unknown request type"@,
            code: Some("UNKNOWN_REQUEST"@),
        })
    } else if !valid_utf8(buffer) {
        r matches Route::Reject(e) && e@ == (ErrorView {
            error: "Invalid UTF-8 encoding"@,
            code: Some("INVALID_ENCODING"@),
        })
    } else if kind_of_text(decode_utf8(buffer)) == RequestKind::Unknown {
        r matches Route::Reject(e) && e@ == (ErrorView {
            error: "Unknown request type"@,
            code: Some("UNKNOWN_REQUEST"@),
        })
    } else {
        r matches Route::Handle(kind, text) && kind == kind_of_text(decode_utf8(buffer)) && text@
            == decode_utf8(buffer)
    }
}

/// Decides what to do with the bytes that a stream brought.
pub fn route_stream(buffer: &[u8]) -> (r: Route)
    ensures
        route_of(buffer@, r),
{
    if buffer.len() == 0 {
        return Route::Reject(unknown_request());
    }
    match utf8_text(buffer) {
        None => Route::Reject(invalid_encoding()),
        Some(text) => {
            let kind: RequestKind = classify_request(text.as_str());
            route_classified(kind, text)
        },
    }
}

/// The name of a requested file with every `..` taken out, then every
/// backslash, then every slash.
pub open spec fn sanitized(name: Seq<char>) -> Seq<char> {
    replace_all(replace_all(replace_all(name, ".."@, ""@), "\\"@, ""@), "/"@, ""@)
}

/// Whether a name stands for a directory and not for a file in it: the empty
/// name, one dot and two dots.
pub open spec fn names_no_file(name: Seq<char>) -> bool {
    name.len() == 0 || name == "."@ || name == ".."@
}

/// The name of the file that is served for a request: the sanitized name, or
/// the default file where what is left of the name names no file.
pub open spec fn served_name(name: Seq<char>) -> Seq<char> {
    if names_no_file(sanitized(name)) {
        "hello_world.txt"@
    } else {
        sanitized(name)
    }
}

/// Takes out of a requested file name what would lead out of the directory
/// of the served files: every `..`, then every backslash, then every slash.
/// What is left holds no separator; dots that came to stand together only
/// when a separator between them was taken out are left as they are.
pub fn sanitize_filename(name: &str) -> (r: String)
    ensures
        r@ == sanitized(name@),
{
    proof {
        reveal_strlit("..");
        reveal_strlit("\\");
        reveal_strlit("/");
    }
    let without_dots: String = str_replace(name, "..", "");
    let without_backslashes: String = str_replace(without_dots.as_str(), "\\", "");
    str_replace(without_backslashes.as_str(), "/", "")
}

/// The name, inside the directory of the served files, of the file that a
/// request asks for. It names a file of that directory: never the directory
/// itself, its parent, or a path.
pub fn resolve_file_name(name: &str) -> (r: String)
    ensures
        r@ == served_name(name@),
        r@.len() > 0 && r@ != "."@ && r@ != ".."@,
        forall|i: int| 0 <= i < r@.len() ==> (#[trigger] r@[i]) != '/' && r@[i] != '\\',
{
    proof {
        lemma_served_name_is_a_file(name@);
    }
    let clean: String = sanitize_filename(name);
    if clean.as_str().is_empty() || str_eq(clean.as_str(), ".") || str_eq(clean.as_str(), "..") {
        "hello_world.txt".to_owned()
    } else {
        clean
    }
}

/// Removing every occurrence of one character leaves none of it.
pub proof fn lemma_replace_removes(s: Seq<char>, c: char)
    ensures
        forall|i: int|
            0 <= i < replace_all(s, seq![c], Seq::empty()).len() ==> #[trigger] replace_all(
                s,
                seq![c],
                Seq::empty(),
            )[i] != c,
    decreases s.len(),
{
    let from = seq![c];
    let none = Seq::<char>::empty();
    let r = replace_all(s, from, none);
    assert(from.len() == 1);
    if s.len() >= 1 {
        let rest = s.skip(1);
        let rr = replace_all(rest, from, none);
        lemma_replace_removes(rest, c);
        if s.subrange(0, 1) == from {
            assert(r =~= rr);
        } else {
            assert(r =~= seq![s[0]] + rr);
            if s[0] == c {
                assert(s.subrange(0, 1) =~= from);
            }
            assert forall|i: int| 0 <= i < r.len() implies #[trigger] r[i] != c by {
                if i > 0 {
                    assert(r[i] == rr[i - 1]);
                }
            }
        }
    } else {
        assert(r =~= s);
    }
}

/// Removing occurrences of a pattern brings in no character that the text
/// did not have.
pub proof fn lemma_replace_keeps_absent(s: Seq<char>, from: Seq<char>, c: char)
    requires
        forall|i: int| 0 <= i < s.len() ==> s[i] != c,
    ensures
        forall|i: int|
            0 <= i < replace_all(s, from, Seq::empty()).len() ==> #[trigger] replace_all(
                s,
                from,
                Seq::empty(),
            )[i] != c,
    decreases s.len(),
{
    let none = Seq::<char>::empty();
    let r = replace_all(s, from, none);
    if from.len() == 0 || s.len() < from.len() {
        assert(r =~= s);
    } else if s.subrange(0, from.len() as int) == from {
        let rest = s.skip(from.len() as int);
        assert forall|i: int| 0 <= i < rest.len() implies rest[i] != c by {
            assert(rest[i] == s[i + from.len()]);
        }
        lemma_replace_keeps_absent(rest, from, c);
        assert(r =~= replace_all(rest, from, none));
    } else {
        let rest = s.skip(1);
        let rr = replace_all(rest, from, none);
        assert forall|i: int| 0 <= i < rest.len() implies rest[i] != c by {
            assert(rest[i] == s[i + 1]);
        }
        lemma_replace_keeps_absent(rest, from, c);
        assert(r =~= seq![s[0]] + rr);
        assert forall|i: int| 0 <= i < r.len() implies #[trigger] r[i] != c by {
            if i > 0 {
                assert(r[i] == rr[i - 1]);
            }
        }
    }
}

/// A sanitized file name holds no slash and no backslash: it names a file of
/// the directory it is resolved in, not a path.
pub proof fn lemma_sanitized_is_no_path(name: Seq<char>)
    ensures
        forall|i: int|
            0 <= i < sanitized(name).len() ==> (#[trigger] sanitized(name)[i]) != '/' && sanitized(
                name,
            )[i] != '\\',
{
    reveal_strlit("\\");
    reveal_strlit("/");
    reveal_strlit("");
    let a = replace_all(name, ".."@, ""@);
    assert("\\"@ =~= seq!['\\']);
    assert("/"@ =~= seq!['/']);
    assert(""@ =~= Seq::<char>::empty());
    let b = replace_all(a, "\\"@, ""@);
    lemma_replace_removes(a, '\\');
    lemma_replace_removes(b, '/');
    lemma_replace_keeps_absent(b, "/"@, '\\');
}

/// The name that is served for a request holds no slash and no backslash and
/// is neither one dot nor two: resolved in the directory of the served files
/// it names a file of that directory, whatever the request asks for.
pub proof fn lemma_served_name_is_a_file(name: Seq<char>)
    ensures
        served_name(name).len() > 0,
        served_name(name) != "."@,
        served_name(name) != ".."@,
        forall|i: int|
            0 <= i < served_name(name).len() ==> (#[trigger] served_name(name)[i]) != '/'
                && served_name(name)[i] != '\\',
{
    lemma_sanitized_is_no_path(name);
    reveal_strlit("hello_world.txt");
    reveal_strlit(".");
    reveal_strlit("..");
    if names_no_file(sanitized(name)) {
        let d = "hello_world.txt"@;
        assert(d.len() == 15);
        assert(d[0] == 'h');
        assert forall|i: int| 0 <= i < d.len() implies (#[trigger] d[i]) != '/' && d[i] != '\\' by {
        }
    }
}

/// What was found where a requested file should be.
#[derive(Debug, Clone, Copy, PartialEq, Eq, Structural)]
pub enum FileProbe {
    /// No file, or none that can be read.
    Missing,
    /// A file of this many bytes.
    Found(u64),
}

/// What to do after looking for a requested file.
pub enum FileDecision {
    /// Read the file and send it.
    Read,
    /// Refuse with this answer.
    Reject(ErrorResponse),
}

/// The words of the answer for a file that is not there.
pub open spec fn not_found_text(path: Seq<char>) -> Seq<char> {
    "File not found: "@ + path
}

/// The words of the answer for a file that is too large to send.
pub open spec fn too_large_text(name: Seq<char>, size: u64) -> Seq<char> {
    "File too large: "@ + name + " ("@ + decimal_text(size as nat) + " bytes). Maximum size: "@
        + decimal_text(5242880) + " bytes. Use chunked transfer for larger files."@
}

/// The answer for a file that is not there or cannot be read.
pub fn file_not_found(path: &str) -> (r: ErrorResponse)
    ensures
        r@ == (ErrorView { error: not_found_text(path@), code: Some("FILE_NOT_FOUND"@) }),
{
    let mut text: String = "File not found: ".to_owned();
    text.append(path);
    ErrorResponse { error: text, code: Some("FILE_NOT_FOUND".to_owned()) }
}

/// The answer for a file of more than `MAX_FILE_SIZE` bytes.
pub fn file_too_large(name: &str, size: u64) -> (r: ErrorResponse)
    ensures
        r@ == (ErrorView { error: too_large_text(name@, size), code: Some("FILE_TOO_LARGE"@) }),
{
    let mut text: String = "File too large: ".to_owned();
    text.append(name);
    text.append(" (");
    text.append(decimal_string(size).as_str());
    text.append(" bytes). Maximum size: ");
    text.append(decimal_string(MAX_FILE_SIZE).as_str());
    text.append(" bytes. Use chunked transfer for larger files.");
    ErrorResponse { error: text, code: Some("FILE_TOO_LARGE".to_owned()) }
}

/// Decides, from what was found at `path`, whether the file that `name`
/// asked for is read: a missing file and one above the limit are refused.
pub fn after_probe(name: &str, path: &str, probe: FileProbe) -> (r: FileDecision)
    ensures
        match probe {
            FileProbe::Missing => r matches FileDecision::Reject(e) && e@ == (ErrorView {
                error: not_found_text(path@),
                code: Some("FILE_NOT_FOUND"@),
            }),
            FileProbe::Found(size) => if size > MAX_FILE_SIZE {
                r matches FileDecision::Reject(e) && e@ == (ErrorView {
                    error: too_large_text(name@, size),
                    code: Some("FILE_TOO_LARGE"@),
                })
            } else {
                r is Read
            },
        },
{
    match probe {
        FileProbe::Missing => FileDecision::Reject(file_not_found(path)),
        FileProbe::Found(size) => {
            if size > MAX_FILE_SIZE {
                FileDecision::Reject(file_too_large(name, size))
            } else {
                FileDecision::Read
            }
        },
    }
}

/// The answer to a file request once the file was read, or could not be.
pub fn after_read(name: &str, path: &str, data: Option<Vec<u8>>) -> (r: Result<
    FileResponse,
    ErrorResponse,
>)
    ensures
        match data {
            Some(bytes) => r matches Ok(resp) && resp@ == (FileResponseView {
                data: bytes@,
                filename: name@,
                size: bytes@.len() as usize,
            }),
            None => r matches Err(e) && e@ == (ErrorView {
                error: not_found_text(path@),
                code: Some("FILE_NOT_FOUND"@),
            }),
        },
{
    match data {
        Some(bytes) => {
            let size: usize = bytes.len();
            Ok(FileResponse { data: bytes, filename: name.to_owned(), size })
        },
        None => Err(file_not_found(path)),
    }
}

/// Where an AI query is handled.
#[derive(Debug, Clone, Copy, PartialEq, Eq, Structural)]
pub enum AiRoute {
    /// By the processor of this node.
    Local,
    /// By a node that the work distribution picks.
    Delegate,
    /// Nowhere.
    Unavailable,
}

/// Chooses where an AI query is tried first: here if this node has a
/// processor, else at another node if work can be handed out, else nowhere.
/// What follows a failure here is decided by `after_local`.
pub fn route_ai(has_processor: bool, has_work_distribution: bool) -> (r: AiRoute)
    ensures
        r == if has_processor {
            AiRoute::Local
        } else if has_work_distribution {
            AiRoute::Delegate
        } else {
            AiRoute::Unavailable
        },
{
    if has_processor {
        AiRoute::Local
    } else if has_work_distribution {
        AiRoute::Delegate
    } else {
        AiRoute::Unavailable
    }
}

/// The answer to an AI query after the attempt to hand it to another node:
/// the response of that node as it came, or the refusal that no AI is
/// available where the attempt failed.
pub fn after_delegation(result: Result<AiResponse, String>) -> (r: Result<AiResponse, ErrorResponse>)
    ensures
        match result {
            Ok(resp) => r == Ok::<AiResponse, ErrorResponse>(resp),
            Err(_) => r matches Err(e) && e@ == (ErrorView {
                error: "AI processing not available"@,
                code: Some("AI_UNAVAILABLE"@),
            }),
        },
{
    match result {
        Ok(resp) => Ok(resp),
        Err(_) => Err(ai_unavailable()),
    }
}

/// What follows the attempt of this node's processor on an AI query.
pub enum LocalStep {
    /// The processor answered: this response is sent.
    Answer(AiResponse),
    /// The processor failed: the query is handed to another node.
    Delegate,
    /// The processor failed and no work can be handed out: the query is
    /// refused with this answer.
    Reject(ErrorResponse),
}

/// Decides what follows the attempt of this node's processor: its answer is
/// sent with its metadata; where it failed, the query goes to another node
/// if work can be handed out, and else is refused as unavailable. A failure
/// is never sent as an answer.
pub fn after_local(
    result: Result<(String, ResponseMetadata), String>,
    has_work_distribution: bool,
) -> (r: LocalStep)
    ensures
        match result {
            Ok((answer, metadata)) => r == LocalStep::Answer(
                AiResponse { answer, metadata: Some(metadata) },
            ),
            Err(_) => if has_work_distribution {
                r is Delegate
            } else {
                r matches LocalStep::Reject(e) && e@ == (ErrorView {
                    error: "AI processing not available"@,
                    code: Some("AI_UNAVAILABLE"@),
                })
            },
        },
{
    match result {
        Ok((answer, metadata)) => LocalStep::Answer(AiResponse { answer, metadata: Some(metadata) }),
        Err(_) => {
            if has_work_distribution {
                LocalStep::Delegate
            } else {
                LocalStep::Reject(ai_unavailable())
            }
        },
    }
}

} // verus!

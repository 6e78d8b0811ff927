//! The messages that clients and the tracker exchange, one request and one
//! response on each stream.

use vstd::prelude::*;

verus! {

/// One earlier message of a conversation.
#[derive(Debug, Clone, PartialEq, Eq)]
pub struct MessageContext {
    /// Who spoke: `user`, `assistant` or `system`.
    pub role: String,
    /// What was said.
    pub content: String,
}

/// The answer to an AI query.
#[derive(Debug, Clone, PartialEq, Eq)]
pub struct AiResponse {
    /// The generated answer.
    pub answer: String,
    /// How the answer was produced.
    pub metadata: Option<ResponseMetadata>,
}

/// How an answer was produced.
#[derive(Debug, Clone, PartialEq, Eq)]
pub struct ResponseMetadata {
    /// Tokens read.
    pub input_tokens: Option<usize>,
    /// Tokens written.
    pub output_tokens: Option<usize>,
    /// Tokens in all.
    pub total_tokens: Option<usize>,
    /// Time taken, in milliseconds.
    pub processing_time_ms: Option<u64>,
}

/// A failure reported to the peer in place of a response.
#[derive(Debug, Clone, PartialEq, Eq)]
pub struct ErrorResponse {
    /// What went wrong, in words.
    pub error: String,
    /// A short code for the kind of failure.
    pub code: Option<String>,
}

/// A peer's announce to the tracker.
#[derive(Debug, Clone, PartialEq, Eq)]
pub struct TrackerAnnounceRequest {
    pub info_hash: String,
    pub peer_id: String,
    pub port: u16,
    pub uploaded: Option<u64>,
    pub downloaded: Option<u64>,
    pub left: Option<u64>,
    pub event: Option<String>,
    pub ip: Option<String>,
}

/// The tracker's answer to an announce.
#[derive(Debug, Clone, PartialEq, Eq)]
pub struct TrackerAnnounceResponse {
    /// Seconds after which the peer should announce again.
    pub interval: u64,
    /// The other peers of the swarm.
    pub peers: Vec<PeerInfo>,
    /// How many of them have the whole file.
    pub complete: u64,
    /// How many of them still miss a part.
    pub incomplete: u64,
}

/// Where a peer can be reached.
#[derive(Debug, Clone, PartialEq, Eq)]
pub struct PeerInfo {
    pub ip: String,
    pub port: u16,
}

/// A request for a file.
#[derive(Debug, Clone, PartialEq, Eq)]
pub struct FileRequest {
    pub file: String,
}

/// A file sent in answer to a request.
#[derive(Debug, Clone, PartialEq, Eq)]
pub struct FileResponse {
    pub data: Vec<u8>,
    pub filename: String,
    pub size: usize,
}

/// An announce as a mathematical value.
pub struct AnnounceRequestView {
    pub info_hash: Seq<char>,
    pub peer_id: Seq<char>,
    pub port: u16,
    pub uploaded: Option<u64>,
    pub downloaded: Option<u64>,
    pub left: Option<u64>,
    pub event: Option<Seq<char>>,
    pub ip: Option<Seq<char>>,
}

/// The answer to an announce as a mathematical value; a peer is its address
/// and its port.
pub struct AnnounceResponseView {
    pub interval: u64,
    pub peers: Seq<(Seq<char>, u16)>,
    pub complete: u64,
    pub incomplete: u64,
}

/// The text of an optional string.
pub open spec fn option_text(s: Option<String>) -> Option<Seq<char>> {
    match s {
        Some(t) => Some(t@),
        None => None,
    }
}

impl View for TrackerAnnounceRequest {
    type V = AnnounceRequestView;

    open spec fn view(&self) -> AnnounceRequestView {
        AnnounceRequestView {
            info_hash: self.info_hash@,
            peer_id: self.peer_id@,
            port: self.port,
            uploaded: self.uploaded,
            downloaded: self.downloaded,
            left: self.left,
            event: option_text(self.event),
            ip: option_text(self.ip),
        }
    }
}

impl View for PeerInfo {
    type V = (Seq<char>, u16);

    open spec fn view(&self) -> (Seq<char>, u16) {
        (self.ip@, self.port)
    }
}

impl View for TrackerAnnounceResponse {
    type V = AnnounceResponseView;

    open spec fn view(&self) -> AnnounceResponseView {
        AnnounceResponseView {
            interval: self.interval,
            peers: Seq::new(self.peers@.len(), |i: int| self.peers@[i]@),
            complete: self.complete,
            incomplete: self.incomplete,
        }
    }
}

/// A failure as a mathematical value: its words and its code.
pub struct ErrorView {
    pub error: Seq<char>,
    pub code: Option<Seq<char>>,
}

impl View for ErrorResponse {
    type V = ErrorView;

    open spec fn view(&self) -> ErrorView {
        ErrorView { error: self.error@, code: option_text(self.code) }
    }
}

/// A file response as a mathematical value.
pub struct FileResponseView {
    pub data: Seq<u8>,
    pub filename: Seq<char>,
    pub size: usize,
}

impl View for FileResponse {
    type V = FileResponseView;

    open spec fn view(&self) -> FileResponseView {
        FileResponseView { data: self.data@, filename: self.filename@, size: self.size }
    }
}

impl ErrorResponse {
    /// A failure with the given words and code.
    pub fn with_code(error: &str, code: &str) -> (r: ErrorResponse)
        ensures
            r@ == (ErrorView { error: error@, code: Some(code@) }),
    {
        ErrorResponse { error: error.to_owned(), code: Some(code.to_owned()) }
    }
}

} // verus!

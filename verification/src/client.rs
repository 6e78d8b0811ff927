//! The client's view of a torrent: the descriptor that is read from the bytes
//! of a torrent file, and the requests that a download makes.

use vstd::prelude::*;
use vstd::slice::{slice_subrange, slice_to_vec};
use vstd::string::StringExecFns;
use vstd::utf8::{decode_utf8, encode_utf8, valid_utf8};
use crate::bencode::{decode_bencode, BencodeDict, BencodeValue};
use crate::dict_laws::lemma_insert_commutes;
use crate::digest::{hex_encode, hex_lower, sha1_digest, sha1_of};
use crate::messages::{
    AnnounceRequestView, FileRequest, TrackerAnnounceRequest, TrackerAnnounceResponse,
};
use crate::term::{decode_term, dict_insert, dict_lookup, encode_term, keys_sorted, BencodeTerm};
use crate::text::{decimal_string, decimal_text, utf8_text};
use crate::messages::PeerInfo as WirePeerInfo;

verus! {

/// The number of bytes of the hash of one piece.
pub const PIECE_HASH_SIZE: usize = 20;

/// What a torrent file says of a torrent.
#[derive(Debug, Clone, PartialEq, Eq)]
pub struct TorrentFile {
    /// The address of the tracker.
    pub announce: String,
    /// The identity of the torrent: the digest of its info dictionary, in
    /// hexadecimal.
    pub info_hash: String,
    /// The number of bytes of a piece.
    pub piece_length: usize,
    /// The hash of each piece.
    pub pieces: Vec<Vec<u8>>,
    /// The number of bytes of the file.
    pub length: usize,
    /// The name of the file.
    pub name: String,
}

/// A torrent descriptor as a mathematical value.
pub struct TorrentView {
    pub announce: Seq<char>,
    pub info_hash: Seq<char>,
    pub piece_length: usize,
    pub pieces: Seq<Seq<u8>>,
    pub length: usize,
    pub name: Seq<char>,
}

impl View for TorrentFile {
    type V = TorrentView;

    open spec fn view(&self) -> TorrentView {
        TorrentView {
            announce: self.announce@,
            info_hash: self.info_hash@,
            piece_length: self.piece_length,
            pieces: Seq::new(self.pieces@.len(), |i: int| self.pieces@[i]@),
            length: self.length,
            name: self.name@,
        }
    }
}

/// Where a peer can be reached.
#[derive(Debug, Clone, PartialEq, Eq)]
pub struct PeerInfo {
    pub ip: String,
    pub port: u16,
}

impl View for PeerInfo {
    type V = (Seq<char>, u16);

    open spec fn view(&self) -> (Seq<char>, u16) {
        (self.ip@, self.port)
    }
}

/// The parts of a torrent file that a descriptor is made from.
#[derive(Debug, Clone, Copy, PartialEq, Eq, Structural)]
pub enum TorrentField {
    /// The file as a whole, a dictionary.
    Torrent,
    /// `announce`, a text.
    Announce,
    /// `info`, a dictionary.
    Info,
    /// `name` in `info`, a text.
    Name,
    /// `length` in `info`, an integer that is not negative.
    Length,
    /// `piece length` in `info`, an integer above zero.
    PieceLength,
    /// `pieces` in `info`, a byte string.
    Pieces,
}

/// Why no descriptor was made from the bytes of a torrent file.
#[derive(Debug, Clone, Copy, PartialEq, Eq, Structural)]
pub enum TorrentError {
    /// The bytes are not well-formed bencode.
    MalformedEncoding,
    /// The part is not there.
    MissingField(TorrentField),
    /// The part is there but is not of its type: not a dictionary, not a
    /// text in UTF-8, or not an integer in the range that the part allows
    /// and the machine can hold.
    TypeMismatch(TorrentField),
}

/// The text that a dictionary has under `key`.
pub open spec fn text_field(
    d: Seq<(Seq<u8>, BencodeTerm)>,
    key: Seq<char>,
    field: TorrentField,
) -> Result<Seq<char>, TorrentError> {
    match dict_lookup(d, encode_utf8(key)) {
        None => Err(TorrentError::MissingField(field)),
        Some(BencodeTerm::String(s)) => if valid_utf8(s) {
            Ok(decode_utf8(s))
        } else {
            Err(TorrentError::TypeMismatch(field))
        },
        Some(_) => Err(TorrentError::TypeMismatch(field)),
    }
}

/// The integer of at least `least` that a dictionary has under `key`.
pub open spec fn size_field(
    d: Seq<(Seq<u8>, BencodeTerm)>,
    key: Seq<char>,
    field: TorrentField,
    least: int,
) -> Result<usize, TorrentError> {
    match dict_lookup(d, encode_utf8(key)) {
        None => Err(TorrentError::MissingField(field)),
        Some(BencodeTerm::Int(i)) => if least <= i <= usize::MAX {
            Ok(i as usize)
        } else {
            Err(TorrentError::TypeMismatch(field))
        },
        Some(_) => Err(TorrentError::TypeMismatch(field)),
    }
}

/// The hashes that a string of concatenated piece hashes holds: each run of
/// twenty bytes in turn. Bytes behind the last whole run are dropped.
pub open spec fn piece_hashes(s: Seq<u8>) -> Seq<Seq<u8>> {
    Seq::new(s.len() / 20, |i: int| s.subrange(20 * i, 20 * i + 20))
}

/// The piece hashes that a dictionary has under `pieces`.
pub open spec fn pieces_field(d: Seq<(Seq<u8>, BencodeTerm)>) -> Result<Seq<Seq<u8>>, TorrentError> {
    match dict_lookup(d, encode_utf8("pieces"@)) {
        None => Err(TorrentError::MissingField(TorrentField::Pieces)),
        Some(BencodeTerm::String(s)) => Ok(piece_hashes(s)),
        Some(_) => Err(TorrentError::TypeMismatch(TorrentField::Pieces)),
    }
}

/// The info hash of an info dictionary: the SHA-1 digest of its encoding, in
/// hexadecimal.
pub open spec fn info_hash_of(info: BencodeTerm) -> Seq<char> {
    hex_lower(sha1_of(encode_term(info)))
}

/// The descriptor that an announce address and an info dictionary give. The
/// parts are looked at in the order name, length, piece length, pieces, and
/// the first that fails decides the error.
pub open spec fn torrent_of_info(announce: Seq<char>, info: Seq<(Seq<u8>, BencodeTerm)>) -> Result<
    TorrentView,
    TorrentError,
> {
    match text_field(info, "name"@, TorrentField::Name) {
        Err(e) => Err(e),
        Ok(name) => match size_field(info, "length"@, TorrentField::Length, 0) {
            Err(e) => Err(e),
            Ok(length) => match size_field(info, "piece length"@, TorrentField::PieceLength, 1) {
                Err(e) => Err(e),
                Ok(piece_length) => match pieces_field(info) {
                    Err(e) => Err(e),
                    Ok(pieces) => Ok(
                        TorrentView {
                            announce,
                            info_hash: info_hash_of(BencodeTerm::Dict(info)),
                            piece_length,
                            pieces,
                            length,
                            name,
                        },
                    ),
                },
            },
        },
    }
}

/// The descriptor that the bytes of a torrent file give: the bytes decode to
/// a dictionary with the text `announce` and the dictionary `info`, and
/// `info` holds the rest.
pub open spec fn torrent_of(data: Seq<u8>) -> Result<TorrentView, TorrentError> {
    match decode_term(data) {
        None => Err(TorrentError::MalformedEncoding),
        Some((BencodeTerm::Dict(top), _)) => match text_field(
            top,
            "announce"@,
            TorrentField::Announce,
        ) {
            Err(e) => Err(e),
            Ok(announce) => match dict_lookup(top, encode_utf8("info"@)) {
                None => Err(TorrentError::MissingField(TorrentField::Info)),
                Some(BencodeTerm::Dict(info)) => torrent_of_info(announce, info),
                Some(_) => Err(TorrentError::TypeMismatch(TorrentField::Info)),
            },
        },
        Some(_) => Err(TorrentError::TypeMismatch(TorrentField::Torrent)),
    }
}

/// Reads the text under `key`.
fn read_text(d: &BencodeDict, key: &str, field: TorrentField) -> (r: Result<String, TorrentError>)
    ensures
        match text_field(d@, key@, field) {
            Ok(t) => r matches Ok(s) && s@ == t,
            Err(e) => r == Err::<String, TorrentError>(e),
        },
{
    match d.get(key.as_bytes()) {
        None => Err(TorrentError::MissingField(field)),
        Some(BencodeValue::String(s)) => match utf8_text(s.as_slice()) {
            Some(text) => Ok(text),
            None => Err(TorrentError::TypeMismatch(field)),
        },
        Some(_) => Err(TorrentError::TypeMismatch(field)),
    }
}

/// Reads the integer of at least `least` under `key`.
fn read_size(d: &BencodeDict, key: &str, field: TorrentField, least: i64) -> (r: Result<
    usize,
    TorrentError,
>)
    requires
        least >= 0,
    ensures
        r == size_field(d@, key@, field, least as int),
{
    match d.get(key.as_bytes()) {
        None => Err(TorrentError::MissingField(field)),
        Some(BencodeValue::Int(i)) => {
            if *i >= least && (*i as u64) <= (usize::MAX as u64) {
                Ok(*i as usize)
            } else {
                Err(TorrentError::TypeMismatch(field))
            }
        },
        Some(_) => Err(TorrentError::TypeMismatch(field)),
    }
}

/// Cuts a string of concatenated piece hashes into the hashes.
pub fn split_pieces(s: &[u8]) -> (r: Vec<Vec<u8>>)
    ensures
        r@.len() == piece_hashes(s@).len(),
        forall|i: int| 0 <= i < r@.len() ==> (#[trigger] r@[i])@ == piece_hashes(s@)[i],
{
    let mut pieces: Vec<Vec<u8>> = Vec::new();
    let count: usize = s.len() / PIECE_HASH_SIZE;
    let mut i: usize = 0;
    let mut start: usize = 0;
    while i < count
        invariant
            0 <= i <= count,
            count == s@.len() / 20,
            count * 20 <= s@.len() <= usize::MAX,
            start == 20 * i,
            PIECE_HASH_SIZE == 20,
            pieces@.len() == i,
            forall|j: int| 0 <= j < i ==> (#[trigger] pieces@[j])@ == s@.subrange(20 * j, 20 * j + 20),
        decreases count - i,
    {
        pieces.push(slice_to_vec(slice_subrange(s, start, start + PIECE_HASH_SIZE)));
        start += PIECE_HASH_SIZE;
        i += 1;
    }
    pieces
}

/// The info hash of an info dictionary: the digest of its encoding, in
/// hexadecimal. It depends on what the dictionary holds, not on how it was
/// built.
pub fn info_hash(info: &BencodeValue) -> (r: String)
    ensures
        r@ == info_hash_of(info@),
        r@.len() == 40,
{
    let encoded: Vec<u8> = info.encode();
    let digest: Vec<u8> = sha1_digest(encoded.as_slice());
    hex_encode(digest.as_slice())
}

/// An info dictionary gives one info hash whatever the order in which its
/// entries were inserted.
pub proof fn lemma_info_hash_order(
    es: Seq<(Seq<u8>, BencodeTerm)>,
    k1: Seq<u8>,
    v1: BencodeTerm,
    k2: Seq<u8>,
    v2: BencodeTerm,
)
    requires
        keys_sorted(es),
        k1 != k2,
    ensures
        info_hash_of(BencodeTerm::Dict(dict_insert(dict_insert(es, k1, v1), k2, v2)))
            == info_hash_of(BencodeTerm::Dict(dict_insert(dict_insert(es, k2, v2), k1, v1))),
{
    lemma_insert_commutes(es, k1, v1, k2, v2);
}

impl TorrentFile {
    /// Makes the descriptor from the bytes of a torrent file.
    ///
    /// Fails with `MalformedEncoding` where the bytes are not bencode, with
    /// `MissingField` where a part is not there, and with `TypeMismatch`
    /// where a part is not of its type. The parts are looked at in the
    /// order announce, info, name, length, piece length, pieces.
    pub fn from_bytes(data: &[u8]) -> (r: Result<TorrentFile, TorrentError>)
        ensures
            match torrent_of(data@) {
                Ok(t) => r matches Ok(f) && f@ == t,
                Err(e) => r == Err::<TorrentFile, TorrentError>(e),
            },
    {
        let top: BencodeDict = match decode_bencode(data) {
            Err(_) => {
                return Err(TorrentError::MalformedEncoding);
            },
            Ok((BencodeValue::Dict(d), _)) => d,
            Ok(_) => {
                return Err(TorrentError::TypeMismatch(TorrentField::Torrent));
            },
        };
        let announce: String = match read_text(&top, "announce", TorrentField::Announce) {
            Ok(s) => s,
            Err(e) => {
                return Err(e);
            },
        };
        let info_value: &BencodeValue = match top.get("info".as_bytes()) {
            None => {
                return Err(TorrentError::MissingField(TorrentField::Info));
            },
            Some(v) => v,
        };
        let info: &BencodeDict = match info_value {
            BencodeValue::Dict(d) => d,
            _ => {
                return Err(TorrentError::TypeMismatch(TorrentField::Info));
            },
        };
        let hash: String = info_hash(info_value);
        let name: String = match read_text(info, "name", TorrentField::Name) {
            Ok(s) => s,
            Err(e) => {
                return Err(e);
            },
        };
        let length: usize = match read_size(info, "length", TorrentField::Length, 0) {
            Ok(n) => n,
            Err(e) => {
                return Err(e);
            },
        };
        let piece_length: usize = match read_size(info, "piece length", TorrentField::PieceLength, 1) {
            Ok(n) => n,
            Err(e) => {
                return Err(e);
            },
        };
        let pieces: Vec<Vec<u8>> = match info.get("pieces".as_bytes()) {
            None => {
                return Err(TorrentError::MissingField(TorrentField::Pieces));
            },
            Some(BencodeValue::String(s)) => split_pieces(s.as_slice()),
            Some(_) => {
                return Err(TorrentError::TypeMismatch(TorrentField::Pieces));
            },
        };
        let file = TorrentFile { announce, info_hash: hash, piece_length, pieces, length, name };
        assert(file@.pieces =~= piece_hashes(
            dict_lookup(info@, encode_utf8("pieces"@))->0->String_0,
        ));
        Ok(file)
    }
}

/// The port on which a downloading peer says that it listens.
pub const DEFAULT_PEER_PORT: u16 = 6881;

/// The port of the tracker where none is given.
pub const DEFAULT_TRACKER_PORT: u16 = 7001;

/// The announce with which a peer enters a swarm: the event is `started`,
/// and no address is given, so that the tracker takes its default.
pub fn announce_request(
    info_hash: &str,
    peer_id: &str,
    peer_port: u16,
    uploaded: u64,
    downloaded: u64,
    left: u64,
) -> (r: TrackerAnnounceRequest)
    ensures
        r@ == (AnnounceRequestView {
            info_hash: info_hash@,
            peer_id: peer_id@,
            port: peer_port,
            uploaded: Some(uploaded),
            downloaded: Some(downloaded),
            left: Some(left),
            event: Some("started"@),
            ip: None,
        }),
{
    TrackerAnnounceRequest {
        info_hash: info_hash.to_owned(),
        peer_id: peer_id.to_owned(),
        port: peer_port,
        uploaded: Some(uploaded),
        downloaded: Some(downloaded),
        left: Some(left),
        event: Some("started".to_owned()),
        ip: None,
    }
}

/// The announce with which a download of `torrent` starts: nothing is
/// uploaded or downloaded yet, and the whole file is left.
pub fn first_announce(torrent: &TorrentFile, peer_id: &str) -> (r: TrackerAnnounceRequest)
    ensures
        r@ == (AnnounceRequestView {
            info_hash: torrent@.info_hash,
            peer_id: peer_id@,
            port: 6881,
            uploaded: Some(0),
            downloaded: Some(0),
            left: Some(torrent@.length as u64),
            event: Some("started"@),
            ip: None,
        }),
{
    announce_request(
        torrent.info_hash.as_str(),
        peer_id,
        DEFAULT_PEER_PORT,
        0,
        0,
        torrent.length as u64,
    )
}

/// The peers that the answer to an announce lists, in its order.
pub fn peers_of_response(response: &TrackerAnnounceResponse) -> (r: Vec<PeerInfo>)
    ensures
        r@.len() == response@.peers.len(),
        forall|i: int| 0 <= i < r@.len() ==> (#[trigger] r@[i])@ == response@.peers[i],
{
    let mut peers: Vec<PeerInfo> = Vec::new();
    let mut i: usize = 0;
    while i < response.peers.len()
        invariant
            0 <= i <= response.peers.len(),
            peers@.len() == i,
            forall|j: int| 0 <= j < i ==> (#[trigger] peers@[j])@ == response.peers@[j]@,
        decreases response.peers.len() - i,
    {
        let p: &WirePeerInfo = &response.peers[i];
        peers.push(PeerInfo { ip: p.ip.clone(), port: p.port });
        i += 1;
    }
    peers
}

/// The request for the file `filename`.
pub fn file_request(filename: &str) -> (r: FileRequest)
    ensures
        r.file@ == filename@,
{
    FileRequest { file: filename.to_owned() }
}

/// The identifier of a peer with the number `n`: the client's tag and the
/// number in decimal.
pub open spec fn peer_id_text(n: u64) -> Seq<char> {
    "-ST0001-"@ + decimal_text(n as nat)
}

/// The identifier of a peer with the number `n`.
pub fn peer_id_for(n: u64) -> (r: String)
    ensures
        r@ == peer_id_text(n),
{
    let mut id: String = "-ST0001-".to_owned();
    id.append(decimal_string(n).as_str());
    id
}

/// Calls `rand::random` for a `u64`. Nothing is claimed of the number.
#[verifier::external_body]
fn random_u64() -> (r: u64) {
    rand::random::<u64>()
}

/// A fresh identifier for a peer, with a random number.
pub fn new_peer_id() -> (r: String)
    ensures
        exists|n: u64| r@ == #[trigger] peer_id_text(n),
{
    let n: u64 = random_u64();
    let id = peer_id_for(n);
    assert(id@ == peer_id_text(n));
    id
}

} // verus!

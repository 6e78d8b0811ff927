use quic_torrent_client_server::client::{
    announce_request, file_request, first_announce, info_hash, new_peer_id, peer_id_for,
    peers_of_response, split_pieces, PeerInfo, TorrentError, TorrentField, TorrentFile,
};
use quic_torrent_client_server::messages::{PeerInfo as WirePeer, TrackerAnnounceResponse};
use quic_torrent_client_server::{BencodeDict, BencodeValue};

fn pieces_of(n: u8) -> Vec<u8> {
    (0..n).collect()
}

fn info_dict(pieces: Vec<u8>) -> BencodeDict {
    let mut info = BencodeDict::new();
    info.insert(b"name".to_vec(), BencodeValue::String(b"hello.txt".to_vec()));
    info.insert(b"length".to_vec(), BencodeValue::Int(12345));
    info.insert(b"piece length".to_vec(), BencodeValue::Int(16384));
    info.insert(b"pieces".to_vec(), BencodeValue::String(pieces));
    info
}

fn torrent_bytes(info: BencodeDict) -> Vec<u8> {
    let mut top = BencodeDict::new();
    top.insert(b"announce".to_vec(), BencodeValue::String(b"quic://127.0.0.1:7001".to_vec()));
    top.insert(b"info".to_vec(), BencodeValue::Dict(info));
    BencodeValue::Dict(top).encode()
}

fn with_top(key: &[u8], value: Option<BencodeValue>) -> Vec<u8> {
    let mut top = BencodeDict::new();
    top.insert(b"announce".to_vec(), BencodeValue::String(b"quic://t".to_vec()));
    top.insert(b"info".to_vec(), BencodeValue::Dict(info_dict(pieces_of(20))));
    let mut out = BencodeDict::new();
    for i in 0..top.len() {
        if top.key_at(i).as_slice() != key {
            let copy = quic_torrent_client_server::decode_bencode(&top.value_at(i).encode())
                .unwrap()
                .0;
            out.insert(top.key_at(i).clone(), copy);
        }
    }
    if let Some(v) = value {
        out.insert(key.to_vec(), v);
    }
    BencodeValue::Dict(out).encode()
}

fn with_info(key: &[u8], value: Option<BencodeValue>) -> Vec<u8> {
    let base = info_dict(pieces_of(20));
    let mut info = BencodeDict::new();
    for i in 0..base.len() {
        if base.key_at(i).as_slice() != key {
            let copy = quic_torrent_client_server::decode_bencode(&base.value_at(i).encode())
                .unwrap()
                .0;
            info.insert(base.key_at(i).clone(), copy);
        }
    }
    if let Some(v) = value {
        info.insert(key.to_vec(), v);
    }
    torrent_bytes(info)
}

#[test]
fn descriptor_is_read_from_torrent_bytes() {
    let bytes = torrent_bytes(info_dict(pieces_of(40)));
    assert_eq!(bytes.len(), 149);
    let t = TorrentFile::from_bytes(&bytes).unwrap();
    assert_eq!(t.announce, "quic://127.0.0.1:7001");
    assert_eq!(t.name, "hello.txt");
    assert_eq!(t.length, 12345);
    assert_eq!(t.piece_length, 16384);
    assert_eq!(t.pieces, vec![(0u8..20).collect::<Vec<u8>>(), (20u8..40).collect::<Vec<u8>>()]);
    assert_eq!(t.info_hash, "657f2b34a89655b4197cd768252c8c03a295d82f");
}

#[test]
fn info_hash_is_the_sha1_of_the_canonical_encoding_in_lower_case_hex() {
    let mut d = BencodeDict::new();
    d.insert(b"name".to_vec(), BencodeValue::String(b"a".to_vec()));
    let h = info_hash(&BencodeValue::Dict(d));
    assert_eq!(h, "9e3f71178c577dcb032d2d7dfbb436d21769d456");
    assert_eq!(h.len(), 40);
}

#[test]
fn info_hash_does_not_depend_on_the_order_of_inserts() {
    let mut a = BencodeDict::new();
    a.insert(b"name".to_vec(), BencodeValue::String(b"f".to_vec()));
    a.insert(b"length".to_vec(), BencodeValue::Int(7));
    a.insert(b"pieces".to_vec(), BencodeValue::String(Vec::new()));
    let mut b = BencodeDict::new();
    b.insert(b"pieces".to_vec(), BencodeValue::String(Vec::new()));
    b.insert(b"length".to_vec(), BencodeValue::Int(7));
    b.insert(b"name".to_vec(), BencodeValue::String(b"f".to_vec()));
    assert_eq!(info_hash(&BencodeValue::Dict(a)), info_hash(&BencodeValue::Dict(b)));
}

#[test]
fn info_hash_is_recomputed_from_the_decoded_dictionary() {
    let unordered = b"d8:announce1:t4:infod4:name1:a6:lengthi1e12:piece lengthi1e6:pieces0:ee";
    let t = TorrentFile::from_bytes(unordered).unwrap();
    let ordered = b"d8:announce1:t4:infod6:lengthi1e4:name1:a12:piece lengthi1e6:pieces0:ee";
    let u = TorrentFile::from_bytes(ordered).unwrap();
    assert_eq!(t.info_hash, u.info_hash);
    assert_eq!(t, u);
}

#[test]
fn a_trailing_partial_piece_hash_is_dropped() {
    let t = TorrentFile::from_bytes(&torrent_bytes(info_dict(pieces_of(45)))).unwrap();
    assert_eq!(t.pieces.len(), 2);
    let t = TorrentFile::from_bytes(&torrent_bytes(info_dict(pieces_of(19)))).unwrap();
    assert_eq!(t.pieces.len(), 0);
    assert_eq!(split_pieces(&pieces_of(60)).len(), 3);
    assert_eq!(split_pieces(&pieces_of(60))[2], (40u8..60).collect::<Vec<u8>>());
}

#[test]
fn bytes_that_are_not_bencode_are_malformed() {
    assert_eq!(TorrentFile::from_bytes(b""), Err(TorrentError::MalformedEncoding));
    assert_eq!(TorrentFile::from_bytes(b"d8:announce"), Err(TorrentError::MalformedEncoding));
    assert_eq!(TorrentFile::from_bytes(b"hello"), Err(TorrentError::MalformedEncoding));
}

#[test]
fn a_torrent_that_is_no_dictionary_is_a_type_mismatch() {
    assert_eq!(
        TorrentFile::from_bytes(b"i5e"),
        Err(TorrentError::TypeMismatch(TorrentField::Torrent))
    );
    assert_eq!(
        TorrentFile::from_bytes(b"4:spam"),
        Err(TorrentError::TypeMismatch(TorrentField::Torrent))
    );
}

#[test]
fn missing_parts_are_reported_by_name() {
    assert_eq!(
        TorrentFile::from_bytes(&with_top(b"announce", None)),
        Err(TorrentError::MissingField(TorrentField::Announce))
    );
    assert_eq!(
        TorrentFile::from_bytes(&with_top(b"info", None)),
        Err(TorrentError::MissingField(TorrentField::Info))
    );
    assert_eq!(
        TorrentFile::from_bytes(&with_info(b"name", None)),
        Err(TorrentError::MissingField(TorrentField::Name))
    );
    assert_eq!(
        TorrentFile::from_bytes(&with_info(b"length", None)),
        Err(TorrentError::MissingField(TorrentField::Length))
    );
    assert_eq!(
        TorrentFile::from_bytes(&with_info(b"piece length", None)),
        Err(TorrentError::MissingField(TorrentField::PieceLength))
    );
    assert_eq!(
        TorrentFile::from_bytes(&with_info(b"pieces", None)),
        Err(TorrentError::MissingField(TorrentField::Pieces))
    );
    assert_eq!(
        TorrentFile::from_bytes(b"de"),
        Err(TorrentError::MissingField(TorrentField::Announce))
    );
}

#[test]
fn parts_of_the_wrong_type_are_reported_by_name() {
    assert_eq!(
        TorrentFile::from_bytes(&with_top(b"announce", Some(BencodeValue::Int(1)))),
        Err(TorrentError::TypeMismatch(TorrentField::Announce))
    );
    assert_eq!(
        TorrentFile::from_bytes(&with_top(b"announce", Some(BencodeValue::String(vec![0xff, 0xfe])))),
        Err(TorrentError::TypeMismatch(TorrentField::Announce))
    );
    assert_eq!(
        TorrentFile::from_bytes(&with_top(b"info", Some(BencodeValue::String(b"x".to_vec())))),
        Err(TorrentError::TypeMismatch(TorrentField::Info))
    );
    assert_eq!(
        TorrentFile::from_bytes(&with_info(b"name", Some(BencodeValue::Int(3)))),
        Err(TorrentError::TypeMismatch(TorrentField::Name))
    );
    assert_eq!(
        TorrentFile::from_bytes(&with_info(b"name", Some(BencodeValue::String(vec![0xc3, 0x28])))),
        Err(TorrentError::TypeMismatch(TorrentField::Name))
    );
    assert_eq!(
        TorrentFile::from_bytes(&with_info(b"length", Some(BencodeValue::String(b"9".to_vec())))),
        Err(TorrentError::TypeMismatch(TorrentField::Length))
    );
    assert_eq!(
        TorrentFile::from_bytes(&with_info(b"piece length", Some(BencodeValue::Dict(BencodeDict::new())))),
        Err(TorrentError::TypeMismatch(TorrentField::PieceLength))
    );
    assert_eq!(
        TorrentFile::from_bytes(&with_info(b"pieces", Some(BencodeValue::Int(0)))),
        Err(TorrentError::TypeMismatch(TorrentField::Pieces))
    );
}

#[test]
fn sizes_out_of_range_are_refused() {
    assert_eq!(
        TorrentFile::from_bytes(&with_info(b"length", Some(BencodeValue::Int(-1)))),
        Err(TorrentError::TypeMismatch(TorrentField::Length))
    );
    assert_eq!(
        TorrentFile::from_bytes(&with_info(b"piece length", Some(BencodeValue::Int(0)))),
        Err(TorrentError::TypeMismatch(TorrentField::PieceLength))
    );
    assert_eq!(
        TorrentFile::from_bytes(&with_info(b"piece length", Some(BencodeValue::Int(-16384)))),
        Err(TorrentError::TypeMismatch(TorrentField::PieceLength))
    );
    let zero = TorrentFile::from_bytes(&with_info(b"length", Some(BencodeValue::Int(0)))).unwrap();
    assert_eq!(zero.length, 0);
    let one = TorrentFile::from_bytes(&with_info(b"piece length", Some(BencodeValue::Int(1)))).unwrap();
    assert_eq!(one.piece_length, 1);
}

#[test]
fn the_first_failing_part_decides_the_error() {
    let mut info = BencodeDict::new();
    info.insert(b"length".to_vec(), BencodeValue::Int(-1));
    let mut top = BencodeDict::new();
    top.insert(b"info".to_vec(), BencodeValue::Dict(info));
    top.insert(b"announce".to_vec(), BencodeValue::String(b"t".to_vec()));
    assert_eq!(
        TorrentFile::from_bytes(&BencodeValue::Dict(top).encode()),
        Err(TorrentError::MissingField(TorrentField::Name))
    );
}

#[test]
fn the_first_announce_says_started_and_leaves_the_whole_file() {
    let t = TorrentFile::from_bytes(&torrent_bytes(info_dict(pieces_of(20)))).unwrap();
    let req = first_announce(&t, "-ST0001-42");
    assert_eq!(req.info_hash, t.info_hash);
    assert_eq!(req.peer_id, "-ST0001-42");
    assert_eq!(req.port, 6881);
    assert_eq!(req.uploaded, Some(0));
    assert_eq!(req.downloaded, Some(0));
    assert_eq!(req.left, Some(12345));
    assert_eq!(req.event.as_deref(), Some("started"));
    assert_eq!(req.ip, None);
    let other = announce_request("H", "P", 7000, 1, 2, 3);
    assert_eq!(other.port, 7000);
    assert_eq!(other.uploaded, Some(1));
    assert_eq!(other.downloaded, Some(2));
    assert_eq!(other.left, Some(3));
    assert_eq!(other.event.as_deref(), Some("started"));
}

#[test]
fn peers_of_a_response_keep_their_order() {
    let resp = TrackerAnnounceResponse {
        interval: 60,
        peers: vec![
            WirePeer { ip: "10.0.0.1".to_string(), port: 1 },
            WirePeer { ip: "10.0.0.2".to_string(), port: 2 },
        ],
        complete: 0,
        incomplete: 2,
    };
    assert_eq!(
        peers_of_response(&resp),
        vec![
            PeerInfo { ip: "10.0.0.1".to_string(), port: 1 },
            PeerInfo { ip: "10.0.0.2".to_string(), port: 2 },
        ]
    );
}

#[test]
fn peer_identifiers_carry_the_tag_and_a_number() {
    assert_eq!(peer_id_for(0), "-ST0001-0");
    assert_eq!(peer_id_for(u64::MAX), "-ST0001-18446744073709551615");
    let id = new_peer_id();
    assert!(id.starts_with("-ST0001-"));
    assert!(id["-ST0001-".len()..].parse::<u64>().is_ok());
    assert_eq!(file_request("hello_world.txt").file, "hello_world.txt");
}

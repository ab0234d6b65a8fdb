//! Trackers, nodes and peers on the wire.

use serde_bencode::value::Value;
use std::collections::HashMap;
use vtorrent::torrent::bencode::{parse_bencode, parse_untrusted, push_bytes_code, push_int_code, Bencode};
use vtorrent::torrent::bencode_guard::{bencode_scan, Scan};
use vtorrent::torrent::dht::{
    answer_with_announcement, build_announce_peer_query, build_find_node_query, build_get_peers_query,
    build_token_query, extract_token, parse_bencode_value, parse_dht_response, CompactNode, Lookup,
    NodeAddress, NodeId, ENOUGH_PEERS,
};
use vtorrent::torrent::error::TorrentError;
use vtorrent::torrent::info_span::find_info_span;
use vtorrent::torrent::magnet::{base32_decode, MagnetLink};
use vtorrent::torrent::metadata::{
    build_extension_handshake, build_request, build_ut_vtr_address, build_ut_vtr_handshake, find_dict_end,
    parse_data, parse_ut_vtr_address, reassemble_metadata,
};
use vtorrent::torrent::metainfo::Metainfo;
use vtorrent::torrent::peer_wire::PeerMessage;
use vtorrent::torrent::tracker::{
    announce_url, check_resolved, check_response_size, dotted_text, is_non_public,
    locate_tracker, parse_tracker_response, tracker_target_allowed, validate_tracker_url_with, AnnounceEvent,
    AnnounceRequest, IpAddress, ResolvedAddress, MAX_TRACKER_RESPONSE,
};
use vtorrent::torrent::udp::{
    decode_announce_response, decode_connect_response, decode_scrape_response, encode_announce,
    encode_connect, encode_scrape, UdpAnnounceParams, ACTION_CONNECT, PROTOCOL_ID,
};

fn dict(entries: Vec<(&str, Value)>) -> Value {
    let mut d = HashMap::new();
    for (k, v) in entries {
        d.insert(k.as_bytes().to_vec(), v);
    }
    Value::Dict(d)
}

#[test]
fn errors_of_torrents_are_described() {
    let x = || "x".to_string();
    assert_eq!(TorrentError::InvalidMetainfo(x()).message(), "Invalid torrent file: x");
    assert_eq!(TorrentError::TrackerError(x()).message(), "Tracker error: x");
    assert_eq!(TorrentError::PeerWireError(x()).message(), "Peer wire protocol error: x");
    assert_eq!(TorrentError::IncentiveError(x()).message(), "Incentive error: x");
    assert_eq!(TorrentError::Io(x()).message(), "IO error: x");
    assert_eq!(TorrentError::BencodeError(x()).message(), "Bencode decode error: x");
    assert_eq!(TorrentError::HttpError(x()).message(), "HTTP error: x");
    assert_eq!(TorrentError::SessionNotFound(x()).message(), "Session not found: x");
    assert_eq!(TorrentError::MagnetError(x()).message(), "Magnet link parse error: x");
}

#[test]
fn bencode_is_written_as_the_encoder_writes_it() {
    let mut buf = Vec::new();
    push_bytes_code(&mut buf, b"hello");
    push_int_code(&mut buf, -42);
    assert_eq!(buf, b"5:helloi-42e");
    assert_eq!(build_extension_handshake(3, 1024), {
        let v = dict(vec![
            ("m", dict(vec![("ut_metadata", Value::Int(3))])),
            ("metadata_size", Value::Int(1024)),
        ]);
        serde_bencode::to_bytes(&v).unwrap()
    });
    let vtr = dict(vec![("m", dict(vec![("ut_vtr", Value::Int(2))]))]);
    assert_eq!(build_ut_vtr_handshake(2), serde_bencode::to_bytes(&vtr).unwrap());
    let request = dict(vec![("msg_type", Value::Int(0)), ("piece", Value::Int(7))]);
    let mut expected = vec![3u8];
    expected.extend_from_slice(&serde_bencode::to_bytes(&request).unwrap());
    assert_eq!(build_request(3, 7), expected);
}

#[test]
fn bencode_is_read_as_the_decoder_reads_it() {
    match parse_bencode(b"d1:ai1e1:bl1:xi-2eee").unwrap() {
        b @ Bencode::Dict(_) => {
            assert!(b.is_dict());
            assert!(matches!(b.get(b"a"), Some(Bencode::Int(1))));
            match b.get(b"b") {
                Some(Bencode::List(l)) => assert_eq!(l.len(), 2),
                other => panic!("unexpected {:?}", other),
            }
            assert!(b.get(b"c").is_none());
        }
        other => panic!("unexpected {:?}", other),
    }
    assert!(parse_bencode(b"d1:a").is_err());
    assert!(parse_untrusted(b"i5").is_none());
    assert!(matches!(parse_untrusted(b"ixe"), Some(Err(_))));
    assert_eq!(bencode_scan(b"lle", 1), Scan::TooDeep);
    assert_eq!(bencode_scan(b"le", 1), Scan::Balanced);
    assert_eq!(bencode_scan(b"l", 1), Scan::Malformed);
}

#[test]
fn addresses_travel_between_peers() {
    let msg = build_ut_vtr_address(2, "VAddress");
    assert_eq!(parse_ut_vtr_address(&msg[1..]).unwrap(), "VAddress");
    assert!(parse_ut_vtr_address(b"de").is_err());
    assert!(parse_ut_vtr_address(&vec![b'd'; 1000]).is_err());
}

#[test]
fn cut_descriptions_are_put_together() {
    let description: Vec<u8> = (0..=255u8).cycle().take(40_000).collect();
    let mut parts = HashMap::new();
    for (i, part) in description.chunks(16_384).enumerate() {
        parts.insert(i as u32, part.to_vec());
    }
    assert_eq!(reassemble_metadata(&parts, 40_000).unwrap(), description);
    assert_eq!(
        reassemble_metadata(&parts, 39_999).unwrap_err().message(),
        "Peer wire protocol error: metadata size mismatch: expected 39999 got 40000"
    );
    assert_eq!(find_dict_end(b"d1:ai1eerest"), Some(8));
    assert_eq!(find_dict_end(b"d1:ai1e"), None);
    assert!(parse_data(b"\x03de").is_err());
}

#[test]
fn datagrams_are_laid_out() {
    let c = encode_connect(7);
    assert_eq!(c[..8], PROTOCOL_ID.to_be_bytes());
    assert_eq!(c[8..], [0, 0, 0, 0, 0, 0, 0, 7]);
    let params = UdpAnnounceParams {
        info_hash: &[0xAA; 20],
        peer_id: &[0xBB; 20],
        downloaded: 1,
        left: 2,
        uploaded: 3,
        event: AnnounceEvent::Completed,
        port: 6881,
    };
    let a = encode_announce(5, 6, &params);
    assert_eq!(a[..16], [0, 0, 0, 0, 0, 0, 0, 5, 0, 0, 0, 1, 0, 0, 0, 6]);
    assert_eq!(a[16..36], [0xAA; 20]);
    assert_eq!(a[36..56], [0xBB; 20]);
    assert_eq!(a[56..80], [0, 0, 0, 0, 0, 0, 0, 1, 0, 0, 0, 0, 0, 0, 0, 2, 0, 0, 0, 0, 0, 0, 0, 3]);
    assert_eq!(a[96..98], 6881u16.to_be_bytes());
    let s = encode_scrape(5, 6, &[0xCC; 20]);
    assert_eq!(s[..16], [0, 0, 0, 0, 0, 0, 0, 5, 0, 0, 0, 2, 0, 0, 0, 6]);
    assert_eq!(s[16..], [0xCC; 20]);
}

#[test]
fn short_or_wrong_datagrams_are_refused() {
    assert!(decode_connect_response(&[0; 15]).is_err());
    assert!(decode_connect_response(&[0, 0, 0, 1, 0, 0, 0, 0, 0, 0, 0, 0, 0, 0, 0, 0]).is_err());
    let mut ok = ACTION_CONNECT.to_be_bytes().to_vec();
    ok.extend_from_slice(&[0; 4]);
    ok.extend_from_slice(&9u64.to_be_bytes());
    assert_eq!(decode_connect_response(&ok).unwrap(), 9);
    assert!(decode_announce_response(&[0, 0, 0, 1]).is_err());
    assert!(decode_scrape_response(&[0, 0, 0, 2]).is_err());
    let mut refused = vec![0, 0, 0, 3, 0, 0, 0, 0];
    refused.extend_from_slice(b"no such torrent, sorry");
    assert!(decode_announce_response(&refused).is_err());
    assert!(decode_scrape_response(&refused).is_err());
}

fn request(url: &str) -> AnnounceRequest {
    AnnounceRequest {
        tracker_url: url.to_string(),
        info_hash: [0; 20],
        peer_id: *b"-VT0001-abcdefghijkl",
        port: 6881,
        uploaded: 1,
        downloaded: 2,
        left: 3,
        event: AnnounceEvent::Started,
        num_want: 50,
    }
}

#[test]
fn announces_are_addressed() {
    let url = announce_url(&request("http://t.example/a"));
    assert!(url.starts_with("http://t.example/a?info_hash=%00%00"));
    for part in ["&port=6881", "&uploaded=1", "&downloaded=2", "&left=3", "event=started"] {
        assert!(url.contains(part), "{url} {part}");
    }
    assert!(url.contains("-VT0001-abcdefghijkl"));
    let mut plain = request("http://t.example/a");
    plain.event = AnnounceEvent::Regular;
    assert!(!announce_url(&plain).contains("event="));
    assert!(check_response_size(MAX_TRACKER_RESPONSE).is_ok());
    assert!(check_response_size(MAX_TRACKER_RESPONSE + 1).is_err());
}

#[test]
fn answers_of_trackers_are_read() {
    let mut compact = b"d8:completei3e10:incompletei4e8:intervali900e5:peers6:".to_vec();
    compact.extend_from_slice(&[10, 0, 0, 1, 0x1A, 0xE1]);
    compact.extend_from_slice(b"e");
    let r = parse_tracker_response(&compact).unwrap();
    assert_eq!((r.interval, r.complete, r.incomplete, r.peers.len()), (900, 3, 4, 1));
    assert_eq!((r.peers[0].ip.as_str(), r.peers[0].port), ("10.0.0.1", 6881));
    let listed = b"d5:peersld2:ip8:10.0.0.24:porti80eeee";
    let r = parse_tracker_response(listed).unwrap();
    assert_eq!(r.interval, 1800);
    assert_eq!((r.peers[0].ip.as_str(), r.peers[0].port), ("10.0.0.2", 80));
    let failed = parse_tracker_response(b"d14:failure reason4:nopee").unwrap_err();
    assert!(failed.message().contains("nope"));
    assert!(parse_tracker_response(b"i1e").is_err());
    assert!(parse_tracker_response(&vec![b'l'; 1000]).is_err());
    assert_eq!(dotted_text(1, 20, 255, 0), "1.20.255.0");
}

#[test]
fn only_public_targets_are_allowed() {
    let v4 = |a| IpAddress::V4(a);
    for a in [[127, 0, 0, 1], [10, 1, 1, 1], [100, 64, 0, 1], [224, 0, 0, 1], [255, 255, 255, 255]] {
        assert!(is_non_public(&v4(a)), "{a:?}");
        assert!(!tracker_target_allowed(&v4(a), false));
        assert!(tracker_target_allowed(&v4(a), true));
    }
    for a in [[93, 184, 216, 34], [8, 8, 8, 8], [100, 128, 0, 1], [172, 32, 0, 1]] {
        assert!(tracker_target_allowed(&v4(a), false), "{a:?}");
    }
    assert!(is_non_public(&IpAddress::V6([0, 0, 0, 0, 0, 0, 0, 1])));
    assert!(is_non_public(&IpAddress::V6([0, 0, 0, 0, 0, 0xffff, 0x7f00, 1])));
    assert!(!is_non_public(&IpAddress::V6([0x2606, 0x2800, 0, 0, 0, 0, 0, 1])));
}

#[test]
fn resolved_targets_are_checked() {
    let at = |a: [u8; 4]| ResolvedAddress { ip: IpAddress::V4(a), text: "t".to_string() };
    assert!(check_resolved("h", &vec![at([8, 8, 8, 8])], false).is_ok());
    assert!(check_resolved("h", &vec![at([8, 8, 8, 8]), at([127, 0, 0, 1])], false).is_err());
    assert!(check_resolved("h", &vec![at([127, 0, 0, 1])], true).is_ok());
    assert!(check_resolved("h", &vec![], false).is_err());
    let named = locate_tracker("https://t.example/a", false).unwrap();
    assert_eq!((named.host.as_str(), named.port, named.resolve), ("t.example", 443, true));
    let literal = locate_tracker("http://93.184.216.34:81/a", false).unwrap();
    assert_eq!((literal.host.as_str(), literal.port, literal.resolve), ("93.184.216.34", 81, false));
    assert!(locate_tracker("http://10.0.0.1/a", false).is_err());
    assert!(!locate_tracker("http://10.0.0.1/a", true).unwrap().resolve);
    assert_eq!(
        validate_tracker_url_with("ftp://t.example/", false).unwrap_err().message(),
        "Tracker error: Unsupported tracker scheme: ftp"
    );
    assert!(validate_tracker_url_with("nonsense", false)
        .unwrap_err()
        .message()
        .starts_with("Tracker error: Invalid tracker URL: "));
}

#[test]
fn queries_to_nodes_are_written() {
    let id = NodeId([0x11; 20]);
    let q = build_get_peers_query(&id, &[0xAA; 20], b"zz");
    let mut expected = b"d1:ad2:id20:".to_vec();
    expected.extend_from_slice(&[0x11; 20]);
    expected.extend_from_slice(b"9:info_hash20:");
    expected.extend_from_slice(&[0xAA; 20]);
    expected.extend_from_slice(b"e1:q9:get_peers1:t2:zz1:y1:qe");
    assert_eq!(q, expected);
    let find = build_find_node_query(&id, &[0xBB; 20], b"zz");
    assert!(find.ends_with(b"e1:q9:find_node1:t2:zz1:y1:qe"));
    assert!(build_announce_peer_query(&id, &[0xAA; 20], 6881, b"tok", b"zz")
        .windows(10)
        .any(|w| w == b"5:token3:t"));
    let announce = build_announce_peer_query(&id, &[0xAA; 20], 6881, b"tok", b"zz");
    for query in [&q, &find, &announce] {
        let (v, end) = parse_bencode_value(query, 0, 0).unwrap();
        assert_eq!(end, query.len());
        assert!(v.get(b"a").unwrap().is_dict());
        assert!(matches!(v.get(b"t"), Some(Bencode::Bytes(t)) if t == b"zz"));
        assert!(matches!(v.get(b"y"), Some(Bencode::Bytes(y)) if y == b"q"));
    }
    assert_ne!(NodeId::random().0, NodeId::random().0);
    assert_eq!(id.as_bytes(), &[0x11; 20]);
}

#[test]
fn replies_of_nodes_are_read() {
    let (v, end) = parse_bencode_value(b"xi-7ez", 1, 0).unwrap();
    assert!(matches!(v, Bencode::Int(-7)));
    assert_eq!(end, 5);
    assert!(parse_bencode_value(b"l", 0, 0).is_none());
    assert!(parse_bencode_value(b"i1e", 9, 0).is_none());
    assert!(parse_bencode_value(b"i1e", 0, 1_000).is_none());
    let reply = b"d1:rd2:id1:x5:token3:toke1:t2:zz1:y1:re";
    assert_eq!(extract_token(reply, b"zz"), Some(b"tok".to_vec()));
    assert_eq!(extract_token(reply, b"yy"), None);
    let (_, _, tid) = parse_dht_response(reply);
    assert_eq!(tid, Some(b"zz".to_vec()));
    let mut node = vec![0x22; 20];
    node.extend_from_slice(&[10, 0, 0, 2, 0x1A, 0xE2, 1, 2, 3]);
    let nodes = CompactNode::parse_list(&node);
    assert_eq!(nodes.len(), 1);
    assert_eq!((nodes[0].id.0, nodes[0].addr.port()), ([0x22; 20], 6882));
}

fn place(last: u8) -> NodeAddress {
    NodeAddress { ip: IpAddress::V4([10, 0, 0, last]), port: 6881 }
}

#[test]
fn nodes_are_asked_once_and_must_answer_themselves() {
    let mut lookup = Lookup::new(vec![place(1), place(1), place(2)]);
    let (first, tid) = lookup.next_query().unwrap();
    assert!(first.same(&place(1)));
    let mut reply = b"d1:rd2:id1:x5:nodes26:".to_vec();
    reply.extend_from_slice(&[0x22; 20]);
    reply.extend_from_slice(&[10, 0, 0, 3, 0x1A, 0xE1]);
    reply.extend_from_slice(b"6:valuesl6:");
    reply.extend_from_slice(&[10, 0, 0, 9, 0x1A, 0xE1]);
    reply.extend_from_slice(b"ee1:t2:");
    reply.extend_from_slice(&tid);
    reply.extend_from_slice(b"1:y1:re");
    // An answer from elsewhere does not count.
    lookup.handle_reply(&first, &place(7), &reply);
    lookup.handle_reply(&first, &first, &reply);
    let mut asked = vec![first];
    while let Some((next, _)) = lookup.next_query() {
        assert!(!asked.iter().any(|a| a.same(&next)));
        asked.push(next);
    }
    assert_eq!(asked.len(), 3);
    assert!(asked.iter().any(|a| a.same(&place(3))));
    let peers = lookup.into_peers();
    assert_eq!(peers.len(), 1);
    assert_eq!(peers[0].ip, "10.0.0.9");
    assert!(ENOUGH_PEERS > peers.len());
}

#[test]
fn nodes_with_a_token_are_told_of_the_client() {
    let id = NodeId([0x11; 20]);
    let asked = build_token_query(&id, &[0xAA; 20]);
    assert_eq!(asked, build_get_peers_query(&id, &[0xAA; 20], b"aa"));
    let reply = b"d1:rd2:id1:x5:token3:toke1:t2:aa1:y1:re";
    let told = answer_with_announcement(&id, &[0xAA; 20], 6881, &place(1), &place(1), reply);
    assert_eq!(told, Some(build_announce_peer_query(&id, &[0xAA; 20], 6881, b"tok", b"bb")));
    let elsewhere = answer_with_announcement(&id, &[0xAA; 20], 6881, &place(1), &place(2), reply);
    assert_eq!(elsewhere, None);
    let other = b"d1:rd2:id1:x5:token3:toke1:t2:zz1:y1:re";
    let late = answer_with_announcement(&id, &[0xAA; 20], 6881, &place(1), &place(1), other);
    assert_eq!(late, None);
}

#[test]
fn messages_read_back() {
    let all = vec![
        PeerMessage::KeepAlive,
        PeerMessage::Choke,
        PeerMessage::Unchoke,
        PeerMessage::Interested,
        PeerMessage::NotInterested,
        PeerMessage::Have { index: 7 },
        PeerMessage::Bitfield { bits: vec![1, 2, 3] },
        PeerMessage::Request { index: 1, begin: 2, length: 3 },
        PeerMessage::Piece { index: 1, begin: 2, data: vec![9; 10] },
        PeerMessage::Cancel { index: 1, begin: 2, length: 3 },
        PeerMessage::Port { port: 6881 },
        PeerMessage::Extended { id: 5, payload: vec![8; 4] },
    ];
    for m in all {
        let bytes = m.encode();
        let (back, used) = PeerMessage::decode(&bytes).unwrap().unwrap();
        assert_eq!(used, bytes.len());
        assert_eq!(back.encode(), bytes);
        assert_eq!(format!("{back:?}"), format!("{m:?}"));
        assert!(PeerMessage::decode(&bytes[..bytes.len() - 1]).unwrap().is_none());
    }
    let hello = PeerMessage::Handshake { info_hash: [1; 20], peer_id: [2; 20], reserved: [3; 8] };
    let bytes = hello.encode();
    assert_eq!(bytes.len(), 68);
    let (back, used) = PeerMessage::decode_handshake(&bytes).unwrap().unwrap();
    assert_eq!((format!("{back:?}"), used), (format!("{hello:?}"), 68));
    let mut wrong = bytes.clone();
    wrong[1] = b'X';
    assert!(PeerMessage::decode_handshake(&wrong).is_err());
    // Unknown messages are skipped.
    assert!(PeerMessage::decode(&[0, 0, 0, 1, 99]).unwrap().is_none());
    assert!(PeerMessage::decode(&[0x7f, 0, 0, 0, 1]).is_err());
}

#[test]
fn trackers_come_once_in_the_order_of_their_first_naming() {
    let uri = "magnet:?xt=urn:btih:aabbccddaabbccddaabbccddaabbccddaabbccdd";
    let mut meta = Metainfo::from_magnet_link(&MagnetLink::parse(uri).unwrap());
    assert!(meta.all_trackers().is_empty());
    let tier = |names: &[&str]| names.iter().map(|n| n.to_string()).collect::<Vec<String>>();
    meta.announce = Some("b".to_string());
    meta.announce_list = vec![tier(&["c", "b", "c"]), tier(&[]), tier(&["a", "c", "d", "a"])];
    assert_eq!(meta.all_trackers(), vec!["b", "c", "a", "d"]);
    meta.announce = None;
    assert_eq!(meta.all_trackers(), vec!["c", "b", "a", "d"]);
}

#[test]
fn links_are_read() {
    let hash = "aabbccddaabbccddaabbccddaabbccddaabbccdd";
    let uri = format!("magnet:?xt=urn:btih:{hash}&dn=A%20b&tr=http%3A%2F%2Ft%2Fa&tr=udp%3A%2F%2Fu&xl=77");
    let link = MagnetLink::parse(&uri).unwrap();
    assert_eq!(link.info_hash_hex(), hash);
    assert_eq!(link.display_name.as_deref(), Some("A b"));
    assert_eq!(link.trackers, vec!["http://t/a", "udp://u"]);
    assert_eq!(link.size_hint, Some(77));
    let meta = Metainfo::from_magnet_link(&link);
    assert_eq!(meta.all_trackers(), vec!["http://t/a", "udp://u"]);
    assert!(meta.pieces.is_empty());
    // Twenty bytes are thirty-two digits of five bits.
    let bytes = base32_decode("vk54zxnkxpgn3kv3zto2vo6m3wvlxtg5").unwrap();
    assert_eq!(hex::encode(&bytes), hash);
    assert_eq!(base32_decode("VK54ZXNKXPGN3KV3ZTO2VO6M3WVLXTG5").unwrap(), bytes);
    assert!(base32_decode("1").is_err());
    let short = MagnetLink::parse("magnet:?xt=urn:btih:abc").unwrap_err();
    assert!(matches!(short, TorrentError::MagnetError(_)));
}

#[test]
fn descriptions_are_found_in_torrent_files() {
    let data = b"d8:announce3:abc4:infod4:name1:xee";
    let (from, to) = find_info_span(data).unwrap();
    assert_eq!(&data[from..to], b"d4:name1:xe");
    assert!(find_info_span(b"d8:announce3:abce").is_err());
    assert!(find_info_span(b"i1e").is_err());
}

use drop_core::exchange::{
    all_announced, assemble_files, find_metadata, first_stale, handshake_for, identify_files, identify_with,
    new_confirmation, offer_expiry, offer_response, parse_ticket, projections_for, read_received_stream, split_chunks, stream_is_readable,
    ticket_outcome, ConfigurationStatus, ConnectingEvent, ConnectionRefusal, Error, FileMetadata, FilePayload,
    FileProjection2, Profile, SendFilesHandler, SendFilesHandshake, SendFilesRequest, SendFilesSubscriber,
    SendingEvent, CHUNK_LEN, OFFER_LIFETIME_MS,
};
use drop_core::wire::{frame_u16, frame_u32};
use iroh_base::ticket::NodeTicket;
use iroh_base::{NodeAddr, SecretKey};

fn payload(name: &str, data: Vec<u8>) -> FilePayload {
    FilePayload { name: name.to_string(), data }
}

fn projection(id: &str, data: &[u8]) -> FileProjection2 {
    FileProjection2 { id: id.to_string(), data: data.to_vec() }
}

fn handshake(metas: &[(&str, &str)]) -> SendFilesHandshake {
    SendFilesHandshake {
        sender: Profile { name: "p".to_string() },
        file_metadatas: metas
            .iter()
            .map(|(id, name)| FileMetadata { id: id.to_string(), name: name.to_string(), len: 0 })
            .collect(),
    }
}

struct Quiet;
impl SendFilesSubscriber for Quiet {
    fn notify_sending(&self, _event: SendingEvent) {}
    fn notify_connecting(&self, _event: ConnectingEvent) {}
}

#[test]
fn chunks_are_of_chunk_len_but_the_last() {
    let data: Vec<u8> = (0..2500u32).map(|i| (i % 251) as u8).collect();
    let chunks = split_chunks(&data, CHUNK_LEN);
    assert_eq!(chunks.iter().map(|c| c.len()).collect::<Vec<_>>(), vec![1024, 1024, 452]);
    assert_eq!(chunks.concat(), data);
    assert_eq!(split_chunks(&[], 1024), Vec::<Vec<u8>>::new());
    assert_eq!(split_chunks(&[0u8; 1024], 1024).len(), 1);
    assert_eq!(split_chunks(&[1, 2, 3], 2), vec![vec![1, 2], vec![3]]);
}

#[test]
fn identify_keys_files_in_order() {
    let ids = vec!["a".to_string(), "b".to_string(), "c".to_string()];
    let r = identify_with(&ids);
    assert_eq!(r.iter().map(|f| (f.id.as_str(), f.index)).collect::<Vec<_>>(), vec![("a", 0), ("b", 1), ("c", 2)]);
}

#[test]
fn identify_lets_a_later_file_take_a_repeated_id() {
    let ids = vec!["a".to_string(), "b".to_string(), "a".to_string()];
    let r = identify_with(&ids);
    assert_eq!(r.iter().map(|f| (f.id.as_str(), f.index)).collect::<Vec<_>>(), vec![("a", 2), ("b", 1)]);
}

#[test]
fn identify_files_draws_uuids() {
    let request = SendFilesRequest { files: vec![payload("x", vec![1]), payload("y", vec![2])] };
    let r = identify_files(&request);
    assert_eq!(r.len(), 2);
    for f in &r {
        assert_eq!(f.id.len(), 36);
        assert_eq!(f.id.as_bytes()[8], b'-');
        assert_eq!(f.id.as_bytes()[14], b'4');
        for (i, c) in f.id.chars().enumerate() {
            if ![8, 13, 18, 23].contains(&i) {
                assert!(c.is_ascii_digit() || ('a'..='f').contains(&c));
            }
        }
    }
    assert_ne!(r[0].id, r[1].id);
}

#[test]
fn handshake_announces_every_identified_file() {
    let request = SendFilesRequest { files: vec![payload("x.txt", vec![1, 2, 3]), payload("y.txt", vec![])] };
    let ident = identify_with(&vec!["i1".to_string(), "i2".to_string()]);
    let h = handshake_for(&request, &ident);
    assert_eq!(h.sender.name, "TODO: PROFILE SYSTEM");
    let metas: Vec<(String, String, u64)> =
        h.file_metadatas.iter().map(|m| (m.id.clone(), m.name.clone(), m.len)).collect();
    assert_eq!(metas, vec![("i1".into(), "x.txt".into(), 3), ("i2".into(), "y.txt".into(), 0)]);
}

#[test]
fn transfer_roundtrip_delivers_nonempty_files() {
    let big: Vec<u8> = (0..3000u32).map(|i| (i * 7 % 256) as u8).collect();
    let request = SendFilesRequest {
        files: vec![payload("big.bin", big.clone()), payload("empty", vec![]), payload("small", vec![42])],
    };
    let ident = identify_files(&request);
    let h = handshake_for(&request, &ident);
    let ps = projections_for(&request, &ident);
    assert_eq!(ps.len(), 4);
    assert!(all_announced(&h, &ps));
    let files = assemble_files(&h, &ps);
    assert_eq!(files.len(), 2);
    assert_eq!(files[0].name, "big.bin");
    assert_eq!(files[0].data, big);
    assert_eq!(files[0].id, ident[0].id);
    assert_eq!(files[1].name, "small");
    assert_eq!(files[1].data, vec![42]);
}

#[test]
fn assembly_appends_by_id_in_arrival_order() {
    let h = handshake(&[("a", "A"), ("b", "B"), ("a", "ignored")]);
    let ps = vec![projection("b", &[1]), projection("a", &[2, 3]), projection("b", &[4]), projection("a", &[5])];
    let files = assemble_files(&h, &ps);
    let got: Vec<(String, String, Vec<u8>)> =
        files.into_iter().map(|f| (f.id, f.name, f.data)).collect();
    assert_eq!(got, vec![("b".into(), "B".into(), vec![1, 4]), ("a".into(), "A".into(), vec![2, 3, 5])]);
    assert_eq!(assemble_files(&h, &vec![]).len(), 0);
}

#[test]
fn unannounced_projections_are_detected() {
    let h = handshake(&[("a", "A")]);
    assert!(!all_announced(&h, &vec![projection("a", &[1]), projection("z", &[2])]));
    assert!(all_announced(&h, &vec![]));
    assert_eq!(find_metadata(&h.file_metadatas, &"a".to_string()), Some(0));
    assert_eq!(find_metadata(&h.file_metadatas, &"z".to_string()), None);
}

#[test]
fn offer_admits_one_connection_before_expiry() {
    let request = SendFilesRequest { files: vec![] };
    let mut h: SendFilesHandler<Quiet> = SendFilesHandler::new(100, request, vec![Quiet]);
    assert_eq!(h.on_connecting(101), Err(ConnectionRefusal::Expired));
    assert!(!h.has_been_consumed());
    assert_eq!(h.on_connecting(50), Ok(()));
    assert!(h.has_been_consumed());
    assert_eq!(h.on_connecting(60), Err(ConnectionRefusal::AlreadyConsumed));
    assert_eq!(h.on_connecting(100), Err(ConnectionRefusal::AlreadyConsumed));
    assert!(!h.has_finished());
    h.mark_finished();
    assert!(h.has_finished());
    assert_eq!(h.expires_at(), 100);
    assert_eq!(h.request().files.len(), 0);
}

#[test]
fn refusal_messages() {
    assert_eq!(ConnectionRefusal::Expired.message(), "Connection handler has expired.");
    assert_eq!(ConnectionRefusal::AlreadyConsumed.message(), "Connection has already been consumed.");
}

#[test]
fn expiry_is_fifteen_minutes_later() {
    assert_eq!(OFFER_LIFETIME_MS, 15 * 60 * 1000);
    assert_eq!(offer_expiry(1_000), 901_000);
}

#[test]
fn sweep_picks_the_first_stale_offer() {
    let fresh = ConfigurationStatus { router_is_shutdown: false, handler_has_finished: false, expires_at: 100 };
    let shut = ConfigurationStatus { router_is_shutdown: true, ..fresh };
    let done = ConfigurationStatus { handler_has_finished: true, ..fresh };
    let old = ConfigurationStatus { expires_at: 10, ..fresh };
    assert_eq!(first_stale(&[fresh, fresh], 50), None);
    assert_eq!(first_stale(&[fresh, done, shut], 50), Some(1));
    assert_eq!(first_stale(&[fresh, old], 50), Some(1));
    assert_eq!(first_stale(&[fresh, old], 5), None);
    assert_eq!(first_stale(&[shut], 0), Some(0));
    assert_eq!(first_stale(&[], 0), None);
}

#[test]
fn confirmation_codes_stay_below_one_hundred() {
    for _ in 0..200 {
        assert!(new_confirmation() <= 99);
    }
}

#[test]
fn a_real_ticket_parses() {
    let key = SecretKey::from_bytes(&[7u8; 32]);
    let ticket = NodeTicket::new(NodeAddr::new(key.public())).to_string();
    let parsed = parse_ticket(&ticket).expect("a ticket written by iroh-base parses");
    assert_eq!(parsed.to_string(), ticket);
}

#[test]
fn garbage_tickets_are_refused() {
    assert!(matches!(parse_ticket(&"hello".to_string()), Err(Error::ParseReceiveFilesTicketError)));
    assert!(matches!(parse_ticket(&"node!!!!".to_string()), Err(Error::ParseReceiveFilesTicketError)));
    assert!(matches!(parse_ticket(&String::new()), Err(Error::ParseReceiveFilesTicketError)));
    assert!(matches!(ticket_outcome(None), Err(Error::ParseReceiveFilesTicketError)));
}

#[test]
fn received_stream_splits_handshake_and_projections() {
    let mut stream = frame_u32(b"{}");
    stream.extend(frame_u16(&[1, 2]));
    stream.extend(frame_u16(&[3]));
    assert!(stream_is_readable(&stream));
    let (h, frames) = read_received_stream(&stream).unwrap();
    assert_eq!(h, b"{}".to_vec());
    assert_eq!(frames, vec![vec![1, 2], vec![3]]);
}

#[test]
fn received_stream_takes_what_remains() {
    // A handshake cut short by the end of the stream is taken as it is.
    let (h, frames) = read_received_stream(&[0, 0, 0, 5, 1]).unwrap();
    assert_eq!(h, vec![1]);
    assert!(frames.is_empty());
    // The stream ends right after a projection's header.
    let mut stream = frame_u32(&[9]);
    stream.extend([0, 4]);
    let (h, frames) = read_received_stream(&stream).unwrap();
    assert_eq!(h, vec![9]);
    assert!(frames.is_empty());
    // A projection cut short is taken as it is.
    let mut stream = frame_u32(&[9]);
    stream.extend([0, 4, 1]);
    assert_eq!(read_received_stream(&stream).unwrap().1, vec![vec![1]]);
}

#[test]
fn received_stream_errors() {
    match read_received_stream(&[]) {
        Err(Error::InvalidHandshakeError(m)) => assert_eq!(m, "Handshake bytes length not found"),
        _ => panic!("expected a missing length"),
    }
    match read_received_stream(&[0, 0, 0, 5]) {
        Err(Error::InvalidHandshakeError(m)) => assert_eq!(m, "Handshake not found"),
        _ => panic!("expected a missing handshake"),
    }
    match read_received_stream(&frame_u32(&[])) {
        Err(Error::InvalidHandshakeError(m)) => assert_eq!(m, "Handshake not found"),
        _ => panic!("expected a missing handshake"),
    }
}

#[test]
fn received_stream_with_a_header_cut_short_is_not_readable() {
    assert!(stream_is_readable(&[]));
    assert!(!stream_is_readable(&[0, 0]));
    assert!(stream_is_readable(&[0, 0, 0, 5]));
    let mut stream = frame_u32(&[9]);
    stream.extend([0]);
    assert!(!stream_is_readable(&stream));
}

#[test]
fn the_sweep_removes_only_stale_offers_in_order() {
    let live = |e: u64| ConfigurationStatus { router_is_shutdown: false, handler_has_finished: false, expires_at: e };
    let mut offers = vec![
        live(100),
        ConfigurationStatus { router_is_shutdown: true, handler_has_finished: false, expires_at: 100 },
        live(200),
        live(10),
        ConfigurationStatus { router_is_shutdown: false, handler_has_finished: true, expires_at: 100 },
        live(300),
    ];
    while let Some(i) = first_stale(&offers, 50) {
        offers.remove(i);
    }
    assert_eq!(offers.iter().map(|c| c.expires_at).collect::<Vec<_>>(), vec![100, 200, 300]);
}

#[test]
fn an_offer_hands_out_a_ticket_that_the_receiver_accepts() {
    let addr = NodeAddr::new(SecretKey::from_bytes(&[9u8; 32]).public());
    let response = offer_response(addr.clone(), 42);
    assert_eq!(response.confirmation, 42);
    assert!(response.ticket.starts_with("node"));
    assert_eq!(response.ticket, NodeTicket::new(addr).to_string());
    assert!(parse_ticket(&response.ticket).is_ok());
}

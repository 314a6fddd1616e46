use drop_core::handshake::{HandshakeProfile, ReceiverHandshake};
use drop_core::sender::{
    advance_progress, bubble_is_connected, next_piece, offer_ticket, notify_connecting_all, notify_sending_all, bubble_is_finished, build_sender_handshake, connecting_event,
    prepare_resources, projection_for, read_chunk, sending_event, File, Profile, SendFilesConnectingEvent,
    SendFilesHandler, SendFilesHandlerResources, SendFilesRequest, SendFilesSendingEvent, SendFilesSubscriber,
    SenderFile, SenderFileData, SenderProfile, SENDER_CHUNK_LEN,
};
use drop_core::exchange::ConnectionRefusal;
use std::sync::atomic::{AtomicUsize, Ordering};
use std::sync::{Arc, Mutex};

struct Bytes {
    bytes: Vec<u8>,
    at: AtomicUsize,
}

impl Bytes {
    fn new(bytes: Vec<u8>) -> Self {
        Bytes { bytes, at: AtomicUsize::new(0) }
    }
}

impl SenderFileData for Bytes {
    fn len(&self) -> u64 {
        self.bytes.len() as u64
    }

    fn read(&self) -> Option<u8> {
        let i = self.at.fetch_add(1, Ordering::SeqCst);
        self.bytes.get(i).copied()
    }
}

#[derive(Clone)]
struct Recorder {
    id: String,
    log: Arc<Mutex<Vec<String>>>,
}

impl SendFilesSubscriber for Recorder {
    fn get_id(&self) -> String {
        self.id.clone()
    }

    fn notify_sending(&self, event: SendFilesSendingEvent) {
        self.log.lock().unwrap().push(format!("{} sending {} {} {}", self.id, event.name, event.sent, event.remaining));
    }

    fn notify_connecting(&self, event: SendFilesConnectingEvent) {
        self.log.lock().unwrap().push(format!("{} connecting {} {}", self.id, event.receiver.id, event.receiver.name));
    }
}

fn resources(files: Vec<(&str, &str, Vec<u8>)>) -> SendFilesHandlerResources<Bytes> {
    SendFilesHandlerResources {
        profile: Profile { id: "me".to_string(), name: "Me".to_string() },
        files: files
            .into_iter()
            .map(|(id, name, data)| File { id: id.to_string(), name: name.to_string(), data: Bytes::new(data) })
            .collect(),
    }
}

fn their_handshake() -> ReceiverHandshake {
    ReceiverHandshake { profile: HandshakeProfile { id: "r1".to_string(), name: "Receiver".to_string() } }
}

#[test]
fn chunks_are_read_until_the_bytes_run_out() {
    let data = Bytes::new((0..2100u32).map(|i| i as u8).collect());
    let (a, done_a) = read_chunk(&data, SENDER_CHUNK_LEN);
    let (b, done_b) = read_chunk(&data, SENDER_CHUNK_LEN);
    let (c, done_c) = read_chunk(&data, SENDER_CHUNK_LEN);
    assert_eq!((a.len(), done_a), (1024, false));
    assert_eq!((b.len(), done_b), (1024, false));
    assert_eq!((c.len(), done_c), (52, true));
    assert_eq!(a[0], 0);
    assert_eq!(b[0], 0);
    assert_eq!(c[51], (2099u32 % 256) as u8);
}

#[test]
fn an_exact_multiple_ends_with_an_empty_chunk() {
    let data = Bytes::new(vec![5; 1024]);
    assert_eq!(read_chunk(&data, 1024).0.len(), 1024);
    let (last, done) = read_chunk(&data, 1024);
    assert!(last.is_empty() && done);
}

#[test]
fn progress_counts_add_up() {
    assert_eq!(advance_progress(0, 2100, 1024), (1024, 1076));
    assert_eq!(advance_progress(1024, 1076, 1024), (2048, 52));
    assert_eq!(advance_progress(2048, 52, 52), (2100, 0));
    let e = sending_event(&"f".to_string(), 3, 4);
    assert_eq!((e.name.as_str(), e.sent, e.remaining), ("f", 3, 4));
    let p = projection_for(&"id".to_string(), vec![1, 2]);
    assert_eq!((p.id.as_str(), p.data), ("id", vec![1, 2]));
}

#[test]
fn resources_get_fresh_ids_and_keep_names() {
    let request = SendFilesRequest {
        profile: SenderProfile { name: "Sender".to_string() },
        files: vec![
            SenderFile { name: "a".to_string(), data: Bytes::new(vec![1]) },
            SenderFile { name: "b".to_string(), data: Bytes::new(vec![2, 3]) },
        ],
    };
    let r = prepare_resources(request);
    assert_eq!(r.profile.name, "Sender");
    assert_eq!(r.profile.id.len(), 36);
    assert_eq!(r.files.iter().map(|f| f.name.as_str()).collect::<Vec<_>>(), vec!["a", "b"]);
    assert_eq!(r.files[1].data.len(), 2);
    assert!(r.files.iter().all(|f| f.id.len() == 36 && f.id.as_bytes()[23] == b'-'));
    assert_ne!(r.files[0].id, r.files[1].id);
}

#[test]
fn handshake_reports_lengths() {
    let res = resources(vec![("1", "one", vec![1, 2, 3]), ("2", "two", vec![])]);
    let h = build_sender_handshake(&res.profile, &res.files, &vec![3, 0]);
    assert_eq!((h.profile.id.as_str(), h.profile.name.as_str()), ("me", "Me"));
    let files: Vec<(String, String, u64)> = h.files.iter().map(|f| (f.id.clone(), f.name.clone(), f.len)).collect();
    assert_eq!(files, vec![("1".into(), "one".into(), 3), ("2".into(), "two".into(), 0)]);
    let handler: SendFilesHandler<Bytes, Recorder> = SendFilesHandler::new(res);
    let h2 = handler.sender_handshake();
    assert_eq!(h2.files.iter().map(|f| f.len).collect::<Vec<_>>(), vec![3, 0]);
}

#[test]
fn handler_serves_one_receiver() {
    let mut h: SendFilesHandler<Bytes, Recorder> = SendFilesHandler::new(resources(vec![]));
    assert!(!h.get_is_consumed());
    assert_eq!(h.on_connecting(), Ok(()));
    assert_eq!(h.on_connecting(), Err(ConnectionRefusal::AlreadyConsumed));
    assert!(h.get_is_consumed());
    assert!(!h.get_is_finished());
    h.mark_finished();
    assert!(h.get_is_finished());
    assert_eq!(h.resources().profile.id, "me");
}

#[test]
fn subscribers_are_kept_by_id() {
    let log = Arc::new(Mutex::new(Vec::new()));
    let sub = |id: &str| Recorder { id: id.to_string(), log: log.clone() };
    let mut h: SendFilesHandler<Bytes, Recorder> = SendFilesHandler::new(resources(vec![]));
    h.subscribe(sub("x"));
    h.subscribe(sub("y"));
    h.subscribe(sub("x"));
    h.notify_connecting(&their_handshake());
    assert_eq!(log.lock().unwrap().len(), 2);
    h.unsubscribe(sub("x"));
    h.notify_sending(&"f".to_string(), 1, 2);
    assert_eq!(log.lock().unwrap().last().unwrap(), "y sending f 1 2");
    assert_eq!(log.lock().unwrap().len(), 3);
    h.unsubscribe_id(&"y".to_string());
    h.notify_sending(&"f".to_string(), 1, 2);
    assert_eq!(log.lock().unwrap().len(), 3);
}

#[test]
fn connecting_event_names_the_receiver() {
    let e = connecting_event(&their_handshake());
    assert_eq!((e.receiver.id.as_str(), e.receiver.name.as_str()), ("r1", "Receiver"));
}

#[test]
fn bubble_status() {
    assert!(bubble_is_finished(true, false));
    assert!(bubble_is_finished(false, true));
    assert!(!bubble_is_finished(false, false));
    assert!(bubble_is_connected(false, false, true));
    assert!(!bubble_is_connected(true, false, true));
    assert!(!bubble_is_connected(false, true, true));
    assert!(!bubble_is_connected(false, false, false));
}

#[test]
fn pieces_carry_the_file_and_move_the_counts_on() {
    let data = Bytes::new((0..2100u32).map(|i| i as u8).collect());
    let id = "f".to_string();
    let mut sent = 0u64;
    let mut remaining = data.len();
    let mut sizes = Vec::new();
    let mut bytes = Vec::new();
    loop {
        let piece = next_piece(&id, &data, sent, remaining, SENDER_CHUNK_LEN).unwrap();
        assert_eq!(piece.projection.id, "f");
        assert_eq!(piece.sent + piece.remaining, 2100);
        sizes.push(piece.projection.data.len());
        bytes.extend(piece.projection.data.clone());
        sent = piece.sent;
        remaining = piece.remaining;
        if piece.is_last {
            break;
        }
    }
    assert_eq!(sizes, vec![1024, 1024, 52]);
    assert_eq!(bytes, (0..2100u32).map(|i| i as u8).collect::<Vec<u8>>());
    assert_eq!((sent, remaining), (2100, 0));
}

#[test]
fn a_file_that_gives_more_than_it_reported_overruns() {
    let data = Bytes::new(vec![1, 2, 3]);
    match next_piece(&"f".to_string(), &data, 0, 2, SENDER_CHUNK_LEN) {
        Err(projection) => assert_eq!(projection.data, vec![1, 2, 3]),
        Ok(_) => panic!("an overrun was taken for a piece"),
    }
}

#[test]
fn a_snapshot_of_the_subscribers_is_told() {
    let log = Arc::new(Mutex::new(Vec::new()));
    let mut h: SendFilesHandler<Bytes, Recorder> = SendFilesHandler::new(resources(vec![]));
    h.subscribe(Recorder { id: "a".to_string(), log: log.clone() });
    let snapshot = h.subscribers().clone();
    h.unsubscribe_id(&"a".to_string());
    notify_connecting_all(&snapshot, &their_handshake());
    notify_sending_all(&snapshot, &"f".to_string(), 1, 2);
    assert_eq!(
        log.lock().unwrap().clone(),
        vec!["a connecting r1 Receiver".to_string(), "a sending f 1 2".to_string()]
    );
}

#[test]
fn a_streaming_offer_ticket_parses_back() {
    let addr = iroh_base::NodeAddr::new(iroh_base::SecretKey::from_bytes(&[3u8; 32]).public());
    let ticket = offer_ticket(addr);
    assert!(ticket.starts_with("node"));
    assert!(drop_core::exchange::parse_ticket(&ticket).is_ok());
}

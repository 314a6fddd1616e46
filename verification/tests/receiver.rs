use drop_core::cli::{get_receiver_profile, get_sender_profile, CustomSenderFileData};
use drop_core::ffi::{
    adapt_files, create_adapted_request, ReceiveFilesConnectingEvent as FfiConnecting,
    ReceiveFilesReceivingEvent as FfiReceiving, ReceiveFilesRequest as FfiRequest,
    ReceiveFilesSubscriber as FfiSubscriber, ReceiveFilesSubscriberAdapter, ReceiverProfile as FfiProfile,
};
use drop_core::handshake::{FileProjection, HandshakeFile, HandshakeProfile, SenderHandshake};
use drop_core::receiver::{
    after_accept_uni, decode_projection_header, find_vessel, is_finished_close, receiver_profile, receiving_event,
    ReceiveFilesConnectingEvent, ReceiveFilesReceivingEvent, ReceiveFilesRequest, ReceiveFilesSession,
    ReceiveFilesSubscriber, ReceiverError, ReceiverFileData, ReceiverProfile, UniOutcome,
};
use drop_core::sender::Profile;
use std::path::PathBuf;
use std::sync::{Arc, Mutex};

#[derive(Clone)]
struct Recorder {
    id: String,
    log: Arc<Mutex<Vec<String>>>,
}

impl ReceiveFilesSubscriber for Recorder {
    fn get_id(&self) -> String {
        self.id.clone()
    }

    fn notify_receiving(&self, event: ReceiveFilesReceivingEvent) {
        self.log.lock().unwrap().push(format!("receiving {} {}", event.id, event.received));
    }

    fn notify_connecting(&self, event: ReceiveFilesConnectingEvent) {
        self.log.lock().unwrap().push(format!("connecting {} {}", event.sender.id, event.sender.name));
    }
}

fn session(log: &Arc<Mutex<Vec<String>>>) -> ReceiveFilesSession<Recorder> {
    let mut s = ReceiveFilesSession::new(Profile { id: "me".to_string(), name: "Me".to_string() });
    s.subscribe(Recorder { id: "a".to_string(), log: log.clone() });
    s
}

fn handshake() -> SenderHandshake {
    SenderHandshake {
        profile: HandshakeProfile { id: "s".to_string(), name: "Sender".to_string() },
        files: vec![
            HandshakeFile { id: "f1".to_string(), name: "one".to_string(), len: 1 },
            HandshakeFile { id: "f2".to_string(), name: "two".to_string(), len: 2 },
        ],
    }
}

#[test]
fn file_data_reads_bytes_in_order() {
    let contents = [10u8, 20, 30];
    let mut d = ReceiverFileData::new(PathBuf::from("/tmp/x"));
    assert_eq!(d.len(&contents), 3);
    assert_eq!(d.read(&contents), Some(10));
    assert_eq!(d.read(&contents), Some(20));
    assert_eq!(d.read(&contents), Some(30));
    assert_eq!(d.read(&contents), None);
    assert_eq!(d.read(&contents), None);
    assert_eq!(d.offset(), 3);
    assert_eq!(d.path(), &PathBuf::from("/tmp/x"));
}

#[test]
fn a_reception_starts_once() {
    let log = Arc::new(Mutex::new(Vec::new()));
    let mut s = session(&log);
    assert!(s.begin().is_ok());
    match s.begin() {
        Err(ReceiverError::TODO(m)) => assert_eq!(m, "Already running or has run or finished."),
        Ok(()) => panic!("started twice"),
    }
    s.end(true);
    assert!(s.is_finished());
    assert!(s.begin().is_err());
}

#[test]
fn a_failed_reception_does_not_finish_and_cannot_restart() {
    let log = Arc::new(Mutex::new(Vec::new()));
    let mut s = session(&log);
    s.begin().unwrap();
    s.end(false);
    assert!(!s.is_finished());
    assert!(s.begin().is_err());
}

#[test]
fn cancel_takes_effect_only_while_running() {
    let log = Arc::new(Mutex::new(Vec::new()));
    let mut s = session(&log);
    s.cancel();
    assert!(!s.is_cancelled());
    s.begin().unwrap();
    s.cancel();
    assert!(s.is_cancelled());
    let mut t = session(&log);
    t.begin().unwrap();
    t.end(true);
    t.cancel();
    assert!(!t.is_cancelled());
}

#[test]
fn handshakes_and_vessels() {
    let log = Arc::new(Mutex::new(Vec::new()));
    let mut s = session(&log);
    let own = s.own_handshake();
    assert_eq!((own.profile.id.as_str(), own.profile.name.as_str()), ("me", "Me"));
    s.accept_handshake(handshake());
    assert_eq!(log.lock().unwrap().clone(), vec!["connecting s Sender".to_string()]);
    let names = s.vessel_names();
    assert_eq!(names, vec!["f1".to_string(), "f2".to_string()]);
    assert_eq!(find_vessel(&names, &"f2".to_string()), Some(1));
    assert_eq!(find_vessel(&names, &"zz".to_string()), None);
    let files = s.received_files(vec![PathBuf::from("/tmp/f1"), PathBuf::from("/tmp/f2")]);
    assert_eq!(files.iter().map(|f| (f.id.as_str(), f.name.as_str())).collect::<Vec<_>>(), vec![("f1", "one"), ("f2", "two")]);
    assert_eq!(files[1].data.path(), &PathBuf::from("/tmp/f2"));
    assert_eq!(files[1].data.offset(), 0);
}

#[test]
fn received_files_take_the_first_name_of_a_repeated_id() {
    let log = Arc::new(Mutex::new(Vec::new()));
    let mut s = session(&log);
    let mut h = handshake();
    h.files[1].id = "f1".to_string();
    s.accept_handshake(h);
    let files = s.received_files(vec![PathBuf::from("/a"), PathBuf::from("/b")]);
    assert_eq!(files[1].name, "one");
}

#[test]
fn receiving_events_report_byte_counts() {
    let log = Arc::new(Mutex::new(Vec::new()));
    let mut s = session(&log);
    let p = FileProjection { id: "f1".to_string(), data: vec![1, 2, 3] };
    let e = receiving_event(&p);
    assert_eq!((e.id.as_str(), e.received), ("f1", 3));
    s.notify_receiving(&p);
    assert_eq!(log.lock().unwrap().clone(), vec!["receiving f1 3".to_string()]);
    s.unsubscribe_id(&"a".to_string());
    s.notify_receiving(&p);
    assert_eq!(log.lock().unwrap().len(), 1);
}

#[test]
fn only_a_finished_close_ends_a_reception() {
    assert!(is_finished_close(200, b"Finished."));
    assert!(!is_finished_close(200, b"Finished"));
    assert!(!is_finished_close(0, b"Finished."));
    assert!(!is_finished_close(200, b"Finishes."));
}

#[test]
fn what_follows_the_wait_for_a_stream() {
    assert_eq!(after_accept_uni(&UniOutcome::Opened).unwrap(), true);
    assert_eq!(after_accept_uni(&UniOutcome::ApplicationClosed(200, b"Finished.".to_vec())).unwrap(), false);
    for outcome in [UniOutcome::ApplicationClosed(0, b"Finished.".to_vec()), UniOutcome::Failed] {
        match after_accept_uni(&outcome) {
            Err(ReceiverError::TODO(m)) => assert_eq!(m, "Connection unexpectedly closed."),
            Ok(_) => panic!("a failed connection was taken for a stream"),
        }
    }
}

#[test]
fn a_cancelled_reception_goes_no_further() {
    let log = Arc::new(Mutex::new(Vec::new()));
    let mut s = session(&log);
    s.begin().unwrap();
    assert!(s.ensure_not_cancelled().is_ok());
    s.cancel();
    match s.ensure_not_cancelled() {
        Err(ReceiverError::TODO(m)) => assert_eq!(m, "Receive files has been cancelled."),
        Ok(()) => panic!("a cancelled reception went on"),
    }
}

#[test]
fn projection_headers() {
    assert_eq!(decode_projection_header(None, [0, 0]).unwrap(), None);
    assert_eq!(decode_projection_header(Some(2), [1, 2]).unwrap(), Some(258));
    match decode_projection_header(Some(1), [1, 2]) {
        Err(ReceiverError::TODO(m)) => assert_eq!(m, "Invalid data chunk length."),
        Ok(_) => panic!("a short header was accepted"),
    }
}

#[test]
fn receiver_profiles_get_fresh_ids() {
    let request = ReceiveFilesRequest {
        ticket: "t".to_string(),
        confirmation: 7,
        profile: ReceiverProfile { name: "R".to_string() },
    };
    let p = receiver_profile(&request);
    assert_eq!(p.name, "R");
    assert_eq!(p.id.len(), 36);
}

struct FfiRecorder(Arc<Mutex<Vec<String>>>);

impl FfiSubscriber for FfiRecorder {
    fn get_id(&self) -> String {
        "ffi".to_string()
    }

    fn notify_receiving(&self, event: FfiReceiving) {
        self.0.lock().unwrap().push(format!("{} {}", event.id, event.received));
    }

    fn notify_connecting(&self, event: FfiConnecting) {
        self.0.lock().unwrap().push(format!("{} {}", event.sender.id, event.sender.name));
    }
}

#[test]
fn interface_adapts_requests_files_and_events() {
    let r = create_adapted_request(FfiRequest {
        ticket: "tk".to_string(),
        confirmation: 42,
        profile: FfiProfile { name: "N".to_string() },
    });
    assert_eq!((r.ticket.as_str(), r.confirmation, r.profile.name.as_str()), ("tk", 42, "N"));

    let log = Arc::new(Mutex::new(Vec::new()));
    let mut s: ReceiveFilesSession<ReceiveFilesSubscriberAdapter<FfiRecorder>> =
        ReceiveFilesSession::new(Profile { id: "me".to_string(), name: "Me".to_string() });
    s.subscribe(ReceiveFilesSubscriberAdapter { inner: FfiRecorder(log.clone()) });
    s.accept_handshake(handshake());
    s.notify_receiving(&FileProjection { id: "f2".to_string(), data: vec![0; 5] });
    assert_eq!(log.lock().unwrap().clone(), vec!["s Sender".to_string(), "f2 5".to_string()]);

    let files = adapt_files(s.received_files(vec![PathBuf::from("/p1"), PathBuf::from("/p2")]));
    assert_eq!(files.len(), 2);
    assert_eq!((files[0].id.as_str(), files[0].name.as_str()), ("f1", "one"));
    let mut data = files.into_iter().nth(1).unwrap().data;
    let contents = [9u8, 8];
    assert_eq!(data.len(&contents), 2);
    assert_eq!(data.read(&contents), Some(9));
    assert_eq!(data.read(&contents), Some(8));
    assert_eq!(data.read(&contents), None);
    assert_eq!(data.inner().path(), &PathBuf::from("/p2"));
}

#[test]
fn command_line_profiles() {
    assert_eq!(get_sender_profile().name, "sender-cli");
    assert_eq!(get_receiver_profile().name, "receiver-cli");
}

#[test]
fn reading_the_rest_gives_the_bytes_from_the_offset() {
    let mut d = ReceiverFileData::new(PathBuf::from("/tmp/x"));
    let contents = [5u8, 6, 7];
    assert_eq!(d.read(&contents), Some(5));
    assert_eq!(d.read_rest(&contents), vec![6, 7]);
    assert_eq!(d.offset(), 3);
    assert_eq!(d.read_rest(&contents), Vec::<u8>::new());
    assert_eq!(d.read(&contents), None);
}

#[test]
fn the_command_line_file_reads_its_first_byte_every_time() {
    let f = CustomSenderFileData::new(PathBuf::from("/tmp/y"));
    assert_eq!(f.path(), &PathBuf::from("/tmp/y"));
    assert_eq!(f.len(&[9, 8]), 2);
    assert_eq!(f.read(&[9, 8]), Some(9));
    assert_eq!(f.read(&[9, 8]), Some(9));
    assert_eq!(f.read(&[]), None);
}

#[test]
fn a_reception_that_has_started_never_starts_again() {
    let log = Arc::new(Mutex::new(Vec::new()));
    let mut s = session(&log);
    s.begin().unwrap();
    assert!(s.begin().is_err());
    s.cancel();
    assert!(s.begin().is_err());
    s.end(false);
    assert!(s.begin().is_err());
}

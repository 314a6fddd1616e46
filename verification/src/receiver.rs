//! The receiving side: the state of one reception, the files that arrive,
//! and the decisions taken on what the sender's stream holds.
use vstd::prelude::*;
use std::path::PathBuf;
use crate::exchange::{first_index_of, lemma_first_index_of, lemma_is_first_index};
use crate::handshake::{announced_ids, FileProjection, HandshakeFile, HandshakeProfile, ReceiverHandshake, SenderHandshake};
use crate::ids::{is_hyphenated_uuid, new_uuid_string};
use crate::registry::Registry;
use crate::sender::Profile;
use crate::wire::{be_value_u16, u16_from_be_bytes};

verus! {

#[verifier::external_type_specification]
#[verifier::external_body]
pub struct ExPathBuf(PathBuf);

/// What can go wrong while files are received.
#[derive(Debug)]
pub enum ReceiverError {
    TODO(String),
}

/// The receiver as it presents itself.
pub struct ReceiverProfile {
    pub name: String,
}

/// A file that arrived.
pub struct ReceiverFile {
    pub id: String,
    pub name: String,
    pub data: ReceiverFileData,
}

/// A received file's bytes, kept at `path` and read one at a time from the
/// start.
pub struct ReceiverFileData {
    offset: u64,
    path: PathBuf,
}

/// The byte at `offset` of `contents`, if there is one.
pub open spec fn byte_at(contents: Seq<u8>, offset: int) -> Option<u8> {
    if 0 <= offset < contents.len() {
        Some(contents[offset])
    } else {
        None
    }
}

/// The bytes that `k` reads give, starting at `offset`.
pub open spec fn bytes_read(contents: Seq<u8>, offset: int, k: nat) -> Seq<u8>
    decreases k,
{
    if k == 0 {
        seq![]
    } else if 0 <= offset < contents.len() {
        seq![contents[offset]] + bytes_read(contents, offset + 1, (k - 1) as nat)
    } else {
        bytes_read(contents, offset, (k - 1) as nat)
    }
}

impl ReceiverFileData {
    /// The position of the next byte to read.
    pub closed spec fn spec_offset(&self) -> u64 {
        self.offset
    }

    /// Where the bytes are kept.
    pub closed spec fn spec_path(&self) -> PathBuf {
        self.path
    }

    /// Reading starts at the first byte of the file at `path`.
    pub fn new(path: PathBuf) -> (r: Self)
        ensures
            r.spec_offset() == 0,
            r.spec_path() == path,
    {
        ReceiverFileData { offset: 0, path }
    }

    /// The number of bytes, given the file's `contents`.
    pub fn len(&self, contents: &[u8]) -> (r: u64)
        ensures
            r == contents@.len(),
    {
        contents.len() as u64
    }

    /// The next byte of `contents`, if any is left; reading moves on by one
    /// byte only where there was one.
    pub fn read(&mut self, contents: &[u8]) -> (r: Option<u8>)
        ensures
            r == byte_at(contents@, old(self).spec_offset() as int),
            final(self).spec_path() == old(self).spec_path(),
            final(self).spec_offset() == if r is Some { old(self).spec_offset() + 1 } else { old(self).spec_offset() as int },
    {
        if (self.offset as u128) < (contents.len() as u128) {
            let b = contents[self.offset as usize];
            self.offset = self.offset + 1;
            Some(b)
        } else {
            None
        }
    }

    /// Reads until a read gives `None`: the bytes of `contents` from the
    /// offset on, in order, after which the offset stands at the end.
    pub fn read_rest(&mut self, contents: &[u8]) -> (r: Vec<u8>)
        ensures
            old(self).spec_offset() <= contents@.len() ==> r@ == contents@.skip(old(self).spec_offset() as int),
            old(self).spec_offset() > contents@.len() ==> r@ == Seq::<u8>::empty(),
            final(self).spec_path() == old(self).spec_path(),
            final(self).spec_offset() == if old(self).spec_offset() <= contents@.len() {
                contents@.len() as int
            } else {
                old(self).spec_offset() as int
            },
    {
        let ghost start = self.offset;
        let mut out: Vec<u8> = Vec::new();
        loop
            invariant_except_break
                self.spec_path() == old(self).spec_path(),
                start == old(self).spec_offset(),
                start <= contents@.len() ==> start <= self.spec_offset() <= contents@.len()
                    && out@ == contents@.subrange(start as int, self.spec_offset() as int),
                start > contents@.len() ==> self.spec_offset() == start && out@ == Seq::<u8>::empty(),
            ensures
                self.spec_path() == old(self).spec_path(),
                start <= contents@.len() ==> self.spec_offset() == contents@.len()
                    && out@ == contents@.subrange(start as int, contents@.len() as int),
                start > contents@.len() ==> self.spec_offset() == start && out@ == Seq::<u8>::empty(),
            decreases contents@.len() - self.spec_offset(),
        {
            match self.read(contents) {
                None => {
                    break;
                },
                Some(b) => {
                    out.push(b);
                    assert(out@ =~= contents@.subrange(start as int, self.spec_offset() as int));
                },
            }
        }
        out
    }

    /// Where the bytes are kept.
    pub fn path(&self) -> (r: &PathBuf)
        ensures
            *r == self.spec_path(),
    {
        &self.path
    }

    /// The position of the next byte to read.
    pub fn offset(&self) -> (r: u64)
        ensures
            r == self.spec_offset(),
    {
        self.offset
    }
}

/// Reading a file's bytes one at a time from any position gives the bytes
/// from there on, in order, until they run out.
pub proof fn law_reads_give_contents_in_order(contents: Seq<u8>, offset: int, k: nat)
    requires
        0 <= offset <= contents.len(),
    ensures
        bytes_read(contents, offset, k) == contents.subrange(
            offset,
            if offset + k <= contents.len() { offset + k } else { contents.len() as int },
        ),
    decreases k,
{
    if k > 0 {
        law_reads_give_contents_in_order(contents, if offset < contents.len() { offset + 1 } else { offset }, (k - 1) as nat);
        if offset < contents.len() {
            let end = if offset + k <= contents.len() { offset + k } else { contents.len() as int };
            assert(seq![contents[offset]] + contents.subrange(offset + 1, end) =~= contents.subrange(offset, end));
        } else {
            assert(contents.subrange(offset, offset) =~= seq![]);
        }
    } else {
        assert(contents.subrange(offset, offset) =~= seq![]);
    }
}

/// What a receiver needs to reach a sender.
pub struct ReceiveFilesRequest {
    pub ticket: String,
    pub confirmation: u8,
    pub profile: ReceiverProfile,
}

/// Told of the progress of a reception.
pub trait ReceiveFilesSubscriber: Send + Sync {
    fn get_id(&self) -> String;

    fn notify_receiving(&self, event: ReceiveFilesReceivingEvent);

    fn notify_connecting(&self, event: ReceiveFilesConnectingEvent);
}

/// A piece of a file arrived.
#[derive(Debug, Clone)]
pub struct ReceiveFilesReceivingEvent {
    pub id: String,
    pub received: u64,
}

/// The sender connected.
#[derive(Debug, Clone)]
pub struct ReceiveFilesConnectingEvent {
    pub sender: ReceiveFilesProfile,
}

/// The sender as its handshake presents it.
#[derive(Debug, Clone)]
pub struct ReceiveFilesProfile {
    pub id: String,
    pub name: String,
}

/// The receiver's profile for a request, under a freshly drawn id.
pub fn receiver_profile(request: &ReceiveFilesRequest) -> (r: Profile)
    ensures
        r.name@ == request.profile.name@,
        is_hyphenated_uuid(r.id@),
{
    Profile { id: new_uuid_string(), name: request.profile.name.clone() }
}

/// The flags of a reception: whether it is running, has been started, has
/// finished, has been cancelled.
pub struct ReceptionFlags {
    pub running: bool,
    pub consumed: bool,
    pub finished: bool,
    pub cancelled: bool,
}

/// The flags that a reception can reach: it runs and finishes only once
/// started, and never runs once finished.
pub open spec fn flags_wf(f: ReceptionFlags) -> bool {
    &&& (f.running || f.finished) ==> f.consumed
    &&& !(f.running && f.finished)
}

/// The flags after an attempt to start, and whether it was allowed: only a
/// reception that never started may start.
pub open spec fn start_step(f: ReceptionFlags) -> (ReceptionFlags, bool) {
    if f.running || f.consumed || f.finished {
        (f, false)
    } else {
        (ReceptionFlags { running: true, consumed: true, finished: false, cancelled: f.cancelled }, true)
    }
}

/// The flags after the run ends, successfully or not.
pub open spec fn end_step(f: ReceptionFlags, succeeded: bool) -> ReceptionFlags {
    ReceptionFlags { running: false, consumed: f.consumed, finished: f.finished || succeeded, cancelled: f.cancelled }
}

/// The flags after a cancellation: it takes effect only while the reception
/// runs and has not finished.
pub open spec fn cancel_step(f: ReceptionFlags) -> ReceptionFlags {
    if !f.running || f.finished {
        f
    } else {
        ReceptionFlags { cancelled: true, ..f }
    }
}

/// How many of the attempts to start, made in turn, are allowed.
pub open spec fn starts_allowed(f: ReceptionFlags, attempts: nat) -> nat
    decreases attempts,
{
    if attempts == 0 {
        0
    } else {
        let (g, ok) = start_step(f);
        (if ok { 1nat } else { 0nat }) + starts_allowed(g, (attempts - 1) as nat)
    }
}

/// A reception starts at most once, however often it is asked to.
pub proof fn law_start_at_most_once(f: ReceptionFlags, attempts: nat)
    ensures
        starts_allowed(f, attempts) <= 1,
        f.consumed ==> starts_allowed(f, attempts) == 0,
    decreases attempts,
{
    if attempts > 0 {
        let (g, ok) = start_step(f);
        law_start_at_most_once(g, (attempts - 1) as nat);
    }
}

/// Once an attempt to start has returned, whether it was allowed or not, the
/// reception is consumed, and every further attempt is refused: right away,
/// after the run ends, or after a cancellation.
pub proof fn law_no_second_start(f: ReceptionFlags, succeeded: bool)
    requires
        flags_wf(f),
    ensures
        start_step(f).0.consumed,
        !start_step(start_step(f).0).1,
        start_step(f).0.running ==> !start_step(end_step(start_step(f).0, succeeded)).1,
        !start_step(cancel_step(start_step(f).0)).1,
{
}

/// Every step of a reception keeps its flags reachable.
pub proof fn law_steps_keep_flags_wf(f: ReceptionFlags, succeeded: bool)
    requires
        flags_wf(f),
    ensures
        flags_wf(start_step(f).0),
        f.running ==> flags_wf(end_step(f, succeeded)),
        flags_wf(cancel_step(f)),
{
}

/// The state of one reception: the receiver's profile, the sender's
/// handshake once it has arrived, the flags and the subscribers.
pub struct ReceiveFilesSession<S> {
    profile: Profile,
    their_handshake: Option<SenderHandshake>,
    is_running: bool,
    is_consumed: bool,
    is_finished: bool,
    is_cancelled: bool,
    subscribers: Registry<S>,
}

impl<S: ReceiveFilesSubscriber> ReceiveFilesSession<S> {
    /// The flags.
    pub closed spec fn flags(&self) -> ReceptionFlags {
        ReceptionFlags {
            running: self.is_running,
            consumed: self.is_consumed,
            finished: self.is_finished,
            cancelled: self.is_cancelled,
        }
    }

    /// The receiver's profile.
    pub closed spec fn spec_profile(&self) -> Profile {
        self.profile
    }

    /// The sender's handshake, once it has arrived.
    pub closed spec fn spec_handshake(&self) -> Option<SenderHandshake> {
        self.their_handshake
    }

    /// The subscribers, by id.
    pub closed spec fn spec_subscribers(&self) -> Map<Seq<char>, S> {
        self.subscribers.view()
    }

    /// The session's invariant.
    pub closed spec fn wf(&self) -> bool {
        &&& flags_wf(self.flags())
        &&& self.subscribers.wf()
    }

    /// The flags of a well-formed session are reachable ones.
    pub proof fn lemma_wf_flags(&self)
        requires
            self.wf(),
        ensures
            flags_wf(self.flags()),
    {
    }

    /// A reception for `profile` that has not started.
    pub fn new(profile: Profile) -> (r: Self)
        ensures
            r.wf(),
            r.flags() == (ReceptionFlags { running: false, consumed: false, finished: false, cancelled: false }),
            r.spec_profile() == profile,
            r.spec_handshake() is None,
            r.spec_subscribers() == Map::<Seq<char>, S>::empty(),
    {
        ReceiveFilesSession {
            profile,
            their_handshake: None,
            is_running: false,
            is_consumed: false,
            is_finished: false,
            is_cancelled: false,
            subscribers: Registry::new(),
        }
    }

    /// Starts the reception, unless it is running, has run or has finished.
    pub fn begin(&mut self) -> (r: Result<(), ReceiverError>)
        requires
            old(self).wf(),
        ensures
            final(self).wf(),
            (final(self).flags(), r is Ok) == start_step(old(self).flags()),
            final(self).flags().consumed,
            r matches Err(ReceiverError::TODO(m)) ==> m@ == "Already running or has run or finished."@,
            final(self).spec_profile() == old(self).spec_profile(),
            final(self).spec_handshake() == old(self).spec_handshake(),
            final(self).spec_subscribers() == old(self).spec_subscribers(),
    {
        if self.is_running() || self.is_consumed() || self.is_finished() {
            return Err(ReceiverError::TODO(String::from_str("Already running or has run or finished.")));
        }
        self.is_running = true;
        self.is_consumed = true;
        Ok(())
    }

    /// The run has ended; it finished where it succeeded.
    pub fn end(&mut self, succeeded: bool)
        requires
            old(self).wf(),
            old(self).flags().running,
        ensures
            final(self).wf(),
            final(self).flags() == end_step(old(self).flags(), succeeded),
            final(self).spec_profile() == old(self).spec_profile(),
            final(self).spec_handshake() == old(self).spec_handshake(),
            final(self).spec_subscribers() == old(self).spec_subscribers(),
    {
        self.is_running = false;
        if succeeded {
            self.is_finished = true;
        }
    }

    /// Asks a running reception to stop.
    pub fn cancel(&mut self)
        requires
            old(self).wf(),
        ensures
            final(self).wf(),
            final(self).flags() == cancel_step(old(self).flags()),
            final(self).spec_profile() == old(self).spec_profile(),
            final(self).spec_handshake() == old(self).spec_handshake(),
            final(self).spec_subscribers() == old(self).spec_subscribers(),
    {
        if !self.is_running() || self.is_finished() {
            return;
        }
        self.is_cancelled = true;
    }

    /// Refuses to go on once the reception has been cancelled.
    pub fn ensure_not_cancelled(&self) -> (r: Result<(), ReceiverError>)
        ensures
            r is Ok <==> !self.flags().cancelled,
            r matches Err(ReceiverError::TODO(m)) ==> m@ == "Receive files has been cancelled."@,
    {
        if self.is_cancelled {
            return Err(ReceiverError::TODO(String::from_str("Receive files has been cancelled.")));
        }
        Ok(())
    }

    fn is_running(&self) -> (r: bool)
        ensures
            r == self.flags().running,
    {
        self.is_running
    }

    fn is_consumed(&self) -> (r: bool)
        ensures
            r == self.flags().consumed,
    {
        self.is_consumed
    }

    /// Whether the reception has finished.
    pub fn is_finished(&self) -> (r: bool)
        ensures
            r == self.flags().finished,
    {
        self.is_finished
    }

    /// Whether the reception has been cancelled.
    pub fn is_cancelled(&self) -> (r: bool)
        ensures
            r == self.flags().cancelled,
    {
        self.is_cancelled
    }

    /// Keeps `subscriber` under the id that it gives.
    pub fn subscribe(&mut self, subscriber: S)
        requires
            old(self).wf(),
        ensures
            final(self).wf(),
            exists|id: String| call_ensures(S::get_id, (&subscriber,), id)
                && final(self).spec_subscribers() == #[trigger] old(self).spec_subscribers().insert(id@, subscriber),
            final(self).flags() == old(self).flags(),
            final(self).spec_profile() == old(self).spec_profile(),
            final(self).spec_handshake() == old(self).spec_handshake(),
    {
        let ghost s = subscriber;
        let id = subscriber.get_id();
        self.subscribe_as(id, subscriber);
        assert(self.spec_subscribers() == old(self).spec_subscribers().insert(id@, s));
    }

    /// Keeps `subscriber` under `id`.
    pub fn subscribe_as(&mut self, id: String, subscriber: S)
        requires
            old(self).wf(),
        ensures
            final(self).wf(),
            final(self).spec_subscribers() == old(self).spec_subscribers().insert(id@, subscriber),
            final(self).flags() == old(self).flags(),
            final(self).spec_profile() == old(self).spec_profile(),
            final(self).spec_handshake() == old(self).spec_handshake(),
    {
        self.subscribers.insert(id, subscriber);
    }

    /// Drops the subscriber kept under the id that `subscriber` gives.
    pub fn unsubscribe(&mut self, subscriber: S)
        requires
            old(self).wf(),
        ensures
            final(self).wf(),
            exists|id: String| call_ensures(S::get_id, (&subscriber,), id)
                && final(self).spec_subscribers() == #[trigger] old(self).spec_subscribers().remove(id@),
            final(self).flags() == old(self).flags(),
            final(self).spec_profile() == old(self).spec_profile(),
            final(self).spec_handshake() == old(self).spec_handshake(),
    {
        let id = subscriber.get_id();
        self.unsubscribe_id(&id);
        assert(self.spec_subscribers() == old(self).spec_subscribers().remove(id@));
    }

    /// Drops the subscriber kept under `id`.
    pub fn unsubscribe_id(&mut self, id: &String)
        requires
            old(self).wf(),
        ensures
            final(self).wf(),
            final(self).spec_subscribers() == old(self).spec_subscribers().remove(id@),
            final(self).flags() == old(self).flags(),
            final(self).spec_profile() == old(self).spec_profile(),
            final(self).spec_handshake() == old(self).spec_handshake(),
    {
        self.subscribers.remove(id);
    }

    /// The receiver's handshake: its profile.
    pub fn own_handshake(&self) -> (r: ReceiverHandshake)
        ensures
            r.profile.id@ == self.spec_profile().id@,
            r.profile.name@ == self.spec_profile().name@,
    {
        ReceiverHandshake { profile: HandshakeProfile { id: self.profile.id.clone(), name: self.profile.name.clone() } }
    }

    /// Keeps the sender's handshake and tells every subscriber that the
    /// sender connected.
    pub fn accept_handshake(&mut self, handshake: SenderHandshake)
        requires
            old(self).wf(),
        ensures
            final(self).wf(),
            final(self).spec_handshake() == Some(handshake),
            final(self).flags() == old(self).flags(),
            final(self).spec_profile() == old(self).spec_profile(),
            final(self).spec_subscribers() == old(self).spec_subscribers(),
    {
        let mut i: usize = 0;
        while i < self.subscribers.len()
            decreases self.subscribers.entries().len() - i,
        {
            self.subscribers.value_at(i).notify_connecting(connecting_event(&handshake));
            i = i + 1;
        }
        self.their_handshake = Some(handshake);
    }

    /// The names of the vessels that receive the files: the ids of the
    /// announced files, in order.
    pub fn vessel_names(&self) -> (r: Vec<String>)
        requires
            self.spec_handshake() is Some,
        ensures
            r@.map_values(|s: String| s@) == announced_ids(self.spec_handshake()->0.files@),
    {
        let files = &self.their_handshake.as_ref().unwrap().files;
        let mut out: Vec<String> = Vec::new();
        let mut i: usize = 0;
        while i < files.len()
            invariant
                i <= files@.len(),
                out@.map_values(|s: String| s@) == announced_ids(files@).take(i as int),
            decreases files@.len() - i,
        {
            let ghost before = out@.map_values(|s: String| s@);
            let id = files[i].id.clone();
            out.push(id);
            assert(out@.map_values(|s: String| s@) =~= before.push(files@[i as int].id@));
            assert(announced_ids(files@).take(i + 1) =~= announced_ids(files@).take(i as int).push(files@[i as int].id@));
            i = i + 1;
        }
        assert(announced_ids(files@).take(i as int) =~= announced_ids(files@));
        out
    }

    /// Tells every subscriber that `projection` arrived.
    pub fn notify_receiving(&self, projection: &FileProjection) {
        let mut i: usize = 0;
        while i < self.subscribers.len()
            decreases self.subscribers.entries().len() - i,
        {
            self.subscribers.value_at(i).notify_receiving(receiving_event(projection));
            i = i + 1;
        }
    }

    /// The files that arrived: the `i`-th vessel, kept at `paths[i]`, holds
    /// the `i`-th announced file, named as the first announcement of its id.
    pub fn received_files(&self, paths: Vec<PathBuf>) -> (r: Vec<ReceiverFile>)
        requires
            self.spec_handshake() is Some,
            paths@.len() == self.spec_handshake()->0.files@.len(),
        ensures
            r@.len() == paths@.len(),
            forall|i: int| 0 <= i < r@.len() ==> {
                let files = self.spec_handshake()->0.files@;
                &&& (#[trigger] r@[i]).id@ == files[i].id@
                &&& r@[i].name@ == files[first_index_of(announced_ids(files), files[i].id@)].name@
                &&& r@[i].data.spec_path() == paths@[i]
                &&& r@[i].data.spec_offset() == 0
            },
    {
        let files = &self.their_handshake.as_ref().unwrap().files;
        let ghost ids = announced_ids(files@);
        let mut paths = paths;
        let ghost all = paths@;
        let mut out: Vec<ReceiverFile> = Vec::new();
        while paths.len() > 0
            invariant
                out@.len() + paths@.len() == all.len(),
                all.len() == files@.len(),
                ids == announced_ids(files@),
                paths@ == all.skip(out@.len() as int),
                forall|i: int| 0 <= i < out@.len() ==> {
                    &&& (#[trigger] out@[i]).id@ == files@[i].id@
                    &&& out@[i].name@ == files@[first_index_of(ids, files@[i].id@)].name@
                    &&& out@[i].data.spec_path() == all[i]
                    &&& out@[i].data.spec_offset() == 0
                },
            decreases paths@.len(),
        {
            let i = out.len();
            let path = paths.remove(0);
            assert(path == all[i as int]);
            let id = &files[i].id;
            assert(ids[i as int] == files@[i as int].id@);
            let j = first_announced(files, id);
            out.push(ReceiverFile { id: id.clone(), name: files[j].name.clone(), data: ReceiverFileData::new(path) });
            assert(paths@ =~= all.skip(out@.len() as int));
        }
        out
    }
}

/// The position of the first announcement of `id`, which occurs among them.
fn first_announced(files: &Vec<HandshakeFile>, id: &String) -> (r: usize)
    requires
        announced_ids(files@).contains(id@),
    ensures
        r == first_index_of(announced_ids(files@), id@),
        r < files@.len(),
{
    let ghost ids = announced_ids(files@);
    proof {
        lemma_first_index_of(ids, id@);
    }
    let mut i: usize = 0;
    while i < files.len()
        invariant
            i <= files@.len(),
            ids == announced_ids(files@),
            ids.contains(id@),
            forall|j: int| 0 <= j < i ==> ids[j] != id@,
        decreases files@.len() - i,
    {
        if files[i].id == *id {
            proof {
                lemma_is_first_index(ids, id@, i as int);
            }
            return i;
        }
        i = i + 1;
    }
    proof {
        let k = choose|k: int| 0 <= k < ids.len() && ids[k] == id@;
        assert(ids[k] != id@);
    }
    0
}

/// The position of the vessel named `id`, where the bytes of that file go.
pub fn find_vessel(names: &Vec<String>, id: &String) -> (r: Option<usize>)
    ensures
        match r {
            Some(i) => i == first_index_of(names@.map_values(|s: String| s@), id@),
            None => first_index_of(names@.map_values(|s: String| s@), id@) == -1,
        },
{
    let ghost ks = names@.map_values(|s: String| s@);
    let mut i: usize = 0;
    while i < names.len()
        invariant
            i <= names@.len(),
            ks == names@.map_values(|s: String| s@),
            forall|j: int| 0 <= j < i ==> ks[j] != id@,
        decreases names@.len() - i,
    {
        if names[i] == *id {
            proof {
                lemma_is_first_index(ks, id@, i as int);
            }
            return Some(i);
        }
        i = i + 1;
    }
    proof {
        lemma_is_first_index(ks, id@, -1);
    }
    None
}

/// The event that tells that the sender of `handshake` connected.
pub fn connecting_event(handshake: &SenderHandshake) -> (r: ReceiveFilesConnectingEvent)
    ensures
        r.sender.id@ == handshake.profile.id@,
        r.sender.name@ == handshake.profile.name@,
{
    ReceiveFilesConnectingEvent {
        sender: ReceiveFilesProfile { id: handshake.profile.id.clone(), name: handshake.profile.name.clone() },
    }
}

/// The event that tells that `projection` arrived.
pub fn receiving_event(projection: &FileProjection) -> (r: ReceiveFilesReceivingEvent)
    ensures
        r.id@ == projection.id@,
        r.received == projection.data@.len(),
{
    ReceiveFilesReceivingEvent { id: projection.id.clone(), received: projection.data.len() as u64 }
}

/// The bytes of the reason "Finished.".
pub open spec fn finished_reason() -> Seq<u8> {
    seq![70u8, 105u8, 110u8, 105u8, 115u8, 104u8, 101u8, 100u8, 46u8]
}

/// Whether the sender closed the connection to say that it sent everything:
/// an application close with code 200 and the reason "Finished.".
pub fn is_finished_close(error_code: u64, reason: &[u8]) -> (r: bool)
    ensures
        r == (error_code == 200 && reason@ == finished_reason()),
{
    if error_code != 200 || reason.len() != 9 {
        return false;
    }
    let expected: [u8; 9] = [70, 105, 110, 105, 115, 104, 101, 100, 46];
    let mut i: usize = 0;
    while i < 9
        invariant
            i <= 9,
            reason@.len() == 9,
            expected@ == finished_reason(),
            forall|k: int| 0 <= k < i ==> reason@[k] == finished_reason()[k],
        decreases 9 - i,
    {
        if reason[i] != expected[i] {
            return false;
        }
        i = i + 1;
    }
    assert(reason@ =~= finished_reason());
    true
}

/// How the wait for the sender's next stream ended: a stream opened, the
/// sender closed the connection with an application code and reason, or the
/// connection failed otherwise.
pub enum UniOutcome {
    Opened,
    ApplicationClosed(u64, Vec<u8>),
    Failed,
}

/// What the receiver does after waiting for the sender's next stream: read
/// the stream that opened (`Ok(true)`), stop because the sender closed the
/// connection to say that it sent everything (`Ok(false)`), or fail.
pub fn after_accept_uni(outcome: &UniOutcome) -> (r: Result<bool, ReceiverError>)
    ensures
        outcome is Opened ==> r == Ok::<bool, ReceiverError>(true),
        outcome matches UniOutcome::ApplicationClosed(code, reason) && code == 200 && reason@ == finished_reason()
            ==> r == Ok::<bool, ReceiverError>(false),
        r is Err <==> !(outcome is Opened || (outcome matches UniOutcome::ApplicationClosed(code, reason) && code == 200
            && reason@ == finished_reason())),
        r matches Err(ReceiverError::TODO(m)) ==> m@ == "Connection unexpectedly closed."@,
{
    match outcome {
        UniOutcome::Opened => Ok(true),
        UniOutcome::ApplicationClosed(code, reason) => {
            if is_finished_close(*code, reason.as_slice()) {
                Ok(false)
            } else {
                Err(ReceiverError::TODO(String::from_str("Connection unexpectedly closed.")))
            }
        },
        UniOutcome::Failed => Err(ReceiverError::TODO(String::from_str("Connection unexpectedly closed."))),
    }
}

/// What the two-byte header of a projection says: `read` is how many bytes
/// the read into `header` gave, `None` where the stream had ended. A read
/// that gives other than two bytes is refused.
pub fn decode_projection_header(read: Option<usize>, header: [u8; 2]) -> (r: Result<Option<usize>, ReceiverError>)
    ensures
        read is None ==> r matches Ok(None),
        read == Some(2usize) ==> r == Ok::<Option<usize>, ReceiverError>(Some(be_value_u16(header@) as usize)),
        (read is Some && read != Some(2usize)) ==> (r matches Err(ReceiverError::TODO(m)) && m@ == "Invalid data chunk length."@),
{
    match read {
        None => Ok(None),
        Some(n) => {
            if n != 2 {
                return Err(ReceiverError::TODO(String::from_str("Invalid data chunk length.")));
            }
            Ok(Some(u16_from_be_bytes(header) as usize))
        },
    }
}

} // verus!

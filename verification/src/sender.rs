//! The sending side: the files on offer, the handler that serves one
//! receiver, and the pieces in which a file's bytes go out.
use vstd::prelude::*;
use crate::exchange::{node_ticket_parses, node_ticket_string, node_ticket_text, ConnectionRefusal};
use iroh_base::NodeAddr;
use crate::handshake::{FileProjection, HandshakeFile, HandshakeProfile, ReceiverHandshake, SenderHandshake};
use crate::ids::{fresh_id, id_texts, is_hyphenated_uuid, new_uuid_string};
use crate::registry::Registry;

verus! {

/// What can go wrong while files are offered.
#[derive(Debug)]
pub enum SenderError {
    TODO(String),
}

/// The sender as it presents itself.
pub struct SenderProfile {
    pub name: String,
}

/// The bytes of a file on offer, read one at a time. Implemented by the
/// library's users; `read` gives `None` once the bytes are exhausted.
pub trait SenderFileData: Send + Sync {
    fn len(&self) -> u64;

    fn read(&self) -> Option<u8>;
}

/// A file on offer.
pub struct SenderFile<D> {
    pub name: String,
    pub data: D,
}

/// What a sender offers: its profile and its files.
pub struct SendFilesRequest<D> {
    pub profile: SenderProfile,
    pub files: Vec<SenderFile<D>>,
}

/// The sender's profile under the id drawn for it.
#[derive(Debug, Clone)]
pub struct Profile {
    pub id: String,
    pub name: String,
}

/// A file on offer under the id drawn for it.
pub struct File<D> {
    pub id: String,
    pub name: String,
    pub data: D,
}

/// Everything that a handler serves: the profile and the files.
pub struct SendFilesHandlerResources<D> {
    pub profile: Profile,
    pub files: Vec<File<D>>,
}

/// Told of the progress of a transfer.
pub trait SendFilesSubscriber: Send + Sync {
    fn get_id(&self) -> String;

    fn notify_sending(&self, event: SendFilesSendingEvent);

    fn notify_connecting(&self, event: SendFilesConnectingEvent);
}

/// How far the sending of a file has come.
#[derive(Debug, Clone)]
pub struct SendFilesSendingEvent {
    pub name: String,
    pub sent: u64,
    pub remaining: u64,
}

/// A receiver connected.
#[derive(Debug, Clone)]
pub struct SendFilesConnectingEvent {
    pub receiver: SendFilesProfile,
}

/// The receiver as its handshake presents it.
#[derive(Debug, Clone)]
pub struct SendFilesProfile {
    pub id: String,
    pub name: String,
}

/// Draws ids for the sender and for every file on offer; the files' ids are
/// all different.
pub fn prepare_resources<D>(request: SendFilesRequest<D>) -> (r: SendFilesHandlerResources<D>)
    ensures
        r.profile.name == request.profile.name,
        is_hyphenated_uuid(r.profile.id@),
        r.files@.len() == request.files@.len(),
        forall|i: int| 0 <= i < r.files@.len() ==> {
            &&& is_hyphenated_uuid((#[trigger] r.files@[i]).id@)
            &&& r.files@[i].name == request.files@[i].name
            &&& r.files@[i].data == request.files@[i].data
        },
        forall|i: int, j: int| 0 <= i < r.files@.len() && 0 <= j < r.files@.len() && i != j
            ==> r.files@[i].id@ != r.files@[j].id@,
{
    let SendFilesRequest { profile, files } = request;
    let ghost given = files@;
    let profile = Profile { id: new_uuid_string(), name: profile.name };
    let mut files = files;
    let mut out: Vec<File<D>> = Vec::new();
    let mut taken: Vec<String> = Vec::new();
    while files.len() > 0
        invariant
            out@.len() + files@.len() == given.len(),
            files@ == given.skip(out@.len() as int),
            taken@.len() == out@.len(),
            forall|i: int| 0 <= i < out@.len() ==> {
                &&& is_hyphenated_uuid((#[trigger] out@[i]).id@)
                &&& out@[i].name == given[i].name
                &&& out@[i].data == given[i].data
                &&& taken@[i]@ == out@[i].id@
            },
            forall|a: int, b: int| 0 <= a < out@.len() && 0 <= b < out@.len() && a != b
                ==> out@[a].id@ != out@[b].id@,
        decreases files@.len(),
    {
        let ghost k = out@.len() as int;
        let f = files.remove(0);
        assert(f == given[k]);
        let SenderFile { name, data } = f;
        let id = fresh_id(&taken);
        proof {
            assert forall|a: int| 0 <= a < k implies out@[a].id@ != id@ by {
                assert(id_texts(taken@)[a] == taken@[a]@);
            }
        }
        taken.push(id.clone());
        out.push(File { id, name, data });
        assert(files@ =~= given.skip(out@.len() as int));
    }
    SendFilesHandlerResources { profile, files: out }
}

/// Reads up to `chunk_len` bytes from `data`, one `read` at a time, stopping
/// at the first read that gives `None`. Every byte of the chunk is one that a
/// `read` of `data` gave, in order; the second value tells whether a read gave
/// `None` before the chunk was full.
pub fn read_chunk<D: SenderFileData>(data: &D, chunk_len: u16) -> (r: (Vec<u8>, bool))
    ensures
        r.0@.len() <= chunk_len,
        r.1 <==> r.0@.len() < chunk_len,
        forall|i: int| 0 <= i < r.0@.len() ==> call_ensures(D::read, (data,), Some(#[trigger] r.0@[i])),
        r.1 ==> call_ensures(D::read, (data,), None::<u8>),
{
    let mut chunk: Vec<u8> = Vec::new();
    let mut i: u16 = 0;
    while i < chunk_len
        invariant
            i <= chunk_len,
            chunk@.len() == i,
            forall|k: int| 0 <= k < chunk@.len() ==> call_ensures(D::read, (data,), Some(#[trigger] chunk@[k])),
        decreases chunk_len - i,
    {
        let b = data.read();
        match b {
            None => {
                return (chunk, true);
            },
            Some(x) => {
                chunk.push(x);
            },
        }
        i = i + 1;
    }
    (chunk, false)
}

/// The number of bytes that a sender reads into one projection.
pub const SENDER_CHUNK_LEN: u16 = 1024;

/// The counts of a file's bytes sent and still to send, after `n` more.
pub fn advance_progress(sent: u64, remaining: u64, n: u64) -> (r: (u64, u64))
    requires
        n <= remaining,
        sent + n <= u64::MAX,
    ensures
        r.0 == sent + n,
        r.1 == remaining - n,
        r.0 + r.1 == sent + remaining,
{
    (sent + n, remaining - n)
}

/// The event that tells how far the sending of the file `name` has come.
pub fn sending_event(name: &String, sent: u64, remaining: u64) -> (r: SendFilesSendingEvent)
    ensures
        r.name@ == name@,
        r.sent == sent,
        r.remaining == remaining,
{
    SendFilesSendingEvent { name: name.clone(), sent, remaining }
}

/// The projection that carries `chunk` of the file `id`.
pub fn projection_for(id: &String, chunk: Vec<u8>) -> (r: FileProjection)
    ensures
        r.id@ == id@,
        r.data == chunk,
{
    FileProjection { id: id.clone(), data: chunk }
}

/// A piece of a file on its way out: the projection that carries it, the
/// counts of the file's bytes sent and still to send after it, and whether it
/// is the file's last piece.
pub struct FilePiece {
    pub projection: FileProjection,
    pub sent: u64,
    pub remaining: u64,
    pub is_last: bool,
}

/// The next piece of the file `id`, of which `sent` bytes have gone out and
/// `remaining` are still to go: up to `chunk_len` bytes read from `data`
/// under the file's id, the counts moved on by the bytes read, and whether a
/// read gave `None` before the piece was full, which makes it the last.
/// Where the file gives more bytes than it has left to send, the counts
/// cannot move on: the projection read is handed back as an error.
pub fn next_piece<D: SenderFileData>(id: &String, data: &D, sent: u64, remaining: u64, chunk_len: u16)
    -> (r: Result<FilePiece, FileProjection>)
    requires
        sent + remaining <= u64::MAX,
    ensures
        ({
            let p = match r {
                Ok(piece) => piece.projection,
                Err(projection) => projection,
            };
            &&& p.id@ == id@
            &&& p.data@.len() <= chunk_len
            &&& forall|i: int| 0 <= i < p.data@.len() ==> call_ensures(D::read, (data,), Some(#[trigger] p.data@[i]))
            &&& (r is Err <==> p.data@.len() > remaining)
        }),
        r matches Ok(piece) ==> {
            &&& piece.is_last <==> piece.projection.data@.len() < chunk_len
            &&& piece.is_last ==> call_ensures(D::read, (data,), None::<u8>)
            &&& piece.sent == sent + piece.projection.data@.len()
            &&& piece.remaining == remaining - piece.projection.data@.len()
        },
{
    let (chunk, is_last) = read_chunk(data, chunk_len);
    let n = chunk.len() as u64;
    let projection = projection_for(id, chunk);
    if n > remaining {
        return Err(projection);
    }
    let (sent, remaining) = advance_progress(sent, remaining, n);
    Ok(FilePiece { projection, sent, remaining, is_last })
}

/// The sender's handshake, with the byte counts `lens` of the files.
pub fn build_sender_handshake<D>(profile: &Profile, files: &Vec<File<D>>, lens: &Vec<u64>) -> (r: SenderHandshake)
    requires
        lens@.len() == files@.len(),
    ensures
        r.profile.id@ == profile.id@,
        r.profile.name@ == profile.name@,
        r.files@.len() == files@.len(),
        forall|i: int| 0 <= i < files@.len() ==> {
            &&& (#[trigger] r.files@[i]).id@ == files@[i].id@
            &&& r.files@[i].name@ == files@[i].name@
            &&& r.files@[i].len == lens@[i]
        },
{
    let mut out: Vec<HandshakeFile> = Vec::new();
    let mut i: usize = 0;
    while i < files.len()
        invariant
            i <= files@.len(),
            lens@.len() == files@.len(),
            out@.len() == i,
            forall|j: int| 0 <= j < i ==> {
                &&& (#[trigger] out@[j]).id@ == files@[j].id@
                &&& out@[j].name@ == files@[j].name@
                &&& out@[j].len == lens@[j]
            },
        decreases files@.len() - i,
    {
        out.push(HandshakeFile { id: files[i].id.clone(), name: files[i].name.clone(), len: lens[i] });
        i = i + 1;
    }
    SenderHandshake { profile: HandshakeProfile { id: profile.id.clone(), name: profile.name.clone() }, files: out }
}

/// The event that tells that the receiver of `their` handshake connected.
pub fn connecting_event(their: &ReceiverHandshake) -> (r: SendFilesConnectingEvent)
    ensures
        r.receiver.id@ == their.profile.id@,
        r.receiver.name@ == their.profile.name@,
{
    SendFilesConnectingEvent {
        receiver: SendFilesProfile { id: their.profile.id.clone(), name: their.profile.name.clone() },
    }
}

/// Serves the files of one offer to the first receiver that connects.
pub struct SendFilesHandler<D, S> {
    resources: SendFilesHandlerResources<D>,
    is_consumed: bool,
    is_finished: bool,
    subscribers: Registry<S>,
}

impl<D: SenderFileData, S: SendFilesSubscriber> SendFilesHandler<D, S> {
    /// The files served.
    pub closed spec fn spec_resources(&self) -> &SendFilesHandlerResources<D> {
        &self.resources
    }

    /// Whether a receiver has connected.
    pub closed spec fn spec_consumed(&self) -> bool {
        self.is_consumed
    }

    /// Whether the transfer has finished.
    pub closed spec fn spec_finished(&self) -> bool {
        self.is_finished
    }

    /// The subscribers, by id.
    pub closed spec fn spec_subscribers(&self) -> Map<Seq<char>, S> {
        self.subscribers.view()
    }

    /// One state of a handler leads to the next as its calls allow: the
    /// files stay, and neither being consumed nor being finished is undone.
    pub open spec fn moves_on(a: Self, b: Self) -> bool {
        &&& a.spec_resources() == b.spec_resources()
        &&& a.spec_consumed() ==> b.spec_consumed()
        &&& a.spec_finished() ==> b.spec_finished()
    }

    /// The handler's invariant: subscriber ids are distinct.
    pub closed spec fn wf(&self) -> bool {
        self.subscribers.wf()
    }

    /// A handler for `resources` that no receiver has connected to.
    pub fn new(resources: SendFilesHandlerResources<D>) -> (r: Self)
        ensures
            r.wf(),
            r.spec_resources() == &resources,
            !r.spec_consumed(),
            !r.spec_finished(),
            r.spec_subscribers() == Map::<Seq<char>, S>::empty(),
    {
        SendFilesHandler { resources, is_consumed: false, is_finished: false, subscribers: Registry::new() }
    }

    /// Whether the transfer has finished.
    pub fn get_is_finished(&self) -> (r: bool)
        ensures
            r == self.spec_finished(),
    {
        self.is_finished
    }

    /// Whether a receiver has connected.
    pub fn get_is_consumed(&self) -> (r: bool)
        ensures
            r == self.spec_consumed(),
    {
        self.is_consumed
    }

    /// The files served.
    pub fn resources(&self) -> (r: &SendFilesHandlerResources<D>)
        ensures
            r == self.spec_resources(),
    {
        &self.resources
    }

    /// Keeps `subscriber` under the id that it gives, in place of the
    /// subscriber kept under that id before.
    pub fn subscribe(&mut self, subscriber: S)
        requires
            old(self).wf(),
        ensures
            final(self).wf(),
            Self::moves_on(*old(self), *final(self)),
            exists|id: String| call_ensures(S::get_id, (&subscriber,), id)
                && final(self).spec_subscribers() == #[trigger] old(self).spec_subscribers().insert(id@, subscriber),
            final(self).spec_consumed() == old(self).spec_consumed(),
            final(self).spec_finished() == old(self).spec_finished(),
            final(self).spec_resources() == old(self).spec_resources(),
    {
        let ghost s = subscriber;
        let id = subscriber.get_id();
        self.subscribe_as(id, subscriber);
        assert(self.spec_subscribers() == old(self).spec_subscribers().insert(id@, s));
    }

    /// Keeps `subscriber` under `id`.
    pub fn subscribe_as(&mut self, id: String, subscriber: S)
        requires
            old(self).wf(),
        ensures
            final(self).wf(),
            Self::moves_on(*old(self), *final(self)),
            final(self).spec_subscribers() == old(self).spec_subscribers().insert(id@, subscriber),
            final(self).spec_consumed() == old(self).spec_consumed(),
            final(self).spec_finished() == old(self).spec_finished(),
            final(self).spec_resources() == old(self).spec_resources(),
    {
        self.subscribers.insert(id, subscriber);
    }

    /// Drops the subscriber kept under the id that `subscriber` gives.
    pub fn unsubscribe(&mut self, subscriber: S)
        requires
            old(self).wf(),
        ensures
            final(self).wf(),
            Self::moves_on(*old(self), *final(self)),
            exists|id: String| call_ensures(S::get_id, (&subscriber,), id)
                && final(self).spec_subscribers() == #[trigger] old(self).spec_subscribers().remove(id@),
            final(self).spec_consumed() == old(self).spec_consumed(),
            final(self).spec_finished() == old(self).spec_finished(),
            final(self).spec_resources() == old(self).spec_resources(),
    {
        let id = subscriber.get_id();
        self.unsubscribe_id(&id);
        assert(self.spec_subscribers() == old(self).spec_subscribers().remove(id@));
    }

    /// Drops the subscriber kept under `id`.
    pub fn unsubscribe_id(&mut self, id: &String)
        requires
            old(self).wf(),
        ensures
            final(self).wf(),
            Self::moves_on(*old(self), *final(self)),
            final(self).spec_subscribers() == old(self).spec_subscribers().remove(id@),
            final(self).spec_consumed() == old(self).spec_consumed(),
            final(self).spec_finished() == old(self).spec_finished(),
            final(self).spec_resources() == old(self).spec_resources(),
    {
        self.subscribers.remove(id);
    }

    /// A receiver tries to connect: the first one is let in and consumes the
    /// handler, every later one is turned away.
    pub fn on_connecting(&mut self) -> (r: Result<(), ConnectionRefusal>)
        requires
            old(self).wf(),
        ensures
            final(self).wf(),
            Self::moves_on(*old(self), *final(self)),
            r is Ok <==> !old(self).spec_consumed(),
            r is Err ==> r == Err::<(), ConnectionRefusal>(ConnectionRefusal::AlreadyConsumed),
            final(self).spec_consumed(),
            final(self).spec_finished() == old(self).spec_finished(),
            final(self).spec_resources() == old(self).spec_resources(),
            final(self).spec_subscribers() == old(self).spec_subscribers(),
    {
        if self.is_consumed {
            return Err(ConnectionRefusal::AlreadyConsumed);
        }
        self.is_consumed = true;
        Ok(())
    }

    /// The transfer has run to its end.
    pub fn mark_finished(&mut self)
        requires
            old(self).wf(),
        ensures
            final(self).wf(),
            Self::moves_on(*old(self), *final(self)),
            final(self).spec_finished(),
            final(self).spec_consumed() == old(self).spec_consumed(),
            final(self).spec_resources() == old(self).spec_resources(),
            final(self).spec_subscribers() == old(self).spec_subscribers(),
    {
        self.is_finished = true;
    }

    /// The sender's handshake: the profile, and every file with the byte
    /// count that its data reports.
    pub fn sender_handshake(&self) -> (r: SenderHandshake)
        ensures
            r.profile.id@ == self.spec_resources().profile.id@,
            r.profile.name@ == self.spec_resources().profile.name@,
            r.files@.len() == self.spec_resources().files@.len(),
            forall|i: int| 0 <= i < r.files@.len() ==> {
                &&& (#[trigger] r.files@[i]).id@ == self.spec_resources().files@[i].id@
                &&& r.files@[i].name@ == self.spec_resources().files@[i].name@
                &&& call_ensures(D::len, (&self.spec_resources().files@[i].data,), r.files@[i].len)
            },
    {
        let files = &self.resources.files;
        let mut lens: Vec<u64> = Vec::new();
        let mut i: usize = 0;
        while i < files.len()
            invariant
                i <= files@.len(),
                lens@.len() == i,
                forall|j: int| 0 <= j < i ==> call_ensures(D::len, (&files@[j].data,), #[trigger] lens@[j]),
            decreases files@.len() - i,
        {
            let n = files[i].data.len();
            lens.push(n);
            i = i + 1;
        }
        build_sender_handshake(&self.resources.profile, files, &lens)
    }

    /// The subscribers, by id; a transfer tells a copy of them taken when it
    /// starts.
    pub fn subscribers(&self) -> (r: &Registry<S>)
        requires
            self.wf(),
        ensures
            r.wf(),
            r.view() == self.spec_subscribers(),
    {
        &self.subscribers
    }

    /// Tells every subscriber that the receiver of `their` handshake connected.
    pub fn notify_connecting(&self, their: &ReceiverHandshake) {
        notify_connecting_all(&self.subscribers, their)
    }

    /// Tells every subscriber how far the sending of the file `name` has come.
    pub fn notify_sending(&self, name: &String, sent: u64, remaining: u64) {
        notify_sending_all(&self.subscribers, name, sent, remaining)
    }
}

/// Tells every one of `subscribers` that the receiver of `their` handshake
/// connected.
pub fn notify_connecting_all<S: SendFilesSubscriber>(subscribers: &Registry<S>, their: &ReceiverHandshake) {
    let mut i: usize = 0;
    while i < subscribers.len()
        decreases subscribers.entries().len() - i,
    {
        subscribers.value_at(i).notify_connecting(connecting_event(their));
        i = i + 1;
    }
}

/// Tells every one of `subscribers` how far the sending of the file `name`
/// has come.
pub fn notify_sending_all<S: SendFilesSubscriber>(subscribers: &Registry<S>, name: &String, sent: u64, remaining: u64) {
    let mut i: usize = 0;
    while i < subscribers.len()
        decreases subscribers.entries().len() - i,
    {
        subscribers.value_at(i).notify_sending(sending_event(name, sent, remaining));
        i = i + 1;
    }
}

/// A handler's finished flag is never cleared: along any run of calls on
/// it, once a state is finished, every later state is.
pub proof fn law_finished_never_cleared<D: SenderFileData, S: SendFilesSubscriber>(
    run: Seq<SendFilesHandler<D, S>>,
    i: int,
    j: int,
)
    requires
        forall|k: int| 0 <= k < run.len() - 1 ==> SendFilesHandler::moves_on(#[trigger] run[k], run[k + 1]),
        0 <= i <= j < run.len(),
        run[i].spec_finished(),
    ensures
        run[j].spec_finished(),
    decreases j - i,
{
    if i < j {
        assert(SendFilesHandler::moves_on(run[i], run[i + 1]));
        law_finished_never_cleared(run, i + 1, j);
    }
}

/// Over a file's transfer the bytes sent and the bytes still to send add up
/// to the count that the file reported at the start.
pub proof fn law_progress_accounts_for_every_byte(sent: u64, remaining: u64, n: u64)
    requires
        n <= remaining,
        sent + n <= u64::MAX,
    ensures
        (sent + n) + (remaining - n) == sent + remaining,
{
}


/// The ticket under which an offer from `addr` is found: one that the
/// receiving side accepts.
pub fn offer_ticket(addr: NodeAddr) -> (r: String)
    ensures
        r@ == node_ticket_text(addr),
        node_ticket_parses(r@),
        r@.len() >= 4 && r@.take(4) == "node"@,
{
    node_ticket_string(addr)
}

/// Whether an offer is over: its router is shut down or its transfer has
/// finished.
pub fn bubble_is_finished(router_is_shutdown: bool, handler_is_finished: bool) -> (r: bool)
    ensures
        r == (router_is_shutdown || handler_is_finished),
{
    router_is_shutdown || handler_is_finished
}

/// Whether a receiver is connected to an offer: one has connected and the
/// offer is not over.
pub fn bubble_is_connected(router_is_shutdown: bool, handler_is_finished: bool, handler_is_consumed: bool) -> (r: bool)
    ensures
        r == (!(router_is_shutdown || handler_is_finished) && handler_is_consumed),
{
    if bubble_is_finished(router_is_shutdown, handler_is_finished) {
        return false;
    }
    handler_is_consumed
}

/// How many of `attempts` receivers, trying in turn, a handler lets in.
pub open spec fn receivers_served(consumed: bool, attempts: nat) -> nat
    decreases attempts,
{
    if attempts == 0 {
        0
    } else {
        (if consumed { 0nat } else { 1nat }) + receivers_served(true, (attempts - 1) as nat)
    }
}

/// A handler serves at most one receiver, none once consumed, and exactly
/// one when it is not consumed and some receiver tries.
pub proof fn law_handler_serves_one_receiver(consumed: bool, attempts: nat)
    ensures
        receivers_served(consumed, attempts) <= 1,
        consumed ==> receivers_served(consumed, attempts) == 0,
        !consumed && attempts > 0 ==> receivers_served(consumed, attempts) == 1,
    decreases attempts,
{
    if attempts > 0 {
        law_handler_serves_one_receiver(true, (attempts - 1) as nat);
    }
}

} // verus!

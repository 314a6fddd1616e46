//! The receiving side as the foreign-function interface offers it: its own
//! request, file and subscriber types, adapted to and from the receiver's.
use vstd::prelude::*;
use crate::receiver;

verus! {

/// What can go wrong behind the foreign-function interface.
#[derive(Debug)]
pub enum DropError {
    TODO(String),
}

/// The receiver as it presents itself.
pub struct ReceiverProfile {
    pub name: String,
}

/// A file that arrived.
pub struct ReceiverFile {
    pub id: String,
    pub name: String,
    pub data: ReceiverFileData,
}

/// A received file's bytes, read one at a time.
pub struct ReceiverFileData {
    inner: receiver::ReceiverFileData,
}

impl ReceiverFileData {
    /// The receiver's reader that this one passes on to.
    pub closed spec fn spec_inner(&self) -> receiver::ReceiverFileData {
        self.inner
    }

    /// Wraps the receiver's reader.
    pub fn wrap(inner: receiver::ReceiverFileData) -> (r: Self)
        ensures
            r.spec_inner() == inner,
    {
        ReceiverFileData { inner }
    }

    /// The receiver's reader.
    pub fn inner(&self) -> (r: &receiver::ReceiverFileData)
        ensures
            *r == self.spec_inner(),
    {
        &self.inner
    }

    /// The number of bytes, given the file's `contents`.
    pub fn len(&self, contents: &[u8]) -> (r: u64)
        ensures
            r == contents@.len(),
    {
        self.inner.len(contents)
    }

    /// The next byte of `contents`, as the receiver's reader gives it.
    pub fn read(&mut self, contents: &[u8]) -> (r: Option<u8>)
        ensures
            r == receiver::byte_at(contents@, old(self).spec_inner().spec_offset() as int),
            final(self).spec_inner().spec_path() == old(self).spec_inner().spec_path(),
            final(self).spec_inner().spec_offset() == if r is Some {
                old(self).spec_inner().spec_offset() + 1
            } else {
                old(self).spec_inner().spec_offset() as int
            },
    {
        self.inner.read(contents)
    }
}

/// What a receiver needs to reach a sender.
pub struct ReceiveFilesRequest {
    pub ticket: String,
    pub confirmation: u8,
    pub profile: ReceiverProfile,
}

/// Told of the progress of a reception.
pub trait ReceiveFilesSubscriber: Send + Sync {
    fn get_id(&self) -> String;

    fn notify_receiving(&self, event: ReceiveFilesReceivingEvent);

    fn notify_connecting(&self, event: ReceiveFilesConnectingEvent);
}

/// A piece of a file arrived.
#[derive(Debug, Clone)]
pub struct ReceiveFilesReceivingEvent {
    pub id: String,
    pub received: u64,
}

/// The sender connected.
#[derive(Debug, Clone)]
pub struct ReceiveFilesConnectingEvent {
    pub sender: ReceiveFilesProfile,
}

/// The sender as its handshake presents it.
#[derive(Debug, Clone)]
pub struct ReceiveFilesProfile {
    pub id: String,
    pub name: String,
}

/// The receiver's request for a request made through the interface.
pub fn create_adapted_request(request: ReceiveFilesRequest) -> (r: receiver::ReceiveFilesRequest)
    ensures
        r.ticket == request.ticket,
        r.confirmation == request.confirmation,
        r.profile.name == request.profile.name,
{
    let profile = receiver::ReceiverProfile { name: request.profile.name };
    receiver::ReceiveFilesRequest { profile, ticket: request.ticket, confirmation: request.confirmation }
}

/// A received file as the interface offers it.
pub fn adapt_file(file: receiver::ReceiverFile) -> (r: ReceiverFile)
    ensures
        r.id == file.id,
        r.name == file.name,
        r.data.spec_inner() == file.data,
{
    ReceiverFile { id: file.id, name: file.name, data: ReceiverFileData::wrap(file.data) }
}

/// The received files as the interface offers them, in order.
pub fn adapt_files(files: Vec<receiver::ReceiverFile>) -> (r: Vec<ReceiverFile>)
    ensures
        r@.len() == files@.len(),
        forall|i: int| 0 <= i < r@.len() ==> {
            &&& (#[trigger] r@[i]).id == files@[i].id
            &&& r@[i].name == files@[i].name
            &&& r@[i].data.spec_inner() == files@[i].data
        },
{
    let ghost all = files@;
    let mut files = files;
    let mut out: Vec<ReceiverFile> = Vec::new();
    while files.len() > 0
        invariant
            out@.len() + files@.len() == all.len(),
            files@ == all.skip(out@.len() as int),
            forall|i: int| 0 <= i < out@.len() ==> {
                &&& (#[trigger] out@[i]).id == all[i].id
                &&& out@[i].name == all[i].name
                &&& out@[i].data.spec_inner() == all[i].data
            },
        decreases files@.len(),
    {
        let ghost k = out@.len() as int;
        let f = files.remove(0);
        assert(f == all[k]);
        out.push(adapt_file(f));
        assert(files@ =~= all.skip(out@.len() as int));
    }
    out
}

/// A receiving event as the interface presents it.
pub fn adapt_receiving_event(event: receiver::ReceiveFilesReceivingEvent) -> (r: ReceiveFilesReceivingEvent)
    ensures
        r.id == event.id,
        r.received == event.received,
{
    ReceiveFilesReceivingEvent { id: event.id, received: event.received }
}

/// A connecting event as the interface presents it.
pub fn adapt_connecting_event(event: receiver::ReceiveFilesConnectingEvent) -> (r: ReceiveFilesConnectingEvent)
    ensures
        r.sender.id == event.sender.id,
        r.sender.name == event.sender.name,
{
    ReceiveFilesConnectingEvent { sender: ReceiveFilesProfile { id: event.sender.id, name: event.sender.name } }
}

/// A subscriber of the interface, subscribed to the receiver.
pub struct ReceiveFilesSubscriberAdapter<T> {
    pub inner: T,
}

impl<T: ReceiveFilesSubscriber> receiver::ReceiveFilesSubscriber for ReceiveFilesSubscriberAdapter<T> {
    fn get_id(&self) -> (r: String)
        ensures
            call_ensures(T::get_id, (&self.inner,), r),
    {
        self.inner.get_id()
    }

    fn notify_receiving(&self, event: receiver::ReceiveFilesReceivingEvent) {
        self.inner.notify_receiving(adapt_receiving_event(event))
    }

    fn notify_connecting(&self, event: receiver::ReceiveFilesConnectingEvent) {
        self.inner.notify_connecting(adapt_connecting_event(event))
    }
}

} // verus!

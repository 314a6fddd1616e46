//! What the two peers of a transfer tell each other: who they are, which
//! files will follow, and the pieces of those files.
use vstd::prelude::*;

verus! {

/// A peer as the handshake presents it.
#[derive(Debug, Clone)]
pub struct HandshakeProfile {
    pub id: String,
    pub name: String,
}

/// A file as the sender's handshake announces it.
#[derive(Debug, Clone)]
pub struct HandshakeFile {
    pub id: String,
    pub name: String,
    pub len: u64,
}

/// The sender's handshake: its profile and the files that will follow.
#[derive(Debug, Clone)]
pub struct SenderHandshake {
    pub profile: HandshakeProfile,
    pub files: Vec<HandshakeFile>,
}

/// The receiver's handshake: its profile.
#[derive(Debug, Clone)]
pub struct ReceiverHandshake {
    pub profile: HandshakeProfile,
}

/// A piece of a file's bytes, tagged with the file's id.
#[derive(Debug, Clone)]
pub struct FileProjection {
    pub id: String,
    pub data: Vec<u8>,
}

/// The ids of the announced files, in order.
pub open spec fn announced_ids(files: Seq<HandshakeFile>) -> Seq<Seq<char>> {
    files.map_values(|f: HandshakeFile| f.id@)
}

} // verus!

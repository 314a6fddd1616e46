//! The command-line tool's profiles, and the files on disk that it offers.
use vstd::prelude::*;
use std::path::PathBuf;
use crate::receiver::{byte_at, ReceiverProfile};
use crate::sender::SenderProfile;

verus! {

/// The profile under which the command-line tool sends.
pub fn get_sender_profile() -> (r: SenderProfile)
    ensures
        r.name@ == "sender-cli"@,
{
    SenderProfile { name: String::from_str("sender-cli") }
}

/// The profile under which the command-line tool receives.
pub fn get_receiver_profile() -> (r: ReceiverProfile)
    ensures
        r.name@ == "receiver-cli"@,
{
    ReceiverProfile { name: String::from_str("receiver-cli") }
}

/// A file on disk that the command-line tool offers byte by byte. Reading
/// does not move its offset on: every read gives the byte at the offset that
/// the file was opened with.
pub struct CustomSenderFileData {
    offset: u64,
    path: PathBuf,
}

impl CustomSenderFileData {
    /// The position of the byte that a read gives.
    pub closed spec fn spec_offset(&self) -> u64 {
        self.offset
    }

    /// Where the bytes are kept.
    pub closed spec fn spec_path(&self) -> PathBuf {
        self.path
    }

    /// The file at `path`, read from its first byte.
    pub fn new(path: PathBuf) -> (r: Self)
        ensures
            r.spec_offset() == 0,
            r.spec_path() == path,
    {
        CustomSenderFileData { path, offset: 0 }
    }

    /// Where the bytes are kept.
    pub fn path(&self) -> (r: &PathBuf)
        ensures
            *r == self.spec_path(),
    {
        &self.path
    }

    /// The number of bytes, given the file's `contents`.
    pub fn len(&self, contents: &[u8]) -> (r: u64)
        ensures
            r == contents@.len(),
    {
        contents.len() as u64
    }

    /// The byte at the offset, given the file's `contents`, if the file
    /// reaches that far.
    pub fn read(&self, contents: &[u8]) -> (r: Option<u8>)
        ensures
            r == byte_at(contents@, self.spec_offset() as int),
    {
        if (self.offset as u128) >= (contents.len() as u128) {
            return None;
        }
        Some(contents[self.offset as usize])
    }
}

} // verus!

//! The file exchange: requests and responses, the sender's connection
//! handler, and the receiver's assembly of files from the projections that
//! arrive.
use vstd::prelude::*;
use crate::wire::{
    be_bytes_u32, be_value_u32, copy_range, frame32, frames16, frames16_readable, frames_u16_readable,
    law_frames16_read_back, lemma_be_u32_roundtrip, read_frames16, read_frames_u16, take_up_to, u32_from_be_bytes,
};
use iroh_base::ticket::NodeTicket;
use iroh_base::NodeAddr;
use crate::ids::{fresh_id, id_texts, is_hyphenated_uuid, random_u8_in};

verus! {

/// What can go wrong while files are sent or received.
#[derive(Debug)]
pub enum Error {
    CreateEndpointError(String),
    ReadOwnEndpointAddressError(String),
    CreateSendFilesRouterError(String),
    ParseReceiveFilesTicketError,
    CreateReceiveFilesConnectionError(String),
    CreateBidirectionalCommunicationError(String),
    ActivateBidirectionalCommunicationError(String),
    FinishCommunicationInputError(String),
    FinishCommunicationOutputError(String),
    ReadCommunicationOutputError(String),
    DeserializeFileProjectionError(String),
    InvalidHandshakeError(String),
    ParseHandshakeError(String),
}

/// The files that a sender offers.
#[derive(Debug, Clone)]
pub struct SendFilesRequest {
    pub files: Vec<FilePayload>,
}

/// One file that a sender offers.
#[derive(Debug, Clone)]
pub struct FilePayload {
    pub name: String,
    pub data: Vec<u8>,
}

/// What a sender hands to the receiver out of band.
#[derive(Debug, Clone)]
pub struct SendFilesResponse {
    pub ticket: String,
    pub confirmation: u8,
}

/// What a receiver needs to reach a sender.
#[derive(Debug, Clone)]
pub struct ReceiveFilesRequest {
    pub ticket: String,
    pub confirmation: u8,
}

/// The files that a receiver got.
#[derive(Debug, Clone)]
pub struct ReceiveFilesResponse {
    pub files: Vec<FileOutput>,
}

/// One file that a receiver got.
#[derive(Debug, Clone)]
pub struct FileOutput {
    pub id: String,
    pub name: String,
    pub data: Vec<u8>,
}

/// The sender's profile as the handshake carries it.
#[derive(Debug, Clone)]
pub struct Profile {
    pub name: String,
}

/// What the handshake tells of one file before its bytes arrive.
#[derive(Debug, Clone)]
pub struct FileMetadata {
    pub id: String,
    pub name: String,
    pub len: u64,
}

/// The sender's handshake: its profile and the files that will follow.
#[derive(Debug, Clone)]
pub struct SendFilesHandshake {
    pub sender: Profile,
    pub file_metadatas: Vec<FileMetadata>,
}

/// A piece of a file's bytes, tagged with the file's id.
#[derive(Debug, Clone)]
pub struct FileProjection2 {
    pub id: String,
    pub data: Vec<u8>,
}

/// A file: id, name and bytes.
pub struct FileView {
    pub id: Seq<char>,
    pub name: Seq<char>,
    pub data: Seq<u8>,
}

/// A file announced in a handshake: id, name and length.
pub struct MetaView {
    pub id: Seq<char>,
    pub name: Seq<char>,
    pub len: u64,
}

/// A piece of a file: the file's id and the bytes.
pub struct ProjectionView {
    pub id: Seq<char>,
    pub data: Seq<u8>,
}

impl View for FileOutput {
    type V = FileView;

    open spec fn view(&self) -> FileView {
        FileView { id: self.id@, name: self.name@, data: self.data@ }
    }
}

impl View for FileMetadata {
    type V = MetaView;

    open spec fn view(&self) -> MetaView {
        MetaView { id: self.id@, name: self.name@, len: self.len }
    }
}

impl View for FileProjection2 {
    type V = ProjectionView;

    open spec fn view(&self) -> ProjectionView {
        ProjectionView { id: self.id@, data: self.data@ }
    }
}

/// The views of a list of received files.
pub open spec fn files_view(v: Seq<FileOutput>) -> Seq<FileView> {
    v.map_values(|f: FileOutput| f@)
}

/// The views of a list of announced files.
pub open spec fn metas_view(v: Seq<FileMetadata>) -> Seq<MetaView> {
    v.map_values(|m: FileMetadata| m@)
}

/// The views of a list of projections.
pub open spec fn projections_view(v: Seq<FileProjection2>) -> Seq<ProjectionView> {
    v.map_values(|p: FileProjection2| p@)
}

/// The ids of a list of files.
pub open spec fn file_ids(fs: Seq<FileView>) -> Seq<Seq<char>> {
    fs.map_values(|f: FileView| f.id)
}

/// The ids of a list of announced files.
pub open spec fn meta_ids(ms: Seq<MetaView>) -> Seq<Seq<char>> {
    ms.map_values(|m: MetaView| m.id)
}

/// The position of the first occurrence of `id` in `ids`, or -1.
pub open spec fn first_index_of(ids: Seq<Seq<char>>, id: Seq<char>) -> int
    decreases ids.len(),
{
    if ids.len() == 0 {
        -1
    } else if ids[0] == id {
        0
    } else {
        let k = first_index_of(ids.drop_first(), id);
        if k < 0 {
            -1
        } else {
            k + 1
        }
    }
}

/// `first_index_of` finds the first occurrence, and -1 means there is none.
pub proof fn lemma_first_index_of(ids: Seq<Seq<char>>, id: Seq<char>)
    ensures
        first_index_of(ids, id) == -1 <==> !ids.contains(id),
        first_index_of(ids, id) >= 0 ==> {
            &&& first_index_of(ids, id) < ids.len()
            &&& ids[first_index_of(ids, id)] == id
            &&& forall|j: int| 0 <= j < first_index_of(ids, id) ==> ids[j] != id
        },
        first_index_of(ids, id) >= -1,
    decreases ids.len(),
{
    if ids.len() > 0 {
        lemma_first_index_of(ids.drop_first(), id);
        if ids[0] != id {
            if ids.drop_first().contains(id) {
                let j = choose|j: int| 0 <= j < ids.drop_first().len() && ids.drop_first()[j] == id;
                assert(ids[j + 1] == id);
            }
            if ids.contains(id) {
                let j = choose|j: int| 0 <= j < ids.len() && ids[j] == id;
                assert(ids.drop_first()[j - 1] == id);
            }
            let k = first_index_of(ids, id);
            if k >= 0 {
                assert forall|j: int| 0 <= j < k implies ids[j] != id by {
                    if j > 0 {
                        assert(ids[j] == ids.drop_first()[j - 1]);
                    }
                }
            }
        } else {
            assert(ids.contains(id)) by {
                assert(ids[0] == id);
            }
        }
    }
}

/// Whether `k` is where `id` first occurs in `ids` (-1: nowhere).
pub open spec fn is_first_index(ids: Seq<Seq<char>>, id: Seq<char>, k: int) -> bool {
    if k == -1 {
        forall|j: int| 0 <= j < ids.len() ==> ids[j] != id
    } else {
        &&& 0 <= k < ids.len()
        &&& ids[k] == id
        &&& forall|j: int| 0 <= j < k ==> ids[j] != id
    }
}

/// The first occurrence is the only position that `is_first_index` admits.
pub proof fn lemma_is_first_index(ids: Seq<Seq<char>>, id: Seq<char>, k: int)
    requires
        is_first_index(ids, id, k),
    ensures
        first_index_of(ids, id) == k,
{
    lemma_first_index_of(ids, id);
    let f = first_index_of(ids, id);
    if k == -1 {
        if ids.contains(id) {
            let j = choose|j: int| 0 <= j < ids.len() && ids[j] == id;
        }
    } else {
        assert(ids.contains(id));
        if f < k {
        } else if f > k {
        }
    }
}

/// What the receiver holds after one more projection: its bytes go to the end
/// of the file with its id, or, where no file has that id yet, a new file is
/// added under the name that the first announcement of that id gives.
pub open spec fn absorb(files: Seq<FileView>, metas: Seq<MetaView>, p: ProjectionView) -> Seq<FileView> {
    let i = first_index_of(file_ids(files), p.id);
    if i >= 0 {
        files.update(i, FileView { id: files[i].id, name: files[i].name, data: files[i].data + p.data })
    } else {
        let m = metas[first_index_of(meta_ids(metas), p.id)];
        files.push(FileView { id: m.id, name: m.name, data: p.data })
    }
}

/// What the receiver holds after the projections `ps`, in order, starting
/// from `files`.
pub open spec fn absorb_all(files: Seq<FileView>, metas: Seq<MetaView>, ps: Seq<ProjectionView>) -> Seq<FileView>
    decreases ps.len(),
{
    if ps.len() == 0 {
        files
    } else {
        absorb(absorb_all(files, metas, ps.drop_last()), metas, ps.last())
    }
}

/// The files that the projections `ps` build, under the announcements `metas`.
pub open spec fn assemble(metas: Seq<MetaView>, ps: Seq<ProjectionView>) -> Seq<FileView> {
    absorb_all(seq![], metas, ps)
}

/// The position of the first received file with id `id`.
fn find_file(files: &Vec<FileOutput>, id: &String) -> (r: Option<usize>)
    ensures
        match r {
            Some(i) => i == first_index_of(file_ids(files_view(files@)), id@),
            None => first_index_of(file_ids(files_view(files@)), id@) == -1,
        },
{
    let ghost ids = file_ids(files_view(files@));
    let mut i: usize = 0;
    while i < files.len()
        invariant
            i <= files@.len(),
            ids == file_ids(files_view(files@)),
            ids.len() == files@.len(),
            forall|j: int| 0 <= j < i ==> ids[j] != id@,
        decreases files@.len() - i,
    {
        if files[i].id == *id {
            proof {
                lemma_is_first_index(ids, id@, i as int);
            }
            return Some(i);
        }
        i = i + 1;
    }
    proof {
        lemma_is_first_index(ids, id@, -1);
    }
    None
}

/// The position of the first announcement with id `id`.
pub fn find_metadata(metas: &Vec<FileMetadata>, id: &String) -> (r: Option<usize>)
    ensures
        match r {
            Some(i) => i == first_index_of(meta_ids(metas_view(metas@)), id@),
            None => first_index_of(meta_ids(metas_view(metas@)), id@) == -1,
        },
{
    let ghost ids = meta_ids(metas_view(metas@));
    let mut i: usize = 0;
    while i < metas.len()
        invariant
            i <= metas@.len(),
            ids == meta_ids(metas_view(metas@)),
            ids.len() == metas@.len(),
            forall|j: int| 0 <= j < i ==> ids[j] != id@,
        decreases metas@.len() - i,
    {
        if metas[i].id == *id {
            proof {
                lemma_is_first_index(ids, id@, i as int);
            }
            return Some(i);
        }
        i = i + 1;
    }
    proof {
        lemma_is_first_index(ids, id@, -1);
    }
    None
}

/// Whether every projection's id is announced in the handshake.
pub fn all_announced(handshake: &SendFilesHandshake, projections: &Vec<FileProjection2>) -> (r: bool)
    ensures
        r == forall|i: int| 0 <= i < projections@.len()
            ==> #[trigger] meta_ids(metas_view(handshake.file_metadatas@)).contains(projections@[i].id@),
{
    let ghost ids = meta_ids(metas_view(handshake.file_metadatas@));
    let mut i: usize = 0;
    while i < projections.len()
        invariant
            i <= projections@.len(),
            ids == meta_ids(metas_view(handshake.file_metadatas@)),
            forall|k: int| 0 <= k < i ==> #[trigger] ids.contains(projections@[k].id@),
        decreases projections@.len() - i,
    {
        proof {
            lemma_first_index_of(ids, projections@[i as int].id@);
        }
        match find_metadata(&handshake.file_metadatas, &projections[i].id) {
            Some(_) => {},
            None => {
                assert(!ids.contains(projections@[i as int].id@));
                return false;
            },
        }
        i = i + 1;
    }
    true
}

/// Adds one projection to the files received so far.
fn absorb_projection(files: &mut Vec<FileOutput>, metas: &Vec<FileMetadata>, projection: &FileProjection2)
    requires
        meta_ids(metas_view(metas@)).contains(projection.id@),
    ensures
        files_view(final(files)@) == absorb(files_view(old(files)@), metas_view(metas@), projection@),
{
    let ghost before = files_view(files@);
    match find_file(files, &projection.id) {
        Some(i) => {
            proof {
                lemma_first_index_of(file_ids(before), projection.id@);
            }
            let mut f = files.remove(i);
            let mut more = projection.data.clone();
            assert(more@ =~= projection.data@);
            f.data.append(&mut more);
            files.insert(i, f);
            assert(files_view(files@) =~= before.update(
                i as int,
                FileView { id: before[i as int].id, name: before[i as int].name, data: before[i as int].data + projection.data@ },
            ));
        },
        None => {
            proof {
                lemma_first_index_of(meta_ids(metas_view(metas@)), projection.id@);
            }
            match find_metadata(metas, &projection.id) {
                Some(j) => {
                    let m = &metas[j];
                    let data = projection.data.clone();
                    assert(data@ =~= projection.data@);
                    files.push(FileOutput { id: m.id.clone(), name: m.name.clone(), data });
                    assert(files_view(files@) =~= before.push(
                        FileView { id: m.id@, name: m.name@, data: projection.data@ },
                    ));
                },
                None => {},
            }
        },
    }
}

/// The files that the projections build, in the order in which their ids
/// first arrive: each file gets the bytes of the projections with its id, in
/// order, under the name of the first announcement of that id.
pub fn assemble_files(handshake: &SendFilesHandshake, projections: &Vec<FileProjection2>) -> (files: Vec<FileOutput>)
    requires
        forall|i: int| 0 <= i < projections@.len()
            ==> #[trigger] meta_ids(metas_view(handshake.file_metadatas@)).contains(projections@[i].id@),
    ensures
        files_view(files@) == assemble(metas_view(handshake.file_metadatas@), projections_view(projections@)),
{
    let ghost metas = metas_view(handshake.file_metadatas@);
    let ghost ps = projections_view(projections@);
    let mut files: Vec<FileOutput> = Vec::new();
    let mut i: usize = 0;
    assert(ps.take(0).len() == 0);
    assert(files_view(files@) =~= seq![]);
    while i < projections.len()
        invariant
            i <= projections@.len(),
            metas == metas_view(handshake.file_metadatas@),
            ps == projections_view(projections@),
            forall|k: int| 0 <= k < projections@.len()
                ==> #[trigger] meta_ids(metas).contains(projections@[k].id@),
            files_view(files@) == absorb_all(seq![], metas, ps.take(i as int)),
        decreases projections@.len() - i,
    {
        absorb_projection(&mut files, &handshake.file_metadatas, &projections[i]);
        assert(ps.take(i + 1).drop_last() =~= ps.take(i as int));
        i = i + 1;
    }
    assert(ps.take(i as int) =~= ps);
    files
}


/// The number of bytes that a sender puts in one projection.
pub const CHUNK_LEN: usize = 1024;

/// `s` cut into pieces of `k` bytes, the last one shorter where `k` does not
/// divide the length; no piece at all for no bytes.
pub open spec fn chunks_of(s: Seq<u8>, k: nat) -> Seq<Seq<u8>>
    decreases s.len(),
{
    if s.len() == 0 || k == 0 {
        seq![]
    } else if s.len() <= k {
        seq![s]
    } else {
        seq![s.take(k as int)] + chunks_of(s.skip(k as int), k)
    }
}

/// `data.chunks(size)`, each piece copied.
pub fn split_chunks(data: &[u8], size: usize) -> (r: Vec<Vec<u8>>)
    requires
        size > 0,
    ensures
        r@.map_values(|c: Vec<u8>| c@) == chunks_of(data@, size as nat),
{
    let n = data.len();
    let mut out: Vec<Vec<u8>> = Vec::new();
    let mut pos: usize = 0;
    assert(data@.skip(0) =~= data@);
    assert(out@.map_values(|c: Vec<u8>| c@) + chunks_of(data@.skip(0), size as nat) =~= chunks_of(data@, size as nat));
    while pos < n
        invariant
            n == data@.len(),
            size > 0,
            pos <= n,
            out@.map_values(|c: Vec<u8>| c@) + chunks_of(data@.skip(pos as int), size as nat) == chunks_of(data@, size as nat),
        decreases n - pos,
    {
        let ghost rest = data@.skip(pos as int);
        let ghost before = out@.map_values(|c: Vec<u8>| c@);
        let end = if n - pos <= size { n } else { pos + size };
        let piece = copy_range(data, pos, end);
        out.push(piece);
        assert(out@.map_values(|c: Vec<u8>| c@) =~= before.push(piece@));
        if n - pos <= size {
            assert(piece@ =~= rest);
            assert(data@.skip(end as int) =~= seq![]);
            assert(chunks_of(rest, size as nat) == seq![rest]);
            assert(before.push(piece@) + chunks_of(data@.skip(end as int), size as nat) =~= before + chunks_of(rest, size as nat));
        } else {
            assert(piece@ =~= rest.take(size as int));
            assert(rest.skip(size as int) =~= data@.skip(end as int));
            assert(before.push(piece@) + chunks_of(data@.skip(end as int), size as nat) =~= before + chunks_of(rest, size as nat));
        }
        pos = end;
    }
    assert(data@.skip(n as int) =~= seq![]);
    assert(out@.map_values(|c: Vec<u8>| c@) + chunks_of(data@.skip(n as int), size as nat) =~= out@.map_values(|c: Vec<u8>| c@));
    out
}

/// A file of the request under the id that was drawn for it.
#[derive(Debug, Clone)]
pub struct IdentifiedFile {
    pub id: String,
    pub index: usize,
}

/// Ids paired with the positions of the files that hold them, as a map from
/// id to file fills up: a later file whose id is already present takes the
/// place of the earlier one.
pub open spec fn keyed(ids: Seq<Seq<char>>) -> Seq<(Seq<char>, int)>
    decreases ids.len(),
{
    if ids.len() == 0 {
        seq![]
    } else {
        let prev = keyed(ids.drop_last());
        let k = first_index_of(prev.map_values(|e: (Seq<char>, int)| e.0), ids.last());
        let n = ids.len() - 1;
        if k >= 0 {
            prev.update(k, (ids.last(), n))
        } else {
            prev.push((ids.last(), n))
        }
    }
}

/// The view of identified files.
pub open spec fn identified_view(v: Seq<IdentifiedFile>) -> Seq<(Seq<char>, int)> {
    v.map_values(|f: IdentifiedFile| (f.id@, f.index as int))
}

/// The position of the identified file with id `id`.
fn find_identified(files: &Vec<IdentifiedFile>, id: &String) -> (r: Option<usize>)
    ensures
        match r {
            Some(i) => i == first_index_of(identified_view(files@).map_values(|e: (Seq<char>, int)| e.0), id@),
            None => first_index_of(identified_view(files@).map_values(|e: (Seq<char>, int)| e.0), id@) == -1,
        },
{
    let ghost keys = identified_view(files@).map_values(|e: (Seq<char>, int)| e.0);
    let mut i: usize = 0;
    while i < files.len()
        invariant
            i <= files@.len(),
            keys == identified_view(files@).map_values(|e: (Seq<char>, int)| e.0),
            keys.len() == files@.len(),
            forall|j: int| 0 <= j < i ==> keys[j] != id@,
        decreases files@.len() - i,
    {
        if files[i].id == *id {
            proof {
                lemma_is_first_index(keys, id@, i as int);
            }
            return Some(i);
        }
        i = i + 1;
    }
    proof {
        lemma_is_first_index(keys, id@, -1);
    }
    None
}

/// Keys `ids` to the positions of the files that they stand for.
pub fn identify_with(ids: &Vec<String>) -> (r: Vec<IdentifiedFile>)
    ensures
        identified_view(r@) == keyed(ids@.map_values(|s: String| s@)),
{
    let ghost all = ids@.map_values(|s: String| s@);
    let mut out: Vec<IdentifiedFile> = Vec::new();
    let mut i: usize = 0;
    assert(all.take(0) =~= seq![]);
    assert(identified_view(out@) =~= seq![]);
    while i < ids.len()
        invariant
            i <= ids@.len(),
            all == ids@.map_values(|s: String| s@),
            identified_view(out@) == keyed(all.take(i as int)),
        decreases ids@.len() - i,
    {
        let ghost prev = identified_view(out@);
        assert(all.take(i + 1).drop_last() =~= all.take(i as int));
        assert(all.take(i + 1).last() == ids@[i as int]@);
        let ghost keys = prev.map_values(|e: (Seq<char>, int)| e.0);
        let found = find_identified(&out, &ids[i]);
        match found {
            Some(j) => {
                proof {
                    lemma_first_index_of(keys, ids@[i as int]@);
                }
                out.set(j, IdentifiedFile { id: ids[i].clone(), index: i });
                assert(identified_view(out@) =~= prev.update(j as int, (ids@[i as int]@, i as int)));
            },
            None => {
                out.push(IdentifiedFile { id: ids[i].clone(), index: i });
                assert(identified_view(out@) =~= prev.push((ids@[i as int]@, i as int)));
            },
        }
        i = i + 1;
    }
    assert(all.take(i as int) =~= all);
    out
}

/// Draws a fresh id for every file of the request and keys the files by
/// them: one entry per file, the `i`-th pointing to file `i`, under ids of
/// the shape of a UUID that are all different.
pub fn identify_files(request: &SendFilesRequest) -> (r: Vec<IdentifiedFile>)
    ensures
        exists|ids: Seq<Seq<char>>|
            {
                &&& ids.len() == request.files@.len()
                &&& forall|i: int| 0 <= i < ids.len() ==> is_hyphenated_uuid(#[trigger] ids[i])
                &&& identified_view(r@) == keyed(ids)
            },
        r@.len() == request.files@.len(),
        forall|i: int| 0 <= i < r@.len() ==> (#[trigger] r@[i]).index == i && is_hyphenated_uuid(r@[i].id@),
        forall|i: int, j: int| 0 <= i < r@.len() && 0 <= j < r@.len() && i != j ==> r@[i].id@ != r@[j].id@,
{
    let mut ids: Vec<String> = Vec::new();
    let mut i: usize = 0;
    while i < request.files.len()
        invariant
            i <= request.files@.len(),
            ids@.len() == i,
            forall|k: int| 0 <= k < i ==> is_hyphenated_uuid(#[trigger] ids@[k]@),
            forall|a: int, b: int| 0 <= a < i && 0 <= b < i && a != b ==> ids@[a]@ != ids@[b]@,
        decreases request.files@.len() - i,
    {
        let id = fresh_id(&ids);
        proof {
            assert forall|k: int| 0 <= k < i implies ids@[k]@ != id@ by {
                assert(id_texts(ids@)[k] == ids@[k]@);
            }
        }
        ids.push(id);
        i = i + 1;
    }
    let r = identify_with(&ids);
    let ghost all = ids@.map_values(|s: String| s@);
    assert forall|i: int| 0 <= i < all.len() implies is_hyphenated_uuid(#[trigger] all[i]) by {
        assert(all[i] == ids@[i]@);
    }
    proof {
        assert forall|a: int, b: int| 0 <= a < all.len() && 0 <= b < all.len() && a != b implies all[a] != all[b] by {
            assert(all[a] == ids@[a]@);
            assert(all[b] == ids@[b]@);
        }
        lemma_keyed_distinct(all);
        let v = identified_view(r@);
        assert(v == Seq::new(all.len(), |i: int| (all[i], i)));
        assert(v.len() == r@.len());
        assert forall|i: int| 0 <= i < r@.len() implies (#[trigger] r@[i]).index == i && r@[i].id@ == all[i] by {
            assert(v[i] == (r@[i].id@, r@[i].index as int));
            assert(v[i] == (all[i], i));
        }
    }
    r
}

/// The files that go out, in the order of the identified files: each under
/// its id, with the name and bytes of the request's file that it stands for.
pub open spec fn outgoing(files: Seq<FilePayload>, ident: Seq<(Seq<char>, int)>) -> Seq<FileView> {
    ident.map_values(|e: (Seq<char>, int)| FileView { id: e.0, name: files[e.1].name@, data: files[e.1].data@ })
}

/// The announcements of outgoing files: id, name and byte count.
pub open spec fn outgoing_metas(fs: Seq<FileView>) -> Seq<MetaView> {
    fs.map_values(|f: FileView| MetaView { id: f.id, name: f.name, len: f.data.len() as u64 })
}

/// The projections of one file: its bytes in pieces of `CHUNK_LEN`, each
/// under the file's id.
pub open spec fn file_projections(f: FileView) -> Seq<ProjectionView> {
    chunks_of(f.data, CHUNK_LEN as nat).map_values(|c: Seq<u8>| ProjectionView { id: f.id, data: c })
}

/// The projections of the outgoing files, file after file.
pub open spec fn outgoing_projections(fs: Seq<FileView>) -> Seq<ProjectionView>
    decreases fs.len(),
{
    if fs.len() == 0 {
        seq![]
    } else {
        outgoing_projections(fs.drop_last()) + file_projections(fs.last())
    }
}

/// Whether every identified file points into the request.
pub open spec fn points_into(request: &SendFilesRequest, ident: Seq<IdentifiedFile>) -> bool {
    forall|i: int| 0 <= i < ident.len() ==> (#[trigger] ident[i]).index < request.files@.len()
}

/// The sender's handshake: a placeholder profile and one announcement per
/// identified file.
pub fn handshake_for(request: &SendFilesRequest, ident: &Vec<IdentifiedFile>) -> (r: SendFilesHandshake)
    requires
        points_into(request, ident@),
    ensures
        r.sender.name@ == "TODO: PROFILE SYSTEM"@,
        metas_view(r.file_metadatas@) == outgoing_metas(outgoing(request.files@, identified_view(ident@))),
        r.file_metadatas@.len() == ident@.len(),
        forall|i: int| 0 <= i < ident@.len() ==> {
            let f = request.files@[ident@[i].index as int];
            &&& (#[trigger] r.file_metadatas@[i]).id@ == ident@[i].id@
            &&& r.file_metadatas@[i].name@ == f.name@
            &&& r.file_metadatas@[i].len == f.data@.len()
        },
{
    let ghost out = outgoing(request.files@, identified_view(ident@));
    let mut metas: Vec<FileMetadata> = Vec::new();
    let mut i: usize = 0;
    while i < ident.len()
        invariant
            i <= ident@.len(),
            points_into(request, ident@),
            out == outgoing(request.files@, identified_view(ident@)),
            out.len() == ident@.len(),
            metas_view(metas@) == outgoing_metas(out).take(i as int),
            metas@.len() == i,
            forall|k: int| 0 <= k < i ==> {
                let f = request.files@[ident@[k].index as int];
                &&& (#[trigger] metas@[k]).id@ == ident@[k].id@
                &&& metas@[k].name@ == f.name@
                &&& metas@[k].len == f.data@.len()
            },
        decreases ident@.len() - i,
    {
        let f = &request.files[ident[i].index];
        let ghost before = metas_view(metas@);
        let m = FileMetadata { id: ident[i].id.clone(), len: f.data.len() as u64, name: f.name.clone() };
        assert(identified_view(ident@)[i as int] == (ident@[i as int].id@, ident@[i as int].index as int));
        assert(out[i as int] == FileView { id: ident@[i as int].id@, name: f.name@, data: f.data@ });
        assert(outgoing_metas(out)[i as int] == m@);
        let ghost mv = m@;
        metas.push(m);
        assert(metas_view(metas@) =~= before.push(mv));
        assert(outgoing_metas(out).take(i + 1) =~= outgoing_metas(out).take(i as int).push(mv));
        i = i + 1;
    }
    assert(outgoing_metas(out).take(i as int) =~= outgoing_metas(out));
    SendFilesHandshake { sender: Profile { name: String::from_str("TODO: PROFILE SYSTEM") }, file_metadatas: metas }
}

/// Every announcement of an outgoing file carries the id it goes out under,
/// the name of the request's file that it stands for, and that file's whole
/// byte count, however large.
pub proof fn law_announcements_give_whole_lengths(files: Seq<FilePayload>, ident: Seq<(Seq<char>, int)>, i: int)
    requires
        0 <= i < ident.len(),
        0 <= ident[i].1 < files.len(),
        files[ident[i].1].data@.len() <= u64::MAX,
    ensures
        outgoing_metas(outgoing(files, ident))[i].id == ident[i].0,
        outgoing_metas(outgoing(files, ident))[i].name == files[ident[i].1].name@,
        outgoing_metas(outgoing(files, ident))[i].len == files[ident[i].1].data@.len(),
{
}

/// The projections of one file.
fn projections_of_file(id: &String, data: &Vec<u8>) -> (r: Vec<FileProjection2>)
    ensures
        projections_view(r@) == file_projections(FileView { id: id@, name: seq![], data: data@ }),
{
    let ghost f = FileView { id: id@, name: seq![], data: data@ };
    let pieces = split_chunks(data.as_slice(), CHUNK_LEN);
    let ghost cs = chunks_of(data@, CHUNK_LEN as nat);
    let mut out: Vec<FileProjection2> = Vec::new();
    let mut i: usize = 0;
    while i < pieces.len()
        invariant
            i <= pieces@.len(),
            pieces@.map_values(|c: Vec<u8>| c@) == cs,
            cs == chunks_of(data@, CHUNK_LEN as nat),
            f == (FileView { id: id@, name: seq![], data: data@ }),
            projections_view(out@) == file_projections(f).take(i as int),
        decreases pieces@.len() - i,
    {
        let piece = pieces[i].clone();
        assert(piece@ =~= pieces@[i as int]@);
        assert(cs[i as int] == pieces@[i as int]@);
        let p = FileProjection2 { id: id.clone(), data: piece };
        assert(cs.len() == pieces@.len());
        assert(file_projections(f).len() == cs.len());
        assert(f.data == data@);
        assert(file_projections(f)[i as int] == ProjectionView { id: id@, data: cs[i as int] });
        assert(file_projections(f)[i as int] == p@);
        let ghost before = projections_view(out@);
        let ghost pv = p@;
        out.push(p);
        assert(projections_view(out@) =~= before.push(pv));
        assert(file_projections(f).take(i + 1) =~= file_projections(f).take(i as int).push(pv));
        i = i + 1;
    }
    assert(file_projections(f).take(i as int) =~= file_projections(f));
    out
}

/// The projections that the sender writes: every identified file's bytes in
/// pieces of `CHUNK_LEN`, file after file.
pub fn projections_for(request: &SendFilesRequest, ident: &Vec<IdentifiedFile>) -> (r: Vec<FileProjection2>)
    requires
        points_into(request, ident@),
    ensures
        projections_view(r@) == outgoing_projections(outgoing(request.files@, identified_view(ident@))),
{
    let ghost out = outgoing(request.files@, identified_view(ident@));
    let mut all: Vec<FileProjection2> = Vec::new();
    let mut i: usize = 0;
    assert(out.take(0) =~= seq![]);
    assert(projections_view(all@) =~= seq![]);
    while i < ident.len()
        invariant
            i <= ident@.len(),
            points_into(request, ident@),
            out == outgoing(request.files@, identified_view(ident@)),
            out.len() == ident@.len(),
            projections_view(all@) == outgoing_projections(out.take(i as int)),
        decreases ident@.len() - i,
    {
        let f = &request.files[ident[i].index];
        let mut pieces = projections_of_file(&ident[i].id, &f.data);
        let ghost before = projections_view(all@);
        let ghost added = projections_view(pieces@);
        all.append(&mut pieces);
        assert(out.take(i + 1).drop_last() =~= out.take(i as int));
        assert(out.take(i + 1).last() == out[i as int]);
        assert(file_projections(out[i as int]) =~= file_projections(FileView { id: ident@[i as int].id@, name: seq![], data: f.data@ }));
        assert(projections_view(all@) =~= before + added);
        i = i + 1;
    }
    assert(out.take(i as int) =~= out);
    all
}


/// The bytes of projections, one after the other.
pub open spec fn concat_data(qs: Seq<ProjectionView>) -> Seq<u8>
    decreases qs.len(),
{
    if qs.len() == 0 {
        seq![]
    } else {
        concat_data(qs.drop_last()) + qs.last().data
    }
}

/// The files among `fs` that hold at least one byte, in order.
pub open spec fn nonempty_files(fs: Seq<FileView>) -> Seq<FileView>
    decreases fs.len(),
{
    if fs.len() == 0 {
        seq![]
    } else if fs.last().data.len() > 0 {
        nonempty_files(fs.drop_last()).push(fs.last())
    } else {
        nonempty_files(fs.drop_last())
    }
}

/// No two of the files share an id.
pub open spec fn distinct_ids(fs: Seq<FileView>) -> bool {
    forall|i: int, j: int| 0 <= i < fs.len() && 0 <= j < fs.len() && i != j ==> fs[i].id != fs[j].id
}

proof fn lemma_absorb_all_append(files: Seq<FileView>, metas: Seq<MetaView>, ps: Seq<ProjectionView>, qs: Seq<ProjectionView>)
    ensures
        absorb_all(files, metas, ps + qs) == absorb_all(absorb_all(files, metas, ps), metas, qs),
    decreases qs.len(),
{
    if qs.len() == 0 {
        assert(ps + qs =~= ps);
    } else {
        lemma_absorb_all_append(files, metas, ps, qs.drop_last());
        assert((ps + qs).drop_last() =~= ps + qs.drop_last());
        assert((ps + qs).last() == qs.last());
    }
}

proof fn lemma_absorb_fresh(files: Seq<FileView>, metas: Seq<MetaView>, qs: Seq<ProjectionView>, id: Seq<char>, name: Seq<char>)
    requires
        qs.len() > 0,
        forall|i: int| 0 <= i < qs.len() ==> (#[trigger] qs[i]).id == id,
        !file_ids(files).contains(id),
        first_index_of(meta_ids(metas), id) >= 0,
        metas[first_index_of(meta_ids(metas), id)].name == name,
    ensures
        absorb_all(files, metas, qs) == files.push(FileView { id, name, data: concat_data(qs) }),
    decreases qs.len(),
{
    lemma_first_index_of(meta_ids(metas), id);
    lemma_first_index_of(file_ids(files), id);
    let k = first_index_of(meta_ids(metas), id);
    assert(meta_ids(metas)[k] == metas[k].id);
    if qs.len() == 1 {
        assert(qs.drop_last() =~= seq![]);
        assert(qs.last() == qs[0]);
        assert(concat_data(qs.drop_last()) =~= seq![]);
        assert(concat_data(qs) =~= qs[0].data);
        assert(absorb_all(files, metas, qs.drop_last()) == files);
        assert(absorb_all(files, metas, qs) == absorb(files, metas, qs[0]));
        assert(metas[k].id == id);
        assert(absorb(files, metas, qs[0]) =~= files.push(FileView { id, name, data: concat_data(qs) }));
    } else {
        let init = qs.drop_last();
        assert forall|i: int| 0 <= i < init.len() implies (#[trigger] init[i]).id == id by {
            assert(init[i] == qs[i]);
        }
        lemma_absorb_fresh(files, metas, init, id, name);
        let x = files.push(FileView { id, name, data: concat_data(init) });
        let xi = file_ids(x);
        assert(qs.last() == qs[qs.len() - 1]);
        assert forall|j: int| 0 <= j < files.len() implies xi[j] != id by {
            assert(xi[j] == file_ids(files)[j]);
        }
        assert(xi[files.len() as int] == id);
        lemma_is_first_index(xi, id, files.len() as int);
        assert(absorb(x, metas, qs.last()) =~= files.push(FileView { id, name, data: concat_data(qs) }));
    }
}

proof fn lemma_concat_data_prepend(q: ProjectionView, rest: Seq<ProjectionView>)
    ensures
        concat_data(seq![q] + rest) == q.data + concat_data(rest),
    decreases rest.len(),
{
    if rest.len() == 0 {
        assert(seq![q] + rest =~= seq![q]);
        let one = seq![q];
        assert(one.drop_last() =~= Seq::<ProjectionView>::empty());
        assert(concat_data(one.drop_last()) == Seq::<u8>::empty());
        assert(one.last() == q);
        assert(concat_data(rest) == Seq::<u8>::empty());
        assert(q.data + concat_data(rest) =~= q.data);
        assert(concat_data(one) =~= q.data);
    } else {
        lemma_concat_data_prepend(q, rest.drop_last());
        assert((seq![q] + rest).drop_last() =~= seq![q] + rest.drop_last());
        assert((seq![q] + rest).last() == rest.last());
        assert(q.data + concat_data(rest.drop_last()) + rest.last().data =~= q.data + (concat_data(rest.drop_last()) + rest.last().data));
    }
}

proof fn lemma_chunks_concat(data: Seq<u8>, k: nat, id: Seq<char>)
    requires
        k > 0,
    ensures
        concat_data(chunks_of(data, k).map_values(|c: Seq<u8>| ProjectionView { id, data: c })) == data,
        data.len() > 0 ==> chunks_of(data, k).len() > 0,
    decreases data.len(),
{
    let m = chunks_of(data, k).map_values(|c: Seq<u8>| ProjectionView { id, data: c });
    if data.len() == 0 {
        assert(m =~= seq![]);
        assert(data =~= seq![]);
    } else if data.len() <= k {
        assert(m =~= seq![ProjectionView { id, data }]);
        lemma_concat_data_prepend(ProjectionView { id, data }, seq![]);
        assert(seq![ProjectionView { id, data }] + Seq::<ProjectionView>::empty() =~= seq![ProjectionView { id, data }]);
        assert(data + Seq::<u8>::empty() =~= data);
    } else {
        let rest = chunks_of(data.skip(k as int), k).map_values(|c: Seq<u8>| ProjectionView { id, data: c });
        lemma_chunks_concat(data.skip(k as int), k, id);
        let head = ProjectionView { id, data: data.take(k as int) };
        assert(m =~= seq![head] + rest);
        lemma_concat_data_prepend(head, rest);
        assert(data.take(k as int) + data.skip(k as int) =~= data);
    }
}

proof fn lemma_nonempty_files_from(fs: Seq<FileView>)
    ensures
        forall|i: int| 0 <= i < nonempty_files(fs).len() ==> exists|j: int| 0 <= j < fs.len() && #[trigger] nonempty_files(fs)[i] == fs[j],
    decreases fs.len(),
{
    if fs.len() > 0 {
        lemma_nonempty_files_from(fs.drop_last());
        let r = nonempty_files(fs);
        let p = nonempty_files(fs.drop_last());
        assert forall|i: int| 0 <= i < r.len() implies exists|j: int| 0 <= j < fs.len() && #[trigger] r[i] == fs[j] by {
            if i < p.len() {
                assert(r[i] == p[i]);
                let j = choose|j: int| 0 <= j < fs.drop_last().len() && p[i] == fs.drop_last()[j];
                assert(fs.drop_last()[j] == fs[j]);
            } else {
                assert(r[i] == fs[fs.len() - 1]);
            }
        }
    }
}

proof fn lemma_roundtrip_prefix(fs: Seq<FileView>, n: int)
    requires
        0 <= n <= fs.len(),
        distinct_ids(fs),
    ensures
        absorb_all(seq![], outgoing_metas(fs), outgoing_projections(fs.take(n))) == nonempty_files(fs.take(n)),
    decreases n,
{
    let metas = outgoing_metas(fs);
    if n == 0 {
        assert(fs.take(0) =~= seq![]);
    } else {
        lemma_roundtrip_prefix(fs, n - 1);
        let pre = fs.take(n - 1);
        let f = fs[n - 1];
        assert(fs.take(n).drop_last() =~= pre);
        assert(fs.take(n).last() == f);
        lemma_absorb_all_append(seq![], metas, outgoing_projections(pre), file_projections(f));
        let got = nonempty_files(pre);
        if f.data.len() == 0 {
            assert(chunks_of(f.data, CHUNK_LEN as nat) =~= seq![]);
            assert(file_projections(f) =~= seq![]);
        } else {
            lemma_chunks_concat(f.data, CHUNK_LEN as nat, f.id);
            let qs = file_projections(f);
            assert forall|i: int| 0 <= i < qs.len() implies (#[trigger] qs[i]).id == f.id by {}
            lemma_nonempty_files_from(pre);
            if file_ids(got).contains(f.id) {
                let i = choose|i: int| 0 <= i < file_ids(got).len() && file_ids(got)[i] == f.id;
                assert(got[i].id == f.id);
                let j = choose|j: int| 0 <= j < pre.len() && #[trigger] got[i] == pre[j];
                assert(pre[j] == fs[j]);
            }
            let mids = meta_ids(metas);
            assert forall|j: int| 0 <= j < n - 1 implies mids[j] != f.id by {
                assert(mids[j] == fs[j].id);
            }
            assert(mids[n - 1] == f.id);
            lemma_is_first_index(mids, f.id, n - 1);
            lemma_absorb_fresh(got, metas, qs, f.id, f.name);
            assert(FileView { id: f.id, name: f.name, data: f.data } == f);
        }
    }
}

/// What the sender writes, read back by the receiver, gives the sender's
/// files: the receiver assembles, from the announcements and projections of
/// files with distinct ids, exactly the files that hold bytes, in order, each
/// with its name and all its bytes. A file with no bytes sends no projection
/// and does not arrive.
pub proof fn law_transfer_delivers_files(fs: Seq<FileView>)
    requires
        distinct_ids(fs),
    ensures
        assemble(outgoing_metas(fs), outgoing_projections(fs)) == nonempty_files(fs),
{
    lemma_roundtrip_prefix(fs, fs.len() as int);
    assert(fs.take(fs.len() as int) =~= fs);
}


/// The keys of `keyed(ids)` are distinct, and each entry points to a position
/// of `ids` that holds its key.
pub proof fn lemma_keyed(ids: Seq<Seq<char>>)
    ensures
        forall|i: int, j: int| 0 <= i < keyed(ids).len() && 0 <= j < keyed(ids).len() && i != j
            ==> keyed(ids)[i].0 != keyed(ids)[j].0,
        forall|i: int| 0 <= i < keyed(ids).len() ==> 0 <= (#[trigger] keyed(ids)[i]).1 < ids.len()
            && ids[keyed(ids)[i].1] == keyed(ids)[i].0,
        keyed(ids).len() <= ids.len(),
    decreases ids.len(),
{
    if ids.len() > 0 {
        let init = ids.drop_last();
        lemma_keyed(init);
        let prev = keyed(init);
        let keys = prev.map_values(|e: (Seq<char>, int)| e.0);
        lemma_first_index_of(keys, ids.last());
        let k = first_index_of(keys, ids.last());
        let r = keyed(ids);
        let n = ids.len() - 1;
        assert forall|i: int| 0 <= i < prev.len() implies 0 <= (#[trigger] prev[i]).1 < n && ids[prev[i].1] == prev[i].0 by {
            assert(init[prev[i].1] == ids[prev[i].1]);
        }
        if k >= 0 {
            assert(keys[k] == prev[k].0);
        } else {
            assert forall|i: int| 0 <= i < prev.len() implies prev[i].0 != ids.last() by {
                assert(keys[i] == prev[i].0);
            }
        }
    }
}

/// Where the drawn ids are all different, every file of the request goes
/// out, in order, under its own id.
pub proof fn lemma_keyed_distinct(ids: Seq<Seq<char>>)
    requires
        forall|i: int, j: int| 0 <= i < ids.len() && 0 <= j < ids.len() && i != j ==> ids[i] != ids[j],
    ensures
        keyed(ids) == Seq::new(ids.len(), |i: int| (ids[i], i)),
    decreases ids.len(),
{
    if ids.len() > 0 {
        let init = ids.drop_last();
        assert forall|i: int, j: int| 0 <= i < init.len() && 0 <= j < init.len() && i != j implies init[i] != init[j] by {
            assert(init[i] == ids[i] && init[j] == ids[j]);
        }
        lemma_keyed_distinct(init);
        let prev = keyed(init);
        let keys = prev.map_values(|e: (Seq<char>, int)| e.0);
        assert forall|i: int| 0 <= i < keys.len() implies keys[i] != ids.last() by {
            assert(keys[i] == ids[i]);
        }
        lemma_is_first_index(keys, ids.last(), -1);
        assert(keyed(ids) =~= Seq::new(ids.len(), |i: int| (ids[i], i)));
    }
}

/// Under ids that are all different, every file of the request goes out, in
/// order, under its own id, with its name and all its bytes; and the
/// receiver gets exactly those of them that hold bytes.
pub proof fn law_fresh_ids_send_every_file(files: Seq<FilePayload>, ids: Seq<Seq<char>>)
    requires
        ids.len() == files.len(),
        forall|i: int, j: int| 0 <= i < ids.len() && 0 <= j < ids.len() && i != j ==> ids[i] != ids[j],
    ensures
        outgoing(files, keyed(ids)).len() == files.len(),
        forall|i: int| 0 <= i < files.len() ==> #[trigger] outgoing(files, keyed(ids))[i]
            == (FileView { id: ids[i], name: files[i].name@, data: files[i].data@ }),
        assemble(outgoing_metas(outgoing(files, keyed(ids))), outgoing_projections(outgoing(files, keyed(ids))))
            == nonempty_files(outgoing(files, keyed(ids))),
{
    lemma_keyed_distinct(ids);
    law_identified_files_delivered(files, ids);
}

/// Whatever ids are drawn for the files of a request, the files that go out
/// carry distinct ids, so that the receiver assembles exactly the outgoing
/// files that hold bytes.
pub proof fn law_identified_files_delivered(files: Seq<FilePayload>, ids: Seq<Seq<char>>)
    requires
        ids.len() == files.len(),
    ensures
        distinct_ids(outgoing(files, keyed(ids))),
        assemble(outgoing_metas(outgoing(files, keyed(ids))), outgoing_projections(outgoing(files, keyed(ids))))
            == nonempty_files(outgoing(files, keyed(ids))),
{
    lemma_keyed(ids);
    let fs = outgoing(files, keyed(ids));
    assert forall|i: int, j: int| 0 <= i < fs.len() && 0 <= j < fs.len() && i != j implies fs[i].id != fs[j].id by {
        assert(fs[i].id == keyed(ids)[i].0);
        assert(fs[j].id == keyed(ids)[j].0);
    }
    law_transfer_delivers_files(fs);
}


/// Something that happens while files are sent.
pub struct SendingEvent {}

/// Something that happens while files are received.
pub struct ReceivingEvent {}

/// A peer connects.
pub struct ConnectingEvent {}

/// Told of the progress of the files that this node sends.
pub trait SendFilesSubscriber: Send + Sync {
    fn notify_sending(&self, event: SendingEvent);

    fn notify_connecting(&self, event: ConnectingEvent);
}

/// Told of the progress of the files that this node receives.
pub trait ReceiveFilesSubscriber: Send + Sync {
    fn notify_receiving(&self, event: ReceivingEvent);

    fn notify_connecting(&self, event: ConnectingEvent);
}

/// Why a connection to a send offer was turned away.
#[derive(Debug, PartialEq, Eq, Structural)]
pub enum ConnectionRefusal {
    /// The offer's time ran out.
    Expired,
    /// A receiver has already connected to the offer.
    AlreadyConsumed,
}

impl ConnectionRefusal {
    /// The message that the connecting peer is given.
    pub fn message(&self) -> (r: String)
        ensures
            *self == ConnectionRefusal::Expired ==> r@ == "Connection handler has expired."@,
            *self == ConnectionRefusal::AlreadyConsumed ==> r@ == "Connection has already been consumed."@,
    {
        match self {
            ConnectionRefusal::Expired => String::from_str("Connection handler has expired."),
            ConnectionRefusal::AlreadyConsumed => String::from_str("Connection has already been consumed."),
        }
    }
}

/// Where the offer stands after a peer tries to connect at `now`: whether the
/// offer is consumed afterwards, and whether the peer was let in. A peer is
/// let in only before the offer expires and only if none came before.
pub open spec fn connect_step(consumed: bool, expires_at: u64, now: u64) -> (bool, bool) {
    if now > expires_at {
        (consumed, false)
    } else if consumed {
        (true, false)
    } else {
        (true, true)
    }
}

/// How many of the peers that try to connect at the times `nows`, in turn,
/// are let in.
pub open spec fn admitted_count(consumed: bool, expires_at: u64, nows: Seq<u64>) -> nat
    decreases nows.len(),
{
    if nows.len() == 0 {
        0
    } else {
        let (c, admitted) = connect_step(consumed, expires_at, nows[0]);
        (if admitted { 1nat } else { 0nat }) + admitted_count(c, expires_at, nows.drop_first())
    }
}

/// A send offer lets in at most one peer, however many try and whenever they
/// try; none at all once it has been consumed.
pub proof fn law_at_most_one_connection(consumed: bool, expires_at: u64, nows: Seq<u64>)
    ensures
        admitted_count(consumed, expires_at, nows) <= 1,
        consumed ==> admitted_count(consumed, expires_at, nows) == 0,
    decreases nows.len(),
{
    if nows.len() > 0 {
        let (c, admitted) = connect_step(consumed, expires_at, nows[0]);
        law_at_most_one_connection(c, expires_at, nows.drop_first());
    }
}

/// An offer that no peer has consumed lets in exactly one peer as soon as
/// one of the peers that try comes before it expires: the first such peer.
pub proof fn law_exactly_one_connection(expires_at: u64, nows: Seq<u64>, k: int)
    requires
        0 <= k < nows.len(),
        nows[k] <= expires_at,
    ensures
        admitted_count(false, expires_at, nows) == 1,
    decreases nows.len(),
{
    if nows[0] > expires_at {
        assert(nows.drop_first()[k - 1] == nows[k]);
        law_exactly_one_connection(expires_at, nows.drop_first(), k - 1);
    } else {
        law_at_most_one_connection(true, expires_at, nows.drop_first());
    }
}

/// The sender's side of one offer: the files, the time at which the offer
/// expires, whether a receiver has connected and whether the transfer has
/// finished.
pub struct SendFilesHandler<S> {
    expires_at: u64,
    request: SendFilesRequest,
    has_been_consumed: bool,
    has_finished: bool,
    subscribers: Vec<S>,
}

impl<S: SendFilesSubscriber> SendFilesHandler<S> {
    /// The time at which the offer expires.
    pub closed spec fn spec_expires_at(&self) -> u64 {
        self.expires_at
    }

    /// The files on offer.
    pub closed spec fn spec_request(&self) -> SendFilesRequest {
        self.request
    }

    /// Whether a receiver has connected.
    pub closed spec fn spec_consumed(&self) -> bool {
        self.has_been_consumed
    }

    /// Whether the transfer has finished.
    pub closed spec fn spec_finished(&self) -> bool {
        self.has_finished
    }

    /// The subscribers, in the order in which they were given.
    pub closed spec fn spec_subscribers(&self) -> Seq<S> {
        self.subscribers@
    }

    /// An offer of `request` until `expires_at`, neither consumed nor finished.
    pub fn new(expires_at: u64, request: SendFilesRequest, subscribers: Vec<S>) -> (r: Self)
        ensures
            r.spec_expires_at() == expires_at,
            r.spec_request() == request,
            !r.spec_consumed(),
            !r.spec_finished(),
            r.spec_subscribers() == subscribers@,
    {
        SendFilesHandler { expires_at, request, has_been_consumed: false, has_finished: false, subscribers }
    }

    /// A peer tries to connect at `now`: it is turned away once the offer has
    /// expired, or once another peer has connected; otherwise it is let in
    /// and the offer is consumed.
    pub fn on_connecting(&mut self, now: u64) -> (r: Result<(), ConnectionRefusal>)
        ensures
            (final(self).spec_consumed(), r is Ok) == connect_step(old(self).spec_consumed(), old(self).spec_expires_at(), now),
            now > old(self).spec_expires_at() ==> r == Err::<(), ConnectionRefusal>(ConnectionRefusal::Expired),
            now <= old(self).spec_expires_at() && old(self).spec_consumed() ==> r == Err::<(), ConnectionRefusal>(ConnectionRefusal::AlreadyConsumed),
            final(self).spec_expires_at() == old(self).spec_expires_at(),
            final(self).spec_request() == old(self).spec_request(),
            final(self).spec_finished() == old(self).spec_finished(),
            final(self).spec_subscribers() == old(self).spec_subscribers(),
    {
        if now > self.expires_at {
            return Err(ConnectionRefusal::Expired);
        }
        if self.has_been_consumed {
            return Err(ConnectionRefusal::AlreadyConsumed);
        }
        self.has_been_consumed = true;
        Ok(())
    }

    /// The transfer has run to its end.
    pub fn mark_finished(&mut self)
        ensures
            final(self).spec_finished(),
            final(self).spec_consumed() == old(self).spec_consumed(),
            final(self).spec_expires_at() == old(self).spec_expires_at(),
            final(self).spec_request() == old(self).spec_request(),
            final(self).spec_subscribers() == old(self).spec_subscribers(),
    {
        self.has_finished = true;
    }

    /// Whether the transfer has finished.
    pub fn has_finished(&self) -> (r: bool)
        ensures
            r == self.spec_finished(),
    {
        self.has_finished
    }

    /// Whether a receiver has connected.
    pub fn has_been_consumed(&self) -> (r: bool)
        ensures
            r == self.spec_consumed(),
    {
        self.has_been_consumed
    }

    /// The time at which the offer expires.
    pub fn expires_at(&self) -> (r: u64)
        ensures
            r == self.spec_expires_at(),
    {
        self.expires_at
    }

    /// The files on offer.
    pub fn request(&self) -> (r: &SendFilesRequest)
        ensures
            *r == self.spec_request(),
    {
        &self.request
    }
}

/// A fresh confirmation code, drawn from 0 to 99.
pub fn new_confirmation() -> (r: u8)
    ensures
        r <= 99,
{
    random_u8_in(0, 99)
}

/// How long a send offer stays open, in milliseconds: fifteen minutes.
pub const OFFER_LIFETIME_MS: u64 = 900_000;

/// The time at which an offer made at `now` expires.
pub fn offer_expiry(now: u64) -> (r: u64)
    requires
        now <= u64::MAX - OFFER_LIFETIME_MS,
    ensures
        r == now + OFFER_LIFETIME_MS,
{
    now + OFFER_LIFETIME_MS
}

/// What the sweep of open offers looks at in one of them.
#[derive(Debug, Clone, Copy)]
pub struct ConfigurationStatus {
    pub router_is_shutdown: bool,
    pub handler_has_finished: bool,
    pub expires_at: u64,
}

/// An offer is stale once its router is shut down, its transfer finished or
/// its time run out.
pub open spec fn is_stale(c: ConfigurationStatus, now: u64) -> bool {
    c.router_is_shutdown || c.handler_has_finished || now > c.expires_at
}

/// An offer is stale exactly when its router has shut down, its transfer
/// has finished, or its time has run out: an offer whose router runs and
/// whose transfer has not finished stays live until `now` passes the time at
/// which it expires, and not a moment before.
pub proof fn law_staleness(c: ConfigurationStatus, now: u64)
    ensures
        is_stale(c, now) <==> (c.router_is_shutdown || c.handler_has_finished || now > c.expires_at),
        !c.router_is_shutdown && !c.handler_has_finished ==> (is_stale(c, now) <==> now > c.expires_at),
{
}

/// A live offer is never the one that the sweep picks: where an offer's
/// router runs, its transfer has not finished and `now` has not passed its
/// expiry, the first stale offer is elsewhere, and the sweep keeps it.
pub proof fn law_live_offer_never_picked(s: Seq<ConfigurationStatus>, now: u64, k: int)
    requires
        0 <= k < s.len(),
        !s[k].router_is_shutdown,
        !s[k].handler_has_finished,
        now <= s[k].expires_at,
    ensures
        first_stale_index(s, now) != k,
        live_offers(s, now).contains(s[k]),
    decreases s.len(),
{
    lemma_first_stale_index(s, now);
    if k > 0 {
        let t = s.drop_first();
        assert(t[k - 1] == s[k]);
        law_live_offer_never_picked(t, now, k - 1);
        if !is_stale(s[0], now) {
            assert((seq![s[0]] + live_offers(t, now)).contains(s[k])) by {
                let m = choose|m: int| 0 <= m < live_offers(t, now).len() && live_offers(t, now)[m] == s[k];
                assert((seq![s[0]] + live_offers(t, now))[m + 1] == s[k]);
            }
        }
    } else {
        assert((seq![s[0]] + live_offers(s.drop_first(), now))[0] == s[0]);
    }
}

/// The position of the first stale offer among `s`, or -1 where none is.
pub open spec fn first_stale_index(s: Seq<ConfigurationStatus>, now: u64) -> int
    decreases s.len(),
{
    if s.len() == 0 {
        -1
    } else if is_stale(s[0], now) {
        0
    } else {
        let k = first_stale_index(s.drop_first(), now);
        if k < 0 {
            -1
        } else {
            k + 1
        }
    }
}

/// `first_stale_index` finds the first stale offer, and -1 means there is none.
proof fn lemma_first_stale_index(s: Seq<ConfigurationStatus>, now: u64)
    ensures
        first_stale_index(s, now) >= -1,
        first_stale_index(s, now) == -1 ==> forall|j: int| 0 <= j < s.len() ==> !is_stale(#[trigger] s[j], now),
        first_stale_index(s, now) >= 0 ==> {
            &&& first_stale_index(s, now) < s.len()
            &&& is_stale(s[first_stale_index(s, now)], now)
            &&& forall|j: int| 0 <= j < first_stale_index(s, now) ==> !is_stale(#[trigger] s[j], now)
        },
    decreases s.len(),
{
    if s.len() > 0 && !is_stale(s[0], now) {
        let t = s.drop_first();
        lemma_first_stale_index(t, now);
        assert forall|j: int| 1 <= j < s.len() implies s[j] == t[j - 1] by {}
    }
}

/// The offers of `s` that are not stale, in order.
pub open spec fn live_offers(s: Seq<ConfigurationStatus>, now: u64) -> Seq<ConfigurationStatus>
    decreases s.len(),
{
    if s.len() == 0 {
        s
    } else if is_stale(s[0], now) {
        live_offers(s.drop_first(), now)
    } else {
        seq![s[0]] + live_offers(s.drop_first(), now)
    }
}

/// What the sweep of open offers leaves of `s` at `now`: it removes the first
/// stale offer until none is left.
pub open spec fn swept(s: Seq<ConfigurationStatus>, now: u64) -> Seq<ConfigurationStatus>
    decreases s.len(),
{
    let k = first_stale_index(s, now);
    if 0 <= k < s.len() {
        swept(s.remove(k), now)
    } else {
        s
    }
}

proof fn lemma_live_offers_all_live(s: Seq<ConfigurationStatus>, now: u64)
    requires
        forall|j: int| 0 <= j < s.len() ==> !is_stale(#[trigger] s[j], now),
    ensures
        live_offers(s, now) == s,
    decreases s.len(),
{
    if s.len() > 0 {
        let t = s.drop_first();
        assert forall|j: int| 0 <= j < t.len() implies !is_stale(#[trigger] t[j], now) by {
            assert(t[j] == s[j + 1]);
        }
        lemma_live_offers_all_live(t, now);
        assert(!is_stale(s[0], now));
        assert(seq![s[0]] + t =~= s);
    }
}

proof fn lemma_live_offers_remove_stale(s: Seq<ConfigurationStatus>, k: int, now: u64)
    requires
        0 <= k < s.len(),
        is_stale(s[k], now),
    ensures
        live_offers(s.remove(k), now) == live_offers(s, now),
    decreases k,
{
    if k == 0 {
        assert(s.remove(0) =~= s.drop_first());
    } else {
        let t = s.drop_first();
        assert(t[k - 1] == s[k]);
        lemma_live_offers_remove_stale(t, k - 1, now);
        let u = s.remove(k);
        assert(u[0] == s[0]);
        assert(u.drop_first() =~= t.remove(k - 1));
    }
}

/// The sweep of open offers shuts down exactly the stale ones: what it
/// leaves are the offers that are not stale, in the order they were in. An
/// offer whose router runs, whose transfer has not finished and whose time
/// has not run out is neither removed nor moved.
pub proof fn law_sweep_keeps_live_offers(s: Seq<ConfigurationStatus>, now: u64)
    ensures
        swept(s, now) == live_offers(s, now),
    decreases s.len(),
{
    lemma_first_stale_index(s, now);
    let k = first_stale_index(s, now);
    if 0 <= k < s.len() {
        law_sweep_keeps_live_offers(s.remove(k), now);
        lemma_live_offers_remove_stale(s, k, now);
    } else {
        lemma_live_offers_all_live(s, now);
    }
}

/// The position of the first stale offer, as the sweep of open offers picks
/// the next one to shut down.
pub fn first_stale(statuses: &[ConfigurationStatus], now: u64) -> (r: Option<usize>)
    ensures
        match r {
            Some(i) => i < statuses@.len() && is_stale(statuses@[i as int], now)
                && forall|j: int| 0 <= j < i ==> !is_stale(#[trigger] statuses@[j], now),
            None => forall|j: int| 0 <= j < statuses@.len() ==> !is_stale(#[trigger] statuses@[j], now),
        },
        match r {
            Some(i) => i == first_stale_index(statuses@, now),
            None => first_stale_index(statuses@, now) == -1,
        },
        r matches Some(i) ==> statuses@[i as int].router_is_shutdown || statuses@[i as int].handler_has_finished
            || now > statuses@[i as int].expires_at,
        forall|j: int| 0 <= j < statuses@.len() && !statuses@[j].router_is_shutdown && !statuses@[j].handler_has_finished
            && now <= statuses@[j].expires_at ==> r != Some(j as usize),
{
    proof {
        lemma_first_stale_index(statuses@, now);
    }
    let mut i: usize = 0;
    while i < statuses.len()
        invariant
            i <= statuses@.len(),
            forall|j: int| 0 <= j < i ==> !is_stale(#[trigger] statuses@[j], now),
            first_stale_index(statuses@, now) == -1 || i <= first_stale_index(statuses@, now) < statuses@.len(),
            first_stale_index(statuses@, now) >= 0 ==> is_stale(statuses@[first_stale_index(statuses@, now)], now),
        decreases statuses@.len() - i,
    {
        let c = statuses[i];
        if c.router_is_shutdown || c.handler_has_finished || now > c.expires_at {
            proof {
                lemma_first_stale_index(statuses@, now);
                assert(is_stale(statuses@[i as int], now));
            }
            return Some(i);
        }
        i = i + 1;
    }
    None
}

#[verifier::external_type_specification]
#[verifier::external_body]
pub struct ExNodeTicket(NodeTicket);

/// The ticket that `<NodeTicket as FromStr>::from_str` makes of a string, if
/// it accepts the string.
pub uninterp spec fn parsed_node_ticket(s: Seq<char>) -> Option<NodeTicket>;

/// Whether `<NodeTicket as FromStr>::from_str` accepts a string.
pub open spec fn node_ticket_parses(s: Seq<char>) -> bool {
    parsed_node_ticket(s) is Some
}

/// Calls `<iroh_base::ticket::NodeTicket as FromStr>::from_str`, keeping the
/// ticket and dropping the error. What it gives depends on the string alone;
/// as iroh-base's `Ticket::deserialize` shows, a string that does not start
/// with the ticket kind "node" is refused. Which strings are accepted beyond
/// that (base32 and postcard decoding), and which ticket they give, is not
/// stated.
#[verifier::external_body]
fn node_ticket_from_str(s: &str) -> (r: Option<NodeTicket>)
    ensures
        r == parsed_node_ticket(s@),
        !(s@.len() >= 4 && s@.take(4) == "node"@) ==> r is None,
{
    s.parse::<NodeTicket>().ok()
}

#[verifier::external_type_specification]
#[verifier::external_body]
pub struct ExNodeAddr(NodeAddr);

/// The text that `NodeTicket::new(addr).to_string()` writes for an address.
pub uninterp spec fn node_ticket_text(addr: NodeAddr) -> Seq<char>;

/// Calls `iroh_base::ticket::NodeTicket::new` on `addr` and writes the ticket
/// with `to_string`. As iroh-base's `Ticket::serialize` shows, the text is the
/// kind "node" followed by the lowercase base32 of the ticket's bytes, which
/// `<NodeTicket as FromStr>::from_str` parses back. Which text comes out for
/// a given address is named, not spelled out.
#[verifier::external_body]
pub(crate) fn node_ticket_string(addr: NodeAddr) -> (r: String)
    ensures
        r@ == node_ticket_text(addr),
        node_ticket_parses(r@),
        r@.len() >= 4 && r@.take(4) == "node"@,
{
    NodeTicket::new(addr).to_string()
}

/// What a send offer hands out: the ticket of the sender's address, which
/// the receiving side accepts, and the confirmation code.
pub fn offer_response(addr: NodeAddr, confirmation: u8) -> (r: SendFilesResponse)
    ensures
        r.ticket@ == node_ticket_text(addr),
        node_ticket_parses(r.ticket@),
        r.ticket@.len() >= 4 && r.ticket@.take(4) == "node"@,
        r.confirmation == confirmation,
{
    SendFilesResponse { ticket: node_ticket_string(addr), confirmation }
}

/// The outcome of parsing a ticket to receive files.
pub fn ticket_outcome(parsed: Option<NodeTicket>) -> (r: Result<NodeTicket, Error>)
    ensures
        match parsed {
            Some(t) => r == Ok::<NodeTicket, Error>(t),
            None => r matches Err(Error::ParseReceiveFilesTicketError),
        },
{
    match parsed {
        Some(t) => Ok(t),
        None => Err(Error::ParseReceiveFilesTicketError),
    }
}

/// Parses the ticket of a receive request.
pub fn parse_ticket(ticket: &String) -> (r: Result<NodeTicket, Error>)
    ensures
        r is Ok <==> node_ticket_parses(ticket@),
        r matches Ok(t) ==> parsed_node_ticket(ticket@) == Some(t),
        r is Err ==> r matches Err(Error::ParseReceiveFilesTicketError),
        !(ticket@.len() >= 4 && ticket@.take(4) == "node"@) ==> r is Err,
{
    ticket_outcome(node_ticket_from_str(ticket.as_str()))
}

/// What a receiver takes from the sender's stream, where each read gives as
/// many of the bytes asked for as remain: the four-byte header of the
/// handshake, the handshake, then the projections behind their two-byte
/// headers. Where the stream holds nothing, the header is missing; where it
/// ends right after the header, the handshake is missing; a handshake cut
/// short by the end of the stream is taken as it is.
pub open spec fn read_stream(s: Seq<u8>) -> Result<(Seq<u8>, Seq<Seq<u8>>), Seq<char>> {
    if s.len() == 0 {
        Err("Handshake bytes length not found"@)
    } else if s.len() <= 4 {
        Err("Handshake not found"@)
    } else {
        let r = s.skip(4);
        let h = take_up_to(r, be_value_u32(s.take(4)));
        Ok((h, read_frames16(r.skip(h.len() as int))))
    }
}

/// Whether no header of the sender's stream is cut short: the stream ends
/// neither inside the handshake's four-byte header nor one byte into a
/// projection's header.
pub open spec fn stream_readable(s: Seq<u8>) -> bool {
    if s.len() == 0 || s.len() == 4 {
        true
    } else if s.len() < 4 {
        false
    } else {
        let r = s.skip(4);
        frames16_readable(r.skip(take_up_to(r, be_value_u32(s.take(4))).len() as int))
    }
}

/// The receiver reads back what the sender writes: its handshake behind a
/// four-byte header, then its projections behind two-byte headers, where
/// none of them is empty or longer than its header can count.
#[verifier::spinoff_prover]
pub proof fn law_stream_read_back(h: Seq<u8>, ps: Seq<Seq<u8>>)
    requires
        0 < h.len() <= u32::MAX,
        forall|i: int| 0 <= i < ps.len() ==> 0 < (#[trigger] ps[i]).len() <= u16::MAX,
    ensures
        stream_readable(frame32(h) + frames16(ps)),
        read_stream(frame32(h) + frames16(ps)) == Ok::<(Seq<u8>, Seq<Seq<u8>>), Seq<char>>((h, ps)),
{
    let f = frames16(ps);
    let hd = be_bytes_u32(h.len() as u32);
    law_frames16_read_back(ps);
    assert(frames16_readable(f) && read_frames16(f) == ps);
    let s = frame32(h) + f;
    assert(s == hd + h + f) by {
        assert(h.len() % 0x1_0000_0000 == h.len());
    }
    let r = s.skip(4);
    assert(s.take(4) == hd && r == h + f && s.len() > 4) by {
        assert(s.take(4) =~= hd);
        assert(r =~= h + f);
    }
    assert(be_value_u32(s.take(4)) == h.len()) by {
        lemma_be_u32_roundtrip(h.len() as u32);
    }
    assert(take_up_to(r, h.len() as int) == h && r.skip(h.len() as int) == f) by {
        assert(r.take(h.len() as int) =~= h);
        assert(r.skip(h.len() as int) =~= f);
    }
}

/// Whether no header of the sender's stream is cut short.
pub fn stream_is_readable(stream: &[u8]) -> (r: bool)
    ensures
        r == stream_readable(stream@),
{
    let n = stream.len();
    if n == 0 || n == 4 {
        return true;
    }
    if n < 4 {
        return false;
    }
    let len = u32_from_be_bytes([stream[0], stream[1], stream[2], stream[3]]);
    assert(stream@.take(4) =~= seq![stream@[0], stream@[1], stream@[2], stream@[3]]);
    let avail = n - 4;
    let k = if (len as u64) <= (avail as u64) { len as usize } else { avail };
    let rest = copy_range(stream, 4 + k, n);
    proof {
        let r = stream@.skip(4);
        assert(take_up_to(r, len as int).len() == k);
        assert(rest@ =~= r.skip(k as int));
    }
    frames_u16_readable(rest.as_slice())
}

/// Splits what the sender wrote into the handshake's bytes and the bytes of
/// every projection, as `read_stream` describes.
pub fn read_received_stream(stream: &[u8]) -> (r: Result<(Vec<u8>, Vec<Vec<u8>>), Error>)
    requires
        stream_readable(stream@),
    ensures
        r is Ok <==> read_stream(stream@) is Ok,
        r matches Ok(v) ==> read_stream(stream@) == Ok::<(Seq<u8>, Seq<Seq<u8>>), Seq<char>>((v.0@, v.1@.map_values(|x: Vec<u8>| x@))),
        r matches Err(e) ==> (e matches Error::InvalidHandshakeError(m)
            && read_stream(stream@) == Err::<(Seq<u8>, Seq<Seq<u8>>), Seq<char>>(m@)),
{
    proof {
        reveal_strlit("Handshake bytes length not found");
        reveal_strlit("Handshake not found");
    }
    let n = stream.len();
    if n == 0 {
        return Err(Error::InvalidHandshakeError(String::from_str("Handshake bytes length not found")));
    }
    if n <= 4 {
        return Err(Error::InvalidHandshakeError(String::from_str("Handshake not found")));
    }
    let len = u32_from_be_bytes([stream[0], stream[1], stream[2], stream[3]]);
    assert(stream@.take(4) =~= seq![stream@[0], stream@[1], stream@[2], stream@[3]]);
    let avail = n - 4;
    let k = if (len as u64) <= (avail as u64) { len as usize } else { avail };
    let handshake = copy_range(stream, 4, 4 + k);
    let rest = copy_range(stream, 4 + k, n);
    proof {
        let r = stream@.skip(4);
        assert(take_up_to(r, len as int) =~= handshake@);
        assert(rest@ =~= r.skip(k as int));
    }
    let frames = read_frames_u16(rest.as_slice());
    Ok((handshake, frames))
}

} // verus!

//! Requests and replies of the tracker's HTTP interface.
use vstd::prelude::*;
use crate::models::{
    block_count, copy_strings, spec_block_count, strings_view, FileManifest, FileManifestView,
};

verus! {

/// A request to announce a new file.
#[derive(Clone, Debug)]
pub struct FileAnnounceRequest {
    pub file_name: String,
    pub file_hash: String,
    pub file_size: u64,
    pub block_size: u64,
    pub block_hashes: Vec<String>,
}

/// A file as listed by the tracker, without its block digests.
#[derive(Clone, Debug)]
pub struct FileBrief {
    pub file_name: String,
    pub file_hash: String,
    pub file_size: u64,
    pub block_size: u64,
}

/// A query for the files with a given digest or name.
#[derive(Clone, Debug)]
pub struct FileDetailRequest {
    pub file_id: String,
}

/// A peer's report of the blocks of a file it holds.
#[derive(Clone, Debug)]
pub struct PeerUpdateRequest {
    pub file_hash: String,
    pub peer_id: String,
    /// The peer's address; when absent the tracker uses the address the
    /// request came from.
    pub peer_host: Option<String>,
    pub peer_port: u16,
    /// One character per block: `1` when the peer holds it, else `0`.
    pub blocks: String,
}

/// A request for the peers that seed a file.
#[derive(Clone, Debug)]
pub struct PeerListRequest {
    pub file_hash: String,
}

/// How the tracker answered an announce, as seen by the node.
#[derive(Debug, Clone, Copy, PartialEq, Eq, Structural)]
pub enum AnnounceFileResponse {
    Success,
    Conflict,
    BadRequest,
    Unknown,
}

/// How the tracker answered a peer update, as seen by the node.
#[derive(Debug, Clone, Copy, PartialEq, Eq, Structural)]
pub enum PeerUpdateResponse {
    Success,
    FileNotFound,
    Unknown,
}

/// An announce request as plain values.
pub struct FileAnnounceRequestView {
    pub file_name: Seq<char>,
    pub file_hash: Seq<char>,
    pub file_size: u64,
    pub block_size: u64,
    pub block_hashes: Seq<Seq<char>>,
}

/// A brief as plain values.
pub struct FileBriefView {
    pub file_name: Seq<char>,
    pub file_hash: Seq<char>,
    pub file_size: u64,
    pub block_size: u64,
}

/// A peer update as plain values.
pub struct PeerUpdateRequestView {
    pub file_hash: Seq<char>,
    pub peer_id: Seq<char>,
    pub peer_host: Option<Seq<char>>,
    pub peer_port: u16,
    pub blocks: Seq<char>,
}

impl View for FileAnnounceRequest {
    type V = FileAnnounceRequestView;

    open spec fn view(&self) -> FileAnnounceRequestView {
        FileAnnounceRequestView {
            file_name: self.file_name@,
            file_hash: self.file_hash@,
            file_size: self.file_size,
            block_size: self.block_size,
            block_hashes: strings_view(self.block_hashes@),
        }
    }
}

impl View for FileBrief {
    type V = FileBriefView;

    open spec fn view(&self) -> FileBriefView {
        FileBriefView {
            file_name: self.file_name@,
            file_hash: self.file_hash@,
            file_size: self.file_size,
            block_size: self.block_size,
        }
    }
}

/// An optional string as plain values.
pub open spec fn opt_string_view(s: Option<String>) -> Option<Seq<char>> {
    match s {
        Some(x) => Some(x@),
        None => None,
    }
}

impl View for PeerUpdateRequest {
    type V = PeerUpdateRequestView;

    open spec fn view(&self) -> PeerUpdateRequestView {
        PeerUpdateRequestView {
            file_hash: self.file_hash@,
            peer_id: self.peer_id@,
            peer_host: opt_string_view(self.peer_host),
            peer_port: self.peer_port,
            blocks: self.blocks@,
        }
    }
}

/// An announce is consistent when it lists exactly one digest per block.
pub open spec fn announce_is_valid(req: FileAnnounceRequestView) -> bool {
    spec_block_count(req.file_size as nat, req.block_size as nat) == req.block_hashes.len()
}

/// The manifest an announce describes.
pub open spec fn spec_manifest_of(req: FileAnnounceRequestView) -> FileManifestView {
    FileManifestView {
        file_name: req.file_name,
        file_hash: req.file_hash,
        file_size: req.file_size,
        block_size: req.block_size,
        block_hashes: req.block_hashes,
    }
}

/// The brief of a manifest.
pub open spec fn spec_brief_of(m: FileManifestView) -> FileBriefView {
    FileBriefView {
        file_name: m.file_name,
        file_hash: m.file_hash,
        file_size: m.file_size,
        block_size: m.block_size,
    }
}

/// The announce request that describes a manifest.
pub open spec fn spec_announce_of(m: FileManifestView) -> FileAnnounceRequestView {
    FileAnnounceRequestView {
        file_name: m.file_name,
        file_hash: m.file_hash,
        file_size: m.file_size,
        block_size: m.block_size,
        block_hashes: m.block_hashes,
    }
}

/// The node's reading of the tracker's answer to an announce.
pub open spec fn spec_announce_response(status: u16) -> AnnounceFileResponse {
    if status == 200 {
        AnnounceFileResponse::Success
    } else if status == 409 {
        AnnounceFileResponse::Conflict
    } else if status == 400 {
        AnnounceFileResponse::BadRequest
    } else {
        AnnounceFileResponse::Unknown
    }
}

/// The node's reading of the tracker's answer to a peer update.
pub open spec fn spec_peer_update_response(status: u16) -> PeerUpdateResponse {
    if status == 200 {
        PeerUpdateResponse::Success
    } else if status == 404 {
        PeerUpdateResponse::FileNotFound
    } else {
        PeerUpdateResponse::Unknown
    }
}

/// An announce is accepted as consistent exactly when it lists as many block
/// digests as the file size divided by the block size, rounded up.
pub proof fn lemma_valid_announce_counts_blocks(req: FileAnnounceRequestView)
    requires
        req.block_size > 0,
    ensures
        announce_is_valid(req) <==> req.block_hashes.len() == (req.file_size + req.block_size - 1)
            / (req.block_size as int),
{
    crate::models::lemma_block_count_rounds_up(req.file_size as nat, req.block_size as nat);
}

/// A brief carries the manifest's own name, digest, size and block size.
pub proof fn lemma_brief_keeps_manifest_fields(m: FileManifestView)
    ensures
        spec_brief_of(m).file_name == m.file_name,
        spec_brief_of(m).file_hash == m.file_hash,
        spec_brief_of(m).file_size == m.file_size,
        spec_brief_of(m).block_size == m.block_size,
{
}

impl FileAnnounceRequest {
    /// Whether the announce lists exactly one digest per block.
    pub fn is_valid(&self) -> (r: bool)
        requires
            self.block_size > 0,
        ensures
            r == announce_is_valid(self@),
            r <==> self@.block_hashes.len() == (self.file_size + self.block_size - 1) / (
            self.block_size as int),
    {
        proof {
            lemma_valid_announce_counts_blocks(self@);
        }
        let correct_block_count = block_count(self.file_size, self.block_size);
        correct_block_count == self.block_hashes.len() as u64
    }

    /// The manifest this announce describes.
    pub fn into_manifest(self) -> (r: FileManifest)
        ensures
            r@ == spec_manifest_of(self@),
            r@.file_name == self@.file_name && r@.file_hash == self@.file_hash && r@.file_size
                == self.file_size && r@.block_size == self.block_size && r@.block_hashes
                == self@.block_hashes,
    {
        FileManifest {
            file_name: self.file_name,
            file_hash: self.file_hash,
            file_size: self.file_size,
            block_size: self.block_size,
            block_hashes: self.block_hashes,
        }
    }

    /// The announce request that describes a manifest.
    pub fn from_manifest(manifest: &FileManifest) -> (r: FileAnnounceRequest)
        ensures
            r@ == spec_announce_of(manifest@),
            r@.file_name == manifest@.file_name && r@.file_hash == manifest@.file_hash
                && r.file_size == manifest.file_size && r.block_size == manifest.block_size
                && r@.block_hashes == manifest@.block_hashes,
    {
        FileAnnounceRequest {
            file_name: manifest.file_name.clone(),
            file_hash: manifest.file_hash.clone(),
            file_size: manifest.file_size,
            block_size: manifest.block_size,
            block_hashes: copy_strings(&manifest.block_hashes),
        }
    }
}

impl FileBrief {
    /// The brief of a manifest.
    pub fn from_manifest(file: &FileManifest) -> (r: FileBrief)
        ensures
            r@ == spec_brief_of(file@),
            r.file_name@ == file.file_name@,
            r.file_hash@ == file.file_hash@,
            r.file_size == file.file_size,
            r.block_size == file.block_size,
    {
        FileBrief {
            file_name: file.file_name.clone(),
            file_hash: file.file_hash.clone(),
            file_size: file.file_size,
            block_size: file.block_size,
        }
    }
}

impl AnnounceFileResponse {
    /// Reads the tracker's HTTP status: 200 accepted, 409 already announced,
    /// 400 inconsistent manifest, anything else unknown.
    pub fn from_status(status: u16) -> (r: AnnounceFileResponse)
        ensures
            r == spec_announce_response(status),
            status == 200 <==> r == AnnounceFileResponse::Success,
            status == 409 <==> r == AnnounceFileResponse::Conflict,
            status == 400 <==> r == AnnounceFileResponse::BadRequest,
    {
        if status == 200 {
            AnnounceFileResponse::Success
        } else if status == 409 {
            AnnounceFileResponse::Conflict
        } else if status == 400 {
            AnnounceFileResponse::BadRequest
        } else {
            AnnounceFileResponse::Unknown
        }
    }
}

impl PeerUpdateResponse {
    /// Reads the tracker's HTTP status: 200 accepted, 404 unknown file,
    /// anything else unknown.
    pub fn from_status(status: u16) -> (r: PeerUpdateResponse)
        ensures
            r == spec_peer_update_response(status),
            status == 200 <==> r == PeerUpdateResponse::Success,
            status == 404 <==> r == PeerUpdateResponse::FileNotFound,
    {
        if status == 200 {
            PeerUpdateResponse::Success
        } else if status == 404 {
            PeerUpdateResponse::FileNotFound
        } else {
            PeerUpdateResponse::Unknown
        }
    }
}

} // verus!

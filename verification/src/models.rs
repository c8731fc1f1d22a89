//! The records the tracker keeps: announced files and the peers seeding them.
use vstd::prelude::*;

verus! {

/// An announced file: its name, digest, size, block size and one digest per
/// block.
#[derive(Clone, Debug)]
pub struct FileManifest {
    pub file_name: String,
    pub file_hash: String,
    pub file_size: u64,
    pub block_size: u64,
    pub block_hashes: Vec<String>,
}

/// A peer that seeds a file, with the blocks it holds as a string of `0` and
/// `1`, one character per block, and when it last reported (microseconds since the Unix epoch).
#[derive(Clone, Debug)]
pub struct PeerFileInfo {
    pub file_hash: String,
    pub peer_id: String,
    pub peer_host: String,
    pub peer_port: u16,
    pub blocks: String,
    pub last_seen: i64,
}

/// A file manifest as plain values.
pub struct FileManifestView {
    pub file_name: Seq<char>,
    pub file_hash: Seq<char>,
    pub file_size: u64,
    pub block_size: u64,
    pub block_hashes: Seq<Seq<char>>,
}

/// A seeding peer as plain values.
pub struct PeerFileInfoView {
    pub file_hash: Seq<char>,
    pub peer_id: Seq<char>,
    pub peer_host: Seq<char>,
    pub peer_port: u16,
    pub blocks: Seq<char>,
    pub last_seen: i64,
}

/// Strings as plain values.
pub open spec fn strings_view(v: Seq<String>) -> Seq<Seq<char>> {
    v.map_values(|s: String| s@)
}

impl View for FileManifest {
    type V = FileManifestView;

    open spec fn view(&self) -> FileManifestView {
        FileManifestView {
            file_name: self.file_name@,
            file_hash: self.file_hash@,
            file_size: self.file_size,
            block_size: self.block_size,
            block_hashes: strings_view(self.block_hashes@),
        }
    }
}

impl View for PeerFileInfo {
    type V = PeerFileInfoView;

    open spec fn view(&self) -> PeerFileInfoView {
        PeerFileInfoView {
            file_hash: self.file_hash@,
            peer_id: self.peer_id@,
            peer_host: self.peer_host@,
            peer_port: self.peer_port,
            blocks: self.blocks@,
            last_seen: self.last_seen,
        }
    }
}

/// Manifests as plain values.
pub open spec fn manifests_view(v: Seq<FileManifest>) -> Seq<FileManifestView> {
    v.map_values(|m: FileManifest| m@)
}

/// Seeding peers as plain values.
pub open spec fn peers_view(v: Seq<PeerFileInfo>) -> Seq<PeerFileInfoView> {
    v.map_values(|p: PeerFileInfo| p@)
}

/// How many blocks of `block_size` bytes a file of `file_size` bytes takes:
/// the quotient rounded up.
pub open spec fn spec_block_count(file_size: nat, block_size: nat) -> nat {
    if file_size % block_size == 0 {
        file_size / block_size
    } else {
        file_size / block_size + 1
    }
}

/// The block count is the file size divided by the block size, rounded up:
/// that many blocks hold the file, and one fewer would not.
pub proof fn lemma_block_count_rounds_up(file_size: nat, block_size: nat)
    requires
        block_size > 0,
    ensures
        spec_block_count(file_size, block_size) == (file_size + block_size - 1) / (block_size as int),
        spec_block_count(file_size, block_size) * block_size >= file_size,
        spec_block_count(file_size, block_size) > 0 ==> (spec_block_count(file_size, block_size) - 1)
            * block_size < file_size,
{
    let q = file_size / block_size;
    let r = file_size % block_size;
    vstd::arithmetic::div_mod::lemma_fundamental_div_mod(file_size as int, block_size as int);
    assert(file_size == block_size * q + r && 0 <= r < block_size);
    assert(q * block_size == block_size * q) by (nonlinear_arith);
    if r == 0 {
        vstd::arithmetic::div_mod::lemma_fundamental_div_mod_converse(
            file_size + block_size - 1,
            block_size as int,
            q as int,
            block_size - 1,
        );
        assert(spec_block_count(file_size, block_size) == q);
        if q > 0 {
            assert((q - 1) * block_size == q * block_size - block_size) by (nonlinear_arith);
        }
    } else {
        assert(file_size + block_size - 1 == (q + 1) * block_size + (r - 1)) by (nonlinear_arith)
            requires
                file_size == q * block_size + r,
        ;
        vstd::arithmetic::div_mod::lemma_fundamental_div_mod_converse(
            file_size + block_size - 1,
            block_size as int,
            (q + 1) as int,
            r - 1,
        );
        assert((q + 1) * block_size == q * block_size + block_size) by (nonlinear_arith);
    }
}

/// The number of blocks of a file, `file_size` divided by `block_size`
/// rounded up.
pub fn block_count(file_size: u64, block_size: u64) -> (r: u64)
    requires
        block_size > 0,
    ensures
        r == spec_block_count(file_size as nat, block_size as nat),
        r == (file_size + block_size - 1) / (block_size as int),
{
    proof {
        lemma_block_count_rounds_up(file_size as nat, block_size as nat);
    }
    let q = file_size / block_size;
    if file_size % block_size == 0 {
        q
    } else {
        assert(q < file_size) by (nonlinear_arith)
            requires
                block_size > 0,
                q == file_size / block_size,
                file_size % block_size != 0,
        ;
        q + 1
    }
}

/// Copies of the strings, in order.
pub fn copy_strings(v: &Vec<String>) -> (r: Vec<String>)
    ensures
        strings_view(r@) == strings_view(v@),
{
    let mut out: Vec<String> = Vec::new();
    let mut i: usize = 0;
    while i < v.len()
        invariant
            i <= v@.len(),
            out@.len() == i,
            forall|j: int| 0 <= j < i ==> #[trigger] out@[j]@ == v@[j]@,
        decreases v@.len() - i,
    {
        out.push(v[i].clone());
        i = i + 1;
    }
    assert(strings_view(out@) =~= strings_view(v@));
    out
}

impl FileManifest {
    /// A copy of this manifest.
    pub fn copied(&self) -> (r: FileManifest)
        ensures
            r@ == self@,
    {
        FileManifest {
            file_name: self.file_name.clone(),
            file_hash: self.file_hash.clone(),
            file_size: self.file_size,
            block_size: self.block_size,
            block_hashes: copy_strings(&self.block_hashes),
        }
    }
}

impl PeerFileInfo {
    /// A copy of this record.
    pub fn copied(&self) -> (r: PeerFileInfo)
        ensures
            r@ == self@,
    {
        PeerFileInfo {
            file_hash: self.file_hash.clone(),
            peer_id: self.peer_id.clone(),
            peer_host: self.peer_host.clone(),
            peer_port: self.peer_port,
            blocks: self.blocks.clone(),
            last_seen: self.last_seen,
        }
    }
}

/// Copies of the manifests, in order.
pub fn copy_manifests(v: &Vec<FileManifest>) -> (r: Vec<FileManifest>)
    ensures
        manifests_view(r@) == manifests_view(v@),
{
    let mut out: Vec<FileManifest> = Vec::new();
    let mut i: usize = 0;
    while i < v.len()
        invariant
            i <= v@.len(),
            out@.len() == i,
            forall|j: int| 0 <= j < i ==> #[trigger] out@[j]@ == v@[j]@,
        decreases v@.len() - i,
    {
        out.push(v[i].copied());
        i = i + 1;
    }
    assert(manifests_view(out@) =~= manifests_view(v@));
    out
}

/// Copies of the peer records, in order.
pub fn copy_peers(v: &Vec<PeerFileInfo>) -> (r: Vec<PeerFileInfo>)
    ensures
        peers_view(r@) == peers_view(v@),
{
    let mut out: Vec<PeerFileInfo> = Vec::new();
    let mut i: usize = 0;
    while i < v.len()
        invariant
            i <= v@.len(),
            out@.len() == i,
            forall|j: int| 0 <= j < i ==> #[trigger] out@[j]@ == v@[j]@,
        decreases v@.len() - i,
    {
        out.push(v[i].copied());
        i = i + 1;
    }
    assert(peers_view(out@) =~= peers_view(v@));
    out
}

} // verus!

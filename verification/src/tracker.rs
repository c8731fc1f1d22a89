//! The tracker's registry: the announced files, indexed by digest and by
//! name, and for each file the peers that seed it.
use vstd::prelude::*;
use vstd::hash_map::StringHashMap;
use vstd::string::*;
use dashmap::DashMap;
use crate::dto::{
    announce_is_valid, spec_announce_response, spec_brief_of, spec_manifest_of,
    spec_peer_update_response, AnnounceFileResponse, FileAnnounceRequest, FileBrief,
    PeerUpdateRequest, PeerUpdateResponse,
};
use crate::models::{
    block_count, copy_manifests, copy_peers, manifests_view, peers_view, spec_block_count,
    FileManifest, FileManifestView, PeerFileInfo, PeerFileInfoView,
};
use crate::text::chars_of;
use crate::clock::now_timestamp_micros;

verus! {

#[verifier::external_type_specification]
#[verifier::external_body]
#[verifier::reject_recursive_types(K)]
#[verifier::reject_recursive_types(V)]
#[verifier::reject_recursive_types(S)]
pub struct ExDashMap<K, V, S>(DashMap<K, V, S>);

/// What the map of seeding peers holds: for each file digest, the peers that
/// seed that file.
pub uninterp spec fn seeding_contents(
    m: DashMap<String, Vec<PeerFileInfo>>,
) -> Map<Seq<char>, Seq<PeerFileInfoView>>;

/// No file has seeding peers.
pub open spec fn empty_seeding() -> Map<Seq<char>, Seq<PeerFileInfoView>> {
    Map::empty()
}

/// Calls `DashMap::new`. Claims that the new map is empty.
#[verifier::external_body]
fn seeding_new() -> (r: DashMap<String, Vec<PeerFileInfo>>)
    ensures
        seeding_contents(r) == empty_seeding(),
{
    let r = DashMap::new();
    r
}

/// Calls `DashMap::view`, which hands the value stored under `key` to the
/// closure and returns what it returns, or `None` when there is no such
/// entry. The closure is `copy_peers`, verified to copy every record. Claims
/// that the result is a copy of the peers stored under `key`, or `None` when
/// there are none.
#[verifier::external_body]
fn seeding_get(m: &DashMap<String, Vec<PeerFileInfo>>, key: &str) -> (r: Option<Vec<PeerFileInfo>>)
    ensures
        match r {
            Some(v) => seeding_contents(*m).contains_key(key@) && peers_view(v@)
                == seeding_contents(*m)[key@],
            None => !seeding_contents(*m).contains_key(key@),
        },
{
    m.view(key, |_, v| copy_peers(v))
}

/// Calls `DashMap::insert`, which stores `value` under `key` and drops what
/// was there. `DashMap::insert` takes `&self`; this wrapper takes `&mut` so
/// that every change of the map is visible to Verus as a change of the value.
#[verifier::external_body]
fn seeding_insert(m: &mut DashMap<String, Vec<PeerFileInfo>>, key: String, value: Vec<PeerFileInfo>)
    ensures
        seeding_contents(*final(m)) == seeding_contents(*old(m)).insert(key@, peers_view(value@)),
{
    m.insert(key, value);
}

/// The tracker's state: the announced files in announce order, two indices
/// over them, and the seeding peers of each file.
pub struct Context {
    file_list: Vec<FileManifest>,
    file_list_by_hash: StringHashMap<FileManifest>,
    file_list_by_name: StringHashMap<Vec<FileManifest>>,
    seeding_peers: DashMap<String, Vec<PeerFileInfo>>,
}

/// The tracker's state as plain values.
pub struct ContextView {
    /// The files in the order they were announced or loaded.
    pub files: Seq<FileManifestView>,
    /// For each file digest, the peers that seed it.
    pub seeding: Map<Seq<char>, Seq<PeerFileInfoView>>,
}

impl View for Context {
    type V = ContextView;

    closed spec fn view(&self) -> ContextView {
        ContextView {
            files: manifests_view(self.file_list@),
            seeding: seeding_contents(self.seeding_peers),
        }
    }
}

/// The last file with digest `hash`: the one the tracker answers for it.
pub open spec fn file_with_hash(files: Seq<FileManifestView>, hash: Seq<char>) -> Option<
    FileManifestView,
>
    decreases files.len(),
{
    if files.len() == 0 {
        None
    } else if files.last().file_hash == hash {
        Some(files.last())
    } else {
        file_with_hash(files.drop_last(), hash)
    }
}

/// The files named `name`, in order.
pub open spec fn files_named(files: Seq<FileManifestView>, name: Seq<char>) -> Seq<
    FileManifestView,
>
    decreases files.len(),
{
    if files.len() == 0 {
        Seq::empty()
    } else if files.last().file_name == name {
        files_named(files.drop_last(), name).push(files.last())
    } else {
        files_named(files.drop_last(), name)
    }
}

/// The answer to a query: the file with that digest, or else every file with
/// that name.
pub open spec fn spec_query(files: Seq<FileManifestView>, file_id: Seq<char>) -> Seq<
    FileManifestView,
> {
    match file_with_hash(files, file_id) {
        Some(f) => seq![f],
        None => files_named(files, file_id),
    }
}

/// A string of `0` and `1` with one character per block.
pub open spec fn is_block_bitmap(blocks: Seq<char>, block_count: nat) -> bool {
    blocks.len() == block_count && forall|i: int|
        0 <= i < blocks.len() ==> #[trigger] blocks[i] == '0' || blocks[i] == '1'
}

/// No two peers share an identifier.
pub open spec fn unique_peer_ids(peers: Seq<PeerFileInfoView>) -> bool {
    forall|i: int, j: int|
        0 <= i < peers.len() && 0 <= j < peers.len() && i != j ==> #[trigger] peers[i].peer_id
            != #[trigger] peers[j].peer_id
}

/// The peer list after a report from `p`: its earlier record replaced in
/// place, or `p` appended when it had none.
pub open spec fn upsert_peer(peers: Seq<PeerFileInfoView>, p: PeerFileInfoView) -> Seq<
    PeerFileInfoView,
> {
    if exists|i: int| 0 <= i < peers.len() && #[trigger] peers[i].peer_id == p.peer_id {
        let i = choose|i: int| 0 <= i < peers.len() && #[trigger] peers[i].peer_id == p.peer_id;
        peers.update(i, p)
    } else {
        peers.push(p)
    }
}

/// The seeding peers of a file, none when it has no entry.
pub open spec fn peers_of(seeding: Map<Seq<char>, Seq<PeerFileInfoView>>, hash: Seq<char>) -> Seq<
    PeerFileInfoView,
> {
    if seeding.contains_key(hash) {
        seeding[hash]
    } else {
        Seq::empty()
    }
}

/// The record the tracker keeps for a peer report.
pub open spec fn spec_peer_record(
    file: FileManifestView,
    req: crate::dto::PeerUpdateRequestView,
    client_host: Seq<char>,
    now: i64,
) -> PeerFileInfoView {
    PeerFileInfoView {
        file_hash: file.file_hash,
        peer_id: req.peer_id,
        peer_host: match req.peer_host {
            Some(h) => h,
            None => client_host,
        },
        peer_port: req.peer_port,
        blocks: req.blocks,
        last_seen: now,
    }
}

/// How the tracker answers a peer report at time `now`, and the seeding
/// peers afterwards.
pub open spec fn spec_peer_update(
    files: Seq<FileManifestView>,
    seeding: Map<Seq<char>, Seq<PeerFileInfoView>>,
    payload: crate::dto::PeerUpdateRequestView,
    client_host: Seq<char>,
    now: i64,
) -> (PeerUpdateOutcome, Map<Seq<char>, Seq<PeerFileInfoView>>) {
    match file_with_hash(files, payload.file_hash) {
        None => (PeerUpdateOutcome::NotFound, seeding),
        Some(f) => if is_block_bitmap(
            payload.blocks,
            spec_block_count(f.file_size as nat, f.block_size as nat),
        ) {
            (
                PeerUpdateOutcome::Accepted,
                seeding.insert(
                    f.file_hash,
                    upsert_peer(peers_of(seeding, f.file_hash), spec_peer_record(f, payload, client_host, now)),
                ),
            )
        } else {
            (PeerUpdateOutcome::BadRequest, seeding)
        },
    }
}

/// How the tracker answered an announce.
#[derive(Debug, Clone, Copy, PartialEq, Eq, Structural)]
pub enum AnnounceOutcome {
    /// The file was added.
    Accepted,
    /// The manifest does not list one digest per block.
    BadRequest,
    /// A file with that digest is already announced.
    Conflict,
}

/// How the tracker answered a peer update.
#[derive(Debug, Clone, Copy, PartialEq, Eq, Structural)]
pub enum PeerUpdateOutcome {
    /// The peer's record was stored.
    Accepted,
    /// No file has that digest.
    NotFound,
    /// The block string does not have one `0` or `1` per block of the file.
    BadRequest,
}

/// The HTTP status the tracker answers an announce with.
pub open spec fn spec_announce_status(o: AnnounceOutcome) -> u16 {
    match o {
        AnnounceOutcome::Accepted => 200,
        AnnounceOutcome::BadRequest => 400,
        AnnounceOutcome::Conflict => 409,
    }
}

/// The HTTP status the tracker answers a peer update with.
pub open spec fn spec_peer_update_status(o: PeerUpdateOutcome) -> u16 {
    match o {
        PeerUpdateOutcome::Accepted => 200,
        PeerUpdateOutcome::NotFound => 404,
        PeerUpdateOutcome::BadRequest => 400,
    }
}

impl AnnounceOutcome {
    /// The HTTP status of this answer: 200 accepted, 400 inconsistent
    /// manifest, 409 digest already announced.
    pub fn status_code(&self) -> (r: u16)
        ensures
            r == spec_announce_status(*self),
            *self == AnnounceOutcome::Accepted <==> r == 200,
            *self == AnnounceOutcome::BadRequest <==> r == 400,
            *self == AnnounceOutcome::Conflict <==> r == 409,
    {
        match self {
            AnnounceOutcome::Accepted => 200,
            AnnounceOutcome::BadRequest => 400,
            AnnounceOutcome::Conflict => 409,
        }
    }
}

impl PeerUpdateOutcome {
    /// The HTTP status of this answer: 200 accepted, 404 unknown file, 400
    /// malformed block string.
    pub fn status_code(&self) -> (r: u16)
        ensures
            r == spec_peer_update_status(*self),
            *self == PeerUpdateOutcome::Accepted <==> r == 200,
            *self == PeerUpdateOutcome::NotFound <==> r == 404,
            *self == PeerUpdateOutcome::BadRequest <==> r == 400,
    {
        match self {
            PeerUpdateOutcome::Accepted => 200,
            PeerUpdateOutcome::NotFound => 404,
            PeerUpdateOutcome::BadRequest => 400,
        }
    }
}

/// A node reads the tracker's answer as the tracker meant it: an accepted,
/// conflicting or refused announce, and an accepted peer update or one for
/// an unknown file; a refused peer update reads as an unknown failure.
pub proof fn lemma_node_reads_tracker_answers(a: AnnounceOutcome, u: PeerUpdateOutcome)
    ensures
        spec_announce_response(spec_announce_status(a)) == match a {
            AnnounceOutcome::Accepted => AnnounceFileResponse::Success,
            AnnounceOutcome::BadRequest => AnnounceFileResponse::BadRequest,
            AnnounceOutcome::Conflict => AnnounceFileResponse::Conflict,
        },
        spec_peer_update_response(spec_peer_update_status(u)) == match u {
            PeerUpdateOutcome::Accepted => PeerUpdateResponse::Success,
            PeerUpdateOutcome::NotFound => PeerUpdateResponse::FileNotFound,
            PeerUpdateOutcome::BadRequest => PeerUpdateResponse::Unknown,
        },
{
}

/// The file that answers for a digest carries that digest.
pub proof fn lemma_file_with_hash_matches(files: Seq<FileManifestView>, hash: Seq<char>)
    ensures
        file_with_hash(files, hash) matches Some(f) ==> f.file_hash == hash,
    decreases files.len(),
{
    if files.len() > 0 {
        lemma_file_with_hash_matches(files.drop_last(), hash);
    }
}

/// The file that answers for a digest is the last registered file that
/// carries it.
pub proof fn lemma_file_with_hash_is_last(files: Seq<FileManifestView>, hash: Seq<char>)
    ensures
        file_with_hash(files, hash) matches Some(f) ==> exists|k: int|
            0 <= k < files.len() && files[k] == f && f.file_hash == hash && forall|j: int|
                k < j < files.len() ==> (#[trigger] files[j]).file_hash != hash,
    decreases files.len(),
{
    if files.len() > 0 {
        let l = files.len() - 1;
        if files.last().file_hash == hash {
            assert(files[l] == files.last());
        } else {
            lemma_file_with_hash_is_last(files.drop_last(), hash);
            if let Some(f) = file_with_hash(files, hash) {
                let k = choose|k: int|
                    0 <= k < files.drop_last().len() && files.drop_last()[k] == f && f.file_hash
                        == hash && forall|j: int|
                        k < j < files.drop_last().len() ==> (#[trigger] files.drop_last()[j]).file_hash
                            != hash;
                assert(files[k] == f);
                assert forall|j: int| k < j < files.len() implies (#[trigger] files[j]).file_hash != hash by {
                    if j < l {
                        assert(files[j] == files.drop_last()[j]);
                    }
                }
            }
        }
    }
}

/// The files named `name` are the registered files with that name, in
/// registration order.
pub proof fn lemma_files_named_is_filter(files: Seq<FileManifestView>, name: Seq<char>)
    ensures
        files_named(files, name) == files.filter(|m: FileManifestView| m.file_name == name),
    decreases files.len(),
{
    reveal(Seq::filter);
    if files.len() > 0 {
        lemma_files_named_is_filter(files.drop_last(), name);
    }
}

/// A query for an identifier answers with the last registered file whose
/// digest it is, alone, when there is one, and otherwise with every
/// registered file of that name, in registration order.
pub proof fn lemma_query_answers(files: Seq<FileManifestView>, file_id: Seq<char>)
    ensures
        (exists|i: int| 0 <= i < files.len() && (#[trigger] files[i]).file_hash == file_id) ==> (
        spec_query(files, file_id).len() == 1 && exists|k: int|
            0 <= k < files.len() && files[k] == spec_query(files, file_id)[0] && files[k].file_hash
                == file_id && forall|j: int|
                k < j < files.len() ==> (#[trigger] files[j]).file_hash != file_id),
        (forall|i: int| 0 <= i < files.len() ==> (#[trigger] files[i]).file_hash != file_id) ==> spec_query(
            files,
            file_id,
        ) == files.filter(|m: FileManifestView| m.file_name == file_id),
{
    lemma_no_file_with_hash(files, file_id);
    lemma_file_with_hash_is_last(files, file_id);
    lemma_files_named_is_filter(files, file_id);
}

/// Once a file is registered under a fresh digest, a query for that digest
/// answers exactly that file.
pub proof fn lemma_announced_file_is_found(files: Seq<FileManifestView>, m: FileManifestView)
    requires
        file_with_hash(files, m.file_hash) is None,
    ensures
        spec_query(files.push(m), m.file_hash) == seq![m],
{
    assert(files.push(m).drop_last() =~= files);
}

/// No two registered files share a digest.
pub open spec fn digests_distinct(files: Seq<FileManifestView>) -> bool {
    forall|i: int, j: int|
        0 <= i < files.len() && 0 <= j < files.len() && i != j ==> #[trigger] files[i].file_hash
            != #[trigger] files[j].file_hash
}

/// No file answers for a digest exactly when no registered file carries it.
pub proof fn lemma_no_file_with_hash(files: Seq<FileManifestView>, hash: Seq<char>)
    ensures
        file_with_hash(files, hash) is None <==> forall|i: int|
            0 <= i < files.len() ==> #[trigger] files[i].file_hash != hash,
    decreases files.len(),
{
    if files.len() > 0 {
        lemma_no_file_with_hash(files.drop_last(), hash);
        if file_with_hash(files, hash) is None {
            assert forall|i: int| 0 <= i < files.len() implies #[trigger] files[i].file_hash != hash by {
                if i < files.len() - 1 {
                    assert(files.drop_last()[i] == files[i]);
                }
            }
        } else if files.last().file_hash != hash {
            let k = choose|k: int| 0 <= k < files.drop_last().len() && #[trigger] files.drop_last()[k].file_hash == hash;
            assert(files[k] == files.drop_last()[k]);
        } else {
            assert(files[files.len() - 1].file_hash == hash);
        }
    }
}

/// Announcing keeps digests distinct: a registry filled by announces alone
/// never holds two files with the same digest, since an announce is accepted
/// only for a digest no file carries yet.
pub proof fn lemma_announce_keeps_digests_distinct(files: Seq<FileManifestView>, m: FileManifestView)
    requires
        digests_distinct(files),
        file_with_hash(files, m.file_hash) is None,
    ensures
        digests_distinct(files.push(m)),
{
    lemma_no_file_with_hash(files, m.file_hash);
    let f = files.push(m);
    assert forall|i: int, j: int|
        0 <= i < f.len() && 0 <= j < f.len() && i != j implies #[trigger] f[i].file_hash
            != #[trigger] f[j].file_hash by {
        if i < files.len() && j < files.len() {
            assert(f[i] == files[i] && f[j] == files[j]);
        } else if i < files.len() {
            assert(f[i] == files[i]);
        } else {
            assert(f[j] == files[j]);
        }
    }
}

/// Once a file is registered, a second announce of its digest finds it taken,
/// whatever else was registered in between.
pub proof fn lemma_registered_digest_stays_taken(
    files: Seq<FileManifestView>,
    m: FileManifestView,
    later: Seq<FileManifestView>,
)
    ensures
        file_with_hash(files.push(m) + later, m.file_hash) is Some,
    decreases later.len(),
{
    if later.len() == 0 {
        assert(files.push(m) + later =~= files.push(m));
        assert(files.push(m).drop_last() =~= files);
    } else {
        lemma_registered_digest_stays_taken(files, m, later.drop_last());
        assert((files.push(m) + later).drop_last() =~= files.push(m) + later.drop_last());
    }
}

/// After a peer reports, the file's peer list holds its new record exactly
/// once, keeps one record per peer, and keeps every other peer's record.
pub proof fn lemma_upsert_records_peer(peers: Seq<PeerFileInfoView>, p: PeerFileInfoView)
    requires
        unique_peer_ids(peers),
    ensures
        unique_peer_ids(upsert_peer(peers, p)),
        upsert_peer(peers, p).contains(p),
        forall|i: int|
            0 <= i < upsert_peer(peers, p).len() && #[trigger] upsert_peer(peers, p)[i].peer_id
                == p.peer_id ==> upsert_peer(peers, p)[i] == p,
        forall|q: PeerFileInfoView|
            peers.contains(q) && q.peer_id != p.peer_id ==> #[trigger] upsert_peer(peers, p).contains(q),
{
    let r = upsert_peer(peers, p);
    if exists|i: int| 0 <= i < peers.len() && #[trigger] peers[i].peer_id == p.peer_id {
        let c = choose|i: int| 0 <= i < peers.len() && #[trigger] peers[i].peer_id == p.peer_id;
        assert(r == peers.update(c, p));
        assert(r[c] == p);
        assert forall|q: PeerFileInfoView| peers.contains(q) && q.peer_id != p.peer_id implies #[trigger] r.contains(q) by {
            let k = choose|k: int| 0 <= k < peers.len() && peers[k] == q;
            assert(r[k] == q);
        }
    } else {
        assert(r == peers.push(p));
        assert(r[peers.len() as int] == p);
        assert forall|q: PeerFileInfoView| peers.contains(q) && q.peer_id != p.peer_id implies #[trigger] r.contains(q) by {
            let k = choose|k: int| 0 <= k < peers.len() && peers[k] == q;
            assert(r[k] == q);
        }
    }
}

/// A report the tracker accepts is what the file's peer list then holds for
/// that peer: the record names the reported file, and listing the file's
/// peers gives it back.
pub proof fn lemma_reported_peer_is_listed(
    files: Seq<FileManifestView>,
    seeding: Map<Seq<char>, Seq<PeerFileInfoView>>,
    payload: crate::dto::PeerUpdateRequestView,
    client_host: Seq<char>,
    now: i64,
)
    ensures
        spec_peer_update(files, seeding, payload, client_host, now).0 == PeerUpdateOutcome::Accepted
            ==> (file_with_hash(files, payload.file_hash) matches Some(f) && peers_of(
            spec_peer_update(files, seeding, payload, client_host, now).1,
            payload.file_hash,
        ).contains(spec_peer_record(f, payload, client_host, now))),
{
    lemma_file_with_hash_matches(files, payload.file_hash);
    if let Some(f) = file_with_hash(files, payload.file_hash) {
        let p = spec_peer_record(f, payload, client_host, now);
        let peers = peers_of(seeding, f.file_hash);
        let r = upsert_peer(peers, p);
        if exists|i: int| 0 <= i < peers.len() && #[trigger] peers[i].peer_id == p.peer_id {
            let c = choose|i: int| 0 <= i < peers.len() && #[trigger] peers[i].peer_id == p.peer_id;
            assert(r[c] == p);
        } else {
            assert(r[peers.len() as int] == p);
        }
    }
}

/// A block string fits a file exactly when it has one character per block
/// and every character is `0` or `1`.
pub proof fn lemma_block_bitmap_shape(blocks: Seq<char>, block_count: nat)
    ensures
        is_block_bitmap(blocks, block_count) <==> (blocks.len() == block_count && forall|i: int|
            0 <= i < blocks.len() ==> blocks[i] == '0' || blocks[i] == '1'),
{
}

/// The tracker accepts a peer report only for a registered file and only
/// when its block string has one `0` or `1` per block of that file: as many
/// characters as the file size divided by the block size, rounded up.
pub proof fn lemma_accepted_report_fits_file(
    files: Seq<FileManifestView>,
    seeding: Map<Seq<char>, Seq<PeerFileInfoView>>,
    payload: crate::dto::PeerUpdateRequestView,
    client_host: Seq<char>,
    now: i64,
)
    requires
        file_with_hash(files, payload.file_hash) matches Some(f) ==> f.block_size > 0,
    ensures
        spec_peer_update(files, seeding, payload, client_host, now).0 == PeerUpdateOutcome::Accepted
            ==> (file_with_hash(files, payload.file_hash) matches Some(f) && f.file_hash
            == payload.file_hash && payload.blocks.len() == (f.file_size + f.block_size - 1) / (
        f.block_size as int) && forall|i: int|
            0 <= i < payload.blocks.len() ==> payload.blocks[i] == '0' || payload.blocks[i] == '1'),
        file_with_hash(files, payload.file_hash) is None ==> spec_peer_update(
            files,
            seeding,
            payload,
            client_host,
            now,
        ) == (PeerUpdateOutcome::NotFound, seeding),
{
    lemma_file_with_hash_matches(files, payload.file_hash);
    if let Some(f) = file_with_hash(files, payload.file_hash) {
        crate::models::lemma_block_count_rounds_up(f.file_size as nat, f.block_size as nat);
    }
}

/// Whether `blocks` holds one `0` or `1` per block.
pub fn check_block_bitmap(blocks: &String, count: u64) -> (r: bool)
    ensures
        r == is_block_bitmap(blocks@, count as nat),
        r <==> (blocks@.len() == count && forall|i: int|
            0 <= i < blocks@.len() ==> blocks@[i] == '0' || blocks@[i] == '1'),
{
    let cs = chars_of(blocks.as_str());
    if cs.len() as u64 != count {
        return false;
    }
    let mut i: usize = 0;
    while i < cs.len()
        invariant
            i <= cs@.len(),
            cs@ == blocks@,
            forall|j: int| 0 <= j < i ==> #[trigger] cs@[j] == '0' || cs@[j] == '1',
        decreases cs@.len() - i,
    {
        if cs[i] != '0' && cs[i] != '1' {
            return false;
        }
        i = i + 1;
    }
    true
}

/// Replaces the record of `info`'s peer, or appends `info` when the peer has
/// none.
fn upsert_peer_exec(peers: &mut Vec<PeerFileInfo>, info: PeerFileInfo)
    requires
        unique_peer_ids(peers_view(old(peers)@)),
    ensures
        peers_view(final(peers)@) == upsert_peer(peers_view(old(peers)@), info@),
        unique_peer_ids(peers_view(final(peers)@)),
{
    let ghost ps = peers_view(peers@);
    let mut j: usize = 0;
    while j < peers.len()
        invariant
            j <= peers@.len(),
            ps == peers_view(peers@),
            ps == peers_view(old(peers)@),
            unique_peer_ids(ps),
            forall|k: int| 0 <= k < j ==> #[trigger] ps[k].peer_id != info@.peer_id,
        decreases peers@.len() - j,
    {
        if peers[j].peer_id == info.peer_id {
            proof {
                assert(ps[j as int].peer_id == info@.peer_id);
                let c = choose|i: int| 0 <= i < ps.len() && #[trigger] ps[i].peer_id == info@.peer_id;
                assert(c == j);
                assert(upsert_peer(ps, info@) == ps.update(j as int, info@));
            }
            peers.set(j, info);
            proof {
                assert(peers_view(peers@) =~= ps.update(j as int, info@));
                assert(ps == peers_view(old(peers)@));
            }
            return;
        }
        j = j + 1;
    }
    peers.push(info);
    proof {
        assert(peers_view(peers@) =~= ps.push(info@));
        assert(!(exists|i: int| 0 <= i < ps.len() && #[trigger] ps[i].peer_id == info@.peer_id));
    }
}

impl Context {
    /// The indices agree with the file list, and peers are recorded only for
    /// announced files, each peer once per file.
    pub closed spec fn wf(&self) -> bool {
        let files = manifests_view(self.file_list@);
        &&& forall|h: Seq<char>| #[trigger]
            self.file_list_by_hash@.contains_key(h) <==> file_with_hash(files, h) is Some
        &&& forall|h: Seq<char>| #[trigger]
            self.file_list_by_hash@.contains_key(h) ==> self.file_list_by_hash@[h]@
                == file_with_hash(files, h)->0
        &&& forall|n: Seq<char>| #[trigger]
            self.file_list_by_name@.contains_key(n) <==> files_named(files, n).len() > 0
        &&& forall|n: Seq<char>| #[trigger]
            self.file_list_by_name@.contains_key(n) ==> manifests_view(
                self.file_list_by_name@[n]@,
            ) == files_named(files, n)
        &&& forall|h: Seq<char>| #[trigger]
            seeding_contents(self.seeding_peers).contains_key(h) ==> file_with_hash(files, h) is Some
        &&& forall|h: Seq<char>| #[trigger]
            seeding_contents(self.seeding_peers).contains_key(h) ==> unique_peer_ids(
                seeding_contents(self.seeding_peers)[h],
            )
    }

    /// Each file's peer list holds at most one record per peer.
    pub proof fn lemma_peers_unique(&self)
        requires
            self.wf(),
        ensures
            forall|h: Seq<char>| #[trigger] unique_peer_ids(peers_of(self@.seeding, h)),
    {
        assert forall|h: Seq<char>| #[trigger] unique_peer_ids(peers_of(self@.seeding, h)) by {
            if !self@.seeding.contains_key(h) {
                assert(peers_of(self@.seeding, h) =~= Seq::<PeerFileInfoView>::empty());
            }
        }
    }

    /// An empty registry.
    pub fn new() -> (r: Context)
        ensures
            r.wf(),
            r@.files == Seq::<FileManifestView>::empty(),
            r@.seeding == Map::<Seq<char>, Seq<PeerFileInfoView>>::empty(),
    {
        let r = Context {
            file_list: Vec::new(),
            file_list_by_hash: StringHashMap::new(),
            file_list_by_name: StringHashMap::new(),
            seeding_peers: seeding_new(),
        };
        assert(manifests_view(r.file_list@) =~= Seq::<FileManifestView>::empty());
        r
    }

    /// Adds a file read from the store. Returns whether a file with the same
    /// digest was already present; the new file then answers for that digest.
    pub fn add_stored_file(&mut self, file: FileManifest) -> (duplicate: bool)
        requires
            old(self).wf(),
        ensures
            final(self).wf(),
            final(self)@.files == old(self)@.files.push(file@),
            final(self)@.seeding == old(self)@.seeding,
            duplicate == file_with_hash(old(self)@.files, file@.file_hash) is Some,
    {
        let ghost old_files = manifests_view(self.file_list@);
        let duplicate = self.file_list_by_hash.contains_key(file.file_hash.as_str());
        self.file_list_by_hash.insert(file.file_hash.clone(), file.copied());
        let mut named = match self.file_list_by_name.get(file.file_name.as_str()) {
            Some(v) => copy_manifests(v),
            None => Vec::new(),
        };
        let ghost old_named = manifests_view(named@);
        named.push(file.copied());
        assert(manifests_view(named@) =~= old_named.push(file@));
        self.file_list_by_name.insert(file.file_name.clone(), named);
        self.file_list.push(file);
        proof {
            let files = manifests_view(self.file_list@);
            assert(files =~= old_files.push(file@));
            assert(files.drop_last() =~= old_files);
            assert forall|h: Seq<char>| #[trigger] file_with_hash(files, h) == if file@.file_hash == h {
                Some(file@)
            } else {
                file_with_hash(old_files, h)
            } by {}
            assert forall|n: Seq<char>| #[trigger] files_named(files, n) == if file@.file_name == n {
                files_named(old_files, n).push(file@)
            } else {
                files_named(old_files, n)
            } by {}
            assert(old_named == files_named(old_files, file@.file_name));
        }
        duplicate
    }

    /// Registers an announced file. The manifest must list one digest per
    /// block, and no file with the same digest may be registered.
    pub fn announce(&mut self, payload: FileAnnounceRequest) -> (r: AnnounceOutcome)
        requires
            old(self).wf(),
            payload.block_size > 0,
        ensures
            final(self).wf(),
            final(self)@.seeding == old(self)@.seeding,
            !announce_is_valid(payload@) ==> r == AnnounceOutcome::BadRequest,
            announce_is_valid(payload@) && file_with_hash(old(self)@.files, payload@.file_hash) is Some
                ==> r == AnnounceOutcome::Conflict,
            announce_is_valid(payload@) && file_with_hash(old(self)@.files, payload@.file_hash) is None
                ==> r == AnnounceOutcome::Accepted,
            r == AnnounceOutcome::Accepted ==> final(self)@.files == old(self)@.files.push(
                spec_manifest_of(payload@),
            ),
            r != AnnounceOutcome::Accepted ==> final(self)@.files == old(self)@.files,
            digests_distinct(old(self)@.files) ==> digests_distinct(final(self)@.files),
            payload@.block_hashes.len() != (payload.file_size + payload.block_size - 1) / (
            payload.block_size as int) ==> r == AnnounceOutcome::BadRequest && final(self)@.files
                == old(self)@.files,
            r == AnnounceOutcome::Accepted ==> payload@.block_hashes.len() == (payload.file_size
                + payload.block_size - 1) / (payload.block_size as int) && final(self)@.files.len()
                == old(self)@.files.len() + 1 && final(self)@.files.last().file_hash
                == payload@.file_hash && final(self)@.files.last().block_hashes
                == payload@.block_hashes,
            r == AnnounceOutcome::Conflict ==> exists|i: int|
                0 <= i < old(self)@.files.len() && (#[trigger] old(self)@.files[i]).file_hash
                    == payload@.file_hash,
    {
        proof {
            crate::dto::lemma_valid_announce_counts_blocks(payload@);
            lemma_no_file_with_hash(self@.files, payload@.file_hash);
        }
        if !payload.is_valid() {
            return AnnounceOutcome::BadRequest;
        }
        if self.file_list_by_hash.contains_key(payload.file_hash.as_str()) {
            return AnnounceOutcome::Conflict;
        }
        let file = payload.into_manifest();
        proof {
            if digests_distinct(self@.files) {
                lemma_announce_keeps_digests_distinct(self@.files, file@);
            }
        }
        self.add_stored_file(file);
        AnnounceOutcome::Accepted
    }

    /// Every registered file, briefly, in registration order.
    pub fn file_list(&self) -> (r: Vec<FileBrief>)
        ensures
            r@.map_values(|b: FileBrief| b@) == self@.files.map_values(
                |m: FileManifestView| spec_brief_of(m),
            ),
            r@.len() == self@.files.len(),
            forall|i: int|
                0 <= i < r@.len() ==> (#[trigger] r@[i]).file_name@ == self@.files[i].file_name
                    && r@[i].file_hash@ == self@.files[i].file_hash && r@[i].file_size
                    == self@.files[i].file_size && r@[i].block_size == self@.files[i].block_size,
    {
        let mut out: Vec<FileBrief> = Vec::new();
        let mut i: usize = 0;
        while i < self.file_list.len()
            invariant
                i <= self.file_list@.len(),
                out@.len() == i,
                forall|j: int|
                    0 <= j < i ==> #[trigger] out@[j]@ == spec_brief_of(self.file_list@[j]@),
                forall|j: int|
                    0 <= j < i ==> (#[trigger] out@[j]).file_name@ == self.file_list@[j].file_name@
                        && out@[j].file_hash@ == self.file_list@[j].file_hash@ && out@[j].file_size
                        == self.file_list@[j].file_size && out@[j].block_size
                        == self.file_list@[j].block_size,
            decreases self.file_list@.len() - i,
        {
            out.push(FileBrief::from_manifest(&self.file_list[i]));
            i = i + 1;
        }
        assert(out@.map_values(|b: FileBrief| b@) =~= self@.files.map_values(
            |m: FileManifestView| spec_brief_of(m),
        ));
        out
    }

    /// The file that answers for digest `hash`.
    pub fn file_by_hash(&self, hash: &str) -> (r: Option<FileManifest>)
        requires
            self.wf(),
        ensures
            match r {
                Some(m) => file_with_hash(self@.files, hash@) == Some(m@),
                None => file_with_hash(self@.files, hash@) is None,
            },
    {
        match self.file_list_by_hash.get(hash) {
            Some(m) => Some(m.copied()),
            None => None,
        }
    }

    /// The files matching `file_id`: the file with that digest if there is
    /// one, else every file with that name.
    pub fn query(&self, file_id: &str) -> (r: Vec<FileManifest>)
        requires
            self.wf(),
        ensures
            manifests_view(r@) == spec_query(self@.files, file_id@),
            (exists|i: int| 0 <= i < self@.files.len() && (#[trigger] self@.files[i]).file_hash
                == file_id@) ==> (r@.len() == 1 && exists|k: int|
                0 <= k < self@.files.len() && self@.files[k] == r@[0]@ && self@.files[k].file_hash
                    == file_id@ && forall|j: int|
                    k < j < self@.files.len() ==> (#[trigger] self@.files[j]).file_hash
                        != file_id@),
            (forall|i: int| 0 <= i < self@.files.len() ==> (#[trigger] self@.files[i]).file_hash
                != file_id@) ==> manifests_view(r@) == self@.files.filter(
                |m: FileManifestView| m.file_name == file_id@,
            ),
    {
        proof {
            lemma_query_answers(self@.files, file_id@);
        }
        if let Some(m) = self.file_list_by_hash.get(file_id) {
            let mut out: Vec<FileManifest> = Vec::new();
            out.push(m.copied());
            assert(manifests_view(out@) =~= spec_query(self@.files, file_id@));
            return out;
        }
        match self.file_list_by_name.get(file_id) {
            Some(v) => copy_manifests(v),
            None => {
                let out: Vec<FileManifest> = Vec::new();
                assert(manifests_view(out@) =~= spec_query(self@.files, file_id@));
                out
            },
        }
    }

    /// Records a peer's report of the blocks it holds of a registered file.
    /// The report must hold one `0` or `1` per block. The peer's host is the
    /// one it names, or else `client_host`, the address the report came from;
    /// `now` is stored as the time it was last seen.
    pub fn peer_update(&mut self, payload: PeerUpdateRequest, client_host: String, now: i64) -> (r:
        PeerUpdateOutcome)
        requires
            old(self).wf(),
            file_with_hash(old(self)@.files, payload@.file_hash) matches Some(f) ==> f.block_size > 0,
        ensures
            final(self).wf(),
            final(self)@.files == old(self)@.files,
            spec_peer_update(old(self)@.files, old(self)@.seeding, payload@, client_host@, now) == (
            r,
            final(self)@.seeding,
            ),
            forall|h: Seq<char>| #[trigger] unique_peer_ids(peers_of(final(self)@.seeding, h)),
            r == PeerUpdateOutcome::Accepted ==> (file_with_hash(old(self)@.files, payload@.file_hash)
                matches Some(f) && payload@.blocks.len() == (f.file_size + f.block_size - 1) / (
            f.block_size as int) && forall|i: int|
                0 <= i < payload@.blocks.len() ==> payload@.blocks[i] == '0' || payload@.blocks[i]
                    == '1'),
            r != PeerUpdateOutcome::Accepted ==> final(self)@.seeding == old(self)@.seeding,
            r == PeerUpdateOutcome::Accepted ==> exists|i: int|
                0 <= i < peers_of(final(self)@.seeding, payload@.file_hash).len() && (
                #[trigger] peers_of(final(self)@.seeding, payload@.file_hash)[i]).peer_id
                    == payload@.peer_id,
            r == PeerUpdateOutcome::Accepted ==> forall|i: int|
                0 <= i < peers_of(final(self)@.seeding, payload@.file_hash).len() && (
                #[trigger] peers_of(final(self)@.seeding, payload@.file_hash)[i]).peer_id
                    == payload@.peer_id ==> {
                    let p = peers_of(final(self)@.seeding, payload@.file_hash)[i];
                    &&& p.file_hash == payload@.file_hash
                    &&& p.peer_port == payload.peer_port
                    &&& p.blocks == payload@.blocks
                    &&& p.last_seen == now
                    &&& p.peer_host == match payload@.peer_host {
                        Some(h) => h,
                        None => client_host@,
                    }
                },
            r == PeerUpdateOutcome::Accepted ==> forall|q: PeerFileInfoView|
                peers_of(old(self)@.seeding, payload@.file_hash).contains(q) && q.peer_id
                    != payload@.peer_id ==> #[trigger] peers_of(
                    final(self)@.seeding,
                    payload@.file_hash,
                ).contains(q),
            forall|h: Seq<char>|
                h != payload@.file_hash ==> #[trigger] peers_of(final(self)@.seeding, h) == peers_of(
                    old(self)@.seeding,
                    h,
                ),
            r == PeerUpdateOutcome::Accepted ==> (file_with_hash(old(self)@.files, payload@.file_hash)
                matches Some(f) && peers_of(final(self)@.seeding, payload@.file_hash).contains(
                spec_peer_record(f, payload@, client_host@, now),
            ) && forall|i: int|
                0 <= i < peers_of(final(self)@.seeding, payload@.file_hash).len() && (
                #[trigger] peers_of(final(self)@.seeding, payload@.file_hash)[i]).peer_id
                    == payload@.peer_id ==> peers_of(final(self)@.seeding, payload@.file_hash)[i]
                    == spec_peer_record(f, payload@, client_host@, now)),
    {
        let file = match self.file_list_by_hash.get(payload.file_hash.as_str()) {
            Some(m) => m.copied(),
            None => {
                return PeerUpdateOutcome::NotFound;
            },
        };
        proof {
            lemma_file_with_hash_matches(self@.files, payload@.file_hash);
        }
        let correct_block_count = block_count(file.file_size, file.block_size);
        if !check_block_bitmap(&payload.blocks, correct_block_count) {
            return PeerUpdateOutcome::BadRequest;
        }
        let host = match payload.peer_host {
            Some(h) => h,
            None => client_host,
        };
        let info = PeerFileInfo {
            file_hash: file.file_hash.clone(),
            peer_id: payload.peer_id,
            peer_host: host,
            peer_port: payload.peer_port,
            blocks: payload.blocks,
            last_seen: now,
        };
        let mut peers = match seeding_get(&self.seeding_peers, file.file_hash.as_str()) {
            Some(v) => v,
            None => Vec::new(),
        };
        assert(peers_view(peers@) == peers_of(self@.seeding, file@.file_hash));
        let ghost old_peers = peers_view(peers@);
        let ghost record = info@;
        upsert_peer_exec(&mut peers, info);
        proof {
            lemma_upsert_records_peer(old_peers, record);

            crate::models::lemma_block_count_rounds_up(file@.file_size as nat, file@.block_size as nat);
        }
        let ghost newp = peers_view(peers@);
        seeding_insert(&mut self.seeding_peers, file.file_hash, peers);
        proof {
            self.lemma_peers_unique();
            assert(peers_of(self@.seeding, payload@.file_hash) == newp);
            assert(newp.contains(record));
            let c = choose|c: int| 0 <= c < newp.len() && newp[c] == record;
            assert(newp[c].peer_id == payload@.peer_id);
        }
        PeerUpdateOutcome::Accepted
    }

    /// Records a peer's report as `peer_update` does, stamped with the current
    /// time in microseconds since the Unix epoch.
    pub fn peer_update_now(&mut self, payload: PeerUpdateRequest, client_host: String) -> (r:
        PeerUpdateOutcome)
        requires
            old(self).wf(),
            file_with_hash(old(self)@.files, payload@.file_hash) matches Some(f) ==> f.block_size > 0,
        ensures
            final(self).wf(),
            final(self)@.files == old(self)@.files,
            exists|now: i64|
                #[trigger] spec_peer_update(old(self)@.files, old(self)@.seeding, payload@, client_host@, now)
                    == (r, final(self)@.seeding),
            forall|h: Seq<char>| #[trigger] unique_peer_ids(peers_of(final(self)@.seeding, h)),
    {
        let now = now_timestamp_micros();
        self.peer_update(payload, client_host, now)
    }

    /// The peers that seed the file with digest `file_hash`, or `None` when no
    /// file has that digest.
    pub fn peer_list(&self, file_hash: &str) -> (r: Option<Vec<PeerFileInfo>>)
        requires
            self.wf(),
        ensures
            match file_with_hash(self@.files, file_hash@) {
                None => r is None,
                Some(f) => r matches Some(v) && peers_view(v@) == peers_of(self@.seeding, f.file_hash),
            },
    {
        let file = match self.file_list_by_hash.get(file_hash) {
            Some(m) => m,
            None => {
                return None;
            },
        };
        match seeding_get(&self.seeding_peers, file.file_hash.as_str()) {
            Some(v) => Some(v),
            None => {
                let v: Vec<PeerFileInfo> = Vec::new();
                assert(peers_view(v@) =~= Seq::<PeerFileInfoView>::empty());
                Some(v)
            },
        }
    }
}

} // verus!

//! The messages a node exchanges with the tracker about the files it holds.
use vstd::prelude::*;
use vstd::string::*;
use crate::local_files::{BlockResource, BlockResourceView, FileResource, FileResourceView, ResourceIndex};

verus! {

/// A node's report of every file it shares.
#[derive(Clone, Debug)]
pub struct UpdateNodeRequest {
    pub node_id: String,
    pub host: String,
    pub port: u16,
    pub resources: Vec<TrackerResource>,
    /// Free-form key and value pairs describing the client.
    pub metadata: Vec<(String, String)>,
}

/// A node's notice that it leaves.
#[derive(Clone, Debug)]
pub struct OfflineRequest {
    pub node_id: String,
}

/// A shared file as the tracker sees it.
#[derive(Clone, Debug)]
pub struct TrackerResource {
    pub file_hash: String,
    pub file_name: String,
    pub file_size: u64,
    pub block_size: usize,
    pub blocks: Vec<TrackerBlock>,
}

/// One block of a shared file as the tracker sees it.
#[derive(Clone, Debug)]
pub struct TrackerBlock {
    pub index: usize,
    pub hash: String,
    pub size: usize,
}

/// The tracker's answer to an update.
#[derive(Clone, Debug)]
pub struct UpdateNodeResponse {
    pub status: String,
    pub node_id: String,
    pub registered_resources: usize,
    pub known_files: usize,
    pub expires_at: String,
    pub server_time: String,
}

/// Every file the tracker knows.
#[derive(Clone, Debug)]
pub struct FilesResponse {
    pub files: Vec<FileSummary>,
}

/// A file the tracker knows, with how widely it is held.
#[derive(Clone, Debug)]
pub struct FileSummary {
    pub file_hash: String,
    pub file_name: String,
    pub file_size: Option<u64>,
    pub block_size: Option<usize>,
    pub peer_count: usize,
    pub available_blocks: Vec<usize>,
}

/// Where the files matching a query can be fetched.
#[derive(Clone, Debug)]
pub struct QueryResponse {
    pub locations: Vec<FileLocation>,
}

/// A file and the peers that hold its blocks.
#[derive(Clone, Debug)]
pub struct FileLocation {
    pub file_hash: String,
    pub file_name: String,
    pub file_size: Option<u64>,
    pub block_size: Option<usize>,
    pub peers: Vec<PeerLocation>,
    pub available_blocks: Vec<usize>,
}

/// A peer and the blocks of one file it holds.
#[derive(Clone, Debug)]
pub struct PeerLocation {
    pub node_id: String,
    pub host: String,
    pub port: u16,
    pub last_seen: String,
    pub expires_at: String,
    pub blocks: Vec<TrackerBlock>,
}

/// Every node the tracker knows.
#[derive(Clone, Debug)]
pub struct NodesResponse {
    pub nodes: Vec<NodeSummary>,
}

/// A node the tracker knows, with what it shares.
#[derive(Clone, Debug)]
pub struct NodeSummary {
    pub node_id: String,
    pub host: String,
    pub port: u16,
    pub last_seen: String,
    pub expires_at: String,
    pub resource_count: usize,
    pub resources: Vec<TrackerResource>,
    /// Free-form key and value pairs the node reported.
    pub metadata: Vec<(String, String)>,
}

/// The tracker's health report.
#[derive(Clone, Debug)]
pub struct HealthResponse {
    pub status: String,
    pub message: String,
    pub node_ttl_seconds: u64,
}

/// The tracker's answer to an offline notice.
#[derive(Clone, Debug)]
pub struct OfflineResponse {
    pub status: String,
    pub removed: bool,
}

/// The tracker's description of a failed request.
#[derive(Clone, Debug)]
pub struct ErrorResponse {
    pub status: String,
    pub error: String,
}

/// A block as plain values.
pub struct TrackerBlockView {
    pub index: usize,
    pub hash: Seq<char>,
    pub size: usize,
}

/// A shared file as plain values.
pub struct TrackerResourceView {
    pub file_hash: Seq<char>,
    pub file_name: Seq<char>,
    pub file_size: u64,
    pub block_size: usize,
    pub blocks: Seq<TrackerBlockView>,
}

/// An update as plain values.
pub struct UpdateNodeRequestView {
    pub node_id: Seq<char>,
    pub host: Seq<char>,
    pub port: u16,
    pub resources: Seq<TrackerResourceView>,
    pub metadata: Seq<(Seq<char>, Seq<char>)>,
}

/// A peer location as plain values.
pub struct PeerLocationView {
    pub node_id: Seq<char>,
    pub host: Seq<char>,
    pub port: u16,
    pub last_seen: Seq<char>,
    pub expires_at: Seq<char>,
    pub blocks: Seq<TrackerBlockView>,
}

/// A file location as plain values.
pub struct FileLocationView {
    pub file_hash: Seq<char>,
    pub file_name: Seq<char>,
    pub file_size: Option<u64>,
    pub block_size: Option<usize>,
    pub peers: Seq<PeerLocationView>,
    pub available_blocks: Seq<usize>,
}

impl View for TrackerBlock {
    type V = TrackerBlockView;

    open spec fn view(&self) -> TrackerBlockView {
        TrackerBlockView { index: self.index, hash: self.hash@, size: self.size }
    }
}

impl View for TrackerResource {
    type V = TrackerResourceView;

    open spec fn view(&self) -> TrackerResourceView {
        TrackerResourceView {
            file_hash: self.file_hash@,
            file_name: self.file_name@,
            file_size: self.file_size,
            block_size: self.block_size,
            blocks: self.blocks@.map_values(|b: TrackerBlock| b@),
        }
    }
}

/// Key and value pairs as plain values.
pub open spec fn pairs_view(v: Seq<(String, String)>) -> Seq<(Seq<char>, Seq<char>)> {
    v.map_values(|p: (String, String)| (p.0@, p.1@))
}

impl View for UpdateNodeRequest {
    type V = UpdateNodeRequestView;

    open spec fn view(&self) -> UpdateNodeRequestView {
        UpdateNodeRequestView {
            node_id: self.node_id@,
            host: self.host@,
            port: self.port,
            resources: self.resources@.map_values(|r: TrackerResource| r@),
            metadata: pairs_view(self.metadata@),
        }
    }
}

impl View for PeerLocation {
    type V = PeerLocationView;

    open spec fn view(&self) -> PeerLocationView {
        PeerLocationView {
            node_id: self.node_id@,
            host: self.host@,
            port: self.port,
            last_seen: self.last_seen@,
            expires_at: self.expires_at@,
            blocks: self.blocks@.map_values(|b: TrackerBlock| b@),
        }
    }
}

impl View for FileLocation {
    type V = FileLocationView;

    open spec fn view(&self) -> FileLocationView {
        FileLocationView {
            file_hash: self.file_hash@,
            file_name: self.file_name@,
            file_size: self.file_size,
            block_size: self.block_size,
            peers: self.peers@.map_values(|p: PeerLocation| p@),
            available_blocks: self.available_blocks@,
        }
    }
}

/// The tracker's form of a local block.
pub open spec fn spec_tracker_block(b: BlockResourceView) -> TrackerBlockView {
    TrackerBlockView { index: b.index, hash: b.hash, size: b.size }
}

/// The tracker's form of a local file.
pub open spec fn spec_tracker_resource(r: FileResourceView) -> TrackerResourceView {
    TrackerResourceView {
        file_hash: r.file_hash,
        file_name: r.file_name,
        file_size: r.file_size,
        block_size: r.block_size,
        blocks: r.blocks.map_values(|b: BlockResourceView| spec_tracker_block(b)),
    }
}

/// The metadata every update carries: the client's name.
pub open spec fn spec_default_metadata() -> Seq<(Seq<char>, Seq<char>)> {
    seq![("client"@, "rust-resource-node"@)]
}

/// The update that reports every file of a local index.
pub open spec fn spec_update_request(
    node_id: Seq<char>,
    host: Seq<char>,
    port: u16,
    index: Seq<FileResourceView>,
) -> UpdateNodeRequestView {
    UpdateNodeRequestView {
        node_id,
        host,
        port,
        resources: index.map_values(|r: FileResourceView| spec_tracker_resource(r)),
        metadata: spec_default_metadata(),
    }
}

impl TrackerBlock {
    /// The tracker's form of a local block.
    pub fn from_block(block: &BlockResource) -> (r: TrackerBlock)
        ensures
            r@ == spec_tracker_block(block@),
            r.index == block.index && r.hash@ == block.hash@ && r.size == block.size,
    {
        TrackerBlock { index: block.index, hash: block.hash.clone(), size: block.size }
    }

    /// A copy of this block.
    pub fn copied(&self) -> (r: TrackerBlock)
        ensures
            r@ == self@,
    {
        TrackerBlock { index: self.index, hash: self.hash.clone(), size: self.size }
    }
}

/// Copies of the blocks, in order.
pub fn copy_blocks(blocks: &Vec<TrackerBlock>) -> (r: Vec<TrackerBlock>)
    ensures
        r@.map_values(|b: TrackerBlock| b@) == blocks@.map_values(|b: TrackerBlock| b@),
{
    let mut out: Vec<TrackerBlock> = Vec::new();
    let mut i: usize = 0;
    while i < blocks.len()
        invariant
            i <= blocks@.len(),
            out@.len() == i,
            forall|j: int| 0 <= j < i ==> #[trigger] out@[j]@ == blocks@[j]@,
        decreases blocks@.len() - i,
    {
        out.push(blocks[i].copied());
        i = i + 1;
    }
    assert(out@.map_values(|b: TrackerBlock| b@) =~= blocks@.map_values(|b: TrackerBlock| b@));
    out
}

impl TrackerResource {
    /// The tracker's form of a local file.
    pub fn from_resource(resource: &FileResource) -> (r: TrackerResource)
        ensures
            r@ == spec_tracker_resource(resource@),
            r.file_hash@ == resource.file_hash@ && r.file_name@ == resource.file_name@
                && r.file_size == resource.file_size && r.block_size == resource.block_size,
            r.blocks@.len() == resource.blocks@.len(),
            forall|k: int|
                0 <= k < r.blocks@.len() ==> (#[trigger] r.blocks@[k]).index == resource.blocks@[k].index
                    && r.blocks@[k].hash@ == resource.blocks@[k].hash@ && r.blocks@[k].size
                    == resource.blocks@[k].size,
    {
        let mut blocks: Vec<TrackerBlock> = Vec::new();
        let mut i: usize = 0;
        while i < resource.blocks.len()
            invariant
                i <= resource.blocks@.len(),
                blocks@.len() == i,
                forall|j: int|
                    0 <= j < i ==> #[trigger] blocks@[j]@ == spec_tracker_block(resource.blocks@[j]@),
            decreases resource.blocks@.len() - i,
        {
            blocks.push(TrackerBlock::from_block(&resource.blocks[i]));
            i = i + 1;
        }
        assert(blocks@.map_values(|b: TrackerBlock| b@) =~= resource@.blocks.map_values(
            |b: BlockResourceView| spec_tracker_block(b),
        ));
        assert forall|k: int| 0 <= k < blocks@.len() implies (#[trigger] blocks@[k]).index
            == resource.blocks@[k].index && blocks@[k].hash@ == resource.blocks@[k].hash@
            && blocks@[k].size == resource.blocks@[k].size by {
            assert(blocks@[k]@ == spec_tracker_block(resource.blocks@[k]@));
        }
        TrackerResource {
            file_hash: resource.file_hash.clone(),
            file_name: resource.file_name.clone(),
            file_size: resource.file_size,
            block_size: resource.block_size,
            blocks,
        }
    }
}

impl PeerLocation {
    /// A copy of this peer location.
    pub fn copied(&self) -> (r: PeerLocation)
        ensures
            r@ == self@,
    {
        PeerLocation {
            node_id: self.node_id.clone(),
            host: self.host.clone(),
            port: self.port,
            last_seen: self.last_seen.clone(),
            expires_at: self.expires_at.clone(),
            blocks: copy_blocks(&self.blocks),
        }
    }
}

/// The metadata every update carries: the client's name.
fn default_node_metadata() -> (r: Vec<(String, String)>)
    ensures
        pairs_view(r@) == spec_default_metadata(),
        r@.len() == 1 && r@[0].0@ == "client"@ && r@[0].1@ == "rust-resource-node"@,
{
    let mut r: Vec<(String, String)> = Vec::new();
    r.push((String::from_str("client"), String::from_str("rust-resource-node")));
    assert(pairs_view(r@) =~= spec_default_metadata());
    r
}

/// The update that reports every file of the local index to the tracker.
pub fn update_request_from_index(
    node_id: &str,
    host: &str,
    port: u16,
    index: &ResourceIndex,
) -> (r: UpdateNodeRequest)
    ensures
        r@ == spec_update_request(node_id@, host@, port, index@),
        r.node_id@ == node_id@ && r.host@ == host@ && r.port == port,
        r.resources@.len() == index.resources@.len(),
        forall|k: int|
            0 <= k < r.resources@.len() ==> (#[trigger] r.resources@[k]).file_hash@
                == index.resources@[k].file_hash@ && r.resources@[k].file_name@
                == index.resources@[k].file_name@ && r.resources@[k].file_size
                == index.resources@[k].file_size && r.resources@[k].block_size
                == index.resources@[k].block_size && r.resources@[k].blocks@.len()
                == index.resources@[k].blocks@.len(),
        r.metadata@.len() == 1 && r.metadata@[0].0@ == "client"@ && r.metadata@[0].1@
            == "rust-resource-node"@,
{
    let mut resources: Vec<TrackerResource> = Vec::new();
    let mut i: usize = 0;
    while i < index.resources.len()
        invariant
            i <= index.resources@.len(),
            resources@.len() == i,
            forall|j: int|
                0 <= j < i ==> #[trigger] resources@[j]@ == spec_tracker_resource(
                    index.resources@[j]@,
                ),
        decreases index.resources@.len() - i,
    {
        resources.push(TrackerResource::from_resource(&index.resources[i]));
        i = i + 1;
    }
    assert(resources@.map_values(|r: TrackerResource| r@) =~= index@.map_values(
        |r: FileResourceView| spec_tracker_resource(r),
    ));
    assert forall|k: int| 0 <= k < resources@.len() implies (#[trigger] resources@[k]).file_hash@
        == index.resources@[k].file_hash@ && resources@[k].file_name@
        == index.resources@[k].file_name@ && resources@[k].file_size
        == index.resources@[k].file_size && resources@[k].block_size
        == index.resources@[k].block_size && resources@[k].blocks@.len()
        == index.resources@[k].blocks@.len() by {
        assert(resources@[k]@ == spec_tracker_resource(index.resources@[k]@));
        assert(resources@[k]@.blocks.len() == resources@[k].blocks@.len());
        assert(index.resources@[k]@.blocks.len() == index.resources@[k].blocks@.len());
    }
    let metadata = default_node_metadata();
    UpdateNodeRequest {
        node_id: String::from_str(node_id),
        host: String::from_str(host),
        port,
        resources,
        metadata,
    }
}

/// The notice that the node leaves.
pub fn offline_request(node_id: &str) -> (r: OfflineRequest)
    ensures
        r.node_id@ == node_id@,
{
    OfflineRequest { node_id: String::from_str(node_id) }
}

} // verus!

//! The state of one file transfer on a node: which blocks it holds, which
//! peers hold which blocks, and the decisions taken from them.
use vstd::prelude::*;
use crate::dto::{PeerUpdateRequest, PeerUpdateRequestView};
use crate::models::{
    block_count, peers_view, spec_block_count, FileManifest, PeerFileInfo,
    PeerFileInfoView,
};
use crate::text::chars_of;
use crate::tracker::is_block_bitmap;

verus! {

/// Where a block of the file stands on this node.
#[derive(PartialEq, Eq, Clone, Copy, Debug, Structural)]
pub enum BlockStatus {
    Complete,
    Ongoing,
    Pending,
    Delayed,
}

/// A block to fetch and the peer to fetch it from.
#[derive(Clone, Debug)]
pub struct DownloadBlock {
    pub peer_id: String,
    pub peer_host: String,
    pub peer_port: u16,
    pub block_index: u64,
}

/// One transfer: the file, this node's blocks, the peers known to seed it
/// and, per block, how many of them hold it.
pub struct DownloadContext {
    pub node_id: String,
    pub peer_port: u16,
    pub manifest: FileManifest,
    pub blocks: Vec<BlockStatus>,
    pub peers: Vec<PeerFileInfo>,
    pub block_remote_peers_count: Vec<u64>,
}

/// What the block server answers for a block.
#[derive(PartialEq, Eq, Clone, Copy, Debug, Structural)]
pub enum BlockRequest {
    /// The file has no block with that index.
    BadRequest,
    /// This node does not hold the block yet.
    NotFound,
    /// Read at most `length` bytes from `offset` and send them.
    Serve { offset: u64, length: u64 },
}

/// The block string a node reports: `1` for every complete block, `0` for
/// every other.
pub open spec fn spec_block_bits(blocks: Seq<BlockStatus>) -> Seq<char> {
    blocks.map_values(|s: BlockStatus| if s == BlockStatus::Complete { '1' } else { '0' })
}

/// The peer holds block `i`: its block string has `1` there.
pub open spec fn peer_has_block(p: PeerFileInfoView, i: int) -> bool {
    0 <= i < p.blocks.len() && p.blocks[i] == '1'
}

/// How many of the peers hold block `i`.
pub open spec fn count_holders(peers: Seq<PeerFileInfoView>, i: int) -> nat
    decreases peers.len(),
{
    if peers.len() == 0 {
        0
    } else {
        count_holders(peers.drop_last(), i) + if peer_has_block(peers.last(), i) {
            1nat
        } else {
            0nat
        }
    }
}

/// A block that this node still has to fetch and for which a holder count
/// is known.
pub open spec fn is_candidate_block(blocks: Seq<BlockStatus>, counts: Seq<u64>, i: int) -> bool {
    0 <= i < counts.len() && i < blocks.len() && blocks[i] == BlockStatus::Pending
}

/// The pending block to fetch next: the one held by the fewest peers, the
/// lowest index among equals.
pub open spec fn is_next_block(blocks: Seq<BlockStatus>, counts: Seq<u64>, i: int) -> bool {
    &&& is_candidate_block(blocks, counts, i)
    &&& forall|j: int|
        #![trigger is_candidate_block(blocks, counts, j)]
        is_candidate_block(blocks, counts, j) ==> counts[i] < counts[j] || (counts[i] == counts[j]
            && i <= j)
}

/// A node's report of its blocks has one `0` or `1` per block, so the
/// tracker accepts it for a file with as many blocks as the node tracks.
pub proof fn lemma_update_payload_is_bitmap(blocks: Seq<BlockStatus>)
    ensures
        is_block_bitmap(spec_block_bits(blocks), blocks.len()),
{
}

/// The block string a node reports has one character per block: `1` exactly
/// for the blocks it holds completely, `0` for every other.
pub proof fn lemma_block_bits_mark_complete(blocks: Seq<BlockStatus>)
    ensures
        spec_block_bits(blocks).len() == blocks.len(),
        forall|i: int|
            0 <= i < blocks.len() ==> (#[trigger] spec_block_bits(blocks)[i] == '1' <==> blocks[i]
                == BlockStatus::Complete) && (spec_block_bits(blocks)[i] == '0' <==> blocks[i]
                != BlockStatus::Complete),
{
}

/// The holders of block `i` are counted exactly: they are the peers whose
/// block string has `1` at position `i`.
pub proof fn lemma_count_holders_counts(peers: Seq<PeerFileInfoView>, i: int)
    ensures
        count_holders(peers, i) == peers.filter(
            |p: PeerFileInfoView| 0 <= i < p.blocks.len() && p.blocks[i] == '1',
        ).len(),
    decreases peers.len(),
{
    reveal(Seq::filter);
    if peers.len() > 0 {
        lemma_count_holders_counts(peers.drop_last(), i);
    }
}

/// No block is held by more peers than are known.
pub proof fn lemma_holders_bounded(peers: Seq<PeerFileInfoView>, i: int)
    ensures
        count_holders(peers, i) <= peers.len(),
    decreases peers.len(),
{
    if peers.len() > 0 {
        lemma_holders_bounded(peers.drop_last(), i);
    }
}

/// The peer list kept after a refresh: peers whose block string has one `0`
/// or `1` per block, other than this node.
pub open spec fn usable_peer(p: PeerFileInfoView, block_count: nat, node_id: Seq<char>) -> bool {
    is_block_bitmap(p.blocks, block_count) && p.peer_id != node_id
}

impl DownloadContext {
    /// The number of blocks of the file.
    pub open spec fn spec_block_count(&self) -> nat {
        spec_block_count(self.manifest.file_size as nat, self.manifest.block_size as nat)
    }

    /// The report of this node's blocks for the tracker.
    pub fn to_update_payload(&self) -> (r: PeerUpdateRequest)
        ensures
            r@ == (PeerUpdateRequestView {
                file_hash: self.manifest.file_hash@,
                peer_id: self.node_id@,
                peer_host: None,
                peer_port: self.peer_port,
                blocks: spec_block_bits(self.blocks@),
            }),
            r.blocks@.len() == self.blocks@.len(),
            forall|i: int|
                0 <= i < self.blocks@.len() ==> (r.blocks@[i] == '1' <==> self.blocks@[i]
                    == BlockStatus::Complete) && (r.blocks@[i] == '0' <==> self.blocks@[i]
                    != BlockStatus::Complete),
    {
        proof {
            lemma_block_bits_mark_complete(self.blocks@);
        }
        let mut bits = String::new();
        let mut i: usize = 0;
        while i < self.blocks.len()
            invariant
                i <= self.blocks@.len(),
                bits@ == spec_block_bits(self.blocks@).take(i as int),
            decreases self.blocks@.len() - i,
        {
            let c = match self.blocks[i] {
                BlockStatus::Complete => '1',
                _ => '0',
            };
            bits.push(c);
            i = i + 1;
            assert(bits@ =~= spec_block_bits(self.blocks@).take(i as int));
        }
        assert(spec_block_bits(self.blocks@).take(i as int) =~= spec_block_bits(self.blocks@));
        PeerUpdateRequest {
            file_hash: self.manifest.file_hash.clone(),
            peer_id: self.node_id.clone(),
            peer_host: None,
            peer_port: self.peer_port,
            blocks: bits,
        }
    }

    /// For every block of the file, how many known peers hold it. The number
    /// of blocks is taken as a `usize`, as the vector of counts is sized by it.
    pub fn calculate_block_remote_peers_count(&self) -> (r: Vec<u64>)
        requires
            self.manifest.block_size > 0,
        ensures
            r@.len() == self.spec_block_count() as usize,
            forall|i: int|
                0 <= i < r@.len() ==> #[trigger] r@[i] == count_holders(peers_view(self.peers@), i),
            forall|i: int|
                0 <= i < r@.len() ==> #[trigger] r@[i] == peers_view(self.peers@).filter(
                    |p: PeerFileInfoView| 0 <= i < p.blocks.len() && p.blocks[i] == '1',
                ).len(),
    {
        proof {
            assert forall|i: int| 0 <= i < self.spec_block_count() as usize implies count_holders(
                peers_view(self.peers@),
                i,
            ) == peers_view(self.peers@).filter(
                |p: PeerFileInfoView| 0 <= i < p.blocks.len() && p.blocks[i] == '1',
            ).len() by {
                lemma_count_holders_counts(peers_view(self.peers@), i);
            }
        }
        let n = block_count(self.manifest.file_size, self.manifest.block_size) as usize;
        let ghost ps = peers_view(self.peers@);
        let mut counts: Vec<u64> = Vec::new();
        let mut k: usize = 0;
        while k < n
            invariant
                k <= n,
                counts@.len() == k,
                forall|i: int| 0 <= i < k ==> #[trigger] counts@[i] == 0,
            decreases n - k,
        {
            counts.push(0);
            k = k + 1;
        }
        let mut p: usize = 0;
        while p < self.peers.len()
            invariant
                p <= self.peers@.len(),
                ps == peers_view(self.peers@),
                counts@.len() == n,
                forall|i: int|
                    0 <= i < n ==> #[trigger] counts@[i] == count_holders(ps.take(p as int), i),
                forall|i: int| 0 <= i < n ==> #[trigger] counts@[i] <= p,
            decreases self.peers@.len() - p,
        {
            let bits = chars_of(self.peers[p].blocks.as_str());
            let np = self.peers.len();
            proof {
                assert(ps.take(p + 1).drop_last() =~= ps.take(p as int));
                assert(ps.take(p + 1).last() == ps[p as int]);
            }
            let mut index: usize = 0;
            while index < n
                invariant
                    index <= n,
                    p < self.peers@.len(),
                    p < np,
                    ps == peers_view(self.peers@),
                    bits@ == ps[p as int].blocks,
                    counts@.len() == n,
                    forall|i: int|
                        0 <= i < index ==> #[trigger] counts@[i] == count_holders(
                            ps.take(p + 1),
                            i,
                        ),
                    forall|i: int|
                        index <= i < n ==> #[trigger] counts@[i] == count_holders(
                            ps.take(p as int),
                            i,
                        ),
                    forall|i: int| 0 <= i < index ==> #[trigger] counts@[i] <= p + 1,
                    forall|i: int| index <= i < n ==> #[trigger] counts@[i] <= p,
                decreases n - index,
            {
                proof {
                    assert(ps.take(p + 1).drop_last() =~= ps.take(p as int));
                }
                if index < bits.len() && bits[index] == '1' {
                    let c = counts[index];
                    assert(c <= p);
                    counts.set(index, c + 1);
                }
                index = index + 1;
            }
            p = p + 1;
        }
        proof {
            assert(ps.take(p as int) =~= ps);
        }
        counts
    }

    /// The identifiers of the other peers that hold block `block`.
    pub fn remote_peers_with_block(&self, block: u64) -> (r: Vec<String>)
        ensures
            r@.map_values(|s: String| s@) == peers_view(self.peers@).filter(
                |p: PeerFileInfoView| p.peer_id != self.node_id@ && peer_has_block(p, block as int),
            ).map_values(|p: PeerFileInfoView| p.peer_id),
    {
        let ghost ps = peers_view(self.peers@);
        let ghost pred = |p: PeerFileInfoView| p.peer_id != self.node_id@ && peer_has_block(p, block as int);
        let mut out: Vec<String> = Vec::new();
        let mut i: usize = 0;
        while i < self.peers.len()
            invariant
                i <= self.peers@.len(),
                ps == peers_view(self.peers@),
                pred == (|p: PeerFileInfoView| p.peer_id != self.node_id@ && peer_has_block(p, block as int)),
                out@.map_values(|s: String| s@) == ps.take(i as int).filter(pred).map_values(
                    |p: PeerFileInfoView| p.peer_id,
                ),
            decreases self.peers@.len() - i,
        {
            let peer = &self.peers[i];
            let bits = chars_of(peer.blocks.as_str());
            let holds = (block as u128) < (bits.len() as u128) && bits[block as usize] == '1';
            proof {
                reveal(Seq::filter);
                let t = ps.take(i + 1);
                assert(t.drop_last() =~= ps.take(i as int));
                assert(t.last() == peer@);
            }
            if !(peer.peer_id == self.node_id) && holds {
                let ghost before = out@.map_values(|s: String| s@);
                out.push(peer.peer_id.clone());
                assert(out@.map_values(|s: String| s@) =~= before.push(peer@.peer_id));
                assert(ps.take(i + 1).filter(pred) == ps.take(i as int).filter(pred).push(peer@));
                assert(ps.take(i + 1).filter(pred).map_values(|p: PeerFileInfoView| p.peer_id)
                    =~= ps.take(i as int).filter(pred).map_values(|p: PeerFileInfoView| p.peer_id).push(
                    peer@.peer_id,
                ));
            } else {
                assert(ps.take(i + 1).filter(pred) == ps.take(i as int).filter(pred));
            }
            i = i + 1;
        }
        proof {
            assert(ps.take(i as int) =~= ps);
        }
        out
    }

    /// Replaces the known peers with the usable ones of a fresh peer list and
    /// recounts the holders of every block.
    pub fn replace_peers(&mut self, peers: Vec<PeerFileInfo>)
        requires
            old(self).manifest.block_size > 0,
        ensures
            final(self).node_id == old(self).node_id,
            final(self).peer_port == old(self).peer_port,
            final(self).manifest == old(self).manifest,
            final(self).blocks == old(self).blocks,
            peers_view(final(self).peers@) == peers_view(peers@).filter(
                |p: PeerFileInfoView| usable_peer(p, old(self).spec_block_count(), old(self).node_id@),
            ),
            final(self).block_remote_peers_count@.len() == old(self).spec_block_count() as usize,
            forall|i: int|
                0 <= i < final(self).block_remote_peers_count@.len()
                    ==> #[trigger] final(self).block_remote_peers_count@[i] == count_holders(
                    peers_view(final(self).peers@),
                    i,
                ),
            forall|k: int|
                0 <= k < final(self).peers@.len() ==> {
                    let p = (#[trigger] final(self).peers@[k])@;
                    &&& p.peer_id != old(self).node_id@
                    &&& p.blocks.len() == (old(self).manifest.file_size + old(self).manifest.block_size
                        - 1) / (old(self).manifest.block_size as int)
                    &&& forall|c: int| 0 <= c < p.blocks.len() ==> p.blocks[c] == '0' || p.blocks[c] == '1'
                    &&& peers_view(peers@).contains(p)
                },
            forall|k: int|
                0 <= k < peers@.len() && (#[trigger] peers@[k])@.peer_id != old(self).node_id@
                    && peers@[k]@.blocks.len() == (old(self).manifest.file_size
                    + old(self).manifest.block_size - 1) / (old(self).manifest.block_size as int) && (
                forall|c: int|
                    0 <= c < peers@[k]@.blocks.len() ==> peers@[k]@.blocks[c] == '0'
                        || peers@[k]@.blocks[c] == '1') ==> peers_view(final(self).peers@).contains(
                    peers@[k]@,
                ),
    {
        proof {
            crate::models::lemma_block_count_rounds_up(
                self.manifest.file_size as nat,
                self.manifest.block_size as nat,
            );
        }
        let count = block_count(self.manifest.file_size, self.manifest.block_size);
        let ghost ps = peers_view(peers@);
        let ghost pred = |p: PeerFileInfoView| usable_peer(p, self.spec_block_count(), self.node_id@);
        let mut kept: Vec<PeerFileInfo> = Vec::new();
        let mut i: usize = 0;
        while i < peers.len()
            invariant
                i <= peers@.len(),
                ps == peers_view(peers@),
                count == self.spec_block_count(),
                pred == (|p: PeerFileInfoView| usable_peer(p, self.spec_block_count(), self.node_id@)),
                peers_view(kept@) == ps.take(i as int).filter(pred),
            decreases peers@.len() - i,
        {
            let peer = &peers[i];
            let ok = crate::tracker::check_block_bitmap(&peer.blocks, count) && !(peer.peer_id
                == self.node_id);
            proof {
                reveal(Seq::filter);
                let t = ps.take(i + 1);
                assert(t.drop_last() =~= ps.take(i as int));
                assert(t.last() == peer@);
            }
            if ok {
                let ghost before = peers_view(kept@);
                kept.push(peer.copied());
                assert(peers_view(kept@) =~= before.push(peer@));
                assert(ps.take(i + 1).filter(pred) == ps.take(i as int).filter(pred).push(peer@));
            } else {
                assert(ps.take(i + 1).filter(pred) == ps.take(i as int).filter(pred));
            }
            i = i + 1;
        }
        proof {
            assert(ps.take(i as int) =~= ps);
        }
        proof {
            let f = ps.filter(pred);
            assert forall|k: int| 0 <= k < f.len() implies pred(#[trigger] f[k]) && ps.contains(f[k]) by {
                ps.lemma_filter_pred(pred, k);
                assert(f.contains(f[k]));
                ps.lemma_filter_contains_rev(pred, f[k]);
            }
            assert forall|k: int| 0 <= k < ps.len() && pred(ps[k]) implies #[trigger] f.contains(ps[k]) by {
                ps.lemma_filter_contains(pred, k);
            }
            assert forall|k: int| 0 <= k < peers@.len() implies ps[k] == (#[trigger] peers@[k])@ by {}
        }
        self.peers = kept;
        self.block_remote_peers_count = self.calculate_block_remote_peers_count();
        proof {
            let f = ps.filter(pred);
            assert forall|k: int| 0 <= k < self.peers@.len() implies peers_view(self.peers@)[k]
                == (#[trigger] self.peers@[k])@ by {}
        }
    }

    /// What the block server answers for block `block_index`: refused when
    /// the file has no such block, not found unless this node holds it, else
    /// the byte range of the block in the file.
    pub fn block_request(&self, block_index: u64) -> (r: BlockRequest)
        requires
            self.manifest.block_size > 0,
        ensures
            block_index >= self.spec_block_count() ==> r == BlockRequest::BadRequest,
            block_index < self.spec_block_count() && !(block_index < self.blocks@.len()
                && self.blocks@[block_index as int] == BlockStatus::Complete) ==> r
                == BlockRequest::NotFound,
            block_index < self.spec_block_count() && block_index < self.blocks@.len()
                && self.blocks@[block_index as int] == BlockStatus::Complete ==> r
                == (BlockRequest::Serve {
                offset: (self.manifest.block_size * block_index) as u64,
                length: self.manifest.block_size,
            }),
            r matches BlockRequest::Serve { offset, length } ==> offset < self.manifest.file_size,
    {
        let n = block_count(self.manifest.file_size, self.manifest.block_size);
        if block_index >= n {
            return BlockRequest::BadRequest;
        }
        if !((block_index as u128) < (self.blocks.len() as u128) && self.blocks[block_index as usize]
            == BlockStatus::Complete) {
            return BlockRequest::NotFound;
        }
        let bs = self.manifest.block_size;
        let size = self.manifest.file_size;
        assert(bs * block_index < size) by (nonlinear_arith)
            requires
                bs > 0,
                block_index < n,
                n == spec_block_count(size as nat, bs as nat),
        {
            assert(block_index * bs <= (n - 1) * bs);
            assert((size / bs) * bs + size % bs == size);
        }
        BlockRequest::Serve { offset: bs * block_index, length: bs }
    }

    /// How many blocks this node holds.
    pub fn completed_blocks(&self) -> (r: usize)
        ensures
            r == self.blocks@.filter(|s: BlockStatus| s == BlockStatus::Complete).len(),
    {
        let ghost pred = |s: BlockStatus| s == BlockStatus::Complete;
        let mut n: usize = 0;
        let mut i: usize = 0;
        while i < self.blocks.len()
            invariant
                i <= self.blocks@.len(),
                pred == (|s: BlockStatus| s == BlockStatus::Complete),
                n == self.blocks@.take(i as int).filter(pred).len(),
                n <= i,
            decreases self.blocks@.len() - i,
        {
            proof {
                reveal(Seq::filter);
                assert(self.blocks@.take(i + 1).drop_last() =~= self.blocks@.take(i as int));
            }
            if self.blocks[i] == BlockStatus::Complete {
                n = n + 1;
            }
            i = i + 1;
        }
        assert(self.blocks@.take(i as int) =~= self.blocks@);
        n
    }
}

/// The pending block to fetch next: the one the fewest peers hold, the
/// lowest index among equals; `None` when no block is pending.
pub fn decide_next_block(context: &DownloadContext) -> (r: Option<u64>)
    ensures
        match r {
            Some(i) => is_next_block(context.blocks@, context.block_remote_peers_count@, i as int),
            None => forall|j: int|
                !(#[trigger] is_candidate_block(
                    context.blocks@,
                    context.block_remote_peers_count@,
                    j,
                )),
        },
        r matches Some(i) ==> i < context.blocks@.len() && i < context.block_remote_peers_count@.len()
            && context.blocks@[i as int] == BlockStatus::Pending && forall|j: int|
            0 <= j < context.blocks@.len() && 0 <= j < context.block_remote_peers_count@.len()
                && context.blocks@[j] == BlockStatus::Pending ==> context.block_remote_peers_count@[i as int]
                < #[trigger] context.block_remote_peers_count@[j] || (
            context.block_remote_peers_count@[i as int] == context.block_remote_peers_count@[j] && i
                <= j),
        r is None ==> forall|j: int|
            0 <= j < context.blocks@.len() && 0 <= j < context.block_remote_peers_count@.len()
                ==> #[trigger] context.blocks@[j] != BlockStatus::Pending,
{
    let blocks = &context.blocks;
    let counts = &context.block_remote_peers_count;
    let mut best: Option<usize> = None;
    let mut idx: usize = 0;
    while idx < counts.len()
        invariant
            idx <= counts@.len(),
            match best {
                Some(b) => b < idx && is_candidate_block(blocks@, counts@, b as int) && forall|j: int|
                    #![trigger is_candidate_block(blocks@, counts@, j)]
                    0 <= j < idx && is_candidate_block(blocks@, counts@, j) ==> counts@[b as int]
                        < counts@[j] || (counts@[b as int] == counts@[j] && b <= j),
                None => forall|j: int|
                    0 <= j < idx ==> !(#[trigger] is_candidate_block(blocks@, counts@, j)),
            },
        decreases counts@.len() - idx,
    {
        if idx < blocks.len() && blocks[idx] == BlockStatus::Pending {
            match best {
                Some(b) => {
                    if counts[idx] < counts[b] {
                        best = Some(idx);
                    }
                },
                None => {
                    best = Some(idx);
                },
            }
        }
        idx = idx + 1;
    }
    proof {
        assert forall|j: int|
            0 <= j < context.blocks@.len() && 0 <= j < context.block_remote_peers_count@.len()
                && context.blocks@[j] == BlockStatus::Pending implies is_candidate_block(
            context.blocks@,
            context.block_remote_peers_count@,
            j,
        ) by {}
    }
    match best {
        Some(b) => Some(b as u64),
        None => None,
    }
}

} // verus!

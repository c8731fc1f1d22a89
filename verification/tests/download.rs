use resource_node::download::{decide_next_block, BlockRequest, BlockStatus, DownloadContext};
use resource_node::models::{FileManifest, PeerFileInfo};

fn info(id: &str, blocks: &str) -> PeerFileInfo {
    PeerFileInfo {
        file_hash: "H".into(),
        peer_id: id.into(),
        peer_host: "h".into(),
        peer_port: 1,
        blocks: blocks.into(),
        last_seen: 0,
    }
}

fn context(blocks: Vec<BlockStatus>, peers: Vec<PeerFileInfo>) -> DownloadContext {
    DownloadContext {
        node_id: "me".into(),
        peer_port: 4000,
        manifest: FileManifest {
            file_name: "f".into(),
            file_hash: "H".into(),
            file_size: 10,
            block_size: 4,
            block_hashes: vec!["a".into(), "b".into(), "c".into()],
        },
        blocks,
        peers,
        block_remote_peers_count: vec![],
    }
}

#[test]
fn update_payload_marks_complete_blocks() {
    let ctx = context(vec![BlockStatus::Complete, BlockStatus::Pending, BlockStatus::Complete], vec![]);
    let p = ctx.to_update_payload();
    assert_eq!(p.blocks, "101");
    assert_eq!(p.peer_id, "me");
    assert_eq!(p.peer_port, 4000);
    assert_eq!(p.file_hash, "H");
    assert!(p.peer_host.is_none());
}

#[test]
fn holder_counts_per_block() {
    let ctx = context(vec![], vec![info("a", "110"), info("b", "011"), info("c", "1")]);
    assert_eq!(ctx.calculate_block_remote_peers_count(), vec![2, 2, 1]);
}

#[test]
fn remote_holders_exclude_this_node() {
    let ctx = context(vec![], vec![info("a", "110"), info("me", "111"), info("b", "01")]);
    assert_eq!(ctx.remote_peers_with_block(1), vec!["a", "b"]);
    assert_eq!(ctx.remote_peers_with_block(2), Vec::<String>::new());
    assert_eq!(ctx.remote_peers_with_block(9), Vec::<String>::new());
}

#[test]
fn next_block_is_rarest_then_lowest() {
    let mut ctx = context(
        vec![BlockStatus::Pending, BlockStatus::Complete, BlockStatus::Pending, BlockStatus::Pending],
        vec![],
    );
    ctx.block_remote_peers_count = vec![3, 0, 1, 1];
    assert_eq!(decide_next_block(&ctx), Some(2));
    ctx.blocks = vec![BlockStatus::Complete, BlockStatus::Ongoing, BlockStatus::Delayed];
    assert_eq!(decide_next_block(&ctx), None);
}

#[test]
fn refreshed_peer_list_keeps_usable_peers() {
    let mut ctx = context(vec![BlockStatus::Pending; 3], vec![]);
    ctx.replace_peers(vec![info("a", "101"), info("me", "111"), info("b", "10"), info("c", "1x1"), info("d", "011")]);
    let ids: Vec<String> = ctx.peers.iter().map(|p| p.peer_id.clone()).collect();
    assert_eq!(ids, vec!["a", "d"]);
    assert_eq!(ctx.block_remote_peers_count, vec![1, 1, 2]);
}

#[test]
fn block_requests_are_answered() {
    let ctx = context(vec![BlockStatus::Complete, BlockStatus::Pending, BlockStatus::Complete], vec![]);
    assert_eq!(ctx.block_request(3), BlockRequest::BadRequest);
    assert_eq!(ctx.block_request(1), BlockRequest::NotFound);
    assert_eq!(ctx.block_request(2), BlockRequest::Serve { offset: 8, length: 4 });
    assert_eq!(ctx.completed_blocks(), 2);
}

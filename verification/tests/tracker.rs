use resource_node::dto::{AnnounceFileResponse, FileAnnounceRequest, PeerUpdateRequest, PeerUpdateResponse};
use resource_node::models::FileManifest;
use resource_node::tracker::{AnnounceOutcome, Context, PeerUpdateOutcome};

fn announce(name: &str, hash: &str, size: u64, bs: u64, blocks: usize) -> FileAnnounceRequest {
    FileAnnounceRequest {
        file_name: name.to_string(),
        file_hash: hash.to_string(),
        file_size: size,
        block_size: bs,
        block_hashes: (0..blocks).map(|i| format!("BLOCK-{}", i)).collect(),
    }
}

fn update(hash: &str, peer: &str, host: Option<&str>, blocks: &str) -> PeerUpdateRequest {
    PeerUpdateRequest {
        file_hash: hash.to_string(),
        peer_id: peer.to_string(),
        peer_host: host.map(|h| h.to_string()),
        peer_port: 7000,
        blocks: blocks.to_string(),
    }
}

#[test]
fn announce_with_correct_block_count_is_accepted() {
    let mut ctx = Context::new();
    let r = ctx.announce(announce("file_name_test_1.txt", "FILE_HASH_TEST_1", 3500, 1024, 4));
    assert_eq!(r, AnnounceOutcome::Accepted);
    let list = ctx.file_list();
    assert_eq!(list.len(), 1);
    assert_eq!(list[0].file_name, "file_name_test_1.txt");
    assert_eq!(list[0].file_size, 3500);
}

#[test]
fn announce_with_incorrect_block_count_is_rejected() {
    let mut ctx = Context::new();
    let r = ctx.announce(announce("file_name_test_2.txt", "FILE_HASH_TEST_2", 3500, 1024, 2));
    assert_eq!(r, AnnounceOutcome::BadRequest);
    assert!(ctx.file_list().is_empty());
}

#[test]
fn second_announce_of_same_digest_conflicts() {
    let mut ctx = Context::new();
    assert_eq!(ctx.announce(announce("a", "H", 10, 5, 2)), AnnounceOutcome::Accepted);
    assert_eq!(ctx.announce(announce("b", "H", 10, 5, 2)), AnnounceOutcome::Conflict);
    assert_eq!(ctx.file_list().len(), 1);
    assert_eq!(ctx.query("H")[0].file_name, "a");
}

#[test]
fn query_by_digest_then_by_name() {
    let mut ctx = Context::new();
    ctx.announce(announce("same.txt", "H1", 1, 1, 1));
    ctx.announce(announce("same.txt", "H2", 2, 1, 2));
    ctx.announce(announce("other.txt", "H3", 0, 1, 0));
    let by_hash = ctx.query("H2");
    assert_eq!(by_hash.len(), 1);
    assert_eq!(by_hash[0].file_hash, "H2");
    let by_name = ctx.query("same.txt");
    assert_eq!(by_name.iter().map(|m| m.file_hash.clone()).collect::<Vec<_>>(), vec!["H1", "H2"]);
    assert!(ctx.query("missing").is_empty());
}

#[test]
fn stored_files_with_duplicate_digest_answer_with_the_last() {
    let mut ctx = Context::new();
    let f1 = FileManifest { file_name: "x".into(), file_hash: "D".into(), file_size: 1, block_size: 1, block_hashes: vec!["a".into()] };
    let f2 = FileManifest { file_name: "y".into(), file_hash: "D".into(), file_size: 1, block_size: 1, block_hashes: vec!["b".into()] };
    assert!(!ctx.add_stored_file(f1));
    assert!(ctx.add_stored_file(f2));
    assert_eq!(ctx.file_list().len(), 2);
    assert_eq!(ctx.query("D")[0].file_name, "y");
    assert_eq!(ctx.file_by_hash("D").unwrap().file_name, "y");
    assert!(ctx.file_by_hash("E").is_none());
}

#[test]
fn peer_update_then_peer_list() {
    let mut ctx = Context::new();
    ctx.announce(announce("f", "H", 3500, 1024, 4));
    assert_eq!(ctx.peer_update(update("H", "p1", None, "1010"), "10.0.0.1".into(), 5), PeerUpdateOutcome::Accepted);
    assert_eq!(ctx.peer_update(update("H", "p2", Some("host2"), "0001"), "10.0.0.2".into(), 6), PeerUpdateOutcome::Accepted);
    let peers = ctx.peer_list("H").unwrap();
    assert_eq!(peers.len(), 2);
    assert_eq!(peers[0].peer_host, "10.0.0.1");
    assert_eq!(peers[0].last_seen, 5);
    assert_eq!(peers[1].peer_host, "host2");
    assert_eq!(peers[1].peer_port, 7000);
    // A second report from p1 replaces its record in place.
    assert_eq!(ctx.peer_update(update("H", "p1", None, "1111"), "10.0.0.9".into(), 9), PeerUpdateOutcome::Accepted);
    let peers = ctx.peer_list("H").unwrap();
    assert_eq!(peers.len(), 2);
    assert_eq!(peers[0].peer_id, "p1");
    assert_eq!(peers[0].blocks, "1111");
    assert_eq!(peers[0].peer_host, "10.0.0.9");
}

#[test]
fn peer_update_rejections_change_nothing() {
    let mut ctx = Context::new();
    ctx.announce(announce("f", "H", 3500, 1024, 4));
    assert_eq!(ctx.peer_update(update("X", "p", None, "1111"), "h".into(), 0), PeerUpdateOutcome::NotFound);
    assert_eq!(ctx.peer_update(update("H", "p", None, "111"), "h".into(), 0), PeerUpdateOutcome::BadRequest);
    assert_eq!(ctx.peer_update(update("H", "p", None, "1121"), "h".into(), 0), PeerUpdateOutcome::BadRequest);
    assert_eq!(ctx.peer_list("H").unwrap().len(), 0);
    assert!(ctx.peer_list("X").is_none());
}

#[test]
fn empty_file_accepts_empty_block_string() {
    let mut ctx = Context::new();
    assert_eq!(ctx.announce(announce("e", "E", 0, 16, 0)), AnnounceOutcome::Accepted);
    assert_eq!(ctx.peer_update(update("E", "p", None, ""), "h".into(), 0), PeerUpdateOutcome::Accepted);
    assert_eq!(ctx.peer_list("E").unwrap().len(), 1);
}

#[test]
fn announce_validity_rule() {
    assert!(announce("a", "h", 3500, 1024, 4).is_valid());
    assert!(!announce("a", "h", 3500, 1024, 3).is_valid());
    assert!(announce("a", "h", 2048, 1024, 2).is_valid());
    assert!(announce("a", "h", 0, 1024, 0).is_valid());
}

#[test]
fn tracker_answers_are_read_back_by_the_node() {
    assert_eq!(AnnounceOutcome::Accepted.status_code(), 200);
    assert_eq!(AnnounceOutcome::BadRequest.status_code(), 400);
    assert_eq!(AnnounceOutcome::Conflict.status_code(), 409);
    assert_eq!(PeerUpdateOutcome::Accepted.status_code(), 200);
    assert_eq!(PeerUpdateOutcome::NotFound.status_code(), 404);
    assert_eq!(PeerUpdateOutcome::BadRequest.status_code(), 400);
    assert_eq!(
        AnnounceFileResponse::from_status(AnnounceOutcome::Conflict.status_code()),
        AnnounceFileResponse::Conflict
    );
    assert_eq!(
        AnnounceFileResponse::from_status(AnnounceOutcome::BadRequest.status_code()),
        AnnounceFileResponse::BadRequest
    );
    assert_eq!(
        PeerUpdateResponse::from_status(PeerUpdateOutcome::NotFound.status_code()),
        PeerUpdateResponse::FileNotFound
    );
    assert_eq!(
        PeerUpdateResponse::from_status(PeerUpdateOutcome::BadRequest.status_code()),
        PeerUpdateResponse::Unknown
    );
}

#[test]
fn accepted_report_is_listed_with_its_record() {
    let mut ctx = Context::new();
    ctx.announce(announce("f", "H", 10, 4, 3));
    let r = ctx.peer_update(update("H", "p1", None, "101"), "10.0.0.9".to_string(), 77);
    assert_eq!(r, PeerUpdateOutcome::Accepted);
    let peers = ctx.peer_list("H").unwrap();
    assert_eq!(peers.len(), 1);
    assert_eq!(peers[0].peer_id, "p1");
    assert_eq!(peers[0].peer_host, "10.0.0.9");
    assert_eq!(peers[0].blocks, "101");
    assert_eq!(peers[0].last_seen, 77);
    assert_eq!(peers[0].file_hash, "H");
}

#[test]
fn repeated_reports_keep_one_record_per_peer() {
    let mut ctx = Context::new();
    ctx.announce(announce("f", "H", 10, 4, 3));
    ctx.peer_update(update("H", "p1", Some("h1"), "100"), "c".to_string(), 1);
    ctx.peer_update(update("H", "p2", Some("h2"), "010"), "c".to_string(), 2);
    ctx.peer_update(update("H", "p1", Some("h3"), "111"), "c".to_string(), 3);
    let peers = ctx.peer_list("H").unwrap();
    assert_eq!(peers.len(), 2);
    let p1: Vec<_> = peers.iter().filter(|p| p.peer_id == "p1").collect();
    assert_eq!(p1.len(), 1);
    assert_eq!(p1[0].peer_host, "h3");
    assert_eq!(p1[0].blocks, "111");
    assert_eq!(p1[0].last_seen, 3);
    assert_eq!(
        ctx.peer_update(update("X", "p1", None, "1"), "c".to_string(), 4),
        PeerUpdateOutcome::NotFound
    );
}

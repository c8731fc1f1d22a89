use resource_node::digest::sha256_hex;
use resource_node::tracker_dto::{FileLocation, FilesResponse, FileSummary, PeerLocation, TrackerBlock};
use resource_node::transfer::{
    check_available_blocks, check_block, check_file_hash, choose_location_by_hash,
    choose_location_by_name, expected_block_hash, fetch_step, finish_download, get_candidates_for_block, join_blocks,
    FetchAction,
    safe_output_path, tracker_file_lines, TransferError,
};

fn peer(id: &str, blocks: &[usize]) -> PeerLocation {
    PeerLocation {
        node_id: id.to_string(),
        host: "127.0.0.1".to_string(),
        port: 9000,
        last_seen: String::new(),
        expires_at: String::new(),
        blocks: blocks
            .iter()
            .map(|&i| TrackerBlock { index: i, hash: format!("h{}", i), size: 4 })
            .collect(),
    }
}

fn location(peers: Vec<PeerLocation>, available: Vec<usize>) -> FileLocation {
    FileLocation {
        file_hash: "F".to_string(),
        file_name: "f.bin".to_string(),
        file_size: Some(8),
        block_size: Some(4),
        peers,
        available_blocks: available,
    }
}

#[test]
fn join_blocks_orders_by_index() {
    let r = join_blocks(vec![(2, vec![5, 6]), (0, vec![1]), (1, vec![2, 3, 4])]).unwrap();
    assert_eq!(r, vec![1, 2, 3, 4, 5, 6]);
    assert_eq!(join_blocks(vec![]).unwrap(), Vec::<u8>::new());
}

#[test]
fn join_blocks_reports_first_gap() {
    match join_blocks(vec![(0, vec![1]), (2, vec![3])]) {
        Err(TransferError::NotContiguous { index }) => assert_eq!(index, 1),
        other => panic!("unexpected {:?}", other),
    }
    // A repeated index shows at the position after it.
    match join_blocks(vec![(0, vec![1]), (0, vec![2]), (1, vec![3])]) {
        Err(TransferError::NotContiguous { index }) => assert_eq!(index, 1),
        other => panic!("unexpected {:?}", other),
    }
    match join_blocks(vec![(1, vec![1])]) {
        Err(TransferError::NotContiguous { index }) => assert_eq!(index, 0),
        other => panic!("unexpected {:?}", other),
    }
}

#[test]
fn safe_output_path_joins_normal_components() {
    assert_eq!(safe_output_path("/share", "a/b.txt").unwrap(), "/share/a/b.txt");
    assert_eq!(safe_output_path("/share/", "./a//b").unwrap(), "/share/a/b");
    assert_eq!(safe_output_path("root", "").unwrap(), "root");
    assert_eq!(safe_output_path("", "x").unwrap(), "x");
}

#[test]
fn safe_output_path_refuses_escapes() {
    assert!(matches!(safe_output_path("/share", "../etc/passwd"), Err(TransferError::UnsafeFileName)));
    assert!(matches!(safe_output_path("/share", "a/../../b"), Err(TransferError::UnsafeFileName)));
    assert!(matches!(safe_output_path("/share", "/etc/passwd"), Err(TransferError::UnsafeFileName)));
}

#[test]
fn candidates_rotate_and_put_self_last() {
    let loc = location(
        vec![peer("me", &[0, 1]), peer("a", &[0, 1]), peer("b", &[1]), peer("c", &[0])],
        vec![0, 1],
    );
    let c0: Vec<String> = get_candidates_for_block(&loc, 0, "me").into_iter().map(|p| p.node_id).collect();
    assert_eq!(c0, vec!["a", "c", "me"]);
    let c1: Vec<String> = get_candidates_for_block(&loc, 1, "me").into_iter().map(|p| p.node_id).collect();
    assert_eq!(c1, vec!["b", "me", "a"]);
    assert!(get_candidates_for_block(&loc, 5, "me").is_empty());
}

#[test]
fn expected_hash_is_the_first_listed() {
    let mut p = peer("a", &[3, 4]);
    p.blocks.push(TrackerBlock { index: 3, hash: "second".into(), size: 1 });
    assert_eq!(expected_block_hash(&p, 3), Some("h3".to_string()));
    assert_eq!(expected_block_hash(&p, 9), None);
}

#[test]
fn block_and_file_digests_are_checked() {
    let abc = b"abc";
    let good = "ba7816bf8f01cfea414140de5dae2223b00361a396177a9cb410ff61f20015ad".to_string();
    assert!(check_block(0, abc, Some(good.clone())).is_ok());
    assert!(check_block(0, abc, None).is_ok());
    match check_block(4, abc, Some("00".into())) {
        Err(TransferError::BlockHashMismatch { block_index, expected, actual }) => {
            assert_eq!(block_index, 4);
            assert_eq!(expected, "00");
            assert_eq!(actual, good);
        }
        other => panic!("unexpected {:?}", other),
    }
    assert!(check_file_hash(abc, &good).is_ok());
    assert!(matches!(check_file_hash(b"abd", &good), Err(TransferError::FileHashMismatch { .. })));
}

#[test]
fn download_targets_are_chosen() {
    assert!(choose_location_by_hash(vec![]).is_none());
    let l = choose_location_by_hash(vec![location(vec![], vec![1]), location(vec![], vec![2])]).unwrap();
    assert_eq!(l.available_blocks, vec![1]);
    assert!(matches!(choose_location_by_name(vec![]), Err(TransferError::NoMatch)));
    assert!(choose_location_by_name(vec![location(vec![], vec![])]).is_ok());
    match choose_location_by_name(vec![location(vec![], vec![]), location(vec![], vec![]), location(vec![], vec![])]) {
        Err(TransferError::Ambiguous { count }) => assert_eq!(count, 3),
        other => panic!("unexpected {:?}", other),
    }
    assert!(matches!(check_available_blocks(&location(vec![], vec![])), Err(TransferError::NoAvailableBlocks)));
    assert!(check_available_blocks(&location(vec![], vec![0])).is_ok());
}

#[test]
fn tracker_file_listing() {
    let empty = FilesResponse { files: vec![] };
    assert_eq!(tracker_file_lines(&empty), vec!["Tracker has no files."]);
    let files = FilesResponse {
        files: vec![FileSummary {
            file_hash: "H".into(),
            file_name: "n".into(),
            file_size: Some(3),
            block_size: None,
            peer_count: 12,
            available_blocks: vec![0, 1, 2],
        }],
    };
    assert_eq!(
        tracker_file_lines(&files),
        vec!["file_name | file_hash | peers | blocks", "n | H | 12 | 3"]
    );
}

#[test]
fn blocks_of_a_file_join_back_into_it() {
    let contents: Vec<u8> = (0u8..23).collect();
    let bs = 5;
    let mut blocks: Vec<(usize, Vec<u8>)> = contents.chunks(bs).map(|c| c.to_vec()).enumerate().collect();
    blocks.reverse();
    blocks.swap(0, 2);
    assert_eq!(join_blocks(blocks).unwrap(), contents);
}

#[test]
fn join_does_not_depend_on_arrival_order() {
    let a = vec![(0, vec![1u8]), (1, vec![2, 3]), (2, vec![4])];
    let b = vec![(2, vec![4u8]), (0, vec![1]), (1, vec![2, 3])];
    assert_eq!(join_blocks(a).unwrap(), join_blocks(b).unwrap());
    let gap_a = vec![(0, vec![1u8]), (2, vec![2])];
    let gap_b = vec![(2, vec![2u8]), (0, vec![1])];
    assert!(matches!(join_blocks(gap_a), Err(TransferError::NotContiguous { index: 1 })));
    assert!(matches!(join_blocks(gap_b), Err(TransferError::NotContiguous { index: 1 })));
}

#[test]
fn candidates_are_asked_in_turn() {
    assert_eq!(fetch_step(0, None), FetchAction::NoCandidates);
    assert_eq!(fetch_step(3, None), FetchAction::Try { candidate: 0 });
    assert_eq!(fetch_step(3, Some((0, false))), FetchAction::Try { candidate: 1 });
    assert_eq!(fetch_step(3, Some((1, true))), FetchAction::Accept);
    assert_eq!(fetch_step(3, Some((2, false))), FetchAction::GiveUp);
}

#[test]
fn finishing_a_download_checks_in_order() {
    let blocks = vec![(1, vec![3u8, 4]), (0, vec![1, 2])];
    let hash = sha256_hex(&[1, 2, 3, 4]);
    let (path, bytes) = finish_download(blocks.clone(), &hash, "/share", "d/f.bin").unwrap();
    assert_eq!(path, "/share/d/f.bin");
    assert_eq!(bytes, vec![1, 2, 3, 4]);
    assert!(matches!(
        finish_download(vec![(1, vec![1])], &hash, "/share", "../x"),
        Err(TransferError::NotContiguous { index: 0 })
    ));
    assert!(matches!(
        finish_download(blocks.clone(), &"00".to_string(), "/share", "../x"),
        Err(TransferError::FileHashMismatch { .. })
    ));
    assert!(matches!(
        finish_download(blocks, &hash, "/share", "../x"),
        Err(TransferError::UnsafeFileName)
    ));
}

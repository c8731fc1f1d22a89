use resource_node::digest::sha256_hex;
use resource_node::display::{block_size_summary, block_size_with_blocks, size_summary, size_with_bytes};
use resource_node::dto::{AnnounceFileResponse, PeerUpdateResponse};
use resource_node::models::block_count;
use resource_node::node_shell::{parse_command, scan_summary, split_words, ShellCommand};
use resource_node::local_files::{BlockResource, FileResource, ResourceIndex};
use resource_node::random_id::{generate_node_id, node_id_from_parts};
use resource_node::text::{i64_to_decimal, u64_to_decimal};
use resource_node::tracker_client::TrackerClient;

#[test]
fn decimal_rendering() {
    assert_eq!(u64_to_decimal(0), "0");
    assert_eq!(u64_to_decimal(9001), "9001");
    assert_eq!(u64_to_decimal(u64::MAX), "18446744073709551615");
    assert_eq!(i64_to_decimal(-42), "-42");
    assert_eq!(i64_to_decimal(i64::MIN), "-9223372036854775808");
}

#[test]
fn sha256_known_values() {
    assert_eq!(sha256_hex(b""), "e3b0c44298fc1c149afbf4c8996fb92427ae41e4649b934ca495991b7852b855");
    assert_eq!(sha256_hex(b"abc"), "ba7816bf8f01cfea414140de5dae2223b00361a396177a9cb410ff61f20015ad");
}

#[test]
fn sizes_are_displayed() {
    assert_eq!(size_summary(1000), "1000");
    assert_eq!(size_summary(1536), "1.5 KiB (1,536 bytes)");
    assert_eq!(size_with_bytes(1234567), "1.2 MiB (1,234,567 bytes)");
    assert_eq!(size_with_bytes(100), "100 B (100 bytes)");
    assert_eq!(block_size_summary(1024, 3500), "1.0 KiB (4 blocks)");
    assert_eq!(block_size_with_blocks(1, 1234567), "1 B (1,234,567 blocks)");
    assert_eq!(block_count(3500, 1024), 4);
    assert_eq!(block_count(0, 1024), 0);
    assert_eq!(block_count(2048, 1024), 2);
}

#[test]
fn tracker_addresses() {
    let c = TrackerClient::new("http://127.0.0.1:3000///");
    assert_eq!(c.base_url, "http://127.0.0.1:3000");
    assert_eq!(c.list_file_url(), "http://127.0.0.1:3000/api/v2/file_list");
    assert_eq!(c.query_file_url("x.txt"), "http://127.0.0.1:3000/api/v2/query?file_id=x.txt");
    assert_eq!(c.peer_list_url("H"), "http://127.0.0.1:3000/api/v2/peer_list?file_hash=H");
    assert_eq!(c.announce_file_url(), "http://127.0.0.1:3000/api/v2/file_announce");
    assert_eq!(c.update_peer_url(), "http://127.0.0.1:3000/api/v2/update");
    assert_eq!(TrackerClient::new("").base_url, "");
}

#[test]
fn status_codes_are_read() {
    assert_eq!(AnnounceFileResponse::from_status(200), AnnounceFileResponse::Success);
    assert_eq!(AnnounceFileResponse::from_status(409), AnnounceFileResponse::Conflict);
    assert_eq!(AnnounceFileResponse::from_status(400), AnnounceFileResponse::BadRequest);
    assert_eq!(AnnounceFileResponse::from_status(500), AnnounceFileResponse::Unknown);
    assert_eq!(PeerUpdateResponse::from_status(200), PeerUpdateResponse::Success);
    assert_eq!(PeerUpdateResponse::from_status(404), PeerUpdateResponse::FileNotFound);
    assert_eq!(PeerUpdateResponse::from_status(400), PeerUpdateResponse::Unknown);
}

#[test]
fn shell_commands_are_parsed() {
    assert!(matches!(parse_command("  local  "), ShellCommand::Local));
    assert!(matches!(parse_command("localCplt"), ShellCommand::LocalComplete));
    assert!(matches!(parse_command("update now"), ShellCommand::Update));
    assert!(matches!(parse_command("list"), ShellCommand::List));
    match parse_command("download\tfile.txt extra") {
        ShellCommand::Download { target } => assert_eq!(target, "file.txt"),
        other => panic!("unexpected {:?}", other),
    }
    assert!(matches!(parse_command("download"), ShellCommand::DownloadUsage));
    assert!(matches!(parse_command("offline"), ShellCommand::Offline));
    assert!(matches!(parse_command("help"), ShellCommand::Help));
    assert!(matches!(parse_command("exit"), ShellCommand::Exit));
    assert!(matches!(parse_command("   \n"), ShellCommand::Empty));
    match parse_command("frobnicate x") {
        ShellCommand::Unknown { word } => assert_eq!(word, "frobnicate"),
        other => panic!("unexpected {:?}", other),
    }
    assert_eq!(split_words(" a\u{3000}bc  d ").len(), 3);
}

#[test]
fn scan_summary_lines() {
    assert_eq!(scan_summary(&ResourceIndex { resources: vec![] }), vec!["No local files found."]);
    let index = ResourceIndex {
        resources: vec![FileResource {
            file_hash: "h".into(),
            file_name: "a.txt".into(),
            file_size: 3,
            block_size: 1,
            blocks: vec![
                BlockResource { index: 0, hash: "x".into(), size: 1 },
                BlockResource { index: 1, hash: "y".into(), size: 1 },
            ],
        }],
    };
    assert_eq!(scan_summary(&index), vec!["file_name | block_count", "a.txt | 2"]);
}

#[test]
fn node_ids_have_their_shape() {
    let id = generate_node_id(8080);
    assert_eq!(id.len(), 21);
    assert!(id.starts_with("node_"));
    assert!(id[5..].chars().all(|c| c.is_ascii_hexdigit() && !c.is_ascii_uppercase()));
    let a = node_id_from_parts(8080, 1700000000000000, &[0u8; 16]);
    let b = node_id_from_parts(8080, 1700000000000000, &[0u8; 16]);
    let c = node_id_from_parts(8081, 1700000000000000, &[0u8; 16]);
    assert_eq!(a, b);
    assert_ne!(a, c);
    let mut raw = b"8080-1700000000000000".to_vec();
    raw.extend_from_slice(&[0u8; 16]);
    assert_eq!(a, format!("node_{}", &sha256_hex(&raw)[..16]));
}

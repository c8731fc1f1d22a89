use resource_node::announce::{generate_file_hash, generate_manifest};
use resource_node::dto::FileAnnounceRequest;
use resource_node::local_files::{
    check_block_size, default_share_dir, find_local_block, index_file, scan_share_dir,
    sort_by_path, LocalFile, ResourceIndex, ScanError, DEFAULT_BLOCK_SIZE,
};

const EMPTY_SHA: &str = "e3b0c44298fc1c149afbf4c8996fb92427ae41e4649b934ca495991b7852b855";
const ABC_SHA: &str = "ba7816bf8f01cfea414140de5dae2223b00361a396177a9cb410ff61f20015ad";

fn reads_of(contents: &[u8], block_size: usize) -> Vec<Vec<u8>> {
    let mut reads: Vec<Vec<u8>> = contents.chunks(block_size).map(|c| c.to_vec()).collect();
    reads.push(Vec::new());
    reads
}

fn file(path: &str, contents: &[u8]) -> LocalFile {
    LocalFile {
        path: path.as_bytes().to_vec(),
        file_size: contents.len() as u64,
        reads: reads_of(contents, DEFAULT_BLOCK_SIZE),
    }
}

#[test]
fn index_cuts_blocks() {
    let r = index_file(b"dir\\x.txt", 5, &reads_of(b"abcde", 2), 2);
    assert_eq!(r.file_name, "dir/x.txt");
    assert_eq!(r.file_size, 5);
    assert_eq!(r.block_size, 2);
    let sizes: Vec<usize> = r.blocks.iter().map(|b| b.size).collect();
    assert_eq!(sizes, vec![2, 2, 1]);
    let idx: Vec<usize> = r.blocks.iter().map(|b| b.index).collect();
    assert_eq!(idx, vec![0, 1, 2]);
    assert_eq!(r.blocks[0].hash.len(), 64);
    let whole = index_file(b"abc", 3, &reads_of(b"abc", 512), 512);
    assert_eq!(whole.file_hash, ABC_SHA);
    assert_eq!(whole.blocks.len(), 1);
    assert_eq!(whole.blocks[0].hash, ABC_SHA);
    let empty = index_file(b"e", 0, &reads_of(b"", 4), 4);
    assert_eq!(empty.file_hash, EMPTY_SHA);
    assert!(empty.blocks.is_empty());
}

#[test]
fn blocks_follow_the_reads() {
    // A buffered reader with an 8 KiB buffer answers 5000-byte reads with
    // 5000, 3192, 5000, ... bytes.
    let contents: Vec<u8> = (0..13192u32).map(|i| (i % 251) as u8).collect();
    let reads = vec![
        contents[..5000].to_vec(),
        contents[5000..8192].to_vec(),
        contents[8192..].to_vec(),
        Vec::new(),
        vec![1, 2, 3],
    ];
    let r = index_file(b"big.bin", 13192, &reads, 5000);
    let sizes: Vec<usize> = r.blocks.iter().map(|b| b.size).collect();
    assert_eq!(sizes, vec![5000, 3192, 5000]);
    assert_eq!(r.file_hash, generate_file_hash(&contents));
    assert_eq!(r.blocks[1].hash, generate_file_hash(&contents[5000..8192]));
    let index = ResourceIndex { resources: vec![r] };
    let hash = index.resources[0].file_hash.clone();
    let b = find_local_block(&index, &hash, 2).unwrap();
    assert_eq!(b.offset, 8192);
    assert_eq!(b.length, 5000);
    assert_eq!(b.file_name, "big.bin");
    assert!(find_local_block(&index, &hash, 3).is_none());
    assert!(find_local_block(&index, "nope", 0).is_none());
}

#[test]
fn scan_sorts_by_path_components() {
    let files = vec![file("b", b"2"), file("a-b", b"3"), file("a/b", b"1"), file("a", b"0")];
    let index = scan_share_dir(files, DEFAULT_BLOCK_SIZE).unwrap();
    let names: Vec<String> = index.resources.iter().map(|r| r.file_name.clone()).collect();
    assert_eq!(names, vec!["a", "a/b", "a-b", "b"]);
}

#[test]
fn scan_refuses_zero_block_size() {
    assert!(matches!(scan_share_dir(vec![file("a", b"x")], 0), Err(ScanError::ZeroBlockSize)));
    assert_eq!(check_block_size(0), Err(ScanError::ZeroBlockSize));
    assert_eq!(check_block_size(1), Ok(()));
}

#[test]
fn sort_keeps_every_file() {
    let sorted = sort_by_path(vec![file("z", b""), file("y/z", b"1"), file("y", b"2")]);
    let names: Vec<String> = sorted.iter().map(|f| String::from_utf8(f.path.clone()).unwrap()).collect();
    assert_eq!(names, vec!["y", "y/z", "z"]);
}

#[test]
fn sort_uses_the_raw_path_bytes() {
    let raw = LocalFile {
        path: vec![0x80],
        file_size: 0,
        reads: vec![Vec::new()],
    };
    let files = vec![file("\u{e9}", b"x"), raw];
    let index = scan_share_dir(files, DEFAULT_BLOCK_SIZE).unwrap();
    let names: Vec<String> = index.resources.iter().map(|r| r.file_name.clone()).collect();
    assert_eq!(names, vec!["\u{FFFD}".to_string(), "\u{e9}".to_string()]);
}

#[test]
fn default_share_dir_is_beside_the_sources() {
    assert_eq!(default_share_dir("/src/node"), "/src/node/../file");
    assert_eq!(default_share_dir("/src/node/"), "/src/node/../file");
}

#[test]
fn manifest_of_contents() {
    let m = generate_manifest("x.bin".to_string(), b"abcde", 2);
    assert_eq!(m.file_name, "x.bin");
    assert_eq!(m.file_size, 5);
    assert_eq!(m.block_size, 2);
    assert_eq!(m.block_hashes.len(), 3);
    assert_eq!(m.file_hash, generate_file_hash(b"abcde"));
    assert_eq!(generate_file_hash(b"abc"), ABC_SHA);
    let req = FileAnnounceRequest::from_manifest(&m);
    assert!(req.is_valid());
    let one = generate_manifest("abc".to_string(), b"abc", 65536);
    assert_eq!(one.block_hashes, vec![ABC_SHA.to_string()]);
}

#[test]
fn manifest_digests_are_full_length() {
    let m = generate_manifest("x".to_string(), b"hello world", 4);
    assert_eq!(m.file_hash.len(), 64);
    assert!(m.block_hashes.iter().all(|h| h.len() == 64));
    let big = generate_manifest("x".to_string(), b"hello", u64::MAX);
    assert_eq!(big.block_hashes, vec![generate_file_hash(b"hello")]);
    let none = generate_manifest("x".to_string(), b"", u64::MAX);
    assert!(none.block_hashes.is_empty());
    assert!(FileAnnounceRequest::from_manifest(&big).is_valid());
}

#[test]
fn index_names_follow_path_order() {
    let files = vec![file("b/c", b"1"), file("a.txt", b"2"), file("b", b"3"), file("a", b"4")];
    let index = scan_share_dir(files, DEFAULT_BLOCK_SIZE).unwrap();
    let names: Vec<String> = index.resources.iter().map(|r| r.file_name.clone()).collect();
    assert_eq!(names, vec!["a", "a.txt", "b", "b/c"]);
    for w in names.windows(2) {
        assert!(std::path::Path::new(&w[0]) < std::path::Path::new(&w[1]));
    }
    let odd = index_file(&[b'x', 0xff], 0, &vec![Vec::new()], 4);
    assert_eq!(odd.file_name, "x\u{FFFD}");
}

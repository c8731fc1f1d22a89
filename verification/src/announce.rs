//! Describing a file for announcement: its digest, size and block digests.
use vstd::prelude::*;
use crate::blocks::{block_digests, lemma_digests_single_block, spec_block_digests, spec_content_digest};
use crate::digest::{sha256_hex, spec_hex, spec_sha256};
use crate::dto::{announce_is_valid, spec_announce_of};
use crate::models::{strings_view, FileManifest, FileManifestView};

verus! {

/// The manifest of a file with these contents.
pub open spec fn spec_manifest(file_name: Seq<char>, contents: Seq<u8>, block_size: u64) -> FileManifestView {
    FileManifestView {
        file_name,
        file_hash: spec_content_digest(contents),
        file_size: contents.len() as u64,
        block_size,
        block_hashes: spec_block_digests(contents, block_size as nat),
    }
}

/// The lowercase hexadecimal SHA-256 digest of a file's contents.
pub fn generate_file_hash(contents: &[u8]) -> (r: String)
    ensures
        r@ == spec_content_digest(contents@),
{
    sha256_hex(contents)
}

/// Every manifest of a file passes the tracker's check: it lists one block
/// digest per block, for any block size above zero (and any file whose size
/// a `u64` holds, as every file's does).
pub proof fn lemma_manifest_is_valid(file_name: Seq<char>, contents: Seq<u8>, block_size: u64)
    requires
        block_size > 0,
        contents.len() <= u64::MAX,
    ensures
        announce_is_valid(spec_announce_of(spec_manifest(file_name, contents, block_size))),
{
}

/// The manifest announcing a file named `file_name` with these contents, cut
/// into blocks of `block_size` bytes. Every digest is 64 hexadecimal digits.
pub fn generate_manifest(file_name: String, contents: &[u8], block_size: u64) -> (r: FileManifest)
    requires
        block_size > 0,
    ensures
        r@ == spec_manifest(file_name@, contents@, block_size),
        announce_is_valid(spec_announce_of(r@)),
        r@.file_hash.len() == 64,
        forall|k: int| 0 <= k < r@.block_hashes.len() ==> (#[trigger] r@.block_hashes[k]).len() == 64,
        r@.file_name == file_name@ && r.file_size == contents@.len() && r.block_size == block_size,
        r@.file_hash == spec_hex(spec_sha256(contents@)),
        r@.block_hashes.len() == (contents@.len() + block_size - 1) / (block_size as int),
        forall|k: int|
            0 <= k < r@.block_hashes.len() ==> #[trigger] r@.block_hashes[k] == spec_hex(
                spec_sha256(
                    contents@.subrange(
                        k * block_size,
                        if (k + 1) * block_size <= contents@.len() {
                            (k + 1) * block_size
                        } else {
                            contents@.len() as int
                        },
                    ),
                ),
            ),
{
    let len = contents.len();
    let block_hashes = if (block_size as u128) <= (len as u128) {
        block_digests(contents, block_size as usize)
    } else {
        // The whole file fits in one block.
        let eff: usize = if len == 0 {
            1
        } else {
            len
        };
        proof {
            lemma_digests_single_block(contents@, block_size as nat, eff as nat);
        }
        block_digests(contents, eff)
    };
    let file_hash = sha256_hex(contents);
    proof {
        lemma_manifest_is_valid(file_name@, contents@, block_size);
        crate::models::lemma_block_count_rounds_up(contents@.len(), block_size as nat);
        assert forall|k: int| 0 <= k < block_hashes@.len() implies #[trigger] strings_view(
            block_hashes@,
        )[k] == spec_hex(
            spec_sha256(
                contents@.subrange(
                    k * block_size,
                    if (k + 1) * block_size <= contents@.len() {
                        (k + 1) * block_size
                    } else {
                        contents@.len() as int
                    },
                ),
            ),
        ) by {
            assert((k + 1) * block_size == k * block_size + block_size) by (nonlinear_arith);
        }
        assert forall|k: int| 0 <= k < block_hashes@.len() implies strings_view(block_hashes@)[k].len() == 64 by {
            assert(strings_view(block_hashes@)[k] == block_hashes@[k]@);
        }
    }
    FileManifest {
        file_name,
        file_hash,
        file_size: len as u64,
        block_size,
        block_hashes,
    }
}

} // verus!

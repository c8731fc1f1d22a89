//! Cutting file contents into fixed-size blocks and digesting each block.
use vstd::prelude::*;
use vstd::slice::slice_subrange;
use crate::digest::{sha256_hex, spec_hex, spec_sha256};
use crate::models::{spec_block_count, strings_view};

verus! {

/// The end of block `k`: a block is `block_size` bytes, the last one
/// possibly shorter.
pub open spec fn chunk_end(len: nat, block_size: nat, k: nat) -> nat {
    if k * block_size + block_size <= len {
        k * block_size + block_size
    } else {
        len
    }
}

/// The bytes of block `k`.
pub open spec fn spec_chunk(data: Seq<u8>, block_size: nat, k: nat) -> Seq<u8> {
    data.subrange((k * block_size) as int, chunk_end(data.len(), block_size, k) as int)
}

/// The lowercase hexadecimal SHA-256 digest of every block, in order.
pub open spec fn spec_block_digests(data: Seq<u8>, block_size: nat) -> Seq<Seq<char>> {
    Seq::new(
        spec_block_count(data.len(), block_size),
        |k: int| spec_hex(spec_sha256(spec_chunk(data, block_size, k as nat))),
    )
}

/// The lowercase hexadecimal SHA-256 digest of the whole contents.
pub open spec fn spec_content_digest(data: Seq<u8>) -> Seq<char> {
    spec_hex(spec_sha256(data))
}

/// Block `k` starts inside the data exactly when `k` is below the block
/// count.
pub proof fn lemma_block_start(len: nat, bs: nat, k: nat)
    requires
        bs > 0,
    ensures
        k < spec_block_count(len, bs) <==> k * bs < len,
        k + 1 < spec_block_count(len, bs) ==> k * bs + bs < len,
        k + 1 == spec_block_count(len, bs) ==> len <= k * bs + bs,
{
    let q = len / bs;
    let r = len % bs;
    assert(len == q * bs + r && 0 <= r < bs) by (nonlinear_arith)
        requires
            bs > 0,
            q == len / bs,
            r == len % bs,
    ;
    assert(k < spec_block_count(len, bs) <==> k * bs < len) by (nonlinear_arith)
        requires
            len == q * bs + r,
            0 <= r < bs,
            spec_block_count(len, bs) == if r == 0 { q } else { q + 1 },
    ;
    assert(k + 1 < spec_block_count(len, bs) ==> k * bs + bs < len) by (nonlinear_arith)
        requires
            len == q * bs + r,
            0 <= r < bs,
            spec_block_count(len, bs) == if r == 0 { q } else { q + 1 },
    ;
    assert(k + 1 == spec_block_count(len, bs) ==> len <= k * bs + bs) by (nonlinear_arith)
        requires
            len == q * bs + r,
            0 <= r < bs,
            spec_block_count(len, bs) == if r == 0 { q } else { q + 1 },
    ;
}

/// The number of blocks of `len` bytes, as a `usize`.
pub fn block_count_usize(len: usize, block_size: usize) -> (r: usize)
    requires
        block_size > 0,
    ensures
        r == spec_block_count(len as nat, block_size as nat),
{
    let q = len / block_size;
    if len % block_size == 0 {
        q
    } else {
        assert(q < len) by (nonlinear_arith)
            requires
                block_size > 0,
                q == len / block_size,
                len % block_size != 0,
        ;
        q + 1
    }
}

/// The bounds of block `k` of `len` bytes.
pub fn chunk_bounds(len: usize, block_size: usize, k: usize, start: usize) -> (r: (usize, usize))
    requires
        block_size > 0,
        k < spec_block_count(len as nat, block_size as nat),
        start == k * block_size,
    ensures
        r.0 == k * block_size,
        r.1 == chunk_end(len as nat, block_size as nat, k as nat),
        r.0 <= r.1 <= len,
        k + 1 < spec_block_count(len as nat, block_size as nat) ==> r.1 == (k + 1) * block_size,
{
    proof {
        lemma_block_start(len as nat, block_size as nat, k as nat);
        assert((k + 1) * block_size == k * block_size + block_size) by (nonlinear_arith);
    }
    let end = if len - start < block_size {
        len
    } else {
        start + block_size
    };
    (start, end)
}

/// A block size at least as large as the data cuts it the same way as any
/// other such size: into one block, or none when the data is empty.
pub proof fn lemma_digests_single_block(data: Seq<u8>, bs: nat, eff: nat)
    requires
        data.len() < bs,
        data.len() <= eff,
        eff > 0,
    ensures
        spec_block_digests(data, bs) == spec_block_digests(data, eff),
{
    let len = data.len();
    assert(len / bs == 0 && len % bs == len) by (nonlinear_arith)
        requires
            len < bs,
    ;
    if len == 0 {
        assert(len / eff == 0 && len % eff == 0) by (nonlinear_arith)
            requires
                len == 0,
                eff > 0,
        ;
    } else if len < eff {
        assert(len / eff == 0 && len % eff == len) by (nonlinear_arith)
            requires
                len < eff,
        ;
    } else {
        assert(len / eff == 1 && len % eff == 0) by (nonlinear_arith)
            requires
                len == eff,
                eff > 0,
        ;
    }
    assert(0 * bs == 0 && 0 * eff == 0);
    assert(spec_block_digests(data, bs) =~= spec_block_digests(data, eff));
}

/// The digest of every block of `data`, in order.
pub fn block_digests(data: &[u8], block_size: usize) -> (r: Vec<String>)
    requires
        block_size > 0,
    ensures
        strings_view(r@) == spec_block_digests(data@, block_size as nat),
        forall|k: int| 0 <= k < r@.len() ==> (#[trigger] r@[k])@.len() == 64,
{
    let len = data.len();
    let n = block_count_usize(len, block_size);
    let mut out: Vec<String> = Vec::new();
    let mut start: usize = 0;
    let mut k: usize = 0;
    while k < n
        invariant
            len == data@.len(),
            block_size > 0,
            n == spec_block_count(len as nat, block_size as nat),
            k <= n,
            k < n ==> start == k * block_size,
            out@.len() == k,
            forall|j: int|
                0 <= j < k ==> #[trigger] out@[j]@ == spec_hex(
                    spec_sha256(spec_chunk(data@, block_size as nat, j as nat)),
                ),
            forall|j: int| 0 <= j < k ==> (#[trigger] out@[j])@.len() == 64,
        decreases n - k,
    {
        let (s0, end) = chunk_bounds(len, block_size, k, start);
        let chunk = slice_subrange(data, s0, end);
        out.push(sha256_hex(chunk));
        start = end;
        k = k + 1;
    }
    assert(strings_view(out@) =~= spec_block_digests(data@, block_size as nat));
    out
}

} // verus!

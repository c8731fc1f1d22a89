//! Planning and checking a download: which peers to ask for a block, how the
//! fetched blocks are put back together, and where the result may be written.
use vstd::prelude::*;
use crate::text::{chars_of, string_from_chars};
use crate::tracker_dto::{FileLocation, FileLocationView, FilesResponse, FileSummary, PeerLocation, PeerLocationView, TrackerBlockView};
use crate::digest::{sha256_hex, spec_hex, spec_sha256};
use crate::blocks::{chunk_end, spec_chunk};
use crate::models::spec_block_count;
use crate::text::{push_chars, push_decimal, spec_decimal};
use vstd::string::*;

verus! {

/// Why a download step was refused.
#[derive(Debug, Clone)]
pub enum TransferError {
    /// After ordering the blocks by index, the block at this position does not
    /// carry this index.
    NotContiguous { index: usize },
    /// The file name is absolute or climbs out of the share directory.
    UnsafeFileName,
    /// The tracker knows no file with that digest or name.
    NoMatch,
    /// The tracker knows this many files with that name.
    Ambiguous { count: usize },
    /// The tracker lists no block of the file as available.
    NoAvailableBlocks,
    /// No peer holds this block.
    NoCandidates { block_index: usize },
    /// A block's digest is not the one its peer announced.
    BlockHashMismatch { block_index: usize, expected: String, actual: String },
    /// The joined file's digest is not the file's.
    FileHashMismatch { expected: String, actual: String },
}

/// A fetched block as an index and its bytes.
pub open spec fn block_view(b: (usize, Vec<u8>)) -> (usize, Seq<u8>) {
    (b.0, b.1@)
}

/// The fetched blocks, each as an index and its bytes.
pub open spec fn blocks_view(blocks: Seq<(usize, Vec<u8>)>) -> Seq<(usize, Seq<u8>)> {
    blocks.map_values(|b: (usize, Vec<u8>)| block_view(b))
}

/// How many blocks carry index `v`.
pub open spec fn count_eq(s: Seq<(usize, Seq<u8>)>, v: int) -> nat
    decreases s.len(),
{
    if s.len() == 0 {
        0
    } else {
        count_eq(s.drop_last(), v) + if s.last().0 == v { 1nat } else { 0nat }
    }
}

/// How many blocks carry an index below `k`.
pub open spec fn count_lt(s: Seq<(usize, Seq<u8>)>, k: int) -> nat
    decreases s.len(),
{
    if s.len() == 0 {
        0
    } else {
        count_lt(s.drop_last(), k) + if s.last().0 < k { 1nat } else { 0nat }
    }
}

/// Once the blocks are sorted by index, position `k` holds index `k` (given
/// that every earlier position held its own index).
pub open spec fn position_matches(s: Seq<(usize, Seq<u8>)>, k: int) -> bool {
    count_lt(s, k) == k && count_lt(s, k) + count_eq(s, k) >= k + 1
}

/// The first position at or after `k` whose block, in index order, does not
/// carry the position as its index.
pub open spec fn first_gap_from(s: Seq<(usize, Seq<u8>)>, k: int) -> Option<int>
    decreases s.len() - k,
{
    if k >= s.len() || k < 0 {
        None
    } else if !position_matches(s, k) {
        Some(k)
    } else {
        first_gap_from(s, k + 1)
    }
}

/// The bytes of the last block that carries index `k`.
pub open spec fn data_with_index(s: Seq<(usize, Seq<u8>)>, k: int) -> Seq<u8>
    decreases s.len(),
{
    if s.len() == 0 {
        Seq::empty()
    } else if s.last().0 == k {
        s.last().1
    } else {
        data_with_index(s.drop_last(), k)
    }
}

/// The bytes of the blocks with indices `0..k`, in index order.
pub open spec fn concat_in_order(s: Seq<(usize, Seq<u8>)>, k: nat) -> Seq<u8>
    decreases k,
{
    if k == 0 {
        Seq::empty()
    } else {
        concat_in_order(s, (k - 1) as nat) + data_with_index(s, k - 1)
    }
}

/// Every index `0..len` occurs exactly once among the blocks.
pub open spec fn indices_are_permutation(s: Seq<(usize, Seq<u8>)>) -> bool {
    forall|v: int| 0 <= v < s.len() ==> #[trigger] count_eq(s, v) == 1
}

/// What joining the blocks gives: the first gap in the index order, or the
/// bytes of all blocks in index order.
pub open spec fn spec_join_blocks(s: Seq<(usize, Seq<u8>)>) -> Result<Seq<u8>, usize> {
    match first_gap_from(s, 0) {
        Some(k) => Err(k as usize),
        None => Ok(concat_in_order(s, s.len())),
    }
}

proof fn lemma_count_lt_step(s: Seq<(usize, Seq<u8>)>, k: int)
    ensures
        count_lt(s, k + 1) == count_lt(s, k) + count_eq(s, k),
    decreases s.len(),
{
    if s.len() > 0 {
        lemma_count_lt_step(s.drop_last(), k);
    }
}

proof fn lemma_count_lt_bound(s: Seq<(usize, Seq<u8>)>, k: int)
    ensures
        count_lt(s, k) <= s.len(),
        k <= 0 ==> count_lt(s, k) == 0,
    decreases s.len(),
{
    if s.len() > 0 {
        lemma_count_lt_bound(s.drop_last(), k);
    }
}

proof fn lemma_counts_push(s: Seq<(usize, Seq<u8>)>, i: int, v: int)
    requires
        0 <= i < s.len(),
    ensures
        count_eq(s.take(i + 1), v) == count_eq(s.take(i), v) + if s[i].0 == v { 1nat } else { 0nat },
{
    assert(s.take(i + 1).drop_last() =~= s.take(i));
}

proof fn lemma_first_gap_skip(s: Seq<(usize, Seq<u8>)>, k: int)
    requires
        0 <= k,
        forall|j: int| 0 <= j < k && j < s.len() ==> position_matches(s, j),
    ensures
        first_gap_from(s, 0) == first_gap_from(s, k),
    decreases k,
{
    if k > 0 {
        lemma_first_gap_skip(s, k - 1);
        if k - 1 < s.len() {
            assert(first_gap_from(s, k - 1) == first_gap_from(s, k));
        }
    }
}

/// Joining succeeds exactly when the block indices are `0..len`, each once.
pub proof fn lemma_join_succeeds_iff_permutation(s: Seq<(usize, Seq<u8>)>)
    ensures
        first_gap_from(s, 0) is None <==> indices_are_permutation(s),
{
    lemma_count_lt_bound(s, 0);
    if first_gap_from(s, 0) is None {
        assert forall|k: int| 0 <= k <= s.len() implies count_lt(s, k) == k
            && (k < s.len() ==> position_matches(s, k)) by {
            lemma_no_gap_prefix(s, k);
        }
        assert forall|v: int| 0 <= v < s.len() implies #[trigger] count_eq(s, v) == 1 by {
            lemma_no_gap_prefix(s, v);
            lemma_no_gap_prefix(s, v + 1);
            lemma_count_lt_step(s, v);
            lemma_count_lt_bound(s, v + 1);
        }
    } else {
        let k = first_gap_from(s, 0)->0;
        lemma_gap_is_gap(s, 0);
        if indices_are_permutation(s) {
            lemma_permutation_prefix(s, k);
            lemma_count_lt_step(s, k);
            assert(position_matches(s, k));
        }
    }
}

proof fn lemma_gap_is_gap(s: Seq<(usize, Seq<u8>)>, k: int)
    requires
        0 <= k,
        first_gap_from(s, k) is Some,
    ensures
        k <= first_gap_from(s, k)->0 < s.len(),
        !position_matches(s, first_gap_from(s, k)->0),
    decreases s.len() - k,
{
    if k < s.len() && position_matches(s, k) {
        lemma_gap_is_gap(s, k + 1);
    }
}

proof fn lemma_no_gap_prefix(s: Seq<(usize, Seq<u8>)>, k: int)
    requires
        first_gap_from(s, 0) is None,
        0 <= k <= s.len(),
    ensures
        count_lt(s, k) == k,
        k < s.len() ==> position_matches(s, k),
    decreases k,
{
    lemma_count_lt_bound(s, 0);
    lemma_no_gap_from(s, 0, k);
    if k > 0 {
        lemma_no_gap_prefix(s, k - 1);
        lemma_count_lt_step(s, k - 1);
        lemma_no_gap_from(s, 0, k - 1);
        if k < s.len() {
        } else {
            lemma_count_lt_bound(s, k);
        }
    }
}

proof fn lemma_no_gap_from(s: Seq<(usize, Seq<u8>)>, start: int, k: int)
    requires
        0 <= start <= k,
        first_gap_from(s, start) is None,
    ensures
        k < s.len() ==> position_matches(s, k),
        first_gap_from(s, k) is None,
    decreases k - start,
{
    if start < k {
        if start < s.len() {
            lemma_no_gap_from(s, start + 1, k);
        }
    }
}

proof fn lemma_permutation_prefix(s: Seq<(usize, Seq<u8>)>, k: int)
    requires
        indices_are_permutation(s),
        0 <= k <= s.len(),
    ensures
        count_lt(s, k) == k,
    decreases k,
{
    if k == 0 {
        lemma_count_lt_bound(s, 0);
    } else {
        lemma_permutation_prefix(s, k - 1);
        lemma_count_lt_step(s, k - 1);
        assert(count_eq(s, k - 1) == 1);
    }
}

/// Some block carries index `v` when one is counted for it.
proof fn lemma_counted_index_occurs(s: Seq<(usize, Seq<u8>)>, v: int)
    requires
        count_eq(s, v) > 0,
    ensures
        exists|i: int| 0 <= i < s.len() && #[trigger] s[i].0 == v,
    decreases s.len(),
{
    if s.last().0 == v {
        assert(s[s.len() - 1].0 == v);
    } else {
        lemma_counted_index_occurs(s.drop_last(), v);
        let i = choose|i: int| 0 <= i < s.drop_last().len() && #[trigger] s.drop_last()[i].0 == v;
        assert(s[i].0 == v);
    }
}

/// When every block holds the chunk of `contents` its index names, the bytes
/// found for an index that occurs are that chunk.
proof fn lemma_data_is_chunk(s: Seq<(usize, Seq<u8>)>, contents: Seq<u8>, bs: nat, v: int)
    requires
        exists|i: int| 0 <= i < s.len() && #[trigger] s[i].0 == v,
        forall|i: int| 0 <= i < s.len() ==> #[trigger] s[i].1 == spec_chunk(contents, bs, s[i].0 as nat),
    ensures
        data_with_index(s, v) == spec_chunk(contents, bs, v as nat),
    decreases s.len(),
{
    let l = s.len() - 1;
    assert(s.last() == s[l]);
    if s.last().0 != v {
        let i = choose|i: int| 0 <= i < s.len() && #[trigger] s[i].0 == v;
        assert(i != l);
        assert(s.drop_last()[i].0 == v);
        assert forall|j: int| 0 <= j < s.drop_last().len() implies #[trigger] s.drop_last()[j].1
            == spec_chunk(contents, bs, s.drop_last()[j].0 as nat) by {
            assert(s.drop_last()[j] == s[j]);
        }
        lemma_data_is_chunk(s.drop_last(), contents, bs, v);
    }
}

/// The chunks `0..k` of `contents`, in order, are its first bytes, up to the
/// end of chunk `k - 1`.
proof fn lemma_chunks_prefix(s: Seq<(usize, Seq<u8>)>, contents: Seq<u8>, bs: nat, k: nat)
    requires
        bs > 0,
        k <= spec_block_count(contents.len(), bs),
        forall|v: int| 0 <= v < k ==> #[trigger] data_with_index(s, v) == spec_chunk(contents, bs, v as nat),
    ensures
        k > 0 ==> concat_in_order(s, k) == contents.subrange(0, chunk_end(contents.len(), bs, (k - 1) as nat) as int),
        k == 0 ==> concat_in_order(s, k) == Seq::<u8>::empty(),
    decreases k,
{
    if k > 0 {
        let len = contents.len();
        let j = (k - 1) as nat;
        crate::blocks::lemma_block_start(len, bs, j);
        assert(data_with_index(s, j as int) == spec_chunk(contents, bs, j));
        if k > 1 {
            lemma_chunks_prefix(s, contents, bs, j);
            let i = (k - 2) as nat;
            crate::blocks::lemma_block_start(len, bs, i);
            assert(i * bs + bs == j * bs) by (nonlinear_arith)
                requires
                    i + 1 == j,
            ;
            assert(chunk_end(len, bs, i) == j * bs);
        } else {
            assert(j * bs == 0) by (nonlinear_arith)
                requires
                    j == 0,
            ;
        }
        let start = j * bs;
        let end = chunk_end(len, bs, j);
        assert(start < len);
        assert(start <= end <= len);
        assert(concat_in_order(s, (k - 1) as nat) =~= contents.subrange(0, start as int));
        assert(concat_in_order(s, k) == concat_in_order(s, (k - 1) as nat) + data_with_index(s, j as int));
        assert(data_with_index(s, j as int) == contents.subrange(start as int, end as int));
        assert(concat_in_order(s, k) =~= contents.subrange(0, end as int));
    }
}

/// Fetching every block of a file, in any order, and joining them gives the
/// file back: when the fetched blocks carry each index of the file once and
/// each holds the chunk of the file its index names, joining succeeds with
/// the file's contents.
pub proof fn lemma_joined_blocks_rebuild_file(s: Seq<(usize, Seq<u8>)>, contents: Seq<u8>, bs: nat)
    requires
        bs > 0,
        s.len() == spec_block_count(contents.len(), bs),
        indices_are_permutation(s),
        forall|i: int| 0 <= i < s.len() ==> #[trigger] s[i].1 == spec_chunk(contents, bs, s[i].0 as nat),
    ensures
        spec_join_blocks(s) == Ok::<Seq<u8>, usize>(contents),
{
    lemma_join_succeeds_iff_permutation(s);
    let n = s.len();
    assert forall|v: int| 0 <= v < n implies #[trigger] data_with_index(s, v) == spec_chunk(contents, bs, v as nat) by {
        assert(count_eq(s, v) == 1);
        lemma_counted_index_occurs(s, v);
        lemma_data_is_chunk(s, contents, bs, v);
    }
    lemma_chunks_prefix(s, contents, bs, n);
    if n > 0 {
        crate::blocks::lemma_block_start(contents.len(), bs, (n - 1) as nat);
        assert(contents.subrange(0, contents.len() as int) =~= contents);
    } else {
        crate::blocks::lemma_block_start(contents.len(), bs, 0);
        assert(contents =~= Seq::<u8>::empty());
    }
}

/// Taking one block out lowers the counts by what that block contributes.
proof fn lemma_counts_remove(t: Seq<(usize, Seq<u8>)>, j: int, v: int)
    requires
        0 <= j < t.len(),
    ensures
        count_eq(t, v) == count_eq(t.remove(j), v) + if t[j].0 == v { 1nat } else { 0nat },
        count_lt(t, v) == count_lt(t.remove(j), v) + if t[j].0 < v { 1nat } else { 0nat },
    decreases t.len(),
{
    if j == t.len() - 1 {
        assert(t.remove(j) =~= t.drop_last());
    } else {
        lemma_counts_remove(t.drop_last(), j, v);
        assert(t.remove(j).drop_last() =~= t.drop_last().remove(j));
        assert(t.remove(j).last() == t.last());
        assert(t.drop_last()[j] == t[j]);
    }
}

/// Blocks that are a rearrangement of each other have the same counts.
proof fn lemma_counts_of_multiset(s: Seq<(usize, Seq<u8>)>, t: Seq<(usize, Seq<u8>)>)
    requires
        s.to_multiset() == t.to_multiset(),
    ensures
        s.len() == t.len(),
        forall|v: int| #[trigger] count_eq(s, v) == count_eq(t, v),
        forall|v: int| #[trigger] count_lt(s, v) == count_lt(t, v),
    decreases s.len(),
{
    broadcast use vstd::seq_lib::group_to_multiset_ensures, vstd::multiset::group_multiset_axioms;

    assert(s.len() == s.to_multiset().len());
    assert(t.len() == t.to_multiset().len());
    if s.len() > 0 {
        let x = s.last();
        let sd = s.drop_last();
        assert(sd.push(x) =~= s);
        assert(s.to_multiset() =~= sd.to_multiset().insert(x));
        assert(t.to_multiset().count(x) > 0);
        assert(t.contains(x));
        let j = choose|j: int| 0 <= j < t.len() && t[j] == x;
        let t2 = t.remove(j);
        assert(t2.to_multiset() =~= t.to_multiset().remove(x));
        assert(sd.to_multiset() =~= t2.to_multiset());
        lemma_counts_of_multiset(sd, t2);
        assert forall|v: int| #[trigger] count_eq(s, v) == count_eq(t, v) by {
            lemma_counts_remove(t, j, v);
            assert(count_eq(sd, v) == count_eq(t2, v));
            assert(count_eq(s, v) == count_eq(sd, v) + if x.0 == v { 1nat } else { 0nat });
        }
        assert forall|v: int| #[trigger] count_lt(s, v) == count_lt(t, v) by {
            lemma_counts_remove(t, j, v);
            assert(count_lt(sd, v) == count_lt(t2, v));
            assert(count_lt(s, v) == count_lt(sd, v) + if x.0 < v { 1nat } else { 0nat });
        }
    }
}

/// The first gap depends on the counts alone.
proof fn lemma_first_gap_same(s: Seq<(usize, Seq<u8>)>, t: Seq<(usize, Seq<u8>)>, k: int)
    requires
        s.len() == t.len(),
        forall|v: int| #[trigger] count_eq(s, v) == count_eq(t, v),
        forall|v: int| #[trigger] count_lt(s, v) == count_lt(t, v),
    ensures
        first_gap_from(s, k) == first_gap_from(t, k),
    decreases s.len() - k,
{
    if 0 <= k < s.len() {
        assert(count_eq(s, k) == count_eq(t, k) && count_lt(s, k) == count_lt(t, k));
        lemma_first_gap_same(s, t, k + 1);
    }
}

/// A block that carries an index is counted for it.
proof fn lemma_occurs_counted(s: Seq<(usize, Seq<u8>)>, i: int, v: int)
    requires
        0 <= i < s.len(),
        s[i].0 == v,
    ensures
        count_eq(s, v) >= 1,
    decreases s.len(),
{
    if i < s.len() - 1 {
        assert(s.drop_last()[i] == s[i]);
        lemma_occurs_counted(s.drop_last(), i, v);
    }
}

/// The bytes found for an index carried by one block only are that block's.
proof fn lemma_unique_data(s: Seq<(usize, Seq<u8>)>, i: int, v: int)
    requires
        0 <= i < s.len(),
        s[i].0 == v,
        count_eq(s, v) == 1,
    ensures
        data_with_index(s, v) == s[i].1,
    decreases s.len(),
{
    let l = s.len() - 1;
    if i < l {
        assert(s.drop_last()[i] == s[i]);
        if s.last().0 == v {
            lemma_occurs_counted(s.drop_last(), i, v);
            assert(false);
        } else {
            lemma_unique_data(s.drop_last(), i, v);
        }
    }
}

/// Joining in index order reads the bytes per index only.
proof fn lemma_concat_same(s: Seq<(usize, Seq<u8>)>, t: Seq<(usize, Seq<u8>)>, m: nat)
    requires
        forall|k: int| 0 <= k < m ==> #[trigger] data_with_index(s, k) == data_with_index(t, k),
    ensures
        concat_in_order(s, m) == concat_in_order(t, m),
    decreases m,
{
    if m > 0 {
        lemma_concat_same(s, t, (m - 1) as nat);
        assert(data_with_index(s, m - 1) == data_with_index(t, m - 1));
    }
}

/// The join does not depend on the order in which the blocks arrived:
/// blocks that are a rearrangement of each other join to the same bytes, or
/// fail at the same position.
pub proof fn lemma_join_ignores_order(s: Seq<(usize, Seq<u8>)>, t: Seq<(usize, Seq<u8>)>)
    requires
        s.to_multiset() == t.to_multiset(),
    ensures
        spec_join_blocks(s) == spec_join_blocks(t),
{
    broadcast use vstd::seq_lib::group_to_multiset_ensures;

    lemma_counts_of_multiset(s, t);
    lemma_first_gap_same(s, t, 0);
    if first_gap_from(s, 0) is None {
        lemma_join_succeeds_iff_permutation(s);
        lemma_join_succeeds_iff_permutation(t);
        assert forall|k: int| 0 <= k < s.len() implies #[trigger] data_with_index(s, k)
            == data_with_index(t, k) by {
            assert(count_eq(s, k) == 1 && count_eq(t, k) == 1);
            lemma_counted_index_occurs(s, k);
            let i = choose|i: int| 0 <= i < s.len() && #[trigger] s[i].0 == k;
            let x = s[i];
            assert(s.contains(x));
            assert(s.to_multiset().count(x) > 0);
            assert(t.to_multiset().count(x) > 0);
            assert(t.contains(x));
            let j = choose|j: int| 0 <= j < t.len() && t[j] == x;
            lemma_unique_data(s, i, k);
            lemma_unique_data(t, j, k);
        }
        lemma_concat_same(s, t, s.len());
    }
}

/// `pos` is the last of the `count` blocks among `prefix` that carry index `j`.
spec fn tracks_last(
    blocks: Seq<(usize, Vec<u8>)>,
    prefix: Seq<(usize, Seq<u8>)>,
    count: usize,
    pos: usize,
    j: int,
    bound: int,
) -> bool {
    count > 0 ==> pos < bound && blocks[pos as int].0 == j && data_with_index(prefix, j)
        == blocks[pos as int].1@
}

/// Puts the fetched blocks back together in index order. Fails, naming the
/// first position where the ordered indices leave `0, 1, 2, ...`.
pub fn join_blocks(blocks: Vec<(usize, Vec<u8>)>) -> (r: Result<Vec<u8>, TransferError>)
    ensures
        match (r, spec_join_blocks(blocks_view(blocks@))) {
            (Ok(bytes), Ok(expected)) => bytes@ == expected,
            (Err(TransferError::NotContiguous { index }), Err(k)) => index == k,
            _ => false,
        },
        r is Ok <==> indices_are_permutation(blocks_view(blocks@)),
{
    let ghost s = blocks_view(blocks@);
    let n = blocks.len();
    // counts[v]: how many blocks carry index v; last_pos[v]: the last of them.
    let mut counts: Vec<usize> = Vec::new();
    let mut last_pos: Vec<usize> = Vec::new();
    let mut v: usize = 0;
    while v < n
        invariant
            v <= n,
            counts@.len() == v,
            last_pos@.len() == v,
            forall|j: int| 0 <= j < v ==> counts@[j] == 0,
        decreases n - v,
    {
        counts.push(0);
        last_pos.push(0);
        v = v + 1;
    }
    let mut i: usize = 0;
    while i < n
        invariant
            n == blocks@.len(),
            s == blocks_view(blocks@),
            i <= n,
            counts@.len() == n,
            last_pos@.len() == n,
            forall|j: int| 0 <= j < n ==> #[trigger] counts@[j] == count_eq(s.take(i as int), j),
            forall|j: int| 0 <= j < n ==> #[trigger] counts@[j] <= i,
            forall|j: int|
                0 <= j < n ==> #[trigger] tracks_last(
                    blocks@,
                    s.take(i as int),
                    counts@[j],
                    last_pos@[j],
                    j,
                    i as int,
                ),
        decreases n - i,
    {
        let key = blocks[i].0;
        proof {
            assert(s[i as int] == block_view(blocks@[i as int]));
            assert forall|j: int| 0 <= j < n implies count_eq(s.take(i + 1), j) == count_eq(
                s.take(i as int),
                j,
            ) + if s[i as int].0 == j { 1nat } else { 0nat } by {
                lemma_counts_push(s, i as int, j);
            }
            assert forall|j: int| 0 <= j < n implies data_with_index(s.take(i + 1), j) == if s[i as int].0 == j {
                s[i as int].1
            } else {
                data_with_index(s.take(i as int), j)
            } by {
                assert(s.take(i + 1).drop_last() =~= s.take(i as int));
            }
        }
        let ghost old_counts = counts@;
        let ghost old_pos = last_pos@;
        if key < n {
            let c = counts[key];
            counts.set(key, c + 1);
            last_pos.set(key, i);
        }
        proof {
            assert forall|j: int| 0 <= j < n implies #[trigger] tracks_last(
                blocks@,
                s.take(i + 1),
                counts@[j],
                last_pos@[j],
                j,
                i + 1,
            ) by {
                assert(tracks_last(blocks@, s.take(i as int), old_counts[j], old_pos[j], j, i as int));
            }
        }
        i = i + 1;
    }
    proof {
        assert(s.take(n as int) =~= s);
    }
    let mut prefix: usize = 0;
    let mut k: usize = 0;
    proof {
        lemma_count_lt_bound(s, 0);
    }
    while k < n
        invariant
            n == blocks@.len(),
            last_pos@.len() == n,
            forall|j: int|
                0 <= j < n ==> #[trigger] tracks_last(
                    blocks@,
                    s.take(n as int),
                    counts@[j],
                    last_pos@[j],
                    j,
                    n as int,
                ),
            s.take(n as int) == s,
            s == blocks_view(blocks@),
            k <= n,
            counts@.len() == n,
            forall|j: int| 0 <= j < n ==> #[trigger] counts@[j] == count_eq(s, j),
            prefix == count_lt(s, k as int),
            forall|j: int| 0 <= j < k ==> position_matches(s, j),
        decreases n - k,
    {
        proof {
            lemma_count_lt_step(s, k as int);
            lemma_count_lt_bound(s, k + 1);
        }
        let c = counts[k];
        if !(prefix == k && prefix + c >= k + 1) {
            proof {
                lemma_first_gap_skip(s, k as int);
                lemma_join_succeeds_iff_permutation(s);
            }
            return Err(TransferError::NotContiguous { index: k });
        }
        prefix = prefix + c;
        k = k + 1;
    }
    proof {
        lemma_first_gap_skip(s, n as int);
        lemma_join_succeeds_iff_permutation(s);
        assert forall|j: int| 0 <= j < n implies #[trigger] counts@[j] > 0 by {
            assert(count_eq(s, j) == 1);
        }
    }
    let mut out: Vec<u8> = Vec::new();
    let mut k: usize = 0;
    while k < n
        invariant
            n == blocks@.len(),
            s == blocks_view(blocks@),
            k <= n,
            counts@.len() == n,
            last_pos@.len() == n,
            forall|j: int| 0 <= j < n ==> #[trigger] counts@[j] > 0,
            forall|j: int|
                0 <= j < n ==> #[trigger] tracks_last(
                    blocks@,
                    s.take(n as int),
                    counts@[j],
                    last_pos@[j],
                    j,
                    n as int,
                ),
            s.take(n as int) == s,
            out@ == concat_in_order(s, k as nat),
        decreases n - k,
    {
        let p = last_pos[k];
        proof {
            assert(tracks_last(blocks@, s.take(n as int), counts@[k as int], last_pos@[k as int], k as int, n as int));
        }
        out.extend_from_slice(blocks[p].1.as_slice());
        k = k + 1;
        proof {
            assert(out@ =~= concat_in_order(s, k as nat));
        }
    }
    Ok(out)
}

/// The pieces of `s` between `/` separators, empty pieces included
/// (`"a//b/"` gives `a`, ``, `b`, ``).
pub open spec fn split_on_slash(s: Seq<char>) -> Seq<Seq<char>>
    decreases s.len(),
{
    if s.len() == 0 {
        seq![Seq::empty()]
    } else {
        let t = split_on_slash(s.drop_last());
        if s.last() == '/' {
            t.push(Seq::empty())
        } else {
            t.update(t.len() - 1, t.last().push(s.last()))
        }
    }
}

/// A piece that names no directory: empty, or `.`.
pub open spec fn is_skipped_part(p: Seq<char>) -> bool {
    p.len() == 0 || p == seq!['.']
}

/// The piece `..`.
pub open spec fn is_parent_part(p: Seq<char>) -> bool {
    p == seq!['.', '.']
}

/// The pieces that name a directory or file, in order.
pub open spec fn normal_parts(parts: Seq<Seq<char>>) -> Seq<Seq<char>>
    decreases parts.len(),
{
    if parts.len() == 0 {
        Seq::empty()
    } else if is_skipped_part(parts.last()) {
        normal_parts(parts.drop_last())
    } else {
        normal_parts(parts.drop_last()).push(parts.last())
    }
}

/// Appends one path component, adding a `/` unless the path is empty or
/// already ends in one.
pub open spec fn push_component(path: Seq<char>, part: Seq<char>) -> Seq<char> {
    if path.len() == 0 || path.last() == '/' {
        path + part
    } else {
        path + seq!['/'] + part
    }
}

/// Appends the components in order.
pub open spec fn push_components(path: Seq<char>, parts: Seq<Seq<char>>) -> Seq<char>
    decreases parts.len(),
{
    if parts.len() == 0 {
        path
    } else {
        push_component(push_components(path, parts.drop_last()), parts.last())
    }
}

/// A file name that would leave the share directory: absolute, or with a
/// `..` component.
pub open spec fn is_unsafe_file_name(name: Seq<char>) -> bool {
    (name.len() > 0 && name[0] == '/') || exists|i: int|
        0 <= i < split_on_slash(name).len() && is_parent_part(#[trigger] split_on_slash(name)[i])
}

/// Where a file of this name is placed under `root`, if it may be.
pub open spec fn spec_safe_output_path(root: Seq<char>, name: Seq<char>) -> Option<Seq<char>> {
    if is_unsafe_file_name(name) {
        None
    } else {
        Some(push_components(root, normal_parts(split_on_slash(name))))
    }
}

proof fn lemma_split_nonempty(s: Seq<char>)
    ensures
        split_on_slash(s).len() >= 1,
    decreases s.len(),
{
    if s.len() > 0 {
        lemma_split_nonempty(s.drop_last());
    }
}

/// A component is appended after the path it extends.
proof fn lemma_push_components_prefix(path: Seq<char>, parts: Seq<Seq<char>>)
    ensures
        path.is_prefix_of(push_components(path, parts)),
    decreases parts.len(),
{
    if parts.len() > 0 {
        lemma_push_components_prefix(path, parts.drop_last());
        let p = push_components(path, parts.drop_last());
        assert(p.is_prefix_of(push_component(p, parts.last())));
    }
}

proof fn lemma_normal_parts_are_normal(parts: Seq<Seq<char>>)
    ensures
        forall|i: int|
            0 <= i < normal_parts(parts).len() ==> !is_skipped_part(#[trigger] normal_parts(parts)[i])
                && parts.contains(normal_parts(parts)[i]),
    decreases parts.len(),
{
    if parts.len() > 0 {
        lemma_normal_parts_are_normal(parts.drop_last());
        let n = normal_parts(parts);
        assert forall|i: int| 0 <= i < n.len() implies !is_skipped_part(#[trigger] n[i]) && parts.contains(n[i]) by {
            let m = normal_parts(parts.drop_last());
            if i < m.len() {
                assert(n[i] == m[i]);
                assert(parts.drop_last().contains(m[i]));
                let k = choose|k: int| 0 <= k < parts.drop_last().len() && parts.drop_last()[k] == m[i];
                assert(parts[k] == m[i]);
            } else {
                assert(n[i] == parts.last());
                assert(parts[parts.len() - 1] == parts.last());
            }
        }
    }
}

/// A file written for the tracker lands under the share directory: its path
/// extends the root, and every component added is a plain name, neither
/// empty nor `.` nor `..`.
pub proof fn lemma_output_stays_under_root(root: Seq<char>, name: Seq<char>)
    requires
        !is_unsafe_file_name(name),
    ensures
        spec_safe_output_path(root, name) matches Some(p) && root.is_prefix_of(p),
        forall|i: int|
            0 <= i < normal_parts(split_on_slash(name)).len() ==> !is_skipped_part(
                #[trigger] normal_parts(split_on_slash(name))[i],
            ) && !is_parent_part(normal_parts(split_on_slash(name))[i]),
{
    let parts = split_on_slash(name);
    lemma_push_components_prefix(root, normal_parts(parts));
    lemma_normal_parts_are_normal(parts);
    assert forall|i: int| 0 <= i < normal_parts(parts).len() implies !is_parent_part(
        #[trigger] normal_parts(parts)[i],
    ) by {
        let k = choose|k: int| 0 <= k < parts.len() && parts[k] == normal_parts(parts)[i];
        assert(!is_parent_part(parts[k]));
    }
}

/// The path under `root` at which a file named `file_name` (as the tracker
/// reports it, `/`-separated) is written. Empty and `.` components are
/// dropped; an absolute name or a `..` component is refused.
pub fn safe_output_path(root: &str, file_name: &str) -> (r: Result<String, TransferError>)
    ensures
        match spec_safe_output_path(root@, file_name@) {
            Some(p) => r matches Ok(s) && s@ == p,
            None => r matches Err(TransferError::UnsafeFileName),
        },
        file_name@.len() > 0 && file_name@[0] == '/' ==> r matches Err(TransferError::UnsafeFileName),
        file_name@ == ".."@ ==> r matches Err(TransferError::UnsafeFileName),
        r matches Ok(p) ==> root@.is_prefix_of(p@),
{
    proof {
        if !is_unsafe_file_name(file_name@) {
            lemma_output_stays_under_root(root@, file_name@);
        }
        if file_name@ == ".."@ {
            reveal_strlit("..");
            let e = Seq::<char>::empty();
            let one = seq!['.'];
            let two = seq!['.', '.'];
            assert(file_name@ =~= two);
            assert(one.drop_last() =~= e);
            assert(two.drop_last() =~= one);
            assert(split_on_slash(e) == seq![e]);
            assert(e.push('.') =~= one);
            assert(split_on_slash(one) =~= seq![one]);
            assert(one.push('.') =~= two);
            assert(split_on_slash(two) =~= seq![two]);
            assert(is_parent_part(split_on_slash(file_name@)[0]));
        }
    }
    let name = chars_of(file_name);
    if name.len() > 0 && name[0] == '/' {
        return Err(TransferError::UnsafeFileName);
    }
    // Split the name into its `/`-separated pieces.
    let mut parts: Vec<Vec<char>> = Vec::new();
    let mut cur: Vec<char> = Vec::new();
    let mut i: usize = 0;
    while i < name.len()
        invariant
            i <= name@.len(),
            parts@.map_values(|p: Vec<char>| p@).push(cur@) == split_on_slash(
                name@.take(i as int),
            ),
        decreases name@.len() - i,
    {
        let c = name[i];
        proof {
            assert(name@.take(i + 1).drop_last() =~= name@.take(i as int));
            lemma_split_nonempty(name@.take(i as int));
        }
        if c == '/' {
            let done = cur;
            cur = Vec::new();
            parts.push(done);
            assert(parts@.map_values(|p: Vec<char>| p@).push(cur@) =~= split_on_slash(
                name@.take(i + 1),
            ));
        } else {
            let ghost before = parts@.map_values(|p: Vec<char>| p@).push(cur@);
            cur.push(c);
            assert(parts@.map_values(|p: Vec<char>| p@).push(cur@) =~= before.update(
                before.len() - 1,
                before.last().push(c),
            ));
        }
        i = i + 1;
    }
    parts.push(cur);
    proof {
        assert(name@.take(name@.len() as int) =~= name@);
    }
    let ghost pieces = parts@.map_values(|p: Vec<char>| p@);
    assert(pieces == split_on_slash(file_name@));
    // Append the normal components to the root.
    let mut out: Vec<char> = chars_of(root);
    let mut k: usize = 0;
    while k < parts.len()
        invariant
            k <= parts@.len(),
            pieces == parts@.map_values(|p: Vec<char>| p@),
            pieces == split_on_slash(file_name@),
            forall|j: int| 0 <= j < k ==> !is_parent_part(#[trigger] pieces[j]),
            out@ == push_components(root@, normal_parts(pieces.take(k as int))),
        decreases parts@.len() - k,
    {
        let part = &parts[k];
        assert(part@ == pieces[k as int]);
        assert(pieces.take(k + 1).drop_last() =~= pieces.take(k as int));
        let n = part.len();
        if n == 2 && part[0] == '.' && part[1] == '.' {
            assert(is_parent_part(pieces[k as int])) by {
                assert(part@ =~= seq!['.', '.']);
            }
            return Err(TransferError::UnsafeFileName);
        }
        assert(!is_parent_part(pieces[k as int]));
        let skipped = n == 0 || (n == 1 && part[0] == '.');
        assert(skipped == is_skipped_part(part@)) by {
            if n == 1 && part[0] == '.' {
                assert(part@ =~= seq!['.']);
            }
        }
        if !skipped {
            let ghost before = out@;
            if out.len() > 0 && out[out.len() - 1] != '/' {
                out.push('/');
            }
            let mut m: usize = 0;
            let ghost mid = out@;
            while m < n
                invariant
                    m <= n,
                    n == part@.len(),
                    out@ == mid + part@.take(m as int),
                decreases n - m,
            {
                out.push(part[m]);
                m = m + 1;
                assert(out@ =~= mid + part@.take(m as int));
            }
            assert(part@.take(n as int) =~= part@);
            assert(out@ =~= push_component(before, part@));
        }
        proof {
            let t1 = pieces.take(k + 1);
            assert(t1.last() == pieces[k as int]);
            if skipped {
                assert(normal_parts(t1) == normal_parts(pieces.take(k as int)));
            } else {
                assert(normal_parts(t1) == normal_parts(pieces.take(k as int)).push(part@));
                assert(normal_parts(t1).drop_last() =~= normal_parts(pieces.take(k as int)));
            }
        }
        k = k + 1;
    }
    assert(pieces.take(parts@.len() as int) =~= pieces);
    Ok(string_from_chars(out.as_slice()))
}

/// The peer lists `block_index` among the blocks it holds.
pub open spec fn provides_block(p: PeerLocationView, block_index: usize) -> bool {
    exists|j: int| 0 <= j < p.blocks.len() && #[trigger] p.blocks[j].index == block_index
}

/// The peers that hold the block, other nodes first and this node last, each
/// group in the order the tracker listed them.
pub open spec fn block_providers(
    peers: Seq<PeerLocationView>,
    block_index: usize,
    self_node_id: Seq<char>,
) -> Seq<PeerLocationView> {
    peers.filter(|p: PeerLocationView| provides_block(p, block_index) && p.node_id != self_node_id)
        + peers.filter(
        |p: PeerLocationView| provides_block(p, block_index) && p.node_id == self_node_id,
    )
}

/// The providers of the block rotated left by `block_index` modulo their
/// number, so that consecutive blocks start with different peers.
pub open spec fn spec_candidates(
    location: FileLocationView,
    block_index: usize,
    self_node_id: Seq<char>,
) -> Seq<PeerLocationView> {
    let ordered = block_providers(location.peers, block_index, self_node_id);
    let n = ordered.len();
    if n == 0 {
        Seq::empty()
    } else {
        Seq::new(n, |i: int| ordered[(i + (block_index as int) % (n as int)) % (n as int)])
    }
}

/// The candidates for a block are the peers that hold it, each once: the
/// list is a rearrangement of the holders, and every candidate holds the
/// block.
pub proof fn lemma_candidates_are_holders(
    location: FileLocationView,
    block_index: usize,
    self_node_id: Seq<char>,
)
    ensures
        spec_candidates(location, block_index, self_node_id).to_multiset() == block_providers(
            location.peers,
            block_index,
            self_node_id,
        ).to_multiset(),
        forall|i: int|
            0 <= i < spec_candidates(location, block_index, self_node_id).len() ==> provides_block(
                #[trigger] spec_candidates(location, block_index, self_node_id)[i],
                block_index,
            ),
{
    let ordered = block_providers(location.peers, block_index, self_node_id);
    let c = spec_candidates(location, block_index, self_node_id);
    let n = ordered.len();
    let pr = |p: PeerLocationView| provides_block(p, block_index) && p.node_id != self_node_id;
    let ms = |p: PeerLocationView| provides_block(p, block_index) && p.node_id == self_node_id;
    assert forall|k: int| 0 <= k < ordered.len() implies provides_block(#[trigger] ordered[k], block_index) by {
        let a = location.peers.filter(pr);
        let b = location.peers.filter(ms);
        if k < a.len() {
            location.peers.lemma_filter_pred(pr, k);
        } else {
            assert(ordered[k] == b[k - a.len()]);
            location.peers.lemma_filter_pred(ms, k - a.len());
        }
    }
    if n > 0 {
        let s = (block_index as int) % (n as int);
        assert(c =~= ordered.subrange(s, n as int) + ordered.subrange(0, s)) by {
            assert forall|i: int| 0 <= i < n implies c[i] == (ordered.subrange(s, n as int) + ordered.subrange(0, s))[i] by {
                if i < n - s {
                    assert((i + s) % (n as int) == i + s) by (nonlinear_arith)
                        requires 0 <= i + s < n;
                } else {
                    assert((i + s) % (n as int) == i + s - n) by (nonlinear_arith)
                        requires n <= i + s < 2 * n;
                }
            }
        }
        assert(ordered =~= ordered.subrange(0, s) + ordered.subrange(s, n as int));
        vstd::seq_lib::lemma_multiset_commutative(ordered.subrange(s, n as int), ordered.subrange(0, s));
        vstd::seq_lib::lemma_multiset_commutative(ordered.subrange(0, s), ordered.subrange(s, n as int));
        assert forall|i: int| 0 <= i < c.len() implies provides_block(#[trigger] c[i], block_index) by {
            assert(0 <= (i + s) % (n as int) < n) by (nonlinear_arith)
                requires n > 0;
        }
    } else {
        assert(c =~= ordered);
    }
}

/// This node is asked after every other holder in the order before
/// rotation: once a holder is this node, every later one is too; and every
/// holder there holds the block.
pub proof fn lemma_self_holds_last(peers: Seq<PeerLocationView>, block_index: usize, self_node_id: Seq<char>)
    ensures
        forall|i: int, j: int|
            0 <= i < j < block_providers(peers, block_index, self_node_id).len() && (
            #[trigger] block_providers(peers, block_index, self_node_id)[i]).node_id == self_node_id
                ==> (#[trigger] block_providers(peers, block_index, self_node_id)[j]).node_id
                == self_node_id,
        forall|i: int|
            0 <= i < block_providers(peers, block_index, self_node_id).len() ==> provides_block(
                #[trigger] block_providers(peers, block_index, self_node_id)[i],
                block_index,
            ),
{
    let pr = |p: PeerLocationView| provides_block(p, block_index) && p.node_id != self_node_id;
    let ms = |p: PeerLocationView| provides_block(p, block_index) && p.node_id == self_node_id;
    let a = peers.filter(pr);
    let b = peers.filter(ms);
    let o = block_providers(peers, block_index, self_node_id);
    assert(o == a + b);
    assert forall|i: int| 0 <= i < o.len() implies (i < a.len() ==> pr(#[trigger] o[i])) && (i
        >= a.len() ==> ms(o[i])) by {
        if i < a.len() {
            assert(o[i] == a[i]);
            peers.lemma_filter_pred(pr, i);
        } else {
            assert(o[i] == b[i - a.len()]);
            peers.lemma_filter_pred(ms, i - a.len());
        }
    }
}

/// Consecutive blocks held by the same peers start with the next holder:
/// the candidates for block `block_index + 1` are those for `block_index`
/// shifted by one place, so the load spreads over the holders.
pub proof fn lemma_candidates_rotate(location: FileLocationView, block_index: usize, self_node_id: Seq<char>)
    requires
        block_index < usize::MAX,
        block_providers(location.peers, block_index, self_node_id) == block_providers(
            location.peers,
            (block_index + 1) as usize,
            self_node_id,
        ),
    ensures
        spec_candidates(location, (block_index + 1) as usize, self_node_id).len() == spec_candidates(
            location,
            block_index,
            self_node_id,
        ).len(),
        forall|i: int|
            0 <= i < spec_candidates(location, block_index, self_node_id).len() ==> #[trigger] spec_candidates(
                location,
                (block_index + 1) as usize,
                self_node_id,
            )[i] == spec_candidates(location, block_index, self_node_id)[(i + 1) % spec_candidates(
                location,
                block_index,
                self_node_id,
            ).len() as int],
{
    let ordered = block_providers(location.peers, block_index, self_node_id);
    let n = ordered.len() as int;
    if n > 0 {
        let b = block_index as int;
        assert forall|i: int| 0 <= i < n implies #[trigger] spec_candidates(
            location,
            (block_index + 1) as usize,
            self_node_id,
        )[i] == spec_candidates(location, block_index, self_node_id)[(i + 1) % n] by {
            let j = (i + 1) % n;
            vstd::arithmetic::div_mod::lemma_small_mod(i as nat, n as nat);
            vstd::arithmetic::div_mod::lemma_add_mod_noop(i, b + 1, n);
            vstd::arithmetic::div_mod::lemma_add_mod_noop(i + 1, b, n);
            assert(i + (b + 1) == (i + 1) + b);
            assert((i + (b + 1) % n) % n == (j + b % n) % n);
            assert(0 <= j < n) by (nonlinear_arith)
                requires
                    n > 0,
                    j == (i + 1) % n,
            ;
        }
    }
}

fn holds_block(peer: &PeerLocation, block_index: usize) -> (r: bool)
    ensures
        r == provides_block(peer@, block_index),
{
    let mut j: usize = 0;
    while j < peer.blocks.len()
        invariant
            j <= peer.blocks@.len(),
            forall|k: int| 0 <= k < j ==> peer.blocks@[k].index != block_index,
        decreases peer.blocks@.len() - j,
    {
        if peer.blocks[j].index == block_index {
            assert(peer@.blocks[j as int].index == block_index);
            return true;
        }
        j = j + 1;
    }
    assert forall|k: int| 0 <= k < peer@.blocks.len() implies #[trigger] peer@.blocks[k].index
        != block_index by {
        assert(peer@.blocks[k] == peer.blocks@[k]@);
    }
    false
}

/// The peers to ask for a block, in the order to ask them: those that hold
/// it, other nodes before this one, rotated by the block index so that the
/// load spreads over the peers.
pub fn get_candidates_for_block(
    location: &FileLocation,
    block_index: usize,
    self_node_id: &str,
) -> (r: Vec<PeerLocation>)
    ensures
        r@.map_values(|p: PeerLocation| p@) == spec_candidates(location@, block_index, self_node_id@),
{
    let me = String::from_str(self_node_id);
    let ghost peers = location@.peers;
    let ghost other = |p: PeerLocationView| provides_block(p, block_index) && p.node_id != self_node_id@;
    let ghost mine = |p: PeerLocationView| provides_block(p, block_index) && p.node_id == self_node_id@;
    let mut others: Vec<PeerLocation> = Vec::new();
    let mut selves: Vec<PeerLocation> = Vec::new();
    let mut i: usize = 0;
    while i < location.peers.len()
        invariant
            i <= location.peers@.len(),
            peers == location@.peers,
            me@ == self_node_id@,
            other == (|p: PeerLocationView| provides_block(p, block_index) && p.node_id != self_node_id@),
            mine == (|p: PeerLocationView| provides_block(p, block_index) && p.node_id == self_node_id@),
            others@.map_values(|p: PeerLocation| p@) == peers.take(i as int).filter(other),
            selves@.map_values(|p: PeerLocation| p@) == peers.take(i as int).filter(mine),
            others@.len() + selves@.len() <= i,
        decreases location.peers@.len() - i,
    {
        let peer = &location.peers[i];
        proof {
            reveal(Seq::filter);
            let t = peers.take(i + 1);
            assert(t.drop_last() =~= peers.take(i as int));
            assert(t.last() == peer@);
            assert(t.filter(other) == if other(peer@) {
                peers.take(i as int).filter(other).push(peer@)
            } else {
                peers.take(i as int).filter(other)
            });
            assert(t.filter(mine) == if mine(peer@) {
                peers.take(i as int).filter(mine).push(peer@)
            } else {
                peers.take(i as int).filter(mine)
            });
        }
        if holds_block(peer, block_index) {
            if peer.node_id == me {
                let ghost before = selves@;
                selves.push(peer.copied());
                assert(selves@.map_values(|p: PeerLocation| p@) =~= before.map_values(
                    |p: PeerLocation| p@,
                ).push(peer@));
            } else {
                let ghost before = others@;
                others.push(peer.copied());
                assert(others@.map_values(|p: PeerLocation| p@) =~= before.map_values(
                    |p: PeerLocation| p@,
                ).push(peer@));
            }
        }
        i = i + 1;
    }
    proof {
        assert(peers.take(i as int) =~= peers);
    }
    let ghost ordered = block_providers(peers, block_index, self_node_id@);
    let n_others = others.len();
    let n = n_others + selves.len();
    let mut out: Vec<PeerLocation> = Vec::new();
    if n == 0 {
        assert(out@.map_values(|p: PeerLocation| p@) =~= spec_candidates(location@, block_index, self_node_id@));
        return out;
    }
    let shift = block_index % n;
    let mut k: usize = 0;
    while k < n
        invariant
            n == ordered.len(),
            n > 0,
            shift == block_index % n,
            n_others == others@.len(),
            n == n_others + selves@.len(),
            ordered == others@.map_values(|p: PeerLocation| p@) + selves@.map_values(|p: PeerLocation| p@),
            k <= n,
            out@.len() == k,
            forall|j: int| 0 <= j < k ==> #[trigger] out@[j]@ == ordered[(j + shift) % (n as int)],
        decreases n - k,
    {
        let pos = if k < n - shift { k + shift } else { k - (n - shift) };
        assert(pos == (k + shift) % (n as int)) by (nonlinear_arith)
            requires
                k < n,
                shift < n,
                pos == if k < n - shift { k + shift } else { k - (n - shift) },
        ;
        if pos < n_others {
            out.push(others[pos].copied());
        } else {
            out.push(selves[pos - n_others].copied());
        }
        k = k + 1;
    }
    assert(out@.map_values(|p: PeerLocation| p@) =~= spec_candidates(location@, block_index, self_node_id@));
    out
}

/// The location answered for a digest: the first one listed.
pub fn choose_location_by_hash(locations: Vec<FileLocation>) -> (r: Option<FileLocation>)
    ensures
        locations@.len() == 0 ==> r is None,
        locations@.len() > 0 ==> (r matches Some(l) && l@ == locations@[0]@),
{
    let mut locations = locations;
    if locations.len() == 0 {
        None
    } else {
        Some(locations.swap_remove(0))
    }
}

/// The location answered for a name: the only one listed; none or several
/// are refused.
pub fn choose_location_by_name(locations: Vec<FileLocation>) -> (r: Result<FileLocation, TransferError>)
    ensures
        locations@.len() == 0 ==> r matches Err(TransferError::NoMatch),
        locations@.len() == 1 ==> (r matches Ok(l) && l@ == locations@[0]@),
        locations@.len() > 1 ==> (r matches Err(TransferError::Ambiguous { count }) && count
            == locations@.len()),
{
    let mut locations = locations;
    let n = locations.len();
    if n == 0 {
        Err(TransferError::NoMatch)
    } else if n == 1 {
        Ok(locations.swap_remove(0))
    } else {
        Err(TransferError::Ambiguous { count: n })
    }
}

/// The end of a download: the fetched blocks joined in index order, the
/// result checked against the file's digest, and the place under `root`
/// where it is written. Each step runs only when the one before succeeded.
pub fn finish_download(
    blocks: Vec<(usize, Vec<u8>)>,
    file_hash: &String,
    root: &str,
    file_name: &str,
) -> (r: Result<(String, Vec<u8>), TransferError>)
    ensures
        match spec_join_blocks(blocks_view(blocks@)) {
            Err(k) => r matches Err(TransferError::NotContiguous { index }) && index == k,
            Ok(bytes) => if spec_hex(spec_sha256(bytes)) != file_hash@ {
                r matches Err(TransferError::FileHashMismatch { expected, actual }) && expected@
                    == file_hash@ && actual@ == spec_hex(spec_sha256(bytes))
            } else {
                match spec_safe_output_path(root@, file_name@) {
                    None => r matches Err(TransferError::UnsafeFileName),
                    Some(p) => r matches Ok((path, data)) && path@ == p && data@ == bytes,
                }
            },
        },
{
    let bytes = match join_blocks(blocks) {
        Ok(b) => b,
        Err(e) => {
            return Err(e);
        },
    };
    if let Err(e) = check_file_hash(bytes.as_slice(), file_hash) {
        return Err(e);
    }
    match safe_output_path(root, file_name) {
        Ok(path) => Ok((path, bytes)),
        Err(e) => Err(e),
    }
}

/// What fetching a block does next.
#[derive(Clone, Copy, Debug, PartialEq, Eq, Structural)]
pub enum FetchAction {
    /// Ask the candidate at this position in the list.
    Try { candidate: usize },
    /// Keep the block just fetched.
    Accept,
    /// Every candidate failed.
    GiveUp,
    /// No peer holds the block.
    NoCandidates,
}

/// Candidates are asked in list order until one hands over a block that
/// passes its check: nothing to ask when the list is empty, the first
/// candidate to start with, the block once one succeeds, the next candidate
/// after a failure, and giving up after the last has failed.
pub open spec fn spec_fetch_step(candidates: usize, last: Option<(usize, bool)>) -> FetchAction {
    match last {
        None => if candidates == 0 {
            FetchAction::NoCandidates
        } else {
            FetchAction::Try { candidate: 0 }
        },
        Some((i, ok)) => if ok {
            FetchAction::Accept
        } else if i + 1 < candidates {
            FetchAction::Try { candidate: (i + 1) as usize }
        } else {
            FetchAction::GiveUp
        },
    }
}

/// Every candidate is asked before a block is given up: the first
/// candidate is asked first, a failure at one that is not the last leads to
/// the one after it, giving up comes only after the last has failed, and a
/// block that passes its check is kept at once.
pub proof fn lemma_fetch_asks_every_candidate(candidates: usize, i: usize)
    ensures
        candidates > 0 ==> spec_fetch_step(candidates, None) == (FetchAction::Try { candidate: 0 }),
        candidates == 0 ==> spec_fetch_step(candidates, None) == FetchAction::NoCandidates,
        i + 1 < candidates ==> spec_fetch_step(candidates, Some((i, false))) == (FetchAction::Try {
            candidate: (i + 1) as usize,
        }),
        i + 1 == candidates ==> spec_fetch_step(candidates, Some((i, false))) == FetchAction::GiveUp,
        spec_fetch_step(candidates, Some((i, true))) == FetchAction::Accept,
        spec_fetch_step(candidates, Some((i, false))) == FetchAction::GiveUp ==> i + 1 >= candidates,
{
}

/// The next step in fetching a block from `candidates` peers, given the last
/// attempt (the candidate asked and whether its block passed), or `None`
/// before the first.
pub fn fetch_step(candidates: usize, last: Option<(usize, bool)>) -> (r: FetchAction)
    requires
        last matches Some((i, _)) ==> i < candidates,
    ensures
        r == spec_fetch_step(candidates, last),
        r matches FetchAction::Try { candidate } ==> candidate < candidates,
        last is None ==> (candidates == 0 ==> r == FetchAction::NoCandidates) && (candidates > 0
            ==> r == (FetchAction::Try { candidate: 0 })),
        last matches Some((i, ok)) ==> (ok ==> r == FetchAction::Accept) && (!ok && i + 1
            < candidates ==> r == (FetchAction::Try { candidate: (i + 1) as usize })) && (!ok && i
            + 1 == candidates ==> r == FetchAction::GiveUp),
{
    match last {
        None => if candidates == 0 {
            FetchAction::NoCandidates
        } else {
            FetchAction::Try { candidate: 0 }
        },
        Some((i, ok)) => if ok {
            FetchAction::Accept
        } else if i + 1 < candidates {
            FetchAction::Try { candidate: i + 1 }
        } else {
            FetchAction::GiveUp
        },
    }
}

/// The digest a peer announced for block `block_index`: that of the first
/// block it lists with that index.
pub open spec fn spec_expected_hash(blocks: Seq<TrackerBlockView>, block_index: usize) -> Option<
    Seq<char>,
>
    decreases blocks.len(),
{
    if blocks.len() == 0 {
        None
    } else if blocks[0].index == block_index {
        Some(blocks[0].hash)
    } else {
        spec_expected_hash(blocks.drop_first(), block_index)
    }
}

/// The digest expected of a block is the one the peer lists first for that
/// index; a peer that lists no block with that index gives none.
pub proof fn lemma_expected_hash_is_first(blocks: Seq<TrackerBlockView>, block_index: usize)
    ensures
        spec_expected_hash(blocks, block_index) matches Some(h) ==> exists|j: int|
            0 <= j < blocks.len() && blocks[j].index == block_index && blocks[j].hash == h && forall|
                k: int,
            | 0 <= k < j ==> (#[trigger] blocks[k]).index != block_index,
        spec_expected_hash(blocks, block_index) is None ==> forall|j: int|
            0 <= j < blocks.len() ==> (#[trigger] blocks[j]).index != block_index,
    decreases blocks.len(),
{
    if blocks.len() > 0 {
        let d = blocks.drop_first();
        lemma_expected_hash_is_first(d, block_index);
        if blocks[0].index != block_index {
            if let Some(h) = spec_expected_hash(d, block_index) {
                let j = choose|j: int|
                    0 <= j < d.len() && d[j].index == block_index && d[j].hash == h && forall|k: int|
                        0 <= k < j ==> (#[trigger] d[k]).index != block_index;
                assert(blocks[j + 1] == d[j]);
                assert forall|k: int| 0 <= k < j + 1 implies (#[trigger] blocks[k]).index != block_index by {
                    if k > 0 {
                        assert(blocks[k] == d[k - 1]);
                    }
                }
            } else {
                assert forall|j: int| 0 <= j < blocks.len() implies (#[trigger] blocks[j]).index
                    != block_index by {
                    if j > 0 {
                        assert(blocks[j] == d[j - 1]);
                    }
                }
            }
        }
    }
}

/// The digest the peer announced for block `block_index`, if it lists the
/// block.
pub fn expected_block_hash(peer: &PeerLocation, block_index: usize) -> (r: Option<String>)
    ensures
        match r {
            Some(h) => spec_expected_hash(peer@.blocks, block_index) == Some(h@),
            None => spec_expected_hash(peer@.blocks, block_index) is None,
        },
        r matches Some(h) ==> exists|j: int|
            0 <= j < peer@.blocks.len() && peer@.blocks[j].index == block_index && peer@.blocks[j].hash
                == h@ && forall|k: int|
                0 <= k < j ==> (#[trigger] peer@.blocks[k]).index != block_index,
        r is None ==> forall|j: int|
            0 <= j < peer@.blocks.len() ==> (#[trigger] peer@.blocks[j]).index != block_index,
{
    proof {
        lemma_expected_hash_is_first(peer@.blocks, block_index);
    }
    let ghost bs = peer@.blocks;
    let mut i: usize = 0;
    assert(bs.skip(0) =~= bs);
    while i < peer.blocks.len()
        invariant
            i <= peer.blocks@.len(),
            bs == peer@.blocks,
            spec_expected_hash(bs, block_index) == spec_expected_hash(bs.skip(i as int), block_index),
        decreases peer.blocks@.len() - i,
    {
        assert(bs.skip(i as int)[0] == peer.blocks@[i as int]@);
        if peer.blocks[i].index == block_index {
            proof {
                lemma_expected_hash_is_first(peer@.blocks, block_index);
            }
            return Some(peer.blocks[i].hash.clone());
        }
        assert(bs.skip(i as int).drop_first() =~= bs.skip(i + 1));
        i = i + 1;
    }
    None
}

/// Checks a fetched block against the digest its peer announced, when the
/// peer announced one.
pub fn check_block(block_index: usize, bytes: &[u8], expected: Option<String>) -> (r: Result<(), TransferError>)
    ensures
        match expected {
            None => r is Ok,
            Some(e) => if spec_hex(spec_sha256(bytes@)) == e@ {
                r is Ok
            } else {
                r matches Err(TransferError::BlockHashMismatch { block_index: i, expected: x, actual: a })
                    && i == block_index && x@ == e@ && a@ == spec_hex(spec_sha256(bytes@))
            },
        },
{
    match expected {
        None => Ok(()),
        Some(e) => {
            let actual = sha256_hex(bytes);
            if actual == e {
                Ok(())
            } else {
                Err(TransferError::BlockHashMismatch { block_index, expected: e, actual })
            }
        },
    }
}

/// Checks the joined file against its digest.
pub fn check_file_hash(bytes: &[u8], expected: &String) -> (r: Result<(), TransferError>)
    ensures
        spec_hex(spec_sha256(bytes@)) == expected@ ==> r is Ok,
        spec_hex(spec_sha256(bytes@)) != expected@ ==> (r matches Err(
            TransferError::FileHashMismatch { expected: x, actual: a },
        ) && x@ == expected@ && a@ == spec_hex(spec_sha256(bytes@))),
{
    let actual = sha256_hex(bytes);
    if actual == *expected {
        Ok(())
    } else {
        Err(TransferError::FileHashMismatch { expected: expected.clone(), actual })
    }
}

/// A download needs at least one available block.
pub fn check_available_blocks(location: &FileLocation) -> (r: Result<(), TransferError>)
    ensures
        location@.available_blocks.len() > 0 ==> r is Ok,
        location@.available_blocks.len() == 0 ==> r matches Err(TransferError::NoAvailableBlocks),
{
    if location.available_blocks.len() == 0 {
        Err(TransferError::NoAvailableBlocks)
    } else {
        Ok(())
    }
}

/// The line listing one tracker file: name, digest, peer count and number of
/// available blocks.
pub open spec fn spec_tracker_file_line(f: FileSummary) -> Seq<char> {
    f.file_name@ + " | "@ + f.file_hash@ + " | "@ + spec_decimal(f.peer_count as nat) + " | "@
        + spec_decimal(f.available_blocks@.len())
}

/// What `list` prints: a note when the tracker has no file, else a header and
/// one line per file.
pub open spec fn spec_tracker_file_lines(files: Seq<FileSummary>) -> Seq<Seq<char>> {
    if files.len() == 0 {
        seq!["Tracker has no files."@]
    } else {
        seq!["file_name | file_hash | peers | blocks"@] + files.map_values(
            |f: FileSummary| spec_tracker_file_line(f),
        )
    }
}

/// The lines `list` prints for the tracker's files.
pub fn tracker_file_lines(response: &FilesResponse) -> (r: Vec<String>)
    ensures
        r@.map_values(|s: String| s@) == spec_tracker_file_lines(response.files@),
{
    let mut out: Vec<String> = Vec::new();
    if response.files.len() == 0 {
        out.push(String::from_str("Tracker has no files."));
        assert(out@.map_values(|s: String| s@) =~= spec_tracker_file_lines(response.files@));
        return out;
    }
    out.push(String::from_str("file_name | file_hash | peers | blocks"));
    let sep = chars_of(" | ");
    let mut i: usize = 0;
    while i < response.files.len()
        invariant
            i <= response.files@.len(),
            response.files@.len() > 0,
            sep@ == " | "@,
            out@.len() == i + 1,
            out@[0]@ == "file_name | file_hash | peers | blocks"@,
            forall|j: int|
                0 <= j < i ==> #[trigger] out@[j + 1]@ == spec_tracker_file_line(response.files@[j]),
        decreases response.files@.len() - i,
    {
        let f = &response.files[i];
        let mut line = f.file_name.clone();
        push_chars(&mut line, sep.as_slice());
        push_chars(&mut line, chars_of(f.file_hash.as_str()).as_slice());
        push_chars(&mut line, sep.as_slice());
        push_decimal(&mut line, f.peer_count as u64);
        push_chars(&mut line, sep.as_slice());
        push_decimal(&mut line, f.available_blocks.len() as u64);
        assert(line@ =~= spec_tracker_file_line(*f));
        out.push(line);
        i = i + 1;
    }
    proof {
        let v = out@.map_values(|s: String| s@);
        let e = spec_tracker_file_lines(response.files@);
        assert(v.len() == e.len());
        assert forall|k: int| 0 <= k < v.len() implies v[k] == e[k] by {
            if k > 0 {
                assert(out@[(k - 1) + 1]@ == spec_tracker_file_line(response.files@[k - 1]));
            }
        }
        assert(v =~= e);
    }
    out
}

} // verus!

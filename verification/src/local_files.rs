//! The node's index of the files it shares: each file cut into fixed-size
//! blocks, with a SHA-256 digest of every block and of the whole file.
use vstd::prelude::*;
use vstd::string::*;
use crate::blocks::spec_content_digest;
use crate::digest::{sha256_hex, spec_hex, spec_sha256};
use vstd::utf8::{decode_utf8, encode_utf8, valid_utf8};
use crate::text::{chars_of, string_from_chars};
use crate::transfer::push_component;

verus! {

/// The block size used when the node configuration names none.
pub const DEFAULT_BLOCK_SIZE: usize = 512;

/// Every shared file, in path order.
#[derive(Clone, Debug)]
pub struct ResourceIndex {
    pub resources: Vec<FileResource>,
}

/// One shared file.
#[derive(Clone, Debug)]
pub struct FileResource {
    pub file_hash: String,
    pub file_name: String,
    pub file_size: u64,
    pub block_size: usize,
    pub blocks: Vec<BlockResource>,
}

/// One block of a shared file.
#[derive(Clone, Debug)]
pub struct BlockResource {
    pub index: usize,
    pub hash: String,
    pub size: usize,
}

/// A block as plain values.
pub struct BlockResourceView {
    pub index: usize,
    pub hash: Seq<char>,
    pub size: usize,
}

/// A shared file as plain values.
pub struct FileResourceView {
    pub file_hash: Seq<char>,
    pub file_name: Seq<char>,
    pub file_size: u64,
    pub block_size: usize,
    pub blocks: Seq<BlockResourceView>,
}

impl View for BlockResource {
    type V = BlockResourceView;

    open spec fn view(&self) -> BlockResourceView {
        BlockResourceView { index: self.index, hash: self.hash@, size: self.size }
    }
}

impl View for FileResource {
    type V = FileResourceView;

    open spec fn view(&self) -> FileResourceView {
        FileResourceView {
            file_hash: self.file_hash@,
            file_name: self.file_name@,
            file_size: self.file_size,
            block_size: self.block_size,
            blocks: self.blocks@.map_values(|b: BlockResource| b@),
        }
    }
}

impl View for ResourceIndex {
    type V = Seq<FileResourceView>;

    open spec fn view(&self) -> Seq<FileResourceView> {
        self.resources@.map_values(|r: FileResource| r@)
    }
}

/// A file read from the share directory: its path relative to the directory
/// as the operating system's bytes, its size, and what the successive reads
/// of the file returned, each read asking for one block.
#[derive(Clone, Debug)]
pub struct LocalFile {
    pub path: Vec<u8>,
    pub file_size: u64,
    pub reads: Vec<Vec<u8>>,
}

/// A file read from the share directory as plain values.
pub struct LocalFileView {
    pub path: Seq<u8>,
    pub file_size: u64,
    pub reads: Seq<Seq<u8>>,
}

/// Byte buffers as plain values.
pub open spec fn reads_view(v: Seq<Vec<u8>>) -> Seq<Seq<u8>> {
    v.map_values(|r: Vec<u8>| r@)
}

impl View for LocalFile {
    type V = LocalFileView;

    open spec fn view(&self) -> LocalFileView {
        LocalFileView {
            path: self.path@,
            file_size: self.file_size,
            reads: reads_view(self.reads@),
        }
    }
}

/// Local files as plain values.
pub open spec fn local_files_view(v: Seq<LocalFile>) -> Seq<LocalFileView> {
    v.map_values(|f: LocalFile| f@)
}

/// The path separator `/` as a byte.
pub open spec fn is_separator(b: u8) -> bool {
    b == 47u8
}

/// `a` comes before `b` in path order: component by component, each
/// component compared byte by byte, a prefix first. This is the same as
/// comparing the bytes with the separator `/` ranked before every other byte
/// and the others by value.
pub open spec fn path_less(a: Seq<u8>, b: Seq<u8>) -> bool
    decreases a.len(),
{
    if b.len() == 0 {
        false
    } else if a.len() == 0 {
        true
    } else if a[0] == b[0] {
        path_less(a.drop_first(), b.drop_first())
    } else if is_separator(a[0]) {
        true
    } else if is_separator(b[0]) {
        false
    } else {
        a[0] < b[0]
    }
}

/// Every file comes no later in path order than the ones after it.
pub open spec fn in_path_order(s: Seq<LocalFileView>) -> bool {
    forall|i: int, j: int| 0 <= i < j < s.len() ==> !path_less(#[trigger] s[j].path, #[trigger] s[i].path)
}

/// Path order is a strict order: never both ways.
pub proof fn lemma_path_less_asymmetric(a: Seq<u8>, b: Seq<u8>)
    ensures
        !(path_less(a, b) && path_less(b, a)),
    decreases a.len(),
{
    if a.len() > 0 && b.len() > 0 && a[0] == b[0] {
        lemma_path_less_asymmetric(a.drop_first(), b.drop_first());
    }
}

/// Path order is transitive.
pub proof fn lemma_path_less_transitive(a: Seq<u8>, b: Seq<u8>, c: Seq<u8>)
    requires
        path_less(a, b),
        path_less(b, c),
    ensures
        path_less(a, c),
    decreases a.len(),
{
    if a.len() > 0 && b.len() > 0 && c.len() > 0 && a[0] == b[0] && b[0] == c[0] {
        lemma_path_less_transitive(a.drop_first(), b.drop_first(), c.drop_first());
    }
}

/// Path order is total on distinct paths.
pub proof fn lemma_path_less_total(a: Seq<u8>, b: Seq<u8>)
    requires
        a != b,
    ensures
        path_less(a, b) || path_less(b, a),
    decreases a.len(),
{
    if a.len() > 0 && b.len() > 0 && a[0] == b[0] {
        if a.drop_first() == b.drop_first() {
            assert(a =~= seq![a[0]] + a.drop_first());
            assert(b =~= seq![b[0]] + b.drop_first());
        }
        lemma_path_less_total(a.drop_first(), b.drop_first());
    } else if a.len() == 0 && b.len() == 0 {
        assert(a =~= b);
    }
}

/// Path order decides at the first byte where two paths differ: a path that
/// ends there comes first, the separator `/` comes before any other byte,
/// and otherwise the smaller byte comes first.
pub proof fn lemma_path_order_at_first_difference(a: Seq<u8>, b: Seq<u8>, k: int)
    requires
        0 <= k <= a.len(),
        k <= b.len(),
        a.take(k) == b.take(k),
    ensures
        k == a.len() && k < b.len() ==> path_less(a, b),
        k == b.len() ==> !path_less(a, b),
        k < a.len() && k < b.len() && a[k] != b[k] ==> (path_less(a, b) <==> (a[k] == 47u8 || (b[k]
            != 47u8 && a[k] < b[k]))),
    decreases k,
{
    if k > 0 {
        assert(a[0] == a.take(k)[0] && b[0] == b.take(k)[0]);
        assert(a.drop_first().take(k - 1) =~= a.take(k).drop_first());
        assert(b.drop_first().take(k - 1) =~= b.take(k).drop_first());
        lemma_path_order_at_first_difference(a.drop_first(), b.drop_first(), k - 1);
        if k < a.len() {
            assert(a.drop_first()[k - 1] == a[k]);
        }
        if k < b.len() {
            assert(b.drop_first()[k - 1] == b[k]);
        }
    }
}

/// Not after in path order: before or equal.
proof fn lemma_not_less_is_le(a: Seq<u8>, b: Seq<u8>, c: Seq<u8>)
    requires
        !path_less(b, a),
        !path_less(c, b),
    ensures
        !path_less(c, a),
{
    if path_less(c, a) {
        if a == b {
        } else if b == c {
        } else {
            lemma_path_less_total(a, b);
            lemma_path_less_total(b, c);
            lemma_path_less_transitive(a, b, c);
            lemma_path_less_asymmetric(a, c);
        }
    }
}

/// Whether `a` comes before `b` in path order.
fn path_less_exec(a: &Vec<u8>, b: &Vec<u8>) -> (r: bool)
    ensures
        r == path_less(a@, b@),
{
    let mut i: usize = 0;
    assert(a@.skip(0) =~= a@);
    assert(b@.skip(0) =~= b@);
    while i <= a.len()
        invariant
            path_less(a@, b@) == path_less(a@.skip(i as int), b@.skip(i as int)),
            i <= a@.len(),
            i <= b@.len(),
        decreases a@.len() - i,
    {
        let ghost sa = a@.skip(i as int);
        let ghost sb = b@.skip(i as int);
        if i == b.len() {
            return false;
        }
        if i == a.len() {
            return true;
        }
        let ca = a[i];
        let cb = b[i];
        assert(sa[0] == ca && sb[0] == cb);
        if ca != cb {
            if ca == 47u8 {
                return true;
            }
            if cb == 47u8 {
                return false;
            }
            return ca < cb;
        }
        assert(sa.drop_first() =~= a@.skip(i + 1));
        assert(sb.drop_first() =~= b@.skip(i + 1));
        i = i + 1;
    }
    false
}

/// The files in path order. Files with the same path keep no particular
/// order among themselves.
pub fn sort_by_path(files: Vec<LocalFile>) -> (r: Vec<LocalFile>)
    ensures
        local_files_view(r@).to_multiset() == local_files_view(files@).to_multiset(),
        in_path_order(local_files_view(r@)),
{
    broadcast use vstd::seq_lib::group_to_multiset_ensures, vstd::multiset::group_multiset_axioms;
    let ghost all = local_files_view(files@);
    let mut rest = files;
    let mut out: Vec<LocalFile> = Vec::new();
    while rest.len() > 0
        invariant
            all.to_multiset() == local_files_view(out@).to_multiset().add(local_files_view(rest@).to_multiset()),
            in_path_order(local_files_view(out@)),
        decreases rest@.len(),
    {
        let ghost before_rest = rest@;
        let x = rest.pop().unwrap();
        proof {
            assert(before_rest =~= rest@.push(x));
            assert(local_files_view(before_rest) =~= local_files_view(rest@).push(x@));
        }
        // The first position whose path is not before x's.
        let mut pos: usize = 0;
        while pos < out.len() && path_less_exec(&out[pos].path, &x.path)
            invariant
                pos <= out@.len(),
                forall|k: int| 0 <= k < pos ==> path_less(#[trigger] out@[k].path@, x.path@),
            decreases out@.len() - pos,
        {
            pos = pos + 1;
        }
        let ghost old_out = local_files_view(out@);
        proof {
            assert forall|k: int| pos <= k < old_out.len() implies !path_less(#[trigger] old_out[k].path, x@.path) by {
                if pos < old_out.len() {
                    assert(!path_less(out@[pos as int].path@, x.path@));
                    assert(old_out[pos as int].path == out@[pos as int].path@);
                    if k > pos {
                        assert(!path_less(old_out[k].path, old_out[pos as int].path));
                        lemma_not_less_is_le(x@.path, old_out[pos as int].path, old_out[k].path);
                    }
                }
            }
            assert forall|k: int| 0 <= k < pos implies !path_less(x@.path, #[trigger] old_out[k].path) by {
                assert(old_out[k].path == out@[k].path@);
                lemma_path_less_asymmetric(x@.path, old_out[k].path);
            }
        }
        out.insert(pos, x);
        proof {
            let nv = local_files_view(out@);
            assert(nv =~= old_out.insert(pos as int, x@));
            assert forall|i: int, j: int| 0 <= i < j < nv.len() implies !path_less(#[trigger] nv[j].path, #[trigger] nv[i].path) by {
                if i < pos && j < pos {
                    assert(nv[i] == old_out[i] && nv[j] == old_out[j]);
                } else if i < pos && j == pos {
                } else if i < pos && j > pos {
                    assert(nv[i] == old_out[i] && nv[j] == old_out[j - 1]);
                } else if i == pos {
                    assert(nv[j] == old_out[j - 1]);
                } else {
                    assert(nv[i] == old_out[i - 1] && nv[j] == old_out[j - 1]);
                }
            }
            vstd::seq_lib::to_multiset_insert(old_out, pos as int, x@);
            vstd::seq_lib::to_multiset_build(local_files_view(rest@), x@);
            assert(nv.to_multiset() == old_out.to_multiset().insert(x@));
        }
    }
    proof {
        assert(local_files_view(rest@) =~= Seq::<LocalFileView>::empty());
    }
    out
}

/// No two files share a path.
pub open spec fn no_shared_paths(s: Seq<LocalFileView>) -> bool {
    forall|i: int, j: int|
        0 <= i < s.len() && 0 <= j < s.len() && i != j ==> #[trigger] s[i].path != #[trigger] s[j].path
}

/// Every path is valid UTF-8, and its text holds no `\\`.
pub open spec fn plain_names(s: Seq<LocalFileView>) -> bool {
    forall|i: int|
        0 <= i < s.len() ==> valid_utf8(#[trigger] s[i].path) && !decode_utf8(s[i].path).contains(
            '\\',
        )
}

/// Path order of two names: the order of their UTF-8 bytes as paths.
pub open spec fn name_less(a: Seq<char>, b: Seq<char>) -> bool {
    path_less(encode_utf8(a), encode_utf8(b))
}

/// A value at two positions is counted at least twice.
proof fn lemma_count_two(s: Seq<LocalFileView>, i: int, j: int)
    requires
        0 <= i < j < s.len(),
        s[i] == s[j],
    ensures
        s.to_multiset().count(s[i]) >= 2,
{
    broadcast use vstd::seq_lib::group_to_multiset_ensures, vstd::multiset::group_multiset_axioms;

    let t = s.remove(j);
    assert(t[i] == s[i]);
    assert(t.contains(s[i]));
    assert(t.to_multiset().count(s[i]) > 0);
}

/// A value counted at least twice stands at two positions.
proof fn lemma_two_positions(s: Seq<LocalFileView>, x: LocalFileView)
    requires
        s.to_multiset().count(x) >= 2,
    ensures
        exists|i: int, j: int| 0 <= i < j < s.len() && s[i] == x && s[j] == x,
{
    broadcast use vstd::seq_lib::group_to_multiset_ensures, vstd::multiset::group_multiset_axioms;

    assert(s.contains(x));
    let p = choose|p: int| 0 <= p < s.len() && s[p] == x;
    let t = s.remove(p);
    assert(t.to_multiset().count(x) > 0);
    assert(t.contains(x));
    let r = choose|r: int| 0 <= r < t.len() && t[r] == x;
    if r < p {
        assert(s[r] == x);
        assert(0 <= r < p < s.len() && s[r] == x && s[p] == x);
    } else {
        assert(s[r + 1] == t[r]);
        assert(0 <= p < r + 1 < s.len() && s[p] == x && s[r + 1] == x);
    }
}

/// Rearranging the files keeps their paths distinct and their names plain.
proof fn lemma_paths_kept(a: Seq<LocalFileView>, b: Seq<LocalFileView>)
    requires
        a.to_multiset() == b.to_multiset(),
        no_shared_paths(a),
    ensures
        no_shared_paths(b),
        plain_names(a) ==> plain_names(b),
{
    broadcast use vstd::seq_lib::group_to_multiset_ensures, vstd::multiset::group_multiset_axioms;

    assert forall|i: int, j: int| 0 <= i < b.len() && 0 <= j < b.len() && i != j implies #[trigger] b[i].path
        != #[trigger] b[j].path by {
        if b[i].path == b[j].path {
            let x = b[i];
            let y = b[j];
            assert(b.contains(x) && b.contains(y));
            assert(a.to_multiset().count(x) > 0 && a.to_multiset().count(y) > 0);
            assert(a.contains(x) && a.contains(y));
            let p = choose|p: int| 0 <= p < a.len() && a[p] == x;
            let q = choose|q: int| 0 <= q < a.len() && a[q] == y;
            if p == q {
                if i < j {
                    lemma_count_two(b, i, j);
                } else {
                    lemma_count_two(b, j, i);
                }
                lemma_two_positions(a, x);
                let (u, v) = choose|u: int, v: int| 0 <= u < v < a.len() && a[u] == x && a[v] == x;
                assert(a[u].path == a[v].path);
            } else {
                assert(a[p].path == a[q].path);
            }
        }
    }
    if plain_names(a) {
        assert forall|i: int| 0 <= i < b.len() implies valid_utf8(#[trigger] b[i].path)
            && !decode_utf8(b[i].path).contains('\\') by {
            assert(b.contains(b[i]));
            assert(a.to_multiset().count(b[i]) > 0);
            assert(a.contains(b[i]));
            let p = choose|p: int| 0 <= p < a.len() && a[p] == b[i];
        }
    }
}

/// A name without `\\` is reported as it is.
proof fn lemma_plain_index_name(n: Seq<char>)
    requires
        !n.contains('\\'),
    ensures
        spec_index_name(n) == n,
{
    assert forall|k: int| 0 <= k < n.len() implies spec_index_name(n)[k] == n[k] by {
        if n[k] == '\\' {
            assert(n.contains(n[k]));
        }
    }
    assert(spec_index_name(n) =~= n);
}

/// Why the share directory could not be indexed.
#[derive(Debug, Clone, Copy, PartialEq, Eq, Structural)]
pub enum ScanError {
    /// The block size is zero.
    ZeroBlockSize,
}

/// The share directory next to the node's sources: `<manifest_dir>/../file`.
pub fn default_share_dir(manifest_dir: &str) -> (r: String)
    ensures
        r@ == push_component(push_component(manifest_dir@, ".."@), "file"@),
{
    let mut out = chars_of(manifest_dir);
    let dotdot = chars_of("..");
    let file = chars_of("file");
    let ghost p0 = out@;
    if out.len() > 0 && out[out.len() - 1] != '/' {
        out.push('/');
    }
    let mut i: usize = 0;
    let ghost before = out@;
    while i < dotdot.len()
        invariant
            i <= dotdot@.len(),
            out@ == before + dotdot@.take(i as int),
        decreases dotdot@.len() - i,
    {
        out.push(dotdot[i]);
        i = i + 1;
        assert(out@ =~= before + dotdot@.take(i as int));
    }
    assert(dotdot@.take(i as int) =~= dotdot@);
    assert(out@ =~= push_component(p0, ".."@));
    let ghost p1 = out@;
    out.push('/');
    let ghost before2 = out@;
    let mut j: usize = 0;
    while j < file.len()
        invariant
            j <= file@.len(),
            out@ == before2 + file@.take(j as int),
        decreases file@.len() - j,
    {
        out.push(file[j]);
        j = j + 1;
        assert(out@ =~= before2 + file@.take(j as int));
    }
    assert(file@.take(j as int) =~= file@);
    proof {
        reveal_strlit("..");
        assert(p1.len() > 0 && p1.last() == '.');
    }
    assert(out@ =~= push_component(p1, "file"@));
    string_from_chars(out.as_slice())
}

/// The file name as the index reports it: every `\\` turned into `/`.
pub open spec fn spec_index_name(path: Seq<char>) -> Seq<char> {
    path.map_values(|c: char| if c == '\\' { '/' } else { c })
}

/// How many reads, from the first, returned some bytes: the index stops at
/// the first read that returned nothing, the end of the file.
pub open spec fn leading_reads(reads: Seq<Seq<u8>>) -> nat
    decreases reads.len(),
{
    if reads.len() == 0 || reads[0].len() == 0 {
        0
    } else {
        1 + leading_reads(reads.drop_first())
    }
}

/// No more reads lead than there are.
proof fn lemma_leading_bound(reads: Seq<Seq<u8>>)
    ensures
        leading_reads(reads) <= reads.len(),
    decreases reads.len(),
{
    if reads.len() > 0 {
        lemma_leading_bound(reads.drop_first());
    }
}

/// The reads that make up the file: those before the first empty one.
pub open spec fn file_reads(reads: Seq<Seq<u8>>) -> Seq<Seq<u8>> {
    reads.take(leading_reads(reads) as int)
}

/// The bytes of the reads, one after another.
pub open spec fn concat_reads(reads: Seq<Seq<u8>>) -> Seq<u8>
    decreases reads.len(),
{
    if reads.len() == 0 {
        Seq::empty()
    } else {
        concat_reads(reads.drop_last()) + reads.last()
    }
}

/// The index entry of a file: the digest of all its bytes, its path read as
/// text with `\\` turned into `/`, its size, and one block per read that returned
/// bytes, with that read's digest and length.
pub open spec fn spec_file_resource(
    path: Seq<u8>,
    file_size: u64,
    reads: Seq<Seq<u8>>,
    block_size: usize,
) -> FileResourceView {
    let rs = file_reads(reads);
    FileResourceView {
        file_hash: spec_content_digest(concat_reads(rs)),
        file_name: spec_index_name(spec_lossy_utf8(path)),
        file_size,
        block_size,
        blocks: Seq::new(
            rs.len(),
            |k: int|
                BlockResourceView {
                    index: k as usize,
                    hash: spec_hex(spec_sha256(rs[k])),
                    size: rs[k].len() as usize,
                },
        ),
    }
}

/// The total size of the blocks.
pub open spec fn total_block_size(blocks: Seq<BlockResourceView>) -> nat
    decreases blocks.len(),
{
    if blocks.len() == 0 {
        0
    } else {
        total_block_size(blocks.drop_last()) + (blocks.last().size as nat)
    }
}

/// Every read fits in memory, as the contents of a vector do.
pub open spec fn reads_fit(reads: Seq<Seq<u8>>) -> bool {
    forall|k: int| 0 <= k < reads.len() ==> #[trigger] reads[k].len() <= usize::MAX
}

/// The leading reads are the ones before the first empty read.
proof fn lemma_leading_reads(reads: Seq<Seq<u8>>, i: int)
    requires
        0 <= i <= reads.len(),
        forall|j: int| 0 <= j < i ==> #[trigger] reads[j].len() > 0,
        i == reads.len() || reads[i].len() == 0,
    ensures
        leading_reads(reads) == i,
    decreases i,
{
    if i > 0 {
        let d = reads.drop_first();
        assert forall|j: int| 0 <= j < i - 1 implies #[trigger] d[j].len() > 0 by {
            assert(d[j] == reads[j + 1]);
        }
        if i < reads.len() {
            assert(d[i - 1] == reads[i]);
        }
        lemma_leading_reads(d, i - 1);
    }
}

/// The reads before `m`, one after another, begin the bytes of all reads.
proof fn lemma_concat_prefix(rs: Seq<Seq<u8>>, m: int)
    requires
        0 <= m <= rs.len(),
    ensures
        concat_reads(rs.take(m)).is_prefix_of(concat_reads(rs)),
    decreases rs.len(),
{
    if m == rs.len() {
        assert(rs.take(m) =~= rs);
    } else {
        assert(rs.drop_last().take(m) =~= rs.take(m));
        lemma_concat_prefix(rs.drop_last(), m);
    }
}

/// The blocks before `m` add up to the bytes of the reads before `m`.
proof fn lemma_prefix_sizes(path: Seq<u8>, file_size: u64, reads: Seq<Seq<u8>>, block_size: usize, m: int)
    requires
        0 <= m <= file_reads(reads).len(),
        reads_fit(reads),
    ensures
        total_block_size(spec_file_resource(path, file_size, reads, block_size).blocks.take(m))
            == concat_reads(file_reads(reads).take(m)).len(),
    decreases m,
{
    let rs = file_reads(reads);
    let blocks = spec_file_resource(path, file_size, reads, block_size).blocks;
    lemma_leading_bound(reads);
    if m > 0 {
        assert(rs[m - 1] == reads[m - 1]);
        assert(blocks[m - 1].size as int == rs[m - 1].len());
    }
    if m == 0 {
        assert(blocks.take(0) =~= Seq::<BlockResourceView>::empty());
        assert(rs.take(0) =~= Seq::<Seq<u8>>::empty());
    } else {
        lemma_prefix_sizes(path, file_size, reads, block_size, m - 1);
        assert(blocks.take(m).drop_last() =~= blocks.take(m - 1));
        assert(rs.take(m).drop_last() =~= rs.take(m - 1));
        assert(rs.take(m).last() == rs[m - 1]);
        assert(blocks.take(m).last() == blocks[m - 1]);
    }
}

/// The blocks of an indexed file cover its bytes exactly and in order: their
/// sizes add up to the length of what was read, block `k` is the stretch of
/// those bytes after the blocks before it, and its digest is the digest of
/// that stretch. The file's digest is the digest of all of it.
pub proof fn lemma_blocks_cover_file(path: Seq<u8>, file_size: u64, reads: Seq<Seq<u8>>, block_size: usize)
    requires
        reads_fit(reads),
    ensures
        ({
            let r = spec_file_resource(path, file_size, reads, block_size);
            let bytes = concat_reads(file_reads(reads));
            &&& total_block_size(r.blocks) == bytes.len()
            &&& r.file_hash == spec_content_digest(bytes)
            &&& forall|k: int|
                0 <= k < r.blocks.len() ==> {
                    let o = total_block_size(#[trigger] r.blocks.take(k));
                    &&& o + r.blocks[k].size <= bytes.len()
                    &&& r.blocks[k].hash == spec_hex(
                        spec_sha256(bytes.subrange(o as int, o + r.blocks[k].size)),
                    )
                }
        }),
{
    let r = spec_file_resource(path, file_size, reads, block_size);
    let rs = file_reads(reads);
    let bytes = concat_reads(rs);
    let n = rs.len() as int;
    lemma_leading_bound(reads);
    lemma_prefix_sizes(path, file_size, reads, block_size, n);
    assert(r.blocks.take(n) =~= r.blocks);
    assert(rs.take(n) =~= rs);
    assert forall|k: int| 0 <= k < r.blocks.len() implies {
        let o = total_block_size(#[trigger] r.blocks.take(k));
        &&& o + r.blocks[k].size <= bytes.len()
        &&& r.blocks[k].hash == spec_hex(spec_sha256(bytes.subrange(o as int, o + r.blocks[k].size)))
    } by {
        let o = total_block_size(r.blocks.take(k));
        lemma_prefix_sizes(path, file_size, reads, block_size, k);
        lemma_concat_prefix(rs, k + 1);
        assert(rs.take(k + 1).drop_last() =~= rs.take(k));
        assert(rs.take(k + 1).last() == rs[k]);
        let pre = concat_reads(rs.take(k + 1));
        assert(pre == concat_reads(rs.take(k)) + rs[k]);
        assert(rs[k] == reads[k]);
        assert(r.blocks[k].size as int == rs[k].len());
        assert(pre.len() <= bytes.len());
        assert(bytes.subrange(o as int, o + r.blocks[k].size) =~= rs[k]) by {
            assert forall|j: int| 0 <= j < rs[k].len() implies bytes[o + j] == rs[k][j] by {
                assert(bytes[o + j] == pre[o + j]);
            }
        }
    }
}

/// What `String::from_utf8_lossy` makes of these bytes.
pub uninterp spec fn spec_lossy_utf8(bytes: Seq<u8>) -> Seq<char>;

/// Calls `String::from_utf8_lossy` and takes the text it returns. Claims that
/// the text depends on the bytes alone and, as the documentation of the call
/// says, that valid UTF-8 comes back unchanged. What replaces invalid
/// sequences is left unsaid.
#[verifier::external_body]
fn lossy_text(bytes: &[u8]) -> (r: String)
    ensures
        r@ == spec_lossy_utf8(bytes@),
        valid_utf8(bytes@) ==> r@ == decode_utf8(bytes@),
{
    String::from_utf8_lossy(bytes).into_owned()
}

/// Indexes one file from what its reads returned: its digest, its name (its
/// path read as text), its size, and one block per read up to the first empty
/// one, with the read's digest and length. Every digest is 64 hexadecimal
/// digits.
pub fn index_file(path: &[u8], file_size: u64, reads: &Vec<Vec<u8>>, block_size: usize) -> (r: FileResource)
    ensures
        r@ == spec_file_resource(path@, file_size, reads_view(reads@), block_size),
        valid_utf8(path@) ==> r@.file_name == spec_index_name(decode_utf8(path@)),
        r.file_size == file_size && r.block_size == block_size,
        r@.blocks.len() <= reads@.len(),
        r@.blocks.len() < reads@.len() ==> reads@[r@.blocks.len() as int]@.len() == 0,
        forall|k: int|
            0 <= k < r@.blocks.len() ==> (#[trigger] r@.blocks[k]).index == k && r@.blocks[k].size
                == reads@[k]@.len() && reads@[k]@.len() > 0 && r@.blocks[k].hash == spec_hex(
                spec_sha256(reads@[k]@),
            ),
        r@.file_hash == spec_hex(spec_sha256(concat_reads(reads_view(reads@).take(r@.blocks.len() as int)))),
        r@.file_hash.len() == 64,
        forall|k: int| 0 <= k < r@.blocks.len() ==> (#[trigger] r@.blocks[k]).hash.len() == 64,
{
    let text = lossy_text(path);
    let name_chars = chars_of(text.as_str());
    let mut fixed: Vec<char> = Vec::new();
    let mut i: usize = 0;
    while i < name_chars.len()
        invariant
            i <= name_chars@.len(),
            fixed@ == spec_index_name(name_chars@).take(i as int),
        decreases name_chars@.len() - i,
    {
        let c = name_chars[i];
        fixed.push(if c == '\\' { '/' } else { c });
        i = i + 1;
        assert(fixed@ =~= spec_index_name(name_chars@).take(i as int));
    }
    assert(spec_index_name(name_chars@).take(i as int) =~= spec_index_name(text@));
    let ghost rv = reads_view(reads@);
    let mut blocks: Vec<BlockResource> = Vec::new();
    let mut all: Vec<u8> = Vec::new();
    let mut k: usize = 0;
    while k < reads.len() && reads[k].len() > 0
        invariant
            rv == reads_view(reads@),
            k <= reads@.len(),
            blocks@.len() == k,
            forall|j: int| 0 <= j < k ==> #[trigger] rv[j].len() > 0,
            all@ == concat_reads(rv.take(k as int)),
            forall|j: int|
                0 <= j < k ==> #[trigger] blocks@[j]@ == (BlockResourceView {
                    index: j as usize,
                    hash: spec_hex(spec_sha256(rv[j])),
                    size: rv[j].len() as usize,
                }),
            forall|j: int| 0 <= j < k ==> (#[trigger] blocks@[j]@).hash.len() == 64,
            forall|j: int|
                0 <= j < k ==> (#[trigger] blocks@[j]).index == j && blocks@[j].size == reads@[j]@.len(),
        decreases reads@.len() - k,
    {
        let chunk = &reads[k];
        assert(rv[k as int] == chunk@);
        let hash = sha256_hex(chunk.as_slice());
        blocks.push(BlockResource { index: k, hash, size: chunk.len() });
        let ghost before = all@;
        all.extend_from_slice(chunk.as_slice());
        proof {
            assert(rv.take(k + 1).drop_last() =~= rv.take(k as int));
            assert(rv.take(k + 1).last() == rv[k as int]);
        }
        k = k + 1;
    }
    proof {
        lemma_leading_reads(rv, k as int);
    }
    let file_hash = sha256_hex(all.as_slice());
    let r = FileResource {
        file_hash,
        file_name: string_from_chars(fixed.as_slice()),
        file_size,
        block_size,
        blocks,
    };
    assert(r@.blocks =~= spec_file_resource(path@, file_size, rv, block_size).blocks);
    assert forall|j: int| 0 <= j < r@.blocks.len() implies (#[trigger] r@.blocks[j]).index == j
        && r@.blocks[j].size == reads@[j]@.len() && reads@[j]@.len() > 0 && r@.blocks[j].hash
        == spec_hex(spec_sha256(reads@[j]@)) by {
        assert(r@.blocks[j] == r.blocks@[j]@);
        assert(rv[j] == reads@[j]@);
    }
    r
}

/// Refuses a zero block size.
pub fn check_block_size(block_size: usize) -> (r: Result<(), ScanError>)
    ensures
        block_size > 0 <==> r is Ok,
        block_size == 0 ==> r == Err::<(), ScanError>(ScanError::ZeroBlockSize),
{
    if block_size == 0 {
        Err(ScanError::ZeroBlockSize)
    } else {
        Ok(())
    }
}

/// The index of the files read from the share directory: the files in path
/// order, each indexed from its reads. A zero block size is refused.
pub fn scan_share_dir(files: Vec<LocalFile>, block_size: usize) -> (r: Result<ResourceIndex, ScanError>)
    ensures
        block_size == 0 ==> r == Err::<ResourceIndex, ScanError>(ScanError::ZeroBlockSize),
        block_size > 0 ==> (r matches Ok(index) && exists|sorted: Seq<LocalFileView>|
            #![trigger in_path_order(sorted)]
            sorted.to_multiset() == local_files_view(files@).to_multiset() && in_path_order(sorted)
                && index@ == sorted.map_values(
                |f: LocalFileView| spec_file_resource(f.path, f.file_size, f.reads, block_size),
            )),
        block_size > 0 && no_shared_paths(local_files_view(files@)) && plain_names(
            local_files_view(files@),
        ) ==> (r matches Ok(index) && forall|i: int, j: int|
            0 <= i < j < index@.len() ==> name_less(
                #[trigger] index@[i].file_name,
                #[trigger] index@[j].file_name,
            )),
{
    if let Err(e) = check_block_size(block_size) {
        return Err(e);
    }
    let sorted = sort_by_path(files);
    let mut resources: Vec<FileResource> = Vec::new();
    let mut i: usize = 0;
    while i < sorted.len()
        invariant
            block_size > 0,
            i <= sorted@.len(),
            resources@.len() == i,
            forall|j: int|
                0 <= j < i ==> #[trigger] resources@[j]@ == spec_file_resource(
                    sorted@[j].path@,
                    sorted@[j].file_size,
                    reads_view(sorted@[j].reads@),
                    block_size,
                ),
            forall|j: int|
                0 <= j < i ==> valid_utf8(sorted@[j].path@) ==> (#[trigger] resources@[j]@).file_name
                    == spec_index_name(decode_utf8(sorted@[j].path@)),
        decreases sorted@.len() - i,
    {
        let f = &sorted[i];
        resources.push(index_file(f.path.as_slice(), f.file_size, &f.reads, block_size));
        i = i + 1;
    }
    let index = ResourceIndex { resources };
    proof {
        let sv = local_files_view(sorted@);
        assert(index@ =~= sv.map_values(
            |f: LocalFileView| spec_file_resource(f.path, f.file_size, f.reads, block_size),
        ));
        assert(in_path_order(sv));
        let fv = local_files_view(files@);
        if no_shared_paths(fv) && plain_names(fv) {
            lemma_paths_kept(fv, sv);
            assert forall|i: int, j: int| 0 <= i < j < index@.len() implies name_less(
                #[trigger] index@[i].file_name,
                #[trigger] index@[j].file_name,
            ) by {
                assert(sv[i] == sorted@[i]@ && sv[j] == sorted@[j]@);
                assert(valid_utf8(sv[i].path) && !decode_utf8(sv[i].path).contains('\\'));
                assert(valid_utf8(sv[j].path) && !decode_utf8(sv[j].path).contains('\\'));
                assert(index@[i] == index.resources@[i]@ && index@[j] == index.resources@[j]@);
                lemma_plain_index_name(decode_utf8(sv[i].path));
                lemma_plain_index_name(decode_utf8(sv[j].path));
                vstd::utf8::decode_utf8_encode_utf8(sv[i].path);
                vstd::utf8::decode_utf8_encode_utf8(sv[j].path);
                assert(!path_less(sv[j].path, sv[i].path));
                lemma_path_less_total(sv[i].path, sv[j].path);
            }
        }
    }
    Ok(index)
}

/// Where a block of a shared file lies.
#[derive(Clone, Debug)]
pub struct LocalBlock {
    pub file_name: String,
    pub offset: u64,
    pub length: usize,
}

/// The first shared file with digest `file_hash`.
pub open spec fn first_with_digest(index: Seq<FileResourceView>, file_hash: Seq<char>) -> Option<int>
    decreases index.len(),
{
    if index.len() == 0 {
        None
    } else if index[0].file_hash == file_hash {
        Some(0)
    } else {
        match first_with_digest(index.drop_first(), file_hash) {
            Some(i) => Some(i + 1),
            None => None,
        }
    }
}

/// Partial sums of block sizes never decrease.
proof fn lemma_total_monotone(blocks: Seq<BlockResourceView>, a: int, b: int)
    requires
        0 <= a <= b <= blocks.len(),
    ensures
        total_block_size(blocks.take(a)) <= total_block_size(blocks.take(b)),
    decreases b - a,
{
    if a < b {
        lemma_total_monotone(blocks, a, b - 1);
        assert(blocks.take(b).drop_last() =~= blocks.take(b - 1));
    }
}

/// The sizes of the blocks before `block_index` added up, or `None` when the
/// sum does not fit in 64 bits.
fn block_offset(blocks: &Vec<BlockResource>, block_index: usize) -> (r: Option<u64>)
    requires
        block_index <= blocks@.len(),
    ensures
        ({
            let bv = blocks@.map_values(|b: BlockResource| b@);
            match r {
                Some(o) => o == total_block_size(bv.take(block_index as int)),
                None => total_block_size(bv.take(block_index as int)) > u64::MAX,
            }
        }),
{
    let ghost bv = blocks@.map_values(|b: BlockResource| b@);
    let mut offset: u64 = 0;
    let mut j: usize = 0;
    assert(bv.take(0) =~= Seq::<BlockResourceView>::empty());
    while j < block_index
        invariant
            j <= block_index <= blocks@.len(),
            bv == blocks@.map_values(|b: BlockResource| b@),
            offset == total_block_size(bv.take(j as int)),
        decreases block_index - j,
    {
        assert(bv.take(j + 1).drop_last() =~= bv.take(j as int));
        assert(bv.take(j + 1).last() == bv[j as int]);
        match offset.checked_add(blocks[j].size as u64) {
            Some(o) => {
                offset = o;
            },
            None => {
                proof {
                    assert(total_block_size(bv.take(j + 1)) > u64::MAX);
                    lemma_total_monotone(bv, j + 1, block_index as int);
                }
                return None;
            },
        }
        j = j + 1;
    }
    Some(offset)
}

/// Where block `block_index` of the shared file with digest `file_hash` lies:
/// the file's name, the block's offset (the sizes of the blocks before it
/// added up) and its size.
pub fn find_local_block(index: &ResourceIndex, file_hash: &str, block_index: usize) -> (r: Option<LocalBlock>)
    ensures
        match first_with_digest(index@, file_hash@) {
            None => r is None,
            Some(i) => if block_index < index@[i].blocks.len() && total_block_size(
                index@[i].blocks.take(block_index as int),
            ) <= u64::MAX {
                r matches Some(b) && b.file_name@ == index@[i].file_name && b.offset
                    == total_block_size(index@[i].blocks.take(block_index as int)) && b.length
                    == index@[i].blocks[block_index as int].size
            } else {
                r is None
            },
        },
{
    let wanted = String::from_str(file_hash);
    let ghost v = index@;
    let mut i: usize = 0;
    assert(v.skip(0) =~= v);
    while i < index.resources.len()
        invariant
            i <= index.resources@.len(),
            v == index@,
            wanted@ == file_hash@,
            first_with_digest(v, file_hash@) == match first_with_digest(v.skip(i as int), file_hash@) {
                Some(j) => Some(j + i),
                None => None::<int>,
            },
        decreases index.resources@.len() - i,
    {
        let res = &index.resources[i];
        assert(v.skip(i as int)[0] == res@);
        if res.file_hash == wanted {
            if block_index < res.blocks.len() {
                let offset = match block_offset(&res.blocks, block_index) {
                    Some(o) => o,
                    None => {
                        return None;
                    },
                };
                assert(res.blocks@[block_index as int]@ == res@.blocks[block_index as int]);
                return Some(LocalBlock {
                    file_name: res.file_name.clone(),
                    offset,
                    length: res.blocks[block_index].size,
                });
            }
            return None;
        }
        assert(v.skip(i as int).drop_first() =~= v.skip(i + 1));
        i = i + 1;
    }
    None
}

} // verus!

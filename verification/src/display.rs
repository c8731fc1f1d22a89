//! Human-readable sizes for listings: binary units and thousands separators.
use vstd::prelude::*;
use thousands::Separable;
use crate::models::{block_count, spec_block_count};
use crate::text::{chars_of, push_chars, spec_decimal, spec_group_thousands, u64_to_decimal};

verus! {

/// How `bytesize` renders a size in binary units, such as `1.5 KiB`.
pub uninterp spec fn spec_bytesize_iec(size: u64) -> Seq<char>;

/// Calls `bytesize::ByteSize::b(size).display().iec().to_string()`. Claims
/// that the text depends on the size alone, and, as its source shows, that a
/// size below 1024 is written as its decimal digits followed by ` B`.
#[verifier::external_body]
fn bytesize_iec(size: u64) -> (r: String)
    ensures
        r@ == spec_bytesize_iec(size),
        size < 1024 ==> r@ == spec_decimal(size as nat) + " B"@,
{
    bytesize::ByteSize::b(size).display().iec().to_string()
}

/// Calls `thousands::Separable::separate_with_commas`. Claims what its source
/// shows: the decimal digits with a comma before every group of three
/// digits counted from the right.
#[verifier::external_body]
fn separate_with_commas(n: u64) -> (r: String)
    ensures
        r@ == spec_group_thousands(spec_decimal(n as nat)),
{
    n.separate_with_commas()
}

/// How a file size is listed: in binary units with the exact byte count from
/// 1024 bytes on, as plain digits below.
pub open spec fn spec_size_summary(size: u64) -> Seq<char> {
    if size >= 1024 {
        spec_bytesize_iec(size) + " ("@ + spec_group_thousands(spec_decimal(size as nat)) + " bytes)"@
    } else {
        spec_decimal(size as nat)
    }
}

/// How a block size is listed: in binary units, with the number of blocks
/// of the file.
pub open spec fn spec_block_size_summary(block_size: u64, file_size: u64) -> Seq<char> {
    spec_bytesize_iec(block_size) + " ("@ + spec_decimal(
        spec_block_count(file_size as nat, block_size as nat),
    ) + " blocks)"@
}

/// How the progress view shows a file size: binary units and the exact byte
/// count.
pub open spec fn spec_size_with_bytes(size: u64) -> Seq<char> {
    spec_bytesize_iec(size) + " ("@ + spec_group_thousands(spec_decimal(size as nat)) + " bytes)"@
}

/// How the progress view shows a block size: binary units and the number of
/// blocks with thousands separators.
pub open spec fn spec_block_size_with_blocks(block_size: u64, file_size: u64) -> Seq<char> {
    spec_bytesize_iec(block_size) + " ("@ + spec_group_thousands(
        spec_decimal(spec_block_count(file_size as nat, block_size as nat)),
    ) + " blocks)"@
}

/// Binary units, then the exact byte count in brackets.
pub fn size_with_bytes(size: u64) -> (r: String)
    ensures
        r@ == spec_size_with_bytes(size),
{
    let mut out = bytesize_iec(size);
    push_chars(&mut out, chars_of(" (").as_slice());
    push_chars(&mut out, chars_of(separate_with_commas(size).as_str()).as_slice());
    push_chars(&mut out, chars_of(" bytes)").as_slice());
    out
}

/// The size of a file as listed.
pub fn size_summary(size: u64) -> (r: String)
    ensures
        r@ == spec_size_summary(size),
{
    if size >= 1024 {
        size_with_bytes(size)
    } else {
        u64_to_decimal(size)
    }
}

/// The block size of a file as listed, with the number of blocks.
pub fn block_size_summary(block_size: u64, file_size: u64) -> (r: String)
    requires
        block_size > 0,
    ensures
        r@ == spec_block_size_summary(block_size, file_size),
{
    let mut out = bytesize_iec(block_size);
    push_chars(&mut out, chars_of(" (").as_slice());
    let n = block_count(file_size, block_size);
    push_chars(&mut out, chars_of(u64_to_decimal(n).as_str()).as_slice());
    push_chars(&mut out, chars_of(" blocks)").as_slice());
    out
}

/// The block size of a file as the progress view shows it.
pub fn block_size_with_blocks(block_size: u64, file_size: u64) -> (r: String)
    requires
        block_size > 0,
    ensures
        r@ == spec_block_size_with_blocks(block_size, file_size),
{
    let mut out = bytesize_iec(block_size);
    push_chars(&mut out, chars_of(" (").as_slice());
    let n = block_count(file_size, block_size);
    push_chars(&mut out, chars_of(separate_with_commas(n).as_str()).as_slice());
    push_chars(&mut out, chars_of(" blocks)").as_slice());
    out
}

} // verus!

//! Node identifiers: a digest of the node's port, the time and random bytes.
use vstd::prelude::*;
use vstd::string::*;
use rand::RngCore;
use crate::digest::{sha256_hex, spec_hex, spec_sha256};
use crate::clock::now_timestamp_micros;
use crate::text::{chars_of, push_chars, push_decimal, spec_decimal, spec_signed_decimal};

verus! {

/// Calls `rand::rng().fill_bytes` on a 16-byte buffer. Nothing is claimed of
/// the bytes.
#[verifier::external_body]
fn random_bytes() -> [u8; 16] {
    let mut random = [0u8; 16];
    rand::rng().fill_bytes(&mut random);
    random
}

/// The bytes of an ASCII text.
pub open spec fn ascii_bytes(s: Seq<char>) -> Seq<u8> {
    s.map_values(|c: char| c as u8)
}

/// The text that seeds an identifier: the port, a dash and the time.
pub open spec fn spec_raw_id(port: u16, timestamp_us: i64) -> Seq<char> {
    spec_decimal(port as nat) + "-"@ + spec_signed_decimal(timestamp_us as int)
}

/// The identifier made from a port, a time and random bytes: `node_` and the
/// first 16 hexadecimal digits of the SHA-256 digest of the seed text
/// followed by the random bytes.
pub open spec fn spec_node_id(port: u16, timestamp_us: i64, random: Seq<u8>) -> Seq<char> {
    "node_"@ + spec_hex(spec_sha256(ascii_bytes(spec_raw_id(port, timestamp_us)) + random)).take(
        16,
    )
}

/// The identifier made from a port, a time and random bytes.
pub fn node_id_from_parts(port: u16, timestamp_us: i64, random: &[u8]) -> (r: String)
    ensures
        r@ == spec_node_id(port, timestamp_us, random@),
        r@.len() == 21,
        r@.take(5) == "node_"@,
{
    let mut raw = String::new();
    push_decimal(&mut raw, port as u64);
    push_chars(&mut raw, chars_of("-").as_slice());
    raw = {
        let mut t = raw;
        if timestamp_us < 0 {
            t.push('-');
            let m: u64 = ((-(timestamp_us + 1)) as u64) + 1;
            push_decimal(&mut t, m);
        } else {
            push_decimal(&mut t, timestamp_us as u64);
        }
        t
    };
    assert(raw@ =~= spec_raw_id(port, timestamp_us));
    let cs = chars_of(raw.as_str());
    let mut bytes: Vec<u8> = Vec::new();
    let mut i: usize = 0;
    while i < cs.len()
        invariant
            i <= cs@.len(),
            bytes@ == ascii_bytes(cs@).take(i as int),
        decreases cs@.len() - i,
    {
        bytes.push(cs[i] as u8);
        i = i + 1;
        assert(bytes@ =~= ascii_bytes(cs@).take(i as int));
    }
    assert(ascii_bytes(cs@).take(i as int) =~= ascii_bytes(cs@));
    let mut j: usize = 0;
    let ghost prefix = bytes@;
    while j < random.len()
        invariant
            j <= random@.len(),
            bytes@ == prefix + random@.take(j as int),
        decreases random@.len() - j,
    {
        bytes.push(random[j]);
        j = j + 1;
        assert(bytes@ =~= prefix + random@.take(j as int));
    }
    assert(random@.take(j as int) =~= random@);
    let hex = sha256_hex(bytes.as_slice());
    let hc = chars_of(hex.as_str());
    let mut out = String::from_str("node_");
    let mut k: usize = 0;
    let ghost start = out@;
    while k < 16
        invariant
            k <= 16,
            hc@.len() == 64,
            out@ == start + hc@.take(k as int),
        decreases 16 - k,
    {
        out.push(hc[k]);
        k = k + 1;
        assert(out@ =~= start + hc@.take(k as int));
    }
    proof {
        reveal_strlit("node_");
        assert(out@.take(5) =~= "node_"@);
    }
    out
}

/// A fresh identifier for a node serving on `port`, made from the current
/// time and 16 random bytes.
pub fn generate_node_id(port: u16) -> (r: String)
    ensures
        exists|timestamp_us: i64, random: Seq<u8>|
            random.len() == 16 && r@ == #[trigger] spec_node_id(port, timestamp_us, random),
        r@.len() == 21,
        r@.take(5) == "node_"@,
{
    let timestamp_us = now_timestamp_micros();
    let random = random_bytes();
    let r = node_id_from_parts(port, timestamp_us, random.as_slice());
    assert(random@.len() == 16);
    r
}

} // verus!

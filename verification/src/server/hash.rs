//! SHA-1 digests as the server shows them: lowercase hex.

use vstd::prelude::*;

use crate::text::string_of;

verus! {

/// The SHA-1 digest of `data`, as 20 bytes.
pub uninterp spec fn sha1_of(data: Seq<u8>) -> Seq<u8>;

/// The SHA-1 digest of `data`.
///
/// Trusted: hashes with `sha1_smol::Sha1::from` and takes the digest's 20
/// bytes; the contract names them (they depend on the data alone) and
/// claims there are 20.
#[verifier::external_body]
fn sha1_bytes(data: &[u8]) -> (r: [u8; 20])
    ensures
        r@ == sha1_of(data@),
        r@.len() == 20,
{
    sha1_smol::Sha1::from(data).digest().bytes()
}

/// The lowercase hex digit of `v` (`v < 16`).
pub open spec fn hex_char(v: u8) -> char {
    if v < 10 {
        ((v + 48) as u8) as char
    } else {
        ((v + 87) as u8) as char
    }
}

/// `b` in lowercase hex, two digits per byte.
pub open spec fn hex_text(b: Seq<u8>) -> Seq<char>
    decreases b.len(),
{
    if b.len() == 0 {
        seq![]
    } else {
        hex_text(b.drop_last()) + seq![hex_char(b.last() / 16), hex_char(b.last() % 16)]
    }
}

pub(crate) fn hex_digit_char(v: u8) -> (c: char)
    requires
        v < 16,
    ensures
        c == hex_char(v),
{
    if v < 10 {
        (v + 48) as char
    } else {
        (v + 87) as char
    }
}

/// Append `b` in lowercase hex.
pub fn push_hex(b: &[u8], out: &mut Vec<char>)
    ensures
        final(out)@ == old(out)@ + hex_text(b@),
{
    let ghost start = out@;
    let mut i: usize = 0;
    while i < b.len()
        invariant
            i <= b@.len(),
            out@ == start + hex_text(b@.take(i as int)),
        decreases b.len() - i,
    {
        out.push(hex_digit_char(b[i] / 16));
        out.push(hex_digit_char(b[i] % 16));
        assert(b@.take(i + 1).drop_last() =~= b@.take(i as int));
        i = i + 1;
        assert(out@ =~= start + hex_text(b@.take(i as int)));
    }
    assert(b@.take(b@.len() as int) =~= b@);
}

/// The SHA-1 of `data` in lowercase hex, as `sha1_smol`'s digest displays
/// it (each state word as eight hex digits, that is each digest byte as
/// two).
pub fn sha1_hex(data: &[u8]) -> (r: String)
    ensures
        r@ == hex_text(sha1_of(data@)),
{
    let d = sha1_bytes(data);
    let mut out: Vec<char> = Vec::new();
    push_hex(&d, &mut out);
    assert(out@ =~= hex_text(sha1_of(data@)));
    string_of(out)
}

} // verus!

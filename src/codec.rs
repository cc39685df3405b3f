//! Canonical encodings shared by every object: hex digests, decimal lengths,
//! the digest function and the compression layer.
use vstd::prelude::*;
use std::io::Read;
use std::io::Write;
use flate2::read::ZlibDecoder;
use flate2::write::ZlibEncoder;
use flate2::Compression;
use crate::error::GitError;

verus! {

/// The SHA-1 digest of a byte sequence (20 bytes).
pub uninterp spec fn sha1_of(b: Seq<u8>) -> Seq<u8>;

/// The zlib stream that the default compression level makes of a byte sequence.
pub uninterp spec fn zlib_of(b: Seq<u8>) -> Seq<u8>;

/// The data that a byte sequence decompresses to as a zlib stream, if it is
/// one.
pub uninterp spec fn inflate_of(data: Seq<u8>) -> Option<Seq<u8>>;

/// Relies on `sha1::Sha1` (the sha1 0.6 crate re-exports sha1_smol):
/// `update` then `digest().bytes()` give the 20-byte SHA-1 digest of the
/// data, which depends on the data alone.
#[verifier::external_body]
pub(crate) fn sha1_digest(data: &[u8]) -> (r: Vec<u8>)
    ensures
        r@ == sha1_of(data@),
        r@.len() == 20,
{
    let mut h = sha1::Sha1::new();
    h.update(data);
    h.digest().bytes().to_vec()
}

/// Relies on flate2's `ZlibEncoder` at `Compression::default()` writing into
/// a `Vec`: the zlib stream of the data. Writing into a `Vec` and finishing
/// the stream once have no failure path.
#[verifier::external_body]
fn zlib_compress(data: &[u8]) -> (r: Vec<u8>)
    ensures
        r@ == zlib_of(data@),
{
    let mut e = ZlibEncoder::new(Vec::new(), Compression::default());
    let _ = e.write_all(data);
    e.finish().unwrap_or_default()
}

/// Relies on flate2's `ZlibDecoder` read to the end: the data a zlib stream
/// decompresses to, which depends on the stream alone, or nothing when the
/// bytes are no complete zlib stream; a stream decompresses to the data it
/// was made from.
#[verifier::external_body]
fn zlib_decompress(data: &[u8]) -> (r: Option<Vec<u8>>)
    ensures
        r is Some <==> inflate_of(data@) is Some,
        r matches Some(d) ==> inflate_of(data@) == Some(d@),
        forall|b: Seq<u8>| #[trigger] zlib_of(b) == data@ ==> r is Some && r->Some_0@ == b,
{
    let mut z = ZlibDecoder::new(data);
    let mut out = Vec::new();
    z.read_to_end(&mut out).ok()?;
    Some(out)
}

/// Relies on `String::push`: appends one character.
#[verifier::external_body]
pub(crate) fn push_char(s: &mut String, c: char)
    ensures
        final(s)@ == old(s)@.push(c),
{
    s.push(c)
}

/// Compresses an object body for storage; this always succeeds.
pub fn compression(body: &Vec<u8>) -> (r: Result<Vec<u8>, GitError>)
    ensures
        r matches Ok(c) && c@ == zlib_of(body@),
{
    Ok(zlib_compress(body.as_slice()))
}

/// Decompresses stored bytes. Whatever `compression` made of `b` comes back
/// as `b`; bytes that are no zlib stream give `CorruptData`.
pub fn decoder(body: &Vec<u8>) -> (r: Result<Vec<u8>, GitError>)
    ensures
        forall|b: Seq<u8>| #[trigger] zlib_of(b) == body@ ==> (r matches Ok(d) && d@ == b),
        match inflate_of(body@) {
            Some(b) => r matches Ok(d) && d@ == b,
            None => r == Err::<Vec<u8>, GitError>(GitError::CorruptData),
        },
{
    match zlib_decompress(body.as_slice()) {
        Some(d) => Ok(d),
        None => Err(GitError::CorruptData),
    }
}

/// The lowercase hex digit of a value below 16.
pub open spec fn hex_digit(n: u8) -> char {
    if n < 10 {
        (n + 48) as char
    } else {
        (n + 87) as char
    }
}

/// Two lowercase hex digits for each byte, high nibble first.
pub open spec fn hex_of(b: Seq<u8>) -> Seq<char> {
    Seq::new(
        2 * b.len(),
        |i: int|
            if i % 2 == 0 {
                hex_digit(b[i / 2] / 16)
            } else {
                hex_digit(b[i / 2] % 16)
            },
    )
}

fn hex_char(n: u8) -> (c: char)
    requires
        n < 16,
    ensures
        c == hex_digit(n),
{
    if n < 10 {
        (n + 48) as char
    } else {
        (n + 87) as char
    }
}

/// Renders raw digest bytes as lowercase hex.
pub fn slice_to_sha_string(b: &[u8]) -> (r: String)
    requires
        2 * b@.len() <= usize::MAX,
    ensures
        r@ == hex_of(b@),
{
    let mut s = String::new();
    let mut i: usize = 0;
    while i < b.len()
        invariant
            i <= b@.len(),
            s@ == hex_of(b@.subrange(0, i as int)),
        decreases b@.len() - i,
    {
        let x = b[i];
        push_char(&mut s, hex_char(x / 16));
        push_char(&mut s, hex_char(x % 16));
        proof {
            let next = b@.subrange(0, i + 1);
            assert(hex_of(next) =~= hex_of(b@.subrange(0, i as int)).push(hex_digit(x / 16)).push(
                hex_digit(x % 16),
            ));
        }
        i = i + 1;
    }
    assert(b@.subrange(0, b@.len() as int) =~= b@);
    s
}

/// The ASCII decimal digits of a number, without leading zeros.
pub open spec fn dec_of(n: nat) -> Seq<u8>
    decreases n,
{
    if n < 10 {
        seq![(n + 48) as u8]
    } else {
        dec_of(n / 10).push((n % 10 + 48) as u8)
    }
}

/// Writes a number in decimal.
pub fn decimal(n: usize) -> (r: Vec<u8>)
    ensures
        r@ == dec_of(n as nat),
    decreases n,
{
    if n < 10 {
        vec![(n as u8) + 48]
    } else {
        let mut v = decimal(n / 10);
        v.push(((n % 10) as u8) + 48);
        v
    }
}

/// Appends bytes to a buffer.
pub fn append_bytes(out: &mut Vec<u8>, src: &[u8])
    ensures
        final(out)@ == old(out)@ + src@,
{
    let ghost start = out@;
    let mut i: usize = 0;
    while i < src.len()
        invariant
            i <= src@.len(),
            out@ == start + src@.subrange(0, i as int),
        decreases src@.len() - i,
    {
        out.push(src[i]);
        proof {
            assert(src@.subrange(0, i + 1) =~= src@.subrange(0, i as int).push(src@[i as int]));
        }
        i = i + 1;
    }
    assert(src@.subrange(0, src@.len() as int) =~= src@);
}

/// Whether a byte is an ASCII decimal digit.
pub open spec fn is_digit(c: u8) -> bool {
    48 <= c <= 57
}

/// The value of a run of decimal digits.
pub open spec fn dec_value(s: Seq<u8>) -> nat
    decreases s.len(),
{
    if s.len() == 0 {
        0
    } else {
        dec_value(s.drop_last()) * 10 + (s.last() - 48) as nat
    }
}

/// The first position at or after `i` that does not hold a digit.
pub open spec fn digits_end(b: Seq<u8>, i: int) -> int
    decreases b.len() - i,
{
    if i < 0 || i >= b.len() || !is_digit(b[i]) {
        i
    } else {
        digits_end(b, i + 1)
    }
}

/// The number written in decimal at `start`, if there is at least one digit
/// and it fits in `i32`.
pub open spec fn decimal_at(b: Seq<u8>, start: int) -> Option<i32> {
    let end = digits_end(b, start);
    if end > start && dec_value(b.subrange(start, end)) <= i32::MAX {
        Some(dec_value(b.subrange(start, end)) as i32)
    } else {
        None
    }
}

pub proof fn lemma_digits_end_bounds(b: Seq<u8>, i: int)
    requires
        0 <= i <= b.len(),
    ensures
        i <= digits_end(b, i) <= b.len(),
        forall|k: int| i <= k < digits_end(b, i) ==> is_digit(#[trigger] b[k]),
        digits_end(b, i) < b.len() ==> !is_digit(b[digits_end(b, i)]),
    decreases b.len() - i,
{
    if i < b.len() && is_digit(b[i]) {
        lemma_digits_end_bounds(b, i + 1);
    }
}

/// Reads the decimal number at `start`: where its digits end, and its value
/// when there is at least one digit and it fits in `i32`.
pub fn parse_decimal(b: &[u8], start: usize) -> (r: (usize, Option<i32>))
    requires
        start <= b@.len(),
    ensures
        r.0 == digits_end(b@, start as int),
        r.1 == decimal_at(b@, start as int),
{
    let mut i: usize = start;
    let mut val: u64 = 0;
    let mut big = false;
    proof {
        lemma_digits_end_bounds(b@, start as int);
        assert(b@.subrange(start as int, start as int) =~= Seq::<u8>::empty());
    }
    while i < b.len() && 48 <= b[i] && b[i] <= 57
        invariant
            start <= i <= b@.len(),
            digits_end(b@, i as int) == digits_end(b@, start as int),
            big <==> dec_value(b@.subrange(start as int, i as int)) > i32::MAX,
            !big ==> val == dec_value(b@.subrange(start as int, i as int)),
        decreases b@.len() - i,
    {
        let d = (b[i] - 48) as u64;
        let ghost prev = b@.subrange(start as int, i as int);
        let ghost next = b@.subrange(start as int, i + 1);
        assert(next.drop_last() =~= prev);
        assert(dec_value(next) == dec_value(prev) * 10 + d);
        if !big {
            val = val * 10 + d;
            if val > 0x7fff_ffff {
                big = true;
            }
        } else {
            assert(dec_value(next) > i32::MAX) by (nonlinear_arith)
                requires
                    dec_value(prev) > i32::MAX,
                    dec_value(next) == dec_value(prev) * 10 + d,
            ;
        }
        i = i + 1;
    }
    if i > start && !big {
        (i, Some(val as i32))
    } else {
        (i, None)
    }
}

/// Every byte of a decimal rendering is a digit.
pub proof fn lemma_dec_of_digits(n: nat)
    ensures
        forall|i: int| 0 <= i < dec_of(n).len() ==> is_digit(#[trigger] dec_of(n)[i]),
        dec_of(n).len() >= 1,
    decreases n,
{
    if n >= 10 {
        lemma_dec_of_digits(n / 10);
    }
}

/// A decimal rendering reads back as its number.
pub proof fn lemma_dec_value_of(n: nat)
    ensures
        dec_value(dec_of(n)) == n,
    decreases n,
{
    if n < 10 {
        assert(dec_of(n).drop_last() =~= Seq::<u8>::empty());
        assert(dec_value(Seq::<u8>::empty()) == 0);
        assert(dec_of(n).last() == (n + 48) as u8);
        assert(((n + 48) as u8) as int == n + 48);
    } else {
        lemma_dec_value_of(n / 10);
        assert(dec_of(n).drop_last() =~= dec_of(n / 10));
        assert(dec_of(n).last() == (n % 10 + 48) as u8);
        assert(((n % 10 + 48) as u8) as int == n % 10 + 48);
        assert(n == (n / 10) * 10 + n % 10);
    }
}

/// The number written at `start` and ended by a non-digit reads back.
pub proof fn lemma_decimal_at(b: Seq<u8>, start: int, n: nat)
    requires
        0 <= start,
        start + dec_of(n).len() < b.len(),
        b.subrange(start, start + dec_of(n).len()) == dec_of(n),
        !is_digit(b[start + dec_of(n).len()]),
        n <= i32::MAX,
    ensures
        digits_end(b, start) == start + dec_of(n).len(),
        decimal_at(b, start) == Some(n as i32),
{
    lemma_dec_of_digits(n);
    lemma_dec_value_of(n);
    let d = dec_of(n);
    assert forall|k: int| start <= k < start + d.len() implies is_digit(b[k]) by {
        assert(b.subrange(start, start + d.len())[k - start] == b[k]);
    }
    lemma_digits_end_run(b, start, start + d.len());
}

proof fn lemma_digits_end_run(b: Seq<u8>, i: int, j: int)
    requires
        0 <= i <= j < b.len(),
        forall|k: int| i <= k < j ==> is_digit(b[k]),
        !is_digit(b[j]),
    ensures
        digits_end(b, i) == j,
    decreases j - i,
{
    if i < j {
        lemma_digits_end_run(b, i + 1, j);
    }
}

} // verus!

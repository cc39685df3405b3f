//! Big-endian integers, byte ranges and UTF-8 text inside a byte buffer.
use vstd::prelude::*;
use vstd::utf8::{decode_utf8, valid_utf8};
use byteorder::ByteOrder;
use binwrite::BinWrite;

verus! {

/// The big-endian `u32` in the four bytes at `p`.
pub open spec fn be_u32_at(b: Seq<u8>, p: int) -> u32 {
    ((b[p] as u32) << 24u32) | ((b[p + 1] as u32) << 16u32) | ((b[p + 2] as u32) << 8u32) | (b[p
        + 3] as u32)
}

/// The big-endian `i32` in the four bytes at `p`.
pub open spec fn be_i32_at(b: Seq<u8>, p: int) -> i32 {
    be_u32_at(b, p) as i32
}

/// The big-endian `i16` in the two bytes at `p`.
pub open spec fn be_i16_at(b: Seq<u8>, p: int) -> i16 {
    (((b[p] as u16) << 8u16) | (b[p + 1] as u16)) as i16
}

/// The four big-endian bytes of an `i32`.
pub open spec fn i32_bytes(v: i32) -> Seq<u8> {
    let x = v as u32;
    seq![(x >> 24u32) as u8, (x >> 16u32) as u8, (x >> 8u32) as u8, x as u8]
}

/// The two big-endian bytes of an `i16`.
pub open spec fn i16_bytes(v: i16) -> Seq<u8> {
    let x = v as u16;
    seq![(x >> 8u16) as u8, x as u8]
}

/// Relies on byteorder's `BigEndian::read_i32`: the first four bytes of the
/// slice as a big-endian `i32` (it panics on fewer than four).
#[verifier::external_body]
fn be_read_i32(buf: &[u8]) -> (r: i32)
    requires
        buf@.len() >= 4,
    ensures
        r == be_i32_at(buf@, 0),
{
    byteorder::BigEndian::read_i32(buf)
}

/// Relies on byteorder's `BigEndian::read_i16`: the first two bytes of the
/// slice as a big-endian `i16` (it panics on fewer than two).
#[verifier::external_body]
fn be_read_i16(buf: &[u8]) -> (r: i16)
    requires
        buf@.len() >= 2,
    ensures
        r == be_i16_at(buf@, 0),
{
    byteorder::BigEndian::read_i16(buf)
}

/// Relies on binwrite's `BinWrite for i32` with `Endian::Big`, which writes
/// `to_be_bytes()`; writing into a `Vec` does not fail.
#[verifier::external_body]
fn be_write_i32(out: &mut Vec<u8>, v: i32)
    ensures
        final(out)@ == old(out)@ + i32_bytes(v),
{
    let mut opts = binwrite::WriterOption::default();
    opts.endian = binwrite::Endian::Big;
    let _ = v.write_options(out, &opts);
}

/// Relies on binwrite's `BinWrite for i16` with `Endian::Big`, which writes
/// `to_be_bytes()`; writing into a `Vec` does not fail.
#[verifier::external_body]
fn be_write_i16(out: &mut Vec<u8>, v: i16)
    ensures
        final(out)@ == old(out)@ + i16_bytes(v),
{
    let mut opts = binwrite::WriterOption::default();
    opts.endian = binwrite::Endian::Big;
    let _ = v.write_options(out, &opts);
}

/// Relies on `String::from_utf8`: the text of the bytes, exactly when they
/// are valid UTF-8.
#[verifier::external_body]
pub(crate) fn utf8_string(v: Vec<u8>) -> (r: Option<String>)
    ensures
        r is Some <==> valid_utf8(v@),
        r matches Some(s) ==> s@ == decode_utf8(v@),
{
    String::from_utf8(v).ok()
}

/// Appends an `i32` in big-endian order.
pub fn put_i32(out: &mut Vec<u8>, v: i32)
    ensures
        final(out)@ == old(out)@ + i32_bytes(v),
{
    be_write_i32(out, v)
}

/// Appends an `i16` in big-endian order.
pub fn put_i16(out: &mut Vec<u8>, v: i16)
    ensures
        final(out)@ == old(out)@ + i16_bytes(v),
{
    be_write_i16(out, v)
}

/// The big-endian `i32` at `pos`, if four bytes are there.
pub fn read_i32(b: &[u8], pos: usize) -> (r: Option<i32>)
    ensures
        r is Some <==> pos + 4 <= b@.len(),
        r matches Some(v) ==> v == be_i32_at(b@, pos as int),
{
    if b.len() < 4 || pos > b.len() - 4 {
        None
    } else {
        let tail = slice_from(b, pos);
        Some(be_read_i32(tail))
    }
}

/// The big-endian `i16` at `pos`, if two bytes are there.
pub fn read_i16(b: &[u8], pos: usize) -> (r: Option<i16>)
    ensures
        r is Some <==> pos + 2 <= b@.len(),
        r matches Some(v) ==> v == be_i16_at(b@, pos as int),
{
    if b.len() < 2 || pos > b.len() - 2 {
        None
    } else {
        let tail = slice_from(b, pos);
        Some(be_read_i16(tail))
    }
}

/// The bytes from `pos` to the end.
pub fn slice_from(b: &[u8], pos: usize) -> (r: &[u8])
    requires
        pos <= b@.len(),
    ensures
        r@ == b@.subrange(pos as int, b@.len() as int),
{
    let (_, tail) = b.split_at(pos);
    tail
}

/// A buffer of `size` zero bytes.
pub fn with_fill_capacity(size: usize) -> (r: Vec<u8>)
    ensures
        r@ == Seq::new(size as nat, |i: int| 0u8),
{
    let mut v: Vec<u8> = Vec::with_capacity(size);
    let mut i: usize = 0;
    while i < size
        invariant
            i <= size,
            v@ == Seq::new(i as nat, |k: int| 0u8),
        decreases size - i,
    {
        v.push(0u8);
        assert(v@ =~= Seq::new((i + 1) as nat, |k: int| 0u8));
        i = i + 1;
    }
    v
}

/// The `n` bytes at `pos`, if they are there.
pub fn read_n_length_bytes(b: &[u8], pos: usize, n: usize) -> (r: Option<Vec<u8>>)
    ensures
        r is Some <==> pos + n <= b@.len(),
        r matches Some(v) ==> v@ == b@.subrange(pos as int, pos + n),
{
    if pos > b.len() || n > b.len() - pos {
        return None;
    }
    let end: usize = pos + n;
    let mut v: Vec<u8> = Vec::with_capacity(n);
    let mut i: usize = 0;
    while i < n
        invariant
            i <= n,
            end == pos + n,
            pos + n <= b@.len(),
            v@ == b@.subrange(pos as int, pos + i),
        decreases n - i,
    {
        v.push(b[pos + i]);
        proof {
            assert(b@.subrange(pos as int, pos + i + 1) =~= b@.subrange(pos as int, pos + i).push(
                b@[pos + i],
            ));
        }
        i = i + 1;
    }
    Some(v)
}

/// The `n` bytes at `pos` as text, if they are there and are UTF-8.
pub fn read_n_length_string(b: &[u8], pos: usize, n: usize) -> (r: Option<String>)
    ensures
        r is Some <==> pos + n <= b@.len() && valid_utf8(b@.subrange(pos as int, pos + n)),
        r matches Some(s) ==> s@ == decode_utf8(b@.subrange(pos as int, pos + n)),
{
    match read_n_length_bytes(b, pos, n) {
        Some(v) => utf8_string(v),
        None => None,
    }
}

/// The first position at or after `i` that holds `c`, or the length when
/// there is none.
pub open spec fn find_byte(b: Seq<u8>, i: int, c: u8) -> int
    decreases b.len() - i,
{
    if i < 0 || i >= b.len() {
        b.len() as int
    } else if b[i] == c {
        i
    } else {
        find_byte(b, i + 1, c)
    }
}

pub proof fn lemma_find_byte(b: Seq<u8>, i: int, c: u8)
    requires
        0 <= i <= b.len(),
    ensures
        i <= find_byte(b, i, c) <= b.len(),
        forall|k: int| i <= k < find_byte(b, i, c) ==> b[k] != c,
        find_byte(b, i, c) < b.len() ==> b[find_byte(b, i, c)] == c,
    decreases b.len() - i,
{
    if i < b.len() && b[i] != c {
        lemma_find_byte(b, i + 1, c);
    }
}

/// `find_byte` stops at the first `c`.
pub proof fn lemma_find_byte_at(b: Seq<u8>, i: int, j: int, c: u8)
    requires
        0 <= i <= j < b.len(),
        forall|k: int| i <= k < j ==> b[k] != c,
        b[j] == c,
    ensures
        find_byte(b, i, c) == j,
    decreases j - i,
{
    if i < j {
        lemma_find_byte_at(b, i + 1, j, c);
    }
}

/// The position of the first `c` at or after `start`, or the length.
pub fn find_byte_from(b: &[u8], start: usize, c: u8) -> (r: usize)
    requires
        start <= b@.len(),
    ensures
        r == find_byte(b@, start as int, c),
{
    let mut i = start;
    while i < b.len() && b[i] != c
        invariant
            start <= i <= b@.len(),
            find_byte(b@, i as int, c) == find_byte(b@, start as int, c),
        decreases b@.len() - i,
    {
        i = i + 1;
    }
    i
}

/// The four bytes of an `i32`, read back, give the `i32`.
pub proof fn lemma_read_i32(b: Seq<u8>, p: int, v: i32)
    requires
        0 <= p,
        p + 4 <= b.len(),
        b.subrange(p, p + 4) == i32_bytes(v),
    ensures
        be_i32_at(b, p) == v,
{
    let x = v as u32;
    assert(b[p] == b.subrange(p, p + 4)[0]);
    assert(b[p + 1] == b.subrange(p, p + 4)[1]);
    assert(b[p + 2] == b.subrange(p, p + 4)[2]);
    assert(b[p + 3] == b.subrange(p, p + 4)[3]);
    let (b0, b1, b2, b3) = (b[p], b[p + 1], b[p + 2], b[p + 3]);
    assert(b0 == (x >> 24u32) as u8 && b1 == (x >> 16u32) as u8 && b2 == (x >> 8u32) as u8 && b3
        == x as u8);
    assert((((b0 as u32) << 24u32) | ((b1 as u32) << 16u32) | ((b2 as u32) << 8u32) | (b3 as u32))
        as i32 == v) by (bit_vector)
        requires
            x == v as u32,
            b0 == (x >> 24u32) as u8,
            b1 == (x >> 16u32) as u8,
            b2 == (x >> 8u32) as u8,
            b3 == x as u8,
    ;
}

/// The two bytes of an `i16`, read back, give the `i16`.
pub proof fn lemma_read_i16(b: Seq<u8>, p: int, v: i16)
    requires
        0 <= p,
        p + 2 <= b.len(),
        b.subrange(p, p + 2) == i16_bytes(v),
    ensures
        be_i16_at(b, p) == v,
{
    let x = v as u16;
    assert(b[p] == b.subrange(p, p + 2)[0]);
    assert(b[p + 1] == b.subrange(p, p + 2)[1]);
    let (b0, b1) = (b[p], b[p + 1]);
    assert((((b0 as u16) << 8u16) | (b1 as u16)) as i16 == v) by (bit_vector)
        requires
            x == v as u16,
            b0 == (x >> 8u16) as u8,
            b1 == x as u8,
    ;
}

/// A part of a byte range that matches `s` matches the same part of `s`.
pub proof fn lemma_sub_of_sub(b: Seq<u8>, p: int, s: Seq<u8>, off: int, len: int)
    requires
        0 <= p,
        p + s.len() <= b.len(),
        b.subrange(p, p + s.len()) == s,
        0 <= off,
        0 <= len,
        off + len <= s.len(),
    ensures
        b.subrange(p + off, p + off + len) == s.subrange(off, off + len),
{
    assert forall|i: int| 0 <= i < len implies #[trigger] b.subrange(p + off, p + off + len)[i]
        == s.subrange(off, off + len)[i] by {
        assert(b.subrange(p, p + s.len())[off + i] == b[p + off + i]);
    }
    assert(b.subrange(p + off, p + off + len) =~= s.subrange(off, off + len));
}

/// A byte range that matches `x + y` matches `x`, then `y`.
pub proof fn lemma_split(b: Seq<u8>, p: int, x: Seq<u8>, y: Seq<u8>)
    requires
        0 <= p,
        p + x.len() + y.len() <= b.len(),
        b.subrange(p, p + x.len() + y.len()) == x + y,
    ensures
        b.subrange(p, p + x.len()) == x,
        b.subrange(p + x.len(), p + x.len() + y.len()) == y,
{
    let w = x + y;
    assert(w.subrange(0, x.len() as int) =~= x);
    assert(w.subrange(x.len() as int, (x.len() + y.len()) as int) =~= y);
    lemma_sub_of_sub(b, p, w, 0, x.len() as int);
    lemma_sub_of_sub(b, p, w, x.len() as int, y.len() as int);
}

} // verus!

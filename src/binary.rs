//! Little-endian integers and null-terminated UTF-8 strings in a byte buffer.

use vstd::prelude::*;
use vstd::utf8::{decode_utf8, encode_utf8, valid_utf8};
use byteorder::{ByteOrder, LittleEndian};
use crate::error::NxdError;

verus! {

/// The unsigned integer stored little-endian in the first four bytes of `b`.
pub open spec fn u32_le(b: Seq<u8>) -> int {
    b[0] as int + 256 * (b[1] as int) + 65536 * (b[2] as int) + 16777216 * (b[3] as int)
}

/// The four bytes of `v`, least significant first.
pub open spec fn le_bytes_of(v: int) -> Seq<u8> {
    seq![
        (v % 256) as u8,
        ((v / 256) % 256) as u8,
        ((v / 65536) % 256) as u8,
        ((v / 16777216) % 256) as u8,
    ]
}

/// `s` with the four bytes at `pos` replaced by `b`.
pub open spec fn put4(s: Seq<u8>, pos: int, b: Seq<u8>) -> Seq<u8> {
    s.subrange(0, pos) + b + s.subrange(pos + 4, s.len() as int)
}

/// Reading back the bytes of a 32-bit value gives the value.
pub proof fn lemma_le_bytes_round_trip(v: int)
    requires
        0 <= v <= u32::MAX,
    ensures
        le_bytes_of(v).len() == 4,
        u32_le(le_bytes_of(v)) == v,
{
    let b = le_bytes_of(v);
    let q1 = v / 256;
    let q2 = q1 / 256;
    let q3 = q2 / 256;
    assert(v == v % 256 + 256 * q1) by (nonlinear_arith)
        requires
            q1 == v / 256,
    ;
    assert(q1 == q1 % 256 + 256 * q2) by (nonlinear_arith)
        requires
            q2 == q1 / 256,
    ;
    assert(q2 == q2 % 256 + 256 * q3) by (nonlinear_arith)
        requires
            q3 == q2 / 256,
    ;
    assert(q2 == v / 65536) by (nonlinear_arith)
        requires
            q1 == v / 256,
            q2 == q1 / 256,
            v >= 0,
    ;
    assert(q3 == v / 16777216) by (nonlinear_arith)
        requires
            q3 == q2 / 256,
            q2 == v / 65536,
            v >= 0,
    ;
    assert(q3 < 256) by (nonlinear_arith)
        requires
            q3 == v / 16777216,
            0 <= v <= u32::MAX,
    ;
    assert(b[0] == v % 256);
    assert(b[1] == q1 % 256);
    assert(b[2] == q2 % 256);
    assert(b[3] == q3 % 256);
}

/// The two's-complement reading of a 32-bit pattern whose unsigned value is `u`.
pub open spec fn as_signed32(u: int) -> int {
    if u < 0x8000_0000 {
        u
    } else {
        u - 0x1_0000_0000
    }
}

/// `d` holds `n` bytes starting at `pos`.
pub open spec fn fits(d: Seq<u8>, pos: int, n: int) -> bool {
    0 <= pos && pos + n <= d.len()
}

/// The unsigned 32-bit integer stored at `pos`.
pub open spec fn u32_at(d: Seq<u8>, pos: int) -> int {
    u32_le(d.subrange(pos, pos + 4))
}

/// The signed 32-bit integer stored at `pos`.
pub open spec fn i32_at(d: Seq<u8>, pos: int) -> int {
    as_signed32(u32_at(d, pos))
}

/// The zero byte at `end` is the first one at or after `start`.
pub open spec fn terminated_at(d: Seq<u8>, start: int, end: int) -> bool {
    &&& 0 <= start <= end < d.len()
    &&& d[end] == 0
    &&& forall|k: int| start <= k < end ==> d[k] != 0
}

/// The text of the null-terminated UTF-8 string that starts at `start`.
pub open spec fn cstr_at(d: Seq<u8>, start: int) -> Result<Seq<char>, NxdError> {
    if exists|e: int| terminated_at(d, start, e) {
        let e = choose|e: int| terminated_at(d, start, e);
        let b = d.subrange(start, e);
        if valid_utf8(b) {
            Ok(decode_utf8(b))
        } else {
            Err(NxdError::Utf8Error { offset: start as u64 })
        }
    } else {
        Err(NxdError::UnexpectedEof)
    }
}

/// A string starts at `start` has one terminator only.
pub proof fn lemma_terminator_unique(d: Seq<u8>, start: int, e1: int, e2: int)
    requires
        terminated_at(d, start, e1),
        terminated_at(d, start, e2),
    ensures
        e1 == e2,
{
    if e1 < e2 {
        assert(d[e1] != 0);
    } else if e2 < e1 {
        assert(d[e2] != 0);
    }
}

/// Relies on byteorder's `LittleEndian::read_u32`: the first four bytes,
/// least significant first (it panics on fewer than four).
#[verifier::external_body]
fn le_read_u32(b: &[u8]) -> (r: u32)
    requires
        b@.len() >= 4,
    ensures
        r == u32_le(b@),
{
    LittleEndian::read_u32(b)
}

/// Relies on byteorder's `LittleEndian::read_i32`: `read_u32` cast to `i32`.
#[verifier::external_body]
fn le_read_i32(b: &[u8]) -> (r: i32)
    requires
        b@.len() >= 4,
    ensures
        r == as_signed32(u32_le(b@)),
{
    LittleEndian::read_i32(b)
}

/// Relies on byteorder's `LittleEndian::write_u32`: `n` as four bytes,
/// least significant first.
#[verifier::external_body]
fn le_bytes_u32(n: u32) -> (r: [u8; 4])
    ensures
        r@ == le_bytes_of(n as int),
{
    let mut b = [0u8; 4];
    LittleEndian::write_u32(&mut b, n);
    b
}

/// Relies on `String::from_utf8`: it accepts exactly the valid UTF-8 byte
/// sequences and keeps their characters.
#[verifier::external_body]
fn utf8_to_string(b: Vec<u8>) -> (r: Option<String>)
    ensures
        match r {
            Some(s) => valid_utf8(b@) && s@ == decode_utf8(b@),
            None => !valid_utf8(b@),
        },
{
    String::from_utf8(b).ok()
}

/// Reads the unsigned 32-bit integer stored at `pos`.
pub fn read_u32(data: &[u8], pos: u64) -> (r: Result<u32, NxdError>)
    ensures
        match r {
            Ok(v) => fits(data@, pos as int, 4) && v == u32_at(data@, pos as int),
            Err(e) => !fits(data@, pos as int, 4) && e == NxdError::UnexpectedEof,
        },
{
    if pos > data.len() as u64 || data.len() as u64 - pos < 4 {
        return Err(NxdError::UnexpectedEof);
    }
    let p = pos as usize;
    let b = vstd::slice::slice_subrange(data, p, p + 4);
    Ok(le_read_u32(b))
}

/// Reads the signed 32-bit integer stored at `pos`.
pub fn read_i32(data: &[u8], pos: u64) -> (r: Result<i32, NxdError>)
    ensures
        match r {
            Ok(v) => fits(data@, pos as int, 4) && v == i32_at(data@, pos as int),
            Err(e) => !fits(data@, pos as int, 4) && e == NxdError::UnexpectedEof,
        },
{
    if pos > data.len() as u64 || data.len() as u64 - pos < 4 {
        return Err(NxdError::UnexpectedEof);
    }
    let p = pos as usize;
    let b = vstd::slice::slice_subrange(data, p, p + 4);
    Ok(le_read_i32(b))
}

/// Writes `value` little-endian at `pos`, over the bytes there and past the
/// end of `out` where it reaches beyond it.
pub fn write_u32(value: u32, out: &mut Vec<u8>, pos: usize)
    requires
        pos <= old(out)@.len(),
        pos + 4 <= usize::MAX,
    ensures
        final(out)@ == old(out)@.subrange(0, pos as int) + le_bytes_of(value as int) + (if pos + 4
            <= old(out)@.len() {
            old(out)@.subrange(pos + 4, old(out)@.len() as int)
        } else {
            Seq::<u8>::empty()
        }),
        pos + 4 <= old(out)@.len() ==> final(out)@ == put4(
            old(out)@,
            pos as int,
            le_bytes_of(value as int),
        ),
        u32_at(final(out)@, pos as int) == value,
{
    let b = le_bytes_u32(value);
    let ghost len0 = out@.len();
    let mut i: usize = 0;
    while i < 4
        invariant
            0 <= i <= 4,
            pos <= len0,
            pos + 4 <= usize::MAX,
            len0 == old(out)@.len(),
            out@.len() == if pos + i <= len0 { len0 as int } else { pos + i },
            b@.len() == 4,
            forall|k: int| 0 <= k < pos ==> out@[k] == old(out)@[k],
            forall|k: int| pos <= k < pos + i ==> out@[k] == b@[k - pos],
            forall|k: int| pos + i <= k < out@.len() ==> out@[k] == old(out)@[k],
        decreases 4 - i,
    {
        if pos + i < out.len() {
            out.set(pos + i, b[i]);
        } else {
            out.push(b[i]);
        }
        i = i + 1;
    }
    assert(out@.subrange(pos as int, pos + 4) =~= b@);
    assert(out@ =~= old(out)@.subrange(0, pos as int) + le_bytes_of(value as int) + (if pos + 4
        <= old(out)@.len() {
        old(out)@.subrange(pos + 4, old(out)@.len() as int)
    } else {
        Seq::<u8>::empty()
    }));
    proof {
        lemma_le_bytes_round_trip(value as int);
    }
}

/// Reads the null-terminated UTF-8 string that starts at `pos`; also gives
/// the position just past its terminator.
pub fn read_cstr(data: &[u8], pos: u64) -> (r: Result<(String, u64), NxdError>)
    ensures
        match r {
            Ok((s, next)) => {
                &&& cstr_at(data@, pos as int) == Ok::<Seq<char>, NxdError>(s@)
                &&& terminated_at(data@, pos as int, next - 1)
            },
            Err(e) => cstr_at(data@, pos as int) == Err::<Seq<char>, NxdError>(e),
        },
{
    if pos >= data.len() as u64 {
        assert(!exists|e: int| terminated_at(data@, pos as int, e));
        return Err(NxdError::UnexpectedEof);
    }
    let start = pos as usize;
    let mut i: usize = start;
    let mut buf: Vec<u8> = Vec::new();
    while i < data.len() && data[i] != 0
        invariant
            start <= i <= data@.len(),
            start == pos,
            buf@ == data@.subrange(start as int, i as int),
            forall|k: int| start <= k < i ==> data@[k] != 0,
        decreases data@.len() - i,
    {
        buf.push(data[i]);
        i = i + 1;
        assert(buf@ =~= data@.subrange(start as int, i as int));
    }
    if i == data.len() {
        assert forall|e: int| !terminated_at(data@, pos as int, e) by {
            if terminated_at(data@, pos as int, e) {
                assert(data@[e] != 0);
            }
        }
        return Err(NxdError::UnexpectedEof);
    }
    assert(terminated_at(data@, pos as int, i as int));
    proof {
        let e = choose|e: int| terminated_at(data@, pos as int, e);
        lemma_terminator_unique(data@, pos as int, e, i as int);
    }
    match utf8_to_string(buf) {
        Some(s) => Ok((s, i as u64 + 1)),
        None => Err(NxdError::Utf8Error { offset: pos }),
    }
}

/// Reads the null-terminated UTF-8 string that starts at `offset`.
pub fn read_cstr_at(data: &[u8], offset: u64) -> (r: Result<String, NxdError>)
    ensures
        match r {
            Ok(s) => cstr_at(data@, offset as int) == Ok::<Seq<char>, NxdError>(s@),
            Err(e) => cstr_at(data@, offset as int) == Err::<Seq<char>, NxdError>(e),
        },
{
    match read_cstr(data, offset) {
        Ok((s, _)) => Ok(s),
        Err(e) => Err(e),
    }
}

/// Appends the UTF-8 bytes of `text` and a zero terminator to `out`.
pub fn write_cstr(text: &str, out: &mut Vec<u8>)
    ensures
        final(out)@ == old(out)@ + encode_utf8(text@) + seq![0u8],
{
    let b = text.as_bytes();
    let ghost start = out@;
    let mut i: usize = 0;
    while i < b.len()
        invariant
            0 <= i <= b@.len(),
            b@ == encode_utf8(text@),
            out@ == start + b@.subrange(0, i as int),
        decreases b@.len() - i,
    {
        out.push(b[i]);
        i = i + 1;
        assert(out@ =~= start + b@.subrange(0, i as int));
    }
    out.push(0u8);
    assert(b@.subrange(0, b@.len() as int) =~= b@);
}

} // verus!

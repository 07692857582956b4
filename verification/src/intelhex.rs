//! The Intel HEX text codec.
//!
//! A document is one record per line: a leading `:`, then hex pairs for a
//! length byte, a 16-bit address, a record type, the data bytes, and a
//! checksum, which is the two's complement of the sum of all preceding bytes
//! on the line. Encoding splits a buffer into chunks of at most sixteen
//! bytes, one data record each, and ends with a single end-of-file record.
//! The codec emits no extended-address records, so only the low 16 bits of
//! each address are representable and buffers of 64 KiB or more alias; the
//! round-trip law is stated for buffers below that size.
//!
//! Decoding folds data records into a growing buffer: the buffer is extended
//! to reach each record's window, gaps are zero-filled, and the record's
//! bytes are written there, later records winning. An end-of-file record
//! ends decoding; record types other than data and end-of-file are refused
//! rather than guessed at.

use vstd::prelude::*;

use crate::byte_offset::{hex_digit_val, is_hex_digit};
use crate::errors::ScalpelError;

verus! {

// ---------------------------------------------------------------------------
// Rendering, in specification.
// ---------------------------------------------------------------------------

/// The uppercase hex character for a value below sixteen.
pub open spec fn hex_char_of(v: u8) -> u8
    recommends
        v < 16,
{
    if v < 10 {
        (0x30 + v) as u8
    } else {
        (0x41 + (v - 10)) as u8
    }
}

/// A byte as its two hex characters.
pub open spec fn hex_pair(v: u8) -> Seq<u8> {
    seq![hex_char_of(v / 16), hex_char_of(v % 16)]
}

/// A byte sequence as hex characters, two per byte.
pub open spec fn hex_data(data: Seq<u8>) -> Seq<u8>
    decreases data.len(),
{
    if data.len() == 0 {
        Seq::<u8>::empty()
    } else {
        hex_data(data.drop_last()) + hex_pair(data.last())
    }
}

/// The plain sum of a byte sequence.
pub open spec fn sum_bytes(s: Seq<u8>) -> int
    decreases s.len(),
{
    if s.len() == 0 {
        0int
    } else {
        sum_bytes(s.drop_last()) + s.last()
    }
}

/// The bytes a record consists of, before its checksum: length, address
/// high and low, type, data.
pub open spec fn record_bytes(offset: u16, rectype: u8, data: Seq<u8>) -> Seq<u8>
    recommends
        data.len() <= 255,
{
    seq![data.len() as u8, (offset / 256) as u8, (offset % 256) as u8, rectype] + data
}

/// The two's complement of the byte sum: what makes a line's bytes sum to
/// zero modulo 256.
pub open spec fn checksum_of(s: Seq<u8>) -> u8 {
    (((256 - sum_bytes(s) % 256) % 256) as u8)
}

/// One record line, without its line terminator.
pub open spec fn record_line(offset: u16, rectype: u8, data: Seq<u8>) -> Seq<u8> {
    seq![0x3Au8] + hex_data(record_bytes(offset, rectype, data)) + hex_pair(
        checksum_of(record_bytes(offset, rectype, data)),
    )
}

/// The single end-of-file record.
pub open spec fn eof_line() -> Seq<u8> {
    record_line(0, 1, Seq::<u8>::empty())
}

/// The data records for the buffer from `pos` on: chunks of at most sixteen
/// bytes, each rendered at its start index truncated to 16 bits, each line
/// followed by a newline.
pub open spec fn data_lines(b: Seq<u8>, pos: int) -> Seq<u8>
    decreases b.len() - pos,
{
    if pos < 0 || pos >= b.len() {
        Seq::<u8>::empty()
    } else {
        let end = if pos + 16 <= b.len() {
            pos + 16
        } else {
            b.len() as int
        };
        record_line((pos % 0x10000) as u16, 0, b.subrange(pos, end)) + seq![0x0Au8] + data_lines(
            b,
            end,
        )
    }
}

/// The whole encoded document: the data records, then the end-of-file
/// record, with no terminator after the final line.
pub open spec fn spec_encode(b: Seq<u8>) -> Seq<u8> {
    data_lines(b, 0) + eof_line()
}

// ---------------------------------------------------------------------------
// Encoding.
// ---------------------------------------------------------------------------

fn hex_char(v: u8) -> (res: u8)
    requires
        v < 16,
    ensures
        res == hex_char_of(v),
{
    if v < 10 {
        0x30 + v
    } else {
        0x41 + (v - 10)
    }
}

fn push_hex_pair(out: &mut Vec<u8>, v: u8)
    ensures
        final(out)@ == old(out)@ + hex_pair(v),
{
    out.push(hex_char(v / 16));
    out.push(hex_char(v % 16));
    proof {
        assert(out@ =~= old(out)@ + hex_pair(v));
    }
}

/// Renders one record line onto `out`.
fn push_record(out: &mut Vec<u8>, offset: u16, rectype: u8, data: &[u8])
    requires
        data@.len() <= 255,
    ensures
        final(out)@ == old(out)@ + record_line(offset, rectype, data@),
{
    let ghost base = out@;
    let ghost rb = record_bytes(offset, rectype, data@);
    out.push(0x3A);
    let len8: u8 = data.len() as u8;
    let hi: u8 = (offset / 256) as u8;
    let lo: u8 = (offset % 256) as u8;
    let mut sum: u32 = 0;
    push_hex_pair(out, len8);
    sum = sum + len8 as u32;
    push_hex_pair(out, hi);
    sum = sum + hi as u32;
    push_hex_pair(out, lo);
    sum = sum + lo as u32;
    push_hex_pair(out, rectype);
    sum = sum + rectype as u32;
    proof {
        reveal_with_fuel(sum_bytes, 5);
        reveal_with_fuel(hex_data, 5);
        assert(rb.take(0) =~= Seq::<u8>::empty());
        assert(rb.take(1).drop_last() =~= rb.take(0));
        assert(rb.take(1).last() == len8);
        assert(rb.take(2).drop_last() =~= rb.take(1));
        assert(rb.take(2).last() == hi);
        assert(rb.take(3).drop_last() =~= rb.take(2));
        assert(rb.take(3).last() == lo);
        assert(rb.take(4).drop_last() =~= rb.take(3));
        assert(rb.take(4).last() == rectype);
        assert(sum == sum_bytes(rb.take(4)));
        assert(hex_data(rb.take(4)) =~= hex_pair(len8) + hex_pair(hi) + hex_pair(lo) + hex_pair(
            rectype,
        ));
        assert(out@ =~= base + seq![0x3Au8] + hex_data(rb.take(4)));
    }
    let mut i: usize = 0;
    while i < data.len()
        invariant
            0 <= i <= data@.len(),
            data@.len() <= 255,
            rb == record_bytes(offset, rectype, data@),
            out@ == base + seq![0x3Au8] + hex_data(rb.take(4 + i)),
            sum == sum_bytes(rb.take(4 + i)),
            sum <= 255 * (4 + i),
        decreases data@.len() - i,
    {
        let v = data[i];
        push_hex_pair(out, v);
        sum = sum + v as u32;
        proof {
            assert(rb.take(4 + i + 1).drop_last() =~= rb.take(4 + i));
            assert(rb.take(4 + i + 1).last() == rb[4 + i]);
            assert(rb[4 + i] == data@[i as int]);
            assert(hex_data(rb.take(4 + i + 1)) == hex_data(rb.take(4 + i)) + hex_pair(v));
            assert(out@ =~= base + seq![0x3Au8] + hex_data(rb.take(4 + i + 1)));
        }
        i = i + 1;
    }
    proof {
        assert(rb.take(4 + data@.len() as int) =~= rb);
    }
    let low: u32 = sum % 256;
    let cs: u8 = ((256 - low) % 256) as u8;
    proof {
        assert(cs == checksum_of(rb));
    }
    push_hex_pair(out, cs);
    proof {
        assert(out@ =~= base + record_line(offset, rectype, data@));
    }
}

/// Encodes a buffer as Intel HEX text: one data record per chunk of at most
/// sixteen bytes, then the end-of-file record, newline-separated with no
/// trailing newline.
pub fn encode(bytes: &[u8]) -> (res: Vec<u8>)
    ensures
        res@ == spec_encode(bytes@),
{
    let mut out: Vec<u8> = Vec::new();
    let mut pos: usize = 0;
    proof {
        assert(out@ + data_lines(bytes@, 0) =~= data_lines(bytes@, 0));
    }
    while pos < bytes.len()
        invariant
            0 <= pos <= bytes@.len(),
            out@ + data_lines(bytes@, pos as int) == data_lines(bytes@, 0),
        decreases bytes@.len() - pos,
    {
        let ghost out_old = out@;
        let end: usize = if bytes.len() - pos >= 16 {
            pos + 16
        } else {
            bytes.len()
        };
        let chunk = vstd::slice::slice_subrange(bytes, pos, end);
        let off16: u16 = (pos % 0x10000) as u16;
        push_record(&mut out, off16, 0x00, chunk);
        out.push(0x0A);
        proof {
            assert(data_lines(bytes@, pos as int) == record_line(off16, 0, chunk@) + seq![0x0Au8]
                + data_lines(bytes@, end as int));
            assert(out@ =~= out_old + record_line(off16, 0, chunk@) + seq![0x0Au8]);
            assert(out@ + data_lines(bytes@, end as int) =~= out_old + data_lines(
                bytes@,
                pos as int,
            ));
        }
        pos = end;
    }
    let eof_data: Vec<u8> = Vec::new();
    push_record(&mut out, 0, 0x01, eof_data.as_slice());
    proof {
        assert(data_lines(bytes@, pos as int) =~= Seq::<u8>::empty());
        assert(eof_data@ =~= Seq::<u8>::empty());
        assert(out@ =~= spec_encode(bytes@));
    }
    out
}

// ---------------------------------------------------------------------------
// Parsing, in specification.
// ---------------------------------------------------------------------------

/// The byte at position `k` of a record line: two hex characters read as one
/// byte.
pub open spec fn line_byte_at(l: Seq<u8>, k: int) -> u8 {
    (hex_digit_val(l[1 + 2 * k]) * 16 + hex_digit_val(l[2 + 2 * k])) as u8
}

/// How many bytes the line's characters spell, the checksum included.
pub open spec fn line_nbytes(l: Seq<u8>) -> int {
    (l.len() - 1) / 2
}

/// A line is well-formed when it starts with `:`, spells whole bytes for at
/// least a length byte, an address, a type and a checksum, and its length
/// byte matches the number of data bytes present.
pub open spec fn line_shape_ok(l: Seq<u8>) -> bool {
    &&& l.len() >= 11
    &&& (l.len() - 1) % 2 == 0
    &&& l[0] == 0x3A
    &&& forall|i: int| 1 <= i < l.len() ==> is_hex_digit(#[trigger] l[i])
    &&& line_byte_at(l, 0) == line_nbytes(l) - 5
}

/// All bytes the line spells.
pub open spec fn line_bytes(l: Seq<u8>) -> Seq<u8> {
    Seq::new(line_nbytes(l) as nat, |k: int| line_byte_at(l, k))
}

/// The line's bytes, checksum included, must sum to zero modulo 256.
pub open spec fn line_checksum_ok(l: Seq<u8>) -> bool {
    sum_bytes(line_bytes(l)) % 256 == 0
}

pub open spec fn line_offset(l: Seq<u8>) -> int {
    line_byte_at(l, 1) * 256 + line_byte_at(l, 2)
}

pub open spec fn line_type(l: Seq<u8>) -> u8 {
    line_byte_at(l, 3)
}

pub open spec fn line_data(l: Seq<u8>) -> Seq<u8> {
    line_bytes(l).subrange(4, line_nbytes(l) - 1)
}

/// A data record folded into the buffer: the buffer grows to reach the
/// record's window, any gap is zero-filled, and the record's bytes overwrite
/// the window.
pub open spec fn apply_data(buf: Seq<u8>, off: int, data: Seq<u8>) -> Seq<u8> {
    let n = if buf.len() >= off + data.len() {
        buf.len() as int
    } else {
        off + data.len()
    };
    Seq::new(
        n as nat,
        |i: int|
            if off <= i < off + data.len() {
                data[i - off]
            } else if i < buf.len() {
                buf[i]
            } else {
                0x00u8
            },
    )
}

/// The position of the first newline, or the text's length when there is
/// none.
pub open spec fn nl_pos(t: Seq<u8>) -> int
    decreases t.len(),
{
    if t.len() == 0 {
        0
    } else if t[0] == 0x0A {
        0
    } else {
        1 + nl_pos(t.skip(1))
    }
}

/// Decoding the text line by line into `buf`: empty lines are passed over, a
/// malformed line is a content error, a wrong checksum a checksum error, a
/// data record is folded in, an end-of-file record ends decoding, and any
/// other record type is refused.
pub open spec fn decode_from(t: Seq<u8>, buf: Seq<u8>) -> Result<Seq<u8>, ScalpelError>
    decreases t.len(),
{
    if t.len() == 0 {
        Ok(buf)
    } else {
        let p0 = nl_pos(t);
        let p = if p0 < 0 {
            0int
        } else if p0 > t.len() {
            t.len() as int
        } else {
            p0
        };
        let line = t.take(p);
        let rest = if p < t.len() {
            t.skip(p + 1)
        } else {
            t.skip(p)
        };
        if line.len() == 0 {
            decode_from(rest, buf)
        } else if !line_shape_ok(line) {
            Err(ScalpelError::ContentError)
        } else if !line_checksum_ok(line) {
            Err(ScalpelError::ChecksumError)
        } else if line_type(line) == 0 {
            decode_from(rest, apply_data(buf, line_offset(line), line_data(line)))
        } else if line_type(line) == 1 {
            Ok(buf)
        } else {
            Err(ScalpelError::HexError)
        }
    }
}

/// What a whole document decodes to.
pub open spec fn spec_decode(t: Seq<u8>) -> Result<Seq<u8>, ScalpelError> {
    decode_from(t, Seq::<u8>::empty())
}

// ---------------------------------------------------------------------------
// Decoding.
// ---------------------------------------------------------------------------

/// A scan that saw no newline before `p` and a newline (or the end) at `p`
/// has found the first newline.
proof fn lemma_nl_pos_is(t: Seq<u8>, p: int)
    requires
        0 <= p <= t.len(),
        forall|j: int| 0 <= j < p ==> (#[trigger] t[j]) != 0x0A,
        p == t.len() || t[p] == 0x0A,
    ensures
        nl_pos(t) == p,
    decreases p,
{
    if t.len() == 0 {
    } else if p == 0 {
    } else {
        lemma_nl_pos_is(t.skip(1), p - 1);
        assert(forall|j: int| 0 <= j < p - 1 ==> #[trigger] t.skip(1)[j] == t[j + 1]);
    }
}

/// What one record line says: its address, type and data, or why it is
/// refused.
fn parse_line(line: &[u8]) -> (res: Result<(u16, u8, Vec<u8>), ScalpelError>)
    requires
        line@.len() > 0,
    ensures
        !line_shape_ok(line@) ==> res == Err::<(u16, u8, Vec<u8>), ScalpelError>(
            ScalpelError::ContentError,
        ),
        line_shape_ok(line@) && !line_checksum_ok(line@) ==> res == Err::<
            (u16, u8, Vec<u8>),
            ScalpelError,
        >(ScalpelError::ChecksumError),
        line_shape_ok(line@) && line_checksum_ok(line@) ==> (res matches Ok(r) && {
            &&& r.0 == line_offset(line@)
            &&& r.1 == line_type(line@)
            &&& r.2@ == line_data(line@)
        }),
{
    if line.len() < 11 || (line.len() - 1) % 2 != 0 || line[0] != 0x3A {
        return Err(ScalpelError::ContentError);
    }
    let nbytes: usize = (line.len() - 1) / 2;
    let mut bytes: Vec<u8> = Vec::new();
    let mut k: usize = 0;
    while k < nbytes
        invariant
            0 <= k <= nbytes,
            nbytes == line_nbytes(line@),
            line@.len() == 1 + 2 * nbytes,
            line@.len() <= usize::MAX,
            bytes@.len() == k,
            forall|i: int| 0 <= i < k ==> bytes@[i] == line_byte_at(line@, i),
            forall|i: int| 1 <= i < 1 + 2 * k ==> is_hex_digit(#[trigger] line@[i]),
        decreases nbytes - k,
    {
        let c1 = line[1 + 2 * k];
        let c2 = line[2 + 2 * k];
        let v1: u8 = if 0x30 <= c1 && c1 <= 0x39 {
            c1 - 0x30
        } else if 0x41 <= c1 && c1 <= 0x46 {
            c1 - 0x41 + 10
        } else if 0x61 <= c1 && c1 <= 0x66 {
            c1 - 0x61 + 10
        } else {
            proof {
                assert(!is_hex_digit(line@[1 + 2 * k]));
            }
            return Err(ScalpelError::ContentError);
        };
        let v2: u8 = if 0x30 <= c2 && c2 <= 0x39 {
            c2 - 0x30
        } else if 0x41 <= c2 && c2 <= 0x46 {
            c2 - 0x41 + 10
        } else if 0x61 <= c2 && c2 <= 0x66 {
            c2 - 0x61 + 10
        } else {
            proof {
                assert(!is_hex_digit(line@[2 + 2 * k]));
            }
            return Err(ScalpelError::ContentError);
        };
        bytes.push(v1 * 16 + v2);
        k = k + 1;
    }
    proof {
        assert(forall|i: int| 1 <= i < line@.len() ==> is_hex_digit(#[trigger] line@[i]));
    }
    if bytes[0] as usize != nbytes - 5 {
        proof {
            assert(line_byte_at(line@, 0) != line_nbytes(line@) - 5);
        }
        return Err(ScalpelError::ContentError);
    }
    proof {
        assert(line_shape_ok(line@));
    }
    // the length byte caps the byte count, so the plain sum stays small
    let mut sum: u32 = 0;
    let mut k2: usize = 0;
    proof {
        assert(bytes@ =~= line_bytes(line@));
        assert(nbytes <= 260);
    }
    while k2 < nbytes
        invariant
            0 <= k2 <= nbytes,
            nbytes <= 260,
            bytes@.len() == nbytes,
            bytes@ == line_bytes(line@),
            sum == sum_bytes(bytes@.take(k2 as int)),
            sum <= 255 * k2,
        decreases nbytes - k2,
    {
        proof {
            assert(bytes@.take(k2 + 1).drop_last() =~= bytes@.take(k2 as int));
            assert(bytes@.take(k2 + 1).last() == bytes@[k2 as int]);
        }
        sum = sum + bytes[k2] as u32;
        k2 = k2 + 1;
    }
    proof {
        assert(bytes@.take(nbytes as int) =~= bytes@);
    }
    if sum % 256 != 0 {
        return Err(ScalpelError::ChecksumError);
    }
    let off: u16 = bytes[1] as u16 * 256 + bytes[2] as u16;
    let rectype: u8 = bytes[3];
    let data = vstd::slice::slice_to_vec(
        vstd::slice::slice_subrange(bytes.as_slice(), 4, nbytes - 1),
    );
    proof {
        assert(data@ =~= line_data(line@));
    }
    Ok((off, rectype, data))
}

/// Folds one data record into the buffer.
fn apply_data_exec(buf: Vec<u8>, off: usize, data: &[u8]) -> (res: Vec<u8>)
    requires
        off + data@.len() <= usize::MAX,
    ensures
        res@ == apply_data(buf@, off as int, data@),
{
    let mut out = buf;
    let ghost buf0 = out@;
    if out.len() < off + data.len() {
        out.resize(off + data.len(), 0x00);
        proof {
            assert(forall|i: int|
                buf0.len() <= i < out@.len() ==> #[trigger] out@[i] == 0x00u8);
        }
    }
    let mut i: usize = 0;
    while i < data.len()
        invariant
            0 <= i <= data@.len(),
            off + data@.len() <= usize::MAX,
            off + data@.len() <= out@.len(),
            out@.len() == apply_data(buf0, off as int, data@).len(),
            forall|j: int|
                0 <= j < out@.len() && !(off + i <= j < off + data@.len()) ==> #[trigger] out@[j]
                    == apply_data(buf0, off as int, data@)[j],
        decreases data@.len() - i,
    {
        out[off + i] = data[i];
        i = i + 1;
    }
    proof {
        assert(out@ =~= apply_data(buf0, off as int, data@));
    }
    out
}

/// Decodes Intel HEX text into the buffer it denotes.
///
/// Succeeds exactly when every line up to the end-of-file record (or the end
/// of the text) is a well-formed data or end-of-file record with a matching
/// checksum; the error says what was wrong with the first offending line.
pub fn decode(text: &[u8]) -> (res: Result<Vec<u8>, ScalpelError>)
    ensures
        res matches Ok(v) ==> spec_decode(text@) == Ok::<Seq<u8>, ScalpelError>(v@),
        res matches Err(e) ==> spec_decode(text@) == Err::<Seq<u8>, ScalpelError>(e),
{
    let mut buf: Vec<u8> = Vec::new();
    let mut pos: usize = 0;
    proof {
        assert(text@.skip(0) =~= text@);
    }
    while pos < text.len()
        invariant
            0 <= pos <= text@.len(),
            decode_from(text@.skip(pos as int), buf@) == spec_decode(text@),
        decreases text@.len() - pos,
    {
        let ghost t = text@.skip(pos as int);
        let mut e: usize = pos;
        while e < text.len() && text[e] != 0x0A
            invariant
                pos <= e <= text@.len(),
                forall|j: int| pos <= j < e ==> (#[trigger] text@[j]) != 0x0A,
            decreases text@.len() - e,
        {
            e = e + 1;
        }
        proof {
            assert(forall|j: int| 0 <= j < e - pos ==> t[j] == text@[j + pos]);
            lemma_nl_pos_is(t, e - pos);
        }
        let ghost line_spec = t.take(e - pos);
        let ghost rest = if e - pos < t.len() {
            t.skip(e - pos + 1)
        } else {
            t.skip(e - pos)
        };
        let next: usize = if e < text.len() {
            e + 1
        } else {
            e
        };
        proof {
            assert(rest =~= text@.skip(next as int));
        }
        if e > pos {
            let line = vstd::slice::slice_subrange(text, pos, e);
            proof {
                assert(line@ =~= line_spec);
            }
            match parse_line(line) {
                Ok((off, rectype, data)) => {
                    if rectype == 0x00 {
                        proof {
                            assert(line_data(line@).len() == line_nbytes(line@) - 5);
                        }
                        buf = apply_data_exec(buf, off as usize, data.as_slice());
                    } else if rectype == 0x01 {
                        proof {
                            assert(decode_from(t, buf@) == Ok::<Seq<u8>, ScalpelError>(buf@));
                        }
                        return Ok(buf);
                    } else {
                        return Err(ScalpelError::HexError);
                    }
                },
                Err(err) => {
                    return Err(err);
                },
            }
        }
        pos = next;
    }
    proof {
        assert(text@.skip(pos as int) =~= Seq::<u8>::empty());
    }
    Ok(buf)
}

// ---------------------------------------------------------------------------
// The round-trip law: decoding an encoded buffer gives the buffer back.
// ---------------------------------------------------------------------------

proof fn lemma_hex_char_inverts(v: u8)
    requires
        v < 16,
    ensures
        is_hex_digit(hex_char_of(v)),
        hex_digit_val(hex_char_of(v)) == v,
        hex_char_of(v) != 0x0A,
{
}

proof fn lemma_sum_nonneg(s: Seq<u8>)
    ensures
        sum_bytes(s) >= 0,
    decreases s.len(),
{
    if s.len() > 0 {
        lemma_sum_nonneg(s.drop_last());
    }
}

/// Where each rendered byte's characters sit in the hex text.
proof fn lemma_hex_data_index(s: Seq<u8>)
    ensures
        hex_data(s).len() == 2 * s.len(),
        forall|k: int|
            0 <= k < s.len() ==> hex_data(s)[2 * k] == hex_char_of((#[trigger] s[k]) / 16)
                && hex_data(s)[2 * k + 1] == hex_char_of(s[k] % 16),
    decreases s.len(),
{
    if s.len() > 0 {
        lemma_hex_data_index(s.drop_last());
        assert forall|k: int|
            0 <= k < s.len() implies hex_data(s)[2 * k] == hex_char_of((#[trigger] s[k]) / 16)
            && hex_data(s)[2 * k + 1] == hex_char_of(s[k] % 16) by {
            if k < s.len() - 1 {
                assert(s.drop_last()[k] == s[k]);
                assert(hex_data(s)[2 * k] == hex_data(s.drop_last())[2 * k]);
                assert(hex_data(s)[2 * k + 1] == hex_data(s.drop_last())[2 * k + 1]);
            } else {
                assert(hex_data(s)[2 * k] == hex_pair(s.last())[0]);
                assert(hex_data(s)[2 * k + 1] == hex_pair(s.last())[1]);
            }
        }
    }
}

/// A rendered record line is well-formed and parses back to exactly what was
/// rendered; and it contains no newline, so it is one line.
proof fn lemma_record_line_wf(offset: u16, rectype: u8, data: Seq<u8>)
    requires
        data.len() <= 255,
    ensures
        record_line(offset, rectype, data).len() == 11 + 2 * data.len(),
        forall|i: int|
            0 <= i < record_line(offset, rectype, data).len() ==> (#[trigger] record_line(
                offset,
                rectype,
                data,
            )[i]) != 0x0A,
        line_shape_ok(record_line(offset, rectype, data)),
        line_checksum_ok(record_line(offset, rectype, data)),
        line_offset(record_line(offset, rectype, data)) == offset,
        line_type(record_line(offset, rectype, data)) == rectype,
        line_data(record_line(offset, rectype, data)) == data,
{
    let rb = record_bytes(offset, rectype, data);
    let cs = checksum_of(rb);
    let rbc = rb.push(cs);
    let l = record_line(offset, rectype, data);
    assert(rbc.drop_last() =~= rb);
    assert(hex_data(rbc) == hex_data(rb) + hex_pair(cs));
    assert(l =~= seq![0x3Au8] + hex_data(rbc));
    lemma_hex_data_index(rbc);
    assert(rbc.len() == 5 + data.len());
    assert(l.len() == 11 + 2 * data.len());
    // every character after the colon is a hex digit, and none is a newline
    assert(forall|k: int| 0 <= k < rbc.len() ==> ((#[trigger] rbc[k]) / 16) < 16);
    assert forall|i: int| 1 <= i < l.len() implies is_hex_digit(#[trigger] l[i]) && l[i]
        != 0x0A by {
        let k = (i - 1) / 2;
        assert(0 <= k < rbc.len());
        if (i - 1) % 2 == 0 {
            assert(i - 1 == 2 * k);
            assert(l[i] == hex_data(rbc)[2 * k]);
            lemma_hex_char_inverts(rbc[k] / 16);
        } else {
            assert(i - 1 == 2 * k + 1);
            assert(l[i] == hex_data(rbc)[2 * k + 1]);
            lemma_hex_char_inverts(rbc[k] % 16);
        }
    }
    // each spelled byte reads back as itself
    assert forall|k: int| 0 <= k < rbc.len() implies line_byte_at(l, k) == rbc[k] by {
        assert(l[1 + 2 * k] == hex_data(rbc)[2 * k]);
        assert(l[2 + 2 * k] == hex_data(rbc)[2 * k + 1]);
        lemma_hex_char_inverts(rbc[k] / 16);
        lemma_hex_char_inverts(rbc[k] % 16);
        assert(hex_digit_val(l[1 + 2 * k]) * 16 + hex_digit_val(l[2 + 2 * k]) == (rbc[k] / 16)
            * 16 + rbc[k] % 16);
    }
    assert(line_nbytes(l) == rbc.len());
    assert(line_bytes(l) =~= rbc);
    assert(line_byte_at(l, 0) == rb[0] == data.len() as u8);
    assert(line_shape_ok(l));
    // the checksum closes the sum
    lemma_sum_nonneg(rb);
    assert(sum_bytes(rbc) == sum_bytes(rb) + cs);
    assert((sum_bytes(rb) + cs) % 256 == 0);
    assert(line_checksum_ok(l));
    assert(line_byte_at(l, 1) == (offset / 256) as u8 && line_byte_at(l, 2) == (offset
        % 256) as u8);
    assert(line_offset(l) == offset);
    assert(line_type(l) == rectype);
    assert(line_data(l) =~= data);
}

/// Folding a chunk onto the buffer it continues just appends it.
proof fn lemma_apply_append(buf: Seq<u8>, data: Seq<u8>)
    ensures
        apply_data(buf, buf.len() as int, data) == buf + data,
{
    assert(apply_data(buf, buf.len() as int, data) =~= buf + data);
}

/// Decoding the records for the rest of the buffer, onto the part already
/// rebuilt, rebuilds the whole buffer.
#[verifier::rlimit(100)]
#[verifier::spinoff_prover]
proof fn lemma_decode_data_lines(b: Seq<u8>, pos: int)
    requires
        0 <= pos <= b.len(),
        b.len() < 0x10000,
    ensures
        decode_from(data_lines(b, pos) + eof_line(), b.take(pos)) == Ok::<Seq<u8>, ScalpelError>(
            b,
        ),
    decreases b.len() - pos,
{
    lemma_record_line_wf(0, 1, Seq::<u8>::empty());
    let eof = eof_line();
    if pos == b.len() {
        let t = data_lines(b, pos) + eof;
        assert(t =~= eof);
        lemma_nl_pos_is(t, t.len() as int);
        assert(t.take(t.len() as int) =~= t);
        assert(line_type(t) == 1);
        assert(decode_from(t, b.take(pos)) == Ok::<Seq<u8>, ScalpelError>(b.take(pos)));
        assert(b.take(pos) =~= b);
    } else {
        let end = if pos + 16 <= b.len() {
            pos + 16
        } else {
            b.len() as int
        };
        let chunk = b.subrange(pos, end);
        let off16 = (pos % 0x10000) as u16;
        assert(off16 == pos);
        let line = record_line(off16, 0, chunk);
        lemma_record_line_wf(off16, 0, chunk);
        let t = data_lines(b, pos) + eof;
        let rest = data_lines(b, end) + eof;
        assert(t =~= line + seq![0x0Au8] + rest);
        assert(forall|j: int| 0 <= j < line.len() ==> #[trigger] t[j] == line[j]);
        assert(t[line.len() as int] == 0x0A);
        lemma_nl_pos_is(t, line.len() as int);
        assert(t.take(line.len() as int) =~= line);
        assert(t.skip(line.len() as int + 1) =~= rest);
        assert(line_type(line) == 0);
        lemma_apply_append(b.take(pos), chunk);
        assert(b.take(pos) + chunk =~= b.take(end));
        assert(decode_from(t, b.take(pos)) == decode_from(rest, b.take(end)));
        lemma_decode_data_lines(b, end);
    }
}

/// The round-trip law: for every buffer that fits the codec's 16-bit
/// addressing — fewer than 65536 bytes — decoding its encoding gives the
/// buffer back.
pub proof fn lemma_hex_round_trip(b: Seq<u8>)
    requires
        b.len() < 0x10000,
    ensures
        spec_decode(spec_encode(b)) == Ok::<Seq<u8>, ScalpelError>(b),
{
    assert(b.take(0) =~= Seq::<u8>::empty());
    lemma_decode_data_lines(b, 0);
}

} // verus!

//! Block dispatcher and gzip frame parser.
//!
//! A gzip member is a header (magic, method, flags, and the optional
//! fields the flags announce), a DEFLATE stream of blocks, and a trailer
//! holding CRC32 and ISIZE. The dispatcher reads each block's 3-bit
//! header and routes to the stored, fixed-Huffman or dynamic-Huffman
//! decoder until the final-block flag is seen.

pub mod huffman;
pub mod raw;

use crate::error::Error;
use crate::reader::Reader;
use crate::reader::stream_bit;
use crate::writer::Writer;
use crate::writer::lemma_prefix_refl;
use crate::decompress::raw::le16_at;
use crate::decompress::raw::spec_stored_block;
use crate::decompress::raw::spec_stored_result;
use crate::decompress::huffman::spec_payload_of_lengths;
use crate::decompress::huffman::spec_dynamic_result;
use crate::decompress::huffman::fixed_lit_lengths;
use crate::decompress::huffman::fixed_dist_lengths;
use crate::decompress::huffman::spec_fixed_block;
use crate::decompress::huffman::spec_dynamic_block;
use vstd::prelude::*;

verus! {

/// The 32-bit little-endian number at byte position `p`.
pub open spec fn le32_at(data: Seq<u8>, p: int) -> int {
    data[p] + 256 * data[p + 1] + 65536 * data[p + 2] + 16777216 * data[p + 3]
}

/// The position of the first NUL byte at or after `p`, or the stream
/// length when there is none.
pub open spec fn nul_end(data: Seq<u8>, p: int) -> int
    decreases data.len() - p,
{
    if p < 0 || p >= data.len() {
        data.len() as int
    } else if data[p] == 0 {
        p
    } else {
        nul_end(data, p + 1)
    }
}

/// The bytes decoded as latin-1: each byte becomes the Unicode code
/// point of the same value.
pub open spec fn latin1_seq(bytes: Seq<u8>) -> Seq<char> {
    Seq::new(bytes.len(), |i: int| bytes[i] as char)
}

/// The byte position right after the gzip extra field: past the fixed
/// ten header bytes, and past the length-prefixed extra payload when the
/// FEXTRA flag announces one.
pub open spec fn after_extra(data: Seq<u8>, flags: u8) -> int {
    if (flags & 0x04) > 0 {
        12 + le16_at(data, 10)
    } else {
        10
    }
}

/// The gzip header flag byte, with one accessor per defined flag bit.
pub struct GzipFlags(pub u8);

impl GzipFlags {
    pub fn is_text(&self) -> (r: bool)
        ensures
            r == ((self.0 & 0x01) > 0),
    {
        (self.0 & 0x01) > 0
    }

    pub fn has_crc(&self) -> (r: bool)
        ensures
            r == ((self.0 & 0x02) > 0),
    {
        (self.0 & 0x02) > 0
    }

    pub fn has_extra(&self) -> (r: bool)
        ensures
            r == ((self.0 & 0x04) > 0),
    {
        (self.0 & 0x04) > 0
    }

    pub fn has_name(&self) -> (r: bool)
        ensures
            r == ((self.0 & 0x08) > 0),
    {
        (self.0 & 0x08) > 0
    }

    pub fn has_comment(&self) -> (r: bool)
        ensures
            r == ((self.0 & 0x10) > 0),
    {
        (self.0 & 0x10) > 0
    }
}

/// The fields of a parsed gzip header, with the name and comment decoded
/// from latin-1.
#[derive(Debug)]
pub struct GzipHeader {
    pub flags: u8,
    pub mtime: u32,
    pub extra_flags: u8,
    pub os: u8,
    pub name: Option<String>,
    pub comment: Option<String>,
    pub header_crc: Option<u16>,
}

/// Relies on encoding_rs::mem::decode_latin1: each input byte decodes to
/// the Unicode code point of the same value.
#[verifier::external_body]
fn latin1_to_string(bytes: &Vec<u8>) -> (r: String)
    ensures
        r@ == latin1_seq(bytes@),
{
    encoding_rs::mem::decode_latin1(bytes.as_slice()).into_owned()
}

/// Reads bytes up to and consuming a NUL terminator, returning the bytes
/// before it; fails with `UnexpectedEof` when the stream ends first.
fn read_nul_terminated(reader: &mut Reader) -> (r: Result<Vec<u8>, Error>)
    requires
        old(reader).wf(),
        old(reader).bit_pos() == 0,
    ensures
        final(reader).wf(),
        final(reader).bytes() == old(reader).bytes(),
        ({
            let data = old(reader).bytes();
            let start = old(reader).byte_pos();
            let e = nul_end(data, start);
            if e < data.len() {
                &&& r is Ok
                &&& r->Ok_0@ == data.subrange(start, e)
                &&& final(reader).byte_pos() == e + 1
                &&& final(reader).bit_pos() == 0
            } else {
                r == Err::<Vec<u8>, Error>(Error::UnexpectedEof)
            }
        }),
{
    let mut buf: Vec<u8> = Vec::new();
    loop
        invariant
            old(reader).wf(),
            reader.wf(),
            reader.bytes() == old(reader).bytes(),
            reader.bit_pos() == 0,
            old(reader).byte_pos() <= reader.byte_pos() <= reader.bytes().len(),
            buf@ == reader.bytes().subrange(old(reader).byte_pos(), reader.byte_pos()),
            nul_end(reader.bytes(), old(reader).byte_pos()) == nul_end(
                reader.bytes(),
                reader.byte_pos(),
            ),
        decreases reader.bytes().len() - reader.byte_pos(),
    {
        let ghost before = reader.byte_pos();
        let b = match reader.next_byte() {
            Ok(b) => b,
            Err(e) => {
                return Err(e);
            },
        };
        if b == 0 {
            return Ok(buf);
        }
        buf.push(b);
        proof {
            assert(buf@ =~= reader.bytes().subrange(old(reader).byte_pos(), before + 1));
        }
    }
}

/// What one DEFLATE block decodes to from bit `pos` with output `out`,
/// when it decodes at all: the final-flag bit, two type bits, and the
/// typed payload; type `11` never decodes.
pub open spec fn spec_block(data: Seq<u8>, pos: int, out: Seq<u8>, cap: int) -> Option<
    (Seq<u8>, int, bool),
> {
    if pos < 0 || pos + 3 > 8 * data.len() {
        None
    } else {
        let fin = stream_bit(data, pos);
        let t0 = stream_bit(data, pos + 1);
        let t1 = stream_bit(data, pos + 2);
        let sub = if !t0 && !t1 {
            spec_stored_block(data, pos + 3, out)
        } else if t0 && !t1 {
            spec_fixed_block(data, pos + 3, out, cap)
        } else if !t0 && t1 {
            spec_dynamic_block(data, pos + 3, out, cap)
        } else {
            None
        };
        match sub {
            None => None,
            Some(v) => Some((v.0, v.1, fin)),
        }
    }
}

/// What one DEFLATE block decodes to from bit `pos` with output `out`,
/// error cases included: `UnexpectedEof` when the three header bits are
/// missing, `ReservedBlockType` for type bits `11`, and otherwise the
/// typed payload's own outcome.
pub open spec fn spec_block_result(data: Seq<u8>, pos: int, out: Seq<u8>, cap: int) -> Result<
    (Seq<u8>, int, bool),
    Error,
> {
    if pos < 0 || pos + 3 > 8 * data.len() {
        Err(Error::UnexpectedEof)
    } else {
        let fin = stream_bit(data, pos);
        let t0 = stream_bit(data, pos + 1);
        let t1 = stream_bit(data, pos + 2);
        let sub = if !t0 && !t1 {
            spec_stored_result(data, pos + 3, out)
        } else if t0 && !t1 {
            spec_payload_of_lengths(
                fixed_lit_lengths(),
                fixed_dist_lengths(),
                data,
                pos + 3,
                out,
                cap,
            )
        } else if !t0 && t1 {
            spec_dynamic_result(data, pos + 3, out, cap)
        } else {
            Err(Error::ReservedBlockType)
        };
        match sub {
            Err(e) => Err(e),
            Ok(v) => Ok((v.0, v.1, fin)),
        }
    }
}

/// Decodes one DEFLATE block: one final-flag bit, two type bits, then
/// the typed payload. Type `11` fails with `ReservedBlockType`, leaving
/// the output untouched. The result, success and error alike, is exactly
/// what `spec_block_result` gives.
pub fn decompress_block(reader: &mut Reader, writer: &mut Writer) -> (r: Result<
    (usize, bool),
    Error,
>)
    requires
        old(reader).wf(),
        old(writer).wf(),
        old(writer).window_capacity() >= 32768,
    ensures
        final(reader).wf(),
        final(writer).wf(),
        final(reader).bytes() == old(reader).bytes(),
        final(reader).cursor() >= old(reader).cursor(),
        final(writer).window_capacity() == old(writer).window_capacity(),
        old(writer)@.is_prefix_of(final(writer)@),
        r is Ok ==> old(writer)@.len() + r->Ok_0.0 == final(writer)@.len(),
        r is Ok ==> final(reader).cursor() > old(reader).cursor(),
        ({
            let data = old(reader).bytes();
            let pos = old(reader).cursor();
            &&& (pos + 3 <= 8 * data.len() && stream_bit(data, pos + 1) && stream_bit(
                data,
                pos + 2,
            )) ==> r == Err::<(usize, bool), Error>(Error::ReservedBlockType)
            &&& (r is Ok ==> pos + 3 <= 8 * data.len() && r->Ok_0.1 == stream_bit(data, pos))
        }),
        r is Ok ==> spec_block(
            old(reader).bytes(),
            old(reader).cursor(),
            old(writer)@,
            old(writer).window_capacity(),
        ) == Some((final(writer)@, final(reader).cursor(), r->Ok_0.1)),
        r is Ok ==> r->Ok_0.0 == final(writer)@.len() - old(writer)@.len(),
        (spec_block(
            old(reader).bytes(),
            old(reader).cursor(),
            old(writer)@,
            old(writer).window_capacity(),
        ) is Some) ==> r is Ok,
        ({
            match spec_block_result(
                old(reader).bytes(),
                old(reader).cursor(),
                old(writer)@,
                old(writer).window_capacity(),
            ) {
                Ok(v) => {
                    &&& r is Ok
                    &&& final(writer)@ == v.0
                    &&& final(reader).cursor() == v.1
                    &&& r->Ok_0.1 == v.2
                },
                Err(e) => r == Err::<(usize, bool), Error>(e),
            }
        }),
        (old(reader).cursor() + 3 <= 8 * old(reader).bytes().len() && stream_bit(
            old(reader).bytes(),
            old(reader).cursor() + 1,
        ) && stream_bit(old(reader).bytes(), old(reader).cursor() + 2)) ==> *final(writer) == *old(
            writer,
        ),
{
    proof {
        lemma_prefix_refl(old(writer)@);
    }
    let final_block = match reader.next_bit() {
        Ok(b) => b,
        Err(e) => {
            return Err(e);
        },
    };
    let t0 = match reader.next_bit() {
        Ok(b) => b,
        Err(e) => {
            return Err(e);
        },
    };
    let t1 = match reader.next_bit() {
        Ok(b) => b,
        Err(e) => {
            return Err(e);
        },
    };
    proof {
        reader.lemma_aligned_pos();
    }
    let bytes = if !t0 && !t1 {
        raw::decompress(reader, writer)
    } else if t0 && !t1 {
        huffman::decompress_fixed(reader, writer)
    } else if !t0 && t1 {
        huffman::decompress_dynamic(reader, writer)
    } else {
        return Err(Error::ReservedBlockType);
    };
    match bytes {
        Ok(b) => Ok((b, final_block)),
        Err(e) => Err(e),
    }
}

proof fn lemma_spec_block_range(data: Seq<u8>, pos: int, out: Seq<u8>, cap: int)
    requires
        0 <= pos,
    ensures
        (spec_block(data, pos, out, cap) matches Some(v) ==> pos < v.1 <= 8 * data.len()),
{
    if pos + 3 <= 8 * data.len() {
        crate::decompress::huffman::lemma_huffman_block_range(data, pos + 3, out, cap);
        let p = (pos + 10) / 8;
        vstd::arithmetic::div_mod::lemma_fundamental_div_mod(pos + 10, 8);
        assert(8 * p <= pos + 10 < 8 * p + 8) by {
            assert(0 <= (pos + 10) % 8 < 8);
        }
    }
}

/// What a DEFLATE block sequence decodes to from bit `pos` with output
/// `out`, when it decodes at all: blocks in turn, each feeding the next,
/// until one carries the final-block flag.
pub open spec fn spec_blocks(data: Seq<u8>, pos: int, out: Seq<u8>, cap: int) -> Option<
    (Seq<u8>, int),
>
    decreases 8 * data.len() - pos,
    when 0 <= pos
    via spec_blocks_decreases
{
    match spec_block(data, pos, out, cap) {
        None => None,
        Some(v) => if v.2 {
            Some((v.0, v.1))
        } else {
            spec_blocks(data, v.1, v.0, cap)
        },
    }
}

#[via_fn]
proof fn spec_blocks_decreases(data: Seq<u8>, pos: int, out: Seq<u8>, cap: int) {
    lemma_spec_block_range(data, pos, out, cap);
}

proof fn lemma_spec_block_result_range(data: Seq<u8>, pos: int, out: Seq<u8>, cap: int)
    requires
        0 <= pos,
    ensures
        (spec_block_result(data, pos, out, cap) matches Ok(v) ==> pos < v.1 <= 8 * data.len()),
{
    if pos + 3 <= 8 * data.len() {
        crate::decompress::huffman::lemma_huffman_block_range(data, pos + 3, out, cap);
        let p = (pos + 10) / 8;
        vstd::arithmetic::div_mod::lemma_fundamental_div_mod(pos + 10, 8);
        assert(8 * p <= pos + 10 < 8 * p + 8) by {
            assert(0 <= (pos + 10) % 8 < 8);
        }
    }
}

/// What a DEFLATE block sequence decodes to from bit `pos` with output
/// `out`, error cases included: blocks in turn, each feeding the next,
/// until one carries the final-block flag or one fails.
pub open spec fn spec_blocks_result(data: Seq<u8>, pos: int, out: Seq<u8>, cap: int) -> Result<
    (Seq<u8>, int),
    Error,
>
    decreases 8 * data.len() - pos,
    when 0 <= pos
    via spec_blocks_result_decreases
{
    match spec_block_result(data, pos, out, cap) {
        Err(e) => Err(e),
        Ok(v) => if v.2 {
            Ok((v.0, v.1))
        } else {
            spec_blocks_result(data, v.1, v.0, cap)
        },
    }
}

#[via_fn]
proof fn spec_blocks_result_decreases(data: Seq<u8>, pos: int, out: Seq<u8>, cap: int) {
    lemma_spec_block_result_range(data, pos, out, cap);
}

/// The byte position just past the whole gzip header: the fixed ten
/// bytes, then the optional extra, name, comment and CRC16 fields that
/// the flag byte announces.
pub open spec fn header_end(data: Seq<u8>) -> int {
    let ne = after_extra(data, data[3]);
    let after_name = if (data[3] & 0x08) > 0 {
        nul_end(data, ne) + 1
    } else {
        ne
    };
    let after_comment = if (data[3] & 0x10) > 0 {
        nul_end(data, after_name) + 1
    } else {
        after_name
    };
    if (data[3] & 0x02) > 0 {
        after_comment + 2
    } else {
        after_comment
    }
}

/// The gzip header of `data` is complete and well-formed: the magic
/// bytes and the DEFLATE method, the ten fixed bytes, and every optional
/// field the flag byte announces, NUL terminators included.
pub open spec fn header_ok(data: Seq<u8>) -> bool {
    let ae = after_extra(data, data[3]);
    let an = if (data[3] & 0x08) > 0 {
        nul_end(data, ae) + 1
    } else {
        ae
    };
    &&& data.len() >= 10
    &&& data[0] == 0x1f
    &&& data[1] == 0x8b
    &&& data[2] == 8
    &&& ((data[3] & 0x04) > 0 ==> 12 <= data.len() && ae <= data.len())
    &&& ((data[3] & 0x08) > 0 ==> nul_end(data, ae) < data.len())
    &&& ((data[3] & 0x10) > 0 ==> nul_end(data, an) < data.len())
    &&& ((data[3] & 0x02) > 0 ==> (if (data[3] & 0x10) > 0 {
        nul_end(data, an) + 1
    } else {
        an
    }) + 2 <= data.len())
}

/// What parsing the gzip header of `data` yields, error cases included,
/// in the order the fields are read: a bad signature is `BadMagic`, a
/// method other than 8 is `UnsupportedMethod`, and any field cut short
/// is `UnexpectedEof`.
pub open spec fn spec_header_result(data: Seq<u8>) -> Result<(), Error> {
    if data.len() < 2 || data[0] != 0x1f || data[1] != 0x8b {
        Err(Error::BadMagic)
    } else if data.len() == 2 {
        Err(Error::UnexpectedEof)
    } else if data[2] != 8 {
        Err(Error::UnsupportedMethod)
    } else if data.len() < 10 {
        Err(Error::UnexpectedEof)
    } else {
        let flags = data[3];
        let ae = after_extra(data, flags);
        if (flags & 0x04) > 0 && (data.len() < 12 || ae > data.len()) {
            Err(Error::UnexpectedEof)
        } else {
            let an = if (flags & 0x08) > 0 {
                nul_end(data, ae) + 1
            } else {
                ae
            };
            if (flags & 0x08) > 0 && nul_end(data, ae) >= data.len() {
                Err(Error::UnexpectedEof)
            } else {
                let ac = if (flags & 0x10) > 0 {
                    nul_end(data, an) + 1
                } else {
                    an
                };
                if (flags & 0x10) > 0 && nul_end(data, an) >= data.len() {
                    Err(Error::UnexpectedEof)
                } else if (flags & 0x02) > 0 && ac + 2 > data.len() {
                    Err(Error::UnexpectedEof)
                } else {
                    Ok(())
                }
            }
        }
    }
}

/// `data` is a well-formed gzip member end to end: the header parses,
/// the DEFLATE block sequence decodes, the eight trailer bytes are
/// present, and ISIZE matches the decoded length modulo 2^32. Decoding
/// succeeds exactly on such members.
pub open spec fn member_ok(data: Seq<u8>) -> bool {
    let res = spec_blocks(data, 8 * header_end(data), Seq::<u8>::empty(), 32768);
    &&& header_ok(data)
    &&& (res matches Some(v))
    &&& (res->Some_0.1 + 7) / 8 + 8 <= data.len()
    &&& (res->Some_0.0.len() as int) % 0x100000000 == le32_at(data, (res->Some_0.1 + 7) / 8 + 4)
}

/// Reads and validates the whole gzip header, leaving the reader at the
/// first DEFLATE block. The outcome, field values included, is exactly
/// what `spec_header_result` and the header field positions give.
fn read_header(reader: &mut Reader) -> (r: Result<GzipHeader, Error>)
    requires
        old(reader).wf(),
        old(reader).byte_pos() == 0,
        old(reader).bit_pos() == 0,
    ensures
        final(reader).wf(),
        final(reader).bytes() == old(reader).bytes(),
        ({
            let data = old(reader).bytes();
            match spec_header_result(data) {
                Ok(_) => {
                    &&& r is Ok
                    &&& header_ok(data)
                    &&& final(reader).byte_pos() == header_end(data)
                    &&& final(reader).bit_pos() == 0
                },
                Err(e) => r == Err::<GzipHeader, Error>(e),
            }
        }),
        header_ok(old(reader).bytes()) ==> r is Ok,
        r is Ok ==> ({
            let data = old(reader).bytes();
            let hdr = r->Ok_0;
            let ne_start = after_extra(data, data[3]);
            let name_end = nul_end(data, ne_start);
            let cm_start = if (data[3] & 0x08) > 0 {
                name_end + 1
            } else {
                ne_start
            };
            &&& data.len() >= 10
            &&& data[0] == 0x1f
            &&& data[1] == 0x8b
            &&& data[2] == 8
            &&& hdr.flags == data[3]
            &&& hdr.mtime == le32_at(data, 4)
            &&& hdr.extra_flags == data[8]
            &&& hdr.os == data[9]
            &&& (hdr.name is Some <==> (data[3] & 0x08) > 0)
            &&& (hdr.comment is Some <==> (data[3] & 0x10) > 0)
            &&& (hdr.header_crc is Some <==> (data[3] & 0x02) > 0)
            &&& ((data[3] & 0x08) > 0 ==> (hdr.name matches Some(s) && s@ == latin1_seq(
                data.subrange(ne_start, name_end),
            )))
            &&& ((data[3] & 0x10) > 0 ==> (hdr.comment matches Some(s) && s@ == latin1_seq(
                data.subrange(cm_start, nul_end(data, cm_start)),
            )))
        }),
{
    let ghost data = old(reader).bytes();

    let mut ids: Vec<u8> = Vec::new();
    match reader.copy_to(&mut ids, 2) {
        Ok(_) => {},
        Err(e) => {
            return Err(e);
        },
    }
    if ids.len() < 2 {
        return Err(Error::BadMagic);
    }
    let id0 = ids[0];
    let id1 = ids[1];
    if id0 != 0x1f || id1 != 0x8b {
        return Err(Error::BadMagic);
    }

    let cm = match reader.next_byte() {
        Ok(b) => b,
        Err(e) => {
            return Err(e);
        },
    };
    if cm != 8 {
        return Err(Error::UnsupportedMethod);
    }

    let flags_byte = match reader.next_byte() {
        Ok(b) => b,
        Err(e) => {
            return Err(e);
        },
    };
    let flags = GzipFlags(flags_byte);

    let m0 = match reader.next_byte() {
        Ok(b) => b,
        Err(e) => {
            return Err(e);
        },
    };
    let m1 = match reader.next_byte() {
        Ok(b) => b,
        Err(e) => {
            return Err(e);
        },
    };
    let m2 = match reader.next_byte() {
        Ok(b) => b,
        Err(e) => {
            return Err(e);
        },
    };
    let m3 = match reader.next_byte() {
        Ok(b) => b,
        Err(e) => {
            return Err(e);
        },
    };
    let mtime: u32 = (m0 as u32) + 256 * (m1 as u32) + 65536 * (m2 as u32) + 16777216 * (m3
        as u32);
    let extra_flags = match reader.next_byte() {
        Ok(b) => b,
        Err(e) => {
            return Err(e);
        },
    };
    let os = match reader.next_byte() {
        Ok(b) => b,
        Err(e) => {
            return Err(e);
        },
    };
    proof {
        assert(reader.byte_pos() == 10);
    }

    if flags.has_extra() {
        let x0 = match reader.next_byte() {
            Ok(b) => b,
            Err(e) => {
                return Err(e);
            },
        };
        let x1 = match reader.next_byte() {
            Ok(b) => b,
            Err(e) => {
                return Err(e);
            },
        };
        let xlen: usize = (x0 as usize) + 256 * (x1 as usize);
        let consumed = match reader.skip(xlen) {
            Ok(k) => k,
            Err(e) => {
                return Err(e);
            },
        };
        if consumed != xlen {
            return Err(Error::UnexpectedEof);
        }
    }
    proof {
        assert(reader.byte_pos() == after_extra(data, flags_byte));
        assert(reader.bit_pos() == 0);
    }

    let name = if flags.has_name() {
        let buf = match read_nul_terminated(reader) {
            Ok(b) => b,
            Err(e) => {
                return Err(e);
            },
        };
        Some(latin1_to_string(&buf))
    } else {
        None
    };

    let comment = if flags.has_comment() {
        let buf = match read_nul_terminated(reader) {
            Ok(b) => b,
            Err(e) => {
                return Err(e);
            },
        };
        Some(latin1_to_string(&buf))
    } else {
        None
    };

    let header_crc = if flags.has_crc() {
        let c0 = match reader.next_byte() {
            Ok(b) => b,
            Err(e) => {
                return Err(e);
            },
        };
        let c1 = match reader.next_byte() {
            Ok(b) => b,
            Err(e) => {
                return Err(e);
            },
        };
        Some((c0 as u16) + 256 * (c1 as u16))
    } else {
        None
    };

    Ok(GzipHeader { flags: flags_byte, mtime, extra_flags, os, name, comment, header_crc })
}

/// What decoding the member `data` yields, error cases included: the
/// header outcome, then the block sequence, then `UnexpectedEof` for a
/// missing trailer and `SizeMismatch` for an ISIZE that differs from the
/// decoded length modulo 2^32.
pub open spec fn spec_member_result(data: Seq<u8>) -> Result<Seq<u8>, Error> {
    match spec_header_result(data) {
        Err(e) => Err(e),
        Ok(_) => match spec_blocks_result(data, 8 * header_end(data), Seq::<u8>::empty(), 32768) {
            Err(e) => Err(e),
            Ok(v) => {
                let tp = (v.1 + 7) / 8;
                if tp + 8 > data.len() {
                    Err(Error::UnexpectedEof)
                } else if (v.0.len() as int) % 0x100000000 != le32_at(data, tp + 4) {
                    Err(Error::SizeMismatch)
                } else {
                    Ok(v.0)
                }
            },
        },
    }
}

/// Decodes one gzip member held in `input`: checks the magic bytes and
/// the DEFLATE method field, parses the header fields, runs the block
/// dispatcher until the final block, and checks the trailer ISIZE
/// against the output length modulo 2^32. Returns the decoded bytes and
/// the parsed header. The outcome, bytes and error kind alike, is
/// exactly what `spec_member_result` gives, so decoding succeeds on
/// every well-formed member (`member_ok`) and is a function of the input
/// bytes alone.
#[verifier::rlimit(100)]
pub fn decompress(input: Vec<u8>) -> (r: Result<(Vec<u8>, GzipHeader), Error>)
    ensures
        (input@.len() < 2 || input@[0] != 0x1f || input@[1] != 0x8b) ==> r == Err::<
            (Vec<u8>, GzipHeader),
            Error,
        >(Error::BadMagic),
        (input@.len() >= 3 && input@[0] == 0x1f && input@[1] == 0x8b && input@[2] != 8) ==> r
            == Err::<(Vec<u8>, GzipHeader), Error>(Error::UnsupportedMethod),
        r is Ok ==> ({
            let data = input@;
            let hdr = r->Ok_0.1;
            let ne_start = after_extra(data, data[3]);
            let name_end = nul_end(data, ne_start);
            let cm_start = if (data[3] & 0x08) > 0 {
                name_end + 1
            } else {
                ne_start
            };
            &&& data.len() >= 10
            &&& data[0] == 0x1f
            &&& data[1] == 0x8b
            &&& data[2] == 8
            &&& hdr.flags == data[3]
            &&& hdr.mtime == le32_at(data, 4)
            &&& hdr.extra_flags == data[8]
            &&& hdr.os == data[9]
            &&& (hdr.name is Some <==> (data[3] & 0x08) > 0)
            &&& (hdr.comment is Some <==> (data[3] & 0x10) > 0)
            &&& (hdr.header_crc is Some <==> (data[3] & 0x02) > 0)
            &&& ((data[3] & 0x08) > 0 ==> (hdr.name matches Some(s) && s@ == latin1_seq(
                data.subrange(ne_start, name_end),
            )))
            &&& ((data[3] & 0x10) > 0 ==> (hdr.comment matches Some(s) && s@ == latin1_seq(
                data.subrange(cm_start, nul_end(data, cm_start)),
            )))
        }),
        r is Ok ==> ({
            let data = input@;
            let res = spec_blocks(data, 8 * header_end(data), Seq::<u8>::empty(), 32768);
            &&& (res matches Some(v))
            &&& r->Ok_0.0@ == res->Some_0.0
            &&& (r->Ok_0.0@.len() as int) % 0x100000000 == le32_at(
                data,
                (res->Some_0.1 + 7) / 8 + 4,
            )
        }),
        member_ok(input@) ==> r is Ok,
        ({
            let data = input@;
            let res = spec_blocks(data, 8 * header_end(data), Seq::<u8>::empty(), 32768);
            (header_ok(data) && (res matches Some(v)) && (res->Some_0.1 + 7) / 8 + 8 <= data.len()
                && (res->Some_0.0.len() as int) % 0x100000000 != le32_at(
                data,
                (res->Some_0.1 + 7) / 8 + 4,
            )) ==> r == Err::<(Vec<u8>, GzipHeader), Error>(Error::SizeMismatch)
        }),
        ({
            match spec_member_result(input@) {
                Ok(out) => r matches Ok(p) && p.0@ == out,
                Err(e) => r == Err::<(Vec<u8>, GzipHeader), Error>(e),
            }
        }),
{
    let ghost data = input@;
    let mut reader = Reader::new(input);
    let mut writer = Writer::new(32768);

    let hdr = match read_header(&mut reader) {
        Ok(h) => h,
        Err(e) => {
            return Err(e);
        },
    };
    proof {
        assert(reader.byte_pos() == header_end(data));
        assert(reader.cursor() == 8 * header_end(data));
    }
    let ghost pb0 = reader.cursor();

    let mut done = false;
    while !done
        invariant
            reader.wf(),
            writer.wf(),
            reader.bytes() == data,
            writer.window_capacity() == 32768,
            data == input@,
            data.len() >= 3,
            data[0] == 0x1f,
            data[1] == 0x8b,
            data[2] == 8,
            pb0 == 8 * header_end(data),
            0 <= pb0,
            spec_header_result(data) is Ok,
            !done ==> spec_blocks(data, pb0, Seq::<u8>::empty(), 32768) == spec_blocks(
                data,
                reader.cursor(),
                writer@,
                32768,
            ),
            done ==> spec_blocks(data, pb0, Seq::<u8>::empty(), 32768) == Some(
                (writer@, reader.cursor()),
            ),
            !done ==> spec_blocks_result(data, pb0, Seq::<u8>::empty(), 32768)
                == spec_blocks_result(data, reader.cursor(), writer@, 32768),
            done ==> spec_blocks_result(data, pb0, Seq::<u8>::empty(), 32768) == Ok::<
                (Seq<u8>, int),
                Error,
            >((writer@, reader.cursor())),
        decreases 8 * reader.bytes().len() - reader.cursor() + (if done {
            0int
        } else {
            1int
        }),
    {
        let (_bytes, final_block) = match decompress_block(&mut reader, &mut writer) {
            Ok(p) => p,
            Err(e) => {
                return Err(e);
            },
        };
        if final_block {
            done = true;
        }
    }
    let ghost bout = writer@;
    let ghost bpos = reader.cursor();

    proof {
        reader.lemma_aligned_pos();
    }
    match reader.ensure_byte_boundary() {
        Ok(()) => {},
        Err(e) => {
            return Err(e);
        },
    }
    let ghost tp0 = reader.byte_pos();
    proof {
        assert(tp0 == (bpos + 7) / 8);
    }

    let mut i: usize = 0;
    while i < 4
        invariant
            reader.wf(),
            reader.bytes() == data,
            data == input@,
            data.len() >= 3,
            data[0] == 0x1f,
            data[1] == 0x8b,
            data[2] == 8,
            i <= 4,
            reader.byte_pos() == tp0 + i,
            reader.bit_pos() == 0,
            pb0 == 8 * header_end(data),
            spec_header_result(data) is Ok,
            spec_blocks(data, pb0, Seq::<u8>::empty(), 32768) == Some((bout, bpos)),
            spec_blocks_result(data, pb0, Seq::<u8>::empty(), 32768) == Ok::<
                (Seq<u8>, int),
                Error,
            >((bout, bpos)),
            tp0 == (bpos + 7) / 8,
        decreases 4 - i,
    {
        match reader.next_byte() {
            Ok(_) => {},
            Err(e) => {
                return Err(e);
            },
        }
        i = i + 1;
    }

    let s0 = match reader.next_byte() {
        Ok(b) => b,
        Err(e) => {
            return Err(e);
        },
    };
    let s1 = match reader.next_byte() {
        Ok(b) => b,
        Err(e) => {
            return Err(e);
        },
    };
    let s2 = match reader.next_byte() {
        Ok(b) => b,
        Err(e) => {
            return Err(e);
        },
    };
    let s3 = match reader.next_byte() {
        Ok(b) => b,
        Err(e) => {
            return Err(e);
        },
    };
    let isize_field: u64 = (s0 as u64) + 256 * (s1 as u64) + 65536 * (s2 as u64) + 16777216 * (s3
        as u64);

    let total = writer.output_len();
    if (total as u64) % 4294967296u64 != isize_field {
        return Err(Error::SizeMismatch);
    }

    match writer.flush() {
        Ok(()) => {},
        Err(e) => {
            return Err(e);
        },
    }

    proof {
        assert(writer@ == bout);
        assert(isize_field == le32_at(data, tp0 + 4));
        assert((bout.len() as int) % 0x100000000 == le32_at(data, (bpos + 7) / 8 + 4));
    }
    Ok((writer.into_output(), hdr))
}

} // verus!

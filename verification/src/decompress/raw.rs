//! Stored (uncompressed) DEFLATE blocks.
//!
//! A stored block is byte aligned: a 16-bit LEN, its one's complement
//! NLEN, and LEN raw bytes copied through the window to the output.

use crate::error::Error;
use crate::reader::Reader;
use crate::writer::Writer;
use crate::writer::lemma_prefix_refl;
use vstd::prelude::*;

verus! {

/// The 16-bit little-endian number at byte position `p`.
pub open spec fn le16_at(data: Seq<u8>, p: int) -> int {
    data[p] + 256 * data[p + 1]
}

/// What one stored block decodes to from bit position `pos` with output
/// `out`, when it decodes at all: the byte-aligned LEN/NLEN header must
/// be intact and the stream must hold the LEN payload bytes; the result
/// is the grown output and the bit position just past the payload.
pub open spec fn spec_stored_block(data: Seq<u8>, pos: int, out: Seq<u8>) -> Option<
    (Seq<u8>, int),
> {
    let p = (pos + 7) / 8;
    if p + 4 + le16_at(data, p) <= data.len() && le16_at(data, p) + le16_at(data, p + 2)
        == 0xffff {
        Some((out + data.subrange(p + 4, p + 4 + le16_at(data, p)), 8 * (p + 4 + le16_at(data, p))))
    } else {
        None
    }
}

/// What one stored block decodes to from bit position `pos` with output
/// `out`, error cases included: a missing header or payload is
/// `UnexpectedEof`, a failed one's-complement check is
/// `MalformedStoredBlock`, in the order the fields are read.
pub open spec fn spec_stored_result(data: Seq<u8>, pos: int, out: Seq<u8>) -> Result<
    (Seq<u8>, int),
    Error,
> {
    let p = (pos + 7) / 8;
    if p + 4 > data.len() {
        Err(Error::UnexpectedEof)
    } else if le16_at(data, p) + le16_at(data, p + 2) != 0xffff {
        Err(Error::MalformedStoredBlock)
    } else if p + 4 + le16_at(data, p) > data.len() {
        Err(Error::UnexpectedEof)
    } else {
        Ok((out + data.subrange(p + 4, p + 4 + le16_at(data, p)), 8 * (p + 4 + le16_at(data, p))))
    }
}

/// Decodes one stored block (type `00`): discards any partial byte,
/// reads LEN and NLEN, requires NLEN to be the one's complement of LEN,
/// and copies LEN raw bytes through the window to the output. Returns
/// LEN; a LEN of zero decodes to empty output without error. On success
/// the result is exactly what `spec_stored_block` gives.
pub fn decompress(reader: &mut Reader, writer: &mut Writer) -> (r: Result<usize, Error>)
    requires
        old(reader).wf(),
        old(writer).wf(),
        old(writer).window_capacity() >= 32768,
    ensures
        final(reader).wf(),
        final(writer).wf(),
        final(reader).bytes() == old(reader).bytes(),
        final(reader).cursor() >= old(reader).cursor(),
        final(writer).window_capacity() == old(writer).window_capacity(),
        old(writer)@.is_prefix_of(final(writer)@),
        ({
            let data = old(reader).bytes();
            let p = old(reader).aligned_pos();
            if p + 4 <= data.len() {
                let len_field = le16_at(data, p);
                let nlen = le16_at(data, p + 2);
                if len_field + nlen == 0xffff {
                    if p + 4 + len_field <= data.len() {
                        &&& r == Ok::<usize, Error>(len_field as usize)
                        &&& final(writer)@ == old(writer)@ + data.subrange(p + 4, p + 4 + len_field)
                        &&& final(reader).byte_pos() == p + 4 + len_field
                        &&& final(reader).bit_pos() == 0
                    } else {
                        r == Err::<usize, Error>(Error::UnexpectedEof)
                    }
                } else {
                    &&& r == Err::<usize, Error>(Error::MalformedStoredBlock)
                    &&& final(writer)@ == old(writer)@
                }
            } else {
                r == Err::<usize, Error>(Error::UnexpectedEof)
            }
        }),
        r is Ok ==> spec_stored_block(old(reader).bytes(), old(reader).cursor(), old(writer)@)
            == Some((final(writer)@, final(reader).cursor())),
        r is Ok ==> r->Ok_0 == final(writer)@.len() - old(writer)@.len(),
        ({
            match spec_stored_result(old(reader).bytes(), old(reader).cursor(), old(writer)@) {
                Ok(v) => {
                    &&& r is Ok
                    &&& final(writer)@ == v.0
                    &&& final(reader).cursor() == v.1
                },
                Err(e) => r == Err::<usize, Error>(e),
            }
        }),
{
    proof {
        lemma_prefix_refl(old(writer)@);
        old(reader).lemma_aligned_pos();
    }
    let ghost data = old(reader).bytes();
    let ghost p = old(reader).aligned_pos();
    let b0 = match reader.next_byte() {
        Ok(b) => b,
        Err(e) => {
            return Err(e);
        },
    };
    let b1 = match reader.next_byte() {
        Ok(b) => b,
        Err(e) => {
            return Err(e);
        },
    };
    let n0 = match reader.next_byte() {
        Ok(b) => b,
        Err(e) => {
            return Err(e);
        },
    };
    let n1 = match reader.next_byte() {
        Ok(b) => b,
        Err(e) => {
            return Err(e);
        },
    };
    let len_field: usize = (b0 as usize) + 256 * (b1 as usize);
    let nlen: usize = (n0 as usize) + 256 * (n1 as usize);
    if len_field + nlen != 0xffff {
        return Err(Error::MalformedStoredBlock);
    }
    let mut remain: usize = len_field;
    while remain > 0
        invariant
            data == old(reader).bytes(),
            p == old(reader).aligned_pos(),
            reader.wf(),
            writer.wf(),
            reader.bytes() == data,
            writer.window_capacity() == old(writer).window_capacity(),
            writer.window_capacity() >= 32768,
            remain <= len_field,
            len_field == le16_at(data, p),
            le16_at(data, p) + le16_at(data, p + 2) == 0xffff,
            p + 4 <= data.len(),
            old(reader).wf(),
            old(reader).cursor() <= 8 * p,
            reader.byte_pos() == p + 4 + (len_field - remain),
            reader.bit_pos() == 0,
            writer@ == old(writer)@ + data.subrange(p + 4, p + 4 + (len_field - remain)),
            old(writer)@.is_prefix_of(writer@),
        decreases remain,
    {
        let chunk = if remain < 32768 {
            remain
        } else {
            32768
        };
        let ghost done = (len_field - remain) as int;
        match writer.copy_from(reader, chunk) {
            Ok(_) => {},
            Err(e) => {
                return Err(e);
            },
        }
        proof {
            assert(p + 4 + done + chunk <= data.len());
            assert(data.subrange(p + 4, p + 4 + done) + data.subrange(
                p + 4 + done,
                p + 4 + done + chunk,
            ) =~= data.subrange(p + 4, p + 4 + done + chunk));
            assert(writer@ =~= old(writer)@ + data.subrange(p + 4, p + 4 + done + chunk));
            assert(writer@.subrange(0, old(writer)@.len() as int) =~= old(writer)@);
        }
        remain = remain - chunk;
    }
    proof {
        if len_field == 0 {
            assert(writer@ =~= old(writer)@ + data.subrange(p + 4, p + 4));
        }
    }
    Ok(len_field)
}

} // verus!

//! Bit-oriented reader over an in-memory byte stream.
//!
//! DEFLATE packs its data elements into bytes starting with the least
//! significant bit, while whole-byte fields (stored-block LEN/NLEN, the
//! gzip header and trailer) are byte aligned. One reader serves both: it
//! tracks a byte index and a bit index within the current byte, and the
//! byte-aligned operations first discard any partially consumed byte.

use crate::error::Error;
use vstd::prelude::*;

verus! {

/// True iff bit `i` (counting from the least significant end) of `b` is set.
pub open spec fn nth_bit(b: u8, i: usize) -> bool {
    ((b >> i) & 1) == 1
}

/// The bit at absolute position `i` of the stream `data`, in the order the
/// reader delivers bits: bytes in sequence order, bits within a byte from
/// the least significant end.
pub open spec fn stream_bit(data: Seq<u8>, i: int) -> bool
    recommends
        0 <= i < 8 * data.len(),
{
    nth_bit(data[i / 8], (i % 8) as usize)
}

/// Reads an in-memory byte stream one bit or one byte at a time.
pub struct Reader {
    data: Vec<u8>,
    byte_pos: usize,
    bit_pos: usize,
}

impl Reader {
    /// The whole underlying byte stream.
    pub closed spec fn bytes(&self) -> Seq<u8> {
        self.data@
    }

    /// Index of the byte the next bit is taken from.
    pub closed spec fn byte_pos(&self) -> int {
        self.byte_pos as int
    }

    /// Number of bits already consumed from the current byte, in `[0, 8)`.
    pub closed spec fn bit_pos(&self) -> int {
        self.bit_pos as int
    }

    /// Total number of bits consumed so far.
    pub open spec fn cursor(&self) -> int {
        8 * self.byte_pos() + self.bit_pos()
    }

    /// Index of the next byte a byte-aligned read would deliver.
    pub open spec fn aligned_pos(&self) -> int {
        self.byte_pos() + if self.bit_pos() > 0 { 1int } else { 0int }
    }

    pub open spec fn wf(&self) -> bool {
        &&& self.bytes().len() <= usize::MAX
        &&& 0 <= self.byte_pos() <= self.bytes().len()
        &&& 0 <= self.bit_pos() < 8
        &&& self.bit_pos() > 0 ==> self.byte_pos() < self.bytes().len()
    }

    /// The aligned position is the bit cursor rounded up to a whole byte.
    pub proof fn lemma_aligned_pos(&self)
        requires
            self.wf(),
        ensures
            self.aligned_pos() == (self.cursor() + 7) / 8,
            8 * self.byte_pos() <= self.cursor() <= 8 * self.aligned_pos(),
    {
        if self.bit_pos() > 0 {
            vstd::arithmetic::div_mod::lemma_fundamental_div_mod_converse(
                self.cursor() + 7,
                8,
                self.byte_pos() + 1,
                self.bit_pos() - 1,
            );
        } else {
            vstd::arithmetic::div_mod::lemma_fundamental_div_mod_converse(
                self.cursor() + 7,
                8,
                self.byte_pos(),
                7,
            );
        }
    }

    pub fn new(data: Vec<u8>) -> (r: Reader)
        ensures
            r.wf(),
            r.bytes() == data@,
            r.byte_pos() == 0,
            r.bit_pos() == 0,
    {
        proof {
            assert(data@.len() == data.len());
        }
        Reader { data, byte_pos: 0, bit_pos: 0 }
    }

    /// Delivers the next bit of the stream, least-significant bit of the
    /// current byte first. Fails exactly when every bit has been consumed.
    pub fn next_bit(&mut self) -> (r: Result<bool, Error>)
        requires
            old(self).wf(),
        ensures
            final(self).wf(),
            final(self).bytes() == old(self).bytes(),
            old(self).byte_pos() < old(self).bytes().len() ==> {
                &&& r == Ok::<bool, Error>(stream_bit(old(self).bytes(), old(self).cursor()))
                &&& final(self).cursor() == old(self).cursor() + 1
                &&& if old(self).bit_pos() == 7 {
                    final(self).byte_pos() == old(self).byte_pos() + 1
                        && final(self).bit_pos() == 0
                } else {
                    final(self).byte_pos() == old(self).byte_pos()
                        && final(self).bit_pos() == old(self).bit_pos() + 1
                }
            },
            old(self).byte_pos() >= old(self).bytes().len() ==> {
                r == Err::<bool, Error>(Error::UnexpectedEof) && *final(self) == *old(self)
            },
    {
        if self.byte_pos >= self.data.len() {
            return Err(Error::UnexpectedEof);
        }
        let b = self.data[self.byte_pos];
        let bit = ((b >> self.bit_pos) & 1) == 1;
        proof {
            vstd::arithmetic::div_mod::lemma_fundamental_div_mod_converse(
                self.cursor(),
                8,
                self.byte_pos(),
                self.bit_pos(),
            );
        }
        if self.bit_pos == 7 {
            self.bit_pos = 0;
            self.byte_pos = self.byte_pos + 1;
        } else {
            self.bit_pos = self.bit_pos + 1;
        }
        Ok(bit)
    }

    /// Discards any partially consumed byte so that the next read is byte
    /// aligned. A no-op when already aligned; never fails.
    pub fn ensure_byte_boundary(&mut self) -> (r: Result<(), Error>)
        requires
            old(self).wf(),
        ensures
            final(self).wf(),
            final(self).bytes() == old(self).bytes(),
            final(self).byte_pos() == old(self).aligned_pos(),
            final(self).bit_pos() == 0,
            r == Ok::<(), Error>(()),
    {
        if self.bit_pos > 0 {
            self.bit_pos = 0;
            self.byte_pos = self.byte_pos + 1;
        }
        Ok(())
    }

    /// Realigns to the next byte boundary, discarding any remaining bits of
    /// the current byte, and delivers the next whole byte. Fails exactly
    /// when no whole byte remains.
    pub fn next_byte(&mut self) -> (r: Result<u8, Error>)
        requires
            old(self).wf(),
        ensures
            final(self).wf(),
            final(self).bytes() == old(self).bytes(),
            old(self).aligned_pos() < old(self).bytes().len() ==> {
                &&& r == Ok::<u8, Error>(old(self).bytes()[old(self).aligned_pos()])
                &&& final(self).byte_pos() == old(self).aligned_pos() + 1
                &&& final(self).bit_pos() == 0
            },
            old(self).aligned_pos() >= old(self).bytes().len() ==> {
                r == Err::<u8, Error>(Error::UnexpectedEof) && *final(self) == *old(self)
            },
    {
        let p = if self.bit_pos > 0 { self.byte_pos + 1 } else { self.byte_pos };
        if p >= self.data.len() {
            return Err(Error::UnexpectedEof);
        }
        let byte = self.data[p];
        self.byte_pos = p + 1;
        self.bit_pos = 0;
        Ok(byte)
    }

    /// Realigns to a byte boundary, then appends to `dst` as many of the
    /// next `length` bytes as the stream still holds, and reports how many
    /// that was. Never fails; a short stream yields a short count.
    pub fn copy_to(&mut self, dst: &mut Vec<u8>, length: usize) -> (r: Result<usize, Error>)
        requires
            old(self).wf(),
        ensures
            final(self).wf(),
            final(self).bytes() == old(self).bytes(),
            ({
                let p = old(self).aligned_pos();
                let k = vstd::math::min(length as int, old(self).bytes().len() - p);
                &&& r == Ok::<usize, Error>(k as usize)
                &&& final(dst)@ == old(dst)@ + old(self).bytes().subrange(p, p + k)
                &&& final(self).byte_pos() == p + k
                &&& final(self).bit_pos() == 0
            }),
    {
        if self.bit_pos > 0 {
            self.bit_pos = 0;
            self.byte_pos = self.byte_pos + 1;
        }
        let avail = self.data.len() - self.byte_pos;
        let k = if length < avail { length } else { avail };
        let mut i: usize = 0;
        while i < k
            invariant
                self.wf(),
                i <= k,
                self.byte_pos() + k <= self.bytes().len(),
                self.bytes() == old(self).bytes(),
                self.byte_pos == old(self).aligned_pos(),
                self.bit_pos == 0,
                dst@ == old(dst)@ + self.bytes().subrange(
                    self.byte_pos(),
                    self.byte_pos() + i,
                ),
            decreases k - i,
        {
            dst.push(self.data[self.byte_pos + i]);
            i = i + 1;
            proof {
                assert(dst@ == old(dst)@ + self.bytes().subrange(
                    self.byte_pos(),
                    self.byte_pos() + i,
                )) by {
                    assert(self.bytes().subrange(self.byte_pos(), self.byte_pos() + i)
                        == self.bytes().subrange(self.byte_pos(), self.byte_pos() + i - 1)
                            .push(self.bytes()[self.byte_pos() + i - 1]));
                }
            }
        }
        self.byte_pos = self.byte_pos + k;
        Ok(k)
    }

    /// As `copy_to`, but discards the bytes instead of collecting them.
    pub fn skip(&mut self, length: usize) -> (r: Result<usize, Error>)
        requires
            old(self).wf(),
        ensures
            final(self).wf(),
            final(self).bytes() == old(self).bytes(),
            ({
                let p = old(self).aligned_pos();
                let k = vstd::math::min(length as int, old(self).bytes().len() - p);
                &&& r == Ok::<usize, Error>(k as usize)
                &&& final(self).byte_pos() == p + k
                &&& final(self).bit_pos() == 0
            }),
    {
        if self.bit_pos > 0 {
            self.bit_pos = 0;
            self.byte_pos = self.byte_pos + 1;
        }
        let avail = self.data.len() - self.byte_pos;
        let k = if length < avail { length } else { avail };
        self.byte_pos = self.byte_pos + k;
        Ok(k)
    }
}

} // verus!

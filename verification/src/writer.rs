//! Output stage: a sliding window paired with the decoded output.
//!
//! Every byte admitted to the window is also appended to the output, in
//! the same order, so the window always holds the most recent output
//! bytes and back-references read from actual prior output.

use crate::error::Error;
use crate::reader::Reader;
use crate::ring_buffer::RingBuffer;
use crate::ring_buffer::ring_copy_within;
use crate::ring_buffer::ring_copy_written;
use crate::ring_buffer::ring_push;
use crate::ring_buffer::ring_push_all;
use vstd::prelude::*;

verus! {

/// `w` is the window that belongs to the output `out`: the most recent
/// `min(out.len(), cap)` bytes of `out`.
pub open spec fn is_window(out: Seq<u8>, w: Seq<u8>, cap: int) -> bool {
    &&& w.len() == vstd::math::min(out.len() as int, cap)
    &&& w == out.subrange(out.len() - w.len(), out.len() as int)
}

/// A sequence is a prefix of itself.
pub proof fn lemma_prefix_refl(s: Seq<u8>)
    ensures
        s.is_prefix_of(s),
{
    assert(s.subrange(0, s.len() as int) =~= s);
}

proof fn lemma_window_step(out: Seq<u8>, w: Seq<u8>, cap: int, v: u8)
    requires
        0 < cap,
        is_window(out, w, cap),
    ensures
        is_window(out.push(v), ring_push(w, cap, v), cap),
{
    let out2 = out.push(v);
    let w2 = ring_push(w, cap, v);
    assert(w2 =~= out2.subrange(out2.len() - w2.len(), out2.len() as int));
}

proof fn lemma_window_push_all(out: Seq<u8>, w: Seq<u8>, cap: int, bs: Seq<u8>)
    requires
        0 < cap,
        is_window(out, w, cap),
    ensures
        is_window(out + bs, ring_push_all(w, cap, bs), cap),
    decreases bs.len(),
{
    if bs.len() == 0 {
        assert(out + bs =~= out);
    } else {
        lemma_window_push_all(out, w, cap, bs.drop_last());
        lemma_window_step(out + bs.drop_last(), ring_push_all(w, cap, bs.drop_last()), cap, bs.last());
        assert(out + bs =~= (out + bs.drop_last()).push(bs.last()));
    }
}

proof fn lemma_window_copy(out: Seq<u8>, w: Seq<u8>, cap: int, d: int, l: nat)
    requires
        0 < cap,
        0 < d <= w.len(),
        w.len() <= cap,
        is_window(out, w, cap),
    ensures
        is_window(out + ring_copy_written(w, cap, d, l), ring_copy_within(w, cap, d, l), cap),
        ring_copy_written(w, cap, d, l).len() == l,
        ring_copy_within(w, cap, d, l).len() >= w.len(),
        ring_copy_within(w, cap, d, l).len() <= cap,
    decreases l,
{
    if l == 0 {
        assert(out + ring_copy_written(w, cap, d, l) =~= out);
    } else {
        lemma_window_copy(out, w, cap, d, (l - 1) as nat);
        let prev = ring_copy_within(w, cap, d, (l - 1) as nat);
        let outp = out + ring_copy_written(w, cap, d, (l - 1) as nat);
        lemma_window_step(outp, prev, cap, prev[prev.len() - d]);
        assert(out + ring_copy_written(w, cap, d, l) =~= outp.push(prev[prev.len() - d]));
    }
}

/// Pairs the sliding window with the decoded output stream. Every byte
/// admitted to the window is appended to the output in the same order.
pub struct Writer {
    out: Vec<u8>,
    ringbuf: RingBuffer<u8>,
}

impl View for Writer {
    type V = Seq<u8>;

    /// The whole decoded output emitted so far.
    closed spec fn view(&self) -> Seq<u8> {
        self.out@
    }
}

impl Writer {
    /// The current window contents: the most recent output bytes.
    pub closed spec fn window(&self) -> Seq<u8> {
        self.ringbuf@
    }

    /// The window capacity fixed at construction.
    pub closed spec fn window_capacity(&self) -> int {
        self.ringbuf.spec_capacity()
    }

    pub closed spec fn wf(&self) -> bool {
        &&& self.ringbuf.wf()
        &&& 0 < self.ringbuf.spec_capacity()
        &&& is_window(self.out@, self.ringbuf@, self.ringbuf.spec_capacity())
    }

    /// The window is a function of the output alone: the most recent
    /// `min(output length, capacity)` output bytes.
    pub proof fn lemma_window_of_output(&self)
        requires
            self.wf(),
        ensures
            self.window().len() == vstd::math::min(self@.len() as int, self.window_capacity()),
            self.window() == self@.subrange(self@.len() - self.window().len(), self@.len() as int),
    {
    }

    pub fn new(buf_size: usize) -> (r: Writer)
        requires
            buf_size > 0,
        ensures
            r.wf(),
            r@ == Seq::<u8>::empty(),
            r.window_capacity() == buf_size,
    {
        let w = Writer { out: Vec::new(), ringbuf: RingBuffer::new(buf_size) };
        proof {
            assert(w.out@.subrange(0, 0) =~= Seq::<u8>::empty());
        }
        w
    }

    /// Admits one literal byte: it enters the window and the output.
    pub fn push(&mut self, value: u8) -> (r: Result<(), Error>)
        requires
            old(self).wf(),
        ensures
            final(self).wf(),
            final(self).window_capacity() == old(self).window_capacity(),
            final(self)@ == old(self)@.push(value),
            r == Ok::<(), Error>(()),
    {
        proof {
            lemma_window_step(self.out@, self.ringbuf@, self.ringbuf.spec_capacity(), value);
        }
        self.ringbuf.push(value);
        self.out.push(value);
        Ok(())
    }

    /// Stored-block payload: admits `length` bytes from the byte-aligned
    /// reader through the window into the output, returning the count.
    /// Fails with `UnexpectedEof`, leaving the output unchanged, exactly
    /// when the reader holds fewer than `length` bytes past its aligned
    /// position.
    pub fn copy_from(&mut self, reader: &mut Reader, length: usize) -> (r: Result<usize, Error>)
        requires
            old(self).wf(),
            old(reader).wf(),
            length <= old(self).window_capacity(),
        ensures
            final(self).wf(),
            final(reader).wf(),
            final(self).window_capacity() == old(self).window_capacity(),
            final(reader).bytes() == old(reader).bytes(),
            length == 0 ==> {
                &&& r == Ok::<usize, Error>(0)
                &&& *final(self) == *old(self)
                &&& *final(reader) == *old(reader)
            },
            length > 0 ==> {
                let p = old(reader).aligned_pos();
                let avail = old(reader).bytes().len() - p;
                if length <= avail {
                    &&& r == Ok::<usize, Error>(length)
                    &&& final(self)@ == old(self)@ + old(reader).bytes().subrange(p, p + length)
                    &&& final(reader).byte_pos() == p + length
                    &&& final(reader).bit_pos() == 0
                } else {
                    &&& r == Err::<usize, Error>(Error::UnexpectedEof)
                    &&& final(self)@ == old(self)@
                    &&& final(reader).byte_pos() == old(reader).bytes().len()
                    &&& final(reader).bit_pos() == 0
                }
            },
    {
        if length == 0 {
            return Ok(0);
        }
        let (first, second) = match self.ringbuf.copy_from(reader, length) {
            Ok(pair) => pair,
            Err(e) => {
                return Err(e);
            },
        };
        proof {
            if length > 0 {
                let p = old(reader).aligned_pos();
                let bs = old(reader).bytes().subrange(p, p + length);
                lemma_window_push_all(
                    self.out@,
                    old(self).window(),
                    self.ringbuf.spec_capacity(),
                    bs,
                );
                assert(first@ + second@ == bs);
            }
        }
        self.append_out(&first);
        self.append_out(&second);
        proof {
            let p = old(reader).aligned_pos();
            let bs = old(reader).bytes().subrange(p, p + length);
            assert(self.out@ =~= old(self).out@ + bs);
        }
        Ok(length)
    }

    /// Emits a back-reference: `length` bytes, each read `distance`
    /// positions back in the output at the moment it is written. Succeeds
    /// with the byte count exactly when `0 < distance <= ` the window
    /// length; otherwise fails with `InvalidBackreference` and changes
    /// nothing.
    pub fn copy_within(&mut self, distance: usize, length: usize) -> (r: Result<usize, Error>)
        requires
            old(self).wf(),
            length <= old(self).window_capacity(),
        ensures
            final(self).wf(),
            final(self).window_capacity() == old(self).window_capacity(),
            if 0 < distance <= old(self).window().len() {
                &&& r == Ok::<usize, Error>(length)
                &&& final(self)@ == old(self)@ + ring_copy_written(
                    old(self).window(),
                    old(self).window_capacity(),
                    distance as int,
                    length as nat,
                )
            } else {
                &&& r == Err::<usize, Error>(Error::InvalidBackreference)
                &&& *final(self) == *old(self)
            },
    {
        if distance == 0 {
            return Err(Error::InvalidBackreference);
        }
        if distance > self.ringbuf.len() {
            return Err(Error::InvalidBackreference);
        }
        proof {
            lemma_window_copy(
                self.out@,
                self.ringbuf@,
                self.ringbuf.spec_capacity(),
                distance as int,
                length as nat,
            );
        }
        let (first, second) = self.ringbuf.copy_within(distance, length);
        self.append_out(&first);
        self.append_out(&second);
        proof {
            let w = ring_copy_written(
                old(self).window(),
                old(self).window_capacity(),
                distance as int,
                length as nat,
            );
            assert(first@ + second@ == w);
            assert(self.out@ =~= old(self).out@ + w);
        }
        Ok(length)
    }

    /// How many bytes have been emitted so far.
    pub fn output_len(&self) -> (r: usize)
        ensures
            r == self@.len(),
    {
        self.out.len()
    }

    /// Flushing is a no-op for an in-memory output; it never fails.
    pub fn flush(&mut self) -> (r: Result<(), Error>)
        requires
            old(self).wf(),
        ensures
            *final(self) == *old(self),
            r == Ok::<(), Error>(()),
    {
        Ok(())
    }

    /// Hands the accumulated output to the caller, consuming the writer.
    pub fn into_output(self) -> (r: Vec<u8>)
        ensures
            r@ == self@,
    {
        self.out
    }

    fn append_out(&mut self, bytes: &Vec<u8>)
        ensures
            final(self).out@ == old(self).out@ + bytes@,
            final(self).ringbuf == old(self).ringbuf,
    {
        let mut i: usize = 0;
        while i < bytes.len()
            invariant
                i <= bytes@.len(),
                self.out@.len() == old(self).out@.len() + i,
                self.out@ == old(self).out@ + bytes@.subrange(0, i as int),
                self.ringbuf == old(self).ringbuf,
            decreases bytes@.len() - i,
        {
            self.out.push(bytes[i]);
            i = i + 1;
            proof {
                assert(self.out@ =~= old(self).out@ + bytes@.subrange(0, i as int));
            }
        }
        proof {
            assert(self.out@ =~= old(self).out@ + bytes@);
        }
    }
}

} // verus!

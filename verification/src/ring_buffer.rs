//! Fixed-capacity circular byte buffer: the DEFLATE sliding window.
//!
//! The buffer admits elements one at a time; once full, each new element
//! overwrites the oldest. Back-references are resolved by `copy_within`,
//! whose effect is defined byte by byte so that a copy whose length
//! exceeds its distance repeats the trailing bytes (RLE-style).

use crate::error::Error;
use crate::reader::Reader;
use vstd::prelude::*;

verus! {

/// One element admitted to a ring of capacity `cap` holding `s`: appended
/// while there is room, otherwise the oldest element is dropped.
pub open spec fn ring_push<T>(s: Seq<T>, cap: int, v: T) -> Seq<T> {
    if s.len() < cap {
        s.push(v)
    } else {
        s.skip(1).push(v)
    }
}

/// Every element of `vs` admitted in order.
pub open spec fn ring_push_all<T>(s: Seq<T>, cap: int, vs: Seq<T>) -> Seq<T>
    decreases vs.len(),
{
    if vs.len() == 0 {
        s
    } else {
        ring_push(ring_push_all(s, cap, vs.drop_last()), cap, vs.last())
    }
}

/// The contents after a back-reference copy of `l` elements at distance
/// `d`: `l` single-element admissions, each reading the element `d`
/// positions before the write cursor at that moment. When `l > d` this
/// repeats the trailing `d` elements.
pub open spec fn ring_copy_within<T>(s: Seq<T>, cap: int, d: int, l: nat) -> Seq<T>
    recommends
        0 < d <= s.len(),
        s.len() <= cap,
    decreases l,
{
    if l == 0 {
        s
    } else {
        let prev = ring_copy_within(s, cap, d, (l - 1) as nat);
        ring_push(prev, cap, prev[prev.len() - d])
    }
}

/// The `l` elements that the same copy writes, in write order.
pub open spec fn ring_copy_written<T>(s: Seq<T>, cap: int, d: int, l: nat) -> Seq<T>
    recommends
        0 < d <= s.len(),
        s.len() <= cap,
    decreases l,
{
    if l == 0 {
        Seq::empty()
    } else {
        let prev = ring_copy_within(s, cap, d, (l - 1) as nat);
        ring_copy_written(s, cap, d, (l - 1) as nat).push(prev[prev.len() - d])
    }
}

/// A circular buffer of fixed capacity. The logical contents are the most
/// recently admitted elements, oldest first.
pub struct RingBuffer<T> {
    buf: Vec<T>,
    next: usize,
    cap: usize,
}

impl<T> View for RingBuffer<T> {
    type V = Seq<T>;

    /// The logical contents, oldest element first.
    closed spec fn view(&self) -> Seq<T> {
        if self.buf@.len() == self.cap {
            self.buf@.subrange(self.next as int, self.cap as int)
                + self.buf@.subrange(0, self.next as int)
        } else {
            self.buf@
        }
    }
}

impl<T> RingBuffer<T> {
    /// Capacity fixed at construction; never changes afterwards.
    pub closed spec fn spec_capacity(&self) -> int {
        self.cap as int
    }

    /// The storage index that the next admitted element will occupy.
    pub closed spec fn spec_next(&self) -> int {
        self.next as int
    }

    pub closed spec fn wf(&self) -> bool {
        &&& 0 < self.cap
        &&& self.buf@.len() <= self.cap
        &&& self.next < self.cap
        &&& self.buf@.len() == self.cap || self.next == self.buf@.len()
    }

    pub fn new(size: usize) -> (r: RingBuffer<T>)
        requires
            size > 0,
        ensures
            r.wf(),
            r@ == Seq::<T>::empty(),
            r.spec_capacity() == size,
            r.spec_next() == 0,
    {
        RingBuffer { buf: Vec::new(), next: 0, cap: size }
    }

    pub fn capacity(&self) -> (r: usize)
        ensures
            r == self.spec_capacity(),
    {
        self.cap
    }

    pub fn len(&self) -> (r: usize)
        requires
            self.wf(),
        ensures
            r == self@.len(),
    {
        if self.buf.len() == self.cap {
            self.cap
        } else {
            self.next
        }
    }

    pub fn is_wrapped(&self) -> (r: bool)
        requires
            self.wf(),
        ensures
            r == (self@.len() == self.spec_capacity()),
    {
        self.buf.len() == self.cap
    }

    /// Admits one element; once the buffer is full, the oldest element is
    /// overwritten.
    pub fn push(&mut self, value: T)
        requires
            old(self).wf(),
        ensures
            final(self).wf(),
            final(self).spec_capacity() == old(self).spec_capacity(),
            final(self)@ == ring_push(old(self)@, old(self).spec_capacity(), value),
            final(self).spec_next() == if old(self).spec_next() + 1 == old(self).spec_capacity() {
                0int
            } else {
                old(self).spec_next() + 1
            },
    {
        if self.buf.len() == self.cap {
            self.buf[self.next] = value;
            proof {
                let ov = old(self)@;
                let c = self.cap as int;
                let n = old(self).spec_next();
                let nb = self.buf@;
                if n + 1 < c {
                    assert((if nb.len() == c {
                        nb.subrange(n + 1, c) + nb.subrange(0, n + 1)
                    } else {
                        nb
                    }) =~= ov.skip(1).push(value));
                } else {
                    assert((if nb.len() == c {
                        nb.subrange(0, c) + nb.subrange(0, 0)
                    } else {
                        nb
                    }) =~= ov.skip(1).push(value));
                }
            }
        } else {
            self.buf.push(value);
            proof {
                let c = self.cap as int;
                let nb = self.buf@;
                if nb.len() == c {
                    assert(nb.subrange(0, c) + nb.subrange(0, 0) =~= nb);
                }
            }
        }
        self.next = self.next + 1;
        if self.next == self.cap {
            self.next = 0;
        }
    }

    /// The contents as two borrowed runs of storage: all of the contents
    /// is in the first run until the buffer wraps, after which the split
    /// point is the write cursor.
    pub fn as_slices(&self) -> (r: (&[T], &[T]))
        requires
            self.wf(),
        ensures
            r.0@ + r.1@ == self@,
            if self@.len() == self.spec_capacity() {
                r.1@.len() == self.spec_next()
            } else {
                r.1@.len() == 0
            },
    {
        let s = self.buf.as_slice();
        if self.buf.len() == self.cap {
            let first = vstd::slice::slice_subrange(s, self.next, self.cap);
            let second = vstd::slice::slice_subrange(s, 0, self.next);
            (first, second)
        } else {
            let first = vstd::slice::slice_subrange(s, 0, self.buf.len());
            let second = vstd::slice::slice_subrange(s, 0, 0);
            proof {
                assert(first@ + second@ =~= self@);
            }
            (first, second)
        }
    }
}

impl<T> RingBuffer<T> {
    /// The contents as two mutable runs of storage, split as in
    /// `as_slices`. A slice cannot change its length, so when the runs
    /// come back with their lengths intact the buffer holds their final
    /// contents in the same arrangement.
    pub fn as_mut_slices(&mut self) -> (r: (&mut [T], &mut [T]))
        requires
            old(self).wf(),
        ensures
            r.0@ + r.1@ == old(self)@,
            (if old(self)@.len() == old(self).spec_capacity() {
                r.1@.len() == old(self).spec_next()
            } else {
                r.1@.len() == 0
            }),
            final(self).spec_capacity() == old(self).spec_capacity(),
            final(self).spec_next() == old(self).spec_next(),
            (final(r.0)@.len() == r.0@.len() && final(r.1)@.len() == r.1@.len()) ==> {
                &&& final(self).wf()
                &&& final(self)@ == final(r.0)@ + final(r.1)@
            },
    {
        let wrapped = self.buf.len() == self.cap;
        let next = self.next;
        let (a, b) = self.buf.as_mut_slice().split_at_mut(next);
        if wrapped {
            proof {
                assert(b@ + a@ =~= old(self)@);
            }
            (b, a)
        } else {
            proof {
                assert(a@ + b@ =~= old(self)@);
            }
            (a, b)
        }
    }
}

/// Stepping the write cursor: adding one more admission to `n` moves the
/// cursor `n % c` forward by one, wrapping at the capacity.
proof fn lemma_cursor_step(n: int, c: int, cur: int)
    requires
        c > 0,
        0 <= n,
        cur == n % c,
    ensures
        (n + 1) % c == if cur + 1 == c {
            0int
        } else {
            cur + 1
        },
{
    vstd::arithmetic::div_mod::lemma_fundamental_div_mod(n, c);
    vstd::arithmetic::div_mod::lemma_mod_bound(n, c);
    if cur + 1 == c {
        assert((n / c + 1) * c + 0 == n + 1) by (nonlinear_arith)
            requires
                n == c * (n / c) + cur,
                cur + 1 == c,
        ;
        vstd::arithmetic::div_mod::lemma_fundamental_div_mod_converse(n + 1, c, n / c + 1, 0);
    } else {
        assert((n / c) * c + (cur + 1) == n + 1) by (nonlinear_arith)
            requires
                n == c * (n / c) + cur,
        ;
        vstd::arithmetic::div_mod::lemma_fundamental_div_mod_converse(n + 1, c, n / c, cur + 1);
    }
}

impl<T: Copy> RingBuffer<T> {
    /// Back-reference expansion: admits `length` elements, each read from
    /// `distance` positions before the write cursor at the moment it is
    /// written, so that `length > distance` repeats the trailing
    /// `distance` elements. Returns the elements written, split where the
    /// write position wrapped around the end of storage.
    pub fn copy_within(&mut self, distance: usize, length: usize) -> (r: (Vec<T>, Vec<T>))
        requires
            old(self).wf(),
            0 < distance <= old(self)@.len(),
            length <= old(self).spec_capacity(),
        ensures
            final(self).wf(),
            final(self).spec_capacity() == old(self).spec_capacity(),
            final(self)@ == ring_copy_within(
                old(self)@,
                old(self).spec_capacity(),
                distance as int,
                length as nat,
            ),
            r.0@ + r.1@ == ring_copy_written(
                old(self)@,
                old(self).spec_capacity(),
                distance as int,
                length as nat,
            ),
            r.0@.len() == vstd::math::min(
                length as int,
                old(self).spec_capacity() - old(self).spec_next(),
            ),
            final(self).spec_next() == (old(self).spec_next() + length) % old(
                self,
            ).spec_capacity(),
    {
        let ghost s0 = old(self)@;
        let ghost c = old(self).spec_capacity();
        let ghost d = distance as int;
        let ghost n0 = old(self).spec_next();
        proof {
            vstd::arithmetic::div_mod::lemma_fundamental_div_mod_converse(n0, c, 0, n0);
        }
        let boundary = self.cap - self.next;
        let mut first: Vec<T> = Vec::new();
        let mut second: Vec<T> = Vec::new();
        let mut i: usize = 0;
        while i < length
            invariant
                self.wf(),
                i <= length,
                length <= c,
                self.spec_capacity() == c,
                0 < d <= self@.len(),
                self@ == ring_copy_within(s0, c, d, i as nat),
                first@ + second@ == ring_copy_written(s0, c, d, i as nat),
                first@.len() == vstd::math::min(i as int, c - n0),
                first@.len() + second@.len() == i,
                boundary == c - n0,
                distance == d,
                0 <= n0 < c,
                self.spec_next() == (n0 + i) % c,
            decreases length - i,
        {
            let ghost prev = self@;
            let ghost vg = prev[prev.len() - d];
            let idx = if self.next >= distance {
                self.next - distance
            } else {
                self.cap - distance + self.next
            };
            proof {
                let nb = self.buf@;
                let n = self.spec_next();
                if nb.len() == c {
                    if n >= d {
                        assert(prev[prev.len() - d] == nb[n - d]);
                    } else {
                        assert(prev[prev.len() - d] == nb[c - d + n]);
                    }
                } else {
                    assert(prev[prev.len() - d] == nb[n - d]);
                }
                assert(idx < nb.len());
            }
            let v = self.buf[idx];
            let ghost wprev = first@ + second@;
            self.push(v);
            if i < boundary {
                first.push(v);
            } else {
                second.push(v);
            }
            i = i + 1;
            proof {
                assert(v == vg);
                assert(self@ == ring_copy_within(s0, c, d, i as nat));
                assert(ring_copy_written(s0, c, d, i as nat) == wprev.push(vg));
                assert(first@ + second@ =~= wprev.push(vg));
                lemma_cursor_step(n0 + i - 1, c, (n0 + i - 1) % c);
            }
        }
        (first, second)
    }
}

impl RingBuffer<u8> {
    /// Pulls exactly `length` bytes from the reader (byte-aligned) into
    /// the window. Returns the bytes written, split where the write
    /// position wrapped around the end of storage; fails with
    /// `UnexpectedEof` when the reader cannot deliver `length` bytes,
    /// leaving the window unchanged.
    pub fn copy_from(&mut self, reader: &mut Reader, length: usize) -> (r: Result<
        (Vec<u8>, Vec<u8>),
        Error,
    >)
        requires
            old(self).wf(),
            old(reader).wf(),
            length <= old(self).spec_capacity(),
        ensures
            final(self).wf(),
            final(reader).wf(),
            final(self).spec_capacity() == old(self).spec_capacity(),
            final(reader).bytes() == old(reader).bytes(),
            length == 0 ==> {
                &&& r matches Ok(pair) && pair.0@ == Seq::<u8>::empty() && pair.1@ == Seq::<
                    u8,
                >::empty()
                &&& *final(self) == *old(self)
                &&& *final(reader) == *old(reader)
            },
            length > 0 ==> {
                let p = old(reader).aligned_pos();
                let avail = old(reader).bytes().len() - p;
                if length <= avail {
                    let bs = old(reader).bytes().subrange(p, p + length);
                    &&& r is Ok
                    &&& final(self)@ == ring_push_all(old(self)@, old(self).spec_capacity(), bs)
                    &&& r->Ok_0.0@ + r->Ok_0.1@ == bs
                    &&& r->Ok_0.0@.len() == vstd::math::min(
                        length as int,
                        old(self).spec_capacity() - old(self).spec_next(),
                    )
                    &&& final(self).spec_next() == (old(self).spec_next() + length) % old(
                        self,
                    ).spec_capacity()
                    &&& final(reader).byte_pos() == p + length
                    &&& final(reader).bit_pos() == 0
                } else {
                    &&& r == Err::<(Vec<u8>, Vec<u8>), Error>(Error::UnexpectedEof)
                    &&& *final(self) == *old(self)
                    &&& final(reader).byte_pos() == old(reader).bytes().len()
                    &&& final(reader).bit_pos() == 0
                }
            },
    {
        if length == 0 {
            return Ok((Vec::new(), Vec::new()));
        }
        let mut tmp: Vec<u8> = Vec::new();
        let got = match reader.copy_to(&mut tmp, length) {
            Ok(k) => k,
            Err(e) => {
                return Err(e);
            },
        };
        if got < length {
            return Err(Error::UnexpectedEof);
        }
        let ghost s0 = old(self)@;
        let ghost c = old(self).spec_capacity();
        let ghost n0 = old(self).spec_next();
        let ghost bs = tmp@;
        proof {
            assert(tmp@.len() == length);
            vstd::arithmetic::div_mod::lemma_fundamental_div_mod_converse(n0, c, 0, n0);
        }
        let boundary = self.cap - self.next;
        let mut first: Vec<u8> = Vec::new();
        let mut second: Vec<u8> = Vec::new();
        let mut i: usize = 0;
        proof {
            assert(first@ + second@ =~= bs.subrange(0, 0));
        }
        while i < length
            invariant
                self.wf(),
                i <= length,
                length <= c,
                length == bs.len(),
                tmp@ == bs,
                self.spec_capacity() == c,
                self@ == ring_push_all(s0, c, bs.subrange(0, i as int)),
                first@ + second@ == bs.subrange(0, i as int),
                first@.len() == vstd::math::min(i as int, c - n0),
                first@.len() + second@.len() == i,
                boundary == c - n0,
                0 <= n0 < c,
                self.spec_next() == (n0 + i) % c,
            decreases length - i,
        {
            let v = tmp[i];
            let ghost wprev = first@ + second@;
            self.push(v);
            if i < boundary {
                first.push(v);
            } else {
                second.push(v);
            }
            i = i + 1;
            proof {
                lemma_cursor_step(n0 + i - 1, c, (n0 + i - 1) % c);
                assert(bs.subrange(0, i as int).drop_last() =~= bs.subrange(0, i - 1));
                assert(ring_push_all(s0, c, bs.subrange(0, i as int)) == ring_push(
                    ring_push_all(s0, c, bs.subrange(0, i - 1)),
                    c,
                    bs[i - 1],
                ));
                assert(first@ + second@ =~= wprev.push(bs[i - 1]));
            }
        }
        proof {
            assert(bs.subrange(0, length as int) =~= bs);
        }
        Ok((first, second))
    }
}

} // verus!

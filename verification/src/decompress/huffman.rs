//! Fixed and dynamic Huffman block decoding.
//!
//! A block's code tables arrive as canonical code-length vectors; the
//! trees are built by the RFC 1951 canonical-code construction and then
//! consulted bit by bit to expand literals and back-references.

use crate::error::Error;
use crate::reader::Reader;
use crate::reader::stream_bit;
use crate::writer::Writer;
use crate::writer::lemma_prefix_refl;
use crate::ring_buffer::ring_copy_written;
use crate::tree::BinaryTrie;
use crate::tree::TreeKey;
use crate::tree::Node;
use crate::tree::key_path;
use crate::tree::spec_get_bit;
use crate::tree::path_prefix_of;
use crate::tree::NodeType;
use crate::tree::lemma_can_add_end_empty;
use crate::tree::lemma_cannot_add_blocked;
use crate::tree::lemma_can_add_no_leaf_on_path;
use crate::tree::lemma_node_at_prefix;
use crate::tree::lemma_node_at_snoc;
use vstd::prelude::*;

verus! {

/// Two to the power `n`.
pub open spec fn pow2(n: nat) -> nat
    decreases n,
{
    if n == 0 {
        1
    } else {
        2 * pow2((n - 1) as nat)
    }
}

proof fn lemma_pow2_le(a: nat, b: nat)
    requires
        a <= b,
    ensures
        pow2(a) <= pow2(b),
    decreases b,
{
    if a < b && b > 0 {
        lemma_pow2_le(a, (b - 1) as nat);
    }
}

/// The value of the `n` bits starting at bit position `pos`, least
/// significant bit first — the order DEFLATE stores numbers in.
pub open spec fn le_number(data: Seq<u8>, pos: int, n: nat) -> nat
    decreases n,
{
    if n == 0 {
        0
    } else {
        (if stream_bit(data, pos) {
            1nat
        } else {
            0nat
        }) + 2 * le_number(data, pos + 1, (n - 1) as nat)
    }
}

proof fn lemma_le_number_extend(data: Seq<u8>, pos: int, n: nat)
    ensures
        le_number(data, pos, n + 1) == le_number(data, pos, n) + (if stream_bit(data, pos + n) {
            pow2(n)
        } else {
            0nat
        }),
    decreases n,
{
    let b0: nat = if stream_bit(data, pos) {
        1nat
    } else {
        0nat
    };
    assert(le_number(data, pos, n + 1) == b0 + 2 * le_number(data, pos + 1, n));
    if n == 0 {
        assert(le_number(data, pos + 1, 0) == 0);
        assert(le_number(data, pos, 0) == 0);
    } else {
        lemma_le_number_extend(data, pos + 1, (n - 1) as nat);
        assert(le_number(data, pos, n) == b0 + 2 * le_number(data, pos + 1, (n - 1) as nat));
    }
}

proof fn lemma_pow2_16()
    ensures
        pow2(15) == 32768,
        pow2(16) == 65536,
{
    assert(pow2(0) == 1);
    assert(pow2(1) == 2);
    assert(pow2(2) == 4);
    assert(pow2(3) == 8);
    assert(pow2(4) == 16);
    assert(pow2(5) == 32);
    assert(pow2(6) == 64);
    assert(pow2(7) == 128);
    assert(pow2(8) == 256);
    assert(pow2(9) == 512);
    assert(pow2(10) == 1024);
    assert(pow2(11) == 2048);
    assert(pow2(12) == 4096);
    assert(pow2(13) == 8192);
    assert(pow2(14) == 16384);
    assert(pow2(15) == 32768);
    assert(pow2(16) == 65536);
}

proof fn lemma_pow2_32()
    ensures
        pow2(31) == 0x80000000,
        pow2(32) == 0x100000000,
{
    lemma_pow2_16();
    assert(pow2(17) == 0x20000);
    assert(pow2(18) == 0x40000);
    assert(pow2(19) == 0x80000);
    assert(pow2(20) == 0x100000);
    assert(pow2(21) == 0x200000);
    assert(pow2(22) == 0x400000);
    assert(pow2(23) == 0x800000);
    assert(pow2(24) == 0x1000000);
    assert(pow2(25) == 0x2000000);
    assert(pow2(26) == 0x4000000);
    assert(pow2(27) == 0x8000000);
    assert(pow2(28) == 0x10000000);
    assert(pow2(29) == 0x20000000);
    assert(pow2(30) == 0x40000000);
    assert(pow2(31) == 0x80000000);
    assert(pow2(32) == 0x100000000);
}

proof fn lemma_pow2_small()
    ensures
        pow2(0) == 1,
        pow2(1) == 2,
        pow2(2) == 4,
        pow2(3) == 8,
        pow2(4) == 16,
        pow2(5) == 32,
        pow2(6) == 64,
        pow2(7) == 128,
{
    assert(pow2(0) == 1);
    assert(pow2(1) == 2);
    assert(pow2(2) == 4);
    assert(pow2(3) == 8);
    assert(pow2(4) == 16);
    assert(pow2(5) == 32);
    assert(pow2(6) == 64);
    assert(pow2(7) == 128);
}

proof fn lemma_le_number_bound(data: Seq<u8>, pos: int, n: nat)
    ensures
        le_number(data, pos, n) < pow2(n),
    decreases n,
{
    if n > 0 {
        lemma_le_number_bound(data, pos + 1, (n - 1) as nat);
    }
}

/// Reads an `bits`-bit number, LSB first. On success the reader moves
/// past exactly `bits` bits and the result is their value; when the
/// stream runs out first, every remaining bit is consumed and the read
/// fails with `UnexpectedEof`. Up to 32 bits can be read, so the value
/// fits the result type on every machine; DEFLATE itself never asks for
/// more than 13.
pub fn read_number_le(reader: &mut Reader, bits: u8) -> (r: Result<usize, Error>)
    requires
        old(reader).wf(),
        bits <= 32,
    ensures
        final(reader).wf(),
        final(reader).bytes() == old(reader).bytes(),
        old(reader).cursor() + bits <= 8 * old(reader).bytes().len() ==> {
            &&& r == Ok::<usize, Error>(
                le_number(old(reader).bytes(), old(reader).cursor(), bits as nat) as usize,
            )
            &&& (r->Ok_0 as nat) < pow2(bits as nat)
            &&& final(reader).cursor() == old(reader).cursor() + bits
        },
        old(reader).cursor() + bits > 8 * old(reader).bytes().len() ==> {
            &&& r == Err::<usize, Error>(Error::UnexpectedEof)
            &&& final(reader).byte_pos() == old(reader).bytes().len()
            &&& final(reader).bit_pos() == 0
        },
{
    let ghost data = old(reader).bytes();
    let ghost pos0 = old(reader).cursor();
    let mut ret: usize = 0;
    let mut place: usize = 1;
    let mut i: u8 = 0;
    while i < bits
        invariant
            data == old(reader).bytes(),
            pos0 == old(reader).cursor(),
            reader.wf(),
            reader.bytes() == data,
            i <= bits,
            bits <= 32,
            reader.cursor() == pos0 + i,
            i < bits ==> place == pow2(i as nat),
            place <= 0x80000000,
            ret == le_number(data, pos0, i as nat),
            ret < pow2(i as nat),
        decreases bits - i,
    {
        let bit = match reader.next_bit() {
            Ok(b) => b,
            Err(e) => {
                return Err(e);
            },
        };
        proof {
            lemma_le_number_extend(data, pos0, i as nat);
            lemma_pow2_32();
            lemma_pow2_le((i + 1) as nat, 32);
        }
        if bit {
            ret = ret + place;
        }
        if i + 1 < bits {
            proof {
                lemma_pow2_le((i + 1) as nat, 31);
            }
            place = place * 2;
        }
        i = i + 1;
    }
    proof {
        lemma_le_number_bound(data, pos0, bits as nat);
    }
    Ok(ret)
}

/// What one prefix code decodes to, descending from `node` with the
/// stream bit at `pos` and each following bit: the leaf value reached
/// and the position just past the code; `UnexpectedEof` when the stream
/// ends first, `InvalidCode` when a bit leads to no child.
pub open spec fn spec_decode(node: Node, data: Seq<u8>, pos: int) -> Result<(u64, int), Error>
    decreases 8 * data.len() - pos,
{
    if pos < 0 || pos >= 8 * data.len() {
        Err(Error::UnexpectedEof)
    } else {
        match node.spec_child(stream_bit(data, pos)) {
            None => Err(Error::InvalidCode),
            Some(c) => if c.value is Some {
                Ok((c.value->Some_0, pos + 1))
            } else {
                spec_decode(*c, data, pos + 1)
            },
        }
    }
}

/// Reads one prefix code from the stream by descending the tree one bit
/// at a time, exactly as `spec_decode` describes: on success the symbol
/// value is returned and the reader stands just past the code.
pub fn read_next_code(reader: &mut Reader, tree: &BinaryTrie) -> (r: Result<u64, Error>)
    requires
        old(reader).wf(),
    ensures
        final(reader).wf(),
        final(reader).bytes() == old(reader).bytes(),
        final(reader).cursor() >= old(reader).cursor(),
        match spec_decode(tree.spec_root(), old(reader).bytes(), old(reader).cursor()) {
            Ok(v) => r == Ok::<u64, Error>(v.0) && final(reader).cursor() == v.1,
            Err(e) => r == Err::<u64, Error>(e),
        },
{
    let mut cursor = tree.cursor();
    loop
        invariant
            reader.wf(),
            reader.bytes() == old(reader).bytes(),
            reader.cursor() >= old(reader).cursor(),
            spec_decode(tree.spec_root(), old(reader).bytes(), old(reader).cursor())
                == spec_decode(cursor.spec_node(), reader.bytes(), reader.cursor()),
        decreases 8 * reader.bytes().len() - reader.cursor(),
    {
        let bit = match reader.next_bit() {
            Ok(b) => b,
            Err(e) => {
                return Err(e);
            },
        };
        match cursor.follow(bit) {
            Ok(NodeType::LeafNode(v)) => {
                return Ok(v);
            },
            Ok(NodeType::InnerNode) => {},
            Err(e) => {
                return Err(e);
            },
        }
    }
}

/// How many of the first `upto` code lengths equal `l`.
pub open spec fn count_len(lengths: Seq<u8>, upto: int, l: int) -> nat
    decreases upto,
{
    if upto <= 0 {
        0nat
    } else {
        count_len(lengths, upto - 1, l) + (if lengths[upto - 1] == l {
            1nat
        } else {
            0nat
        })
    }
}

/// The first canonical code of length `l` (RFC 1951 §3.2.2): zero for
/// length one, and past the end of the previous length's codes, shifted
/// up one bit, for every longer length.
pub open spec fn next_code_at(lengths: Seq<u8>, l: nat) -> nat
    decreases l,
{
    if l <= 1 {
        0nat
    } else {
        (next_code_at(lengths, (l - 1) as nat) + count_len(lengths, lengths.len() as int, l - 1))
            * 2
    }
}

/// The canonical code assigned to symbol `n`: the first code of its
/// length, advanced once for each earlier symbol of the same length.
pub open spec fn canonical_code(lengths: Seq<u8>, n: int) -> nat {
    next_code_at(lengths, lengths[n] as nat) + count_len(lengths, n, lengths[n] as int)
}

/// The bit path of symbol `n`'s canonical code, MSB first.
pub open spec fn code_path(lengths: Seq<u8>, n: int) -> Seq<bool> {
    key_path(canonical_code(lengths, n) as u64, lengths[n] as nat)
}

/// The trie holds exactly the canonical codes of the first `k` symbols:
/// each such symbol with a nonzero length sits as a childless leaf at the
/// end of its canonical bit path, every node lies on the way to such a
/// leaf, and every leaf belongs to such a symbol.
pub open spec fn represents_prefix(root: Node, lengths: Seq<u8>, k: int) -> bool {
    &&& root.value is None
    &&& forall|m: int|
        0 <= m < k && lengths[m] > 0 ==> ((#[trigger] root.node_at(code_path(lengths, m)))
            matches Some(nd) && nd.value == Some(m as u64) && nd.zero.0 is None
            && nd.one.0 is None)
    &&& forall|q: Seq<bool>|
        (#[trigger] root.node_at(q)) is Some ==> q.len() == 0 || exists|m: int|
            0 <= m < k && lengths[m] > 0 && path_prefix_of(q, #[trigger] code_path(lengths, m))
    &&& forall|q: Seq<bool>|
        ((#[trigger] root.node_at(q)) matches Some(nd) && nd.value is Some) ==> exists|m: int|
            0 <= m < k && lengths[m] > 0 && q == #[trigger] code_path(lengths, m)
}

proof fn lemma_count_len_le(lengths: Seq<u8>, upto: int, l: int)
    ensures
        count_len(lengths, upto, l) <= vstd::math::max(upto, 0),
    decreases upto,
{
    if upto > 0 {
        lemma_count_len_le(lengths, upto - 1, l);
    }
}

proof fn lemma_next_code_bound(lengths: Seq<u8>, l: nat)
    requires
        lengths.len() <= 65536,
        1 <= l,
    ensures
        next_code_at(lengths, l) + 2 * 65536 <= pow2(l) * 65536,
    decreases l,
{
    if l <= 1 {
        assert(pow2(1) == 2 * pow2(0));
    } else {
        lemma_next_code_bound(lengths, (l - 1) as nat);
        lemma_count_len_le(lengths, lengths.len() as int, l - 1);
        assert(pow2(l) == 2 * pow2((l - 1) as nat));
    }
}

proof fn lemma_pow2_add(a: nat, b: nat)
    ensures
        pow2(a + b) == pow2(a) * pow2(b),
    decreases b,
{
    if b == 0 {
        assert(pow2(0) == 1);
        assert(pow2(a) * 1 == pow2(a));
    } else {
        lemma_pow2_add(a, (b - 1) as nat);
        assert(pow2(a + b) == 2 * pow2((a + b - 1) as nat));
        assert((a + b - 1) as nat == a + (b - 1) as nat);
        assert(pow2(b) == 2 * pow2((b - 1) as nat));
        assert(pow2(a) * pow2(b) == pow2(a) * (2 * pow2((b - 1) as nat)));
        assert(pow2(a) * (2 * pow2((b - 1) as nat)) == 2 * (pow2(a) * pow2((b - 1) as nat)))
            by (nonlinear_arith);
    }
}

proof fn lemma_pow2_pos(a: nat)
    ensures
        pow2(a) >= 1,
    decreases a,
{
    if a > 0 {
        lemma_pow2_pos((a - 1) as nat);
    }
}

proof fn lemma_shr_is_div(x: u64, i: u64)
    requires
        i < 64,
    ensures
        (x >> i) as int == x as int / pow2(i as nat) as int,
    decreases i,
{
    if i == 0 {
        assert(x >> 0u64 == x) by (bit_vector);
        assert(pow2(0) == 1);
    } else {
        assert(x >> i == (x >> ((i - 1) as u64)) >> 1u64) by (bit_vector)
            requires
                1 <= i < 64,
        ;
        lemma_shr_is_div(x, (i - 1) as u64);
        let y = x >> (i - 1);
        assert(y >> 1u64 == y / 2u64) by (bit_vector);
        lemma_pow2_pos((i - 1) as nat);
        vstd::arithmetic::div_mod::lemma_div_denominator(
            x as int,
            pow2((i - 1) as nat) as int,
            2,
        );
        assert(pow2(i as nat) == 2 * pow2((i - 1) as nat));
    }
}

/// Bit `i` of `n`, as arithmetic: the parity of `n` shifted down `i` places.
proof fn lemma_get_bit_is_div(n: u64, i: u64)
    requires
        i < 64,
    ensures
        spec_get_bit(n, i as usize) == ((n as int / pow2(i as nat) as int) % 2 == 1),
{
    assert(((1u64 << i) & n > 0) == ((n >> i) & 1u64 == 1u64)) by (bit_vector);
    assert(((n >> i) & 1u64 == 1u64) == ((n >> i) % 2u64 == 1u64)) by (bit_vector);
    lemma_shr_is_div(n, i);
}

/// Two numbers below `2^l` with the same low `l` bits are equal.
proof fn lemma_bits_determine(x: u64, y: u64, l: nat)
    requires
        l <= 63,
        x < pow2(l),
        y < pow2(l),
        forall|i: int|
            0 <= i < l ==> #[trigger] spec_get_bit(x, i as usize) == spec_get_bit(y, i as usize),
    ensures
        x == y,
    decreases l,
{
    if l == 0 {
        assert(pow2(0) == 1);
    } else {
        lemma_get_bit_is_div(x, 0);
        lemma_get_bit_is_div(y, 0);
        assert(pow2(0) == 1);
        assert(spec_get_bit(x, 0) == spec_get_bit(y, 0));
        assert(x as int % 2 == y as int % 2);
        let x2 = x / 2;
        let y2 = y / 2;
        assert(pow2(l) == 2 * pow2((l - 1) as nat));
        vstd::arithmetic::div_mod::lemma_fundamental_div_mod(x as int, 2);
        vstd::arithmetic::div_mod::lemma_fundamental_div_mod(y as int, 2);
        assert forall|i: int|
            0 <= i < l - 1 implies #[trigger] spec_get_bit(x2, i as usize) == spec_get_bit(
            y2,
            i as usize,
        ) by {
            lemma_get_bit_is_div(x2, i as u64);
            lemma_get_bit_is_div(y2, i as u64);
            lemma_get_bit_is_div(x, (i + 1) as u64);
            lemma_get_bit_is_div(y, (i + 1) as u64);
            lemma_pow2_pos(i as nat);
            vstd::arithmetic::div_mod::lemma_div_denominator(x as int, 2, pow2(i as nat) as int);
            vstd::arithmetic::div_mod::lemma_div_denominator(y as int, 2, pow2(i as nat) as int);
            assert(pow2((i + 1) as nat) == 2 * pow2(i as nat));
            assert(spec_get_bit(x, (i + 1) as usize) == spec_get_bit(y, (i + 1) as usize));
        }
        lemma_bits_determine(x2, y2, (l - 1) as nat);
    }
}

/// A code path that is the prefix of another pins the shorter code to
/// the top bits of the longer one.
proof fn lemma_path_prefix_div(a: u64, la: nat, b: u64, lb: nat)
    requires
        1 <= la <= lb <= 63,
        a < pow2(la),
        b < pow2(lb),
        path_prefix_of(key_path(a, la), key_path(b, lb)),
    ensures
        a as int == b as int / pow2((lb - la) as nat) as int,
{
    let d = (lb - la) as nat;
    lemma_pow2_add(la, d);
    lemma_pow2_pos(d);
    lemma_pow2_pos(la);
    let q = b as int / pow2(d) as int;
    vstd::arithmetic::div_mod::lemma_fundamental_div_mod(b as int, pow2(d) as int);
    vstd::arithmetic::div_mod::lemma_mod_bound(b as int, pow2(d) as int);
    assert(q < pow2(la)) by {
        if q >= pow2(la) {
            assert(pow2(d) as int * q >= pow2(d) as int * pow2(la) as int) by (nonlinear_arith)
                requires
                    q >= pow2(la),
                    pow2(d) >= 1,
            ;
            assert(b as int == pow2(d) as int * q + b as int % pow2(d) as int);
            assert(b as int % pow2(d) as int >= 0);
            assert(b as int >= pow2(d) as int * pow2(la) as int);
            assert(pow2(lb) as int == pow2(la) as int * pow2(d) as int);
            assert(pow2(la) as int * pow2(d) as int == pow2(d) as int * pow2(la) as int)
                by (nonlinear_arith);
            assert(false);
        }
    }
    assert(q >= 0) by {
        vstd::arithmetic::div_mod::lemma_div_pos_is_pos(b as int, pow2(d) as int);
    }
    let qu = q as u64;
    assert forall|i: int|
        0 <= i < la implies #[trigger] spec_get_bit(a, i as usize) == spec_get_bit(
        qu,
        i as usize,
    ) by {
        let j = la - 1 - i;
        assert(key_path(a, la)[j] == key_path(b, lb)[j]) by {
            assert(key_path(b, lb).subrange(0, la as int) == key_path(a, la));
            assert(key_path(b, lb).subrange(0, la as int)[j] == key_path(b, lb)[j]);
        }
        assert(spec_get_bit(a, i as usize) == spec_get_bit(b, (i + d) as usize));
        lemma_get_bit_is_div(qu, i as u64);
        lemma_get_bit_is_div(b, (i + d) as u64);
        lemma_pow2_pos(i as nat);
        vstd::arithmetic::div_mod::lemma_div_denominator(
            b as int,
            pow2(d) as int,
            pow2(i as nat) as int,
        );
        lemma_pow2_add(d, i as nat);
        assert(pow2(d + i as nat) == pow2((i + d) as nat));
    }
    lemma_bits_determine(a, qu, la);
}

proof fn lemma_count_len_mono(lens: Seq<u8>, k1: int, k2: int, l: int)
    requires
        0 <= k1 <= k2,
    ensures
        count_len(lens, k1, l) <= count_len(lens, k2, l),
        (k1 < k2 && 0 <= k1 < lens.len() && lens[k1] == l) ==> count_len(lens, k1, l) < count_len(
            lens,
            k2,
            l,
        ),
    decreases k2 - k1,
{
    if k1 < k2 {
        lemma_count_len_mono(lens, k1 + 1, k2, l);
    }
}

proof fn lemma_next_code_grows(lens: Seq<u8>, la: nat, lb: nat)
    requires
        1 <= la < lb,
    ensures
        next_code_at(lens, lb) >= (next_code_at(lens, la) + count_len(lens, lens.len() as int, la as int))
            * pow2((lb - la) as nat),
    decreases lb,
{
    let full = lens.len() as int;
    if lb == la + 1 {
        assert(pow2(1) == 2);
    } else {
        lemma_next_code_grows(lens, la, (lb - 1) as nat);
        let k = (next_code_at(lens, la) + count_len(lens, full, la as int));
        assert(next_code_at(lens, lb) >= next_code_at(lens, (lb - 1) as nat) * 2);
        assert(next_code_at(lens, (lb - 1) as nat) * 2 >= (k * pow2((lb - 1 - la) as nat)) * 2)
            by (nonlinear_arith)
            requires
                next_code_at(lens, (lb - 1) as nat) >= k * pow2((lb - 1 - la) as nat),
        ;
        assert((k * pow2((lb - 1 - la) as nat)) * 2 == k * (2 * pow2((lb - 1 - la) as nat)))
            by (nonlinear_arith);
        assert(pow2((lb - la) as nat) == 2 * pow2((lb - 1 - la) as nat));
    }
}

/// Canonical codes that all fit their declared lengths are prefix-free:
/// within one length they are consecutive and distinct, and every longer
/// length starts past the scaled end of the shorter ones.
pub proof fn lemma_fits_implies_prefix_free(lens: Seq<u8>)
    requires
        forall|i: int| 0 <= i < lens.len() ==> lens[i] <= 15,
        canonical_fits(lens),
    ensures
        canonical_prefix_free(lens),
{
    assert forall|m: int, n: int|
        0 <= m < lens.len() && 0 <= n < lens.len() && m != n && lens[m] > 0 && lens[n]
            > 0 implies !path_prefix_of(
        #[trigger] code_path(lens, m),
        #[trigger] code_path(lens, n),
    ) by {
        if path_prefix_of(code_path(lens, m), code_path(lens, n)) {
            let la = lens[m] as nat;
            let lb = lens[n] as nat;
            let a = canonical_code(lens, m) as u64;
            let b = canonical_code(lens, n) as u64;
            assert(canonical_code(lens, m) < pow2(la));
            assert(canonical_code(lens, n) < pow2(lb));
            lemma_pow2_16();
            lemma_pow2_le(la, 15);
            lemma_pow2_le(lb, 15);
            assert(la <= lb);
            lemma_path_prefix_div(a, la, b, lb);
            let d = (lb - la) as nat;
            if la == lb {
                assert(pow2(0) == 1);
                assert(b as int / 1int == b as int);
                assert(a == b);
                if m < n {
                    lemma_count_len_mono(lens, m, n, la as int);
                } else {
                    lemma_count_len_mono(lens, n, m, la as int);
                }
                assert(false);
            } else {
                lemma_next_code_grows(lens, la, lb);
                lemma_count_len_mono(lens, m, lens.len() as int, la as int);
                let k = next_code_at(lens, la) + count_len(lens, lens.len() as int, la as int);
                assert(a < k);
                assert(b >= k * pow2(d));
                lemma_pow2_pos(d);
                assert(b as int / pow2(d) as int >= k) by {
                    vstd::arithmetic::div_mod::lemma_fundamental_div_mod(b as int, pow2(d) as int);
                    let q = b as int / pow2(d) as int;
                    if q < k {
                        assert(pow2(d) as int * q <= pow2(d) as int * (k - 1)) by (nonlinear_arith)
                            requires
                                q <= k - 1,
                                pow2(d) >= 1,
                        ;
                        assert(pow2(d) as int * (k - 1) + pow2(d) < pow2(d) as int * k + 1)
                            by (nonlinear_arith);
                        assert(k * pow2(d) == pow2(d) as int * k) by (nonlinear_arith);
                        assert(false);
                    }
                }
                assert(false);
            }
        }
    }
}

/// Every canonical code fits within its declared bit length.
pub open spec fn canonical_fits(lens: Seq<u8>) -> bool {
    forall|n: int|
        0 <= n < lens.len() && lens[n] > 0 ==> #[trigger] canonical_code(lens, n) < pow2(
            lens[n] as nat,
        )
}

/// No canonical code is a prefix of another's.
pub open spec fn canonical_prefix_free(lens: Seq<u8>) -> bool {
    forall|m: int, n: int|
        0 <= m < lens.len() && 0 <= n < lens.len() && m != n && lens[m] > 0 && lens[n] > 0
            ==> !path_prefix_of(#[trigger] code_path(lens, m), #[trigger] code_path(lens, n))
}

/// Builds the prefix tree of the canonical codes for `lengths` (RFC 1951
/// §3.2.2): symbols in increasing order, each with a code one past the
/// previous code of its length. Succeeds exactly when the vector is
/// nonempty, every code fits its declared length, and no code is a
/// prefix of another; the tree then holds exactly the canonical codes.
/// Any failure is `MalformedCodeTable`.
pub fn build_tree(lengths: &Vec<u8>) -> (r: Result<BinaryTrie, Error>)
    requires
        forall|i: int| 0 <= i < lengths@.len() ==> lengths@[i] <= 15,
        lengths@.len() <= 65536,
    ensures
        r is Err ==> r == Err::<BinaryTrie, Error>(Error::MalformedCodeTable),
        r is Ok <==> (lengths@.len() > 0 && canonical_fits(lengths@) && canonical_prefix_free(
            lengths@,
        )),
        r is Ok ==> represents_prefix(r->Ok_0.spec_root(), lengths@, lengths@.len() as int),
{
    let ghost lens = lengths@;
    if lengths.len() == 0 {
        return Err(Error::MalformedCodeTable);
    }
    let mut pw: Vec<usize> = Vec::new();
    pw.push(1);
    let mut l: usize = 1;
    while l <= 15
        invariant
            1 <= l <= 16,
            pw@.len() == l,
            forall|j: int| 0 <= j < l ==> pw@[j] == pow2(j as nat),
        decreases 16 - l,
    {
        proof {
            lemma_pow2_16();
            lemma_pow2_le((l - 1) as nat, 15);
        }
        let last = pw[l - 1];
        pw.push(last * 2);
        l = l + 1;
    }

    let mut counts: Vec<usize> = Vec::new();
    let mut i: usize = 0;
    while i < 16
        invariant
            counts@.len() == i,
            i <= 16,
            forall|j: int| 0 <= j < i ==> counts@[j] == 0,
        decreases 16 - i,
    {
        counts.push(0);
        i = i + 1;
    }
    let mut i: usize = 0;
    while i < lengths.len()
        invariant
            lens == lengths@,
            lens.len() <= 65536,
            forall|j: int| 0 <= j < lens.len() ==> lens[j] <= 15,
            i <= lens.len(),
            counts@.len() == 16,
            forall|j: int| 0 <= j < 16 ==> counts@[j] == count_len(lens, i as int, j),
        decreases lengths@.len() - i,
    {
        proof {
            assert forall|j: int| 0 <= j < 16 implies count_len(lens, i as int, j) <= i by {
                lemma_count_len_le(lens, i as int, j);
            }
        }
        let li = lengths[i] as usize;
        let c = counts[li];
        counts[li] = c + 1;
        i = i + 1;
    }
    proof {
        assert forall|j: int| 0 <= j < 16 implies counts@[j] <= 65536 by {
            lemma_count_len_le(lens, lens.len() as int, j);
        }
    }

    let mut next_code: Vec<usize> = Vec::new();
    let mut i: usize = 0;
    while i < 16
        invariant
            next_code@.len() == i,
            i <= 16,
            forall|j: int| 0 <= j < i ==> next_code@[j] == 0,
        decreases 16 - i,
    {
        next_code.push(0);
        i = i + 1;
    }
    let mut bits: usize = 2;
    while bits <= 15
        invariant
            lens == lengths@,
            lens.len() <= 65536,
            2 <= bits <= 16,
            counts@.len() == 16,
            next_code@.len() == 16,
            forall|j: int| 0 <= j < 16 ==> counts@[j] == count_len(lens, lens.len() as int, j),
            forall|j: int| 1 <= j < bits ==> next_code@[j] == next_code_at(lens, j as nat),
            next_code@[0] == 0,
        decreases 16 - bits,
    {
        proof {
            lemma_pow2_16();
            lemma_pow2_le(bits as nat, 15);
            if bits > 2 {
                lemma_next_code_bound(lens, (bits - 1) as nat);
            }
            lemma_count_len_le(lens, lens.len() as int, bits - 1);
        }
        let v = (next_code[bits - 1] + counts[bits - 1]) * 2;
        next_code[bits] = v;
        bits = bits + 1;
    }

    let mut tree = BinaryTrie::new();
    proof {
        let root = tree.spec_root();
        assert forall|q: Seq<bool>| (#[trigger] root.node_at(q)) is Some implies q.len() == 0 by {
            if q.len() != 0 {
                assert(root.spec_child(q[0]) is None);
            }
        }
        assert(represents_prefix(root, lens, 0));
    }
    let mut n: usize = 0;
    while n < lengths.len()
        invariant
            lens == lengths@,
            lens.len() <= 65536,
            forall|j: int| 0 <= j < lens.len() ==> lens[j] <= 15,
            n <= lens.len(),
            counts@.len() == 16,
            next_code@.len() == 16,
            pw@.len() == 16,
            forall|j: int| 0 <= j < 16 ==> pw@[j] == pow2(j as nat),
            forall|j: int|
                1 <= j < 16 ==> next_code@[j] == next_code_at(lens, j as nat) + count_len(
                    lens,
                    n as int,
                    j,
                ),
            represents_prefix(tree.spec_root(), lens, n as int),
            forall|m: int|
                0 <= m < n && lens[m] > 0 ==> #[trigger] canonical_code(lens, m) < pow2(
                    lens[m] as nat,
                ),
        decreases lengths@.len() - n,
    {
        let length_u8 = lengths[n];
        if length_u8 == 0 {
            proof {
                assert forall|j: int|
                    1 <= j < 16 implies count_len(lens, n + 1, j) == count_len(
                    lens,
                    n as int,
                    j,
                ) by {}
                assert(represents_prefix(tree.spec_root(), lens, n + 1)) by {
                    assert forall|m: int|
                        0 <= m < n + 1 && lens[m] > 0 implies ((#[trigger] tree.spec_root().node_at(
                        code_path(lens, m),
                    )) matches Some(nd) && nd.value == Some(m as u64) && nd.zero.0 is None
                        && nd.one.0 is None) by {
                        assert(m < n);
                    }
                }
            }
            n = n + 1;
        } else {
            let length = length_u8 as usize;
            let code = next_code[length];
            if code >= pw[length] {
                proof {
                    assert(!canonical_fits(lens)) by {
                        assert(0 <= n < lens.len() && lens[n as int] > 0 && !(canonical_code(
                            lens,
                            n as int,
                        ) < pow2(lens[n as int] as nat)));
                    }
                }
                return Err(Error::MalformedCodeTable);
            }
            next_code[length] = code + 1;
            let ghost path = code_path(lens, n as int);
            proof {
                assert(code == canonical_code(lens, n as int));
                assert(code < pow2(length as nat));
                lemma_pow2_16();
                lemma_pow2_le(length as nat, 15);
                assert(code < 32768);
                assert(path == key_path(code as u64, length as nat));
                assert(path.len() == length);
            }
            let ghost root0 = tree.spec_root();
            match tree.add(TreeKey(code as u64, length), n as u64) {
                Err(_) => {
                    proof {
                        assert(!root0.can_add(path));
                        lemma_cannot_add_blocked(root0, path);
                        let i = choose|i: int|
                            1 <= i <= path.len() && (#[trigger] root0.node_at(path.take(i)))
                                is Some && (root0.node_at(path.take(i))->Some_0.value is Some || i
                                == path.len());
                        assert(path_prefix_of(path.take(i), path)) by {
                            assert(path.subrange(0, i) =~= path.take(i));
                        }
                        if root0.node_at(path.take(i))->Some_0.value is Some {
                            let m = choose|m: int|
                                0 <= m < n && lens[m] > 0 && path.take(i) == #[trigger] code_path(
                                    lens,
                                    m,
                                );
                            assert(!canonical_prefix_free(lens)) by {
                                assert(0 <= m < lens.len() && 0 <= n < lens.len() && m != n
                                    && lens[m] > 0 && lens[n as int] > 0 && path_prefix_of(
                                    code_path(lens, m),
                                    code_path(lens, n as int),
                                ));
                            }
                        } else {
                            assert(i == path.len());
                            assert(path.take(i) =~= path);
                            assert(root0.node_at(path) is Some);
                            assert(path.len() > 0);
                            let m = choose|m: int|
                                0 <= m < n && lens[m] > 0 && path_prefix_of(
                                    path,
                                    #[trigger] code_path(lens, m),
                                );
                            assert(!canonical_prefix_free(lens)) by {
                                assert(0 <= n < lens.len() && 0 <= m < lens.len() && n != m
                                    && lens[n as int] > 0 && lens[m] > 0 && path_prefix_of(
                                    code_path(lens, n as int),
                                    code_path(lens, m),
                                ));
                            }
                        }
                    }
                    return Err(Error::MalformedCodeTable);
                },
                Ok(()) => {},
            }
            proof {
                let root1 = tree.spec_root();
                assert(root0.can_add(path));
                lemma_can_add_end_empty(root0, path);
                lemma_build_step(root0, root1, lens, n as int, path);
                assert forall|j: int|
                    1 <= j < 16 implies next_code@[j] == next_code_at(lens, j as nat) + count_len(
                    lens,
                    n + 1,
                    j,
                ) by {}
            }
            n = n + 1;
        }
    }
    proof {
        let root = tree.spec_root();
        assert(canonical_fits(lens));
        assert forall|m: int, n2: int|
            0 <= m < lens.len() && 0 <= n2 < lens.len() && m != n2 && lens[m] > 0 && lens[n2]
                > 0 implies !path_prefix_of(
            #[trigger] code_path(lens, m),
            #[trigger] code_path(lens, n2),
        ) by {
            if path_prefix_of(code_path(lens, m), code_path(lens, n2)) {
                let pm = code_path(lens, m);
                let pn = code_path(lens, n2);
                assert(root.node_at(pm) matches Some(x) && x.value == Some(m as u64) && x.zero.0
                    is None && x.one.0 is None);
                assert(root.node_at(pn) matches Some(y) && y.value == Some(n2 as u64));
                if pm.len() == pn.len() {
                    assert(pn.subrange(0, pm.len() as int) =~= pn);
                    assert(pm == pn);
                    assert(false);
                } else {
                    let b = pn[pm.len() as int];
                    lemma_node_at_snoc(root, pm, b);
                    assert(root.node_at(pm.push(b)) is None);
                    assert(path_prefix_of(pm.push(b), pn)) by {
                        assert(pn.subrange(0, pm.len() as int + 1) =~= pm.push(b)) by {
                            assert(forall|j: int|
                                0 <= j < pm.len() ==> pm[j] == pn.subrange(0, pm.len() as int)[j]);
                        }
                    }
                    lemma_node_at_prefix(root, pm.push(b), pn);
                    assert(false);
                }
            }
        }
        assert(canonical_prefix_free(lens));
    }
    Ok(tree)
}

proof fn lemma_decode_along(
    root: Node,
    lens: Seq<u8>,
    n: int,
    data: Seq<u8>,
    pos: int,
    i: int,
)
    requires
        represents_prefix(root, lens, lens.len() as int),
        0 <= n < lens.len(),
        lens[n] > 0,
        0 <= pos,
        0 <= i < code_path(lens, n).len(),
        pos + code_path(lens, n).len() <= 8 * data.len(),
        forall|j: int|
            0 <= j < code_path(lens, n).len() ==> stream_bit(data, pos + j) == code_path(
                lens,
                n,
            )[j],
        (root.node_at(code_path(lens, n).take(i)) matches Some(nd) && nd.value is None),
    ensures
        spec_decode(root.node_at(code_path(lens, n).take(i))->Some_0, data, pos + i)
            == Ok::<(u64, int), Error>((n as u64, pos + code_path(lens, n).len())),
    decreases code_path(lens, n).len() - i,
{
    let path = code_path(lens, n);
    let nd = root.node_at(path.take(i))->Some_0;
    let b = path[i];
    assert(stream_bit(data, pos + i) == b);
    assert(path.take(i).push(b) =~= path.take(i + 1));
    lemma_node_at_snoc(root, path.take(i), b);
    assert(root.node_at(path) matches Some(leaf) && leaf.value == Some(n as u64));
    assert(path_prefix_of(path.take(i + 1), path)) by {
        assert(path.subrange(0, i + 1) =~= path.take(i + 1));
    }
    lemma_node_at_prefix(root, path.take(i + 1), path);
    let c = root.node_at(path.take(i + 1))->Some_0;
    assert(nd.spec_child(b) matches Some(cc) && *cc == c);
    if i + 1 == path.len() {
        assert(path.take(i + 1) =~= path);
        assert(c.value == Some(n as u64));
    } else {
        if c.value is Some {
            // a leaf strictly inside the path would cut it short
            let m = choose|m: int|
                0 <= m < lens.len() && lens[m] > 0 && path.take(i + 1) == #[trigger] code_path(
                    lens,
                    m,
                );
            assert(root.node_at(code_path(lens, m)) matches Some(x) && x.zero.0 is None
                && x.one.0 is None);
            assert(path_prefix_of(path.take(i + 2), path)) by {
                assert(path.subrange(0, i + 2) =~= path.take(i + 2));
            }
            lemma_node_at_prefix(root, path.take(i + 2), path);
            assert(path.take(i + 1).push(path[i + 1]) =~= path.take(i + 2));
            lemma_node_at_snoc(root, path.take(i + 1), path[i + 1]);
            assert(c.spec_child(path[i + 1]) is None);
            assert(false);
        }
        lemma_decode_along(root, lens, n, data, pos, i + 1);
    }
}

/// A tree built from a canonical length vector accepts every one of its
/// codes: decoding a stream that spells symbol `n`'s canonical code
/// yields exactly `n` and consumes exactly the code's bits.
pub proof fn lemma_tree_accepts_code(
    root: Node,
    lens: Seq<u8>,
    n: int,
    data: Seq<u8>,
    pos: int,
)
    requires
        represents_prefix(root, lens, lens.len() as int),
        0 <= n < lens.len(),
        lens[n] > 0,
        0 <= pos,
        pos + lens[n] <= 8 * data.len(),
        forall|j: int|
            0 <= j < lens[n] ==> stream_bit(data, pos + j) == code_path(lens, n)[j],
    ensures
        spec_decode(root, data, pos) == Ok::<(u64, int), Error>((
            n as u64,
            pos + lens[n],
        )),
{
    let path = code_path(lens, n);
    assert(path.len() == lens[n]);
    assert(root.node_at(path.take(0)) == Some(root)) by {
        assert(path.take(0) =~= Seq::<bool>::empty());
    }
    lemma_decode_along(root, lens, n, data, pos, 0);
}

proof fn lemma_spec_decode_range(node: Node, data: Seq<u8>, pos: int)
    ensures
        (spec_decode(node, data, pos) matches Ok(v) ==> pos < v.1 <= 8 * data.len()),
    decreases 8 * data.len() - pos,
{
    if 0 <= pos < 8 * data.len() {
        match node.spec_child(stream_bit(data, pos)) {
            None => {},
            Some(c) => {
                if !(c.value is Some) {
                    lemma_spec_decode_range(*c, data, pos + 1);
                }
            },
        }
    }
}

/// What the run-length-coded code-length stream of a dynamic block
/// expands to, decoding with the code-length tree rooted at `treer` from
/// bit `pos` until `remain` more lengths stand appended to `out`:
/// symbols 0–15 are literal lengths, 16 repeats the previous length 3–6
/// times, 17 and 18 write runs of zero. Yields the whole vector and the
/// position just past the last code, or the first error:
/// `InvalidBackreference` for a repeat with no previous length,
/// `MalformedCodeTable` for a run that overruns the count or a symbol
/// outside the alphabet.
pub open spec fn spec_code_lengths(
    treer: Node,
    data: Seq<u8>,
    pos: int,
    out: Seq<u8>,
    remain: nat,
    prev: Option<u8>,
) -> Result<(Seq<u8>, int), Error>
    decreases remain,
{
    if remain == 0 {
        Ok((out, pos))
    } else {
        match spec_decode(treer, data, pos) {
            Err(e) => Err(e),
            Ok(cp) => {
                let c = cp.0;
                let p1 = cp.1;
                if c <= 15 {
                    spec_code_lengths(
                        treer,
                        data,
                        p1,
                        out.push(c as u8),
                        (remain - 1) as nat,
                        Some(c as u8),
                    )
                } else if c == 16 {
                    if p1 + 2 > 8 * data.len() {
                        Err(Error::UnexpectedEof)
                    } else {
                        let rep = 3 + le_number(data, p1, 2);
                        if rep > remain {
                            Err(Error::MalformedCodeTable)
                        } else {
                            match prev {
                                None => Err(Error::InvalidBackreference),
                                Some(b) => spec_code_lengths(
                                    treer,
                                    data,
                                    p1 + 2,
                                    out + Seq::new(rep, |j: int| b),
                                    (remain - rep) as nat,
                                    Some(b),
                                ),
                            }
                        }
                    }
                } else if c == 17 || c == 18 {
                    let bits: nat = if c == 17 {
                        3
                    } else {
                        7
                    };
                    let addend: nat = if c == 17 {
                        3
                    } else {
                        11
                    };
                    if p1 + bits > 8 * data.len() {
                        Err(Error::UnexpectedEof)
                    } else {
                        let rep = addend + le_number(data, p1, bits);
                        if rep > remain {
                            Err(Error::MalformedCodeTable)
                        } else {
                            spec_code_lengths(
                                treer,
                                data,
                                p1 + bits,
                                out + Seq::new(rep, |j: int| 0u8),
                                (remain - rep) as nat,
                                Some(0u8),
                            )
                        }
                    }
                } else {
                    Err(Error::MalformedCodeTable)
                }
            },
        }
    }
}

/// Expands the run-length-coded code-length stream of a dynamic block,
/// exactly as `spec_code_lengths` describes: on success exactly `count`
/// lengths, each at most 15, stand appended to `out` and the reader
/// stands just past the last code length symbol.
pub fn read_code_lengths(
    reader: &mut Reader,
    out: &mut Vec<u8>,
    tree: &BinaryTrie,
    count: usize,
) -> (r: Result<(), Error>)
    requires
        old(reader).wf(),
    ensures
        final(reader).wf(),
        final(reader).bytes() == old(reader).bytes(),
        final(reader).cursor() >= old(reader).cursor(),
        old(out)@.is_prefix_of(final(out)@),
        r is Ok ==> ({
            &&& final(out)@.len() == old(out)@.len() + count
            &&& forall|j: int| old(out)@.len() <= j < final(out)@.len() ==> final(out)@[j] < 16
        }),
        ({
            let res = spec_code_lengths(
                tree.spec_root(),
                old(reader).bytes(),
                old(reader).cursor(),
                old(out)@,
                count as nat,
                None::<u8>,
            );
            match res {
                Ok(v) => {
                    &&& r == Ok::<(), Error>(())
                    &&& final(out)@ == v.0
                    &&& final(reader).cursor() == v.1
                },
                Err(e) => r == Err::<(), Error>(e),
            }
        }),
{
    let ghost treer = tree.spec_root();
    let ghost data = old(reader).bytes();
    let ghost pos0 = old(reader).cursor();
    let ghost out0 = old(out)@;
    let mut remain = count;
    let mut prev: Option<u8> = None;
    while remain > 0
        invariant
            treer == tree.spec_root(),
            data == old(reader).bytes(),
            pos0 == old(reader).cursor(),
            out0 == old(out)@,
            reader.wf(),
            reader.bytes() == data,
            reader.cursor() >= pos0,
            remain <= count,
            out@.len() == out0.len() + count - remain,
            forall|j: int| out0.len() <= j < out@.len() ==> out@[j] < 16,
            out0.is_prefix_of(out@),
            (prev matches Some(p) ==> p < 16),
            spec_code_lengths(treer, data, pos0, out0, count as nat, None::<u8>)
                == spec_code_lengths(treer, data, reader.cursor(), out@, remain as nat, prev),
        decreases remain,
    {
        proof {
            lemma_pow2_small();
        }
        let ghost cur0 = reader.cursor();
        let ghost out_b = out@;
        let ghost prev_b = prev;
        let c = match read_next_code(reader, tree) {
            Ok(c) => c,
            Err(e) => {
                return Err(e);
            },
        };
        let ghost p1 = reader.cursor();
        if c <= 15 {
            let b = c as u8;
            out.push(b);
            prev = Some(b);
            remain = remain - 1;
            proof {
                assert(out0.is_prefix_of(out@)) by {
                    assert(out@.subrange(0, out0.len() as int) =~= out0);
                }
                assert(spec_code_lengths(treer, data, cur0, out_b, (remain + 1) as nat, prev_b)
                    == spec_code_lengths(treer, data, reader.cursor(), out@, remain as nat, prev));
            }
        } else if c == 16 {
            let repeat = match read_number_le(reader, 2) {
                Ok(v) => v + 3,
                Err(e) => {
                    return Err(e);
                },
            };
            proof {
                lemma_le_number_bound(data, p1, 2);
                assert(repeat == 3 + le_number(data, p1, 2));
            }
            if repeat > remain {
                return Err(Error::MalformedCodeTable);
            }
            let b = match prev {
                Some(b) => b,
                None => {
                    return Err(Error::InvalidBackreference);
                },
            };
            let mut k: usize = 0;
            while k < repeat
                invariant
                    k <= repeat,
                    b < 16,
                    out0.is_prefix_of(out@),
                    out@.len() == out0.len() + count - remain + k,
                    forall|j: int| out0.len() <= j < out@.len() ==> out@[j] < 16,
                    out@ == out_b + (Seq::new(k as nat, |j: int| b)),
                decreases repeat - k,
            {
                out.push(b);
                k = k + 1;
                proof {
                    assert(out@.subrange(0, out0.len() as int) =~= out0);
                    assert(out@ =~= out_b + (Seq::new(k as nat, |j: int| b)));
                }
            }
            remain = remain - repeat;
            proof {
                assert(spec_code_lengths(treer, data, cur0, out_b, (remain + repeat) as nat, prev_b)
                    == spec_code_lengths(treer, data, reader.cursor(), out@, remain as nat, prev));
            }
        } else if c == 17 || c == 18 {
            let (length_bits, addend): (u8, usize) = if c == 17 {
                (3, 3)
            } else {
                (7, 11)
            };
            let repeat = match read_number_le(reader, length_bits) {
                Ok(v) => v + addend,
                Err(e) => {
                    return Err(e);
                },
            };
            proof {
                lemma_le_number_bound(data, p1, length_bits as nat);
                assert(repeat == addend + le_number(data, p1, length_bits as nat));
            }
            if repeat > remain {
                return Err(Error::MalformedCodeTable);
            }
            let mut k: usize = 0;
            while k < repeat
                invariant
                    k <= repeat,
                    out0.is_prefix_of(out@),
                    out@.len() == out0.len() + count - remain + k,
                    forall|j: int| out0.len() <= j < out@.len() ==> out@[j] < 16,
                    out@ == out_b + (Seq::new(k as nat, |j: int| 0u8)),
                decreases repeat - k,
            {
                out.push(0);
                k = k + 1;
                proof {
                    assert(out@.subrange(0, out0.len() as int) =~= out0);
                    assert(out@ =~= out_b + (Seq::new(k as nat, |j: int| 0u8)));
                }
            }
            prev = Some(0);
            remain = remain - repeat;
            proof {
                assert(spec_code_lengths(treer, data, cur0, out_b, (remain + repeat) as nat, prev_b)
                    == spec_code_lengths(treer, data, reader.cursor(), out@, remain as nat, prev));
            }
        } else {
            return Err(Error::MalformedCodeTable);
        }
    }
    Ok(())
}

/// Extra-bit count and base value for a length symbol (RFC 1951
/// §3.2.5), indexed by symbol − 257.
pub open spec fn spec_length_info(index: int) -> (int, int) {
    if index == 0 { (0, 3) }
    else if index == 1 { (0, 4) }
    else if index == 2 { (0, 5) }
    else if index == 3 { (0, 6) }
    else if index == 4 { (0, 7) }
    else if index == 5 { (0, 8) }
    else if index == 6 { (0, 9) }
    else if index == 7 { (0, 10) }
    else if index == 8 { (1, 11) }
    else if index == 9 { (1, 13) }
    else if index == 10 { (1, 15) }
    else if index == 11 { (1, 17) }
    else if index == 12 { (2, 19) }
    else if index == 13 { (2, 23) }
    else if index == 14 { (2, 27) }
    else if index == 15 { (2, 31) }
    else if index == 16 { (3, 35) }
    else if index == 17 { (3, 43) }
    else if index == 18 { (3, 51) }
    else if index == 19 { (3, 59) }
    else if index == 20 { (4, 67) }
    else if index == 21 { (4, 83) }
    else if index == 22 { (4, 99) }
    else if index == 23 { (4, 115) }
    else if index == 24 { (5, 131) }
    else if index == 25 { (5, 163) }
    else if index == 26 { (5, 195) }
    else if index == 27 { (5, 227) }
    else { (0, 258) }
}

/// Extra-bit count and base value for a distance symbol (RFC 1951
/// §3.2.5).
pub open spec fn spec_dist_info(index: int) -> (int, int) {
    if index == 0 { (0, 1) }
    else if index == 1 { (0, 2) }
    else if index == 2 { (0, 3) }
    else if index == 3 { (0, 4) }
    else if index == 4 { (1, 5) }
    else if index == 5 { (1, 7) }
    else if index == 6 { (2, 9) }
    else if index == 7 { (2, 13) }
    else if index == 8 { (3, 17) }
    else if index == 9 { (3, 25) }
    else if index == 10 { (4, 33) }
    else if index == 11 { (4, 49) }
    else if index == 12 { (5, 65) }
    else if index == 13 { (5, 97) }
    else if index == 14 { (6, 129) }
    else if index == 15 { (6, 193) }
    else if index == 16 { (7, 257) }
    else if index == 17 { (7, 385) }
    else if index == 18 { (8, 513) }
    else if index == 19 { (8, 769) }
    else if index == 20 { (9, 1025) }
    else if index == 21 { (9, 1537) }
    else if index == 22 { (10, 2049) }
    else if index == 23 { (10, 3073) }
    else if index == 24 { (11, 4097) }
    else if index == 25 { (11, 6145) }
    else if index == 26 { (12, 8193) }
    else if index == 27 { (12, 12289) }
    else if index == 28 { (13, 16385) }
    else { (13, 24577) }
}

/// The executable twin of `spec_length_info`. Any resulting length fits
/// the window: `base + 2^extra − 1 ≤ 258`.
fn length_info(index: usize) -> (r: (u8, usize))
    requires
        index < 29,
    ensures
        r.0 <= 5,
        1 <= r.1,
        r.1 + pow2(r.0 as nat) <= 259,
        r.0 as int == spec_length_info(index as int).0,
        r.1 as int == spec_length_info(index as int).1,
{
    proof {
        lemma_pow2_16();
        lemma_pow2_le(0, 16);
        lemma_pow2_le(1, 16);
    }
    let pair: (u8, usize) = match index {
        0 => (0, 3),
        1 => (0, 4),
        2 => (0, 5),
        3 => (0, 6),
        4 => (0, 7),
        5 => (0, 8),
        6 => (0, 9),
        7 => (0, 10),
        8 => (1, 11),
        9 => (1, 13),
        10 => (1, 15),
        11 => (1, 17),
        12 => (2, 19),
        13 => (2, 23),
        14 => (2, 27),
        15 => (2, 31),
        16 => (3, 35),
        17 => (3, 43),
        18 => (3, 51),
        19 => (3, 59),
        20 => (4, 67),
        21 => (4, 83),
        22 => (4, 99),
        23 => (4, 115),
        24 => (5, 131),
        25 => (5, 163),
        26 => (5, 195),
        27 => (5, 227),
        _ => (0, 258),
    };
    proof {
        lemma_pow2_small();
    }
    pair
}

/// The executable twin of `spec_dist_info`. Any resulting distance fits
/// the window: `base + 2^extra − 1 ≤ 32768`.
fn dist_info(index: usize) -> (r: (u8, usize))
    requires
        index < 30,
    ensures
        r.0 <= 13,
        1 <= r.1,
        r.1 + pow2(r.0 as nat) <= 32769,
        r.0 as int == spec_dist_info(index as int).0,
        r.1 as int == spec_dist_info(index as int).1,
{
    let pair: (u8, usize) = match index {
        0 => (0, 1),
        1 => (0, 2),
        2 => (0, 3),
        3 => (0, 4),
        4 => (1, 5),
        5 => (1, 7),
        6 => (2, 9),
        7 => (2, 13),
        8 => (3, 17),
        9 => (3, 25),
        10 => (4, 33),
        11 => (4, 49),
        12 => (5, 65),
        13 => (5, 97),
        14 => (6, 129),
        15 => (6, 193),
        16 => (7, 257),
        17 => (7, 385),
        18 => (8, 513),
        19 => (8, 769),
        20 => (9, 1025),
        21 => (9, 1537),
        22 => (10, 2049),
        23 => (10, 3073),
        24 => (11, 4097),
        25 => (11, 6145),
        26 => (12, 8193),
        27 => (12, 12289),
        28 => (13, 16385),
        _ => (13, 24577),
    };
    proof {
        lemma_pow2_small();
        assert(pow2(8) == 256);
        assert(pow2(9) == 512);
        assert(pow2(10) == 1024);
        assert(pow2(11) == 2048);
        assert(pow2(12) == 4096);
        assert(pow2(13) == 8192);
    }
    pair
}

/// What the compressed payload of one block decodes to, from the stream
/// bit at `pos` with the output so far `out`: literal/length codes drive
/// literal bytes and back-references (resolved against the last `cap`
/// output bytes) until the end-of-block symbol. Yields the whole output
/// and the position just past the end-of-block code, or the first error.
pub open spec fn spec_payload(
    litr: Node,
    distr: Node,
    data: Seq<u8>,
    pos: int,
    out: Seq<u8>,
    cap: int,
) -> Result<(Seq<u8>, int), Error>
    decreases 8 * data.len() - pos,
    when 0 <= pos
    via spec_payload_decreases
{
    match spec_decode(litr, data, pos) {
        Err(e) => Err(e),
        Ok(cp) => {
            let c = cp.0;
            let p1 = cp.1;
            if c <= 255 {
                spec_payload(litr, distr, data, p1, out.push(c as u8), cap)
            } else if c == 256 {
                Ok((out, p1))
            } else if c <= 285 {
                let li = spec_length_info(c - 257);
                if p1 + li.0 > 8 * data.len() {
                    Err(Error::UnexpectedEof)
                } else {
                    let length = li.1 + le_number(data, p1, li.0 as nat);
                    match spec_decode(distr, data, p1 + li.0) {
                        Err(e) => Err(e),
                        Ok(dp) => {
                            let dc = dp.0;
                            let p3 = dp.1;
                            if dc > 29 {
                                Err(Error::InvalidCode)
                            } else {
                                let di = spec_dist_info(dc as int);
                                if p3 + di.0 > 8 * data.len() {
                                    Err(Error::UnexpectedEof)
                                } else {
                                    let dist = di.1 + le_number(data, p3, di.0 as nat);
                                    let wlen = vstd::math::min(out.len() as int, cap);
                                    if 1 <= dist <= wlen {
                                        let w = out.subrange(out.len() - wlen, out.len() as int);
                                        spec_payload(
                                            litr,
                                            distr,
                                            data,
                                            p3 + di.0,
                                            out + ring_copy_written(w, cap, dist, length as nat),
                                            cap,
                                        )
                                    } else {
                                        Err(Error::InvalidBackreference)
                                    }
                                }
                            }
                        },
                    }
                }
            } else {
                Err(Error::InvalidCode)
            }
        },
    }
}

#[via_fn]
proof fn spec_payload_decreases(
    litr: Node,
    distr: Node,
    data: Seq<u8>,
    pos: int,
    out: Seq<u8>,
    cap: int,
) {
    lemma_spec_decode_range(litr, data, pos);
    match spec_decode(litr, data, pos) {
        Ok(cp) => {
            let li = spec_length_info(cp.0 - 257);
            lemma_spec_decode_range(distr, data, cp.1 + li.0);
        },
        Err(_) => {},
    }
}

/// Decodes the compressed payload shared by fixed and dynamic blocks,
/// exactly as `spec_payload` describes: on success the count of bytes
/// produced is returned, the output holds exactly the decoded bytes, and
/// the reader stands just past the end-of-block code.
pub fn read_compressed_data(
    reader: &mut Reader,
    writer: &mut Writer,
    lit_tree: &BinaryTrie,
    dist_tree: &BinaryTrie,
) -> (r: Result<usize, Error>)
    requires
        old(reader).wf(),
        old(writer).wf(),
        old(writer).window_capacity() >= 32768,
    ensures
        final(reader).wf(),
        final(writer).wf(),
        final(reader).bytes() == old(reader).bytes(),
        final(writer).window_capacity() == old(writer).window_capacity(),
        final(reader).cursor() >= old(reader).cursor(),
        old(writer)@.is_prefix_of(final(writer)@),
        r is Ok ==> old(writer)@.len() + r->Ok_0 == final(writer)@.len(),
        ({
            let res = spec_payload(
                lit_tree.spec_root(),
                dist_tree.spec_root(),
                old(reader).bytes(),
                old(reader).cursor(),
                old(writer)@,
                old(writer).window_capacity(),
            );
            match res {
                Ok(v) => {
                    &&& r == Ok::<usize, Error>((v.0.len() - old(writer)@.len()) as usize)
                    &&& final(writer)@ == v.0
                    &&& final(reader).cursor() == v.1
                },
                Err(e) => r == Err::<usize, Error>(e),
            }
        }),
{
    let ghost litr = lit_tree.spec_root();
    let ghost distr = dist_tree.spec_root();
    let ghost data = old(reader).bytes();
    let ghost cap = old(writer).window_capacity();
    let start = writer.output_len();
    loop
        invariant
            litr == lit_tree.spec_root(),
            distr == dist_tree.spec_root(),
            data == old(reader).bytes(),
            cap == old(writer).window_capacity(),
            reader.wf(),
            writer.wf(),
            reader.bytes() == data,
            writer.window_capacity() == cap,
            writer.window_capacity() >= 32768,
            reader.cursor() >= old(reader).cursor(),
            old(writer)@.is_prefix_of(writer@),
            start == old(writer)@.len(),
            spec_payload(litr, distr, data, old(reader).cursor(), old(writer)@, cap)
                == spec_payload(litr, distr, data, reader.cursor(), writer@, cap),
        decreases 8 * reader.bytes().len() - reader.cursor(),
    {
        let ghost cur0 = reader.cursor();
        let ghost out0 = writer@;
        proof {
            lemma_spec_decode_range(litr, data, cur0);
        }
        let c = match read_next_code(reader, lit_tree) {
            Ok(c) => c,
            Err(e) => {
                return Err(e);
            },
        };
        proof {
            assert(reader.cursor() > cur0);
            lemma_pow2_small();
        }
        if c <= 255 {
            match writer.push(c as u8) {
                Ok(()) => {},
                Err(e) => {
                    return Err(e);
                },
            }
            proof {
                assert(writer@.subrange(0, start as int) =~= old(writer)@);
                assert(spec_payload(litr, distr, data, cur0, out0, cap) == spec_payload(
                    litr,
                    distr,
                    data,
                    reader.cursor(),
                    writer@,
                    cap,
                ));
            }
        } else if c == 256 {
            proof {
                assert(spec_payload(litr, distr, data, cur0, out0, cap) == Ok::<
                    (Seq<u8>, int),
                    Error,
                >((out0, reader.cursor())));
            }
            let end = writer.output_len();
            return Ok(end - start);
        } else if c <= 285 {
            let ghost p1 = reader.cursor();
            let (length_bits, addend) = length_info((c - 257) as usize);
            let extra = match read_number_le(reader, length_bits) {
                Ok(v) => v,
                Err(e) => {
                    return Err(e);
                },
            };
            let length = addend + extra;
            proof {
                lemma_spec_decode_range(distr, data, reader.cursor());
            }
            let dist_code = match read_next_code(reader, dist_tree) {
                Ok(d) => d,
                Err(e) => {
                    return Err(e);
                },
            };
            let ghost p3 = reader.cursor();
            if dist_code > 29 {
                return Err(Error::InvalidCode);
            }
            let (dist_bits, dist_addend) = dist_info(dist_code as usize);
            let dist_extra = match read_number_le(reader, dist_bits) {
                Ok(v) => v,
                Err(e) => {
                    return Err(e);
                },
            };
            let dist = dist_addend + dist_extra;
            let ghost w_pre = writer.window();
            proof {
                writer.lemma_window_of_output();
            }
            match writer.copy_within(dist, length) {
                Ok(_) => {},
                Err(e) => {
                    return Err(e);
                },
            }
            proof {
                let li = spec_length_info(c - 257);
                let di = spec_dist_info(dist_code as int);
                let wlen = vstd::math::min(out0.len() as int, cap);
                lemma_pow2_16();
                lemma_pow2_le(length_bits as nat, 16);
                lemma_pow2_le(dist_bits as nat, 16);
                assert(spec_decode(litr, data, cur0) == Ok::<(u64, int), Error>((c, p1)));
                lemma_le_number_bound(data, p1, length_bits as nat);
                lemma_le_number_bound(data, p3, dist_bits as nat);
                assert(li.0 == length_bits as int && li.1 == addend as int);
                assert(p1 + li.0 <= 8 * data.len());
                assert(length as int == li.1 + le_number(data, p1, li.0 as nat));
                assert(spec_decode(distr, data, p1 + li.0) == Ok::<(u64, int), Error>((
                    dist_code,
                    p3,
                )));
                assert(p3 + di.0 <= 8 * data.len());
                assert(dist as int == di.1 + le_number(data, p3, di.0 as nat));
                assert(w_pre == out0.subrange(out0.len() - wlen, out0.len() as int));
                assert(1 <= dist as int <= wlen);
                assert(writer@ == out0 + ring_copy_written(w_pre, cap, dist as int, length as nat));
                assert(reader.cursor() == p3 + di.0);
                assert(writer@.subrange(0, start as int) =~= old(writer)@);
                assert(spec_payload(litr, distr, data, cur0, out0, cap) == spec_payload(
                    litr,
                    distr,
                    data,
                    reader.cursor(),
                    writer@,
                    cap,
                ));
            }
        } else {
            return Err(Error::InvalidCode);
        }
    }
}

/// What a payload decodes to, as a function of the two canonical
/// code-length vectors alone: the trees are taken as arbitrary
/// representatives, which `lemma_payload_of_lengths` shows is harmless.
pub open spec fn spec_payload_of_lengths(
    lit_lens: Seq<u8>,
    dist_lens: Seq<u8>,
    data: Seq<u8>,
    pos: int,
    out: Seq<u8>,
    cap: int,
) -> Result<(Seq<u8>, int), Error> {
    let lt = choose|t: Node| represents_prefix(t, lit_lens, lit_lens.len() as int);
    let dt = choose|t: Node| represents_prefix(t, dist_lens, dist_lens.len() as int);
    spec_payload(lt, dt, data, pos, out, cap)
}

/// Any pair of representing trees yields `spec_payload_of_lengths`.
pub proof fn lemma_payload_of_lengths(
    lt: Node,
    dt: Node,
    lit_lens: Seq<u8>,
    dist_lens: Seq<u8>,
    data: Seq<u8>,
    pos: int,
    out: Seq<u8>,
    cap: int,
)
    requires
        represents_prefix(lt, lit_lens, lit_lens.len() as int),
        represents_prefix(dt, dist_lens, dist_lens.len() as int),
        0 <= pos,
    ensures
        spec_payload(lt, dt, data, pos, out, cap) == spec_payload_of_lengths(
            lit_lens,
            dist_lens,
            data,
            pos,
            out,
            cap,
        ),
{
    let l2 = choose|t: Node| represents_prefix(t, lit_lens, lit_lens.len() as int);
    let d2 = choose|t: Node| represents_prefix(t, dist_lens, dist_lens.len() as int);
    assert(represents_prefix(l2, lit_lens, lit_lens.len() as int));
    assert(represents_prefix(d2, dist_lens, dist_lens.len() as int));
    lemma_payload_deterministic(lt, dt, l2, d2, lit_lens, dist_lens, data, pos, out, cap);
}

/// What the code-length stream expands to, as a function of the
/// code-length code's canonical vector alone.
pub open spec fn spec_code_lengths_of(
    cl_lens: Seq<u8>,
    data: Seq<u8>,
    pos: int,
    out: Seq<u8>,
    remain: nat,
    prev: Option<u8>,
) -> Result<(Seq<u8>, int), Error> {
    let t = choose|t: Node| represents_prefix(t, cl_lens, cl_lens.len() as int);
    spec_code_lengths(t, data, pos, out, remain, prev)
}

/// Any representing tree yields `spec_code_lengths_of`.
pub proof fn lemma_code_lengths_of(
    tr: Node,
    cl_lens: Seq<u8>,
    data: Seq<u8>,
    pos: int,
    out: Seq<u8>,
    remain: nat,
    prev: Option<u8>,
)
    requires
        represents_prefix(tr, cl_lens, cl_lens.len() as int),
        0 <= pos,
    ensures
        spec_code_lengths(tr, data, pos, out, remain, prev) == spec_code_lengths_of(
            cl_lens,
            data,
            pos,
            out,
            remain,
            prev,
        ),
{
    let t2 = choose|t: Node| represents_prefix(t, cl_lens, cl_lens.len() as int);
    assert(represents_prefix(t2, cl_lens, cl_lens.len() as int));
    lemma_code_lengths_deterministic(tr, t2, cl_lens, data, pos, out, remain, prev);
}

/// The fixed literal/length code lengths (RFC 1951 §3.2.6).
pub open spec fn fixed_lit_lengths() -> Seq<u8> {
    Seq::new(
        288,
        |i: int|
            if i < 144 {
                8u8
            } else if i < 256 {
                9u8
            } else if i < 280 {
                7u8
            } else {
                8u8
            },
    )
}

/// The fixed distance code lengths: five bits for all 32 slots.
pub open spec fn fixed_dist_lengths() -> Seq<u8> {
    Seq::new(32, |i: int| 5u8)
}

proof fn lemma_fixed_dist_counts(k: int)
    requires
        0 <= k <= 32,
    ensures
        count_len(fixed_dist_lengths(), k, 5) == k,
        forall|l: int| l != 5 ==> #[trigger] count_len(fixed_dist_lengths(), k, l) == 0,
    decreases k,
{
    if k > 0 {
        lemma_fixed_dist_counts(k - 1);
        assert(fixed_dist_lengths()[k - 1] == 5);
    }
    assert forall|l: int| l != 5 implies #[trigger] count_len(fixed_dist_lengths(), k, l)
        == 0 by {
        if k > 0 {
            assert(count_len(fixed_dist_lengths(), k, l) == count_len(
                fixed_dist_lengths(),
                k - 1,
                l,
            ));
        }
    }
}

proof fn lemma_fixed_lit_counts(k: int)
    requires
        0 <= k <= 288,
    ensures
        count_len(fixed_lit_lengths(), k, 7) == (if k <= 256 {
            0int
        } else if k <= 280 {
            k - 256
        } else {
            24int
        }),
        count_len(fixed_lit_lengths(), k, 8) == (if k <= 144 {
            k
        } else if k <= 280 {
            144int
        } else {
            144 + (k - 280)
        }),
        count_len(fixed_lit_lengths(), k, 9) == (if k <= 144 {
            0int
        } else if k <= 256 {
            k - 144
        } else {
            112int
        }),
        forall|l: int|
            l != 7 && l != 8 && l != 9 ==> #[trigger] count_len(fixed_lit_lengths(), k, l) == 0,
    decreases k,
{
    if k > 0 {
        lemma_fixed_lit_counts(k - 1);
        if k - 1 < 144 {
            assert(fixed_lit_lengths()[k - 1] == 8);
        } else if k - 1 < 256 {
            assert(fixed_lit_lengths()[k - 1] == 9);
        } else if k - 1 < 280 {
            assert(fixed_lit_lengths()[k - 1] == 7);
        } else {
            assert(fixed_lit_lengths()[k - 1] == 8);
        }
    }
    assert forall|l: int|
        l != 7 && l != 8 && l != 9 implies #[trigger] count_len(fixed_lit_lengths(), k, l)
        == 0 by {
        if k > 0 {
            assert(count_len(fixed_lit_lengths(), k, l) == count_len(
                fixed_lit_lengths(),
                k - 1,
                l,
            ));
        }
    }
}

/// The two fixed RFC 1951 §3.2.6 tables are well-formed canonical
/// tables: every code fits its length and none prefixes another, so the
/// fixed trees always build.
pub proof fn lemma_fixed_tables_wf()
    ensures
        canonical_fits(fixed_lit_lengths()),
        canonical_prefix_free(fixed_lit_lengths()),
        canonical_fits(fixed_dist_lengths()),
        canonical_prefix_free(fixed_dist_lengths()),
{
    let fd = fixed_dist_lengths();
    lemma_fixed_dist_counts(32);
    lemma_pow2_small();
    assert(next_code_at(fd, 1) == 0);
    assert(next_code_at(fd, 2) == 0);
    assert(next_code_at(fd, 3) == 0);
    assert(next_code_at(fd, 4) == 0);
    assert(next_code_at(fd, 5) == 0);
    assert forall|n: int|
        0 <= n < fd.len() && fd[n] > 0 implies #[trigger] canonical_code(fd, n) < pow2(
        fd[n] as nat,
    ) by {
        assert(fd[n] == 5);
        lemma_fixed_dist_counts(n);
        assert(canonical_code(fd, n) == n);
    }
    let fl = fixed_lit_lengths();
    lemma_fixed_lit_counts(288);
    assert(pow2(8) == 256);
    assert(pow2(9) == 512);
    assert(next_code_at(fl, 1) == 0);
    assert(next_code_at(fl, 2) == 0);
    assert(next_code_at(fl, 3) == 0);
    assert(next_code_at(fl, 4) == 0);
    assert(next_code_at(fl, 5) == 0);
    assert(next_code_at(fl, 6) == 0);
    assert(next_code_at(fl, 7) == 0);
    assert(next_code_at(fl, 8) == 48);
    assert(next_code_at(fl, 9) == 400);
    assert forall|n: int|
        0 <= n < fl.len() && fl[n] > 0 implies #[trigger] canonical_code(fl, n) < pow2(
        fl[n] as nat,
    ) by {
        lemma_fixed_lit_counts(n);
        if n < 144 {
            assert(fl[n] == 8);
            assert(canonical_code(fl, n) == 48 + n);
        } else if n < 256 {
            assert(fl[n] == 9);
            assert(canonical_code(fl, n) == 400 + (n - 144));
        } else if n < 280 {
            assert(fl[n] == 7);
            assert(canonical_code(fl, n) == n - 256);
        } else {
            assert(fl[n] == 8);
            assert(canonical_code(fl, n) == 48 + 144 + (n - 280));
        }
    }
    lemma_fits_implies_prefix_free(fl);
    lemma_fits_implies_prefix_free(fd);
}

/// What one fixed-Huffman block decodes to from bit `pos` with output
/// `out`, when it decodes at all.
pub open spec fn spec_fixed_block(data: Seq<u8>, pos: int, out: Seq<u8>, cap: int) -> Option<
    (Seq<u8>, int),
> {
    match spec_payload_of_lengths(fixed_lit_lengths(), fixed_dist_lengths(), data, pos, out, cap) {
        Ok(v) => Some(v),
        Err(_) => None,
    }
}

/// What one dynamic-Huffman block decodes to from bit `pos` with output
/// `out`: the HLIT/HDIST/HCLEN counts, the scattered code-length-code
/// vector, the expanded code-length stream, and the payload under the
/// two resulting tables; a table whose canonical codes overflow their
/// lengths or collide is `MalformedCodeTable`, and a header cut short is
/// `UnexpectedEof`.
pub open spec fn spec_dynamic_result(data: Seq<u8>, pos: int, out: Seq<u8>, cap: int) -> Result<
    (Seq<u8>, int),
    Error,
> {
    if pos + 14 > 8 * data.len() {
        Err(Error::UnexpectedEof)
    } else {
        let hlit = 257 + le_number(data, pos, 5);
        let hdist = 1 + le_number(data, pos + 5, 5);
        let hclen = 4 + le_number(data, pos + 10, 4);
        if pos + 14 + 3 * hclen > 8 * data.len() {
            Err(Error::UnexpectedEof)
        } else {
            let cl = spec_cl_lengths(data, pos + 14, hclen as int);
            if !(canonical_fits(cl) && canonical_prefix_free(cl)) {
                Err(Error::MalformedCodeTable)
            } else {
                match spec_code_lengths_of(
                    cl,
                    data,
                    pos + 14 + 3 * hclen,
                    Seq::<u8>::empty(),
                    (hlit + hdist) as nat,
                    None::<u8>,
                ) {
                    Err(e) => Err(e),
                    Ok(cls) => {
                        let lit = cls.0.take(hlit as int);
                        let dist = cls.0.skip(hlit as int);
                        if !(canonical_fits(lit) && canonical_prefix_free(lit) && canonical_fits(
                            dist,
                        ) && canonical_prefix_free(dist)) {
                            Err(Error::MalformedCodeTable)
                        } else {
                            spec_payload_of_lengths(lit, dist, data, cls.1, out, cap)
                        }
                    },
                }
            }
        }
    }
}

/// The dynamic-block result as an option, for the block dispatcher.
pub open spec fn spec_dynamic_block(data: Seq<u8>, pos: int, out: Seq<u8>, cap: int) -> Option<
    (Seq<u8>, int),
> {
    match spec_dynamic_result(data, pos, out, cap) {
        Ok(v) => Some(v),
        Err(_) => None,
    }
}

/// Scatter order of the code-length-code lengths in a dynamic block
/// header (RFC 1951 §3.2.7).
pub open spec fn spec_cl_index(i: int) -> int {
    if i == 0 { 16 }
    else if i == 1 { 17 }
    else if i == 2 { 18 }
    else if i == 3 { 0 }
    else if i == 4 { 8 }
    else if i == 5 { 7 }
    else if i == 6 { 9 }
    else if i == 7 { 6 }
    else if i == 8 { 10 }
    else if i == 9 { 5 }
    else if i == 10 { 11 }
    else if i == 11 { 4 }
    else if i == 12 { 12 }
    else if i == 13 { 3 }
    else if i == 14 { 13 }
    else if i == 15 { 2 }
    else if i == 16 { 14 }
    else if i == 17 { 1 }
    else { 15 }
}

/// The 19-entry code-length-code length vector of a dynamic block: the
/// first `hclen` three-bit fields starting at bit `pos`, scattered into
/// the fixed order; unread positions stay zero.
pub open spec fn spec_cl_lengths(data: Seq<u8>, pos: int, hclen: int) -> Seq<u8>
    decreases hclen,
{
    if hclen <= 0 {
        Seq::new(19, |j: int| 0u8)
    } else {
        spec_cl_lengths(data, pos, hclen - 1).update(
            spec_cl_index(hclen - 1),
            le_number(data, pos + 3 * (hclen - 1), 3) as u8,
        )
    }
}

/// The executable twin of `spec_cl_index`.
fn alphabet_index(i: usize) -> (r: usize)
    requires
        i < 19,
    ensures
        r < 19,
        r as int == spec_cl_index(i as int),
{
    match i {
        0 => 16,
        1 => 17,
        2 => 18,
        3 => 0,
        4 => 8,
        5 => 7,
        6 => 9,
        7 => 6,
        8 => 10,
        9 => 5,
        10 => 11,
        11 => 4,
        12 => 12,
        13 => 3,
        14 => 13,
        15 => 2,
        16 => 14,
        17 => 1,
        _ => 15,
    }
}

/// Decodes one dynamic-Huffman block (type `10`): reads HLIT, HDIST and
/// HCLEN, rebuilds the code-length tree, expands both code-length
/// vectors, builds the literal/length and distance trees, and decodes
/// the payload. The result, success and error alike, is exactly what
/// `spec_dynamic_result` gives for the stream.
pub fn decompress_dynamic(reader: &mut Reader, writer: &mut Writer) -> (r: Result<usize, Error>)
    requires
        old(reader).wf(),
        old(writer).wf(),
        old(writer).window_capacity() >= 32768,
    ensures
        final(reader).wf(),
        final(writer).wf(),
        final(reader).bytes() == old(reader).bytes(),
        final(writer).window_capacity() == old(writer).window_capacity(),
        final(reader).cursor() >= old(reader).cursor(),
        old(writer)@.is_prefix_of(final(writer)@),
        r is Ok ==> old(writer)@.len() + r->Ok_0 == final(writer)@.len(),
        ({
            let res = spec_dynamic_result(
                old(reader).bytes(),
                old(reader).cursor(),
                old(writer)@,
                old(writer).window_capacity(),
            );
            match res {
                Ok(v) => {
                    &&& r == Ok::<usize, Error>((v.0.len() - old(writer)@.len()) as usize)
                    &&& final(writer)@ == v.0
                    &&& final(reader).cursor() == v.1
                },
                Err(e) => r == Err::<usize, Error>(e),
            }
        }),
{
    proof {
        lemma_pow2_small();
        lemma_prefix_refl(old(writer)@);
    }
    let ghost data = old(reader).bytes();
    let ghost p0 = old(reader).cursor();
    let hlit = match read_number_le(reader, 5) {
        Ok(v) => v + 257,
        Err(e) => {
            return Err(e);
        },
    };
    let hdist = match read_number_le(reader, 5) {
        Ok(v) => v + 1,
        Err(e) => {
            return Err(e);
        },
    };
    let hclen = match read_number_le(reader, 4) {
        Ok(v) => v + 4,
        Err(e) => {
            return Err(e);
        },
    };
    proof {
        lemma_le_number_bound(data, p0, 5);
        lemma_le_number_bound(data, p0 + 5, 5);
        lemma_le_number_bound(data, p0 + 10, 4);
        assert(hlit == 257 + le_number(data, p0, 5));
        assert(hdist == 1 + le_number(data, p0 + 5, 5));
        assert(hclen == 4 + le_number(data, p0 + 10, 4));
        assert(reader.cursor() == p0 + 14);
    }
    let ghost p14 = p0 + 14;
    let mut lengths: Vec<u8> = Vec::new();
    let mut i: usize = 0;
    while i < 19
        invariant
            lengths@.len() == i,
            i <= 19,
            forall|j: int| 0 <= j < i ==> lengths@[j] == 0,
        decreases 19 - i,
    {
        lengths.push(0);
        i = i + 1;
    }
    proof {
        assert(lengths@ =~= spec_cl_lengths(data, p14, 0));
    }
    let mut i: usize = 0;
    while i < hclen
        invariant
            i <= hclen,
            hclen <= 19,
            data == old(reader).bytes(),
            p14 == old(reader).cursor() + 14,
            old(reader).cursor() + 14 <= 8 * data.len(),
            hlit == 257 + le_number(data, old(reader).cursor(), 5),
            hdist == 1 + le_number(data, old(reader).cursor() + 5, 5),
            hclen == 4 + le_number(data, old(reader).cursor() + 10, 4),
            reader.wf(),
            reader.bytes() == data,
            reader.cursor() == p14 + 3 * i,
            reader.cursor() >= old(reader).cursor(),
            writer.wf(),
            writer@ == old(writer)@,
            writer.window_capacity() == old(writer).window_capacity(),
            old(writer)@.is_prefix_of(writer@),
            lengths@.len() == 19,
            forall|j: int| 0 <= j < 19 ==> lengths@[j] <= 15,
            lengths@ == spec_cl_lengths(data, p14, i as int),
        decreases hclen - i,
    {
        let idx = alphabet_index(i);
        let v = match read_number_le(reader, 3) {
            Ok(v) => v,
            Err(e) => {
                return Err(e);
            },
        };
        proof {
            lemma_pow2_small();
            lemma_le_number_bound(data, p14 + 3 * i, 3);
            assert(v == le_number(data, p14 + 3 * i, 3));
        }
        lengths[idx] = v as u8;
        i = i + 1;
        proof {
            assert(lengths@ == spec_cl_lengths(data, p14, i as int));
        }
    }
    let ghost cl = lengths@;
    let code_tree = match build_tree(&lengths) {
        Ok(t) => t,
        Err(e) => {
            return Err(e);
        },
    };
    let ghost q0 = reader.cursor();
    proof {
        lemma_code_lengths_of(
            code_tree.spec_root(),
            cl,
            data,
            q0,
            Seq::<u8>::empty(),
            (hlit + hdist) as nat,
            None::<u8>,
        );
    }
    let mut code_lengths: Vec<u8> = Vec::new();
    match read_code_lengths(reader, &mut code_lengths, &code_tree, hlit + hdist) {
        Ok(()) => {},
        Err(e) => {
            return Err(e);
        },
    }
    proof {
        assert(spec_code_lengths_of(
            cl,
            data,
            q0,
            Seq::<u8>::empty(),
            (hlit + hdist) as nat,
            None::<u8>,
        ) == Ok::<(Seq<u8>, int), Error>((code_lengths@, reader.cursor())));
    }
    let ghost cls_pos = reader.cursor();
    let mut lit: Vec<u8> = Vec::new();
    let mut i: usize = 0;
    while i < hlit
        invariant
            i <= hlit,
            hlit <= code_lengths@.len(),
            forall|j: int| 0 <= j < code_lengths@.len() ==> code_lengths@[j] < 16,
            lit@.len() == i,
            forall|j: int| 0 <= j < i ==> lit@[j] < 16,
            lit@ == code_lengths@.subrange(0, i as int),
        decreases hlit - i,
    {
        lit.push(code_lengths[i]);
        i = i + 1;
        proof {
            assert(lit@ =~= code_lengths@.subrange(0, i as int));
        }
    }
    let mut dist: Vec<u8> = Vec::new();
    let mut i: usize = hlit;
    while i < code_lengths.len()
        invariant
            hlit <= i <= code_lengths@.len(),
            forall|j: int| 0 <= j < code_lengths@.len() ==> code_lengths@[j] < 16,
            dist@.len() == i - hlit,
            forall|j: int| 0 <= j < dist@.len() ==> dist@[j] < 16,
            dist@ == code_lengths@.subrange(hlit as int, i as int),
        decreases code_lengths@.len() - i,
    {
        dist.push(code_lengths[i]);
        i = i + 1;
        proof {
            assert(dist@ =~= code_lengths@.subrange(hlit as int, i as int));
        }
    }
    proof {
        assert(lit@ =~= code_lengths@.take(hlit as int));
        assert(dist@ =~= code_lengths@.skip(hlit as int));
    }
    let lit_tree = match build_tree(&lit) {
        Ok(t) => t,
        Err(e) => {
            return Err(e);
        },
    };
    let dist_tree = match build_tree(&dist) {
        Ok(t) => t,
        Err(e) => {
            return Err(e);
        },
    };
    proof {
        lemma_payload_of_lengths(
            lit_tree.spec_root(),
            dist_tree.spec_root(),
            lit@,
            dist@,
            data,
            cls_pos,
            writer@,
            writer.window_capacity(),
        );
    }
    read_compressed_data(reader, writer, &lit_tree, &dist_tree)
}

/// The fixed literal/length code lengths (RFC 1951 §3.2.6): 8 bits for
/// symbols 0–143 and 280–287, 9 bits for 144–255, 7 bits for 256–279.
pub fn build_lit_lengths() -> (r: Vec<u8>)
    ensures
        r@ == fixed_lit_lengths(),
        r@.len() == 288,
        forall|i: int| 0 <= i < 288 ==> r@[i] <= 15,
{
    let mut lit: Vec<u8> = Vec::new();
    let mut i: usize = 0;
    while i < 144
        invariant
            lit@.len() == i,
            i <= 144,
            forall|j: int| 0 <= j < i ==> lit@[j] == 8,
        decreases 144 - i,
    {
        lit.push(8);
        i = i + 1;
    }
    while i < 256
        invariant
            lit@.len() == i,
            144 <= i <= 256,
            forall|j: int| 0 <= j < 144 ==> lit@[j] == 8,
            forall|j: int| 144 <= j < i ==> lit@[j] == 9,
        decreases 256 - i,
    {
        lit.push(9);
        i = i + 1;
    }
    while i < 280
        invariant
            lit@.len() == i,
            256 <= i <= 280,
            forall|j: int| 0 <= j < 144 ==> lit@[j] == 8,
            forall|j: int| 144 <= j < 256 ==> lit@[j] == 9,
            forall|j: int| 256 <= j < i ==> lit@[j] == 7,
        decreases 280 - i,
    {
        lit.push(7);
        i = i + 1;
    }
    while i < 288
        invariant
            lit@.len() == i,
            280 <= i <= 288,
            forall|j: int| 0 <= j < 144 ==> lit@[j] == 8,
            forall|j: int| 144 <= j < 256 ==> lit@[j] == 9,
            forall|j: int| 256 <= j < 280 ==> lit@[j] == 7,
            forall|j: int| 280 <= j < i ==> lit@[j] == 8,
        decreases 288 - i,
    {
        lit.push(8);
        i = i + 1;
    }
    proof {
        assert(lit@ =~= fixed_lit_lengths());
    }
    lit
}

/// Decodes one fixed-Huffman block (type `01`): the statically known
/// literal/length and distance tables are rebuilt — they always build,
/// by `lemma_fixed_tables_wf` — and the payload is decoded as usual. The
/// result, success and error alike, is exactly what
/// `spec_payload_of_lengths` gives for the fixed tables.
pub fn decompress_fixed(reader: &mut Reader, writer: &mut Writer) -> (r: Result<usize, Error>)
    requires
        old(reader).wf(),
        old(writer).wf(),
        old(writer).window_capacity() >= 32768,
    ensures
        final(reader).wf(),
        final(writer).wf(),
        final(reader).bytes() == old(reader).bytes(),
        final(writer).window_capacity() == old(writer).window_capacity(),
        final(reader).cursor() >= old(reader).cursor(),
        old(writer)@.is_prefix_of(final(writer)@),
        r is Ok ==> old(writer)@.len() + r->Ok_0 == final(writer)@.len(),
        ({
            let res = spec_payload_of_lengths(
                fixed_lit_lengths(),
                fixed_dist_lengths(),
                old(reader).bytes(),
                old(reader).cursor(),
                old(writer)@,
                old(writer).window_capacity(),
            );
            match res {
                Ok(v) => {
                    &&& r == Ok::<usize, Error>((v.0.len() - old(writer)@.len()) as usize)
                    &&& final(writer)@ == v.0
                    &&& final(reader).cursor() == v.1
                },
                Err(e) => r == Err::<usize, Error>(e),
            }
        }),
{
    proof {
        lemma_fixed_tables_wf();
    }
    let lit_lengths = build_lit_lengths();
    let mut dist_lengths: Vec<u8> = Vec::new();
    let mut i: usize = 0;
    while i < 32
        invariant
            dist_lengths@.len() == i,
            i <= 32,
            forall|j: int| 0 <= j < i ==> dist_lengths@[j] == 5,
        decreases 32 - i,
    {
        dist_lengths.push(5);
        i = i + 1;
    }
    proof {
        assert(dist_lengths@ =~= fixed_dist_lengths());
    }
    let lit_tree = match build_tree(&lit_lengths) {
        Ok(t) => t,
        Err(e) => {
            return Err(e);
        },
    };
    let dist_tree = match build_tree(&dist_lengths) {
        Ok(t) => t,
        Err(e) => {
            return Err(e);
        },
    };
    proof {
        lemma_payload_of_lengths(
            lit_tree.spec_root(),
            dist_tree.spec_root(),
            fixed_lit_lengths(),
            fixed_dist_lengths(),
            reader.bytes(),
            reader.cursor(),
            writer@,
            writer.window_capacity(),
        );
    }
    read_compressed_data(reader, writer, &lit_tree, &dist_tree)
}

/// A node stands at `q` in a canonical tree exactly when `q` lies on the
/// way to some code: so presence is determined by the code-length vector
/// alone.
proof fn lemma_node_presence_determined(r1: Node, r2: Node, lens: Seq<u8>, q: Seq<bool>)
    requires
        represents_prefix(r1, lens, lens.len() as int),
        represents_prefix(r2, lens, lens.len() as int),
        (r1.node_at(q) is Some),
    ensures
        (r2.node_at(q) is Some),
        (r1.node_at(q)->Some_0.value is Some) ==> r2.node_at(q)->Some_0.value == r1.node_at(
            q,
        )->Some_0.value,
        (r1.node_at(q)->Some_0.value is None) ==> (r2.node_at(q)->Some_0.value is None),
{
    if q.len() == 0 {
        assert(r2.node_at(q) == Some(r2));
    } else {
        let m = choose|m: int|
            0 <= m < lens.len() && lens[m] > 0 && path_prefix_of(q, #[trigger] code_path(lens, m));
        assert(r2.node_at(code_path(lens, m)) is Some);
        lemma_node_at_prefix(r2, q, code_path(lens, m));
    }
    if r1.node_at(q)->Some_0.value is Some {
        let m = choose|m: int|
            0 <= m < lens.len() && lens[m] > 0 && q == #[trigger] code_path(lens, m);
        assert(r1.node_at(code_path(lens, m)) matches Some(n) && n.value == Some(m as u64));
        assert(r2.node_at(code_path(lens, m)) matches Some(n) && n.value == Some(m as u64));
    } else {
        if r2.node_at(q)->Some_0.value is Some {
            let m = choose|m: int|
                0 <= m < lens.len() && lens[m] > 0 && q == #[trigger] code_path(lens, m);
            assert(r1.node_at(code_path(lens, m)) matches Some(n) && n.value == Some(m as u64));
        }
    }
}

proof fn lemma_decode_walk_pair(r1: Node, r2: Node, lens: Seq<u8>, q: Seq<bool>, data: Seq<u8>, pos: int)
    requires
        represents_prefix(r1, lens, lens.len() as int),
        represents_prefix(r2, lens, lens.len() as int),
        (r1.node_at(q) matches Some(n1) && n1.value is None),
        (r2.node_at(q) matches Some(n2) && n2.value is None),
    ensures
        spec_decode(r1.node_at(q)->Some_0, data, pos) == spec_decode(
            r2.node_at(q)->Some_0,
            data,
            pos,
        ),
    decreases 8 * data.len() - pos,
{
    if 0 <= pos < 8 * data.len() {
        let b = stream_bit(data, pos);
        let q1 = q.push(b);
        lemma_node_at_snoc(r1, q, b);
        lemma_node_at_snoc(r2, q, b);
        if r1.node_at(q1) is Some {
            lemma_node_presence_determined(r1, r2, lens, q1);
            if r1.node_at(q1)->Some_0.value is None {
                lemma_decode_walk_pair(r1, r2, lens, q1, data, pos + 1);
            }
        } else {
            if r2.node_at(q1) is Some {
                lemma_node_presence_determined(r2, r1, lens, q1);
            }
        }
    }
}

/// Decoding one code is deterministic: any two trees built from the same
/// canonical code-length vector decode every stream position alike.
pub proof fn lemma_decode_deterministic(r1: Node, r2: Node, lens: Seq<u8>, data: Seq<u8>, pos: int)
    requires
        represents_prefix(r1, lens, lens.len() as int),
        represents_prefix(r2, lens, lens.len() as int),
    ensures
        spec_decode(r1, data, pos) == spec_decode(r2, data, pos),
{
    assert(r1.node_at(Seq::<bool>::empty()) == Some(r1));
    assert(r2.node_at(Seq::<bool>::empty()) == Some(r2));
    lemma_decode_walk_pair(r1, r2, lens, Seq::<bool>::empty(), data, pos);
}

/// Decoding a whole payload is deterministic: the result depends only on
/// the two canonical code-length vectors, the stream bits, the output so
/// far, and the window capacity — not on how the trees were built.
pub proof fn lemma_payload_deterministic(
    l1: Node,
    d1: Node,
    l2: Node,
    d2: Node,
    lit_lens: Seq<u8>,
    dist_lens: Seq<u8>,
    data: Seq<u8>,
    pos: int,
    out: Seq<u8>,
    cap: int,
)
    requires
        represents_prefix(l1, lit_lens, lit_lens.len() as int),
        represents_prefix(l2, lit_lens, lit_lens.len() as int),
        represents_prefix(d1, dist_lens, dist_lens.len() as int),
        represents_prefix(d2, dist_lens, dist_lens.len() as int),
        0 <= pos,
    ensures
        spec_payload(l1, d1, data, pos, out, cap) == spec_payload(l2, d2, data, pos, out, cap),
    decreases 8 * data.len() - pos,
{
    lemma_spec_decode_range(l1, data, pos);
    lemma_decode_deterministic(l1, l2, lit_lens, data, pos);
    match spec_decode(l1, data, pos) {
        Err(_) => {},
        Ok(cp) => {
            let c = cp.0;
            let p1 = cp.1;
            if c <= 255 {
                lemma_payload_deterministic(
                    l1,
                    d1,
                    l2,
                    d2,
                    lit_lens,
                    dist_lens,
                    data,
                    p1,
                    out.push(c as u8),
                    cap,
                );
            } else if c == 256 {
            } else if c <= 285 {
                let li = spec_length_info(c - 257);
                if p1 + li.0 <= 8 * data.len() {
                    let length = li.1 + le_number(data, p1, li.0 as nat);
                    lemma_spec_decode_range(d1, data, p1 + li.0);
                    lemma_decode_deterministic(d1, d2, dist_lens, data, p1 + li.0);
                    match spec_decode(d1, data, p1 + li.0) {
                        Err(_) => {},
                        Ok(dp) => {
                            let dc = dp.0;
                            let p3 = dp.1;
                            if dc <= 29 {
                                let di = spec_dist_info(dc as int);
                                if p3 + di.0 <= 8 * data.len() {
                                    let dist = di.1 + le_number(data, p3, di.0 as nat);
                                    let wlen = vstd::math::min(out.len() as int, cap);
                                    if 1 <= dist <= wlen {
                                        let w = out.subrange(out.len() - wlen, out.len() as int);
                                        lemma_payload_deterministic(
                                            l1,
                                            d1,
                                            l2,
                                            d2,
                                            lit_lens,
                                            dist_lens,
                                            data,
                                            p3 + di.0,
                                            out + ring_copy_written(w, cap, dist, length as nat),
                                            cap,
                                        );
                                    }
                                }
                            }
                        },
                    }
                }
            }
        },
    }
}

/// Expanding the code-length stream is deterministic in the same way:
/// the result depends only on the code-length code's canonical vector,
/// the stream bits, and the expansion state.
pub proof fn lemma_code_lengths_deterministic(
    r1: Node,
    r2: Node,
    lens: Seq<u8>,
    data: Seq<u8>,
    pos: int,
    out: Seq<u8>,
    remain: nat,
    prev: Option<u8>,
)
    requires
        represents_prefix(r1, lens, lens.len() as int),
        represents_prefix(r2, lens, lens.len() as int),
        0 <= pos,
    ensures
        spec_code_lengths(r1, data, pos, out, remain, prev) == spec_code_lengths(
            r2,
            data,
            pos,
            out,
            remain,
            prev,
        ),
    decreases remain,
{
    if remain > 0 {
        lemma_spec_decode_range(r1, data, pos);
        lemma_decode_deterministic(r1, r2, lens, data, pos);
        match spec_decode(r1, data, pos) {
            Err(_) => {},
            Ok(cp) => {
                let c = cp.0;
                let p1 = cp.1;
                if c <= 15 {
                    lemma_code_lengths_deterministic(
                        r1,
                        r2,
                        lens,
                        data,
                        p1,
                        out.push(c as u8),
                        (remain - 1) as nat,
                        Some(c as u8),
                    );
                } else if c == 16 {
                    if p1 + 2 <= 8 * data.len() {
                        let rep = 3 + le_number(data, p1, 2);
                        if rep <= remain {
                            match prev {
                                None => {},
                                Some(b) => {
                                    lemma_code_lengths_deterministic(
                                        r1,
                                        r2,
                                        lens,
                                        data,
                                        p1 + 2,
                                        out + Seq::new(rep, |j: int| b),
                                        (remain - rep) as nat,
                                        Some(b),
                                    );
                                },
                            }
                        }
                    }
                } else if c == 17 || c == 18 {
                    let bits: nat = if c == 17 {
                        3
                    } else {
                        7
                    };
                    let addend: nat = if c == 17 {
                        3
                    } else {
                        11
                    };
                    if p1 + bits <= 8 * data.len() {
                        let rep = addend + le_number(data, p1, bits);
                        if rep <= remain {
                            lemma_code_lengths_deterministic(
                                r1,
                                r2,
                                lens,
                                data,
                                p1 + bits,
                                out + Seq::new(rep, |j: int| 0u8),
                                (remain - rep) as nat,
                                Some(0u8),
                            );
                        }
                    }
                }
            },
        }
    }
}

/// A successful payload decode moves forward and stays within the
/// stream.
pub proof fn lemma_spec_payload_range(
    litr: Node,
    distr: Node,
    data: Seq<u8>,
    pos: int,
    out: Seq<u8>,
    cap: int,
)
    requires
        0 <= pos,
    ensures
        (spec_payload(litr, distr, data, pos, out, cap) matches Ok(v) ==> pos < v.1 <= 8
            * data.len()),
    decreases 8 * data.len() - pos,
{
    lemma_spec_decode_range(litr, data, pos);
    match spec_decode(litr, data, pos) {
        Err(_) => {},
        Ok(cp) => {
            let c = cp.0;
            let p1 = cp.1;
            if c <= 255 {
                lemma_spec_payload_range(litr, distr, data, p1, out.push(c as u8), cap);
            } else if c == 256 {
            } else if c <= 285 {
                let li = spec_length_info(c - 257);
                if p1 + li.0 <= 8 * data.len() {
                    let length = li.1 + le_number(data, p1, li.0 as nat);
                    lemma_spec_decode_range(distr, data, p1 + li.0);
                    match spec_decode(distr, data, p1 + li.0) {
                        Err(_) => {},
                        Ok(dp) => {
                            let dc = dp.0;
                            let p3 = dp.1;
                            if dc <= 29 {
                                let di = spec_dist_info(dc as int);
                                if p3 + di.0 <= 8 * data.len() {
                                    let dist = di.1 + le_number(data, p3, di.0 as nat);
                                    let wlen = vstd::math::min(out.len() as int, cap);
                                    if 1 <= dist <= wlen {
                                        let w = out.subrange(out.len() - wlen, out.len() as int);
                                        lemma_spec_payload_range(
                                            litr,
                                            distr,
                                            data,
                                            p3 + di.0,
                                            out + ring_copy_written(w, cap, dist, length as nat),
                                            cap,
                                        );
                                    }
                                }
                            }
                        },
                    }
                }
            }
        },
    }
}

/// A successful code-length expansion does not move backwards and stays
/// within the stream.
pub proof fn lemma_spec_code_lengths_range(
    treer: Node,
    data: Seq<u8>,
    pos: int,
    out: Seq<u8>,
    remain: nat,
    prev: Option<u8>,
)
    requires
        0 <= pos <= 8 * data.len(),
    ensures
        (spec_code_lengths(treer, data, pos, out, remain, prev) matches Ok(v) ==> pos <= v.1 <= 8
            * data.len()),
    decreases remain,
{
    if remain > 0 {
        lemma_spec_decode_range(treer, data, pos);
        match spec_decode(treer, data, pos) {
            Err(_) => {},
            Ok(cp) => {
                let c = cp.0;
                let p1 = cp.1;
                if c <= 15 {
                    lemma_spec_code_lengths_range(
                        treer,
                        data,
                        p1,
                        out.push(c as u8),
                        (remain - 1) as nat,
                        Some(c as u8),
                    );
                } else if c == 16 {
                    if p1 + 2 <= 8 * data.len() {
                        let rep = 3 + le_number(data, p1, 2);
                        if rep <= remain {
                            match prev {
                                None => {},
                                Some(b) => {
                                    lemma_spec_code_lengths_range(
                                        treer,
                                        data,
                                        p1 + 2,
                                        out + Seq::new(rep, |j: int| b),
                                        (remain - rep) as nat,
                                        Some(b),
                                    );
                                },
                            }
                        }
                    }
                } else if c == 17 || c == 18 {
                    let bits: nat = if c == 17 {
                        3
                    } else {
                        7
                    };
                    let addend: nat = if c == 17 {
                        3
                    } else {
                        11
                    };
                    if p1 + bits <= 8 * data.len() {
                        let rep = addend + le_number(data, p1, bits);
                        if rep <= remain {
                            lemma_spec_code_lengths_range(
                                treer,
                                data,
                                p1 + bits,
                                out + Seq::new(rep, |j: int| 0u8),
                                (remain - rep) as nat,
                                Some(0u8),
                            );
                        }
                    }
                }
            },
        }
    }
}

/// A fixed or dynamic block that decodes moves forward and stays within
/// the stream.
pub proof fn lemma_huffman_block_range(data: Seq<u8>, pos: int, out: Seq<u8>, cap: int)
    requires
        0 <= pos <= 8 * data.len(),
    ensures
        (spec_fixed_block(data, pos, out, cap) matches Some(v) ==> pos < v.1 <= 8 * data.len()),
        (spec_dynamic_block(data, pos, out, cap) matches Some(v) ==> pos < v.1 <= 8 * data.len()),
{
    let lt = choose|t: Node| represents_prefix(t, fixed_lit_lengths(), fixed_lit_lengths().len() as int);
    let dt = choose|t: Node|
        represents_prefix(t, fixed_dist_lengths(), fixed_dist_lengths().len() as int);
    lemma_spec_payload_range(lt, dt, data, pos, out, cap);
    let hlit = 257 + le_number(data, pos, 5);
    let hdist = 1 + le_number(data, pos + 5, 5);
    let hclen = 4 + le_number(data, pos + 10, 4);
    let cl = spec_cl_lengths(data, pos + 14, hclen as int);
    let t1 = choose|t: Node| represents_prefix(t, cl, cl.len() as int);
    if pos + 14 + 3 * hclen <= 8 * data.len() {
        lemma_spec_code_lengths_range(
            t1,
            data,
            pos + 14 + 3 * hclen,
            Seq::<u8>::empty(),
            (hlit + hdist) as nat,
            None::<u8>,
        );
    }
    match spec_code_lengths_of(
        cl,
        data,
        pos + 14 + 3 * hclen,
        Seq::<u8>::empty(),
        (hlit + hdist) as nat,
        None::<u8>,
    ) {
        Err(_) => {},
        Ok(cls) => {
            let l2 = choose|t: Node|
                represents_prefix(t, cls.0.take(hlit as int), cls.0.take(hlit as int).len() as int);
            let d2 = choose|t: Node|
                represents_prefix(t, cls.0.skip(hlit as int), cls.0.skip(hlit as int).len() as int);
            if 0 <= cls.1 {
                lemma_spec_payload_range(l2, d2, data, cls.1, out, cap);
            }
        },
    }
}

/// The `steps` stream bits starting at `pos`, as a decision path.
pub open spec fn decode_path_bits(data: Seq<u8>, pos: int, steps: nat) -> Seq<bool> {
    Seq::new(steps, |j: int| stream_bit(data, pos + j))
}

proof fn lemma_decode_walk(root: Node, q: Seq<bool>, data: Seq<u8>, pos: int)
    requires
        0 <= pos,
        (root.node_at(q) matches Some(nd) && nd.value is None),
        (spec_decode(root.node_at(q)->Some_0, data, pos) is Ok),
    ensures
        ({
            let v = spec_decode(root.node_at(q)->Some_0, data, pos)->Ok_0;
            let steps = (v.1 - pos) as nat;
            &&& pos < v.1
            &&& (root.node_at(q + decode_path_bits(data, pos, steps)) matches Some(m)
                && m.value == Some(v.0))
        }),
    decreases 8 * data.len() - pos,
{
    let nd = root.node_at(q)->Some_0;
    lemma_spec_decode_range(nd, data, pos);
    let b = stream_bit(data, pos);
    let c = nd.spec_child(b)->Some_0;
    lemma_node_at_snoc(root, q, b);
    let q1 = q.push(b);
    let v = spec_decode(nd, data, pos)->Ok_0;
    if c.value is Some {
        assert(q + decode_path_bits(data, pos, 1) =~= q1);
    } else {
        lemma_decode_walk(root, q1, data, pos + 1);
        let steps = (v.1 - pos) as nat;
        assert(q + decode_path_bits(data, pos, steps) =~= q1 + decode_path_bits(
            data,
            pos + 1,
            (steps - 1) as nat,
        ));
    }
}

/// Everything a canonical tree accepts is one of its codes: when a
/// decode succeeds, the bits it consumed spell exactly the canonical
/// code of the returned symbol. Together with `lemma_tree_accepts_code`,
/// the tree accepts the canonical codes and nothing else.
pub proof fn lemma_tree_accepts_only_codes(root: Node, lens: Seq<u8>, data: Seq<u8>, pos: int)
    requires
        represents_prefix(root, lens, lens.len() as int),
        0 <= pos,
        (spec_decode(root, data, pos) is Ok),
    ensures
        ({
            let v = spec_decode(root, data, pos)->Ok_0;
            let bits = decode_path_bits(data, pos, (v.1 - pos) as nat);
            &&& pos < v.1
            &&& exists|n: int|
                0 <= n < lens.len() && lens[n] > 0 && bits == #[trigger] code_path(lens, n)
                    && v.0 == n as u64
        }),
{
    assert(root.node_at(Seq::<bool>::empty()) == Some(root));
    lemma_decode_walk(root, Seq::<bool>::empty(), data, pos);
    let v = spec_decode(root, data, pos)->Ok_0;
    let bits = decode_path_bits(data, pos, (v.1 - pos) as nat);
    assert(Seq::<bool>::empty() + bits =~= bits);
    assert(root.node_at(bits) matches Some(m) && m.value == Some(v.0));
    let n = choose|n: int|
        0 <= n < lens.len() && lens[n] > 0 && bits == #[trigger] code_path(lens, n);
    assert(root.node_at(code_path(lens, n)) matches Some(m) && m.value == Some(n as u64));
}

/// One step of the canonical build: adding symbol `n`'s code to a trie
/// that represents the symbols before `n` yields a trie that represents
/// the symbols up to and including `n`.
proof fn lemma_build_step(root0: Node, root1: Node, lens: Seq<u8>, n: int, path: Seq<bool>)
    requires
        0 <= n < lens.len(),
        lens[n] > 0,
        path == code_path(lens, n),
        path.len() == lens[n],
        represents_prefix(root0, lens, n),
        root0.can_add(path),
        (root1.node_at(path) matches Some(m) && m.value == Some(n as u64) && m.zero.0 is None
            && m.one.0 is None),
        forall|q: Seq<bool>|
            path_prefix_of(q, path) && q.len() < path.len() ==> ((#[trigger] root1.node_at(q))
                matches Some(m) && m.value is None),
        forall|q: Seq<bool>|
            !path_prefix_of(q, path) && !path_prefix_of(path, q) ==> #[trigger] root1.node_at(q)
                == root0.node_at(q),
        forall|q: Seq<bool>|
            path_prefix_of(path, q) && q.len() > path.len() ==> (#[trigger] root1.node_at(q)
                is None),
    ensures
        represents_prefix(root1, lens, n + 1),
{
    lemma_can_add_end_empty(root0, path);
    // the root stays internal
    assert(path.subrange(0, 0) =~= Seq::<bool>::empty());
    assert(path_prefix_of(Seq::<bool>::empty(), path));
    assert(root1.node_at(Seq::<bool>::empty()) == Some(root1));
    assert(root1.value is None);
    // every already placed code is untouched
    assert forall|m: int|
        0 <= m < n + 1 && lens[m] > 0 implies ((#[trigger] root1.node_at(code_path(lens, m)))
        matches Some(nd) && nd.value == Some(m as u64) && nd.zero.0 is None
        && nd.one.0 is None) by {
        if m < n {
            let qm = code_path(lens, m);
            assert(root0.node_at(qm) matches Some(nd) && nd.value == Some(m as u64));
            if path_prefix_of(qm, path) {
                lemma_can_add_no_leaf_on_path(root0, path, qm);
                assert(false);
            }
            if path_prefix_of(path, qm) {
                lemma_node_at_prefix(root0, path, qm);
                assert(false);
            }
            assert(root1.node_at(qm) == root0.node_at(qm));
        }
    }
    // every node lies on the way to a placed code
    assert forall|q: Seq<bool>| (#[trigger] root1.node_at(q)) is Some implies q.len() == 0
        || exists|m: int|
        0 <= m < n + 1 && lens[m] > 0 && path_prefix_of(q, #[trigger] code_path(lens, m)) by {
        if q.len() != 0 {
            if path_prefix_of(path, q) && q.len() > path.len() {
                assert(root1.node_at(q) is None);
                assert(false);
            } else if path_prefix_of(q, path) {
                assert(0 <= n < lens.len() && lens[n] > 0 && path_prefix_of(
                    q,
                    code_path(lens, n),
                ));
            } else {
                if path_prefix_of(path, q) {
                    assert(q.len() == path.len());
                    assert(q.subrange(0, q.len() as int) =~= q);
                    assert(q == path);
                    assert(path.subrange(0, path.len() as int) =~= path);
                    assert(path_prefix_of(q, path));
                    assert(false);
                }
                assert(root1.node_at(q) == root0.node_at(q));
                assert(exists|m: int|
                    0 <= m < n && lens[m] > 0 && path_prefix_of(q, #[trigger] code_path(lens, m)));
                let m = choose|m: int|
                    0 <= m < n && lens[m] > 0 && path_prefix_of(q, #[trigger] code_path(lens, m));
                assert(0 <= m < n + 1 && lens[m] > 0 && path_prefix_of(q, code_path(lens, m)));
            }
        }
    }
    // every leaf is a placed code
    assert forall|q: Seq<bool>| ((#[trigger] root1.node_at(q)) matches Some(nd) && nd.value
        is Some) implies exists|m: int|
        0 <= m < n + 1 && lens[m] > 0 && q == #[trigger] code_path(lens, m) by {
        if path_prefix_of(path, q) && q.len() > path.len() {
            assert(root1.node_at(q) is None);
            assert(false);
        } else if q == path {
            assert(0 <= n < n + 1 && lens[n] > 0 && q == code_path(lens, n));
        } else if path_prefix_of(q, path) {
            if q.len() == path.len() {
                assert(path.subrange(0, path.len() as int) =~= path);
                assert(q == path);
                assert(false);
            }
            assert((root1.node_at(q) matches Some(nd) && nd.value is None));
            assert(false);
        } else {
            if path_prefix_of(path, q) {
                assert(q.len() == path.len());
                assert(q.subrange(0, q.len() as int) =~= q);
                assert(q == path);
                assert(false);
            }
            assert(root1.node_at(q) == root0.node_at(q));
            assert(root0.node_at(q) matches Some(nd) && nd.value is Some);
            let m = choose|m: int|
                0 <= m < n && lens[m] > 0 && q == #[trigger] code_path(lens, m);
            assert(0 <= m < n + 1 && lens[m] > 0 && q == code_path(lens, m));
        }
    }
}

} // verus!

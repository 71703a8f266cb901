//! The coded sequence: an ordered run of bits packed eight per byte,
//! most-significant bit first, together with the persisted artifact layout
//! (bit bytes followed by a four-byte big-endian symbol count).

use vstd::prelude::*;
use vstd::arithmetic::div_mod::{
    lemma_fundamental_div_mod, lemma_fundamental_div_mod_converse_div, lemma_mod_bound,
};

verus! {

/// Bit `i` of a packed byte buffer: bit `i % 8` of byte `i / 8`, counting
/// from the most significant bit.
pub open spec fn spec_bit(data: Seq<u8>, i: int) -> bool {
    data[i / 8] & (128u8 >> ((i % 8) as u8)) != 0
}

/// The bit a sequential reader returns at position `pos`: the stored bit
/// while the buffer lasts, and zero after it is exhausted.
pub open spec fn stream_bit(data: Seq<u8>, pos: int) -> bool {
    if 0 <= pos < data.len() * 8 {
        spec_bit(data, pos)
    } else {
        false
    }
}

/// Where the sequential reader stands after one read from `pos`: it only
/// advances while the buffer lasts.
pub open spec fn stream_next(data: Seq<u8>, pos: int) -> int {
    if 0 <= pos < data.len() * 8 {
        pos + 1
    } else {
        pos
    }
}

/// The four-byte big-endian form of a symbol count.
pub open spec fn trailer(chars: int) -> Seq<u8> {
    seq![
        ((chars / 16777216) % 256) as u8,
        ((chars / 65536) % 256) as u8,
        ((chars / 256) % 256) as u8,
        (chars % 256) as u8,
    ]
}

/// The integer read big-endian from four bytes.
pub open spec fn be32(b: Seq<u8>) -> int {
    b[0] * 16777216 + b[1] * 65536 + b[2] * 256 + b[3]
}

/// Persisted artifact layout: the packed bit bytes, then the count trailer.
pub open spec fn spec_serialize(data: Seq<u8>, chars: int) -> Seq<u8> {
    data + trailer(chars)
}

/// Reading an artifact back: the last four bytes are the count, the rest is
/// the bit buffer. Fewer than four bytes is a corrupt artifact.
pub open spec fn spec_parse(bytes: Seq<u8>) -> Option<(Seq<u8>, int)> {
    if bytes.len() < 4 {
        None
    } else {
        Some(
            (bytes.take(bytes.len() - 4), be32(bytes.skip(bytes.len() - 4))),
        )
    }
}

/// A freshly allocated zero byte has no bit set under any mask.
proof fn lemma_zero_byte(m: u8)
    ensures
        0u8 & m == 0,
{
    assert(0u8 & m == 0) by (bit_vector);
}

/// Setting bit `s` of a byte leaves every other bit as it was and makes bit
/// `s` one.
proof fn lemma_or_mask(b: u8, s: u8, j: u8)
    requires
        s < 8,
        j < 8,
    ensures
        ((b | (128u8 >> s)) & (128u8 >> j) != 0) <==> (j == s || b & (128u8 >> j) != 0),
{
    assert(((b | (128u8 >> s)) & (128u8 >> j) != 0) <==> (j == s || b & (128u8 >> j) != 0))
        by (bit_vector)
        requires
            s < 8,
            j < 8,
    ;
}

/// Two bytes that agree bit by bit are equal.
proof fn lemma_byte_eq(x: u8, y: u8)
    requires
        forall|j: u8| j < 8 ==> #[trigger] (x & (128u8 >> j)) == y & (128u8 >> j),
    ensures
        x == y,
{
    assert(x & (128u8 >> 0u8) == y & (128u8 >> 0u8));
    assert(x & (128u8 >> 1u8) == y & (128u8 >> 1u8));
    assert(x & (128u8 >> 2u8) == y & (128u8 >> 2u8));
    assert(x & (128u8 >> 3u8) == y & (128u8 >> 3u8));
    assert(x & (128u8 >> 4u8) == y & (128u8 >> 4u8));
    assert(x & (128u8 >> 5u8) == y & (128u8 >> 5u8));
    assert(x & (128u8 >> 6u8) == y & (128u8 >> 6u8));
    assert(x & (128u8 >> 7u8) == y & (128u8 >> 7u8));
    assert(x == y) by (bit_vector)
        requires
            x & (128u8 >> 0u8) == y & (128u8 >> 0u8),
            x & (128u8 >> 1u8) == y & (128u8 >> 1u8),
            x & (128u8 >> 2u8) == y & (128u8 >> 2u8),
            x & (128u8 >> 3u8) == y & (128u8 >> 3u8),
            x & (128u8 >> 4u8) == y & (128u8 >> 4u8),
            x & (128u8 >> 5u8) == y & (128u8 >> 5u8),
            x & (128u8 >> 6u8) == y & (128u8 >> 6u8),
            x & (128u8 >> 7u8) == y & (128u8 >> 7u8),
    ;
}

/// Ceiling-by-eight bookkeeping for the bit buffer length.
proof fn lemma_ceil8(w: int)
    requires
        0 <= w,
    ensures
        w % 8 == 0 ==> (w + 7) / 8 == w / 8,
        w % 8 != 0 ==> (w + 7) / 8 == w / 8 + 1,
        (w + 8) / 8 == w / 8 + 1,
        8 * (w / 8) <= w < 8 * (w / 8) + 8,
{
    lemma_fundamental_div_mod(w, 8);
    lemma_mod_bound(w, 8);
    let q = w / 8;
    let r = w % 8;
    if r == 0 {
        lemma_fundamental_div_mod_converse_div(w + 7, 8, q, 7);
        lemma_fundamental_div_mod_converse_div(w + 8, 8, q + 1, 0);
    } else {
        lemma_fundamental_div_mod_converse_div(w + 7, 8, q + 1, r - 1);
        lemma_fundamental_div_mod_converse_div(w + 8, 8, q + 1, r);
    }
}

/// A bit at offset `j` of byte `b` has absolute index `8 * b + j`.
proof fn lemma_bit_addr(b: int, j: int)
    requires
        0 <= b,
        0 <= j < 8,
    ensures
        (8 * b + j) / 8 == b,
        (8 * b + j) % 8 == j,
{
    lemma_fundamental_div_mod_converse_div(8 * b + j, 8, b, j);
    vstd::arithmetic::div_mod::lemma_fundamental_div_mod_converse_mod(8 * b + j, 8, b, j);
}

/// Coded sequence: packed bit bytes plus the write, read and symbol-count
/// bookkeeping. `write_index` is the number of bits appended so far;
/// `read_index` the number consumed; `chars` the number of source symbols
/// the bits stand for.
pub struct Code {
    pub data: Vec<u8>,
    pub write_index: usize,
    pub read_index: usize,
    pub chars: usize,
}

impl Code {
    /// The bits written so far, in emission order.
    pub open spec fn bits(self) -> Seq<bool> {
        Seq::new(self.write_index as nat, |i: int| spec_bit(self.data@, i))
    }

    /// Structural invariant: the byte buffer is exactly long enough for the
    /// bits written, and the padding bits of the final byte are still zero.
    pub open spec fn wf(self) -> bool {
        &&& self.data@.len() == (self.write_index + 7) / 8
        &&& forall|i: int|
            self.write_index <= i < self.data@.len() * 8 ==> !spec_bit(self.data@, i)
    }

    /// An empty coded sequence.
    pub fn new() -> (r: Self)
        ensures
            r.wf(),
            r.bits() == Seq::<bool>::empty(),
            r.data@ == Seq::<u8>::empty(),
            r.write_index == 0,
            r.read_index == 0,
            r.chars == 0,
    {
        let r = Code { data: Vec::new(), write_index: 0, read_index: 0, chars: 0 };
        proof {
            assert(r.bits() =~= Seq::<bool>::empty());
        }
        r
    }

    /// Append one bit. A new zero byte is allocated every eighth bit; a one
    /// bit is written by setting the matching mask in the current byte.
    pub fn add_bit(&mut self, c: bool)
        requires
            old(self).wf(),
            old(self).write_index < usize::MAX - 7,
        ensures
            final(self).wf(),
            final(self).bits() == old(self).bits().push(c),
            final(self).write_index == old(self).write_index + 1,
            final(self).read_index == old(self).read_index,
            final(self).chars == old(self).chars,
            final(self).data@.len() == (old(self).write_index + 8) / 8,
    {
        let ghost pre = *self;
        let w = self.write_index;
        let sector: usize = w % 8;
        proof {
            lemma_ceil8(w as int);
            lemma_fundamental_div_mod(w as int, 8);
            lemma_mod_bound(w as int, 8);
        }
        if sector == 0 {
            self.data.push(0);
        }
        let ghost mid = *self;
        proof {
            assert(mid.data@.len() == w as int / 8 + 1);
            if sector == 0 {
                assert forall|i: int| w <= i < mid.data@.len() * 8 implies !spec_bit(
                    mid.data@,
                    i,
                ) by {
                    lemma_bit_addr(w as int / 8, i - w);
                    assert(i / 8 == w as int / 8);
                    assert(mid.data@[i / 8] == 0);
                    lemma_zero_byte(128u8 >> ((i % 8) as u8));
                }
            }
            assert(forall|i: int|
                w <= i < mid.data@.len() * 8 ==> !spec_bit(mid.data@, i));
        }
        if c {
            let block: usize = w / 8;
            let b = self.data[block];
            self.data.set(block, b | (128u8 >> (sector as u8)));
            proof {
                assert(spec_bit(self.data@, w as int)) by {
                    lemma_or_mask(b, sector as u8, sector as u8);
                }
                assert forall|i: int|
                    0 <= i < self.data@.len() * 8 && i != w implies spec_bit(self.data@, i)
                    == spec_bit(mid.data@, i) by {
                    lemma_fundamental_div_mod(i, 8);
                    lemma_mod_bound(i, 8);
                    if i / 8 == block {
                        assert(i % 8 != sector);
                        lemma_or_mask(b, sector as u8, (i % 8) as u8);
                    }
                }
            }
        } else {
            proof {
                assert(!spec_bit(self.data@, w as int));
            }
        }
        self.write_index = w + 1;
        proof {
            assert(self.data@.len() == (w + 1 + 7) / 8);
            assert forall|i: int|
                w + 1 <= i < self.data@.len() * 8 implies !spec_bit(self.data@, i) by {
                assert(spec_bit(self.data@, i) == spec_bit(mid.data@, i));
                assert(!spec_bit(mid.data@, i));
            }
            assert forall|i: int| 0 <= i < w implies spec_bit(self.data@, i) == spec_bit(
                pre.data@,
                i,
            ) by {
                lemma_fundamental_div_mod(i, 8);
                lemma_mod_bound(i, 8);
                assert(8 * (i / 8) <= i);
                assert(i / 8 < pre.data@.len() || (sector == 0 && i / 8 < w as int / 8));
                assert(mid.data@[i / 8] == pre.data@[i / 8]);
                assert(spec_bit(mid.data@, i) == spec_bit(pre.data@, i));
                assert(spec_bit(self.data@, i) == spec_bit(mid.data@, i));
            }
            assert(self.bits() =~= pre.bits().push(c));
        }
    }

    /// Read the bit at absolute index `i`.
    pub fn get_bit(&self, i: usize) -> (r: bool)
        requires
            i < self.data@.len() * 8,
        ensures
            r == spec_bit(self.data@, i as int),
    {
        proof {
            lemma_fundamental_div_mod(i as int, 8);
            lemma_mod_bound(i as int, 8);
            assert(8 * (i as int / 8) <= i);
            assert(i as int / 8 < self.data@.len());
        }
        let b = self.data[i / 8];
        (b & (128u8 >> ((i % 8) as u8))) != 0
    }

    /// Read the next unread bit and advance the read position; past the end
    /// of the buffer the reader stays put and hands back zero bits.
    pub fn get_bit_and_shift(&mut self) -> (r: bool)
        requires
            old(self).data@.len() * 8 <= usize::MAX,
        ensures
            final(self).data@ == old(self).data@,
            final(self).write_index == old(self).write_index,
            final(self).chars == old(self).chars,
            r == stream_bit(old(self).data@, old(self).read_index as int),
            final(self).read_index == stream_next(old(self).data@, old(self).read_index as int),
    {
        if self.read_index < self.data.len() * 8 {
            self.read_index = self.read_index + 1;
            self.get_bit(self.read_index - 1)
        } else {
            false
        }
    }

    /// Persisted artifact: the packed bit bytes followed by the four-byte
    /// big-endian count of source symbols.
    pub fn to_bytes(&self) -> (out: Vec<u8>)
        requires
            self.chars < 4294967296,
        ensures
            out@ == spec_serialize(self.data@, self.chars as int),
    {
        let mut out: Vec<u8> = Vec::new();
        let mut i: usize = 0;
        while i < self.data.len()
            invariant
                i <= self.data@.len(),
                out@ == self.data@.take(i as int),
            decreases self.data@.len() - i,
        {
            proof {
                assert(self.data@.take(i + 1) =~= self.data@.take(i as int).push(
                    self.data@[i as int],
                ));
            }
            out.push(self.data[i]);
            i = i + 1;
        }
        let s0 = (self.chars % 256) as u8;
        let s1 = ((self.chars / 256) % 256) as u8;
        let s2 = ((self.chars / 65536) % 256) as u8;
        let s3 = ((self.chars / 16777216) % 256) as u8;
        out.push(s3);
        out.push(s2);
        out.push(s1);
        out.push(s0);
        proof {
            lemma_mod_bound(self.chars as int, 256);
            lemma_mod_bound(self.chars as int / 256, 256);
            lemma_mod_bound(self.chars as int / 65536, 256);
            lemma_mod_bound(self.chars as int / 16777216, 256);
            assert(self.data@.take(self.data@.len() as int) =~= self.data@);
            assert(out@ =~= spec_serialize(self.data@, self.chars as int));
        }
        out
    }

    /// Rebuild a coded sequence from persisted artifact bytes: the last four
    /// bytes are the big-endian symbol count, everything before them is the
    /// packed bit buffer, and the read position starts at zero. An artifact
    /// of fewer than four bytes is corrupt and yields `None`. The
    /// precondition keeps the buffer's bit count within `usize`.
    pub fn from_bytes(bytes: &[u8]) -> (r: Option<Code>)
        requires
            bytes@.len() * 8 <= usize::MAX,
        ensures
            r is Some <==> bytes@.len() >= 4,
            r matches Some(c) ==> {
                &&& c.wf()
                &&& spec_parse(bytes@) == Some((c.data@, c.chars as int))
                &&& c.read_index == 0
                &&& c.write_index == c.data@.len() * 8
                &&& c.chars < 4294967296
            },
    {
        if bytes.len() < 4 {
            return None;
        }
        let n = bytes.len() - 4;
        let mut data: Vec<u8> = Vec::new();
        let mut i: usize = 0;
        while i < n
            invariant
                i <= n,
                n + 4 == bytes@.len(),
                data@ == bytes@.take(i as int),
            decreases n - i,
        {
            proof {
                assert(bytes@.take(i + 1) =~= bytes@.take(i as int).push(bytes@[i as int]));
            }
            data.push(bytes[i]);
            i = i + 1;
        }
        let chars: usize = (bytes[n + 3] as usize) + (bytes[n + 2] as usize) * 256 + (bytes[n
            + 1] as usize) * 65536 + (bytes[n] as usize) * 16777216;
        let write_index: usize = n * 8;
        let c = Code { data, write_index, read_index: 0, chars };
        proof {
            lemma_bit_addr(n as int, 0);
            assert(c.data@.len() == n);
            assert(bytes@.skip(n as int) =~= seq![
                bytes@[n as int],
                bytes@[n as int + 1],
                bytes@[n as int + 2],
                bytes@[n as int + 3],
            ]);
            assert(be32(bytes@.skip(n as int)) == chars);
        }
        Some(c)
    }
}

/// A single-bit mask picks out either zero or the mask itself.
proof fn lemma_mask_values(x: u8, j: u8)
    requires
        j < 8,
    ensures
        x & (128u8 >> j) == 0 || x & (128u8 >> j) == (128u8 >> j),
{
    assert(x & (128u8 >> j) == 0 || x & (128u8 >> j) == (128u8 >> j)) by (bit_vector)
        requires
            j < 8,
    ;
}

/// Well-formed coded sequences carrying the same bits pack into identical
/// bytes: the byte buffer is a function of the bit sequence alone, so equal
/// bit streams give byte-identical artifacts.
pub proof fn lemma_bits_determine_data(a: Code, b: Code)
    requires
        a.wf(),
        b.wf(),
        a.bits() == b.bits(),
        a.write_index == b.write_index,
    ensures
        a.data@ == b.data@,
{
    assert(a.data@.len() == b.data@.len());
    assert forall|k: int| 0 <= k < a.data@.len() implies a.data@[k] == b.data@[k] by {
        assert forall|j: u8| j < 8 implies #[trigger] (a.data@[k] & (128u8 >> j)) == b.data@[k]
            & (128u8 >> j) by {
            let i = 8 * k + j;
            lemma_bit_addr(k, j as int);
            assert(i < a.data@.len() * 8);
            if i < a.write_index {
                assert(a.bits()[i] == b.bits()[i]);
                assert(a.bits()[i] == spec_bit(a.data@, i));
                assert(b.bits()[i] == spec_bit(b.data@, i));
                assert(spec_bit(a.data@, i) == spec_bit(b.data@, i));
            } else {
                assert(!spec_bit(a.data@, i));
                assert(!spec_bit(b.data@, i));
            }
            assert((a.data@[k] & (128u8 >> j) != 0) == (b.data@[k] & (128u8 >> j) != 0));
            lemma_mask_values(a.data@[k], j);
            lemma_mask_values(b.data@[k], j);
        }
        lemma_byte_eq(a.data@[k], b.data@[k]);
    }
    assert(a.data@ =~= b.data@);
}

/// A symbol count below 2^32 survives the four-byte big-endian round trip.
proof fn lemma_be32_trailer(chars: int)
    requires
        0 <= chars < 4294967296,
    ensures
        be32(trailer(chars)) == chars,
{
    let c = chars as u64;
    assert(((c / 16777216) % 256) * 16777216 + ((c / 65536) % 256) * 65536 + ((c / 256) % 256)
        * 256 + (c % 256) == c) by (bit_vector)
        requires
            c < 4294967296,
    ;
    lemma_mod_bound(chars, 256);
    lemma_mod_bound(chars / 256, 256);
    lemma_mod_bound(chars / 65536, 256);
    lemma_mod_bound(chars / 16777216, 256);
}

/// Parsing inverts serialization: the artifact written for a bit buffer and
/// a symbol count parses back to exactly that buffer and count.
pub proof fn lemma_parse_serialize(data: Seq<u8>, chars: int)
    requires
        0 <= chars < 4294967296,
    ensures
        spec_parse(spec_serialize(data, chars)) == Some((data, chars)),
{
    let all = spec_serialize(data, chars);
    assert(all.len() == data.len() + 4);
    assert(all.take(all.len() - 4) =~= data);
    assert(all.skip(all.len() - 4) =~= trailer(chars));
    lemma_be32_trailer(chars);
}

} // verus!

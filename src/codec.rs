//! A plain interval codec: each symbol is stored as the low end of its cumulative
//! interval, four bytes big-endian. It does not compress; it gives the byte adapters
//! an exact `encode` / `decode` pair to run against.
use vstd::prelude::*;

use crate::model::{lemma_find_unique, CumulativeModel, ModelState};

verus! {

/// The four big-endian bytes of `x`.
pub open spec fn be_bytes(x: u32) -> Seq<u8> {
    seq![(x >> 24u32) as u8, (x >> 16u32) as u8, (x >> 8u32) as u8, x as u8]
}

/// The 32-bit value of the four big-endian bytes of `src` at `pos`.
pub open spec fn be_value(src: Seq<u8>, pos: int) -> u32 {
    ((src[pos] as u32) << 24u32) | ((src[pos + 1] as u32) << 16u32) | ((src[pos + 2] as u32) << 8u32)
        | (src[pos + 3] as u32)
}

/// Reading back the bytes of `x` gives `x`.
pub proof fn lemma_be_round_trip(x: u32, src: Seq<u8>, pos: int)
    requires
        0 <= pos,
        pos + 4 <= src.len(),
        src.subrange(pos, pos + 4) == be_bytes(x),
    ensures
        be_value(src, pos) == x,
{
    assert(src[pos] == be_bytes(x)[0]);
    assert(src[pos + 1] == be_bytes(x)[1]);
    assert(src[pos + 2] == be_bytes(x)[2]);
    assert(src[pos + 3] == be_bytes(x)[3]);
    let (a, b, c, d) = (src[pos], src[pos + 1], src[pos + 2], src[pos + 3]);
    assert(a == (x >> 24u32) as u8 && b == (x >> 16u32) as u8 && c == (x >> 8u32) as u8 && d == x as u8
        ==> ((a as u32) << 24u32) | ((b as u32) << 16u32) | ((c as u32) << 8u32) | (d as u32) == x)
        by (bit_vector);
}

/// The value whose interval holds `offset`.
pub open spec fn find_spec(s: ModelState, offset: nat) -> int {
    choose|v: int| 0 <= v < s.table.len() && #[trigger] s.lo(v) <= offset < s.hi(v)
}

/// `find_spec` is the value whose interval holds the offset.
pub proof fn lemma_find_spec(s: ModelState, offset: nat, v: int)
    requires
        s.wf(),
        0 <= v < s.table.len(),
        s.lo(v) <= offset < s.hi(v),
    ensures
        find_spec(s, offset) == v,
{
    let w = find_spec(s, offset);
    lemma_find_unique(s, offset, v, w);
}

/// Why decoding a symbol failed.
#[derive(Clone, Copy, Debug, PartialEq, Eq, Structural)]
pub enum DecodeError {
    /// Fewer than four bytes are left in the source.
    UnexpectedEnd,
    /// The stored offset is not under the model's total.
    InvalidOffset,
}

/// Encoder side of the interval codec, writing into a byte vector.
pub struct IntervalEncoder {
    sink: Vec<u8>,
}

impl View for IntervalEncoder {
    type V = Seq<u8>;

    closed spec fn view(&self) -> Seq<u8> {
        self.sink@
    }
}

impl IntervalEncoder {
    /// Create an encoder that appends to `sink`.
    pub fn new(sink: Vec<u8>) -> (r: IntervalEncoder)
        ensures
            r@ == sink@,
    {
        IntervalEncoder { sink }
    }

    /// Encode `value` against `model`: append the low end of its interval.
    pub fn encode<M: CumulativeModel>(&mut self, value: usize, model: &M)
        requires
            model.spec_valid(),
            value < model.spec_len(),
        ensures
            final(self)@ == old(self)@ + be_bytes(model.spec_cum(value as int) as u32),
    {
        let (lo, _hi) = model.get_range(value);
        self.sink.push((lo >> 24u32) as u8);
        self.sink.push((lo >> 16u32) as u8);
        self.sink.push((lo >> 8u32) as u8);
        self.sink.push(lo as u8);
        assert(self@ =~= old(self)@ + be_bytes(model.spec_cum(value as int) as u32));
    }

    /// Release the sink.
    pub fn finish(self) -> (r: Vec<u8>)
        ensures
            r@ == self@,
    {
        self.sink
    }
}

/// Decoder side of the interval codec, reading from a byte vector.
pub struct IntervalDecoder {
    source: Vec<u8>,
    pos: usize,
}

impl IntervalDecoder {
    /// The bytes being decoded.
    pub closed spec fn source(&self) -> Seq<u8> {
        self.source@
    }

    /// How many bytes have been consumed.
    pub closed spec fn pos(&self) -> nat {
        self.pos as nat
    }

    /// Create a decoder reading `source` from its start.
    pub fn new(source: Vec<u8>) -> (r: IntervalDecoder)
        ensures
            r.source() == source@,
            r.pos() == 0,
    {
        IntervalDecoder { source, pos: 0 }
    }

    /// Decode one value against `model`.
    pub fn decode<M: CumulativeModel>(&mut self, model: &M) -> (r: Result<usize, DecodeError>)
        requires
            model.spec_valid(),
            old(self).pos() <= old(self).source().len(),
        ensures
            final(self).source() == old(self).source(),
            final(self).pos() <= final(self).source().len(),
            ({
                let src = old(self).source();
                let pos = old(self).pos();
                match r {
                    Ok(v) => {
                        &&& pos + 4 <= src.len()
                        &&& v < model.spec_len()
                        &&& be_value(src, pos as int) < model.spec_denominator()
                        &&& model.spec_cum(v as int) <= be_value(src, pos as int)
                        &&& be_value(src, pos as int) < model.spec_cum(v as int + 1)
                        &&& final(self).pos() == pos + 4
                    },
                    Err(DecodeError::UnexpectedEnd) => {
                        &&& pos + 4 > src.len()
                        &&& final(self).pos() == pos
                    },
                    Err(DecodeError::InvalidOffset) => {
                        &&& pos + 4 <= src.len()
                        &&& be_value(src, pos as int) >= model.spec_denominator()
                        &&& final(self).pos() == pos
                    },
                }
            }),
    {
        if self.source.len() - self.pos < 4 {
            return Err(DecodeError::UnexpectedEnd);
        }
        let p = self.pos;
        let offset: u32 = ((self.source[p] as u32) << 24u32) | ((self.source[p + 1] as u32) << 16u32)
            | ((self.source[p + 2] as u32) << 8u32) | (self.source[p + 3] as u32);
        if offset >= model.get_denominator() {
            return Err(DecodeError::InvalidOffset);
        }
        let (v, _lo, _hi) = model.find_value(offset);
        self.pos = p + 4;
        Ok(v)
    }

    /// Release the source.
    pub fn finish(self) -> (r: Vec<u8>)
        ensures
            r@ == self.source(),
    {
        self.source
    }
}

} // verus!

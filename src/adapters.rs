//! Byte stream adapters: whole-byte writing and reading over the interval codec,
//! with a reserved terminator symbol marking the end of the stream.
use vstd::arithmetic::power2::lemma2_to64;
use vstd::prelude::*;

use crate::codec::{
    be_bytes, be_value, find_spec, lemma_be_round_trip, lemma_find_spec, DecodeError,
    IntervalDecoder, IntervalEncoder,
};
use crate::model::{
    lemma_prefix_monotone, lemma_prefix_ones, lemma_prefix_update, lemma_rescaled, Border, CumulativeModel, Model,
    ModelState,
};

verus! {

/// Number of literal byte values; also the terminator symbol.
pub const SYMBOL_TOTAL: usize = 256;

/// Frequency threshold of the adapters' models.
pub const FREQ_MAX: Border = 4096;

/// Adaptation shift of the adapters.
pub const ADD_LOG: usize = 10;

/// Adaptation constant of the adapters.
pub const ADD_CONST: Border = 1;

/// A model as the adapters keep it: well formed, over the bytes and the terminator,
/// under `FREQ_MAX`, with every symbol reachable.
pub open spec fn adapter_model(s: ModelState) -> bool {
    &&& s.wf()
    &&& s.table.len() == SYMBOL_TOTAL + 1
    &&& s.threshold == FREQ_MAX
    &&& forall|i: int| 0 <= i < s.table.len() ==> #[trigger] s.table[i] > 0
}

/// The model after adapting in favour of `v` with the adapters' parameters.
pub open spec fn adapt(s: ModelState, v: int) -> ModelState {
    s.updated(v, ADD_LOG as nat, ADD_CONST as nat)
}

/// The model after adapting in favour of each byte of `bytes` in turn.
pub open spec fn after(s: ModelState, bytes: Seq<u8>) -> ModelState
    decreases bytes.len(),
{
    if bytes.len() == 0 {
        s
    } else {
        adapt(after(s, bytes.drop_last()), bytes.last() as int)
    }
}

/// The codec bytes of `bytes`, starting from model `s`.
pub open spec fn encoded(s: ModelState, bytes: Seq<u8>) -> Seq<u8>
    decreases bytes.len(),
{
    if bytes.len() == 0 {
        Seq::empty()
    } else {
        let init = bytes.drop_last();
        encoded(s, init) + be_bytes(after(s, init).lo(bytes.last() as int) as u32)
    }
}

/// The full stream for `bytes`: their codec bytes, then the terminator.
pub open spec fn stream(s: ModelState, bytes: Seq<u8>) -> Seq<u8> {
    encoded(s, bytes) + be_bytes(after(s, bytes).lo(SYMBOL_TOTAL as int) as u32)
}

/// The adapters' update keeps their model well formed and every symbol reachable.
pub proof fn lemma_adapt(s: ModelState, v: int)
    requires
        adapter_model(s),
        0 <= v <= SYMBOL_TOTAL,
    ensures
        adapter_model(adapt(s, v)),
        s.increment(ADD_LOG as nat, ADD_CONST as nat) < 2 * s.threshold,
        s.table[v] + s.increment(ADD_LOG as nat, ADD_CONST as nat) <= u16::MAX,
        s.total + s.increment(ADD_LOG as nat, ADD_CONST as nat) <= u32::MAX,
{
    lemma2_to64();
    let inc = s.increment(ADD_LOG as nat, ADD_CONST as nat);
    assert(inc <= 4);
    lemma_prefix_monotone(s.table, v + 1, s.table.len() as int);
    let b = s.bumped(v, inc);
    lemma_prefix_update(s.table, v, (s.table[v] + inc) as u16, s.table.len() as int);
    assert forall|i: int| 0 <= i < b.table.len() implies #[trigger] b.table[i] > 0 by {
        if i != v {
            assert(b.table[i] == s.table[i]);
        }
    }
    assert(b.consistent());
    lemma_rescaled(b);
    let r = b.rescaled();
    assert forall|i: int| 0 <= i < r.table.len() implies #[trigger] r.table[i] > 0 by {
        assert(b.table[i] > 0);
    }
}

/// Adapting over any bytes keeps the adapters' model invariant.
pub proof fn lemma_after(s: ModelState, bytes: Seq<u8>)
    requires
        adapter_model(s),
    ensures
        adapter_model(after(s, bytes)),
    decreases bytes.len(),
{
    if bytes.len() > 0 {
        lemma_after(s, bytes.drop_last());
        lemma_adapt(after(s, bytes.drop_last()), bytes.last() as int);
    }
}

/// The codec bytes of a prefix are a prefix of the codec bytes.
pub proof fn lemma_encoded_prefix(s: ModelState, bytes: Seq<u8>, j: int)
    requires
        0 <= j <= bytes.len(),
    ensures
        encoded(s, bytes).len() == 4 * bytes.len(),
        encoded(s, bytes).subrange(0, 4 * j) == encoded(s, bytes.subrange(0, j)),
    decreases bytes.len(),
{
    if bytes.len() == 0 {
        assert(bytes.subrange(0, j) =~= bytes);
        assert(encoded(s, bytes).subrange(0, 4 * j) =~= encoded(s, bytes));
    } else if j == bytes.len() {
        lemma_encoded_prefix(s, bytes.drop_last(), j - 1);
        assert(bytes.subrange(0, j) =~= bytes);
        assert(encoded(s, bytes).subrange(0, 4 * j) =~= encoded(s, bytes));
    } else {
        let init = bytes.drop_last();
        lemma_encoded_prefix(s, init, j);
        assert(init.subrange(0, j) =~= bytes.subrange(0, j));
        assert(encoded(s, bytes).subrange(0, 4 * j) =~= encoded(s, init).subrange(0, 4 * j));
    }
}

/// The four codec bytes of the byte at index `j`.
pub proof fn lemma_encoded_at(s: ModelState, bytes: Seq<u8>, j: int)
    requires
        0 <= j < bytes.len(),
    ensures
        encoded(s, bytes).subrange(4 * j, 4 * j + 4) == be_bytes(
            after(s, bytes.subrange(0, j)).lo(bytes[j] as int) as u32,
        ),
{
    let pre = bytes.subrange(0, j + 1);
    lemma_encoded_prefix(s, bytes, j + 1);
    lemma_encoded_prefix(s, pre, j);
    assert(pre.drop_last() =~= bytes.subrange(0, j));
    assert(encoded(s, bytes).subrange(4 * j, 4 * j + 4) =~= encoded(s, pre).subrange(4 * j, 4 * j + 4));
    assert(encoded(s, pre).subrange(4 * j, 4 * j + 4) =~= be_bytes(
        after(s, bytes.subrange(0, j)).lo(bytes[j] as int) as u32,
    ));
}

/// What a run of decoding yields: the bytes, the model and position after it,
/// whether the terminator was met, and the error that stopped it, if any.
pub struct Run {
    pub out: Seq<u8>,
    pub model: ModelState,
    pub pos: nat,
    pub eof: bool,
    pub err: Option<DecodeError>,
}

/// `out` put before the bytes of `r`.
pub open spec fn prepend(out: Seq<u8>, r: Run) -> Run {
    Run { out: out + r.out, ..r }
}

/// Decoding at most `limit` bytes from `src` at `pos`, starting from model `s`.
pub open spec fn decode_run(s: ModelState, src: Seq<u8>, pos: nat, limit: nat) -> Run
    decreases limit,
{
    if limit == 0 {
        Run { out: Seq::empty(), model: s, pos, eof: false, err: None }
    } else if pos + 4 > src.len() {
        Run { out: Seq::empty(), model: s, pos, eof: false, err: Some(DecodeError::UnexpectedEnd) }
    } else if be_value(src, pos as int) >= s.total {
        Run { out: Seq::empty(), model: s, pos, eof: false, err: Some(DecodeError::InvalidOffset) }
    } else {
        let v = find_spec(s, be_value(src, pos as int) as nat);
        if v == SYMBOL_TOTAL {
            Run { out: Seq::empty(), model: s, pos: pos + 4, eof: true, err: None }
        } else {
            prepend(seq![v as u8], decode_run(adapt(s, v), src, pos + 4, (limit - 1) as nat))
        }
    }
}

/// A run stores at most `limit` bytes.
pub proof fn lemma_run_len(s: ModelState, src: Seq<u8>, pos: nat, limit: nat)
    ensures
        decode_run(s, src, pos, limit).out.len() <= limit,
    decreases limit,
{
    if limit > 0 && pos + 4 <= src.len() && be_value(src, pos as int) < s.total {
        let v = find_spec(s, be_value(src, pos as int) as nat);
        if v != SYMBOL_TOTAL {
            lemma_run_len(adapt(s, v), src, pos + 4, (limit - 1) as nat);
        }
    }
}

/// Decoding a stream, from the model and position reached after any `k` of its
/// bytes, gives back the next bytes exactly, and the terminator after the last one.
pub proof fn lemma_round_trip(s: ModelState, bytes: Seq<u8>, rest: Seq<u8>, k: int, limit: int)
    requires
        adapter_model(s),
        0 <= k <= bytes.len(),
        0 <= limit,
    ensures
        ({
            let src = stream(s, bytes) + rest;
            let r = decode_run(after(s, bytes.subrange(0, k)), src, (4 * k) as nat, limit as nat);
            if k + limit <= bytes.len() {
                r == Run {
                    out: bytes.subrange(k, k + limit),
                    model: after(s, bytes.subrange(0, k + limit)),
                    pos: (4 * (k + limit)) as nat,
                    eof: false,
                    err: None,
                }
            } else {
                r == Run {
                    out: bytes.subrange(k, bytes.len() as int),
                    model: after(s, bytes),
                    pos: 4 * bytes.len() + 4,
                    eof: true,
                    err: None,
                }
            }
        }),
    decreases limit,
{
    let src = stream(s, bytes) + rest;
    let n = bytes.len();
    let m = after(s, bytes.subrange(0, k));
    lemma_encoded_prefix(s, bytes, n as int);
    lemma_after(s, bytes.subrange(0, k));
    if limit == 0 {
        assert(bytes.subrange(k, k) =~= Seq::<u8>::empty());
        return;
    }
    if k < n {
        let v = bytes[k] as int;
        lemma_encoded_at(s, bytes, k);
        assert(src.subrange(4 * k, 4 * k + 4) =~= encoded(s, bytes).subrange(4 * k, 4 * k + 4));
        let lo = m.lo(v);
        lemma_prefix_monotone(m.table, v + 1, m.table.len() as int);
        lemma_be_round_trip(lo as u32, src, 4 * k);
        lemma_find_spec(m, lo, v);
        let pre = bytes.subrange(0, k + 1);
        assert(pre.drop_last() =~= bytes.subrange(0, k));
        assert(after(s, pre) == adapt(m, v));
        lemma_round_trip(s, bytes, rest, k + 1, limit - 1);
        if k + limit <= n {
            assert(seq![v as u8] + bytes.subrange(k + 1, k + limit) =~= bytes.subrange(k, k + limit));
        } else {
            assert(seq![v as u8] + bytes.subrange(k + 1, n as int) =~= bytes.subrange(k, n as int));
        }
    } else {
        assert(bytes.subrange(0, k) =~= bytes);
        assert(src.subrange(4 * k, 4 * k + 4) =~= be_bytes(m.lo(SYMBOL_TOTAL as int) as u32));
        let lo = m.lo(SYMBOL_TOTAL as int);
        lemma_prefix_monotone(m.table, SYMBOL_TOTAL as int + 1, m.table.len() as int);
        lemma_be_round_trip(lo as u32, src, 4 * k);
        lemma_find_spec(m, lo, SYMBOL_TOTAL as int);
        assert(bytes.subrange(k, n as int) =~= Seq::<u8>::empty());
    }
}

/// Round trip from fresh adapters: decoding the stream of any bytes into room for
/// more than all of them gives back exactly those bytes, then the end of the stream.
pub proof fn lemma_fresh_round_trip(bytes: Seq<u8>, limit: nat)
    requires
        bytes.len() < limit,
    ensures
        ({
            let s = ModelState::flat((SYMBOL_TOTAL + 1) as nat, FREQ_MAX as nat);
            let r = decode_run(s, stream(s, bytes), 0, limit);
            &&& r.out == bytes
            &&& r.eof
            &&& r.err is None
            &&& r.pos == stream(s, bytes).len()
        }),
{
    let s = ModelState::flat((SYMBOL_TOTAL + 1) as nat, FREQ_MAX as nat);
    lemma_prefix_ones(s.table, s.table.len() as int);
    assert(bytes.subrange(0, 0) =~= Seq::<u8>::empty());
    assert(bytes.subrange(0, bytes.len() as int) =~= bytes);
    assert(stream(s, bytes) =~= stream(s, bytes) + Seq::<u8>::empty());
    lemma_encoded_prefix(s, bytes, 0);
    lemma_round_trip(s, bytes, Seq::empty(), 0, limit as int);
}

/// A byte-writing encoder that ends its stream with a terminator symbol.
pub struct ByteEncoder {
    /// The lower level encoder
    pub encoder: IntervalEncoder,
    /// The frequency table
    pub freq: Model,
}

impl ByteEncoder {
    /// Create an encoder appending to `w`, with a flat model.
    pub fn new(w: Vec<u8>) -> (r: ByteEncoder)
        ensures
            r.encoder@ == w@,
            r.freq@ == ModelState::flat((SYMBOL_TOTAL + 1) as nat, FREQ_MAX as nat),
            adapter_model(r.freq@),
    {
        ByteEncoder {
            encoder: IntervalEncoder::new(w),
            freq: Model::new_flat(SYMBOL_TOTAL + 1, FREQ_MAX),
        }
    }

    /// Encode each byte of `buf` in turn, adapting the model after each.
    pub fn write(&mut self, buf: &[u8]) -> (r: usize)
        requires
            adapter_model(old(self).freq@),
        ensures
            r == buf@.len(),
            final(self).freq@ == after(old(self).freq@, buf@),
            final(self).encoder@ == old(self).encoder@ + encoded(old(self).freq@, buf@),
            adapter_model(final(self).freq@),
    {
        let ghost s0 = self.freq@;
        let ghost w0 = self.encoder@;
        let mut i: usize = 0;
        while i < buf.len()
            invariant
                0 <= i <= buf@.len(),
                adapter_model(s0),
                adapter_model(self.freq@),
                self.freq@ == after(s0, buf@.subrange(0, i as int)),
                self.encoder@ == w0 + encoded(s0, buf@.subrange(0, i as int)),
            decreases buf@.len() - i,
        {
            let value = buf[i] as usize;
            proof {
                lemma_adapt(self.freq@, value as int);
            }
            self.encoder.encode(value, &self.freq);
            self.freq.update(value, ADD_LOG, ADD_CONST);
            proof {
                let pre = buf@.subrange(0, i as int + 1);
                assert(pre.drop_last() =~= buf@.subrange(0, i as int));
                assert(self.encoder@ =~= w0 + encoded(s0, pre));
            }
            i = i + 1;
        }
        proof {
            assert(buf@.subrange(0, i as int) =~= buf@);
        }
        buf.len()
    }

    /// Flush the encoder; bytes already encoded stay where they are.
    pub fn flush(&mut self)
        ensures
            final(self).encoder@ == old(self).encoder@,
            final(self).freq@ == old(self).freq@,
    {
    }

    /// Encode the terminator symbol and release the bytes written.
    pub fn finish(self) -> (r: Vec<u8>)
        requires
            adapter_model(self.freq@),
        ensures
            r@ == self.encoder@ + be_bytes(self.freq@.lo(SYMBOL_TOTAL as int) as u32),
    {
        let mut encoder = self.encoder;
        encoder.encode(SYMBOL_TOTAL, &self.freq);
        encoder.finish()
    }
}

/// A byte-reading decoder that expects a terminator symbol at the end of the stream.
pub struct ByteDecoder {
    /// The lower level decoder
    pub decoder: IntervalDecoder,
    /// The frequency table
    pub freq: Model,
    /// Whether the terminator was found
    pub is_eof: bool,
}

impl ByteDecoder {
    /// Create a decoder reading `r` from its start, with a flat model.
    pub fn new(r: Vec<u8>) -> (d: ByteDecoder)
        ensures
            d.decoder.source() == r@,
            d.decoder.pos() == 0,
            d.freq@ == ModelState::flat((SYMBOL_TOTAL + 1) as nat, FREQ_MAX as nat),
            adapter_model(d.freq@),
            !d.is_eof,
    {
        ByteDecoder {
            decoder: IntervalDecoder::new(r),
            freq: Model::new_flat(SYMBOL_TOTAL + 1, FREQ_MAX),
            is_eof: false,
        }
    }

    /// Decode bytes into `dst` until it is full or the terminator is met, and return
    /// how many were stored. After the terminator every call returns `Ok(0)`.
    pub fn read(&mut self, dst: &mut Vec<u8>) -> (r: Result<usize, DecodeError>)
        requires
            adapter_model(old(self).freq@),
            old(self).decoder.pos() <= old(self).decoder.source().len(),
        ensures
            final(self).decoder.source() == old(self).decoder.source(),
            final(self).decoder.pos() <= final(self).decoder.source().len(),
            adapter_model(final(self).freq@),
            final(dst)@.len() == old(dst)@.len(),
            old(self).is_eof ==> {
                &&& r == Ok::<usize, DecodeError>(0)
                &&& final(self).freq@ == old(self).freq@
                &&& final(self).decoder.pos() == old(self).decoder.pos()
                &&& final(self).is_eof
                &&& final(dst)@ == old(dst)@
            },
            !old(self).is_eof ==> {
                let run = decode_run(
                    old(self).freq@,
                    old(self).decoder.source(),
                    old(self).decoder.pos(),
                    old(dst)@.len(),
                );
                &&& run.out.len() <= old(dst)@.len()
                &&& final(self).freq@ == run.model
                &&& final(self).decoder.pos() == run.pos
                &&& final(self).is_eof == run.eof
                &&& final(dst)@.subrange(0, run.out.len() as int) == run.out
                &&& final(dst)@.subrange(run.out.len() as int, old(dst)@.len() as int)
                    == old(dst)@.subrange(run.out.len() as int, old(dst)@.len() as int)
                &&& r == match run.err {
                    None => Ok::<usize, DecodeError>(run.out.len() as usize),
                    Some(e) => Err(e),
                }
            },
    {
        if self.is_eof {
            return Ok(0);
        }
        let ghost s0 = self.freq@;
        let ghost src = self.decoder.source();
        let ghost p0 = self.decoder.pos();
        let ghost d0 = dst@;
        let n = dst.len();
        proof {
            lemma_run_len(s0, src, p0, n as nat);
        }
        let mut amount: usize = 0;
        while amount < n && !self.is_eof
            invariant
                0 <= amount <= n,
                n == dst@.len(),
                src == old(self).decoder.source(),
                s0 == old(self).freq@,
                p0 == old(self).decoder.pos(),
                d0 == old(dst)@,
                !old(self).is_eof,
                n == d0.len(),
                adapter_model(self.freq@),
                self.decoder.source() == src,
                self.decoder.pos() <= src.len(),
                dst@.subrange(amount as int, n as int) == d0.subrange(amount as int, n as int),
                decode_run(s0, src, p0, n as nat) == prepend(
                    dst@.subrange(0, amount as int),
                    if self.is_eof {
                        Run {
                            out: Seq::empty(),
                            model: self.freq@,
                            pos: self.decoder.pos(),
                            eof: true,
                            err: None,
                        }
                    } else {
                        decode_run(self.freq@, src, self.decoder.pos(), (n - amount) as nat)
                    },
                ),
            decreases n - amount, if self.is_eof { 0int } else { 1int },
        {
            let ghost m = self.freq@;
            let ghost pos = self.decoder.pos();
            let value = match self.decoder.decode(&self.freq) {
                Ok(v) => {
                    proof {
                        lemma_find_spec(m, be_value(src, pos as int) as nat, v as int);
                    }
                    v
                },
                Err(e) => {
                    proof {
                        assert(dst@.subrange(0, amount as int) + Seq::<u8>::empty() =~= dst@.subrange(0, amount as int));
                    }
                    return Err(e);
                },
            };
            proof {
                let limit = (n - amount) as nat;
                assert(decode_run(m, src, pos, limit) == if value == SYMBOL_TOTAL {
                    Run { out: Seq::empty(), model: m, pos: pos + 4, eof: true, err: None }
                } else {
                    prepend(seq![value as u8], decode_run(adapt(m, value as int), src, pos + 4, (limit - 1) as nat))
                });
            }
            if value == SYMBOL_TOTAL {
                self.is_eof = true;
            } else {
                proof {
                    lemma_adapt(self.freq@, value as int);
                }
                self.freq.update(value, ADD_LOG, ADD_CONST);
                let ghost before = dst@;
                dst.set(amount, value as u8);
                proof {
                    assert(dst@.subrange(0, amount as int + 1) =~= before.subrange(0, amount as int) + seq![value as u8]);
                    let rest = decode_run(self.freq@, src, self.decoder.pos(), (n - amount - 1) as nat);
                    assert(before.subrange(0, amount as int) + (seq![value as u8] + rest.out)
                        =~= dst@.subrange(0, amount as int + 1) + rest.out);
                    assert(dst@.subrange(amount as int + 1, n as int) =~= d0.subrange(amount as int + 1, n as int)) by {
                        assert(before.subrange(amount as int, n as int).subrange(1, n - amount) =~= before.subrange(amount as int + 1, n as int));
                        assert(d0.subrange(amount as int, n as int).subrange(1, n - amount) =~= d0.subrange(amount as int + 1, n as int));
                    }
                }
                amount = amount + 1;
            }
        }
        proof {
            if !self.is_eof {
                assert(dst@.subrange(0, amount as int) + Seq::<u8>::empty() =~= dst@.subrange(0, amount as int));
            }
        }
        Ok(amount)
    }

    /// Release the source.
    pub fn finish(self) -> (r: Vec<u8>)
        ensures
            r@ == self.decoder.source(),
    {
        self.decoder.finish()
    }
}

} // verus!

//! Standard COBS encoding and decoding.

use vstd::prelude::*;

use crate::model::{
    block, cobs_decode, cobs_decode_max_size, cobs_encode, cobs_encode_min_size, dec_start,
    dec_state, dec_step, decode_min_size, enc_state, encode_max_size, implied_zero,
    lemma_cobs_round_trip, lemma_dec_prefix_bounds, lemma_dec_state_prefix, lemma_enc_committed,
    lemma_enc_facts, lemma_enc_len_grows, lemma_enc_state_prefix, saturate, zero_free, DecState,
    EncState,
};
use crate::source::{
    given_bytes, lemma_nonzero_bytes_given, nonzero_bytes, ByteIter, ByteRefIter, ByteSource,
};
use crate::{Error, Result};

verus! {

/// The smallest possible COBS encoded size, for input data of `input_len` bytes.
pub fn encode_min_output_size(input_len: usize) -> (r: usize)
    ensures
        r == saturate(cobs_encode_min_size(input_len as int)),
{
    if input_len >= usize::MAX - 1 {
        usize::MAX
    } else {
        input_len + 1
    }
}

/// The largest possible COBS encoded size, for input data of `input_len` bytes.
pub fn encode_max_output_size(input_len: usize) -> (r: usize)
    ensures
        r == saturate(encode_max_size(input_len as int)),
{
    if input_len == 0 {
        1
    } else if input_len >= usize::MAX - 253 {
        assert((input_len + 253) / 254 >= 1);
        usize::MAX
    } else {
        let increase = (input_len + 253) / 254;
        if input_len >= usize::MAX - increase {
            usize::MAX
        } else {
            input_len + increase
        }
    }
}

/// The smallest possible decoded size, for COBS encoded data of `input_len` bytes.
pub fn decode_min_output_size(input_len: usize) -> (r: usize)
    ensures
        r == decode_min_size(input_len as int),
{
    if input_len >= 1 {
        let increase = (input_len - 1) / 255;
        input_len - 1 - increase
    } else {
        0
    }
}

/// The largest possible decoded size, for COBS encoded data of `input_len` bytes.
pub fn decode_max_output_size(input_len: usize) -> (r: usize)
    ensures
        r == cobs_decode_max_size(input_len as int),
{
    if input_len > 1 {
        input_len - 1
    } else {
        0
    }
}

/// Encodes `in_buf` as COBS into `out_buf`, and returns the part of `out_buf` that holds the
/// encoding. Fails with `OutputBufferTooSmall` exactly when the encoding does not fit.
pub fn encode_array<'a>(out_buf: &'a mut [u8], in_buf: &[u8]) -> (r: Result<&'a [u8]>)
    ensures
        final(out_buf)@.len() == old(out_buf)@.len(),
        r is Ok ==> final(out_buf)@.subrange(0, r->Ok_0@.len() as int) == r->Ok_0@,
        r is Ok ==> final(out_buf)@.subrange(r->Ok_0@.len() as int, final(out_buf)@.len() as int)
            == old(out_buf)@.subrange(r->Ok_0@.len() as int, old(out_buf)@.len() as int),
        cobs_encode(in_buf@).len() <= old(out_buf)@.len() ==> r is Ok && r->Ok_0@ == cobs_encode(
            in_buf@,
        ),
        cobs_encode(in_buf@).len() > old(out_buf)@.len() ==> r == Err::<&[u8], Error>(
            Error::OutputBufferTooSmall,
        ),
{
    let ghost x = in_buf@;
    let mut code_i: usize = 0;
    let mut out_i: usize = 1;

    if code_i >= out_buf.len() {
        return Err(Error::OutputBufferTooSmall);
    }
    let mut i: usize = 0;
    proof {
        assert(x.subrange(0, 0) =~= Seq::<u8>::empty());
        assert(out_buf@.subrange(0, 0) =~= Seq::<u8>::empty());
        assert(out_buf@.subrange(1, 1) =~= Seq::<u8>::empty());
    }
    while i < in_buf.len()
        invariant
            x == in_buf@,
            out_buf@.len() == old(out_buf)@.len(),
            i <= in_buf.len(),
            code_i < out_i <= out_buf@.len(),
            out_i - code_i <= 255,
            forall|j: int|
                out_i <= j < out_buf@.len() ==> #[trigger] out_buf@[j] == old(out_buf)@[j],
            enc_state(x.subrange(0, i as int)) == (EncState {
                out: out_buf@.subrange(0, code_i as int),
                run: out_buf@.subrange(code_i + 1, out_i as int),
            }),
        decreases in_buf.len() - i,
    {
        proof {
            lemma_enc_state_prefix(x, i as int);
            lemma_enc_len_grows(x, i + 1);
            lemma_enc_facts(x.subrange(0, i + 1));
        }
        let ghost prev = out_buf@;
        let ghost s0 = enc_state(x.subrange(0, i as int));
        let ghost s1 = if s0.run.len() >= 254 {
            EncState { out: s0.out + block(s0.run), run: seq![] }
        } else {
            s0
        };
        let b = in_buf[i];
        if out_i - code_i >= 0xFF {
            out_buf[code_i] = 0xFF;
            proof {
                assert(out_buf@.subrange(0, out_i as int) =~= prev.subrange(0, code_i as int)
                    + block(prev.subrange(code_i + 1, out_i as int)));
            }
            code_i = out_i;
            if code_i >= out_buf.len() {
                return Err(Error::OutputBufferTooSmall);
            }
            out_i = code_i + 1;
            proof {
                assert(out_buf@.subrange(code_i + 1, out_i as int) =~= Seq::<u8>::empty());
            }
        }
        let ghost mid = out_buf@;
        assert(mid.subrange(0, code_i as int) == s1.out);
        assert(mid.subrange(code_i + 1, out_i as int) == s1.run);
        if b == 0 {
            out_buf[code_i] = (out_i - code_i) as u8;
            proof {
                assert(out_buf@.subrange(0, out_i as int) =~= mid.subrange(0, code_i as int)
                    + block(mid.subrange(code_i + 1, out_i as int)));
            }
            code_i = out_i;
            if code_i >= out_buf.len() {
                return Err(Error::OutputBufferTooSmall);
            }
            out_i = code_i + 1;
            proof {
                assert(out_buf@.subrange(code_i + 1, out_i as int) =~= Seq::<u8>::empty());
                assert(out_buf@.subrange(0, code_i as int) == s1.out + block(s1.run));
            }
        } else {
            if out_i >= out_buf.len() {
                return Err(Error::OutputBufferTooSmall);
            }
            out_buf[out_i] = b;
            proof {
                assert(out_buf@.subrange(0, code_i as int) =~= mid.subrange(0, code_i as int));
                assert(out_buf@.subrange(code_i + 1, out_i + 1) =~= mid.subrange(
                    code_i + 1,
                    out_i as int,
                ).push(b));
            }
            out_i += 1;
            assert(out_buf@.subrange(code_i + 1, out_i as int) == s1.run.push(b));
        }
        i += 1;
    }
    proof {
        assert(x.subrange(0, i as int) =~= x);
    }
    let ghost prev = out_buf@;
    out_buf[code_i] = (out_i - code_i) as u8;
    proof {
        assert(out_buf@.subrange(0, out_i as int) =~= prev.subrange(0, code_i as int) + block(
            prev.subrange(code_i + 1, out_i as int),
        ));
    }
    Ok(&out_buf[0..out_i])
}

/// Encodes `in_buf` as COBS into a new vector.
pub fn encode_vector(in_buf: &[u8]) -> (r: Result<Vec<u8>>)
    ensures
        r is Ok,
        r->Ok_0@ == cobs_encode(in_buf@),
{
    let ghost x = in_buf@;
    let mut code_i: usize = 0;
    let mut run_len: u8 = 0;
    let mut out_vec: Vec<u8> = Vec::with_capacity(encode_max_output_size(in_buf.len()));
    let mut i: usize = 0;
    proof {
        assert(x.subrange(0, 0) =~= Seq::<u8>::empty());
    }
    while i < in_buf.len()
        invariant
            x == in_buf@,
            i <= in_buf.len(),
            code_i <= out_vec@.len(),
            run_len == 0 ==> code_i == out_vec@.len() && out_vec@ == enc_state(
                x.subrange(0, i as int),
            ).out && enc_state(x.subrange(0, i as int)).run.len() == 0,
            run_len > 0 ==> run_len == enc_state(x.subrange(0, i as int)).run.len() + 1
                && out_vec@.len() == code_i + run_len && out_vec@.subrange(0, code_i as int)
                == enc_state(x.subrange(0, i as int)).out && out_vec@.subrange(
                code_i + 1,
                out_vec@.len() as int,
            ) == enc_state(x.subrange(0, i as int)).run,
        decreases in_buf.len() - i,
    {
        proof {
            lemma_enc_state_prefix(x, i as int);
            lemma_enc_facts(x.subrange(0, i as int));
        }
        let ghost s0 = enc_state(x.subrange(0, i as int));
        let ghost s1 = if s0.run.len() >= 254 {
            EncState { out: s0.out + block(s0.run), run: seq![] }
        } else {
            s0
        };
        let b = in_buf[i];
        if run_len == 0xFF {
            let ghost prev = out_vec@;
            out_vec.set(code_i, 0xFF);
            proof {
                assert(out_vec@ =~= prev.subrange(0, code_i as int) + block(
                    prev.subrange(code_i + 1, prev.len() as int),
                ));
            }
            code_i = out_vec.len();
            run_len = 0;
        }
        assert(run_len == 0 ==> out_vec@ == s1.out && s1.run.len() == 0);
        if b == 0 {
            if run_len == 0 {
                out_vec.push(1);
                code_i = out_vec.len();
                proof {
                    assert(out_vec@ =~= s1.out + block(s1.run));
                }
            } else {
                let ghost prev = out_vec@;
                out_vec.set(code_i, run_len);
                proof {
                    assert(out_vec@ =~= prev.subrange(0, code_i as int) + block(
                        prev.subrange(code_i + 1, prev.len() as int),
                    ));
                }
                code_i = out_vec.len();
            }
            run_len = 0;
        } else {
            if run_len == 0 {
                out_vec.push(0xFF);
                run_len = 1;
                proof {
                    assert(out_vec@.subrange(0, code_i as int) =~= s1.out);
                    assert(out_vec@.subrange(code_i + 1, out_vec@.len() as int) =~= s1.run);
                }
            }
            let ghost prev = out_vec@;
            out_vec.push(b);
            proof {
                assert(out_vec@.subrange(0, code_i as int) =~= prev.subrange(0, code_i as int));
                assert(out_vec@.subrange(code_i + 1, out_vec@.len() as int) =~= prev.subrange(
                    code_i + 1,
                    prev.len() as int,
                ).push(b));
            }
            run_len += 1;
        }
        i += 1;
    }
    proof {
        assert(x.subrange(0, i as int) =~= x);
    }
    if run_len == 0 {
        out_vec.push(1);
        proof {
            assert(enc_state(x).run =~= Seq::<u8>::empty());
            assert(out_vec@ =~= cobs_encode(x));
        }
    } else {
        let ghost prev = out_vec@;
        out_vec.set(code_i, run_len);
        proof {
            assert(out_vec@ =~= prev.subrange(0, code_i as int) + block(
                prev.subrange(code_i + 1, prev.len() as int),
            ));
        }
    }
    Ok(out_vec)
}

/// Decodes the COBS data `in_buf` into `out_buf`, and returns the part of `out_buf` that holds
/// the decoded data.
///
/// Decoding stops at the first zero byte (`ZeroInEncodedData`), or where a block is cut short
/// by the end of the input (`TruncatedEncodedData`); but where the bytes decoded up to that
/// point do not fit into `out_buf`, the error is `OutputBufferTooSmall`.
pub fn decode_array<'a>(out_buf: &'a mut [u8], in_buf: &[u8]) -> (r: Result<&'a [u8]>)
    ensures
        final(out_buf)@.len() == old(out_buf)@.len(),
        r is Ok ==> final(out_buf)@.subrange(0, r->Ok_0@.len() as int) == r->Ok_0@,
        r is Ok ==> final(out_buf)@.subrange(r->Ok_0@.len() as int, final(out_buf)@.len() as int)
            == old(out_buf)@.subrange(r->Ok_0@.len() as int, old(out_buf)@.len() as int),
        cobs_decode(in_buf@).0.len() > old(out_buf)@.len() ==> r == Err::<&[u8], Error>(
            Error::OutputBufferTooSmall,
        ),
        cobs_decode(in_buf@).0.len() <= old(out_buf)@.len() && cobs_decode(in_buf@).1 is Some
            ==> r == Err::<&[u8], Error>(cobs_decode(in_buf@).1->0),
        cobs_decode(in_buf@).0.len() <= old(out_buf)@.len() && cobs_decode(in_buf@).1 is None
            ==> r is Ok && r->Ok_0@ == cobs_decode(in_buf@).0,
{
    let ghost e = in_buf@;
    let mut code_i: usize = 0;
    let mut out_i: usize = 0;

    if in_buf.len() > 0 {
        proof {
            assert(e.subrange(0, 0) =~= Seq::<u8>::empty());
            assert(out_buf@.subrange(0, 0) =~= Seq::<u8>::empty());
        }
        loop
            invariant
                e == in_buf@,
                out_buf@.len() == old(out_buf)@.len(),
                code_i < in_buf.len(),
                out_i <= out_buf@.len(),
                forall|j: int|
                    out_i <= j < out_buf@.len() ==> #[trigger] out_buf@[j] == old(out_buf)@[j],
                dec_state(e.subrange(0, code_i as int)).err is None,
                dec_state(e.subrange(0, code_i as int)).left == 0,
                out_buf@.subrange(0, out_i as int) == dec_state(e.subrange(0, code_i as int)).out
                    + implied_zero(dec_state(e.subrange(0, code_i as int)).code),
            decreases in_buf.len() - code_i,
        {
            let code = in_buf[code_i];
            proof {
                lemma_dec_state_prefix(e, code_i as int);
            }
            if code == 0 {
                proof {
                    lemma_dec_prefix_bounds(e, code_i + 1);
                }
                return Err(Error::ZeroInEncodedData);
            }
            let mut k: usize = 1;
            while k < code as usize
                invariant
                    e == in_buf@,
                    out_buf@.len() == old(out_buf)@.len(),
                    code_i < in_buf.len(),
                    out_i <= out_buf@.len(),
                    forall|j: int|
                        out_i <= j < out_buf@.len() ==> #[trigger] out_buf@[j] == old(out_buf)@[j],
                    code == e[code_i as int],
                    1 <= k <= code,
                    code_i + k <= in_buf.len(),
                    dec_state(e.subrange(0, code_i + k)) == (DecState {
                        out: out_buf@.subrange(0, out_i as int),
                        code: code,
                        left: (code - k) as nat,
                        err: None,
                    }),
                decreases code - k,
            {
                if k >= in_buf.len() - code_i {
                    proof {
                        assert(e.subrange(0, code_i + k) =~= e);
                    }
                    return Err(Error::TruncatedEncodedData);
                }
                let in_i = code_i + k;
                let in_byte = in_buf[in_i];
                proof {
                    lemma_dec_state_prefix(e, in_i as int);
                    lemma_dec_prefix_bounds(e, in_i + 1);
                }
                if in_byte == 0 {
                    return Err(Error::ZeroInEncodedData);
                }
                if out_i >= out_buf.len() {
                    return Err(Error::OutputBufferTooSmall);
                }
                let ghost prev = out_buf@;
                out_buf[out_i] = in_byte;
                proof {
                    assert(out_buf@.subrange(0, out_i + 1) =~= prev.subrange(0, out_i as int).push(
                        in_byte,
                    ));
                }
                out_i += 1;
                k += 1;
            }
            if code as usize >= in_buf.len() - code_i {
                // The block ends the input: no zero follows it.
                proof {
                    assert(e.subrange(0, code_i + k) =~= e);
                }
                return Ok(&out_buf[0..out_i]);
            }
            code_i += code as usize;
            proof {
                lemma_dec_state_prefix(e, code_i as int);
                lemma_dec_prefix_bounds(e, code_i + 1);
            }
            if code < 0xFF {
                // The zero that separates this block from the next.
                if out_i >= out_buf.len() {
                    return Err(Error::OutputBufferTooSmall);
                }
                let ghost prev = out_buf@;
                out_buf[out_i] = 0;
                proof {
                    assert(out_buf@.subrange(0, out_i + 1) =~= prev.subrange(0, out_i as int).push(
                        0,
                    ));
                }
                out_i += 1;
            } else {
                proof {
                    assert(out_buf@.subrange(0, out_i as int) =~= dec_state(
                        e.subrange(0, code_i as int),
                    ).out + implied_zero(255));
                }
            }
        }
    }
    proof {
        assert(e =~= Seq::<u8>::empty());
        assert(out_buf@.subrange(0, 0) =~= Seq::<u8>::empty());
    }
    Ok(&out_buf[0..out_i])
}

/// Decodes the COBS data `in_buf` into a new vector.
///
/// Decoding stops at the first zero byte (`ZeroInEncodedData`), or where a block is cut short
/// by the end of the input (`TruncatedEncodedData`).
pub fn decode_vector(in_buf: &[u8]) -> (r: Result<Vec<u8>>)
    ensures
        cobs_decode(in_buf@).1 is Some ==> r == Err::<Vec<u8>, Error>(cobs_decode(in_buf@).1->0),
        cobs_decode(in_buf@).1 is None ==> r is Ok && r->Ok_0@ == cobs_decode(in_buf@).0,
{
    let ghost e = in_buf@;
    let mut code_i: usize = 0;
    let mut out_vec: Vec<u8> = Vec::with_capacity(decode_max_output_size(in_buf.len()));

    if in_buf.len() > 0 {
        proof {
            assert(e.subrange(0, 0) =~= Seq::<u8>::empty());
            assert(out_vec@ =~= Seq::<u8>::empty());
        }
        loop
            invariant
                e == in_buf@,
                code_i < in_buf.len(),
                dec_state(e.subrange(0, code_i as int)).err is None,
                dec_state(e.subrange(0, code_i as int)).left == 0,
                out_vec@ == dec_state(e.subrange(0, code_i as int)).out + implied_zero(
                    dec_state(e.subrange(0, code_i as int)).code,
                ),
            decreases in_buf.len() - code_i,
        {
            let code = in_buf[code_i];
            proof {
                lemma_dec_state_prefix(e, code_i as int);
            }
            if code == 0 {
                proof {
                    lemma_dec_prefix_bounds(e, code_i + 1);
                }
                return Err(Error::ZeroInEncodedData);
            }
            let mut k: usize = 1;
            while k < code as usize
                invariant
                    e == in_buf@,
                    code_i < in_buf.len(),
                    code == e[code_i as int],
                    1 <= k <= code,
                    code_i + k <= in_buf.len(),
                    dec_state(e.subrange(0, code_i + k)) == (DecState {
                        out: out_vec@,
                        code: code,
                        left: (code - k) as nat,
                        err: None,
                    }),
                decreases code - k,
            {
                if k >= in_buf.len() - code_i {
                    proof {
                        assert(e.subrange(0, code_i + k) =~= e);
                    }
                    return Err(Error::TruncatedEncodedData);
                }
                let in_i = code_i + k;
                let in_byte = in_buf[in_i];
                proof {
                    lemma_dec_state_prefix(e, in_i as int);
                    lemma_dec_prefix_bounds(e, in_i + 1);
                }
                if in_byte == 0 {
                    return Err(Error::ZeroInEncodedData);
                }
                out_vec.push(in_byte);
                k += 1;
            }
            if code as usize >= in_buf.len() - code_i {
                // The block ends the input: no zero follows it.
                proof {
                    assert(e.subrange(0, code_i + k) =~= e);
                }
                return Ok(out_vec);
            }
            code_i += code as usize;
            if code < 0xFF {
                // The zero that separates this block from the next.
                out_vec.push(0);
            } else {
                proof {
                    assert(out_vec@ =~= dec_state(e.subrange(0, code_i as int)).out + implied_zero(
                        255,
                    ));
                }
            }
        }
    }
    proof {
        assert(e =~= Seq::<u8>::empty());
        assert(out_vec@ =~= Seq::<u8>::empty());
    }
    Ok(out_vec)
}

/// A lazy COBS encoder: it pulls input bytes from a source as its output bytes are asked for.
///
/// The length code of a run must be given out before the run, so the run's bytes wait in a
/// hold buffer until the run ends: at a zero byte, at 254 bytes, or at the end of the input.
pub struct EncodeIterator<S> {
    in_iter: S,
    eof: bool,
    last_run_0xff: bool,
    hold_write_i: u8,
    hold_read_i: u8,
    hold_buf: [u8; 255],
    consumed: Ghost<Seq<u8>>,
    produced: Ghost<Seq<u8>>,
    returned: Ghost<Seq<Option<u8>>>,
}

impl<S: ByteSource> EncodeIterator<S> {
    /// The bytes pulled from the source so far.
    pub closed spec fn input(&self) -> Seq<u8> {
        self.consumed@
    }

    /// The bytes given out so far.
    pub closed spec fn output(&self) -> Seq<u8> {
        self.produced@
    }

    /// The source has reported its end.
    pub closed spec fn ended(&self) -> bool {
        self.eof
    }

    /// Everything the source has given so far.
    pub closed spec fn pulled(&self) -> Seq<Option<u8>> {
        self.in_iter.given()
    }

    /// The bytes given out and the bytes held are the encoding of the input, as far as the
    /// input decides it.
    closed spec fn inv(&self) -> bool {
        let s = enc_state(self.consumed@);
        let pending = self.produced@ + self.hold_buf@.subrange(
            self.hold_read_i as int,
            self.hold_write_i as int,
        );
        &&& self.in_iter.ready()
        &&& self.in_iter.given() == given_bytes(self.consumed@, self.eof)
        &&& self.hold_read_i <= self.hold_write_i <= 254
        &&& forall|i: int| 0 <= i < self.hold_write_i ==> #[trigger] self.hold_buf@[i] != 0
        &&& self.eof ==> !self.last_run_0xff && pending == cobs_encode(self.consumed@)
        &&& !self.eof && self.last_run_0xff ==> {
            &&& self.hold_write_i == 254
            &&& s.run.len() == 254
            &&& self.hold_buf@.subrange(0, 254) == s.run
            &&& pending == s.out + block(s.run)
        }
        &&& !self.eof && !self.last_run_0xff ==> s.run.len() == 0 && pending == s.out
    }

    /// A lazy encoder of the bytes of `in_iter`, a source that has given nothing yet.
    pub fn new(in_iter: S) -> (r: Self)
        requires
            in_iter.given().len() == 0,
            in_iter.ready(),
        ensures
            r.wf(),
            r.input() == Seq::<u8>::empty(),
            r.output() == Seq::<u8>::empty(),
            !r.ended(),
    {
        let r = EncodeIterator {
            in_iter,
            eof: false,
            last_run_0xff: false,
            hold_write_i: 0,
            hold_read_i: 0,
            hold_buf: [1; 255],
            consumed: Ghost(Seq::empty()),
            produced: Ghost(Seq::empty()),
            returned: Ghost(Seq::empty()),
        };
        proof {
            assert(r.hold_buf@.subrange(0, 0) =~= Seq::<u8>::empty());
            assert(r.produced@ + r.hold_buf@.subrange(0, 0) =~= Seq::<u8>::empty());
            assert(given_bytes(Seq::empty(), false) =~= r.in_iter.given());
            assert(r.returned@.subrange(0, 0) =~= given_bytes(r.produced@, false));
        }
        r
    }

    /// While the source has not ended, the bytes given out begin the COBS encoding of the
    /// input, whatever the source gives next.
    pub proof fn lemma_output_begins_encoding(&self, rest: Seq<u8>)
        requires
            self.wf(),
            !self.ended(),
        ensures
            self.output().is_prefix_of(cobs_encode(self.input() + rest)),
    {
        let x = self.consumed@;
        let z = x + rest;
        lemma_enc_committed(x, rest);
        let pending = self.produced@ + self.hold_buf@.subrange(
            self.hold_read_i as int,
            self.hold_write_i as int,
        );
        let n = self.produced@.len() as int;
        assert(pending.is_prefix_of(cobs_encode(z)));
        assert(pending.subrange(0, n) =~= self.produced@);
        assert(cobs_encode(z).subrange(0, n) =~= pending.subrange(0, n));
    }

    /// One step of the encoder: the next byte of the encoding, or `None` at its end.
    fn step(&mut self) -> (r: Option<u8>)
        requires
            old(self).inv(),
        ensures
            final(self).inv(),
            final(self).returned@ == old(self).returned@,
            final(self).pulled() == given_bytes(final(self).input(), final(self).ended()),
            old(self).input().is_prefix_of(final(self).input()),
            old(self).ended() ==> final(self).ended() && final(self).input()
                == old(self).input(),
            r is Some ==> final(self).output() == old(self).output().push(r->0),
            r is None ==> final(self).output() == old(self).output() && final(self).ended(),
            r is None ==> final(self).output() == cobs_encode(final(self).input()),
            old(self).ended() && old(self).output() == cobs_encode(old(self).input()) ==> r is None,
            final(self).input().len() <= old(self).input().len() + 255,
            r is Some ==> r->0 != 0,
    {
        let ghost x0 = self.consumed@;
        proof {
            if self.eof && self.produced@ == cobs_encode(self.consumed@) {
                let pending = self.produced@ + self.hold_buf@.subrange(
                    self.hold_read_i as int,
                    self.hold_write_i as int,
                );
                assert(pending.len() == self.produced@.len());
            }
        }
        if self.hold_write_i != 0 {
            if self.hold_read_i < self.hold_write_i {
                let byte_val = self.hold_buf[self.hold_read_i as usize];
                let ghost pending = self.hold_buf@.subrange(
                    self.hold_read_i as int,
                    self.hold_write_i as int,
                );
                self.hold_read_i += 1;
                self.produced = Ghost(self.produced@.push(byte_val));
                proof {
                    assert(self.produced@ + self.hold_buf@.subrange(
                        self.hold_read_i as int,
                        self.hold_write_i as int,
                    ) =~= old(self).produced@ + pending);
                }
                return Some(byte_val);
            } else {
                proof {
                    assert(self.hold_buf@.subrange(
                        self.hold_read_i as int,
                        self.hold_write_i as int,
                    ) =~= Seq::<u8>::empty());
                    assert(self.produced@ + Seq::<u8>::empty() =~= self.produced@);
                }
                self.hold_read_i = 0;
                self.hold_write_i = 0;
            }
        }
        proof {
            assert(self.hold_buf@.subrange(
                self.hold_read_i as int,
                self.hold_write_i as int,
            ) =~= self.hold_buf@.subrange(0, self.hold_write_i as int));
            assert(self.produced@ + self.hold_buf@.subrange(0, self.hold_write_i as int)
                =~= self.produced@) by {
                if self.hold_write_i == 0 {
                    assert(self.hold_buf@.subrange(0, 0) =~= Seq::<u8>::empty());
                }
            }
        }
        if self.eof {
            return None;
        }
        loop
            invariant
                !self.eof,
                !old(self).eof,
                self.hold_read_i == 0,
                self.in_iter.ready(),
                self.returned@ == old(self).returned@,
                self.hold_write_i <= 254,
                self.produced@ == old(self).produced@,
                x0 == old(self).consumed@,
                x0.is_prefix_of(self.consumed@),
                self.consumed@.len() <= x0.len() + self.hold_write_i,
                forall|i: int| 0 <= i < self.hold_write_i ==> #[trigger] self.hold_buf@[i] != 0,
                self.in_iter.given() == given_bytes(self.consumed@, false),
                self.last_run_0xff ==> self.hold_write_i == 0 && enc_state(self.consumed@).run.len()
                    == 254 && self.produced@ == enc_state(self.consumed@).out + block(
                    enc_state(self.consumed@).run,
                ),
                !self.last_run_0xff ==> self.hold_buf@.subrange(0, self.hold_write_i as int)
                    == enc_state(self.consumed@).run && self.produced@ == enc_state(
                    self.consumed@,
                ).out,
            decreases 255 - self.hold_write_i + (if self.last_run_0xff {
                1int
            } else {
                0
            }),
        {
            let ghost x = self.consumed@;
            let ghost s = enc_state(x);
            proof {
                lemma_enc_facts(x);
            }
            if self.hold_write_i == 0xFE {
                self.last_run_0xff = true;
                self.produced = Ghost(self.produced@.push(0xFF));
                proof {
                    assert(self.produced@ + self.hold_buf@.subrange(0, 254) =~= s.out + block(
                        s.run,
                    ));
                }
                return Some(0xFF);
            } else {
                let in_iter_next = self.in_iter.next_byte();
                let byte_val = match in_iter_next {
                    Some(b) => b,
                    None => {
                        self.eof = true;
                        0
                    },
                };
                if !self.eof {
                    self.consumed = Ghost(x.push(byte_val));
                    proof {
                        assert(self.consumed@.drop_last() =~= x);
                        assert(x0.is_prefix_of(self.consumed@));
                        assert(self.in_iter.given() =~= given_bytes(self.consumed@, false));
                    }
                } else {
                    proof {
                        assert(self.in_iter.given() =~= given_bytes(self.consumed@, true));
                    }
                }
                let ghost x1 = self.consumed@;
                let ghost s1 = enc_state(x1);
                if self.last_run_0xff {
                    self.last_run_0xff = false;
                    if self.eof {
                        proof {
                            assert(self.produced@ + self.hold_buf@.subrange(0, 0)
                                =~= self.produced@);
                        }
                        return None;
                    }
                }
                if byte_val == 0 {
                    let code = self.hold_write_i + 1;
                    self.produced = Ghost(self.produced@.push(code));
                    proof {
                        if self.eof {
                            assert(self.produced@ + self.hold_buf@.subrange(
                                0,
                                self.hold_write_i as int,
                            ) =~= cobs_encode(x1));
                        } else {
                            assert(self.produced@ + self.hold_buf@.subrange(
                                0,
                                self.hold_write_i as int,
                            ) =~= s1.out);
                        }
                    }
                    return Some(code);
                } else {
                    let ghost prev = self.hold_buf@;
                    self.hold_buf[self.hold_write_i as usize] = byte_val;
                    proof {
                        assert(self.hold_buf@.subrange(0, self.hold_write_i + 1) =~= (if s.run.len()
                            >= 254 {
                            Seq::<u8>::empty()
                        } else {
                            prev.subrange(0, self.hold_write_i as int)
                        }).push(byte_val));
                    }
                    self.hold_write_i += 1;
                }
            }
        }
    }

    /// Everything this encoder has given out, `None` included, in order.
    pub closed spec fn yielded(&self) -> Seq<Option<u8>> {
        self.returned@
    }

    /// The encoder's state is consistent, and it has given out its output bytes, followed by
    /// `None` only once the output is complete.
    pub closed spec fn wf(&self) -> bool {
        let y = self.returned@;
        let p = self.produced@;
        &&& self.inv()
        &&& zero_free(p)
        &&& y.len() >= p.len()
        &&& y.subrange(0, p.len() as int) == given_bytes(p, false)
        &&& forall|i: int| p.len() <= i < y.len() ==> #[trigger] y[i] is None
        &&& y.len() > p.len() ==> self.eof && p == cobs_encode(self.input())
    }

    /// The next byte of the encoding, or `None` at its end.
    ///
    /// Once the source has ended and every byte has been given out, the output is exactly the
    /// COBS encoding of the bytes that the source gave; every later call gives `None` again.
    /// One call pulls at most 255 bytes from the source.
    pub fn next(&mut self) -> (r: Option<u8>)
        requires
            old(self).wf(),
        ensures
            final(self).wf(),
            final(self).pulled() == given_bytes(final(self).input(), final(self).ended()),
            old(self).input().is_prefix_of(final(self).input()),
            old(self).ended() ==> final(self).ended() && final(self).input()
                == old(self).input(),
            r is Some ==> final(self).output() == old(self).output().push(r->0),
            r is None ==> final(self).output() == old(self).output() && final(self).ended(),
            r is None ==> final(self).output() == cobs_encode(final(self).input()),
            old(self).ended() && old(self).output() == cobs_encode(old(self).input()) ==> r is None,
            final(self).input().len() <= old(self).input().len() + 255,
            r is Some ==> r->0 != 0,
            final(self).yielded() == old(self).yielded().push(r),
            zero_free(final(self).output()),
    {
        let r = self.step();
        self.returned = Ghost(self.returned@.push(r));
        proof {
            let y = self.returned@;
            let p = self.produced@;
            let y0 = old(self).returned@;
            let p0 = old(self).produced@;
            assert(given_bytes(p, false) =~= p.map_values(|b: u8| Some(b)));
            assert(given_bytes(p0, false) =~= p0.map_values(|b: u8| Some(b)));
            if r is Some {
                assert(y0.len() == p0.len());
            }
            assert(y.len() >= p.len());
            assert forall|i: int| 0 <= i < p.len() implies #[trigger] y[i] == Some(p[i]) by {
                if i < p0.len() {
                    assert(y0.subrange(0, p0.len() as int)[i] == y0[i]);
                    assert(given_bytes(p0, false)[i] == Some(p0[i]));
                    assert(y[i] == y0[i]);
                    assert(p[i] == p0[i]);
                } else {
                    assert(y[i] == r);
                }
            }
            assert(y.subrange(0, p.len() as int) =~= given_bytes(p, false));
            assert forall|i: int| 0 <= i < p.len() implies #[trigger] p[i] != 0 by {
                if i < old(self).produced@.len() {
                    assert(p[i] == old(self).produced@[i]);
                }
            }
        }
        r
    }
}

impl<S: ByteSource> ByteSource for EncodeIterator<S> {
    closed spec fn given(&self) -> Seq<Option<u8>> {
        self.returned@
    }

    closed spec fn ready(&self) -> bool {
        self.wf()
    }

    fn next_byte(&mut self) -> (r: Option<u8>) {
        self.next()
    }
}

/// Encodes lazily, as COBS, the bytes that `i` yields.
pub fn encode_iter<I: Iterator<Item = u8>>(i: I) -> (r: EncodeIterator<ByteIter<I>>)
    ensures
        r.wf(),
        r.pulled().len() == 0,
        r.input().len() == 0,
        r.output().len() == 0,
        !r.ended(),
{
    EncodeIterator::new(ByteIter::new(i))
}

/// Encodes lazily, as COBS, the bytes that `i` refers to.
pub fn encode_ref_iter<'a, I: Iterator<Item = &'a u8>>(i: I) -> (r: EncodeIterator<ByteRefIter<I>>)
    ensures
        r.wf(),
        r.pulled().len() == 0,
        r.input().len() == 0,
        r.output().len() == 0,
        !r.ended(),
{
    EncodeIterator::new(ByteRefIter::new(i))
}

/// A lazy, best-effort COBS decoder: it pulls encoded bytes from a source as its output bytes
/// are asked for.
///
/// A zero byte or the end of the source ends the output (`None`) without an error; a block cut
/// short by the end of the source just ends the output early. The state carries over a `None`,
/// so that pulling again goes on with what the source gives next.
pub struct DecodeIterator<S> {
    in_iter: S,
    last_run: u8,
    count_run: u8,
    produced: Ghost<Seq<u8>>,
}

impl<S: ByteSource> DecodeIterator<S> {
    /// The bytes given out so far.
    pub closed spec fn output(&self) -> Seq<u8> {
        self.produced@
    }

    /// Everything the source has given so far.
    pub closed spec fn pulled(&self) -> Seq<Option<u8>> {
        self.in_iter.given()
    }

    /// The bytes given out are the decoding of the non-zero bytes pulled.
    pub closed spec fn wf(&self) -> bool {
        &&& self.in_iter.ready()
        &&& dec_state(nonzero_bytes(self.in_iter.given())) == (DecState {
            out: self.produced@,
            code: self.last_run,
            left: self.count_run as nat,
            err: None,
        })
    }

    /// A lazy decoder of the bytes of `in_iter`, a source that has given nothing yet.
    pub fn new(in_iter: S) -> (r: Self)
        requires
            in_iter.given().len() == 0,
            in_iter.ready(),
        ensures
            r.wf(),
            r.pulled().len() == 0,
            r.output().len() == 0,
    {
        let r = DecodeIterator {
            in_iter,
            last_run: 0,
            count_run: 0,
            produced: Ghost(Seq::empty()),
        };
        proof {
            assert(dec_state(Seq::empty()) == dec_start());
        }
        r
    }

    /// The next decoded byte, or `None` where the source gives a zero byte or ends.
    ///
    /// Each call pulls bytes until it has a byte to give out, or the source gives a zero byte
    /// or its end; all bytes given out are the decoding of the non-zero bytes pulled.
    pub fn next(&mut self) -> (r: Option<u8>)
        requires
            old(self).wf(),
        ensures
            final(self).wf(),
            final(self).output() == dec_state(nonzero_bytes(final(self).pulled())).out,
            old(self).pulled().is_prefix_of(final(self).pulled()),
            final(self).pulled().len() > old(self).pulled().len(),
            forall|i: int|
                old(self).pulled().len() <= i < final(self).pulled().len() - 1 ==> (
                #[trigger] final(self).pulled()[i] is Some && final(self).pulled()[i] != Some(0u8)),
            r is None <==> (final(self).pulled().last() is None || final(self).pulled().last()
                == Some(0u8)),
            r is Some ==> final(self).output() == old(self).output().push(r->0),
            r is None ==> final(self).output() == old(self).output(),
    {
        let ghost g0 = self.in_iter.given();
        loop
            invariant
                self.wf(),
                self.produced@ == old(self).produced@,
                g0 == old(self).in_iter.given(),
                g0.is_prefix_of(self.in_iter.given()),
                forall|i: int|
                    g0.len() <= i < self.in_iter.given().len() ==> (
                    #[trigger] self.in_iter.given()[i] is Some && self.in_iter.given()[i] != Some(
                        0u8,
                    )),
            decreases (if self.count_run == 0 && (self.last_run == 0 || self.last_run == 0xFF) {
                1int
            } else {
                0
            }),
        {
            let ghost g = self.in_iter.given();
            let ghost nz = nonzero_bytes(g);
            let in_iter_next = self.in_iter.next_byte();
            let byte_val = match in_iter_next {
                Some(b) => b,
                None => 0,
            };
            proof {
                assert(self.in_iter.given().drop_last() =~= g);
                assert(g0.is_prefix_of(self.in_iter.given()));
            }
            if byte_val == 0 {
                return None;
            }
            proof {
                assert(nonzero_bytes(self.in_iter.given()) == nz.push(byte_val));
                assert(nz.push(byte_val).drop_last() =~= nz);
                assert(dec_state(nz.push(byte_val)) == dec_step(dec_state(nz), byte_val));
            }
            if self.count_run == 0 {
                let last_run = self.last_run;
                self.last_run = byte_val;
                self.count_run = byte_val - 1;
                if last_run != 0 && last_run != 0xFF {
                    self.produced = Ghost(self.produced@.push(0));
                    proof {
                        assert(self.produced@ =~= old(self).produced@ + implied_zero(last_run));
                    }
                    return Some(0);
                }
                proof {
                    assert(self.produced@ =~= old(self).produced@ + implied_zero(last_run));
                }
            } else {
                self.count_run -= 1;
                self.produced = Ghost(self.produced@.push(byte_val));
                return Some(byte_val);
            }
        }
    }
}

impl<S: ByteSource> DecodeIterator<EncodeIterator<S>> {
    /// The lazy encoder that this decoder pulls from.
    pub closed spec fn encoder(&self) -> EncodeIterator<S> {
        self.in_iter
    }

    /// Lazy round trip: a decoder that pulls from a lazy encoder has, once it has met the
    /// encoder's end, given out exactly the bytes that the encoder took in.
    pub proof fn lemma_lazy_round_trip(&self)
        requires
            self.wf(),
            self.pulled().len() > 0,
            self.pulled().last() is None,
        ensures
            self.output() == self.encoder().input(),
    {
        let enc = self.in_iter;
        let y = enc.returned@;
        let p = enc.produced@;
        assert(y.len() > p.len()) by {
            if y.len() == p.len() {
                assert(y.subrange(0, p.len() as int) =~= y);
                assert(given_bytes(p, false)[p.len() - 1] == Some(p[p.len() - 1]));
            }
        }
        lemma_nonzero_bytes_given(p, y);
        lemma_cobs_round_trip(enc.input());
    }
}

/// A lazy COBS decoder that gives out each decoded byte as `Ok`, and an error as `Err`.
///
/// A zero byte gives `ZeroInEncodedData`, and a block cut short by the end of the source gives
/// `TruncatedEncodedData`; after an error, or after the end of a well-formed input, the
/// decoder gives `None` for good.
pub struct DecodeResultIterator<S> {
    in_iter: S,
    eof: bool,
    last_run: u8,
    count_run: u8,
    consumed: Ghost<Seq<u8>>,
    produced: Ghost<Seq<u8>>,
}

impl<S: ByteSource> DecodeResultIterator<S> {
    /// The bytes pulled from the source so far.
    pub closed spec fn input(&self) -> Seq<u8> {
        self.consumed@
    }

    /// The decoded bytes given out so far.
    pub closed spec fn output(&self) -> Seq<u8> {
        self.produced@
    }

    /// Decoding has stopped: at an error, or at the end of the source.
    pub closed spec fn ended(&self) -> bool {
        self.eof
    }

    /// Everything the source has given so far.
    pub closed spec fn pulled(&self) -> Seq<Option<u8>> {
        self.in_iter.given()
    }

    /// The bytes given out are the decoding of the bytes pulled, while decoding goes on.
    pub closed spec fn wf(&self) -> bool {
        &&& self.in_iter.ready()
        &&& self.in_iter.given() == given_bytes(
            self.consumed@,
            self.eof && zero_free(self.consumed@),
        )
        &&& !self.eof ==> zero_free(self.consumed@) && dec_state(self.consumed@) == (DecState {
            out: self.produced@,
            code: self.last_run,
            left: self.count_run as nat,
            err: None,
        })
    }

    /// A lazy decoder of the bytes of `in_iter`, a source that has given nothing yet.
    pub fn new(in_iter: S) -> (r: Self)
        requires
            in_iter.given().len() == 0,
            in_iter.ready(),
        ensures
            r.wf(),
            r.pulled().len() == 0,
            r.input().len() == 0,
            r.output().len() == 0,
            !r.ended(),
    {
        let r = DecodeResultIterator {
            in_iter,
            eof: false,
            last_run: 0,
            count_run: 0,
            consumed: Ghost(Seq::empty()),
            produced: Ghost(Seq::empty()),
        };
        proof {
            assert(dec_state(Seq::empty()) == dec_start());
            assert(given_bytes(Seq::empty(), false) =~= r.in_iter.given());
        }
        r
    }

    /// The next decoded byte, an error, or `None` once decoding has stopped.
    pub fn next(&mut self) -> (r: Option<Result<u8>>)
        requires
            old(self).wf(),
        ensures
            final(self).wf(),
            final(self).pulled() == given_bytes(
                final(self).input(),
                final(self).ended() && zero_free(final(self).input()),
            ),
            old(self).input().is_prefix_of(final(self).input()),
            old(self).ended() ==> r is None && final(self).input() == old(self).input()
                && final(self).pulled() == old(self).pulled(),
            !final(self).ended() ==> final(self).output() == dec_state(final(self).input()).out,
            r matches Some(Ok(v)) ==> !final(self).ended() && final(self).output()
                == old(self).output().push(v),
            r matches Some(Err(e)) ==> !old(self).ended() && final(self).ended() && cobs_decode(
                final(self).input(),
            ).1 == Some(e),
            r is None ==> final(self).ended() && final(self).output() == old(self).output(),
            r is None && !old(self).ended() ==> cobs_decode(final(self).input()) == (
                final(self).output(),
                None::<Error>,
            ),
    {
        let ghost x0 = self.consumed@;
        if self.eof {
            return None;
        }
        loop
            invariant
                self.wf(),
                !self.eof,
                !old(self).eof,
                self.produced@ == old(self).produced@,
                x0 == old(self).consumed@,
                x0.is_prefix_of(self.consumed@),
            decreases (if self.count_run == 0 && (self.last_run == 0 || self.last_run == 0xFF) {
                1int
            } else {
                0
            }),
        {
            let ghost x = self.consumed@;
            let in_iter_next = self.in_iter.next_byte();
            let byte_val = match in_iter_next {
                Some(b) => b,
                None => {
                    self.eof = true;
                    proof {
                        assert(self.in_iter.given() =~= given_bytes(x, true));
                    }
                    if self.count_run != 0 {
                        return Some(Err(Error::TruncatedEncodedData));
                    } else {
                        return None;
                    }
                },
            };
            self.consumed = Ghost(x.push(byte_val));
            proof {
                assert(self.in_iter.given() =~= given_bytes(self.consumed@, false));
                assert(self.consumed@.drop_last() =~= x);
                assert(x0.is_prefix_of(self.consumed@));
                assert(dec_state(self.consumed@) == dec_step(dec_state(x), byte_val));
            }
            if byte_val == 0 {
                self.eof = true;
                proof {
                    assert(!zero_free(self.consumed@)) by {
                        assert(self.consumed@[x.len() as int] == 0);
                    }
                }
                return Some(Err(Error::ZeroInEncodedData));
            }
            proof {
                assert(zero_free(self.consumed@)) by {
                    let c = self.consumed@;
                    assert forall|i: int| 0 <= i < c.len() implies #[trigger] c[i] != 0 by {
                        if i < x.len() {
                            assert(c[i] == x[i]);
                        }
                    }
                }
            }
            if self.count_run == 0 {
                let last_run = self.last_run;
                self.last_run = byte_val;
                self.count_run = byte_val - 1;
                if last_run != 0 && last_run != 0xFF {
                    self.produced = Ghost(self.produced@.push(0));
                    proof {
                        assert(self.produced@ =~= old(self).produced@ + implied_zero(last_run));
                    }
                    return Some(Ok(0));
                }
                proof {
                    assert(self.produced@ =~= old(self).produced@ + implied_zero(last_run));
                }
            } else {
                self.count_run -= 1;
                self.produced = Ghost(self.produced@.push(byte_val));
                return Some(Ok(byte_val));
            }
        }
    }
}

/// Decodes lazily, best-effort, the COBS data that `i` yields.
pub fn decode_iter<I: Iterator<Item = u8>>(i: I) -> (r: DecodeIterator<ByteIter<I>>)
    ensures
        r.wf(),
        r.pulled().len() == 0,
        r.output().len() == 0,
{
    DecodeIterator::new(ByteIter::new(i))
}

/// Decodes lazily, best-effort, the COBS data that `i` refers to.
pub fn decode_ref_iter<'a, I: Iterator<Item = &'a u8>>(i: I) -> (r: DecodeIterator<ByteRefIter<I>>)
    ensures
        r.wf(),
        r.pulled().len() == 0,
        r.output().len() == 0,
{
    DecodeIterator::new(ByteRefIter::new(i))
}

/// Decodes lazily the COBS data that `i` yields, giving out errors as items.
pub fn decode_result_iter<I: Iterator<Item = u8>>(i: I) -> (r: DecodeResultIterator<ByteIter<I>>)
    ensures
        r.wf(),
        r.pulled().len() == 0,
        r.input().len() == 0,
        r.output().len() == 0,
        !r.ended(),
{
    DecodeResultIterator::new(ByteIter::new(i))
}

/// Decodes lazily the COBS data that `i` refers to, giving out errors as items.
pub fn decode_result_ref_iter<'a, I: Iterator<Item = &'a u8>>(i: I) -> (r: DecodeResultIterator<
    ByteRefIter<I>,
>)
    ensures
        r.wf(),
        r.pulled().len() == 0,
        r.input().len() == 0,
        r.output().len() == 0,
        !r.ended(),
{
    DecodeResultIterator::new(ByteRefIter::new(i))
}

} // verus!

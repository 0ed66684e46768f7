//! COBS/R encoding and decoding.
//!
//! COBS/R is COBS with one change: where the last data byte is at least the length code that
//! would close the final run, that byte takes the code's place and leaves the end of the
//! output. A decoder tells the two apart because the code then claims more bytes than remain.
//! So COBS/R often avoids the one byte of overhead that COBS always adds, and a COBS/R decoder
//! decodes plain COBS as well.

use vstd::prelude::*;

use crate::model::{
    block, cobs_encode, cobsr_decode, cobsr_decode_max_size, cobsr_encode, cobsr_encode_min_size,
    dec_start, dec_state, dec_step, decode_min_size, enc_state, encode_max_size, implied_zero,
    lemma_cobsr_round_trip, lemma_dec_prefix_bounds, lemma_dec_state_prefix, lemma_enc_committed,
    lemma_enc_facts, lemma_enc_len_grows, lemma_enc_state_prefix, saturate, zero_free, DecState,
    EncState,
};
use crate::source::{given_bytes, ByteIter, ByteRefIter, ByteSource};
use crate::{Error, Result};

verus! {

/// The smallest possible COBS/R encoded size, for input data of `input_len` bytes.
pub fn encode_min_output_size(input_len: usize) -> (r: usize)
    ensures
        r == cobsr_encode_min_size(input_len as int),
{
    if input_len == 0 {
        1
    } else {
        input_len
    }
}

/// The largest possible COBS/R encoded size, for input data of `input_len` bytes.
pub fn encode_max_output_size(input_len: usize) -> (r: usize)
    ensures
        r == saturate(encode_max_size(input_len as int)),
{
    if input_len == 0 {
        1
    } else if input_len >= usize::MAX - 253 {
        assert((input_len + 253) / 254 >= 1);
        usize::MAX
    } else {
        let increase = (input_len + 253) / 254;
        if input_len >= usize::MAX - increase {
            usize::MAX
        } else {
            input_len + increase
        }
    }
}

/// The smallest possible decoded size, for COBS/R encoded data of `input_len` bytes: the same
/// as for COBS encoded data.
pub fn decode_min_output_size(input_len: usize) -> (r: usize)
    ensures
        r == decode_min_size(input_len as int),
{
    if input_len >= 1 {
        let increase = (input_len - 1) / 255;
        input_len - 1 - increase
    } else {
        0
    }
}

/// The largest possible decoded size, for COBS/R encoded data of `input_len` bytes.
pub fn decode_max_output_size(input_len: usize) -> (r: usize)
    ensures
        r == cobsr_decode_max_size(input_len as int),
{
    input_len
}

/// Encodes `in_buf` as COBS/R into `out_buf`, and returns the part of `out_buf` that holds the
/// encoding.
///
/// The encoder writes the COBS encoding first and then drops the final byte where it can, so
/// it fails with `OutputBufferTooSmall` exactly when the COBS encoding does not fit.
pub fn encode_array<'a>(out_buf: &'a mut [u8], in_buf: &[u8]) -> (r: Result<&'a [u8]>)
    ensures
        final(out_buf)@.len() == old(out_buf)@.len(),
        r is Ok ==> final(out_buf)@.subrange(0, r->Ok_0@.len() as int) == r->Ok_0@,
        r is Ok ==> final(out_buf)@.subrange(
            cobs_encode(in_buf@).len() as int,
            final(out_buf)@.len() as int,
        ) == old(out_buf)@.subrange(cobs_encode(in_buf@).len() as int, old(out_buf)@.len() as int),
        cobs_encode(in_buf@).len() <= old(out_buf)@.len() ==> r is Ok && r->Ok_0@ == cobsr_encode(
            in_buf@,
        ),
        cobs_encode(in_buf@).len() > old(out_buf)@.len() ==> r == Err::<&[u8], Error>(
            Error::OutputBufferTooSmall,
        ),
{
    let ghost x = in_buf@;
    let mut code_i: usize = 0;
    let mut out_i: usize = 1;
    let mut last_value: u8 = 0;

    if code_i >= out_buf.len() {
        return Err(Error::OutputBufferTooSmall);
    }
    let mut i: usize = 0;
    proof {
        assert(x.subrange(0, 0) =~= Seq::<u8>::empty());
        assert(out_buf@.subrange(0, 0) =~= Seq::<u8>::empty());
        assert(out_buf@.subrange(1, 1) =~= Seq::<u8>::empty());
    }
    while i < in_buf.len()
        invariant
            x == in_buf@,
            out_buf@.len() == old(out_buf)@.len(),
            i <= in_buf.len(),
            code_i < out_i <= out_buf@.len(),
            out_i - code_i <= 255,
            forall|j: int|
                out_i <= j < out_buf@.len() ==> #[trigger] out_buf@[j] == old(out_buf)@[j],
            last_value == (if out_i - code_i > 1 {
                out_buf@[out_i - 1]
            } else {
                0u8
            }),
            enc_state(x.subrange(0, i as int)) == (EncState {
                out: out_buf@.subrange(0, code_i as int),
                run: out_buf@.subrange(code_i + 1, out_i as int),
            }),
        decreases in_buf.len() - i,
    {
        proof {
            lemma_enc_state_prefix(x, i as int);
            lemma_enc_len_grows(x, i + 1);
            lemma_enc_facts(x.subrange(0, i + 1));
        }
        let ghost prev = out_buf@;
        let ghost s0 = enc_state(x.subrange(0, i as int));
        let ghost s1 = if s0.run.len() >= 254 {
            EncState { out: s0.out + block(s0.run), run: seq![] }
        } else {
            s0
        };
        let b = in_buf[i];
        if out_i - code_i >= 0xFF {
            out_buf[code_i] = 0xFF;
            proof {
                assert(out_buf@.subrange(0, out_i as int) =~= prev.subrange(0, code_i as int)
                    + block(prev.subrange(code_i + 1, out_i as int)));
            }
            code_i = out_i;
            if code_i >= out_buf.len() {
                return Err(Error::OutputBufferTooSmall);
            }
            out_i = code_i + 1;
            proof {
                assert(out_buf@.subrange(code_i + 1, out_i as int) =~= Seq::<u8>::empty());
            }
        }
        let ghost mid = out_buf@;
        assert(mid.subrange(0, code_i as int) == s1.out);
        assert(mid.subrange(code_i + 1, out_i as int) == s1.run);
        if b == 0 {
            out_buf[code_i] = (out_i - code_i) as u8;
            proof {
                assert(out_buf@.subrange(0, out_i as int) =~= mid.subrange(0, code_i as int)
                    + block(mid.subrange(code_i + 1, out_i as int)));
            }
            code_i = out_i;
            if code_i >= out_buf.len() {
                return Err(Error::OutputBufferTooSmall);
            }
            out_i = code_i + 1;
            last_value = 0;
            proof {
                assert(out_buf@.subrange(code_i + 1, out_i as int) =~= Seq::<u8>::empty());
                assert(out_buf@.subrange(0, code_i as int) == s1.out + block(s1.run));
            }
        } else {
            last_value = b;
            if out_i >= out_buf.len() {
                return Err(Error::OutputBufferTooSmall);
            }
            out_buf[out_i] = b;
            proof {
                assert(out_buf@.subrange(0, code_i as int) =~= mid.subrange(0, code_i as int));
                assert(out_buf@.subrange(code_i + 1, out_i + 1) =~= mid.subrange(
                    code_i + 1,
                    out_i as int,
                ).push(b));
            }
            out_i += 1;
            assert(out_buf@.subrange(code_i + 1, out_i as int) == s1.run.push(b));
        }
        i += 1;
    }
    proof {
        assert(x.subrange(0, i as int) =~= x);
    }
    let ghost prev = out_buf@;
    let ghost run = prev.subrange(code_i + 1, out_i as int);
    proof {
        if run.len() > 0 {
            assert(run.last() == prev[out_i - 1]);
        }
    }
    if last_value >= (out_i - code_i) as u8 {
        // The last data byte serves as the final length code.
        out_buf[code_i] = last_value;
        out_i -= 1;
        proof {
            assert(out_buf@.subrange(0, out_i as int) =~= prev.subrange(0, code_i as int) + seq![
                run.last(),
            ] + run.drop_last());
        }
    } else {
        out_buf[code_i] = (out_i - code_i) as u8;
        proof {
            assert(out_buf@.subrange(0, out_i as int) =~= prev.subrange(0, code_i as int) + block(
                run,
            ));
        }
    }
    Ok(&out_buf[0..out_i])
}

/// Encodes `in_buf` as COBS/R into a new vector.
pub fn encode_vector(in_buf: &[u8]) -> (r: Result<Vec<u8>>)
    ensures
        r is Ok,
        r->Ok_0@ == cobsr_encode(in_buf@),
{
    let ghost x = in_buf@;
    let mut code_i: usize = 0;
    let mut run_len: u8 = 0;
    let mut last_value: u8 = 0;
    let mut out_vec: Vec<u8> = Vec::with_capacity(encode_max_output_size(in_buf.len()));
    let mut i: usize = 0;
    proof {
        assert(x.subrange(0, 0) =~= Seq::<u8>::empty());
    }
    while i < in_buf.len()
        invariant
            x == in_buf@,
            i <= in_buf.len(),
            code_i <= out_vec@.len(),
            last_value == (if run_len > 1 {
                out_vec@.last()
            } else {
                0u8
            }),
            run_len == 0 ==> code_i == out_vec@.len() && out_vec@ == enc_state(
                x.subrange(0, i as int),
            ).out && enc_state(x.subrange(0, i as int)).run.len() == 0,
            run_len > 0 ==> run_len == enc_state(x.subrange(0, i as int)).run.len() + 1
                && out_vec@.len() == code_i + run_len && out_vec@.subrange(0, code_i as int)
                == enc_state(x.subrange(0, i as int)).out && out_vec@.subrange(
                code_i + 1,
                out_vec@.len() as int,
            ) == enc_state(x.subrange(0, i as int)).run,
        decreases in_buf.len() - i,
    {
        proof {
            lemma_enc_state_prefix(x, i as int);
            lemma_enc_facts(x.subrange(0, i as int));
        }
        let ghost s0 = enc_state(x.subrange(0, i as int));
        let ghost s1 = if s0.run.len() >= 254 {
            EncState { out: s0.out + block(s0.run), run: seq![] }
        } else {
            s0
        };
        let b = in_buf[i];
        if run_len == 0xFF {
            let ghost prev = out_vec@;
            out_vec.set(code_i, 0xFF);
            proof {
                assert(out_vec@ =~= prev.subrange(0, code_i as int) + block(
                    prev.subrange(code_i + 1, prev.len() as int),
                ));
            }
            code_i = out_vec.len();
            run_len = 0;
        }
        assert(run_len == 0 ==> out_vec@ == s1.out && s1.run.len() == 0);
        if b == 0 {
            if run_len == 0 {
                out_vec.push(1);
                code_i = out_vec.len();
                proof {
                    assert(out_vec@ =~= s1.out + block(s1.run));
                }
            } else {
                let ghost prev = out_vec@;
                out_vec.set(code_i, run_len);
                proof {
                    assert(out_vec@ =~= prev.subrange(0, code_i as int) + block(
                        prev.subrange(code_i + 1, prev.len() as int),
                    ));
                }
                code_i = out_vec.len();
            }
            run_len = 0;
            last_value = 0;
        } else {
            last_value = b;
            if run_len == 0 {
                out_vec.push(0xFF);
                run_len = 1;
                proof {
                    assert(out_vec@.subrange(0, code_i as int) =~= s1.out);
                    assert(out_vec@.subrange(code_i + 1, out_vec@.len() as int) =~= s1.run);
                }
            }
            let ghost prev = out_vec@;
            out_vec.push(b);
            proof {
                assert(out_vec@.subrange(0, code_i as int) =~= prev.subrange(0, code_i as int));
                assert(out_vec@.subrange(code_i + 1, out_vec@.len() as int) =~= prev.subrange(
                    code_i + 1,
                    prev.len() as int,
                ).push(b));
            }
            run_len += 1;
        }
        i += 1;
    }
    proof {
        assert(x.subrange(0, i as int) =~= x);
    }
    if run_len == 0 {
        out_vec.push(1);
        proof {
            assert(enc_state(x).run =~= Seq::<u8>::empty());
            assert(out_vec@ =~= cobs_encode(x));
        }
    } else if last_value >= run_len {
        // The last data byte serves as the final length code.
        let ghost prev = out_vec@;
        let ghost run = prev.subrange(code_i + 1, prev.len() as int);
        out_vec.set(code_i, last_value);
        out_vec.pop();
        proof {
            assert(run.last() == prev.last());
            assert(out_vec@ =~= prev.subrange(0, code_i as int) + seq![run.last()]
                + run.drop_last());
        }
    } else {
        let ghost prev = out_vec@;
        out_vec.set(code_i, run_len);
        proof {
            assert(out_vec@ =~= prev.subrange(0, code_i as int) + block(
                prev.subrange(code_i + 1, prev.len() as int),
            ));
        }
    }
    Ok(out_vec)
}

/// Decodes the COBS/R data `in_buf` into `out_buf`, and returns the part of `out_buf` that
/// holds the decoded data.
///
/// Decoding stops at the first zero byte (`ZeroInEncodedData`); but where the bytes decoded up
/// to that point do not fit into `out_buf`, the error is `OutputBufferTooSmall`. A final block
/// that is cut short by the end of the input ends with its own length code as data.
pub fn decode_array<'a>(out_buf: &'a mut [u8], in_buf: &[u8]) -> (r: Result<&'a [u8]>)
    ensures
        final(out_buf)@.len() == old(out_buf)@.len(),
        r is Ok ==> final(out_buf)@.subrange(0, r->Ok_0@.len() as int) == r->Ok_0@,
        r is Ok ==> final(out_buf)@.subrange(r->Ok_0@.len() as int, final(out_buf)@.len() as int)
            == old(out_buf)@.subrange(r->Ok_0@.len() as int, old(out_buf)@.len() as int),
        cobsr_decode(in_buf@).0.len() > old(out_buf)@.len() ==> r == Err::<&[u8], Error>(
            Error::OutputBufferTooSmall,
        ),
        cobsr_decode(in_buf@).0.len() <= old(out_buf)@.len() && cobsr_decode(in_buf@).1 is Some
            ==> r == Err::<&[u8], Error>(cobsr_decode(in_buf@).1->0),
        cobsr_decode(in_buf@).0.len() <= old(out_buf)@.len() && cobsr_decode(in_buf@).1 is None
            ==> r is Ok && r->Ok_0@ == cobsr_decode(in_buf@).0,
{
    let ghost e = in_buf@;
    let mut code_i: usize = 0;
    let mut out_i: usize = 0;

    if in_buf.len() > 0 {
        proof {
            assert(e.subrange(0, 0) =~= Seq::<u8>::empty());
            assert(out_buf@.subrange(0, 0) =~= Seq::<u8>::empty());
        }
        loop
            invariant
                e == in_buf@,
                out_buf@.len() == old(out_buf)@.len(),
                code_i < in_buf.len(),
                out_i <= out_buf@.len(),
                forall|j: int|
                    out_i <= j < out_buf@.len() ==> #[trigger] out_buf@[j] == old(out_buf)@[j],
                dec_state(e.subrange(0, code_i as int)).err is None,
                dec_state(e.subrange(0, code_i as int)).left == 0,
                out_buf@.subrange(0, out_i as int) == dec_state(e.subrange(0, code_i as int)).out
                    + implied_zero(dec_state(e.subrange(0, code_i as int)).code),
            decreases in_buf.len() - code_i,
        {
            let code = in_buf[code_i];
            proof {
                lemma_dec_state_prefix(e, code_i as int);
            }
            if code == 0 {
                proof {
                    lemma_dec_prefix_bounds(e, code_i + 1);
                }
                return Err(Error::ZeroInEncodedData);
            }
            let mut k: usize = 1;
            while k < code as usize
                invariant
                    e == in_buf@,
                    out_buf@.len() == old(out_buf)@.len(),
                    code_i < in_buf.len(),
                    out_i <= out_buf@.len(),
                    forall|j: int|
                        out_i <= j < out_buf@.len() ==> #[trigger] out_buf@[j] == old(out_buf)@[j],
                    code == e[code_i as int],
                    1 <= k <= code,
                    code_i + k <= in_buf.len(),
                    dec_state(e.subrange(0, code_i + k)) == (DecState {
                        out: out_buf@.subrange(0, out_i as int),
                        code: code,
                        left: (code - k) as nat,
                        err: None,
                    }),
                decreases code - k,
            {
                if k >= in_buf.len() - code_i {
                    // The length code claims more bytes than remain: it is the last data byte.
                    proof {
                        assert(e.subrange(0, code_i + k) =~= e);
                    }
                    if out_i >= out_buf.len() {
                        return Err(Error::OutputBufferTooSmall);
                    }
                    let ghost prev = out_buf@;
                    out_buf[out_i] = code;
                    proof {
                        assert(out_buf@.subrange(0, out_i + 1) =~= prev.subrange(
                            0,
                            out_i as int,
                        ).push(code));
                    }
                    out_i += 1;
                    return Ok(&out_buf[0..out_i]);
                }
                let in_i = code_i + k;
                let in_byte = in_buf[in_i];
                proof {
                    lemma_dec_state_prefix(e, in_i as int);
                    lemma_dec_prefix_bounds(e, in_i + 1);
                }
                if in_byte == 0 {
                    return Err(Error::ZeroInEncodedData);
                }
                if out_i >= out_buf.len() {
                    return Err(Error::OutputBufferTooSmall);
                }
                let ghost prev = out_buf@;
                out_buf[out_i] = in_byte;
                proof {
                    assert(out_buf@.subrange(0, out_i + 1) =~= prev.subrange(0, out_i as int).push(
                        in_byte,
                    ));
                }
                out_i += 1;
                k += 1;
            }
            if code as usize >= in_buf.len() - code_i {
                // The block ends the input: no zero follows it.
                proof {
                    assert(e.subrange(0, code_i + k) =~= e);
                }
                return Ok(&out_buf[0..out_i]);
            }
            code_i += code as usize;
            proof {
                lemma_dec_state_prefix(e, code_i as int);
                lemma_dec_prefix_bounds(e, code_i + 1);
            }
            if code < 0xFF {
                // The zero that separates this block from the next.
                if out_i >= out_buf.len() {
                    return Err(Error::OutputBufferTooSmall);
                }
                let ghost prev = out_buf@;
                out_buf[out_i] = 0;
                proof {
                    assert(out_buf@.subrange(0, out_i + 1) =~= prev.subrange(0, out_i as int).push(
                        0,
                    ));
                }
                out_i += 1;
            } else {
                proof {
                    assert(out_buf@.subrange(0, out_i as int) =~= dec_state(
                        e.subrange(0, code_i as int),
                    ).out + implied_zero(255));
                }
            }
        }
    }
    proof {
        assert(e =~= Seq::<u8>::empty());
        assert(out_buf@.subrange(0, 0) =~= Seq::<u8>::empty());
    }
    Ok(&out_buf[0..out_i])
}

/// Decodes the COBS/R data `in_buf` into a new vector.
///
/// Decoding stops at the first zero byte (`ZeroInEncodedData`). A final block that is cut short
/// by the end of the input ends with its own length code as data.
pub fn decode_vector(in_buf: &[u8]) -> (r: Result<Vec<u8>>)
    ensures
        cobsr_decode(in_buf@).1 is Some ==> r == Err::<Vec<u8>, Error>(cobsr_decode(in_buf@).1->0),
        cobsr_decode(in_buf@).1 is None ==> r is Ok && r->Ok_0@ == cobsr_decode(in_buf@).0,
{
    let ghost e = in_buf@;
    let mut code_i: usize = 0;
    let mut out_vec: Vec<u8> = Vec::with_capacity(decode_max_output_size(in_buf.len()));

    if in_buf.len() > 0 {
        proof {
            assert(e.subrange(0, 0) =~= Seq::<u8>::empty());
            assert(out_vec@ =~= Seq::<u8>::empty());
        }
        loop
            invariant
                e == in_buf@,
                code_i < in_buf.len(),
                dec_state(e.subrange(0, code_i as int)).err is None,
                dec_state(e.subrange(0, code_i as int)).left == 0,
                out_vec@ == dec_state(e.subrange(0, code_i as int)).out + implied_zero(
                    dec_state(e.subrange(0, code_i as int)).code,
                ),
            decreases in_buf.len() - code_i,
        {
            let code = in_buf[code_i];
            proof {
                lemma_dec_state_prefix(e, code_i as int);
            }
            if code == 0 {
                proof {
                    lemma_dec_prefix_bounds(e, code_i + 1);
                }
                return Err(Error::ZeroInEncodedData);
            }
            let mut k: usize = 1;
            while k < code as usize
                invariant
                    e == in_buf@,
                    code_i < in_buf.len(),
                    code == e[code_i as int],
                    1 <= k <= code,
                    code_i + k <= in_buf.len(),
                    dec_state(e.subrange(0, code_i + k)) == (DecState {
                        out: out_vec@,
                        code: code,
                        left: (code - k) as nat,
                        err: None,
                    }),
                decreases code - k,
            {
                if k >= in_buf.len() - code_i {
                    // The length code claims more bytes than remain: it is the last data byte.
                    proof {
                        assert(e.subrange(0, code_i + k) =~= e);
                    }
                    out_vec.push(code);
                    return Ok(out_vec);
                }
                let in_i = code_i + k;
                let in_byte = in_buf[in_i];
                proof {
                    lemma_dec_state_prefix(e, in_i as int);
                    lemma_dec_prefix_bounds(e, in_i + 1);
                }
                if in_byte == 0 {
                    return Err(Error::ZeroInEncodedData);
                }
                out_vec.push(in_byte);
                k += 1;
            }
            if code as usize >= in_buf.len() - code_i {
                // The block ends the input: no zero follows it.
                proof {
                    assert(e.subrange(0, code_i + k) =~= e);
                }
                return Ok(out_vec);
            }
            code_i += code as usize;
            if code < 0xFF {
                // The zero that separates this block from the next.
                out_vec.push(0);
            } else {
                proof {
                    assert(out_vec@ =~= dec_state(e.subrange(0, code_i as int)).out + implied_zero(
                        255,
                    ));
                }
            }
        }
    }
    proof {
        assert(e =~= Seq::<u8>::empty());
        assert(out_vec@ =~= Seq::<u8>::empty());
    }
    Ok(out_vec)
}

/// A lazy COBS/R encoder: it pulls input bytes from a source as its output bytes are asked for.
///
/// As in COBS, a run waits in a hold buffer until it ends. When a run reaches 254 bytes, the
/// encoder looks one byte ahead: where the input ends there and the run's last byte is `0xFF`,
/// that byte serves as the final length code.
pub struct EncodeIterator<S> {
    in_iter: S,
    in_lookahead: Option<Option<u8>>,
    eof: bool,
    last_run_0xff: bool,
    hold_write_i: u8,
    hold_read_i: u8,
    hold_buf: [u8; 255],
    consumed: Ghost<Seq<u8>>,
    produced: Ghost<Seq<u8>>,
    returned: Ghost<Seq<Option<u8>>>,
}

impl<S: ByteSource> EncodeIterator<S> {
    /// The bytes pulled from the source so far.
    pub closed spec fn input(&self) -> Seq<u8> {
        match self.in_lookahead {
            Some(Some(b)) => self.consumed@.push(b),
            _ => self.consumed@,
        }
    }

    /// The bytes given out so far.
    pub closed spec fn output(&self) -> Seq<u8> {
        self.produced@
    }

    /// The source has reported its end.
    pub closed spec fn ended(&self) -> bool {
        self.eof
    }

    /// Everything the source has given so far.
    pub closed spec fn pulled(&self) -> Seq<Option<u8>> {
        self.in_iter.given()
    }

    /// The bytes given out and the bytes held are the encoding of the bytes taken in, as far
    /// as the input decides it; a byte looked ahead at waits after a run of 254 bytes.
    closed spec fn inv(&self) -> bool {
        let s = enc_state(self.consumed@);
        let pending = self.produced@ + self.hold_buf@.subrange(
            self.hold_read_i as int,
            self.hold_write_i as int,
        );
        &&& self.in_iter.ready()
        &&& self.in_iter.given() == given_bytes(self.input(), self.eof)
        &&& self.hold_read_i <= self.hold_write_i <= 254
        &&& forall|i: int| 0 <= i < self.hold_write_i ==> #[trigger] self.hold_buf@[i] != 0
        &&& self.eof ==> pending == cobsr_encode(self.consumed@) && (self.in_lookahead is None
            || self.in_lookahead == Some(None::<u8>))
        &&& !self.eof && self.last_run_0xff ==> {
            &&& self.hold_write_i == 254
            &&& s.run.len() == 254
            &&& self.hold_buf@.subrange(0, 254) == s.run
            &&& pending == s.out + block(s.run)
            &&& self.in_lookahead matches Some(Some(_))
        }
        &&& !self.eof && !self.last_run_0xff ==> s.run.len() == 0 && pending == s.out
            && self.in_lookahead is None
    }

    /// A lazy encoder of the bytes of `in_iter`, a source that has given nothing yet.
    pub fn new(in_iter: S) -> (r: Self)
        requires
            in_iter.given().len() == 0,
            in_iter.ready(),
        ensures
            r.wf(),
            r.input() == Seq::<u8>::empty(),
            r.output() == Seq::<u8>::empty(),
            !r.ended(),
    {
        let r = EncodeIterator {
            in_iter,
            in_lookahead: None,
            eof: false,
            last_run_0xff: false,
            hold_write_i: 0,
            hold_read_i: 0,
            hold_buf: [1; 255],
            consumed: Ghost(Seq::empty()),
            produced: Ghost(Seq::empty()),
            returned: Ghost(Seq::empty()),
        };
        proof {
            assert(r.hold_buf@.subrange(0, 0) =~= Seq::<u8>::empty());
            assert(r.produced@ + r.hold_buf@.subrange(0, 0) =~= Seq::<u8>::empty());
            assert(given_bytes(Seq::empty(), false) =~= r.in_iter.given());
            assert(r.returned@.subrange(0, 0) =~= given_bytes(r.produced@, false));
        }
        r
    }

    /// While the source has not ended, the bytes given out begin the COBS/R encoding of the
    /// input, whatever the source gives next.
    pub proof fn lemma_output_begins_encoding(&self, rest: Seq<u8>)
        requires
            self.wf(),
            !self.ended(),
        ensures
            self.output().is_prefix_of(cobsr_encode(self.input() + rest)),
    {
        let x = self.consumed@;
        let more = match self.in_lookahead {
            Some(Some(b)) => seq![b] + rest,
            _ => rest,
        };
        let z = x + more;
        assert(self.input() + rest =~= z);
        lemma_enc_committed(x, more);
        let pending = self.produced@ + self.hold_buf@.subrange(
            self.hold_read_i as int,
            self.hold_write_i as int,
        );
        let n = self.produced@.len() as int;
        assert(pending.is_prefix_of(cobsr_encode(z)));
        assert(pending.subrange(0, n) =~= self.produced@);
        assert(cobsr_encode(z).subrange(0, n) =~= pending.subrange(0, n));
    }

    /// One step of the encoder: the next byte of the encoding, or `None` at its end.
    fn step(&mut self) -> (r: Option<u8>)
        requires
            old(self).inv(),
        ensures
            final(self).inv(),
            final(self).returned@ == old(self).returned@,
            final(self).pulled() == given_bytes(final(self).input(), final(self).ended()),
            old(self).input().is_prefix_of(final(self).input()),
            old(self).ended() ==> final(self).ended() && final(self).input()
                == old(self).input(),
            r is Some ==> final(self).output() == old(self).output().push(r->0),
            r is None ==> final(self).output() == old(self).output() && final(self).ended(),
            r is None ==> final(self).output() == cobsr_encode(final(self).input()),
            old(self).ended() && old(self).output() == cobsr_encode(old(self).input()) ==> r is None,
            final(self).input().len() <= old(self).input().len() + 255,
            r is Some ==> r->0 != 0,
    {
        let mut last_byte: u8 = 0;
        let ghost x0 = self.input();
        proof {
            if self.eof && self.produced@ == cobsr_encode(self.consumed@) {
                let pending = self.produced@ + self.hold_buf@.subrange(
                    self.hold_read_i as int,
                    self.hold_write_i as int,
                );
                assert(pending.len() == self.produced@.len());
            }
        }
        if self.hold_write_i != 0 {
            if self.hold_read_i < self.hold_write_i {
                let byte_val = self.hold_buf[self.hold_read_i as usize];
                let ghost pending = self.hold_buf@.subrange(
                    self.hold_read_i as int,
                    self.hold_write_i as int,
                );
                self.hold_read_i += 1;
                self.produced = Ghost(self.produced@.push(byte_val));
                proof {
                    assert(self.produced@ + self.hold_buf@.subrange(
                        self.hold_read_i as int,
                        self.hold_write_i as int,
                    ) =~= old(self).produced@ + pending);
                }
                return Some(byte_val);
            } else {
                proof {
                    assert(self.hold_buf@.subrange(
                        self.hold_read_i as int,
                        self.hold_write_i as int,
                    ) =~= Seq::<u8>::empty());
                    assert(self.produced@ + Seq::<u8>::empty() =~= self.produced@);
                }
                self.hold_read_i = 0;
                self.hold_write_i = 0;
            }
        }
        proof {
            assert(self.hold_buf@.subrange(
                self.hold_read_i as int,
                self.hold_write_i as int,
            ) =~= self.hold_buf@.subrange(0, self.hold_write_i as int));
            assert(self.produced@ + self.hold_buf@.subrange(0, self.hold_write_i as int)
                =~= self.produced@) by {
                if self.hold_write_i == 0 {
                    assert(self.hold_buf@.subrange(0, 0) =~= Seq::<u8>::empty());
                }
            }
        }
        if self.eof {
            return None;
        }
        loop
            invariant
                !self.eof,
                !old(self).eof,
                self.hold_read_i == 0,
                self.in_iter.ready(),
                self.returned@ == old(self).returned@,
                self.hold_write_i <= 254,
                self.produced@ == old(self).produced@,
                x0 == old(self).input(),
                x0.is_prefix_of(self.input()),
                self.input().len() <= x0.len() + self.hold_write_i,
                forall|i: int| 0 <= i < self.hold_write_i ==> #[trigger] self.hold_buf@[i] != 0,
                self.in_iter.given() == given_bytes(self.input(), false),
                self.hold_write_i > 0 ==> last_byte == self.hold_buf@[self.hold_write_i - 1],
                self.last_run_0xff ==> self.hold_write_i == 0 && enc_state(self.consumed@).run.len()
                    == 254 && self.produced@ == enc_state(self.consumed@).out + block(
                    enc_state(self.consumed@).run,
                ) && self.in_lookahead matches Some(Some(_)),
                !self.last_run_0xff ==> self.hold_buf@.subrange(0, self.hold_write_i as int)
                    == enc_state(self.consumed@).run && self.produced@ == enc_state(
                    self.consumed@,
                ).out && self.in_lookahead is None,
            decreases 255 - self.hold_write_i + (if self.last_run_0xff {
                1int
            } else {
                0
            }),
        {
            let ghost x = self.consumed@;
            let ghost s = enc_state(x);
            proof {
                lemma_enc_facts(x);
            }
            if self.hold_write_i == 0xFE {
                self.last_run_0xff = true;
                let in_iter_next = self.in_iter.next_byte();
                if in_iter_next.is_none() {
                    self.eof = true;
                    if last_byte >= 0xFF {
                        self.hold_write_i -= 1;
                    }
                }
                self.in_lookahead = Some(in_iter_next);
                self.produced = Ghost(self.produced@.push(0xFF));
                proof {
                    assert(s.run.last() == s.run[253]);
                    if self.eof {
                        assert(self.in_iter.given() =~= given_bytes(self.input(), true));
                        if last_byte >= 0xFF {
                            assert(self.produced@ + self.hold_buf@.subrange(0, 253) =~= s.out
                                + seq![s.run.last()] + s.run.drop_last());
                        } else {
                            assert(self.produced@ + self.hold_buf@.subrange(0, 254) =~= s.out
                                + block(s.run));
                        }
                    } else {
                        assert(self.in_iter.given() =~= given_bytes(self.input(), false));
                        assert(self.produced@ + self.hold_buf@.subrange(0, 254) =~= s.out + block(
                            s.run,
                        ));
                        assert(x0.is_prefix_of(self.input()));
                    }
                }
                return Some(0xFF);
            } else {
                let in_iter_next = match self.in_lookahead.take() {
                    Some(ahead) => ahead,
                    None => self.in_iter.next_byte(),
                };
                let byte_val = match in_iter_next {
                    Some(b) => b,
                    None => {
                        self.eof = true;
                        0
                    },
                };
                if !self.eof {
                    self.consumed = Ghost(x.push(byte_val));
                    proof {
                        assert(self.consumed@.drop_last() =~= x);
                        assert(x0.is_prefix_of(self.input()));
                        assert(self.in_iter.given() =~= given_bytes(self.input(), false));
                    }
                } else {
                    proof {
                        assert(self.in_iter.given() =~= given_bytes(self.input(), true));
                    }
                }
                let ghost x1 = self.consumed@;
                let ghost s1 = enc_state(x1);
                if self.last_run_0xff {
                    self.last_run_0xff = false;
                    if self.eof {
                        return None;
                    }
                }
                if byte_val == 0 {
                    let run_len = self.hold_write_i + 1;
                    let ghost w0 = self.hold_write_i;
                    let count_byte = if self.eof && self.hold_write_i > 0 && last_byte >= run_len {
                        // The last data byte serves as the final length code.
                        self.hold_write_i -= 1;
                        last_byte
                    } else {
                        run_len
                    };
                    self.produced = Ghost(self.produced@.push(count_byte));
                    proof {
                        if self.eof {
                            if w0 > 0 && last_byte >= run_len {
                                assert(s.run.last() == s.run[s.run.len() - 1]);
                                assert(self.produced@ + self.hold_buf@.subrange(
                                    0,
                                    self.hold_write_i as int,
                                ) =~= s.out + seq![s.run.last()] + s.run.drop_last());
                            } else {
                                assert(self.produced@ + self.hold_buf@.subrange(
                                    0,
                                    self.hold_write_i as int,
                                ) =~= cobs_encode(x1));
                            }
                        } else {
                            assert(self.produced@ + self.hold_buf@.subrange(
                                0,
                                self.hold_write_i as int,
                            ) =~= s1.out);
                        }
                    }
                    return Some(count_byte);
                } else {
                    last_byte = byte_val;
                    let ghost prev = self.hold_buf@;
                    self.hold_buf[self.hold_write_i as usize] = byte_val;
                    proof {
                        assert(self.hold_buf@.subrange(0, self.hold_write_i + 1) =~= (if s.run.len()
                            >= 254 {
                            Seq::<u8>::empty()
                        } else {
                            prev.subrange(0, self.hold_write_i as int)
                        }).push(byte_val));
                    }
                    self.hold_write_i += 1;
                }
            }
        }
    }

    /// Everything this encoder has given out, `None` included, in order.
    pub closed spec fn yielded(&self) -> Seq<Option<u8>> {
        self.returned@
    }

    /// The encoder's state is consistent, and it has given out its output bytes, followed by
    /// `None` only once the output is complete.
    pub closed spec fn wf(&self) -> bool {
        let y = self.returned@;
        let p = self.produced@;
        &&& self.inv()
        &&& zero_free(p)
        &&& y.len() >= p.len()
        &&& y.subrange(0, p.len() as int) == given_bytes(p, false)
        &&& forall|i: int| p.len() <= i < y.len() ==> #[trigger] y[i] is None
        &&& y.len() > p.len() ==> self.eof && p == cobsr_encode(self.input())
    }

    /// The next byte of the encoding, or `None` at its end.
    ///
    /// Once the source has ended and every byte has been given out, the output is exactly the
    /// COBS/R encoding of the bytes that the source gave; every later call gives `None` again.
    /// One call pulls at most 255 bytes from the source.
    pub fn next(&mut self) -> (r: Option<u8>)
        requires
            old(self).wf(),
        ensures
            final(self).wf(),
            final(self).pulled() == given_bytes(final(self).input(), final(self).ended()),
            old(self).input().is_prefix_of(final(self).input()),
            old(self).ended() ==> final(self).ended() && final(self).input()
                == old(self).input(),
            r is Some ==> final(self).output() == old(self).output().push(r->0),
            r is None ==> final(self).output() == old(self).output() && final(self).ended(),
            r is None ==> final(self).output() == cobsr_encode(final(self).input()),
            old(self).ended() && old(self).output() == cobsr_encode(old(self).input()) ==> r is None,
            final(self).input().len() <= old(self).input().len() + 255,
            r is Some ==> r->0 != 0,
            final(self).yielded() == old(self).yielded().push(r),
            zero_free(final(self).output()),
    {
        let r = self.step();
        self.returned = Ghost(self.returned@.push(r));
        proof {
            let y = self.returned@;
            let p = self.produced@;
            let y0 = old(self).returned@;
            let p0 = old(self).produced@;
            assert(given_bytes(p, false) =~= p.map_values(|b: u8| Some(b)));
            assert(given_bytes(p0, false) =~= p0.map_values(|b: u8| Some(b)));
            if r is Some {
                assert(y0.len() == p0.len());
            }
            assert(y.len() >= p.len());
            assert forall|i: int| 0 <= i < p.len() implies #[trigger] y[i] == Some(p[i]) by {
                if i < p0.len() {
                    assert(y0.subrange(0, p0.len() as int)[i] == y0[i]);
                    assert(given_bytes(p0, false)[i] == Some(p0[i]));
                    assert(y[i] == y0[i]);
                    assert(p[i] == p0[i]);
                } else {
                    assert(y[i] == r);
                }
            }
            assert(y.subrange(0, p.len() as int) =~= given_bytes(p, false));
            assert forall|i: int| 0 <= i < p.len() implies #[trigger] p[i] != 0 by {
                if i < old(self).produced@.len() {
                    assert(p[i] == old(self).produced@[i]);
                }
            }
        }
        r
    }
}

impl<S: ByteSource> ByteSource for EncodeIterator<S> {
    closed spec fn given(&self) -> Seq<Option<u8>> {
        self.returned@
    }

    closed spec fn ready(&self) -> bool {
        self.wf()
    }

    fn next_byte(&mut self) -> (r: Option<u8>) {
        self.next()
    }
}

/// Encodes lazily, as COBS/R, the bytes that `i` yields.
pub fn encode_iter<I: Iterator<Item = u8>>(i: I) -> (r: EncodeIterator<ByteIter<I>>)
    ensures
        r.wf(),
        r.pulled().len() == 0,
        r.input().len() == 0,
        r.output().len() == 0,
        !r.ended(),
{
    EncodeIterator::new(ByteIter::new(i))
}

/// Encodes lazily, as COBS/R, the bytes that `i` refers to.
pub fn encode_ref_iter<'a, I: Iterator<Item = &'a u8>>(i: I) -> (r: EncodeIterator<ByteRefIter<I>>)
    ensures
        r.wf(),
        r.pulled().len() == 0,
        r.input().len() == 0,
        r.output().len() == 0,
        !r.ended(),
{
    EncodeIterator::new(ByteRefIter::new(i))
}

/// A lazy, best-effort COBS/R decoder: it pulls encoded bytes from a source as its output
/// bytes are asked for.
///
/// A zero byte or the end of the source ends the frame. Where the frame ends inside a block,
/// the block's length code is given out as the last byte, and `None` follows it; otherwise the
/// frame's end gives `None` at once. The state carries over a `None`, so that pulling again goes
/// on with what the source gives next.
pub struct DecodeIterator<S> {
    in_iter: S,
    eof: bool,
    last_run: u8,
    count_run: u8,
    frame_bytes: Ghost<Seq<u8>>,
    frame_ended: Ghost<bool>,
    produced: Ghost<Seq<u8>>,
}

impl<S: ByteSource> DecodeIterator<S> {
    /// The bytes given out so far.
    pub closed spec fn output(&self) -> Seq<u8> {
        self.produced@
    }

    /// Everything the source has given so far.
    pub closed spec fn pulled(&self) -> Seq<Option<u8>> {
        self.in_iter.given()
    }

    /// The bytes of the first frame pulled so far: those before the first zero byte or end.
    pub closed spec fn frame(&self) -> Seq<u8> {
        self.frame_bytes@
    }

    /// The source has given a zero byte or its end: the first frame is complete.
    pub closed spec fn frame_ended(&self) -> bool {
        self.frame_ended@
    }

    /// A frame has just ended inside a block, and its length code has been given out as the
    /// last byte: the next call gives `None`.
    pub closed spec fn closing(&self) -> bool {
        self.eof
    }

    /// Within the first frame, the bytes given out are the decoding of the bytes pulled.
    pub closed spec fn wf(&self) -> bool {
        let g = self.in_iter.given();
        let f = self.frame_bytes@;
        &&& self.in_iter.ready()
        &&& zero_free(f)
        &&& !self.frame_ended@ ==> {
            &&& g == given_bytes(f, false)
            &&& !self.eof
            &&& dec_state(f) == (DecState {
                out: self.produced@,
                code: self.last_run,
                left: self.count_run as nat,
                err: None,
            })
        }
        &&& self.frame_ended@ ==> {
            &&& given_bytes(f, false).is_prefix_of(g)
            &&& g.len() > f.len()
            &&& (g[f.len() as int] is None || g[f.len() as int] == Some(0u8))
        }
    }

    /// A lazy decoder of the bytes of `in_iter`, a source that has given nothing yet.
    pub fn new(in_iter: S) -> (r: Self)
        requires
            in_iter.given().len() == 0,
            in_iter.ready(),
        ensures
            r.wf(),
            r.pulled().len() == 0,
            r.frame().len() == 0,
            r.output().len() == 0,
            !r.frame_ended(),
    {
        let r = DecodeIterator {
            in_iter,
            eof: false,
            last_run: 0,
            count_run: 0,
            frame_bytes: Ghost(Seq::empty()),
            frame_ended: Ghost(false),
            produced: Ghost(Seq::empty()),
        };
        proof {
            assert(dec_state(Seq::empty()) == dec_start());
            assert(given_bytes(Seq::empty(), false) =~= r.in_iter.given());
        }
        r
    }

    /// The next decoded byte, or `None` at the end of a frame.
    ///
    /// Within the first frame, the bytes given out are the decoding of the bytes pulled; once
    /// that frame has ended, they are its COBS/R decoding.
    pub fn next(&mut self) -> (r: Option<u8>)
        requires
            old(self).wf(),
        ensures
            final(self).wf(),
            old(self).pulled().is_prefix_of(final(self).pulled()),
            old(self).frame().is_prefix_of(final(self).frame()),
            old(self).frame_ended() ==> final(self).frame_ended() && final(self).frame()
                == old(self).frame(),
            !final(self).frame_ended() ==> final(self).pulled() == given_bytes(
                final(self).frame(),
                false,
            ) && final(self).output() == dec_state(final(self).frame()).out,
            final(self).frame_ended() ==> given_bytes(final(self).frame(), false).is_prefix_of(
                final(self).pulled(),
            ) && (final(self).pulled()[final(self).frame().len() as int] is None
                || final(self).pulled()[final(self).frame().len() as int] == Some(0u8)),
            !old(self).frame_ended() && final(self).frame_ended() ==> final(self).output()
                == cobsr_decode(final(self).frame()).0,
            !old(self).frame_ended() && r is None ==> final(self).frame_ended(),
            r is Some ==> final(self).output() == old(self).output().push(r->0),
            r is None ==> final(self).output() == old(self).output(),
            old(self).closing() ==> r is None && final(self).pulled() == old(self).pulled(),
            !old(self).closing() && r is Some ==> (final(self).closing() <==> (
            final(self).pulled().last() is None || final(self).pulled().last() == Some(0u8))),
            r is None ==> !final(self).closing(),
    {
        loop
            invariant
                self.wf(),
                self.produced@ == old(self).produced@,
                old(self).in_iter.given().is_prefix_of(self.in_iter.given()),
                old(self).frame_bytes@.is_prefix_of(self.frame_bytes@),
                old(self).frame_ended@ ==> self.frame_ended@ && self.frame_bytes@
                    == old(self).frame_bytes@,
                self.frame_ended@ == old(self).frame_ended@,
                self.eof ==> old(self).eof && self.in_iter.given() == old(self).in_iter.given(),
                old(self).eof ==> self.eof,
            decreases (if self.eof {
                2int
            } else if self.count_run == 0 && (self.last_run == 0 || self.last_run == 0xFF) {
                1int
            } else {
                0
            }),
        {
            if self.eof {
                self.eof = false;
                return None;
            }
            let ghost g = self.in_iter.given();
            let ghost f = self.frame_bytes@;
            let in_iter_next = self.in_iter.next_byte();
            let byte_val = match in_iter_next {
                Some(b) => b,
                None => 0,
            };
            proof {
                assert(self.in_iter.given().drop_last() =~= g);
                assert(old(self).in_iter.given().is_prefix_of(self.in_iter.given()));
                if self.frame_ended@ {
                    assert(given_bytes(f, false).is_prefix_of(self.in_iter.given()));
                    assert(self.in_iter.given()[f.len() as int] == g[f.len() as int]);
                }
            }
            if byte_val == 0 {
                proof {
                    if !self.frame_ended@ {
                        self.frame_ended@ = true;
                        assert(given_bytes(f, false).is_prefix_of(self.in_iter.given()));
                    }
                }
                if self.count_run != 0 {
                    self.eof = true;
                    self.produced = Ghost(self.produced@.push(self.last_run));
                    return Some(self.last_run);
                } else {
                    return None;
                }
            }
            proof {
                if !self.frame_ended@ {
                    self.frame_bytes@ = f.push(byte_val);
                    let nf = self.frame_bytes@;
                    assert(nf.drop_last() =~= f);
                    assert(dec_state(nf) == dec_step(dec_state(f), byte_val));
                    assert(self.in_iter.given() =~= given_bytes(nf, false));
                    assert(zero_free(nf)) by {
                        assert forall|i: int| 0 <= i < nf.len() implies #[trigger] nf[i] != 0 by {
                            if i < f.len() {
                                assert(nf[i] == f[i]);
                            }
                        }
                    }
                    assert(old(self).frame_bytes@.is_prefix_of(nf));
                }
            }
            if self.count_run == 0 {
                let last_run = self.last_run;
                self.last_run = byte_val;
                self.count_run = byte_val - 1;
                if last_run != 0 && last_run != 0xFF {
                    self.produced = Ghost(self.produced@.push(0));
                    proof {
                        assert(self.produced@ =~= old(self).produced@ + implied_zero(last_run));
                    }
                    return Some(0);
                }
                proof {
                    assert(self.produced@ =~= old(self).produced@ + implied_zero(last_run));
                }
            } else {
                self.count_run -= 1;
                self.produced = Ghost(self.produced@.push(byte_val));
                return Some(byte_val);
            }
        }
    }
}

impl<S: ByteSource> DecodeIterator<EncodeIterator<S>> {
    /// The lazy encoder that this decoder pulls from.
    pub closed spec fn encoder(&self) -> EncodeIterator<S> {
        self.in_iter
    }

    /// Lazy round trip: a decoder that pulls from a lazy encoder finds, once its frame has
    /// ended, a frame that decodes without error to exactly the bytes that the encoder took in.
    pub proof fn lemma_lazy_round_trip(&self)
        requires
            self.wf(),
            self.frame_ended(),
        ensures
            cobsr_decode(self.frame()) == (self.encoder().input(), None::<Error>),
    {
        let enc = self.in_iter;
        let y = enc.returned@;
        let p = enc.produced@;
        let f = self.frame_bytes@;
        assert(given_bytes(f, false) =~= f.map_values(|b: u8| Some(b)));
        assert(given_bytes(p, false) =~= p.map_values(|b: u8| Some(b)));
        assert forall|i: int| 0 <= i < f.len() implies #[trigger] y[i] == Some(f[i]) by {
            assert(y.subrange(0, f.len() as int)[i] == y[i]);
        }
        assert forall|i: int| 0 <= i < p.len() implies #[trigger] y[i] == Some(p[i]) by {
            assert(y.subrange(0, p.len() as int)[i] == y[i]);
        }
        assert(f.len() <= p.len()) by {
            if f.len() > p.len() {
                assert(y[p.len() as int] is None);
                assert(y[p.len() as int] == Some(f[p.len() as int]));
            }
        }
        assert(f.len() == p.len()) by {
            if f.len() < p.len() {
                assert(y[f.len() as int] == Some(p[f.len() as int]));
                assert(p[f.len() as int] != 0);
            }
        }
        assert(f =~= p) by {
            assert forall|i: int| 0 <= i < f.len() implies f[i] == p[i] by {
                assert(y[i] == Some(f[i]));
                assert(y[i] == Some(p[i]));
            }
        }
        lemma_cobsr_round_trip(enc.input());
    }
}

/// Decodes lazily, best-effort, the COBS/R data that `i` refers to.
pub fn decode_ref_iter<'a, I: Iterator<Item = &'a u8>>(i: I) -> (r: DecodeIterator<ByteRefIter<I>>)
    ensures
        r.wf(),
        r.pulled().len() == 0,
        r.frame().len() == 0,
        r.output().len() == 0,
        !r.frame_ended(),
{
    DecodeIterator::new(ByteRefIter::new(i))
}

/// Decodes lazily, best-effort, the COBS/R data that `i` yields.
pub fn decode_iter<I: Iterator<Item = u8>>(i: I) -> (r: DecodeIterator<ByteIter<I>>)
    ensures
        r.wf(),
        r.pulled().len() == 0,
        r.frame().len() == 0,
        r.output().len() == 0,
        !r.frame_ended(),
{
    DecodeIterator::new(ByteIter::new(i))
}

/// Encodes as COBS/R all the bytes that remain in `input`, and appends the encoding to
/// `output`. Like a reader read to its end, `input` is left empty.
pub fn encode_stream(input: &mut &[u8], output: &mut Vec<u8>) -> (r: Result<()>)
    ensures
        r is Ok,
        final(output)@ == old(output)@ + cobsr_encode(old(input)@),
        final(input)@.len() == 0,
{
    let data: &[u8] = *input;
    let encoded = match encode_vector(data) {
        Ok(v) => v,
        Err(e) => return Err(e),
    };
    let mut i: usize = 0;
    while i < encoded.len()
        invariant
            i <= encoded@.len(),
            output@ == old(output)@ + encoded@.subrange(0, i as int),
        decreases encoded@.len() - i,
    {
        output.push(encoded[i]);
        i += 1;
        proof {
            assert(output@ =~= old(output)@ + encoded@.subrange(0, i as int));
        }
    }
    proof {
        assert(encoded@.subrange(0, i as int) =~= encoded@);
    }
    *input = &data[data.len()..data.len()];
    Ok(())
}

} // verus!

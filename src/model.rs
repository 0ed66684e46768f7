//! The mathematical model of both codecs, and the laws that hold of it.
//!
//! Encoding is a left fold over the input bytes. Its state holds the finished part of the
//! output and the open run: the non-zero bytes seen since the last length code. A zero byte
//! closes the run with its length code; a run that has reached 254 bytes is closed with the
//! code `0xFF` when one more byte arrives. At the end the open run is closed as well.
//!
//! Decoding is a left fold over the encoded bytes too, which stops at the first error.

use vstd::prelude::*;

use crate::Error;

verus! {

/// The largest value of `usize`, as an integer.
pub open spec fn usize_max() -> int {
    usize::MAX as int
}

/// `v`, clamped to the largest value of `usize`.
pub open spec fn saturate(v: int) -> int {
    if v > usize_max() {
        usize_max()
    } else {
        v
    }
}

/// The largest COBS (and COBS/R) encoding of `n` bytes.
pub open spec fn encode_max_size(n: int) -> int {
    if n == 0 {
        1
    } else {
        n + (n + 253) / 254
    }
}

/// The smallest COBS encoding of `n` bytes.
pub open spec fn cobs_encode_min_size(n: int) -> int {
    n + 1
}

/// The smallest COBS/R encoding of `n` bytes.
pub open spec fn cobsr_encode_min_size(n: int) -> int {
    if n == 0 {
        1
    } else {
        n
    }
}

/// The smallest decoding of `n` encoded bytes.
pub open spec fn decode_min_size(n: int) -> int {
    if n >= 1 {
        n - 1 - (n - 1) / 255
    } else {
        0
    }
}

/// The largest COBS decoding of `n` encoded bytes.
pub open spec fn cobs_decode_max_size(n: int) -> int {
    if n > 1 {
        n - 1
    } else {
        0
    }
}

/// The largest COBS/R decoding of `n` encoded bytes.
pub open spec fn cobsr_decode_max_size(n: int) -> int {
    n
}

/// Every byte of `s` is non-zero.
pub open spec fn zero_free(s: Seq<u8>) -> bool {
    forall|i: int| 0 <= i < s.len() ==> #[trigger] s[i] != 0
}

/// The encoded form of a run of non-zero bytes: its length code, then the run.
pub open spec fn block(run: Seq<u8>) -> Seq<u8> {
    seq![(run.len() + 1) as u8] + run
}

/// The encoder's state after a prefix of the input.
pub struct EncState {
    /// The output for the runs that are closed.
    pub out: Seq<u8>,
    /// The non-zero bytes of the open run.
    pub run: Seq<u8>,
}

/// The encoder's state after one more input byte `b`.
pub open spec fn enc_step(s: EncState, b: u8) -> EncState {
    let s1 = if s.run.len() >= 254 {
        EncState { out: s.out + block(s.run), run: seq![] }
    } else {
        s
    };
    if b == 0 {
        EncState { out: s1.out + block(s1.run), run: seq![] }
    } else {
        EncState { out: s1.out, run: s1.run.push(b) }
    }
}

/// The encoder's state after the input `x`.
pub open spec fn enc_state(x: Seq<u8>) -> EncState
    decreases x.len(),
{
    if x.len() == 0 {
        EncState { out: seq![], run: seq![] }
    } else {
        enc_step(enc_state(x.drop_last()), x.last())
    }
}

/// The COBS encoding of `x`.
pub open spec fn cobs_encode(x: Seq<u8>) -> Seq<u8> {
    enc_state(x).out + block(enc_state(x).run)
}

/// The length code that closes the final run of the COBS encoding of `x`.
pub open spec fn final_code(x: Seq<u8>) -> int {
    enc_state(x).run.len() as int + 1
}

/// The final run can be closed by its own last byte: that byte is at least the length code.
pub open spec fn final_byte_elides(run: Seq<u8>) -> bool {
    run.len() > 0 && run.last() as int > run.len()
}

/// The COBS/R encoding of `x`: as COBS, but where the last byte of the final run is at least
/// the run's length code, that byte takes the code's place and leaves the end of the run.
pub open spec fn cobsr_encode(x: Seq<u8>) -> Seq<u8> {
    let s = enc_state(x);
    if final_byte_elides(s.run) {
        s.out + seq![s.run.last()] + s.run.drop_last()
    } else {
        cobs_encode(x)
    }
}

/// The decoder's state after a prefix of the encoded input.
pub struct DecState {
    /// The decoded bytes so far.
    pub out: Seq<u8>,
    /// The length code of the current block (0 before the first).
    pub code: u8,
    /// How many data bytes of the current block are still to come.
    pub left: nat,
    /// The error that stopped decoding, if any.
    pub err: Option<Error>,
}

/// The state before any encoded byte.
pub open spec fn dec_start() -> DecState {
    DecState { out: seq![], code: 0, left: 0, err: None }
}

/// The zero that a finished block with `code` implies, once another block follows it.
pub open spec fn implied_zero(code: u8) -> Seq<u8> {
    if code != 0 && code != 255 {
        seq![0u8]
    } else {
        seq![]
    }
}

/// The decoder's state after one more encoded byte `b`.
pub open spec fn dec_step(s: DecState, b: u8) -> DecState {
    if s.err is Some {
        s
    } else if s.left == 0 {
        let out = s.out + implied_zero(s.code);
        if b == 0 {
            DecState { out, code: s.code, left: 0, err: Some(Error::ZeroInEncodedData) }
        } else {
            DecState { out, code: b, left: (b - 1) as nat, err: None }
        }
    } else if b == 0 {
        DecState { out: s.out, code: s.code, left: s.left, err: Some(Error::ZeroInEncodedData) }
    } else {
        DecState { out: s.out.push(b), code: s.code, left: (s.left - 1) as nat, err: None }
    }
}

/// The decoder's state after the encoded bytes `e`, from the state `s`.
pub open spec fn dec_fold(s: DecState, e: Seq<u8>) -> DecState
    decreases e.len(),
{
    if e.len() == 0 {
        s
    } else {
        dec_step(dec_fold(s, e.drop_last()), e.last())
    }
}

/// The decoder's state after the encoded bytes `e`.
pub open spec fn dec_state(e: Seq<u8>) -> DecState {
    dec_fold(dec_start(), e)
}

/// COBS decoding of `e`: the bytes decoded before decoding stopped, and the error that stopped
/// it, if any. A block cut short by the end of `e` is an error.
pub open spec fn cobs_decode(e: Seq<u8>) -> (Seq<u8>, Option<Error>) {
    let s = dec_state(e);
    if s.err is Some {
        (s.out, s.err)
    } else if s.left > 0 {
        (s.out, Some(Error::TruncatedEncodedData))
    } else {
        (s.out, None)
    }
}

/// COBS/R decoding of `e`: as COBS, but a final block cut short by the end of `e` ends with
/// its own length code as data.
pub open spec fn cobsr_decode(e: Seq<u8>) -> (Seq<u8>, Option<Error>) {
    let s = dec_state(e);
    if s.err is Some {
        (s.out, s.err)
    } else if s.left > 0 {
        (s.out.push(s.code), None)
    } else {
        (s.out, None)
    }
}

// The two folds, one byte at a time.

/// The encoder's state after `i + 1` bytes of `x` follows from its state after `i` bytes.
pub proof fn lemma_enc_state_prefix(x: Seq<u8>, i: int)
    requires
        0 <= i < x.len(),
    ensures
        enc_state(x.subrange(0, i + 1)) == enc_step(enc_state(x.subrange(0, i)), x[i]),
{
    assert(x.subrange(0, i + 1).drop_last() =~= x.subrange(0, i));
}

/// The decoder's state after `i + 1` bytes of `e` follows from its state after `i` bytes.
pub proof fn lemma_dec_state_prefix(e: Seq<u8>, i: int)
    requires
        0 <= i < e.len(),
    ensures
        dec_state(e.subrange(0, i + 1)) == dec_step(dec_state(e.subrange(0, i)), e[i]),
{
    assert(e.subrange(0, i + 1).drop_last() =~= e.subrange(0, i));
}

/// Decoding `a + b` is decoding `a`, then `b`.
pub proof fn lemma_dec_fold_append(s: DecState, a: Seq<u8>, b: Seq<u8>)
    ensures
        dec_fold(s, a + b) == dec_fold(dec_fold(s, a), b),
    decreases b.len(),
{
    if b.len() == 0 {
        assert(a + b =~= a);
    } else {
        lemma_dec_fold_append(s, a, b.drop_last());
        assert((a + b).drop_last() =~= a + b.drop_last());
    }
}

/// Once stopped by an error, decoding stays where it stopped, and it never takes back output.
pub proof fn lemma_dec_fold_monotone(s: DecState, e: Seq<u8>)
    ensures
        s.err is Some ==> dec_fold(s, e) == s,
        dec_fold(s, e).out.len() >= s.out.len(),
    decreases e.len(),
{
    if e.len() > 0 {
        lemma_dec_fold_monotone(s, e.drop_last());
    }
}

/// What decoding a prefix of `e` shows of decoding the whole of `e`.
pub proof fn lemma_dec_prefix_bounds(e: Seq<u8>, i: int)
    requires
        0 <= i <= e.len(),
    ensures
        dec_state(e).out.len() >= dec_state(e.subrange(0, i)).out.len(),
        dec_state(e.subrange(0, i)).err is Some ==> dec_state(e) == dec_state(e.subrange(0, i)),
{
    let a = e.subrange(0, i);
    let b = e.subrange(i, e.len() as int);
    assert(e =~= a + b);
    lemma_dec_fold_append(dec_start(), a, b);
    lemma_dec_fold_monotone(dec_state(a), b);
}

/// Decoding the data bytes of a block.
pub proof fn lemma_dec_run(s: DecState, data: Seq<u8>)
    requires
        s.err is None,
        data.len() <= s.left,
        zero_free(data),
    ensures
        dec_fold(s, data) == (DecState {
            out: s.out + data,
            code: s.code,
            left: (s.left - data.len()) as nat,
            err: None,
        }),
    decreases data.len(),
{
    if data.len() == 0 {
        assert(s.out + data =~= s.out);
    } else {
        let d = data.drop_last();
        assert(zero_free(d)) by {
            assert forall|i: int| 0 <= i < d.len() implies #[trigger] d[i] != 0 by {
                assert(d[i] == data[i]);
            }
        }
        lemma_dec_run(s, d);
        assert(data.last() == data[data.len() - 1]);
        assert((s.out + d).push(data.last()) =~= s.out + data);
    }
}

/// Decoding a whole block: its length code, then its data bytes.
pub proof fn lemma_dec_block(s: DecState, code: u8, data: Seq<u8>)
    requires
        s.err is None,
        s.left == 0,
        code != 0,
        data.len() <= code - 1,
        zero_free(data),
    ensures
        dec_fold(s, seq![code] + data) == (DecState {
            out: s.out + implied_zero(s.code) + data,
            code: code,
            left: (code - 1 - data.len()) as nat,
            err: None,
        }),
{
    lemma_dec_fold_append(s, seq![code], data);
    let c = seq![code];
    assert(c.drop_last() =~= Seq::<u8>::empty());
    assert(dec_fold(s, c.drop_last()) == s);
    assert(c.last() == code);
    assert(dec_fold(s, c) == dec_step(dec_fold(s, c.drop_last()), c.last()));
    lemma_dec_run(dec_fold(s, seq![code]), data);
}

// Facts of the encoder's fold.

/// Invariants of the encoder's state: the open run is short and non-zero, the output is
/// non-zero, and the count of runs closed by `0xFF` is bounded by the input's length.
pub proof fn lemma_enc_facts(x: Seq<u8>)
    ensures
        enc_state(x).run.len() <= 254,
        zero_free(enc_state(x).run),
        zero_free(enc_state(x).out),
        enc_state(x).out.len() + enc_state(x).run.len() >= x.len(),
        254 * (enc_state(x).out.len() + enc_state(x).run.len() - x.len()) + enc_state(x).run.len()
            <= x.len(),
        x.len() == 0 || 254 * (enc_state(x).out.len() + enc_state(x).run.len() - x.len()) + 1
            <= x.len(),
        x.len() > 0 && x.last() != 0 ==> enc_state(x).run.len() > 0 && enc_state(x).run.last()
            == x.last(),
    decreases x.len(),
{
    if x.len() > 0 {
        let p = enc_state(x.drop_last());
        lemma_enc_facts(x.drop_last());
        let b = x.last();
        let s1 = if p.run.len() >= 254 {
            EncState { out: p.out + block(p.run), run: seq![] }
        } else {
            p
        };
        assert(zero_free(block(p.run))) by {
            let bl = block(p.run);
            assert forall|i: int| 0 <= i < bl.len() implies #[trigger] bl[i] != 0 by {
                if i > 0 {
                    assert(bl[i] == p.run[i - 1]);
                }
            }
        }
        assert(zero_free(s1.out)) by {
            if p.run.len() >= 254 {
                let o = p.out + block(p.run);
                assert forall|i: int| 0 <= i < o.len() implies #[trigger] o[i] != 0 by {
                    if i >= p.out.len() {
                        assert(o[i] == block(p.run)[i - p.out.len()]);
                    }
                }
            }
        }
        assert(zero_free(block(s1.run))) by {
            let bl = block(s1.run);
            assert forall|i: int| 0 <= i < bl.len() implies #[trigger] bl[i] != 0 by {
                if i > 0 {
                    assert(bl[i] == s1.run[i - 1]);
                }
            }
        }
        let s = enc_state(x);
        if b == 0 {
            assert forall|i: int| 0 <= i < s.out.len() implies #[trigger] s.out[i] != 0 by {
                if i >= s1.out.len() {
                    assert(s.out[i] == block(s1.run)[i - s1.out.len()]);
                }
            }
        } else {
            assert forall|i: int| 0 <= i < s.run.len() implies #[trigger] s.run[i] != 0 by {
                if i < s1.run.len() {
                    assert(s.run[i] == s1.run[i]);
                }
            }
        }
    }
}

/// The length of the COBS encoding never shrinks as input is added.
pub proof fn lemma_enc_len_grows(x: Seq<u8>, i: int)
    requires
        0 <= i <= x.len(),
    ensures
        cobs_encode(x).len() >= cobs_encode(x.subrange(0, i)).len(),
    decreases x.len(),
{
    if i == x.len() {
        assert(x.subrange(0, i) =~= x);
    } else {
        let y = x.drop_last();
        lemma_enc_len_grows(y, i);
        assert(y.subrange(0, i) =~= x.subrange(0, i));
        lemma_enc_facts(y);
    }
}

/// Decoding the output of the encoder's fold gives back the input bytes up to the open run,
/// with the zero that the last closed block implies still to come.
pub proof fn lemma_enc_dec(x: Seq<u8>)
    ensures
        dec_state(enc_state(x).out).err is None,
        dec_state(enc_state(x).out).left == 0,
        dec_state(enc_state(x).out).out + implied_zero(dec_state(enc_state(x).out).code)
            == x.subrange(0, x.len() - enc_state(x).run.len()),
        x.subrange(x.len() - enc_state(x).run.len(), x.len() as int) == enc_state(x).run,
    decreases x.len(),
{
    lemma_enc_facts(x);
    if x.len() == 0 {
        assert(x.subrange(0, 0) =~= Seq::<u8>::empty());
        assert(x.subrange(0, 0) =~= enc_state(x).run);
    } else {
        let y = x.drop_last();
        let b = x.last();
        lemma_enc_dec(y);
        lemma_enc_facts(y);
        let p = enc_state(y);
        let dp = dec_state(p.out);
        let k = y.len() - p.run.len();
        let s1 = if p.run.len() >= 254 {
            EncState { out: p.out + block(p.run), run: seq![] }
        } else {
            p
        };
        // The decoder's state after `s1.out`, and the input bytes before `s1.run`.
        let d1 = dec_state(s1.out);
        if p.run.len() >= 254 {
            lemma_dec_fold_append(dec_start(), p.out, block(p.run));
            lemma_dec_block(dp, (p.run.len() + 1) as u8, p.run);
            assert(d1.out =~= y);
            assert(d1.code == 255);
        }
        assert(d1.err is None && d1.left == 0);
        assert(d1.out + implied_zero(d1.code) =~= y.subrange(0, y.len() - s1.run.len()));
        assert(y.subrange(y.len() - s1.run.len(), y.len() as int) =~= s1.run);
        let s = enc_state(x);
        if b == 0 {
            lemma_dec_fold_append(dec_start(), s1.out, block(s1.run));
            lemma_dec_block(d1, (s1.run.len() + 1) as u8, s1.run);
            let d = dec_state(s.out);
            assert(d.out =~= y);
            assert(d.code != 255);
            assert(d.out + implied_zero(d.code) =~= x.subrange(0, x.len() - s.run.len()));
            assert(x.subrange(x.len() - s.run.len(), x.len() as int) =~= s.run);
        } else {
            assert(x.subrange(0, x.len() - s.run.len()) =~= y.subrange(0, y.len() - s1.run.len()));
            assert(x.subrange(x.len() - s.run.len(), x.len() as int) =~= s.run);
        }
    }
}

/// The finished output of the encoder's fold only grows as input is added.
pub proof fn lemma_enc_out_grows(x: Seq<u8>, y: Seq<u8>)
    ensures
        enc_state(x).out.is_prefix_of(enc_state(x + y).out),
    decreases y.len(),
{
    if y.len() == 0 {
        assert(x + y =~= x);
    } else {
        lemma_enc_out_grows(x, y.drop_last());
        assert((x + y).drop_last() =~= x + y.drop_last());
        let p = enc_state(x + y.drop_last());
        let q = enc_state(x + y);
        assert(p.out.is_prefix_of(q.out)) by {
            if p.run.len() >= 254 {
                assert((p.out + block(p.run)).subrange(0, p.out.len() as int) =~= p.out);
                let o1 = p.out + block(p.run);
                assert(q.out.subrange(0, o1.len() as int) =~= o1);
                assert(q.out.subrange(0, p.out.len() as int) =~= p.out);
            } else {
                assert(q.out.subrange(0, p.out.len() as int) =~= p.out);
            }
        }
        assert(enc_state(x).out.is_prefix_of(q.out)) by {
            let a = enc_state(x).out;
            assert(q.out.subrange(0, a.len() as int) =~= p.out.subrange(0, a.len() as int));
        }
    }
}

/// What the encoder has decided after the input `x` begins both encodings of `x + rest`, for
/// every `rest`: the finished output; with a run of 254 bytes, that run's block too, where
/// COBS/R asks that more input follows.
pub proof fn lemma_enc_committed(x: Seq<u8>, rest: Seq<u8>)
    ensures
        enc_state(x).out.is_prefix_of(cobs_encode(x + rest)),
        enc_state(x).out.is_prefix_of(cobsr_encode(x + rest)),
        enc_state(x).run.len() == 254 ==> (enc_state(x).out + block(enc_state(x).run)).is_prefix_of(
            cobs_encode(x + rest),
        ),
        enc_state(x).run.len() == 254 && rest.len() > 0 ==> (enc_state(x).out + block(
            enc_state(x).run,
        )).is_prefix_of(cobsr_encode(x + rest)),
{
    let s = enc_state(x);
    let z = x + rest;
    let sz = enc_state(z);
    lemma_enc_out_grows(x, rest);
    assert(cobs_encode(z).subrange(0, sz.out.len() as int) =~= sz.out);
    assert(cobsr_encode(z).subrange(0, sz.out.len() as int) =~= sz.out);
    assert(cobs_encode(z).subrange(0, s.out.len() as int) =~= s.out);
    assert(cobsr_encode(z).subrange(0, s.out.len() as int) =~= s.out);
    if s.run.len() == 254 {
        let c = s.out + block(s.run);
        if rest.len() == 0 {
            assert(z =~= x);
            assert(cobs_encode(z).subrange(0, c.len() as int) =~= c);
        } else {
            let x1 = x.push(rest[0]);
            assert(x1.drop_last() =~= x);
            let s1 = enc_state(x1);
            assert(s1.out.subrange(0, c.len() as int) =~= c);
            assert(z =~= x1 + rest.drop_first());
            lemma_enc_out_grows(x1, rest.drop_first());
            assert(sz.out.subrange(0, c.len() as int) =~= c);
            assert(cobs_encode(z).subrange(0, c.len() as int) =~= c);
            assert(cobsr_encode(z).subrange(0, c.len() as int) =~= c);
        }
    }
}

/// How many encoded bytes gave no output: at most all but one, and besides the first code at
/// most one for each full 255 bytes, since only a code that follows a block of code `0xFF`
/// implies no zero.
pub proof fn lemma_dec_size(e: Seq<u8>)
    requires
        dec_state(e).err is None,
    ensures
        e.len() == 0 ==> dec_state(e).out.len() == 0,
        e.len() > 0 ==> dec_state(e).out.len() + 1 <= e.len(),
        e.len() > 0 ==> dec_state(e).code != 0 && 255 * (e.len() - dec_state(e).out.len() - 1) + (
        if dec_state(e).code == 255 {
            255 - dec_state(e).left
        } else {
            1
        }) <= e.len(),
        e.len() > 0 ==> dec_state(e).left < dec_state(e).code,
    decreases e.len(),
{
    if e.len() > 0 {
        let p = e.drop_last();
        assert(dec_state(e) == dec_step(dec_state(p), e.last()));
        lemma_dec_size(p);
    }
}

// The laws of the codecs.

/// Round trip: COBS decoding gives back, without error, every byte sequence that COBS encoded;
/// so does COBS/R decoding.
pub proof fn lemma_cobs_round_trip(x: Seq<u8>)
    ensures
        cobs_decode(cobs_encode(x)) == (x, None::<Error>),
        cobsr_decode(cobs_encode(x)) == (x, None::<Error>),
{
    let s = enc_state(x);
    lemma_enc_facts(x);
    lemma_enc_dec(x);
    let d = dec_state(s.out);
    lemma_dec_fold_append(dec_start(), s.out, block(s.run));
    lemma_dec_block(d, (s.run.len() + 1) as u8, s.run);
    assert(dec_state(cobs_encode(x)).out =~= x);
    lemma_cobsr_decodes_cobs(cobs_encode(x));
}

/// Round trip: COBS/R decoding gives back, without error, every byte sequence that COBS/R
/// encoded.
pub proof fn lemma_cobsr_round_trip(x: Seq<u8>)
    ensures
        cobsr_decode(cobsr_encode(x)) == (x, None::<Error>),
{
    let s = enc_state(x);
    lemma_enc_facts(x);
    lemma_enc_dec(x);
    let d = dec_state(s.out);
    if final_byte_elides(s.run) {
        let last = s.run.last();
        let data = s.run.drop_last();
        assert(zero_free(data)) by {
            assert forall|i: int| 0 <= i < data.len() implies #[trigger] data[i] != 0 by {
                assert(data[i] == s.run[i]);
            }
        }
        assert(last == s.run[s.run.len() - 1]);
        assert(s.out + seq![last] + data =~= s.out + (seq![last] + data));
        lemma_dec_fold_append(dec_start(), s.out, seq![last] + data);
        lemma_dec_block(d, last, data);
        assert(dec_state(cobsr_encode(x)).out.push(last) =~= x);
    } else {
        lemma_cobs_round_trip(x);
        lemma_cobsr_decodes_cobs(cobs_encode(x));
    }
}

/// No COBS or COBS/R encoding holds a zero byte.
pub proof fn lemma_encodings_zero_free(x: Seq<u8>)
    ensures
        zero_free(cobs_encode(x)),
        zero_free(cobsr_encode(x)),
{
    let s = enc_state(x);
    lemma_enc_facts(x);
    let e = cobs_encode(x);
    assert forall|i: int| 0 <= i < e.len() implies #[trigger] e[i] != 0 by {
        if i > s.out.len() {
            assert(e[i] == s.run[i - s.out.len() - 1]);
        }
    }
    if final_byte_elides(s.run) {
        let r = cobsr_encode(x);
        assert forall|i: int| 0 <= i < r.len() implies #[trigger] r[i] != 0 by {
            if i == s.out.len() {
                assert(r[i] == s.run[s.run.len() - 1]);
            } else if i > s.out.len() {
                assert(r[i] == s.run[i - s.out.len() - 1]);
            }
        }
    }
}

/// Compatibility: COBS/R decoding accepts every input that COBS decoding accepts, and gives the
/// same bytes.
pub proof fn lemma_cobsr_decodes_cobs(e: Seq<u8>)
    requires
        cobs_decode(e).1 is None,
    ensures
        cobsr_decode(e) == cobs_decode(e),
{
}

/// Size bounds: each encoding of `x` is as long as the smallest encoding of its length at
/// least, and as the largest at most; COBS/R is never longer than COBS.
pub proof fn lemma_encode_size_bounds(x: Seq<u8>)
    ensures
        cobs_encode_min_size(x.len() as int) <= cobs_encode(x).len() <= encode_max_size(
            x.len() as int,
        ),
        cobsr_encode_min_size(x.len() as int) <= cobsr_encode(x).len() <= encode_max_size(
            x.len() as int,
        ),
        cobsr_encode(x).len() <= cobs_encode(x).len(),
{
    lemma_enc_facts(x);
    let n = x.len() as int;
    let s = enc_state(x);
    let f = s.out.len() + s.run.len() - n;
    assert(cobs_encode(x).len() == n + 1 + f);
    if n > 0 {
        assert(254 * (f + 1) <= n + 253);
        assert(f + 1 <= (n + 253) / 254) by {
            vstd::arithmetic::div_mod::lemma_div_is_ordered(254 * (f + 1), n + 253, 254);
            vstd::arithmetic::div_mod::lemma_div_multiples_vanish(f + 1, 254);
        }
    }
}

/// Saving of COBS/R: its encoding of `x` is one byte shorter than the COBS encoding exactly
/// when the last byte of `x` is at least the length code that closes the final run in COBS;
/// otherwise the two are equal.
pub proof fn lemma_cobsr_saving(x: Seq<u8>)
    ensures
        x.len() > 0 && x.last() as int >= final_code(x) ==> cobsr_encode(x).len()
            == cobs_encode(x).len() - 1,
        !(x.len() > 0 && x.last() as int >= final_code(x)) ==> cobsr_encode(x) == cobs_encode(x),
{
    lemma_enc_facts(x);
    let s = enc_state(x);
    if x.len() > 0 && x.last() as int >= final_code(x) {
        assert(x.last() != 0);
    } else if final_byte_elides(s.run) {
        // The final run ends with the last input byte.
        assert(x.len() > 0) by {
            if x.len() == 0 {
                assert(s.run.len() == 0);
            }
        }
        assert(x.last() != 0) by {
            if x.last() == 0 {
                assert(enc_state(x).run.len() == 0);
            }
        }
    }
}

/// Decoded sizes: every input that a decoder accepts decodes to a length between the
/// smallest and the largest decoding of its length.
pub proof fn lemma_decode_size_bounds(e: Seq<u8>)
    ensures
        cobs_decode(e).1 is None ==> decode_min_size(e.len() as int) <= cobs_decode(e).0.len()
            <= cobs_decode_max_size(e.len() as int),
        cobsr_decode(e).1 is None ==> decode_min_size(e.len() as int) <= cobsr_decode(e).0.len()
            <= cobsr_decode_max_size(e.len() as int),
{
    let s = dec_state(e);
    let n = e.len() as int;
    if s.err is None {
        lemma_dec_size(e);
        if n > 0 {
            let d = n - s.out.len();
            assert(255 * (d - 1) <= n - 1);
            assert(d - 1 <= (n - 1) / 255) by {
                vstd::arithmetic::div_mod::lemma_div_is_ordered(255 * (d - 1), n - 1, 255);
                vstd::arithmetic::div_mod::lemma_div_multiples_vanish(d - 1, 255);
            }
        }
    }
}

} // verus!

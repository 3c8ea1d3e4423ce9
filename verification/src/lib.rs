//! Adaptive arithmetic coding over a byte alphabet.
//!
//! The encoder turns a byte sequence into a compressed bit stream; the
//! decoder maps that stream back to the original bytes.  Both sides keep
//! an adaptive frequency model in a Fenwick tree and must evolve it in
//! lock-step, symbol by symbol.  The stream is self-delimiting: the
//! encoder codes a reserved end-of-stream symbol last, and the decoder
//! reads zeros past the end of its input.

use vstd::prelude::*;

pub mod bitvec;
pub mod codec;
pub mod fenwick;

use crate::bitvec::BitVec;
use crate::bitvec::bits_bytes;
use crate::bitvec::byte_bits;
use crate::codec::ArithmeticDecoder;
use crate::codec::ArithmeticEncoder;
use crate::codec::TOP;
use crate::codec::begin_end;
use crate::codec::bits_value;
use crate::codec::decode_step;
use crate::codec::discover_spec;
use crate::codec::emit;
use crate::codec::encode_step;
use crate::codec::finish_bits;
use crate::codec::FIRST_QTR;

verus! {

/// Alphabet size: the 256 byte values plus the end-of-stream sentinel.
pub const SIZE: usize = 257;

/// Index of the end-of-stream sentinel symbol.
pub const EOF: usize = 256;

/// Cap on the number of symbols one decode run will produce; spec-wise a
/// cap on output length, in practice never reached.
pub const DECODE_LIMIT: usize = usize::MAX;

/// The model both coders start from: every symbol counted once.
pub open spec fn initial_model() -> Seq<u32> {
    Seq::new(SIZE as nat, |k: int| 1u32)
}

/// Encoder state after coding and counting the first `n` input bytes:
/// `(low, high, pending, model, bits emitted)`.
pub open spec fn enc_chain(bytes: Seq<u8>, n: int) -> (int, int, int, Seq<u32>, Seq<bool>)
    decreases n,
{
    if n <= 0 {
        (0, TOP as int, 0, initial_model(), Seq::<bool>::empty())
    } else {
        let p = enc_chain(bytes, n - 1);
        let st = encode_step(p.0, p.1, p.2, p.3, bytes[n - 1] as int);
        (st.0, st.1, st.2, discover_spec(p.3, bytes[n - 1] as int), p.4 + st.3)
    }
}

/// The whole compressed bit stream for a byte sequence: every byte coded
/// and counted in turn, then the end-of-stream symbol, then the final
/// disambiguating bits.
pub open spec fn encode_bits(bytes: Seq<u8>) -> Seq<bool> {
    let p = enc_chain(bytes, bytes.len() as int);
    let st = encode_step(p.0, p.1, p.2, p.3, EOF as int);
    p.4 + st.3 + finish_bits(st.0, st.2)
}

/// Decoder state after reading the 16 header bits and then decoding and
/// counting `n` symbols: `(low, high, value, pos, model)`.
pub open spec fn dec_chain(bits: Seq<bool>, n: int) -> (int, int, int, int, Seq<u32>)
    decreases n,
{
    if n <= 0 {
        (
            0,
            TOP as int,
            bits_value(bits, 0, begin_end(bits, 0)),
            begin_end(bits, 0),
            initial_model(),
        )
    } else {
        let p = dec_chain(bits, n - 1);
        let st = decode_step(p.0, p.1, p.2, p.4, bits, p.3);
        (st.1, st.2, st.3, st.4, discover_spec(p.4, st.0))
    }
}

/// The `n`-th symbol the decoder produces from a bit stream (0-based).
pub open spec fn dec_sym(bits: Seq<bool>, n: int) -> int {
    let p = dec_chain(bits, n);
    decode_step(p.0, p.1, p.2, p.4, bits, p.3).0
}

/// Encoder and decoder count symbols by one shared rule, so as long as
/// the decoder reproduces the input bytes, the two frequency models are
/// element-wise equal after every prefix.
pub proof fn lemma_models_in_lockstep(bytes: Seq<u8>, bits: Seq<bool>, n: int)
    requires
        0 <= n <= bytes.len(),
        forall|j: int| 0 <= j < n ==> #[trigger] dec_sym(bits, j) == bytes[j],
    ensures
        enc_chain(bytes, n).3 == dec_chain(bits, n).4,
    decreases n,
{
    if n > 0 {
        lemma_models_in_lockstep(bytes, bits, n - 1);
        assert(dec_sym(bits, n - 1) == bytes[n - 1]);
        assert(enc_chain(bytes, n).3 == discover_spec(
            enc_chain(bytes, n - 1).3,
            bytes[n - 1] as int,
        ));
        assert(dec_chain(bits, n).4 == discover_spec(dec_chain(bits, n - 1).4, dec_sym(bits, n - 1)));
    }
}

/// Compresses a byte sequence into the bytes of its compressed bit
/// stream; never empty, since the end-of-stream symbol is always coded.
pub fn encode_routine(input: &Vec<u8>) -> (out: Vec<u8>)
    requires
        input@.len() <= 0x0400_0000,
    ensures
        out@ == bits_bytes(encode_bits(input@)),
        out@.len() >= 1,
{
    let mut encoder = ArithmeticEncoder::new(SIZE);
    proof {
        assert(encoder.model_view() =~= initial_model());
    }
    let mut bits: Vec<bool> = Vec::new();
    let n: usize = input.len();
    let mut i: usize = 0;
    while i < n
        invariant
            i <= n,
            n == input@.len(),
            n <= 0x0400_0000,
            encoder.inv(),
            encoder.model_view().len() == SIZE,
            ({
                let p = enc_chain(input@, i as int);
                &&& encoder.low_spec() == p.0
                &&& encoder.high_spec() == p.1
                &&& encoder.pending_spec() == p.2
                &&& encoder.model_view() == p.3
                &&& bits@ == p.4
            }),
            encoder.pending_spec() >= 0,
            bits@.len() + encoder.pending_spec() <= 16 * (i as int + 1),
        decreases n - i,
    {
        let b: u8 = input[i];
        encoder.encode(b as usize, &mut bits);
        encoder.discover(b as usize);
        i = i + 1;
        proof {
            let p = enc_chain(input@, i as int);
            assert(p == ({
                let q = enc_chain(input@, i - 1);
                let st = encode_step(q.0, q.1, q.2, q.3, input@[i - 1] as int);
                (st.0, st.1, st.2, discover_spec(q.3, input@[i - 1] as int), q.4 + st.3)
            }));
        }
    }
    encoder.encode(EOF, &mut bits);
    let ghost lowf = encoder.low_spec();
    let ghost pendf = encoder.pending_spec();
    let ghost len1 = bits@.len() as int;
    proof {
        assert(0 <= pendf && len1 + pendf <= 16 * (n as int + 2));
    }
    encoder.finish(&mut bits);
    proof {
        assert(bits@ == encode_bits(input@));
        assert(finish_bits(lowf, pendf) == emit(lowf >= FIRST_QTR, pendf + 1));
        assert(emit(lowf >= FIRST_QTR, pendf + 1).len() == pendf + 2);
        assert(bits@.len() <= 16 * (n as int + 2) + 2);
    }
    let out = pack_bits(&bits);
    out
}

/// Decompresses the bytes of a compressed bit stream: decodes symbols,
/// counting each into the model, until the end-of-stream symbol (or, as
/// a cap, until `DECODE_LIMIT` bytes have been produced).
pub fn decode_routine(input: &Vec<u8>) -> (out: Vec<u8>)
    requires
        input@.len() <= usize::MAX / 8 - 8,
    ensures
        ({
            let bits = byte_bits(input@);
            ||| (exists|k: int|
                0 <= k < DECODE_LIMIT && #[trigger] dec_sym(bits, k) == EOF && (forall|j: int|
                    0 <= j < k ==> dec_sym(bits, j) != EOF) && out@ == Seq::new(
                    k as nat,
                    |j: int| dec_sym(bits, j) as u8,
                ))
            ||| ((forall|j: int| 0 <= j < DECODE_LIMIT ==> dec_sym(bits, j) != EOF) && out@
                == Seq::new(DECODE_LIMIT as nat, |j: int| dec_sym(bits, j) as u8))
        }),
{
    let ghost bitseq = byte_bits(input@);
    let bv = BitVec::from_bytes(input.as_slice());
    let mut pos: usize = 0;
    let mut decoder = ArithmeticDecoder::new(SIZE);
    proof {
        assert(decoder.model_view() =~= initial_model());
    }
    decoder.begin(&bv, &mut pos);
    let mut out: Vec<u8> = Vec::new();
    let mut k: usize = 0;
    proof {
        assert(out@ =~= Seq::new(0nat, |j: int| dec_sym(bitseq, j) as u8));
    }
    loop
        invariant_except_break
            decoder.inv(),
            bv.wf(),
            bv@ == bitseq,
            bitseq == byte_bits(input@),
            pos <= bv@.len(),
            decoder.model_view().len() == SIZE,
            k <= DECODE_LIMIT,
            ({
                let p = dec_chain(bitseq, k as int);
                &&& decoder.low_spec() == p.0
                &&& decoder.high_spec() == p.1
                &&& decoder.value_spec() == p.2
                &&& pos as int == p.3
                &&& decoder.model_view() == p.4
            }),
            forall|j: int| 0 <= j < k ==> dec_sym(bitseq, j) != EOF,
            out@ == Seq::new(k as nat, |j: int| dec_sym(bitseq, j) as u8),
        ensures
            ({
                ||| (exists|k2: int|
                    0 <= k2 < DECODE_LIMIT && #[trigger] dec_sym(bitseq, k2) == EOF && (
                    forall|j: int| 0 <= j < k2 ==> dec_sym(bitseq, j) != EOF) && out@ == Seq::new(
                        k2 as nat,
                        |j: int| dec_sym(bitseq, j) as u8,
                    ))
                ||| ((forall|j: int| 0 <= j < DECODE_LIMIT ==> dec_sym(bitseq, j) != EOF) && out@
                    == Seq::new(DECODE_LIMIT as nat, |j: int| dec_sym(bitseq, j) as u8))
            }),
        decreases DECODE_LIMIT - k,
    {
        if k >= DECODE_LIMIT {
            break ;
        }
        let s: usize = decoder.decode(&bv, &mut pos);
        proof {
            assert(s as int == dec_sym(bitseq, k as int));
        }
        if s == EOF {
            proof {
                let kw = k as int;
                assert(0 <= kw < DECODE_LIMIT && dec_sym(bitseq, kw) == EOF && (forall|j: int|
                    0 <= j < kw ==> dec_sym(bitseq, j) != EOF) && out@ == Seq::new(
                    kw as nat,
                    |j: int| dec_sym(bitseq, j) as u8,
                ));
            }
            break ;
        }
        out.push(s as u8);
        decoder.discover(s);
        k = k + 1;
        proof {
            let p = dec_chain(bitseq, k as int);
            assert(p == ({
                let q = dec_chain(bitseq, k - 1);
                let st = decode_step(q.0, q.1, q.2, q.4, bitseq, q.3);
                (st.1, st.2, st.3, st.4, discover_spec(q.4, st.0))
            }));
            assert(out@ =~= Seq::new(k as nat, |j: int| dec_sym(bitseq, j) as u8));
        }
    }
    out
}

/// Packs a bit sequence into bytes, most significant bit first, the last
/// byte zero-padded.
fn pack_bits(bits: &Vec<bool>) -> (r: Vec<u8>)
    requires
        bits@.len() <= usize::MAX - 127,
    ensures
        r@ == bits_bytes(bits@),
        r@.len() == (bits@.len() + 7) / 8,
{
    let n: usize = bits.len();
    let mut bv = BitVec::with_capacity(n);
    proof {
        assert(bv@ =~= bits@.take(0));
    }
    let mut i: usize = 0;
    while i < n
        invariant
            i <= n,
            n == bits@.len(),
            bv.wf(),
            n <= bv.spec_capacity(),
            bv@ == bits@.take(i as int),
        decreases n - i,
    {
        bv.push(bits[i]);
        proof {
            assert(bv@ =~= bits@.take(i as int + 1));
        }
        i = i + 1;
    }
    proof {
        assert(bv@ =~= bits@);
    }
    bv.get_bytes()
}

} // verus!

//! A fixed-capacity, append-only bit vector with byte-level import and
//! export.
//!
//! Bits are stored in 64-bit words, least significant position first inside
//! each word.  The byte conversions follow the stream convention: byte `b`
//! corresponds to the bits `b7, b6, ..., b0`, most significant first.

use vstd::prelude::*;

verus! {

/// True when bit `j` of word `w` is set, for `0 <= j < 64`.
pub open spec fn word_bit(w: u64, j: int) -> bool {
    (w >> (j as u64)) & 1u64 == 1u64
}

/// True when bit `j` of byte `x`, counted most significant first, is set.
pub open spec fn byte_bit(x: u8, j: int) -> bool {
    (x >> ((7 - j) as u8)) & 1u8 == 1u8
}

/// The bit stream that a byte sequence denotes: for each byte its eight
/// bits, most significant first.
pub open spec fn byte_bits(bytes: Seq<u8>) -> Seq<bool> {
    Seq::new(bytes.len() * 8, |t: int| byte_bit(bytes[t / 8], t % 8))
}

/// Bit `t` of the stream, or zero when `t` is past the end.
pub open spec fn stream_bit(bits: Seq<bool>, t: int) -> bool {
    0 <= t < bits.len() && bits[t]
}

/// 1 when bit `t` of the stream is set, else 0.
pub open spec fn stream_bit1(bits: Seq<bool>, t: int) -> int {
    if stream_bit(bits, t) {
        1
    } else {
        0
    }
}

/// The byte whose bits, most significant first, are stream bits
/// `t, t + 1, ..., t + 7`, with bits past the end read as zero.
pub open spec fn assemble_byte(bits: Seq<bool>, t: int) -> u8 {
    (stream_bit1(bits, t) * 128 + stream_bit1(bits, t + 1) * 64 + stream_bit1(bits, t + 2) * 32
        + stream_bit1(bits, t + 3) * 16 + stream_bit1(bits, t + 4) * 8
        + stream_bit1(bits, t + 5) * 4 + stream_bit1(bits, t + 6) * 2
        + stream_bit1(bits, t + 7)) as u8
}

/// The minimal byte sequence that contains a bit stream, most significant
/// bit first per byte, an incomplete last byte padded with zeros.
pub open spec fn bits_bytes(bits: Seq<bool>) -> Seq<u8> {
    Seq::new((bits.len() + 7) / 8, |k: int| assemble_byte(bits, 8 * k))
}

/// A fixed-capacity bit vector.  `data` holds the bits, `i` is the number
/// of bits currently stored.
pub struct BitVec {
    data: Vec<u64>,
    i: usize,
}

impl View for BitVec {
    type V = Seq<bool>;

    closed spec fn view(&self) -> Seq<bool> {
        Seq::new(self.i as nat, |t: int| word_bit(self.data@[t / 64], t % 64))
    }
}

impl BitVec {
    /// Capacity in bits: every word contributes 64.
    pub closed spec fn spec_capacity(&self) -> int {
        self.data@.len() * 64int
    }

    /// Well-formed: the length fits the storage, the capacity fits the
    /// machine word, and all storage past the length is zero bits.
    pub closed spec fn wf(&self) -> bool {
        &&& self.i <= self.spec_capacity()
        &&& self.spec_capacity() <= usize::MAX - 63
        &&& forall|t: int|
            self.i <= t < self.spec_capacity() ==> !word_bit(#[trigger] self.data@[t / 64], t % 64)
    }

    /// An empty buffer whose capacity is `cap` rounded up to a multiple
    /// of 64.
    pub fn with_capacity(cap: usize) -> (r: BitVec)
        requires
            cap <= usize::MAX - 127,
        ensures
            r.wf(),
            r@ == Seq::<bool>::empty(),
            cap <= r.spec_capacity() < cap + 64,
            r.spec_capacity() % 64 == 0,
    {
        let words: usize = (cap + 63) / 64;
        proof {
            assert(words * 64int <= cap + 63 && cap <= words * 64int && (words * 64int) % 64 == 0)
                by (nonlinear_arith)
                requires
                    words == (cap + 63int) / 64,
                    cap >= 0,
            ;
        }
        let r = BitVec { data: zero_words(words), i: 0 };
        proof {
            assert(r@ =~= Seq::<bool>::empty());
            assert forall|t: int| 0 <= t < r.spec_capacity() implies !word_bit(
                #[trigger] r.data@[t / 64],
                t % 64,
            ) by {
                assert(0 <= t / 64 < r.data@.len()) by (nonlinear_arith)
                    requires
                        0 <= t < r.data@.len() * 64,
                ;
                lemma_zero_word_bits(t % 64);
            }
        }
        r
    }

    /// Capacity in bits.
    pub fn capacity(&self) -> (r: usize)
        requires
            self.wf(),
        ensures
            r == self.spec_capacity(),
    {
        self.data.len() * 64
    }

    /// Number of bits stored.
    pub fn len(&self) -> (r: usize)
        ensures
            r == self@.len(),
    {
        self.i
    }

    /// True when no bit is stored.
    pub fn is_empty(&self) -> (r: bool)
        ensures
            r == (self@.len() == 0),
    {
        self.i == 0
    }

    /// Appends one bit.  The buffer must not be full.
    pub fn push(&mut self, bit: bool)
        requires
            old(self).wf(),
            old(self)@.len() < old(self).spec_capacity(),
        ensures
            final(self).wf(),
            final(self)@ == old(self)@.push(bit),
            final(self).spec_capacity() == old(self).spec_capacity(),
    {
        let word_idx: usize = self.i / 64;
        let bit_idx: u64 = (self.i % 64) as u64;
        proof {
            assert(0 <= self.i / 64 < self.data@.len()) by (nonlinear_arith)
                requires
                    0 <= self.i < self.data@.len() * 64,
            ;
        }
        let w: u64 = self.data[word_idx];
        let b: u64 = if bit {
            1
        } else {
            0
        };
        proof {
            let t = self.i as int;
            lemma_div_mod_64(t, self.data@.len() as int);
            assert(!word_bit(self.data@[t / 64], t % 64));
            assert(t / 64 == word_idx as int && t % 64 == bit_idx as int);
            lemma_bit_is_01(w, bit_idx);
            assert((w >> bit_idx) & 1u64 == 0u64);
            lemma_set_bit(w, bit_idx, b);
        }
        self.data.set(word_idx, w | (b << bit_idx));
        self.i = self.i + 1;
        proof {
            let new = *self;
            let prev = *old(self);
            assert forall|t: int| 0 <= t < new.i implies new@[t] == prev@.push(bit)[t] by {
                lemma_div_mod_64(t, new.data@.len() as int);
                if t < prev.i {
                    if t / 64 == word_idx {
                        assert((new.data@[t / 64] >> ((t % 64) as u64)) & 1u64 == (w >> ((t
                            % 64) as u64)) & 1u64);
                    }
                } else {
                    assert(t == prev.i);
                    assert(t / 64 == word_idx && t % 64 == bit_idx);
                }
            }
            assert(new@ =~= prev@.push(bit));
            assert forall|t: int|
                new.i <= t < new.spec_capacity() implies !word_bit(
                #[trigger] new.data@[t / 64],
                t % 64,
            ) by {
                lemma_div_mod_64(t, new.data@.len() as int);
                if t / 64 == word_idx {
                    assert(t % 64 != bit_idx) by {
                        if t % 64 == bit_idx {
                            assert(t == 64 * (t / 64) + t % 64);
                            assert(t == prev.i as int);
                        }
                    }
                    assert(!word_bit(w, t % 64));
                }
            }
        }
    }

    /// The bit at index `idx`, or nothing when `idx` is out of range.
    pub fn get(&self, idx: usize) -> (r: Option<bool>)
        requires
            self.wf(),
        ensures
            r == if idx < self@.len() {
                Some(self@[idx as int])
            } else {
                None::<bool>
            },
    {
        if idx >= self.i {
            return None;
        }
        proof {
            assert(0 <= idx / 64 < self.data@.len()) by (nonlinear_arith)
                requires
                    0 <= idx < self.data@.len() * 64,
            ;
            lemma_bit_is_01(self.data@[idx as int / 64], (idx % 64) as u64);
        }
        Some((self.data[idx / 64] >> ((idx % 64) as u64)) & 1u64 == 1u64)
    }

    /// A buffer holding exactly the bits of `b`, most significant bit
    /// first per byte.
    pub fn from_bytes(b: &[u8]) -> (r: BitVec)
        requires
            b@.len() <= usize::MAX / 8 - 8,
        ensures
            r.wf(),
            r@ == byte_bits(b@),
    {
        let n: usize = b.len();
        let words: usize = n / 8 + 1;
        proof {
            assert(8 * n < words * 64int <= 64 * n + 64 && words * 64int <= usize::MAX - 63)
                by (nonlinear_arith)
                requires
                    words == n / 8 + 1,
                    0 <= n <= usize::MAX / 8 - 8,
            ;
        }
        let mut r = BitVec { data: zero_words(words), i: 0 };
        proof {
            assert(r@ =~= Seq::<bool>::empty());
            assert(r@ =~= byte_bits(b@).take(0));
            assert forall|t: int| 0 <= t < r.spec_capacity() implies !word_bit(
                #[trigger] r.data@[t / 64],
                t % 64,
            ) by {
                lemma_div_mod_64(t, r.data@.len() as int);
                lemma_zero_word_bits(t % 64);
            }
        }
        let total: usize = 8 * n;
        let mut t: usize = 0;
        while t < total
            invariant
                t <= total,
                total == 8 * b@.len(),
                b@.len() <= usize::MAX / 8 - 8,
                r.wf(),
                total <= r.spec_capacity(),
                r@ == byte_bits(b@).take(t as int),
            decreases total - t,
        {
            proof {
                assert(0 <= t / 8 < b@.len() && t % 8 == t - 8 * (t / 8) && 0 <= t % 8 < 8)
                    by (nonlinear_arith)
                    requires
                        0 <= t < 8 * b@.len(),
                ;
            }
            let byte: u8 = b[t / 8];
            let sh: u8 = (7 - (t % 8)) as u8;
            let bit: bool = (byte >> sh) & 1u8 == 1u8;
            proof {
                assert(bit == byte_bits(b@)[t as int]);
            }
            r.push(bit);
            proof {
                assert(r@ =~= byte_bits(b@).take(t as int + 1));
            }
            t = t + 1;
        }
        proof {
            assert(r@ =~= byte_bits(b@));
        }
        r
    }

    /// The bit at stream position `t`, as 0 or 1, bits past the end read
    /// as zero.
    fn bit01(&self, t: usize) -> (r: u8)
        requires
            self.wf(),
        ensures
            r as int == stream_bit1(self@, t as int),
    {
        match self.get(t) {
            Some(true) => 1,
            Some(false) => 0,
            None => 0,
        }
    }

    /// Forgets all bits and zeroes the storage; the capacity stays.
    pub fn clear(&mut self)
        requires
            old(self).wf(),
        ensures
            final(self).wf(),
            final(self)@ == Seq::<bool>::empty(),
            final(self).spec_capacity() == old(self).spec_capacity(),
    {
        let n: usize = self.data.len();
        let mut j: usize = 0;
        while j < n
            invariant
                j <= n,
                self.data@.len() == n,
                self.i == old(self).i,
                forall|k: int| 0 <= k < j ==> self.data@[k] == 0u64,
            decreases n - j,
        {
            self.data.set(j, 0);
            j = j + 1;
        }
        self.i = 0;
        proof {
            assert(self@ =~= Seq::<bool>::empty());
            assert forall|t: int| 0 <= t < self.spec_capacity() implies !word_bit(
                #[trigger] self.data@[t / 64],
                t % 64,
            ) by {
                lemma_div_mod_64(t, self.data@.len() as int);
                lemma_zero_word_bits(t % 64);
            }
        }
    }
    /// The minimal byte sequence containing all stored bits, most
    /// significant bit first per byte, the last byte zero-padded.
    pub fn get_bytes(&self) -> (r: Vec<u8>)
        requires
            self.wf(),
        ensures
            r@ == bits_bytes(self@),
    {
        let nbytes: usize = self.i / 8 + if self.i % 8 == 0 {
            0
        } else {
            1
        };
        proof {
            assert(nbytes == (self@.len() + 7) / 8 && 8 * nbytes <= self@.len() + 7)
                by (nonlinear_arith)
                requires
                    self@.len() == self.i,
                    self.i >= 0,
                    nbytes == self.i / 8 + if self.i % 8 == 0 {
                        0int
                    } else {
                        1
                    },
            ;
        }
        let mut out: Vec<u8> = Vec::new();
        let mut k: usize = 0;
        proof {
            assert(out@ =~= bits_bytes(self@).take(0));
        }
        while k < nbytes
            invariant
                k <= nbytes,
                self.wf(),
                nbytes == (self@.len() + 7) / 8,
                8 * nbytes <= self@.len() + 7,
                self@.len() <= usize::MAX - 63,
                out@ == bits_bytes(self@).take(k as int),
            decreases nbytes - k,
        {
            let t: usize = 8 * k;
            let b0: u8 = self.bit01(t);
            let b1: u8 = self.bit01(t + 1);
            let b2: u8 = self.bit01(t + 2);
            let b3: u8 = self.bit01(t + 3);
            let b4: u8 = self.bit01(t + 4);
            let b5: u8 = self.bit01(t + 5);
            let b6: u8 = self.bit01(t + 6);
            let b7: u8 = self.bit01(t + 7);
            let byte: u8 = b0 * 128 + b1 * 64 + b2 * 32 + b3 * 16 + b4 * 8 + b5 * 4 + b6 * 2 + b7;
            proof {
                assert(byte == assemble_byte(self@, 8 * (k as int)));
            }
            out.push(byte);
            proof {
                assert(out@ =~= bits_bytes(self@).take(k as int + 1));
            }
            k = k + 1;
        }
        proof {
            assert(out@ =~= bits_bytes(self@));
        }
        out
    }
}

/// Converting bytes to their bit stream and back returns the same bytes.
pub proof fn lemma_bytes_bits_roundtrip(bytes: Seq<u8>)
    ensures
        bits_bytes(byte_bits(bytes)) == bytes,
{
    let bits = byte_bits(bytes);
    let n = bytes.len() as int;
    assert((8 * n + 7) / 8 == n) by (nonlinear_arith)
        requires
            n >= 0,
    ;
    assert forall|k: int| 0 <= k < n implies bits_bytes(bits)[k] == bytes[k] by {
        let x = bytes[k];
        assert forall|j: int| 0 <= j < 8 implies #[trigger] bits[8 * k + j] == byte_bit(x, j) by {
            assert((8 * k + j) / 8 == k && (8 * k + j) % 8 == j) by (nonlinear_arith)
                requires
                    0 <= j < 8,
            ;
        }
        lemma_byte_reassemble(x);
        assert(assemble_byte(bits, 8 * k) == x);
    }
    assert(bits_bytes(bits) =~= bytes);
}

/// A byte equals the weighted sum of its eight bits, most significant
/// first.
proof fn lemma_byte_reassemble(x: u8)
    ensures
        (if (x >> 7u8) & 1u8 == 1u8 {
            1int
        } else {
            0int
        }) * 128 + (if (x >> 6u8) & 1u8 == 1u8 {
            1int
        } else {
            0int
        }) * 64 + (if (x >> 5u8) & 1u8 == 1u8 {
            1int
        } else {
            0int
        }) * 32 + (if (x >> 4u8) & 1u8 == 1u8 {
            1int
        } else {
            0int
        }) * 16 + (if (x >> 3u8) & 1u8 == 1u8 {
            1int
        } else {
            0int
        }) * 8 + (if (x >> 2u8) & 1u8 == 1u8 {
            1int
        } else {
            0int
        }) * 4 + (if (x >> 1u8) & 1u8 == 1u8 {
            1int
        } else {
            0int
        }) * 2 + (if (x >> 0u8) & 1u8 == 1u8 {
            1int
        } else {
            0int
        }) == x,
{
    assert((if (x >> 7u8) & 1u8 == 1u8 {
        1int
    } else {
        0int
    }) * 128 + (if (x >> 6u8) & 1u8 == 1u8 {
        1int
    } else {
        0int
    }) * 64 + (if (x >> 5u8) & 1u8 == 1u8 {
        1int
    } else {
        0int
    }) * 32 + (if (x >> 4u8) & 1u8 == 1u8 {
        1int
    } else {
        0int
    }) * 16 + (if (x >> 3u8) & 1u8 == 1u8 {
        1int
    } else {
        0int
    }) * 8 + (if (x >> 2u8) & 1u8 == 1u8 {
        1int
    } else {
        0int
    }) * 4 + (if (x >> 1u8) & 1u8 == 1u8 {
        1int
    } else {
        0int
    }) * 2 + (if (x >> 0u8) & 1u8 == 1u8 {
        1int
    } else {
        0int
    }) == x) by (bit_vector);
}

/// A vector of `n` zero words.
fn zero_words(n: usize) -> (r: Vec<u64>)
    ensures
        r@.len() == n,
        forall|k: int| 0 <= k < n ==> r@[k] == 0u64,
{
    let mut r: Vec<u64> = Vec::new();
    let mut j: usize = 0;
    while j < n
        invariant
            j <= n,
            r@.len() == j,
            forall|k: int| 0 <= k < j ==> r@[k] == 0u64,
        decreases n - j,
    {
        r.push(0);
        j = j + 1;
    }
    r
}

/// The zero word has no bit set.
proof fn lemma_zero_word_bits(j: int)
    requires
        0 <= j < 64,
    ensures
        !word_bit(0u64, j),
{
    let ju = j as u64;
    assert((0u64 >> ju) & 1u64 == 0u64) by (bit_vector);
}

/// Any single-bit extraction is 0 or 1.
proof fn lemma_bit_is_01(w: u64, j: u64)
    ensures
        (w >> j) & 1u64 == 0u64 || (w >> j) & 1u64 == 1u64,
{
    assert((w >> j) & 1u64 == 0u64 || (w >> j) & 1u64 == 1u64) by (bit_vector);
}

/// Setting bit `j` of `w` by an or leaves every other bit alone and makes
/// bit `j` equal to `b`.
proof fn lemma_set_bit(w: u64, j: u64, b: u64)
    requires
        j < 64,
        b <= 1,
        (w >> j) & 1u64 == 0u64,
    ensures
        forall|k: u64|
            k < 64 ==> #[trigger] (((w | (b << j)) >> k) & 1u64) == if k == j {
                b
            } else {
                (w >> k) & 1u64
            },
{
    assert(forall|k: u64|
        k < 64 && j < 64 && b <= 1 && (w >> j) & 1u64 == 0u64 ==> #[trigger] (((w | (b << j)) >> k)
            & 1u64) == if k == j {
            b
        } else {
            (w >> k) & 1u64
        }) by (bit_vector);
}

/// For `0 <= t < 64 * n`: the word index is in range and `t` splits into
/// word and bit position.
proof fn lemma_div_mod_64(t: int, n: int)
    requires
        0 <= t < n * 64,
    ensures
        0 <= t / 64 < n,
        0 <= t % 64 < 64,
        t == 64 * (t / 64) + t % 64,
{
    assert(0 <= t / 64 < n) by (nonlinear_arith)
        requires
            0 <= t < n * 64,
    ;
    assert(0 <= t % 64 < 64 && t == 64 * (t / 64) + t % 64) by (nonlinear_arith)
        requires
            0 <= t,
    ;
}

} // verus!

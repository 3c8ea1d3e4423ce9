//! An integer Fenwick tree (binary indexed tree) over a fixed number of
//! slots, with prefix sums, point updates, per-slot reads, whole-model
//! halving and cumulative-to-index inverse lookup, all in logarithmic
//! time per node touched.
//!
//! The tree array is one-based: node `j` stores the sum of the slots in
//! the half-open range `[j - lsb(j), j)` of the zero-based slot sequence.

use vstd::prelude::*;

verus! {

/// Lowest set bit of a positive integer; 0 for arguments below 1.
pub open spec fn lsb(i: int) -> int
    decreases i,
{
    if i <= 0 {
        0
    } else if i % 2 == 1 {
        1
    } else {
        2 * lsb(i / 2)
    }
}

/// True when `m` is a power of two.
pub open spec fn is_pow2(m: int) -> bool {
    m >= 1 && lsb(m) == m
}

/// True when tree node `k` covers slot position `p` (both one-based).
pub open spec fn covers(k: int, p: int) -> bool {
    k - lsb(k) < p <= k
}

/// Sum of the slots `f[lo], ..., f[hi - 1]`; 0 when the range is empty
/// or out of bounds.
pub open spec fn rsum(f: Seq<u32>, lo: int, hi: int) -> int
    decreases hi - lo,
{
    if lo < 0 || hi > f.len() || lo >= hi {
        0
    } else {
        f[lo] + rsum(f, lo + 1, hi)
    }
}

/// Sum of all slots.
pub open spec fn total_spec(f: Seq<u32>) -> int {
    rsum(f, 0, f.len() as int)
}

pub proof fn lemma_lsb_bounds(i: int)
    requires
        i >= 1,
    ensures
        1 <= lsb(i) <= i,
    decreases i,
{
    if i % 2 == 0 {
        lemma_lsb_bounds(i / 2);
    }
}

/// Stepping up from a node to its update parent at least doubles the
/// lowest set bit.
pub proof fn lemma_lsb_step_up(i: int)
    requires
        i >= 1,
    ensures
        lsb(i + lsb(i)) >= 2 * lsb(i),
    decreases i,
{
    if i % 2 == 1 {
        lemma_lsb_bounds((i + 1) / 2);
    } else {
        let h = i / 2;
        lemma_lsb_step_up(h);
        assert((i + 2 * lsb(h)) / 2 == h + lsb(h));
    }
}

/// Adding less than the lowest set bit keeps the lowest set bit of the
/// addend.
pub proof fn lemma_lsb_add_small(i: int, r: int)
    requires
        i >= 1,
        0 < r < lsb(i),
    ensures
        lsb(i + r) == lsb(r),
    decreases i,
{
    if i % 2 == 1 {
        lemma_lsb_bounds(i);
    } else {
        let h = i / 2;
        lemma_lsb_bounds(h);
        if r % 2 == 1 {
            assert((i + r) % 2 == 1);
        } else {
            lemma_lsb_add_small(h, r / 2);
            assert((i + r) / 2 == h + r / 2);
        }
    }
}

/// Below a node, the previous covering node has at least twice its
/// lowest set bit.
pub proof fn lemma_lsb_sub(i: int)
    requires
        i >= 1,
        i - lsb(i) >= 1,
    ensures
        lsb(i - lsb(i)) >= 2 * lsb(i),
    decreases i,
{
    if i % 2 == 1 {
        lemma_lsb_bounds((i - 1) / 2);
    } else {
        let h = i / 2;
        lemma_lsb_sub(h);
        assert((i - 2 * lsb(h)) / 2 == h - lsb(h));
    }
}

/// A multiple of a power of two has at least that power as its lowest
/// set bit.
pub proof fn lemma_lsb_multiple(i: int, m: int)
    requires
        is_pow2(m),
        i >= 1,
        i % m == 0,
    ensures
        lsb(i) >= m,
    decreases m,
{
    lemma_lsb_bounds(i);
    if m >= 2 {
        assert(m % 2 == 0) by {
            if m % 2 == 1 {
                assert(lsb(m) == 1);
            }
        }
        assert(lsb(m) == 2 * lsb(m / 2));
        let q = i / m;
        let m2 = m / 2;
        vstd::arithmetic::div_mod::lemma_fundamental_div_mod(i, m);
        assert(i == m * q);
        assert(m == 2 * m2);
        assert(i == 2 * (m2 * q)) by (nonlinear_arith)
            requires
                i == m * q,
                m == 2 * m2,
        ;
        let t = m2 * q;
        assert(i % 2 == 0 && i / 2 == t) by {
            vstd::arithmetic::div_mod::lemma_fundamental_div_mod_converse(i, 2, t, 0);
        }
        assert(t % m2 == 0) by {
            vstd::arithmetic::div_mod::lemma_mod_multiples_basic(q, m2);
            assert(q * m2 == m2 * q) by (nonlinear_arith);
        }
        lemma_lsb_multiple(i / 2, m2);
    }
}

pub proof fn lemma_rsum_nonneg(f: Seq<u32>, lo: int, hi: int)
    ensures
        rsum(f, lo, hi) >= 0,
    decreases hi - lo,
{
    if !(lo < 0 || hi > f.len() || lo >= hi) {
        lemma_rsum_nonneg(f, lo + 1, hi);
    }
}

pub proof fn lemma_rsum_concat(f: Seq<u32>, a: int, b: int, c: int)
    requires
        0 <= a <= b <= c <= f.len(),
    ensures
        rsum(f, a, c) == rsum(f, a, b) + rsum(f, b, c),
    decreases b - a,
{
    if a < b {
        lemma_rsum_concat(f, a + 1, b, c);
    }
}

/// A subrange sum is at most the whole sum.
pub proof fn lemma_rsum_le_total(f: Seq<u32>, a: int, b: int)
    requires
        0 <= a <= b <= f.len(),
    ensures
        rsum(f, a, b) <= total_spec(f),
{
    lemma_rsum_concat(f, 0, a, b);
    lemma_rsum_concat(f, 0, b, f.len() as int);
    lemma_rsum_nonneg(f, 0, a);
    lemma_rsum_nonneg(f, b, f.len() as int);
}

/// One slot is at most the whole sum.
pub proof fn lemma_elem_le_total(f: Seq<u32>, i: int)
    requires
        0 <= i < f.len(),
    ensures
        f[i] <= total_spec(f),
{
    assert(rsum(f, i + 1, i + 1) == 0);
    assert(rsum(f, i, i + 1) == f[i]);
    lemma_rsum_le_total(f, i, i + 1);
}

/// How a point update changes a range sum.
pub proof fn lemma_rsum_update(f: Seq<u32>, i: int, v: u32, lo: int, hi: int)
    requires
        0 <= i < f.len(),
        0 <= lo,
        hi <= f.len(),
    ensures
        rsum(f.update(i, v), lo, hi) == rsum(f, lo, hi) + if lo <= i < hi {
            v - f[i]
        } else {
            0
        },
    decreases hi - lo,
{
    if !(lo < 0 || hi > f.len() || lo >= hi) {
        lemma_rsum_update(f, i, v, lo + 1, hi);
    }
}

/// The sum of a constant range.
pub proof fn lemma_rsum_const(f: Seq<u32>, v: u32, lo: int, hi: int)
    requires
        0 <= lo,
        hi <= f.len(),
        forall|k: int| lo <= k < hi ==> f[k] == v,
    ensures
        rsum(f, lo, hi) == if lo <= hi {
            v * (hi - lo)
        } else {
            0
        },
    decreases hi - lo,
{
    if lo < hi {
        lemma_rsum_const(f, v, lo + 1, hi);
        assert(f[lo] == v);
        assert(rsum(f, lo, hi) == v + rsum(f, lo + 1, hi));
        assert(rsum(f, lo + 1, hi) == (v as int) * (hi - (lo + 1)));
        assert((v as int) * (hi - lo) == v + (v as int) * (hi - (lo + 1))) by (nonlinear_arith);
        assert(rsum(f, lo, hi) == (v as int) * (hi - lo));
    } else {
        assert(rsum(f, lo, hi) == 0);
        if lo <= hi {
            assert(hi - lo == 0);
            assert((v as int) * 0 == 0);
        }
    }
}

/// Subtracting the halves slot by slot at most halves the sum, up to one
/// unit per slot.
pub proof fn lemma_rsum_sub_half(f: Seq<u32>, g: Seq<u32>, lo: int, hi: int)
    requires
        g.len() == f.len(),
        0 <= lo <= hi <= f.len(),
        forall|k: int| lo <= k < hi ==> #[trigger] g[k] == f[k] - f[k] / 2,
    ensures
        2 * rsum(g, lo, hi) <= rsum(f, lo, hi) + (hi - lo),
    decreases hi - lo,
{
    if !(lo < 0 || hi > f.len() || lo >= hi) {
        lemma_rsum_sub_half(f, g, lo + 1, hi);
        let x = f[lo] as int;
        assert(g[lo] == f[lo] - f[lo] / 2);
        assert(2 * (x - x / 2) <= x + 1) by (nonlinear_arith)
            requires
                x >= 0,
        ;
    } else {
        lemma_rsum_nonneg(g, lo, hi);
    }
}

/// A Fenwick tree over `u32` counts.  The mathematical view is the
/// sequence of per-slot values; `tree` is the one-based node array.
pub struct FenwickTree {
    tree: Vec<u32>,
    freqs: Ghost<Seq<u32>>,
}

impl View for FenwickTree {
    type V = Seq<u32>;

    closed spec fn view(&self) -> Seq<u32> {
        self.freqs@
    }
}

impl FenwickTree {
    /// Well-formed: the node array matches the slot sequence, every node
    /// holds the sum of the slots it covers, and the whole sum fits in a
    /// `u32`.
    pub closed spec fn wf(&self) -> bool {
        &&& self.tree@.len() == self.freqs@.len() + 1
        &&& 1 <= self.freqs@.len() <= 0x1000_0000
        &&& forall|j: int|
            1 <= j < self.tree@.len() ==> #[trigger] self.tree@[j] == rsum(
                self.freqs@,
                j - lsb(j),
                j,
            )
        &&& total_spec(self.freqs@) <= u32::MAX
    }

    /// A tree of `size` slots, each holding `initial_value` (1 when
    /// absent).
    pub fn new(size: usize, initial_value: Option<u32>) -> (r: FenwickTree)
        requires
            1 <= size <= 0x1000_0000,
            size * (match initial_value {
                Some(v) => v as int,
                None => 1int,
            }) <= u32::MAX,
        ensures
            r.wf(),
            r@.len() == size,
            forall|k: int|
                0 <= k < size ==> r@[k] == (match initial_value {
                    Some(v) => v,
                    None => 1u32,
                }),
    {
        let v: u32 = match initial_value {
            Some(v) => v,
            None => 1,
        };
        let mut r = FenwickTree {
            tree: zero_u32s(size + 1),
            freqs: Ghost(Seq::new(size as nat, |k: int| 0u32)),
        };
        proof {
            assert forall|j: int| 1 <= j < r.tree@.len() implies #[trigger] r.tree@[j] == rsum(
                r.freqs@,
                j - lsb(j),
                j,
            ) by {
                lemma_lsb_bounds(j);
                lemma_rsum_const(r.freqs@, 0u32, j - lsb(j), j);
            }
            lemma_rsum_const(r.freqs@, 0u32, 0, size as int);
        }
        let mut i: usize = 0;
        while i < size
            invariant
                i <= size,
                r.wf(),
                r@.len() == size,
                size * (v as int) <= u32::MAX,
                forall|k: int| 0 <= k < i ==> r@[k] == v,
                forall|k: int| i <= k < size ==> r@[k] == 0u32,
                total_spec(r@) == i * (v as int),
            decreases size - i,
        {
            proof {
                lemma_rsum_const(r@, v, 0, i as int);
                assert(i * (v as int) + v == (i + 1) * (v as int)) by (nonlinear_arith);
                assert((i + 1) * (v as int) <= size * (v as int)) by (nonlinear_arith)
                    requires
                        i < size,
                        v >= 0,
                ;
            }
            let ghost before = r@;
            r.add(i, v);
            proof {
                lemma_rsum_update(before, i as int, v, 0, size as int);
            }
            i = i + 1;
        }
        proof {
            lemma_rsum_const(r@, v, 0, size as int);
        }
        r
    }

    /// Prefix sum of slots `0 ..= i`.
    pub fn sum(&self, i: usize) -> (r: u32)
        requires
            self.wf(),
            i < self@.len(),
        ensures
            r == rsum(self@, 0, i + 1),
    {
        let ghost f = self@;
        let mut j: usize = i + 1;
        let mut ret: u32 = 0;
        proof {
            assert(rsum(f, j as int, i + 1) == 0);
        }
        while j > 0
            invariant
                self.wf(),
                f == self@,
                i < f.len(),
                j <= i + 1,
                ret == rsum(f, j as int, i + 1),
            decreases j,
        {
            proof {
                lemma_lsb_bounds(j as int);
                assert(self.tree@[j as int] == rsum(f, j - lsb(j as int), j as int));
                lemma_rsum_concat(f, j - lsb(j as int), j as int, i + 1);
                lemma_rsum_le_total(f, j - lsb(j as int), i + 1);
                lemma_rsum_nonneg(f, j - lsb(j as int), j as int);
                lemma_rsum_nonneg(f, j as int, i + 1);
            }
            let node: u32 = self.tree[j];
            ret = ret + node;
            let step: usize = lowbit(j);
            j = j - step;
        }
        ret
    }

    /// Adds `amt` to slot `i`.
    pub fn add(&mut self, i: usize, amt: u32)
        requires
            old(self).wf(),
            i < old(self)@.len(),
            total_spec(old(self)@) + amt <= u32::MAX,
        ensures
            final(self).wf(),
            final(self)@ == old(self)@.update(
                i as int,
                (old(self)@[i as int] + amt) as u32,
            ),
    {
        let ghost f0 = self.freqs@;
        let ghost p = i as int + 1;
        proof {
            lemma_elem_le_total(f0, i as int);
        }
        let ghost f = f0.update(i as int, (f0[i as int] + amt) as u32);
        self.freqs = Ghost(f);
        proof {
            lemma_rsum_update(f0, i as int, (f0[i as int] + amt) as u32, 0, f0.len() as int);
            assert(total_spec(f) == total_spec(f0) + amt);
            assert forall|k: int| 1 <= k < self.tree@.len() implies #[trigger] self.tree@[k]
                == rsum(f, k - lsb(k), k) - if covers(k, p) {
                amt as int
            } else {
                0
            } by {
                lemma_lsb_bounds(k);
                lemma_rsum_update(f0, i as int, (f0[i as int] + amt) as u32, k - lsb(k), k);
            }
            lemma_lsb_bounds(p);
        }
        let n1: usize = self.tree.len();
        let mut j: usize = i + 1;
        while j < n1
            invariant
                self.freqs@ == f,
                self.tree@.len() == n1,
                n1 == f.len() + 1,
                1 <= f.len() <= 0x1000_0000,
                total_spec(f) <= u32::MAX,
                p == i + 1,
                1 <= p <= j,
                covers(j as int, p),
                forall|k: int|
                    1 <= k < n1 ==> #[trigger] self.tree@[k] == rsum(f, k - lsb(k), k) - if covers(
                        k,
                        p,
                    ) && k >= j {
                        amt as int
                    } else {
                        0
                    },
            decreases 2 * n1 - j,
        {
            proof {
                lemma_lsb_bounds(j as int);
                lemma_rsum_le_total(f, j - lsb(j as int), j as int);
                lemma_rsum_nonneg(f, j - lsb(j as int), j as int);
            }
            let w: u32 = self.tree[j];
            self.tree.set(j, w + amt);
            let step: usize = lowbit(j);
            proof {
                lemma_lsb_step_up(j as int);
                assert forall|k: int|
                    j < k < j + step implies !covers(k, p) by {
                    lemma_lsb_add_small(j as int, k - j);
                    lemma_lsb_bounds(k - j);
                }
            }
            j = j + step;
        }
        proof {
            assert forall|k: int| 1 <= k < self.tree@.len() implies #[trigger] self.tree@[k]
                == rsum(f, k - lsb(k), k) by {
                assert(!(covers(k, p) && k >= j));
            }
        }
    }
    /// Subtracts `amt` from slot `i`; `amt` must not exceed the slot.
    pub fn sub(&mut self, i: usize, amt: u32)
        requires
            old(self).wf(),
            i < old(self)@.len(),
            amt <= old(self)@[i as int],
        ensures
            final(self).wf(),
            final(self)@ == old(self)@.update(
                i as int,
                (old(self)@[i as int] - amt) as u32,
            ),
    {
        let ghost f0 = self.freqs@;
        let ghost p = i as int + 1;
        let ghost f = f0.update(i as int, (f0[i as int] - amt) as u32);
        self.freqs = Ghost(f);
        proof {
            lemma_elem_le_total(f0, i as int);
            lemma_rsum_update(f0, i as int, (f0[i as int] - amt) as u32, 0, f0.len() as int);
            assert(total_spec(f) == total_spec(f0) - amt);
            assert forall|k: int| 1 <= k < self.tree@.len() implies #[trigger] self.tree@[k]
                == rsum(f, k - lsb(k), k) + if covers(k, p) {
                amt as int
            } else {
                0
            } by {
                lemma_lsb_bounds(k);
                lemma_rsum_update(f0, i as int, (f0[i as int] - amt) as u32, k - lsb(k), k);
            }
            lemma_lsb_bounds(p);
        }
        let n1: usize = self.tree.len();
        let mut j: usize = i + 1;
        while j < n1
            invariant
                self.freqs@ == f,
                self.tree@.len() == n1,
                n1 == f.len() + 1,
                1 <= f.len() <= 0x1000_0000,
                total_spec(f) <= u32::MAX,
                p == i + 1,
                1 <= p <= j,
                covers(j as int, p),
                forall|k: int|
                    1 <= k < n1 ==> #[trigger] self.tree@[k] == rsum(f, k - lsb(k), k) + if covers(
                        k,
                        p,
                    ) && k >= j {
                        amt as int
                    } else {
                        0
                    },
            decreases 2 * n1 - j,
        {
            proof {
                lemma_lsb_bounds(j as int);
                lemma_rsum_nonneg(f, j - lsb(j as int), j as int);
            }
            let w: u32 = self.tree[j];
            self.tree.set(j, w - amt);
            let step: usize = lowbit(j);
            proof {
                lemma_lsb_step_up(j as int);
                assert forall|k: int| j < k < j + step implies !covers(k, p) by {
                    lemma_lsb_add_small(j as int, k - j);
                    lemma_lsb_bounds(k - j);
                }
            }
            j = j + step;
        }
        proof {
            assert forall|k: int| 1 <= k < self.tree@.len() implies #[trigger] self.tree@[k]
                == rsum(f, k - lsb(k), k) by {
                assert(!(covers(k, p) && k >= j));
            }
        }
    }

    /// The value of slot `i`.
    pub fn freq(&self, i: usize) -> (r: u32)
        requires
            self.wf(),
            i < self@.len(),
        ensures
            r == self@[i as int],
    {
        let ghost f = self@;
        let j0: usize = i + 1;
        proof {
            lemma_lsb_bounds(j0 as int);
        }
        let mut ret: u32 = self.tree[j0];
        let step0: usize = lowbit(j0);
        let z: usize = j0 - step0;
        let mut j: usize = i;
        proof {
            assert(rsum(f, j as int, j0 - 1) == 0);
        }
        while j > z
            invariant
                self.wf(),
                f == self@,
                i < f.len(),
                j0 == i + 1,
                step0 as int == lsb(j0 as int),
                z == j0 - step0,
                z <= j <= i,
                ret == rsum(f, z as int, j0 as int) - rsum(f, j as int, j0 - 1),
            decreases j,
        {
            proof {
                lemma_lsb_bounds(j0 as int);
                lemma_lsb_bounds(j as int);
                let r = j - z;
                if z > 0 {
                    lemma_lsb_sub(j0 as int);
                    lemma_lsb_bounds(z as int);
                    lemma_lsb_add_small(z as int, r);
                    lemma_lsb_bounds(r);
                    assert(lsb(j as int) == lsb(r) && lsb(r) <= r);
                }
                assert(self.tree@[j as int] == rsum(f, j - lsb(j as int), j as int));
                lemma_rsum_concat(f, z as int, j - lsb(j as int), j0 - 1);
                lemma_rsum_concat(f, j - lsb(j as int), j as int, j0 - 1);
                lemma_rsum_concat(f, z as int, j0 - 1, j0 as int);
                assert(rsum(f, j0 - 1, j0 as int) == f[i as int] + rsum(f, j0 as int, j0 as int));
                lemma_rsum_nonneg(f, z as int, j - lsb(j as int));
                lemma_rsum_nonneg(f, j as int, j0 - 1);
            }
            ret = ret - self.tree[j];
            let step: usize = lowbit(j);
            j = j - step;
        }
        proof {
            lemma_rsum_concat(f, z as int, j0 - 1, j0 as int);
            assert(rsum(f, j0 - 1, j0 as int) == f[i as int] + rsum(f, j0 as int, j0 as int));
        }
        ret
    }

    /// Divides every slot by `factor`, rounding the removed part down:
    /// each slot `x` becomes `x - x / factor`.
    pub fn scale(&mut self, factor: u32)
        requires
            old(self).wf(),
            factor >= 1,
        ensures
            final(self).wf(),
            final(self)@.len() == old(self)@.len(),
            forall|k: int|
                0 <= k < old(self)@.len() ==> #[trigger] final(self)@[k] == old(self)@[k] - old(
                    self,
                )@[k] / factor,
    {
        let n: usize = self.tree.len() - 1;
        let mut idx: usize = n;
        while idx > 0
            invariant
                self.wf(),
                self@.len() == n,
                n == old(self)@.len(),
                factor >= 1,
                idx <= n,
                forall|k: int|
                    idx <= k < n ==> #[trigger] self@[k] == old(self)@[k] - old(self)@[k] / factor,
                forall|k: int| 0 <= k < idx ==> #[trigger] self@[k] == old(self)@[k],
            decreases idx,
        {
            idx = idx - 1;
            let fr: u32 = self.freq(idx);
            let a: u32 = fr / factor;
            proof {
                assert(fr / factor <= fr) by (nonlinear_arith)
                    requires
                        factor >= 1,
                        fr >= 0,
                ;
            }
            self.sub(idx, a);
        }
    }

    /// The sum of all slots.
    pub fn total(&self) -> (r: u32)
        requires
            self.wf(),
        ensures
            r == total_spec(self@),
    {
        let n: usize = self.tree.len();
        self.sum(n - 2)
    }

    /// Cumulative-to-index descent shared by `lower` and `upper`.  When
    /// `strict`, a step is taken while the prefix sum stays strictly
    /// below `c`; otherwise while it stays at or below `c`.
    fn search(&self, c: u32, strict: bool) -> (r: usize)
        requires
            self.wf(),
        ensures
            r <= self@.len(),
            r == 0 || takes_step(strict, rsum(self@, 0, r as int), c as int),
            r == self@.len() || !takes_step(strict, rsum(self@, 0, r as int + 1), c as int),
    {
        let ghost f = self@;
        let n: usize = self.tree.len() - 1;
        let mut mask: usize = next_pow2(n);
        let mut idx: usize = 0;
        let mut s: u32 = c;
        proof {
            assert(rsum(f, 0, 0) == 0);
        }
        while mask > 0
            invariant
                self.wf(),
                f == self@,
                n == f.len(),
                1 <= n <= 0x1000_0000,
                idx <= n,
                mask <= 0x2000_0000,
                mask > 0 ==> is_pow2(mask as int),
                mask > 0 ==> idx as int % (2 * mask as int) == 0,
                rsum(f, 0, idx as int) <= c,
                s == c - rsum(f, 0, idx as int),
                idx == 0 || takes_step(strict, rsum(f, 0, idx as int), c as int),
                if mask > 0 {
                    idx as int + 2 * mask as int > n || !takes_step(
                        strict,
                        rsum(f, 0, idx as int + 2 * mask as int),
                        c as int,
                    )
                } else {
                    idx == n || !takes_step(strict, rsum(f, 0, idx as int + 1), c as int)
                },
            decreases mask,
        {
            let k: usize = idx + mask;
            if k <= n {
                proof {
                    let mi = mask as int;
                    let ii = idx as int;
                    if idx == 0 {
                        assert(lsb(k as int) == mi);
                    } else {
                        assert(is_pow2(2 * mi)) by {
                            assert((2 * mi) % 2 == 0 && (2 * mi) / 2 == mi);
                            assert(lsb(2 * mi) == 2 * lsb(mi));
                        }
                        lemma_lsb_multiple(ii, 2 * mi);
                        lemma_lsb_add_small(ii, mi);
                    }
                    assert(self.tree@[k as int] == rsum(f, k - lsb(k as int), k as int));
                    lemma_rsum_concat(f, 0, ii, k as int);
                }
                let node: u32 = self.tree[k];
                let take: bool = if strict {
                    s > node
                } else {
                    s >= node
                };
                if take {
                    proof {
                        lemma_mod_half_zero(idx as int, mask as int);
                        vstd::arithmetic::div_mod::lemma_mod_add_multiples_vanish(
                            idx as int,
                            mask as int,
                        );
                    }
                    idx = k;
                    s = s - node;
                }
            }
            proof {
                if mask >= 2 {
                    let mi = mask as int;
                    assert(mi % 2 == 0) by {
                        if mi % 2 == 1 {
                            assert(lsb(mi) == 1);
                        }
                    }
                    assert(lsb(mi) == 2 * lsb(mi / 2));
                    assert(is_pow2(mi / 2));
                    if idx as int % (2 * mi) == 0 {
                        lemma_mod_half_zero(idx as int, mask as int);
                    }
                    assert(idx as int % mi == 0);
                    assert(2 * (mi / 2) == mi);
                }
            }
            mask = mask / 2;
        }
        idx
    }

    /// The largest index whose preceding prefix sum is still strictly
    /// below `c` (0 when none), capped at the slot count.
    pub fn lower(&self, c: u32) -> (r: usize)
        requires
            self.wf(),
        ensures
            r <= self@.len(),
            r == 0 || rsum(self@, 0, r as int) < c,
            r == self@.len() || rsum(self@, 0, r as int + 1) >= c,
    {
        self.search(c, true)
    }

    /// The unique index whose cumulative interval contains `c`: the
    /// smallest `r` with `c < sum(r)`, capped at the slot count.
    pub fn upper(&self, c: u32) -> (r: usize)
        requires
            self.wf(),
        ensures
            r <= self@.len(),
            rsum(self@, 0, r as int) <= c,
            r == self@.len() || c < rsum(self@, 0, r as int + 1),
            c < total_spec(self@) ==> r < self@.len(),
    {
        let r = self.search(c, false);
        proof {
            assert(rsum(self@, 0, 0) == 0);
        }
        r
    }
}

/// A prefix sum is the sum of the individual slots: `sum(i)` exceeds
/// `sum(i - 1)` by exactly the value of slot `i`, so by induction
/// `sum(i)` equals the sum of slots `0 ..= i` and `total` equals
/// `sum(len - 1)`.
pub proof fn lemma_sum_decomposes(f: Seq<u32>, i: int)
    requires
        0 <= i < f.len(),
    ensures
        rsum(f, 0, i + 1) == rsum(f, 0, i) + f[i],
        total_spec(f) == rsum(f, 0, f.len() - 1) + f[f.len() - 1],
{
    lemma_rsum_concat(f, 0, i, i + 1);
    assert(rsum(f, i + 1, i + 1) == 0);
    assert(rsum(f, i, i + 1) == f[i]);
    let l = f.len() - 1;
    lemma_rsum_concat(f, 0, l, l + 1);
    assert(rsum(f, l + 1, l + 1) == 0);
    assert(rsum(f, l, l + 1) == f[l]);
}

/// A prefix sum never shrinks as the range grows.
pub proof fn lemma_prefix_monotone(f: Seq<u32>, a: int, b: int)
    requires
        0 <= a <= b <= f.len(),
    ensures
        rsum(f, 0, a) <= rsum(f, 0, b),
{
    lemma_rsum_concat(f, 0, a, b);
    lemma_rsum_nonneg(f, a, b);
}

/// The index returned by `upper` is the only one whose cumulative
/// interval contains `c`.
pub proof fn lemma_upper_unique(f: Seq<u32>, c: int, s1: int, s2: int)
    requires
        0 <= s1 < f.len(),
        0 <= s2 < f.len(),
        rsum(f, 0, s1) <= c < rsum(f, 0, s1 + 1),
        rsum(f, 0, s2) <= c < rsum(f, 0, s2 + 1),
    ensures
        s1 == s2,
{
    if s1 < s2 {
        lemma_prefix_monotone(f, s1 + 1, s2);
    }
    if s2 < s1 {
        lemma_prefix_monotone(f, s2 + 1, s1);
    }
}

/// Whether the descent takes a step at a node whose prefix sum is `s`.
pub open spec fn takes_step(strict: bool, s: int, c: int) -> bool {
    if strict {
        s < c
    } else {
        s <= c
    }
}

/// A multiple of `2 * m` is a multiple of `m`.
proof fn lemma_mod_half_zero(a: int, m: int)
    requires
        m >= 1,
        a % (2 * m) == 0,
    ensures
        a % m == 0,
{
    let q = a / (2 * m);
    vstd::arithmetic::div_mod::lemma_fundamental_div_mod(a, 2 * m);
    assert(a == (2 * m) * q);
    assert(a == (2 * q) * m) by (nonlinear_arith)
        requires
            a == (2 * m) * q,
    ;
    vstd::arithmetic::div_mod::lemma_mod_multiples_basic(2 * q, m);
}

/// The smallest power of two at or above `n`.
fn next_pow2(n: usize) -> (r: usize)
    requires
        1 <= n <= 0x1000_0000,
    ensures
        is_pow2(r as int),
        n <= r,
        r < 2 * n,
{
    let mut r: usize = 1;
    while r < n
        invariant
            1 <= r,
            r < 2 * n,
            n <= 0x1000_0000,
            is_pow2(r as int),
        decreases 2 * n - r,
    {
        proof {
            let ri = r as int;
            assert((2 * ri) % 2 == 0 && (2 * ri) / 2 == ri);
            assert(lsb(2 * ri) == 2 * lsb(ri));
        }
        r = r * 2;
    }
    r
}

/// A vector of `n` zero counts.
fn zero_u32s(n: usize) -> (r: Vec<u32>)
    ensures
        r@.len() == n,
        forall|k: int| 0 <= k < n ==> r@[k] == 0u32,
{
    let mut r: Vec<u32> = Vec::new();
    let mut j: usize = 0;
    while j < n
        invariant
            j <= n,
            r@.len() == j,
            forall|k: int| 0 <= k < j ==> r@[k] == 0u32,
        decreases n - j,
    {
        r.push(0);
        j = j + 1;
    }
    r
}

/// Lowest set bit of a positive index.
fn lowbit(j: usize) -> (r: usize)
    requires
        j >= 1,
    ensures
        r as int == lsb(j as int),
        1 <= r <= j,
{
    proof {
        lemma_lsb_bounds(j as int);
    }
    let mut x: usize = j;
    let mut r: usize = 1;
    while x % 2 == 0
        invariant
            1 <= x <= j,
            1 <= r <= j,
            lsb(j as int) == r * lsb(x as int),
            lsb(x as int) >= 1,
        decreases x,
    {
        proof {
            lemma_lsb_bounds(j as int);
            lemma_lsb_bounds(x as int);
            lemma_lsb_bounds(x as int / 2);
            assert(lsb(x as int) == 2 * lsb(x as int / 2));
            assert(r * (2 * lsb(x as int / 2)) == (2 * r) * lsb(x as int / 2)) by (nonlinear_arith);
            assert(2 * r <= (2 * r) * lsb(x as int / 2)) by (nonlinear_arith)
                requires
                    r >= 1,
                    lsb(x as int / 2) >= 1,
            ;
            assert((2 * r) * lsb(x as int / 2) == lsb(j as int));
        }
        x = x / 2;
        r = r * 2;
    }
    proof {
        assert(lsb(x as int) == 1);
        assert(r * 1 == r) by (nonlinear_arith);
    }
    r
}

} // verus!

//! A read-only weighted blend of two frequency models.
use vstd::arithmetic::power2::pow2;
use vstd::bits::lemma_u32_shr_is_div;
use vstd::prelude::*;

use crate::model::{lemma_prefix_monotone, prefix_sum, Border, CumulativeModel, Model, ModelState};

verus! {

/// The abstract state of a blend: `(wa * A + wb * B) >> ws`.
pub struct BlendState {
    pub first: ModelState,
    pub second: ModelState,
    pub w_first: nat,
    pub w_second: nat,
    pub w_shift: nat,
}

impl BlendState {
    /// Both models well formed, of one alphabet size, and the weighted totals fit a `Border`.
    pub open spec fn wf(self) -> bool {
        &&& self.first.wf()
        &&& self.second.wf()
        &&& self.first.table.len() == self.second.table.len()
        &&& self.w_shift < 32
        &&& self.w_first * self.first.total + self.w_second * self.second.total <= u32::MAX
    }

    /// Number of values of the alphabet.
    pub open spec fn len(self) -> nat {
        self.first.table.len()
    }

    /// Blended cumulative frequency before value `v`.
    pub open spec fn cum(self, v: int) -> nat {
        (self.w_first * prefix_sum(self.first.table, v) + self.w_second * prefix_sum(
            self.second.table,
            v,
        )) / pow2(self.w_shift)
    }

    /// Low end of the blended interval of `v`.
    pub open spec fn lo(self, v: int) -> nat {
        self.cum(v)
    }

    /// High end of the blended interval of `v`.
    pub open spec fn hi(self, v: int) -> nat {
        self.cum(v + 1)
    }

    /// The blended denominator.
    pub open spec fn denominator(self) -> nat {
        (self.w_first * self.first.total + self.w_second * self.second.total) / pow2(self.w_shift)
    }
}

proof fn lemma_cum_monotone(s: BlendState, v: int, w: int)
    requires
        v <= w,
    ensures
        s.cum(v) <= s.cum(w),
{
    lemma_prefix_monotone(s.first.table, v, w);
    lemma_prefix_monotone(s.second.table, v, w);
    let a = s.w_first * prefix_sum(s.first.table, v) + s.w_second * prefix_sum(s.second.table, v);
    let b = s.w_first * prefix_sum(s.first.table, w) + s.w_second * prefix_sum(s.second.table, w);
    assert(a <= b) by (nonlinear_arith)
        requires
            prefix_sum(s.first.table, v) <= prefix_sum(s.first.table, w),
            prefix_sum(s.second.table, v) <= prefix_sum(s.second.table, w),
            a == s.w_first * prefix_sum(s.first.table, v) + s.w_second * prefix_sum(s.second.table, v),
            b == s.w_first * prefix_sum(s.first.table, w) + s.w_second * prefix_sum(s.second.table, w),
    ;
    vstd::arithmetic::power2::lemma_pow2_pos(s.w_shift);
    vstd::arithmetic::div_mod::lemma_div_is_ordered(a as int, b as int, pow2(s.w_shift) as int);
}

/// The blended intervals partition `[0, denominator)`, and each offset under the
/// denominator lies in the interval of exactly one value.
pub proof fn lemma_blend_partition(s: BlendState, offset: nat, v: int, w: int)
    requires
        s.wf(),
        0 <= v < s.len(),
        0 <= w < s.len(),
        s.lo(v) <= offset < s.hi(v),
        s.lo(w) <= offset < s.hi(w),
    ensures
        v == w,
        s.lo(0) == 0,
        s.hi(s.len() - 1) == s.denominator(),
        forall|u: int| 0 <= u < s.len() ==> #[trigger] s.hi(u) == s.lo(u + 1),
        forall|u: int| 0 <= u < s.len() ==> s.lo(u) <= #[trigger] s.hi(u),
{
    if v < w {
        lemma_cum_monotone(s, v + 1, w);
    } else if w < v {
        lemma_cum_monotone(s, w + 1, v);
    }
    assert forall|u: int| 0 <= u < s.len() implies s.lo(u) <= #[trigger] s.hi(u) by {
        lemma_cum_monotone(s, u, u + 1);
    }
    assert(prefix_sum(s.first.table, 0) == 0);
    assert(prefix_sum(s.second.table, 0) == 0);
    vstd::arithmetic::power2::lemma_pow2_pos(s.w_shift);
}

/// A proxy model for the blend of two frequency tables: `(wa * A + wb * B) >> ws`.
pub struct SumProxy<'a> {
    first: &'a Model,
    second: &'a Model,
    w_first: Border,
    w_second: Border,
    w_shift: Border,
}

impl<'a> View for SumProxy<'a> {
    type V = BlendState;

    closed spec fn view(&self) -> BlendState {
        BlendState {
            first: self.first@,
            second: self.second@,
            w_first: self.w_first as nat,
            w_second: self.w_second as nat,
            w_shift: self.w_shift as nat,
        }
    }
}

proof fn lemma_weighted_fits(s: BlendState, v: int)
    requires
        s.wf(),
        0 <= v <= s.len(),
    ensures
        s.w_first * prefix_sum(s.first.table, v) <= s.w_first * s.first.total,
        s.w_second * prefix_sum(s.second.table, v) <= s.w_second * s.second.total,
{
    lemma_prefix_monotone(s.first.table, v, s.len() as int);
    lemma_prefix_monotone(s.second.table, v, s.len() as int);
    vstd::arithmetic::mul::lemma_mul_inequality(prefix_sum(s.first.table, v) as int, s.first.total as int, s.w_first as int);
    vstd::arithmetic::mul::lemma_mul_inequality(prefix_sum(s.second.table, v) as int, s.second.total as int, s.w_second as int);
    vstd::arithmetic::mul::lemma_mul_is_commutative(prefix_sum(s.first.table, v) as int, s.w_first as int);
    vstd::arithmetic::mul::lemma_mul_is_commutative(s.first.total as int, s.w_first as int);
    vstd::arithmetic::mul::lemma_mul_is_commutative(prefix_sum(s.second.table, v) as int, s.w_second as int);
    vstd::arithmetic::mul::lemma_mul_is_commutative(s.second.total as int, s.w_second as int);
}

impl<'a> SumProxy<'a> {
    /// Create a blend of `fa` weighted by `wa` and `fb` weighted by `wb`, shifted right by `shift`.
    pub fn new(wa: Border, fa: &'a Model, wb: Border, fb: &'a Model, shift: Border) -> (r: SumProxy<'a>)
        requires
            fa@.wf(),
            fb@.wf(),
            fa@.table.len() == fb@.table.len(),
            shift < 32,
            wa * fa@.total + wb * fb@.total <= u32::MAX,
        ensures
            r@ == (BlendState {
                first: fa@,
                second: fb@,
                w_first: wa as nat,
                w_second: wb as nat,
                w_shift: shift as nat,
            }),
            r@.wf(),
    {
        SumProxy { first: fa, second: fb, w_first: wa, w_second: wb, w_shift: shift }
    }

    /// The blend of two cumulative frequencies.
    fn mix(&self, a: Border, b: Border, Ghost(v): Ghost<int>) -> (r: Border)
        requires
            self@.wf(),
            0 <= v <= self@.len(),
            a == prefix_sum(self@.first.table, v),
            b == prefix_sum(self@.second.table, v),
        ensures
            r == self@.cum(v),
    {
        proof {
            lemma_weighted_fits(self@, v);
        }
        let x: u32 = self.w_first * a + self.w_second * b;
        proof {
            lemma_u32_shr_is_div(x, self.w_shift);
        }
        x >> self.w_shift
    }
}

impl<'a> CumulativeModel for SumProxy<'a> {
    open spec fn spec_valid(&self) -> bool {
        self@.wf()
    }

    open spec fn spec_len(&self) -> nat {
        self@.len()
    }

    open spec fn spec_cum(&self, v: int) -> nat {
        self@.cum(v)
    }

    open spec fn spec_denominator(&self) -> nat {
        self@.denominator()
    }

    /// Return the half-open blended interval of `value`.
    fn get_range(&self, value: usize) -> (r: (Border, Border)) {
        let (lo0, hi0) = self.first.get_range(value);
        let (lo1, hi1) = self.second.get_range(value);
        (self.mix(lo0, lo1, Ghost(value as int)), self.mix(hi0, hi1, Ghost(value as int + 1)))
    }

    /// Find the value whose blended interval holds `offset`, with that interval.
    fn find_value(&self, offset: Border) -> (r: (usize, Border, Border)) {
        let fa = self.first.get_frequencies();
        let fb = self.second.get_frequencies();
        let n = fa.len();
        let ghost s = self@;
        proof {
            assert(prefix_sum(s.first.table, 0) == 0);
            assert(prefix_sum(s.second.table, 0) == 0);
            vstd::arithmetic::power2::lemma_pow2_pos(s.w_shift);
            if n == 0 {
                assert(s.first.total == 0 && s.second.total == 0);
                assert(s.w_first * s.first.total + s.w_second * s.second.total == 0) by (nonlinear_arith)
                    requires
                        s.first.total == 0 && s.second.total == 0,
                ;
                assert(s.denominator() == 0);
            }
            lemma_prefix_monotone(s.first.table, 1, n as int);
            lemma_prefix_monotone(s.second.table, 1, n as int);
        }
        let mut value: usize = 0;
        let mut lo: Border = 0;
        let mut cum_a: Border = fa[0] as Border;
        let mut cum_b: Border = fb[0] as Border;
        let mut hi: Border = self.mix(cum_a, cum_b, Ghost(1));
        while hi <= offset
            invariant
                s == self@,
                s.wf(),
                fa@ == s.first.table,
                fb@ == s.second.table,
                n == s.len(),
                value < n,
                cum_a == prefix_sum(s.first.table, value as int + 1),
                cum_b == prefix_sum(s.second.table, value as int + 1),
                lo == s.cum(value as int),
                hi == s.cum(value as int + 1),
                lo <= offset,
                offset < s.denominator(),
            decreases n - value,
        {
            proof {
                if value + 1 >= n {
                    assert(value as int + 1 == s.len());
                    assert(hi == s.denominator());
                }
            }
            lo = hi;
            value = value + 1;
            proof {
                lemma_prefix_monotone(s.first.table, value as int + 1, n as int);
                lemma_prefix_monotone(s.second.table, value as int + 1, n as int);
            }
            cum_a = cum_a + fa[value] as Border;
            cum_b = cum_b + fb[value] as Border;
            hi = self.mix(cum_a, cum_b, Ghost(value as int + 1));
        }
        (value, lo, hi)
    }

    /// The blended denominator: `(wa * total_a + wb * total_b) >> ws`.
    fn get_denominator(&self) -> (r: Border) {
        self.mix(self.first.get_denominator(), self.second.get_denominator(), Ghost(self@.len() as int))
    }
}

} // verus!

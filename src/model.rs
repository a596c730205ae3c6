//! Frequency table model: an adaptive cumulative-frequency table over a fixed alphabet.
use vstd::arithmetic::power2::{pow2, lemma2_to64, lemma_pow2_pos, lemma_pow2_strictly_increases};
use vstd::bits::{lemma_u32_shl_is_mul, lemma_u32_shr_is_div, lemma_u32_pow2_no_overflow};
use vstd::prelude::*;

verus! {

/// Cumulative frequency values, the numeric space of the coder.
pub type Border = u32;

/// The frequency of one symbol.
pub type Frequency = u16;

/// The largest alphabet whose initial frequencies always sum to a `Border`.
pub const MAX_VALUES: usize = 65537;

/// Sum of the first `n` frequencies of `t`.
pub open spec fn prefix_sum(t: Seq<Frequency>, n: int) -> nat
    decreases n,
{
    if n <= 0 {
        0
    } else {
        prefix_sum(t, n - 1) + t[n - 1] as nat
    }
}

/// Sum of all frequencies of `t`.
pub open spec fn sum(t: Seq<Frequency>) -> nat {
    prefix_sum(t, t.len() as int)
}

/// `f` divided by `2^shift`, rounded up.
pub open spec fn halved(f: Frequency, shift: nat) -> Frequency {
    ((f as int + pow2(shift) - 1) / (pow2(shift) as int)) as Frequency
}

/// The abstract state of a frequency model.
pub struct ModelState {
    pub table: Seq<Frequency>,
    pub total: nat,
    pub threshold: nat,
    pub shift: nat,
}

impl ModelState {
    /// Sum invariant and bounds, with `total` allowed to reach the threshold.
    pub open spec fn consistent(self) -> bool {
        &&& self.total == sum(self.table)
        &&& self.table.len() < self.threshold
        &&& self.threshold <= u32::MAX
        &&& 1 <= self.shift <= 15
    }

    /// Well-formed: consistent and under the threshold.
    pub open spec fn wf(self) -> bool {
        self.consistent() && self.total < self.threshold
    }

    /// Low end of the interval of `v`.
    pub open spec fn lo(self, v: int) -> nat {
        prefix_sum(self.table, v)
    }

    /// High end of the interval of `v`.
    pub open spec fn hi(self, v: int) -> nat {
        prefix_sum(self.table, v + 1)
    }

    /// Every frequency divided by `2^shift`, rounded up, with the total recomputed.
    pub open spec fn downscaled(self) -> ModelState {
        let t = Seq::new(self.table.len(), |i: int| halved(self.table[i], self.shift));
        ModelState { table: t, total: sum(t), ..self }
    }

    /// Downscaled until the total is under the threshold (or no longer shrinks).
    pub open spec fn rescaled(self) -> ModelState
        decreases self.total,
    {
        if self.total < self.threshold || self.downscaled().total >= self.total {
            self
        } else {
            self.downscaled().rescaled()
        }
    }

    /// The increment that an update with `add_log` and `add_const` adds.
    pub open spec fn increment(self, add_log: nat, add_const: nat) -> nat {
        self.total / pow2(add_log) + add_const
    }

    /// `add` added to the frequency of `v` and to the total.
    pub open spec fn bumped(self, v: int, add: nat) -> ModelState {
        ModelState {
            table: self.table.update(v, (self.table[v] + add) as Frequency),
            total: self.total + add,
            ..self
        }
    }

    /// The state after adapting in favour of `v`.
    pub open spec fn updated(self, v: int, add_log: nat, add_const: nat) -> ModelState {
        self.bumped(v, self.increment(add_log, add_const)).rescaled()
    }

    /// Every frequency set to 1.
    pub open spec fn reset(self) -> ModelState {
        ModelState { table: Seq::new(self.table.len(), |i: int| 1 as Frequency), total: self.table.len(), ..self }
    }

    /// The state built from initial frequencies `init`, before any downscale.
    pub open spec fn initial(init: Seq<Frequency>, threshold: nat) -> ModelState {
        ModelState { table: init, total: sum(init), threshold, shift: 1 }
    }

    /// The uniform state: every frequency 1.
    pub open spec fn flat(n: nat, threshold: nat) -> ModelState {
        ModelState { table: Seq::new(n, |i: int| 1 as Frequency), total: n, threshold, shift: 1 }
    }
}

/// Prefix sums grow with the prefix.
pub proof fn lemma_prefix_monotone(t: Seq<Frequency>, a: int, b: int)
    requires
        a <= b,
    ensures
        prefix_sum(t, a) <= prefix_sum(t, b),
    decreases b - a,
{
    if a < b {
        lemma_prefix_monotone(t, a, b - 1);
    }
}

/// Prefix sums depend only on the frequencies inside the prefix.
pub proof fn lemma_prefix_agree(a: Seq<Frequency>, b: Seq<Frequency>, n: int)
    requires
        n <= a.len(),
        n <= b.len(),
        forall|j: int| 0 <= j < n ==> a[j] == b[j],
    ensures
        prefix_sum(a, n) == prefix_sum(b, n),
    decreases n,
{
    if n > 0 {
        lemma_prefix_agree(a, b, n - 1);
    }
}

/// How a prefix sum changes when one frequency is replaced.
pub proof fn lemma_prefix_update(t: Seq<Frequency>, v: int, x: Frequency, n: int)
    requires
        0 <= v < t.len(),
        n <= t.len(),
    ensures
        prefix_sum(t.update(v, x), n) + (if v < n { t[v] as int } else { 0 })
            == prefix_sum(t, n) + (if v < n { x as int } else { 0 }),
    decreases n,
{
    if n > 0 {
        lemma_prefix_update(t, v, x, n - 1);
    }
}

/// A table of ones sums to its length.
pub proof fn lemma_prefix_ones(t: Seq<Frequency>, n: int)
    requires
        0 <= n <= t.len(),
        forall|j: int| 0 <= j < n ==> t[j] == 1,
    ensures
        prefix_sum(t, n) == n,
    decreases n,
{
    if n > 0 {
        lemma_prefix_ones(t, n - 1);
    }
}

proof fn lemma_halved(f: Frequency, shift: nat)
    requires
        1 <= shift <= 15,
    ensures
        halved(f, shift) == (f as int + pow2(shift) - 1) / (pow2(shift) as int),
        halved(f, shift) <= f,
        f >= 2 ==> halved(f, shift) < f,
        f >= 1 ==> halved(f, shift) >= 1,
        f == 0 ==> halved(f, shift) == 0,
{
    lemma_pow2_strictly_increases(0, shift);
    lemma_pow2_pos(shift);
    lemma2_to64();
    let p = pow2(shift) as int;
    let q = (f as int + p - 1) / p;
    assert(q * p <= f + p - 1 && f + p - 1 < q * p + p) by (nonlinear_arith)
        requires
            p >= 2,
            q == (f as int + p - 1) / p,
    ;
    assert(q <= f) by (nonlinear_arith)
        requires
            p >= 2,
            q * p <= f + p - 1,
            f >= 0,
    ;
    assert(f >= 2 ==> q < f) by (nonlinear_arith)
        requires
            p >= 2,
            q * p <= f + p - 1,
    ;
    assert(f >= 1 ==> q >= 1) by (nonlinear_arith)
        requires
            p >= 2,
            f + p - 1 < q * p + p,
    ;
    assert(f == 0 ==> q == 0) by (nonlinear_arith)
        requires
            p >= 2,
            q * p <= f + p - 1,
            f + p - 1 < q * p + p,
    ;
}

proof fn lemma_prefix_halved(t: Seq<Frequency>, shift: nat, n: int)
    requires
        1 <= shift <= 15,
        0 <= n <= t.len(),
    ensures
        ({
            let h = Seq::new(t.len(), |i: int| halved(t[i], shift));
            &&& prefix_sum(h, n) <= prefix_sum(t, n)
            &&& prefix_sum(t, n) > n ==> prefix_sum(h, n) < prefix_sum(t, n)
        }),
    decreases n,
{
    if n > 0 {
        lemma_prefix_halved(t, shift, n - 1);
        lemma_halved(t[n - 1], shift);
    }
}

proof fn lemma_downscaled(s: ModelState)
    requires
        s.consistent(),
    ensures
        s.downscaled().consistent(),
        s.downscaled().total <= s.total,
        s.total >= s.threshold ==> s.downscaled().total < s.total,
        forall|i: int| 0 <= i < s.table.len() && s.table[i] > 0 ==> s.downscaled().table[i] > 0,
{
    lemma_prefix_halved(s.table, s.shift, s.table.len() as int);
    assert forall|i: int| 0 <= i < s.table.len() && s.table[i] > 0 implies s.downscaled().table[i] > 0 by {
        lemma_halved(s.table[i], s.shift);
    }
}

/// Rescaling a consistent state makes it well formed and keeps every non-zero
/// frequency non-zero.
pub proof fn lemma_rescaled(s: ModelState)
    requires
        s.consistent(),
    ensures
        s.rescaled().wf(),
        s.rescaled().table.len() == s.table.len(),
        s.rescaled().threshold == s.threshold,
        s.rescaled().shift == s.shift,
        forall|i: int| 0 <= i < s.table.len() && s.table[i] > 0 ==> s.rescaled().table[i] > 0,
    decreases s.total,
{
    lemma_downscaled(s);
    if s.total >= s.threshold {
        lemma_rescaled(s.downscaled());
    }
}

/// Downscaling never drives a non-zero frequency to zero, and keeps the sum invariant.
pub proof fn lemma_downscale_reachability(s: ModelState)
    requires
        s.wf(),
    ensures
        s.downscaled().wf(),
        forall|i: int| 0 <= i < s.table.len() && s.table[i] > 0 ==> s.downscaled().table[i] > 0,
{
    lemma_downscaled(s);
}

/// The intervals partition `[0, total)`: the first starts at 0, each ends where the
/// next starts, and the last ends at the total.
pub proof fn lemma_partition(s: ModelState)
    requires
        s.wf(),
    ensures
        s.lo(0) == 0,
        forall|v: int| 0 <= v < s.table.len() ==> #[trigger] s.hi(v) == s.lo(v + 1),
        forall|v: int| 0 <= v < s.table.len() ==> s.lo(v) <= #[trigger] s.hi(v),
        s.table.len() > 0 ==> s.hi(s.table.len() - 1) == s.total,
{
}

/// Each offset under the total lies in the interval of exactly one value.
pub proof fn lemma_find_unique(s: ModelState, offset: nat, v: int, w: int)
    requires
        s.wf(),
        0 <= v < s.table.len(),
        0 <= w < s.table.len(),
        s.lo(v) <= offset < s.hi(v),
        s.lo(w) <= offset < s.hi(w),
    ensures
        v == w,
{
    if v < w {
        lemma_prefix_monotone(s.table, v + 1, w);
    } else if w < v {
        lemma_prefix_monotone(s.table, w + 1, v);
    }
}

/// Adapting or downscaling a well-formed state keeps the total equal to the sum of
/// the table and under the threshold.
pub proof fn lemma_sum_invariant(s: ModelState, v: int, add_log: nat, add_const: nat)
    requires
        s.wf(),
        0 <= v < s.table.len(),
        s.table[v] + s.increment(add_log, add_const) <= u16::MAX,
    ensures
        s.downscaled().wf(),
        s.updated(v, add_log, add_const).wf(),
        s.updated(v, add_log, add_const).table.len() == s.table.len(),
{
    lemma_downscaled(s);
    let b = s.bumped(v, s.increment(add_log, add_const));
    lemma_prefix_update(s.table, v, (s.table[v] + s.increment(add_log, add_const)) as Frequency, s.table.len() as int);
    lemma_rescaled(b);
}

/// A simple table of frequencies.
pub struct Model {
    /// sum of frequencies
    total: Border,
    /// main table: value -> frequency
    table: Vec<Frequency>,
    /// maximum allowed sum of frequencies (exclusive)
    cut_threshold: Border,
    /// number of bits to shift on downscale
    cut_shift: usize,
}

impl View for Model {
    type V = ModelState;

    closed spec fn view(&self) -> ModelState {
        ModelState {
            table: self.table@,
            total: self.total as nat,
            threshold: self.cut_threshold as nat,
            shift: self.cut_shift as nat,
        }
    }
}

impl Model {
    /// Create a table whose frequency of each value `i` is `fn_init(i)`,
    /// downscaled until the total is under `threshold`.
    pub fn new_custom<F: Fn(usize) -> Frequency>(num_values: usize, threshold: Border, fn_init: F) -> (r: Model)
        requires
            num_values < threshold,
            num_values <= MAX_VALUES,
            forall|i: usize| i < num_values ==> fn_init.requires((i,)),
        ensures
            r@.wf(),
            exists|init: Seq<Frequency>|
                #![trigger ModelState::initial(init, threshold as nat)]
                {
                    &&& init.len() == num_values
                    &&& forall|i: int| 0 <= i < num_values ==> fn_init.ensures((i as usize,), #[trigger] init[i])
                    &&& r@ == ModelState::initial(init, threshold as nat).rescaled()
                },
    {
        let mut freq: Vec<Frequency> = Vec::new();
        let mut total: Border = 0;
        let mut i: usize = 0;
        while i < num_values
            invariant
                0 <= i <= num_values <= MAX_VALUES,
                freq@.len() == i,
                total == sum(freq@),
                total <= i * 65535,
                forall|i: usize| i < num_values ==> fn_init.requires((i,)),
                forall|j: int| 0 <= j < i ==> fn_init.ensures((j as usize,), #[trigger] freq@[j]),
            decreases num_values - i,
        {
            let f = fn_init(i);
            let ghost before = freq@;
            freq.push(f);
            proof {
                lemma_prefix_agree(before, freq@, i as int);
            }
            total = total + f as Border;
            i = i + 1;
        }
        let mut ft = Model { total, table: freq, cut_threshold: threshold, cut_shift: 1 };
        let ghost s0 = ft@;
        proof {
            assert(s0 == ModelState::initial(freq@, threshold as nat));
            lemma_rescaled(s0);
        }
        while ft.total >= threshold
            invariant
                ft@.consistent(),
                ft.cut_threshold == threshold,
                ft@.rescaled() == s0.rescaled(),
            decreases ft.total,
        {
            proof {
                lemma_downscaled(ft@);
            }
            ft.downscale();
        }
        ft
    }

    /// Create a table with all frequencies equal to 1.
    pub fn new_flat(num_values: usize, threshold: Border) -> (r: Model)
        requires
            num_values < threshold,
            num_values <= MAX_VALUES,
        ensures
            r@ == ModelState::flat(num_values as nat, threshold as nat),
            r@.wf(),
    {
        let one = |_i: usize| -> (f: Frequency)
            ensures
                f == 1,
            { 1 };
        let r = Model::new_custom(num_values, threshold, one);
        proof {
            let init = choose|init: Seq<Frequency>|
                #![trigger ModelState::initial(init, threshold as nat)]
                {
                    &&& init.len() == num_values
                    &&& forall|i: int| 0 <= i < num_values ==> one.ensures((i as usize,), #[trigger] init[i])
                    &&& r@ == ModelState::initial(init, threshold as nat).rescaled()
                };
            lemma_prefix_ones(init, num_values as int);
            assert(init =~= ModelState::flat(num_values as nat, threshold as nat).table);
        }
        r
    }

    /// Reduce every frequency by `cut_shift` bits, rounding up.
    pub fn downscale(&mut self)
        requires
            old(self)@.consistent(),
        ensures
            final(self)@ == old(self)@.downscaled(),
            old(self)@.wf() ==> final(self)@.wf(),
    {
        let ghost s0 = self@;
        let shift = self.cut_shift;
        proof {
            lemma_u32_pow2_no_overflow(shift as nat);
            lemma_u32_shl_is_mul(1, shift as u32);
            lemma_downscaled(s0);
            lemma2_to64();
            if shift < 15 {
                lemma_pow2_strictly_increases(shift as nat, 15);
            }
        }
        let roundup: u32 = (1u32 << (shift as u32)) - 1;
        let ghost target = s0.downscaled().table;
        self.total = 0;
        let n = self.table.len();
        let mut i: usize = 0;
        while i < n
            invariant
                0 <= i <= n,
                n == self.table.len(),
                n == s0.table.len(),
                roundup + 1 == pow2(shift as nat),
                roundup < 32768,
                s0.total <= u32::MAX,
                shift == s0.shift,
                1 <= shift <= 15,
                s0.consistent(),
                s0.downscaled().total <= s0.total,
                target == s0.downscaled().table,
                self.cut_threshold == s0.threshold,
                self.cut_shift == shift,
                forall|j: int| 0 <= j < i ==> self.table@[j] == target[j],
                forall|j: int| i <= j < n ==> self.table@[j] == s0.table[j],
                self.total == prefix_sum(self.table@, i as int),
            decreases n - i,
        {
            let f = self.table[i];
            let x: u32 = (f as u32) + roundup;
            let h = x >> (shift as u32);
            proof {
                lemma_u32_shr_is_div(x, shift as u32);
                lemma_halved(f, shift as nat);
                assert(h == halved(f, shift as nat));
                assert(target[i as int] == halved(s0.table[i as int], s0.shift));
            }
            let ghost before = self.table@;
            self.table.set(i, h as u16);
            proof {
                lemma_prefix_agree(before, self.table@, i as int);
                lemma_prefix_agree(self.table@, target, i as int + 1);
                lemma_prefix_monotone(target, i as int + 1, n as int);
                assert(prefix_sum(self.table@, i as int + 1) == prefix_sum(self.table@, i as int) + h);
            }
            self.total = self.total + h;
            i = i + 1;
        }
        proof {
            assert(self.table@ =~= target);
        }
    }

    /// Adapt the table in favour of `value`, adding `(total >> add_log) + add_const`
    /// to its frequency, then downscale until the total is under the threshold again.
    pub fn update(&mut self, value: usize, add_log: usize, add_const: Border)
        requires
            old(self)@.wf(),
            value < old(self)@.table.len(),
            add_log < 32,
            old(self)@.increment(add_log as nat, add_const as nat) < 2 * old(self)@.threshold,
            old(self)@.table[value as int] + old(self)@.increment(add_log as nat, add_const as nat)
                <= u16::MAX,
            old(self)@.total + old(self)@.increment(add_log as nat, add_const as nat) <= u32::MAX,
        ensures
            final(self)@ == old(self)@.updated(value as int, add_log as nat, add_const as nat),
            final(self)@.wf(),
    {
        let ghost s0 = self@;
        let ghost inc = s0.increment(add_log as nat, add_const as nat);
        proof {
            lemma_u32_shr_is_div(self.total, add_log as u32);
        }
        let add = (self.total >> (add_log as u32)) + add_const;
        assert(add == inc);
        let f = self.table[value];
        self.table.set(value, f + add as u16);
        self.total = self.total + add;
        let ghost bumped = s0.bumped(value as int, inc);
        proof {
            let n = s0.table.len() as int;
            lemma_prefix_update(s0.table, value as int, (f + add) as Frequency, n);
            assert(self@.table =~= bumped.table);
            assert(self@ == bumped);
            lemma_rescaled(bumped);
        }
        while self.total >= self.cut_threshold
            invariant
                self@.consistent(),
                self@.rescaled() == bumped.rescaled(),
            decreases self.total,
        {
            proof {
                lemma_downscaled(self@);
            }
            self.downscale();
        }
    }

    /// Return the frequencies.
    pub fn get_frequencies(&self) -> (r: &[Frequency])
        ensures
            r@ == self@.table,
    {
        self.table.as_slice()
    }

    /// Reset the table to the flat state: every frequency 1.
    pub fn reset_flat(&mut self)
        requires
            old(self)@.wf(),
        ensures
            final(self)@ == old(self)@.reset(),
            final(self)@.wf(),
    {
        let ghost s0 = self@;
        let n = self.table.len();
        let mut i: usize = 0;
        while i < n
            invariant
                0 <= i <= n,
                n == self.table.len(),
                n == s0.table.len(),
                s0.wf(),
                self.cut_threshold == s0.threshold,
                self.cut_shift == s0.shift,
                forall|j: int| 0 <= j < i ==> self.table@[j] == 1,
            decreases n - i,
        {
            self.table.set(i, 1);
            i = i + 1;
        }
        self.total = n as Border;
        proof {
            assert(self@.table =~= s0.reset().table);
            lemma_prefix_ones(self@.table, n as int);
        }
    }
}

/// The queries that a coder makes of a model: the cumulative interval of a value,
/// the value whose interval holds an offset, and the denominator of the intervals.
pub trait CumulativeModel {
    /// The model is well formed.
    spec fn spec_valid(&self) -> bool;

    /// Number of values of the alphabet.
    spec fn spec_len(&self) -> nat;

    /// Cumulative frequency before value `v`: the interval of `v` is
    /// `[spec_cum(v), spec_cum(v + 1))`.
    spec fn spec_cum(&self, v: int) -> nat;

    /// The denominator of the intervals.
    spec fn spec_denominator(&self) -> nat;

    /// Return the half-open cumulative interval of `value`.
    fn get_range(&self, value: usize) -> (r: (Border, Border))
        requires
            self.spec_valid(),
            value < self.spec_len(),
        ensures
            r.0 == self.spec_cum(value as int),
            r.1 == self.spec_cum(value as int + 1),
    ;

    /// Find the value whose interval holds `offset`, with that interval.
    fn find_value(&self, offset: Border) -> (r: (usize, Border, Border))
        requires
            self.spec_valid(),
            offset < self.spec_denominator(),
        ensures
            r.0 < self.spec_len(),
            r.1 == self.spec_cum(r.0 as int),
            r.2 == self.spec_cum(r.0 as int + 1),
            r.1 <= offset < r.2,
    ;

    /// The denominator of the intervals.
    fn get_denominator(&self) -> (r: Border)
        requires
            self.spec_valid(),
        ensures
            r == self.spec_denominator(),
    ;
}

impl CumulativeModel for Model {
    open spec fn spec_valid(&self) -> bool {
        self@.wf()
    }

    open spec fn spec_len(&self) -> nat {
        self@.table.len()
    }

    open spec fn spec_cum(&self, v: int) -> nat {
        self@.lo(v)
    }

    open spec fn spec_denominator(&self) -> nat {
        self@.total
    }

    /// Return the half-open cumulative interval of `value`.
    fn get_range(&self, value: usize) -> (r: (Border, Border)) {
        let mut lo: Border = 0;
        let mut i: usize = 0;
        while i < value
            invariant
                self@.wf(),
                0 <= i <= value < self@.table.len(),
                lo == prefix_sum(self@.table, i as int),
            decreases value - i,
        {
            proof {
                lemma_prefix_monotone(self@.table, i as int + 1, self@.table.len() as int);
            }
            lo = lo + self.table[i] as Border;
            i = i + 1;
        }
        proof {
            lemma_prefix_monotone(self@.table, value as int + 1, self@.table.len() as int);
        }
        (lo, lo + self.table[value] as Border)
    }

    /// Find the value whose interval holds `offset`, with that interval.
    fn find_value(&self, offset: Border) -> (r: (usize, Border, Border)) {
        let n = self.table.len();
        let mut value: usize = 0;
        let mut lo: Border = 0;
        proof {
            lemma_prefix_monotone(self@.table, 1, n as int);
            assert(prefix_sum(self@.table, 0) == 0);
        }
        let mut hi: Border = self.table[0] as Border;
        while hi <= offset
            invariant
                self@.wf(),
                n == self@.table.len(),
                value < n,
                lo == prefix_sum(self@.table, value as int),
                hi == prefix_sum(self@.table, value as int + 1),
                lo <= offset,
                offset < self@.total,
            decreases n - value,
        {
            proof {
                if value + 1 >= n {
                    assert(value as int + 1 == self@.table.len());
                    assert(hi == self@.total);
                }
            }
            lo = hi;
            value = value + 1;
            proof {
                lemma_prefix_monotone(self@.table, value as int + 1, n as int);
            }
            hi = lo + self.table[value] as Border;
        }
        (value, lo, hi)
    }

    /// The sum of all frequencies: the normalizing constant of the intervals.
    fn get_denominator(&self) -> (r: Border) {
        self.total
    }
}

} // verus!

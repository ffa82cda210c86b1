//! Proportional slicing of a domain `[min, max)` among workers.

use vstd::prelude::*;
use vstd::arithmetic::div_mod::{lemma_div_is_ordered, lemma_div_multiples_vanish, lemma_div_pos_is_pos};
use vstd::arithmetic::mul::{lemma_mul_inequality, lemma_mul_nonnegative, lemma_mul_is_commutative};

verus! {

/// A half-open interval `[lo, hi)` of domain values.
#[derive(Clone, Copy, Debug, PartialEq, Eq, Structural)]
pub struct SubRange {
    pub lo: i64,
    pub hi: i64,
}

impl SubRange {
    /// Whether `v` lies in the interval.
    pub open spec fn contains(self, v: int) -> bool {
        self.lo <= v < self.hi
    }

    /// Number of domain values in the interval; zero when it is empty.
    pub open spec fn size(self) -> nat {
        if self.lo <= self.hi {
            (self.hi - self.lo) as nat
        } else {
            0
        }
    }

    /// Number of domain values in the interval.
    pub fn len(&self) -> (n: u64)
        ensures
            n == self.size(),
    {
        if self.lo <= self.hi {
            (self.hi as i128 - self.lo as i128) as u64
        } else {
            0
        }
    }

    /// Whether the interval holds no domain value.
    pub fn is_empty(&self) -> (b: bool)
        ensures
            b == (self.size() == 0),
    {
        self.hi <= self.lo
    }
}

/// Why a domain cannot be partitioned.
#[derive(Clone, Copy, Debug, PartialEq, Eq, Structural)]
pub enum ConfigError {
    /// The worker count is zero or negative.
    NoWorkers,
    /// The upper bound does not exceed the lower bound.
    EmptyDomain,
}

/// The point lying `num / den` of the way from `min_val` to `max_val`, the
/// offset from `min_val` truncated to an integer.
pub open spec fn boundary(num: int, den: int, min_val: int, max_val: int) -> int {
    min_val + ((max_val - min_val) * num) / den
}

/// Boundaries never leave the domain and never go backwards.
pub proof fn lemma_boundary_monotonic(i: int, j: int, den: int, min_val: int, max_val: int)
    requires
        0 <= i <= j <= den,
        0 < den,
        min_val <= max_val,
    ensures
        min_val <= boundary(i, den, min_val, max_val),
        boundary(i, den, min_val, max_val) <= boundary(j, den, min_val, max_val),
        boundary(j, den, min_val, max_val) <= max_val,
        boundary(0, den, min_val, max_val) == min_val,
        boundary(den, den, min_val, max_val) == max_val,
{
    let span = max_val - min_val;
    lemma_mul_nonnegative(span, i);
    lemma_mul_is_commutative(span, i);
    lemma_mul_is_commutative(span, j);
    lemma_mul_is_commutative(span, den);
    lemma_mul_inequality(i, j, span);
    lemma_mul_inequality(j, den, span);
    lemma_div_pos_is_pos(span * i, den);
    lemma_div_is_ordered(span * i, span * j, den);
    lemma_div_is_ordered(span * j, span * den, den);
    lemma_div_multiples_vanish(span, den);
    assert(span * 0 == 0);
    assert(0int / den == 0);
}

/// Computes the point `num / den` of the way from `min_val` to `max_val`.
pub fn pct_along(num: i64, den: i64, min_val: i64, max_val: i64) -> (r: i64)
    requires
        0 <= num <= den,
        0 < den,
        min_val <= max_val,
    ensures
        r == boundary(num as int, den as int, min_val as int, max_val as int),
        min_val <= r <= max_val,
{
    let span: u128 = (max_val as i128 - min_val as i128) as u128;
    let n: u128 = num as u128;
    let d: u128 = den as u128;
    proof {
        lemma_boundary_monotonic(num as int, num as int, den as int, min_val as int, max_val as int);
        assert(span * n <= 0xffff_ffff_ffff_ffff * 0x7fff_ffff_ffff_ffff) by (nonlinear_arith)
            requires
                0 <= span <= 0xffff_ffff_ffff_ffff,
                0 <= n <= 0x7fff_ffff_ffff_ffff,
        ;
    }
    let offset: u128 = span * n / d;
    (min_val as i128 + offset as i128) as i64
}

/// `ranges` is the proportional slicing of `[domain_min, domain_max)` into
/// `worker_count` consecutive intervals.
pub open spec fn is_slicing(
    ranges: Seq<SubRange>,
    worker_count: int,
    domain_min: int,
    domain_max: int,
) -> bool {
    &&& ranges.len() == worker_count
    &&& forall|i: int|
        0 <= i < worker_count ==> {
            &&& (#[trigger] ranges[i]).lo == boundary(i, worker_count, domain_min, domain_max)
            &&& ranges[i].hi == boundary(i + 1, worker_count, domain_min, domain_max)
        }
}

/// Splits `[domain_min, domain_max)` into `worker_count` consecutive
/// intervals of near-equal size.
pub fn partition(worker_count: i64, domain_min: i64, domain_max: i64) -> (r: Result<
    Vec<SubRange>,
    ConfigError,
>)
    ensures
        worker_count <= 0 ==> r == Err::<Vec<SubRange>, ConfigError>(ConfigError::NoWorkers),
        worker_count > 0 && domain_max <= domain_min ==> r == Err::<Vec<SubRange>, ConfigError>(
            ConfigError::EmptyDomain,
        ),
        worker_count > 0 && domain_min < domain_max ==> r is Ok && is_slicing(
            r->Ok_0@,
            worker_count as int,
            domain_min as int,
            domain_max as int,
        ),
{
    if worker_count <= 0 {
        return Err(ConfigError::NoWorkers);
    }
    if domain_max <= domain_min {
        return Err(ConfigError::EmptyDomain);
    }
    let mut ranges: Vec<SubRange> = Vec::new();
    let mut lo: i64 = pct_along(0, worker_count, domain_min, domain_max);
    let mut i: i64 = 0;
    while i < worker_count
        invariant
            0 <= i <= worker_count,
            domain_min < domain_max,
            lo == boundary(i as int, worker_count as int, domain_min as int, domain_max as int),
            ranges.len() == i,
            forall|k: int|
                0 <= k < i ==> {
                    &&& (#[trigger] ranges@[k]).lo == boundary(
                        k,
                        worker_count as int,
                        domain_min as int,
                        domain_max as int,
                    )
                    &&& ranges@[k].hi == boundary(
                        k + 1,
                        worker_count as int,
                        domain_min as int,
                        domain_max as int,
                    )
                },
        decreases worker_count - i,
    {
        let hi: i64 = pct_along(i + 1, worker_count, domain_min, domain_max);
        ranges.push(SubRange { lo, hi });
        lo = hi;
        i = i + 1;
    }
    Ok(ranges)
}


proof fn lemma_find_slice(
    ranges: Seq<SubRange>,
    worker_count: int,
    domain_min: int,
    domain_max: int,
    v: int,
    k: int,
) -> (i: int)
    requires
        is_slicing(ranges, worker_count, domain_min, domain_max),
        domain_min <= domain_max,
        1 <= k <= worker_count,
        domain_min <= v < boundary(k, worker_count, domain_min, domain_max),
    ensures
        0 <= i < k,
        ranges[i].contains(v),
    decreases k,
{
    lemma_boundary_monotonic(0, k - 1, worker_count, domain_min, domain_max);
    if boundary(k - 1, worker_count, domain_min, domain_max) <= v {
        k - 1
    } else {
        lemma_find_slice(ranges, worker_count, domain_min, domain_max, v, k - 1)
    }
}

/// Whether some interval of `ranges` holds `v`.
pub open spec fn covered(ranges: Seq<SubRange>, v: int) -> bool {
    exists|i: int| 0 <= i < ranges.len() && (#[trigger] ranges[i]).contains(v)
}

/// The slices of a domain cover it exactly: they start at the lower bound,
/// end at the upper bound, each begins where the one before it ends, and
/// every domain value lies in one slice and in no other.
pub proof fn lemma_slicing_covers(
    ranges: Seq<SubRange>,
    worker_count: int,
    domain_min: int,
    domain_max: int,
)
    requires
        1 <= worker_count,
        domain_min <= domain_max,
        is_slicing(ranges, worker_count, domain_min, domain_max),
    ensures
        ranges[0].lo == domain_min,
        ranges[worker_count - 1].hi == domain_max,
        forall|i: int| 0 <= i < worker_count ==> (#[trigger] ranges[i]).lo <= ranges[i].hi,
        forall|i: int| 0 <= i < worker_count - 1 ==> (#[trigger] ranges[i]).hi == ranges[i + 1].lo,
        forall|v: int| domain_min <= v < domain_max <==> #[trigger] covered(ranges, v),
        forall|i: int, j: int, v: int|
            0 <= i < worker_count && 0 <= j < worker_count && #[trigger] ranges[i].contains(v)
                && #[trigger] ranges[j].contains(v) ==> i == j,
{
    lemma_boundary_monotonic(0, worker_count, worker_count, domain_min, domain_max);
    assert forall|i: int| 0 <= i < worker_count implies (#[trigger] ranges[i]).lo
        <= ranges[i].hi && domain_min <= ranges[i].lo && ranges[i].hi <= domain_max by {
        lemma_boundary_monotonic(i, i + 1, worker_count, domain_min, domain_max);
    }
    assert forall|v: int| domain_min <= v < domain_max implies #[trigger] covered(ranges, v) by {
        let i = lemma_find_slice(ranges, worker_count, domain_min, domain_max, v, worker_count);
        assert(ranges[i].contains(v));
    }
    assert forall|i: int, j: int, v: int|
        0 <= i < worker_count && 0 <= j < worker_count && #[trigger] ranges[i].contains(v)
            && #[trigger] ranges[j].contains(v) implies i == j by {
        if i < j {
            lemma_boundary_monotonic(i + 1, j, worker_count, domain_min, domain_max);
        } else if j < i {
            lemma_boundary_monotonic(j + 1, i, worker_count, domain_min, domain_max);
        }
    }
}

} // verus!

//! The whole run: slice the domain, fill one stream per slice, merge.

use vstd::prelude::*;
use vstd::multiset::Multiset;
use crate::generator::{outcome, GeneratorError, Lehmer};
use crate::heap::MaxHeap;
use crate::merge::{
    combined, count_duplicates, lemma_repeats_insert, repeats, stream_views, Tally,
};
use crate::partition::{
    boundary, is_slicing, lemma_boundary_monotonic, partition, ConfigError, SubRange,
};
use crate::producer::{generated, produce, succeeds, value_of, Failure};

verus! {

/// Why a run has no tally.
#[derive(Clone, Copy, Debug, PartialEq, Eq, Structural)]
pub enum RunError {
    /// The configuration is not usable.
    Config(ConfigError),
    /// The generator has no value for some domain value.
    Generator(Failure),
}

/// The values generated for each interval of `ranges`.
pub open spec fn slice_values(ranges: Seq<SubRange>) -> Seq<Multiset<u64>> {
    Seq::new(ranges.len(), |i: int| generated(ranges[i].lo as int, ranges[i].hi as int))
}

/// The values of two adjoining ranges are those of the joined range.
pub proof fn lemma_generated_split(a: int, b: int, c: int)
    requires
        a <= b <= c,
    ensures
        generated(a, c) == generated(a, b).add(generated(b, c)),
    decreases c - b,
{
    broadcast use vstd::multiset::group_multiset_axioms;
    if b == c {
        assert(generated(a, b).add(generated(b, c)) =~= generated(a, c));
    } else {
        lemma_generated_split(a, b, c - 1);
        assert(generated(a, b).add(generated(b, c - 1)).insert(value_of(c - 1))
            =~= generated(a, b).add(generated(b, c)));
    }
}

/// One value is generated for each domain value.
pub proof fn lemma_generated_len(lo: int, hi: int)
    ensures
        generated(lo, hi).len() == if lo <= hi {
            hi - lo
        } else {
            0
        },
    decreases hi - lo,
{
    broadcast use vstd::multiset::group_multiset_axioms;
    if lo < hi {
        lemma_generated_len(lo, hi - 1);
    }
}

proof fn lemma_prefix_generates(
    ranges: Seq<SubRange>,
    worker_count: int,
    domain_min: int,
    domain_max: int,
    k: int,
)
    requires
        1 <= worker_count,
        domain_min <= domain_max,
        is_slicing(ranges, worker_count, domain_min, domain_max),
        0 <= k <= worker_count,
    ensures
        combined(slice_values(ranges.take(k))) == generated(
            domain_min,
            boundary(k, worker_count, domain_min, domain_max),
        ),
    decreases k,
{
    lemma_boundary_monotonic(0, k, worker_count, domain_min, domain_max);
    if k > 0 {
        lemma_prefix_generates(ranges, worker_count, domain_min, domain_max, k - 1);
        lemma_boundary_monotonic(k - 1, k, worker_count, domain_min, domain_max);
        let longer = slice_values(ranges.take(k));
        assert(longer.drop_last() =~= slice_values(ranges.take(k - 1)));
        assert(longer.last() == generated(ranges[k - 1].lo as int, ranges[k - 1].hi as int));
        lemma_generated_split(
            domain_min,
            boundary(k - 1, worker_count, domain_min, domain_max),
            boundary(k, worker_count, domain_min, domain_max),
        );
    }
}

/// However many slices a domain is cut into, the values generated for the
/// slices are together the values generated for the domain.
pub proof fn lemma_slicing_generates_domain(
    ranges: Seq<SubRange>,
    worker_count: int,
    domain_min: int,
    domain_max: int,
)
    requires
        1 <= worker_count,
        domain_min <= domain_max,
        is_slicing(ranges, worker_count, domain_min, domain_max),
    ensures
        combined(slice_values(ranges)) == generated(domain_min, domain_max),
{
    lemma_prefix_generates(ranges, worker_count, domain_min, domain_max, worker_count);
    lemma_boundary_monotonic(0, worker_count, worker_count, domain_min, domain_max);
    assert(ranges.take(worker_count) =~= ranges);
}

/// No two domain values in `[lo, hi)` have the same generated value.
pub open spec fn injective_on(lo: int, hi: int) -> bool {
    forall|u: int, v: int| lo <= u < v < hi ==> value_of(u) != value_of(v)
}

/// A value is among the generated ones exactly when some domain value of
/// the range generates it.
pub proof fn lemma_generated_contains(lo: int, hi: int, x: u64)
    ensures
        generated(lo, hi).count(x) > 0 <==> exists|v: int| lo <= v < hi && value_of(v) == x,
    decreases hi - lo,
{
    broadcast use vstd::multiset::group_multiset_axioms;
    if lo < hi {
        lemma_generated_contains(lo, hi - 1, x);
        if generated(lo, hi).count(x) > 0 {
            if value_of(hi - 1) != x {
                let v = choose|v: int| lo <= v < hi - 1 && value_of(v) == x;
                assert(lo <= v < hi && value_of(v) == x);
            } else {
                assert(lo <= hi - 1 < hi && value_of(hi - 1) == x);
            }
        }
    }
}

/// The generated values of a range hold no repeat exactly when the
/// generator is injective on the range.
pub proof fn lemma_no_repeats_iff_injective(lo: int, hi: int)
    ensures
        repeats(generated(lo, hi)) == 0 <==> injective_on(lo, hi),
    decreases hi - lo,
{
    broadcast use vstd::multiset::group_multiset_axioms;
    if lo < hi {
        let shorter = generated(lo, hi - 1);
        let x = value_of(hi - 1);
        lemma_no_repeats_iff_injective(lo, hi - 1);
        lemma_generated_contains(lo, hi - 1, x);
        lemma_repeats_insert(shorter, x);
        if repeats(generated(lo, hi)) == 0 {
            assert forall|u: int, v: int| lo <= u < v < hi implies value_of(u) != value_of(
                v,
            ) by {
                if v == hi - 1 {
                    if value_of(u) == x {
                        assert(lo <= u < hi - 1 && value_of(u) == x);
                    }
                }
            }
        }
        if injective_on(lo, hi) {
            assert(injective_on(lo, hi - 1));
            if shorter.count(x) > 0 {
                let u = choose|u: int| lo <= u < hi - 1 && value_of(u) == x;
                assert(value_of(u) != value_of(hi - 1));
            }
        }
    } else {
        lemma_repeats_insert(generated(lo, hi), 0);
    }
}

/// Generates a value for every domain value in `[domain_min, domain_max)`,
/// slice by slice, and counts how many of the values repeat another one.
pub fn count_collisions(worker_count: i64, domain_min: i64, domain_max: i64) -> (r: Result<
    Tally,
    RunError,
>)
    ensures
        worker_count <= 0 ==> r == Err::<Tally, RunError>(
            RunError::Config(ConfigError::NoWorkers),
        ),
        worker_count > 0 && domain_max <= domain_min ==> r == Err::<Tally, RunError>(
            RunError::Config(ConfigError::EmptyDomain),
        ),
        worker_count > 0 && domain_min < domain_max && succeeds(
            domain_min as int,
            domain_max as int,
        ) ==> (r matches Ok(t) && t.total == domain_max - domain_min && t.duplicates == repeats(
            generated(domain_min as int, domain_max as int),
        )),
        worker_count > 0 && domain_min < domain_max && !succeeds(
            domain_min as int,
            domain_max as int,
        ) ==> (r matches Err(RunError::Generator(f)) && domain_min <= f.at < domain_max
            && succeeds(domain_min as int, f.at as int) && outcome(f.at) == Err::<
            u64,
            GeneratorError,
        >(f.error)),
{
    let ranges = match partition(worker_count, domain_min, domain_max) {
        Ok(ranges) => ranges,
        Err(e) => { return Err(RunError::Config(e)); },
    };
    let generator = Lehmer::new();
    let mut streams: Vec<MaxHeap<u64>> = Vec::new();
    let mut i: usize = 0;
    proof {
        lemma_boundary_monotonic(0, 0, worker_count as int, domain_min as int, domain_max as int);
    }
    while i < ranges.len()
        invariant
            0 < worker_count,
            domain_min < domain_max,
            is_slicing(ranges@, worker_count as int, domain_min as int, domain_max as int),
            i <= ranges.len(),
            streams.len() == i,
            stream_views(streams@) =~= slice_values(ranges@.take(i as int)),
            succeeds(
                domain_min as int,
                boundary(i as int, worker_count as int, domain_min as int, domain_max as int),
            ),
        decreases ranges.len() - i,
    {
        let range = ranges[i];
        proof {
            lemma_boundary_monotonic(
                i as int,
                i + 1,
                worker_count as int,
                domain_min as int,
                domain_max as int,
            );
        }
        match produce(&generator, range) {
            Ok(stream) => {
                let ghost before = streams@;
                streams.push(stream);
                proof {
                    assert forall|k: int| 0 <= k <= i implies stream_views(streams@)[k]
                        == slice_values(ranges@.take(i + 1))[k] by {
                        if k < i {
                            assert(stream_views(before)[k] == slice_values(
                                ranges@.take(i as int),
                            )[k]);
                        }
                    }
                }
            },
            Err(f) => {
                return Err(RunError::Generator(f));
            },
        }
        i = i + 1;
    }
    proof {
        assert(ranges@.take(i as int) =~= ranges@);
        lemma_slicing_generates_domain(
            ranges@,
            worker_count as int,
            domain_min as int,
            domain_max as int,
        );
        lemma_generated_len(domain_min as int, domain_max as int);
        lemma_boundary_monotonic(
            0,
            worker_count as int,
            worker_count as int,
            domain_min as int,
            domain_max as int,
        );
    }
    Ok(count_duplicates(streams))
}

} // verus!

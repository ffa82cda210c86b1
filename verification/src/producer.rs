//! Filling a stream with the generated values of a range of the domain.

use vstd::prelude::*;
use vstd::multiset::Multiset;
use crate::generator::{outcome, GeneratorError, Lehmer};
use crate::heap::MaxHeap;
use crate::partition::SubRange;

verus! {

/// A domain value for which the generator has no value, and why.
#[derive(Clone, Copy, Debug, PartialEq, Eq, Structural)]
pub struct Failure {
    /// The domain value.
    pub at: i64,
    /// What went wrong there.
    pub error: GeneratorError,
}

/// The generator has a value for every domain value in `[lo, hi)`.
pub open spec fn succeeds(lo: int, hi: int) -> bool {
    forall|v: int| lo <= v < hi ==> (#[trigger] outcome(v as i64)) is Ok
}

/// The value generated for `v`, where there is one.
pub open spec fn value_of(v: int) -> u64 {
    outcome(v as i64)->Ok_0
}

/// The values generated for the domain values in `[lo, hi)`, each as often
/// as it is generated.
pub open spec fn generated(lo: int, hi: int) -> Multiset<u64>
    decreases hi - lo,
{
    if hi <= lo {
        Multiset::empty()
    } else {
        generated(lo, hi - 1).insert(value_of(hi - 1))
    }
}

/// Adds the generated values of `range` to `stream`, in ascending order of
/// the domain values, and stops at the first one that has none.
pub fn extend(generator: &Lehmer, stream: &mut MaxHeap<u64>, range: SubRange) -> (r: Result<
    (),
    Failure,
>)
    ensures
        r is Ok <==> succeeds(range.lo as int, range.hi as int),
        r is Ok ==> final(stream)@ == old(stream)@.add(
            generated(range.lo as int, range.hi as int),
        ),
        r matches Err(f) ==> {
            &&& range.lo <= f.at < range.hi
            &&& succeeds(range.lo as int, f.at as int)
            &&& outcome(f.at) == Err::<u64, GeneratorError>(f.error)
            &&& final(stream)@ == old(stream)@.add(generated(range.lo as int, f.at as int))
        },
{
    let mut v: i64 = range.lo;
    proof {
        broadcast use vstd::multiset::group_multiset_axioms;
        assert(stream@.add(generated(range.lo as int, range.lo as int)) =~= stream@);
    }
    while v < range.hi
        invariant
            range.lo <= v,
            v <= range.hi || v == range.lo,
            succeeds(range.lo as int, v as int),
            stream@ == old(stream)@.add(generated(range.lo as int, v as int)),
        decreases range.hi - v,
    {
        match generator.generate(v) {
            Ok(x) => {
                stream.push(x);
                proof {
                    broadcast use vstd::multiset::group_multiset_axioms;
                    assert(old(stream)@.add(generated(range.lo as int, v as int)).insert(x)
                        =~= old(stream)@.add(generated(range.lo as int, v + 1)));
                }
            },
            Err(error) => {
                return Err(Failure { at: v, error });
            },
        }
        v = v + 1;
    }
    Ok(())
}

/// The stream of the generated values of `range`.
pub fn produce(generator: &Lehmer, range: SubRange) -> (r: Result<MaxHeap<u64>, Failure>)
    ensures
        r is Ok <==> succeeds(range.lo as int, range.hi as int),
        r matches Ok(stream) ==> stream@ == generated(range.lo as int, range.hi as int),
        r matches Err(f) ==> {
            &&& range.lo <= f.at < range.hi
            &&& succeeds(range.lo as int, f.at as int)
            &&& outcome(f.at) == Err::<u64, GeneratorError>(f.error)
        },
{
    let mut stream: MaxHeap<u64> = MaxHeap::new();
    match extend(generator, &mut stream, range) {
        Ok(()) => {
            proof {
                broadcast use vstd::multiset::group_multiset_axioms;
                assert(Multiset::<u64>::empty().add(
                    generated(range.lo as int, range.hi as int),
                ) =~= generated(range.lo as int, range.hi as int));
            }
            Ok(stream)
        },
        Err(f) => Err(f),
    }
}

} // verus!

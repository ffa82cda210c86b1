//! Counting repeated values across sorted streams with a k-way merge.

use vstd::prelude::*;
use vstd::multiset::Multiset;
use crate::heap::{Keyed, MaxHeap};

verus! {

/// The next value waiting to be merged from one stream.
#[derive(Clone, Copy, Debug, PartialEq, Eq, Structural)]
pub struct Candidate {
    /// The value itself.
    pub value: u64,
    /// Index of the stream that the value was taken from.
    pub origin: usize,
}

impl Keyed for Candidate {
    /// Candidates are ordered by value, ties broken by origin.
    open spec fn key(&self) -> int {
        self.value as int * 0x1_0000_0000_0000_0000 + self.origin as int
    }

    fn at_most(&self, other: &Self) -> (b: bool) {
        self.value < other.value || (self.value == other.value && self.origin <= other.origin)
    }
}

/// The outcome of a merge.
#[derive(Clone, Copy, Debug, PartialEq, Eq, Structural)]
pub struct Tally {
    /// How many values were merged.
    pub total: u64,
    /// How many of them equal a value merged before them.
    pub duplicates: u64,
}

/// All values of all streams together.
pub open spec fn combined(streams: Seq<Multiset<u64>>) -> Multiset<u64>
    decreases streams.len(),
{
    if streams.len() == 0 {
        Multiset::empty()
    } else {
        combined(streams.drop_last()).add(streams.last())
    }
}

/// How many values of `m` repeat another one: its size less the number of
/// distinct values in it.
pub open spec fn repeats(m: Multiset<u64>) -> nat {
    (m.len() - m.dom().len()) as nat
}

/// How many of the streams hold a value.
pub open spec fn live_count(streams: Seq<Multiset<u64>>) -> nat
    decreases streams.len(),
{
    if streams.len() == 0 {
        0
    } else {
        live_count(streams.drop_last()) + if streams.last().len() > 0 {
            1nat
        } else {
            0nat
        }
    }
}

/// The contents of each stream.
pub open spec fn stream_views(streams: Seq<MaxHeap<u64>>) -> Seq<Multiset<u64>> {
    Seq::new(streams.len(), |i: int| streams[i]@)
}

/// How many items of `s` equal the item just before them.
pub open spec fn adjacent_repeats(s: Seq<u64>) -> nat
    decreases s.len(),
{
    if s.len() <= 1 {
        0
    } else {
        adjacent_repeats(s.drop_last()) + if s[s.len() - 2] == s.last() {
            1nat
        } else {
            0nat
        }
    }
}

/// No item of `s` is smaller than one before it.
pub open spec fn ascending(s: Seq<u64>) -> bool {
    forall|i: int, j: int| 0 <= i <= j < s.len() ==> s[i] <= s[j]
}

/// Taking a value out of one stream takes it out of all values together.
pub proof fn lemma_combined_remove(streams: Seq<Multiset<u64>>, i: int, x: u64)
    requires
        0 <= i < streams.len(),
        streams[i].count(x) > 0,
    ensures
        combined(streams.update(i, streams[i].remove(x))) == combined(streams).remove(x),
{
    broadcast use vstd::multiset::group_multiset_axioms;
    lemma_combined_update(streams, i, streams[i].remove(x));
    lemma_combined_holds(streams, i, x);
    let left = combined(streams.update(i, streams[i].remove(x)));
    let right = combined(streams).remove(x);
    assert forall|v: u64| left.count(v) == right.count(v) by {
        assert(left.count(v) + streams[i].count(v) == combined(streams).count(v) + streams[
            i
        ].remove(x).count(v));
    }
    assert(left =~= right);
}

/// Adding a value to a multiset adds one repeat exactly when the value was
/// already there.
pub proof fn lemma_repeats_insert(m: Multiset<u64>, x: u64)
    ensures
        m.insert(x).len() == m.len() + 1,
        m.dom().len() <= m.len(),
        m.count(x) > 0 ==> repeats(m.insert(x)) == repeats(m) + 1,
        m.count(x) == 0 ==> repeats(m.insert(x)) == repeats(m),
{
    broadcast use vstd::multiset::group_multiset_axioms;
    broadcast use vstd::set::group_set_axioms;
    lemma_distinct_at_most_len(m);
    assert(m.insert(x).dom() =~= m.dom().insert(x));
}

/// A multiset has no repeat exactly when no value occurs in it twice.
pub proof fn lemma_repeats_none_iff_distinct(m: Multiset<u64>)
    ensures
        repeats(m) == 0 <==> (forall|x: u64| m.count(x) <= 1),
    decreases m.len(),
{
    broadcast use vstd::multiset::group_multiset_axioms;
    if exists|x: u64| m.count(x) >= 2 {
        let x = choose|x: u64| m.count(x) >= 2;
        let rest = m.remove(x);
        assert(m =~= rest.insert(x));
        lemma_repeats_insert(rest, x);
    } else if m.len() == 0 {
        lemma_distinct_at_most_len(m);
    } else {
        let x = m.choose();
        let rest = m.remove(x);
        assert(m =~= rest.insert(x));
        assert(rest.len() == m.len() - 1);
        assert forall|y: u64| rest.count(y) <= 1 by {
            assert(m.count(y) <= 1);
        }
        lemma_repeats_none_iff_distinct(rest);
        lemma_repeats_insert(rest, x);
    }
}

/// Merging distinct values finds no duplicate.
pub proof fn lemma_distinct_values_have_no_repeats(streams: Seq<Multiset<u64>>)
    requires
        forall|x: u64| combined(streams).count(x) <= 1,
    ensures
        repeats(combined(streams)) == 0,
{
    lemma_repeats_none_iff_distinct(combined(streams));
}

/// A stream without values adds nothing to a merge: with or without it the
/// same values are merged.
pub proof fn lemma_empty_stream_is_neutral(streams: Seq<Multiset<u64>>, i: int)
    requires
        0 <= i < streams.len(),
        streams[i].len() == 0,
    ensures
        combined(streams.remove(i)) == combined(streams),
    decreases streams.len(),
{
    broadcast use vstd::multiset::group_multiset_axioms;
    vstd::multiset::lemma_multiset_empty_len(streams[i]);
    if i == streams.len() - 1 {
        assert(streams.remove(i) =~= streams.drop_last());
        assert(combined(streams.drop_last()).add(streams.last()) =~= combined(
            streams.drop_last(),
        ));
    } else {
        let shorter = streams.remove(i);
        assert(shorter.drop_last() =~= streams.drop_last().remove(i));
        assert(shorter.last() == streams.last());
        lemma_empty_stream_is_neutral(streams.drop_last(), i);
    }
}

/// Sorting the values and counting the neighbours that are equal gives the
/// number of repeats.
pub proof fn lemma_sorted_neighbours_count_repeats(s: Seq<u64>)
    requires
        ascending(s),
    ensures
        adjacent_repeats(s) == repeats(s.to_multiset()),
    decreases s.len(),
{
    broadcast use vstd::multiset::group_multiset_axioms;
    broadcast use vstd::set::group_set_axioms;
    if s.len() == 0 {
        s.to_multiset_ensures();
        lemma_distinct_at_most_len(s.to_multiset());
    } else {
        let t = s.drop_last();
        let x = s.last();
        assert(s =~= t.push(x));
        vstd::seq_lib::to_multiset_build(t, x);
        assert(ascending(t)) by {
            assert forall|i: int, j: int| 0 <= i <= j < t.len() implies t[i] <= t[j] by {
                assert(t[i] == s[i] && t[j] == s[j]);
            }
        }
        lemma_sorted_neighbours_count_repeats(t);
        lemma_repeats_insert(t.to_multiset(), x);
        t.to_multiset_ensures();
        if t.len() == 0 {
            assert(t.to_multiset().count(x) == 0);
        } else if t.last() == x {
            assert(t.contains(x));
        } else {
            assert(s[s.len() - 2] == t.last());
            if t.contains(x) {
                let k = choose|k: int| 0 <= k < t.len() && t[k] == x;
                assert(s[k] <= s[s.len() - 2]);
                assert(s[s.len() - 2] <= s[s.len() - 1]);
            }
        }
    }
}

proof fn lemma_combined_update(streams: Seq<Multiset<u64>>, i: int, m: Multiset<u64>)
    requires
        0 <= i < streams.len(),
    ensures
        forall|v: u64| #[trigger]
            combined(streams.update(i, m)).count(v) + streams[i].count(v) == combined(
                streams,
            ).count(v) + m.count(v),
        combined(streams.update(i, m)).len() + streams[i].len() == combined(streams).len()
            + m.len(),
    decreases streams.len(),
{
    broadcast use vstd::multiset::group_multiset_axioms;
    let updated = streams.update(i, m);
    assert(combined(updated) == combined(updated.drop_last()).add(updated.last()));
    assert(combined(streams) == combined(streams.drop_last()).add(streams.last()));
    if i == streams.len() - 1 {
        assert(updated.drop_last() =~= streams.drop_last());
    } else {
        let shorter = streams.drop_last();
        assert(updated.drop_last() =~= shorter.update(i, m));
        lemma_combined_update(shorter, i, m);
    }
}

proof fn lemma_combined_member(streams: Seq<Multiset<u64>>, y: u64) -> (i: int)
    requires
        combined(streams).count(y) > 0,
    ensures
        0 <= i < streams.len(),
        streams[i].count(y) > 0,
    decreases streams.len(),
{
    broadcast use vstd::multiset::group_multiset_axioms;
    if streams.len() == 0 {
        0
    } else if streams.last().count(y) > 0 {
        streams.len() - 1
    } else {
        lemma_combined_member(streams.drop_last(), y)
    }
}

proof fn lemma_combined_holds(streams: Seq<Multiset<u64>>, i: int, y: u64)
    requires
        0 <= i < streams.len(),
        streams[i].count(y) > 0,
    ensures
        combined(streams).count(y) > 0,
    decreases streams.len(),
{
    broadcast use vstd::multiset::group_multiset_axioms;
    if i < streams.len() - 1 {
        lemma_combined_holds(streams.drop_last(), i, y);
    }
}

proof fn lemma_combined_of_empty(streams: Seq<Multiset<u64>>)
    requires
        forall|i: int| 0 <= i < streams.len() ==> (#[trigger] streams[i]).len() == 0,
    ensures
        combined(streams).len() == 0,
    decreases streams.len(),
{
    broadcast use vstd::multiset::group_multiset_axioms;
    if streams.len() > 0 {
        lemma_combined_of_empty(streams.drop_last());
    }
}

proof fn lemma_distinct_at_most_len(m: Multiset<u64>)
    ensures
        m.dom().len() <= m.len(),
    decreases m.len(),
{
    broadcast use vstd::multiset::group_multiset_axioms;
    broadcast use vstd::set::group_set_axioms;
    if m.len() == 0 {
        vstd::multiset::lemma_multiset_empty_len(m);
        assert(m.dom() =~= Set::<u64>::empty());
    } else {
        let x = m.choose();
        let rest = m.remove(x);
        assert(rest.len() == m.len() - 1);
        lemma_distinct_at_most_len(rest);
        assert(m =~= rest.insert(x));
        assert(m.dom() =~= rest.dom().insert(x));
    }
}

/// What is still to be merged from each stream: its contents and, where it
/// has one, its candidate in the frontier.
spec fn pending(front: Seq<Option<u64>>, views: Seq<Multiset<u64>>) -> Seq<Multiset<u64>> {
    Seq::new(
        views.len(),
        |i: int|
            match front[i] {
                Some(v) => views[i].insert(v),
                None => views[i],
            },
    )
}

/// The frontier holds exactly the candidates that `front` lists, once each.
spec fn frontier_matches(frontier: Multiset<Candidate>, front: Seq<Option<u64>>) -> bool {
    &&& forall|c: Candidate| #[trigger] frontier.count(c) <= 1
    &&& forall|c: Candidate| #[trigger]
        frontier.count(c) > 0 <==> (c.origin < front.len() && front[c.origin as int] == Some(
            c.value,
        ))
}

/// A stream's candidate is no smaller than what the stream still holds, and
/// among the first `filled` streams one without a candidate is exhausted.
spec fn candidates_lead(front: Seq<Option<u64>>, views: Seq<Multiset<u64>>, filled: int) -> bool {
    forall|i: int|
        0 <= i < front.len() ==> match #[trigger] front[i] {
            Some(v) => forall|y: u64| views[i].count(y) > 0 ==> y <= v,
            None => i < filled ==> views[i].len() == 0,
        }
}

/// How many streams have a candidate in the frontier.
spec fn occupied(front: Seq<Option<u64>>) -> nat
    decreases front.len(),
{
    if front.len() == 0 {
        0
    } else {
        occupied(front.drop_last()) + if front.last() is Some {
            1nat
        } else {
            0nat
        }
    }
}

proof fn lemma_occupied_bound(front: Seq<Option<u64>>)
    ensures
        occupied(front) <= front.len(),
    decreases front.len(),
{
    if front.len() > 0 {
        lemma_occupied_bound(front.drop_last());
    }
}

proof fn lemma_occupied_update(front: Seq<Option<u64>>, i: int, entry: Option<u64>)
    requires
        0 <= i < front.len(),
    ensures
        occupied(front.update(i, entry)) + (if front[i] is Some {
            1nat
        } else {
            0nat
        }) == occupied(front) + (if entry is Some {
            1nat
        } else {
            0nat
        }),
    decreases front.len(),
{
    let updated = front.update(i, entry);
    if i == front.len() - 1 {
        assert(updated.drop_last() =~= front.drop_last());
    } else {
        assert(updated.drop_last() =~= front.drop_last().update(i, entry));
        lemma_occupied_update(front.drop_last(), i, entry);
    }
}

proof fn lemma_occupied_none(front: Seq<Option<u64>>)
    requires
        forall|i: int| 0 <= i < front.len() ==> front[i] is None,
    ensures
        occupied(front) == 0,
    decreases front.len(),
{
    if front.len() > 0 {
        lemma_occupied_none(front.drop_last());
    }
}

proof fn lemma_live_matches(front: Seq<Option<u64>>, views: Seq<Multiset<u64>>)
    requires
        front.len() == views.len(),
        candidates_lead(front, views, views.len() as int),
    ensures
        occupied(front) == live_count(pending(front, views)),
    decreases front.len(),
{
    broadcast use vstd::multiset::group_multiset_axioms;
    if front.len() > 0 {
        let shorter = front.drop_last();
        assert(pending(shorter, views.drop_last()) =~= pending(front, views).drop_last());
        assert forall|i: int| 0 <= i < shorter.len() implies match #[trigger] shorter[i] {
            Some(v) => forall|y: u64| views.drop_last()[i].count(y) > 0 ==> y <= v,
            None => views.drop_last()[i].len() == 0,
        } by {
            assert(shorter[i] == front[i]);
        }
        lemma_live_matches(shorter, views.drop_last());
        let k = front.len() - 1;
        match front[k] {
            Some(v) => {
                assert(pending(front, views)[k].count(v) > 0);
            },
            None => {},
        }
    }
}

/// Once every stream has been asked for a candidate, a greatest candidate
/// of the frontier is no smaller than anything still to be merged.
proof fn lemma_top_leads(
    frontier: Multiset<Candidate>,
    front: Seq<Option<u64>>,
    views: Seq<Multiset<u64>>,
    top: Candidate,
)
    requires
        front.len() == views.len(),
        front.len() <= usize::MAX,
        frontier_matches(frontier, front),
        candidates_lead(front, views, views.len() as int),
        forall|c: Candidate| frontier.count(c) > 0 ==> c.key() <= top.key(),
    ensures
        forall|y: u64| combined(pending(front, views)).count(y) > 0 ==> y <= top.value,
{
    broadcast use vstd::multiset::group_multiset_axioms;
    assert forall|y: u64| combined(pending(front, views)).count(y) > 0 implies y
        <= top.value by {
        let i = lemma_combined_member(pending(front, views), y);
        match front[i] {
            Some(v) => {
                let c = Candidate { value: v, origin: i as usize };
                assert(frontier.count(c) > 0);
                assert(c.key() <= top.key());
            },
            None => {},
        }
    }
}

/// The frontier is empty exactly when nothing is left to merge.
proof fn lemma_frontier_empties_last(
    frontier: Multiset<Candidate>,
    front: Seq<Option<u64>>,
    views: Seq<Multiset<u64>>,
)
    requires
        front.len() == views.len(),
        front.len() <= usize::MAX,
        frontier_matches(frontier, front),
        candidates_lead(front, views, views.len() as int),
    ensures
        frontier.len() == 0 <==> combined(pending(front, views)).len() == 0,
{
    broadcast use vstd::multiset::group_multiset_axioms;
    let rest = pending(front, views);
    if frontier.len() == 0 {
        assert forall|j: int| 0 <= j < rest.len() implies (#[trigger] rest[j]).len() == 0 by {
            match front[j] {
                Some(v) => {
                    let c = Candidate { value: v, origin: j as usize };
                    assert(frontier.count(c) > 0);
                },
                None => {},
            }
        }
        lemma_combined_of_empty(rest);
    } else {
        let c = frontier.choose();
        assert(frontier.count(c) > 0);
        assert(rest[c.origin as int].count(c.value) > 0);
        lemma_combined_holds(rest, c.origin as int, c.value);
    }
}

/// A k-way merge in progress: the streams, and a frontier that holds the
/// greatest remaining value of every stream that is not exhausted.
pub struct Merger {
    streams: Vec<MaxHeap<u64>>,
    frontier: MaxHeap<Candidate>,
    previous: Option<u64>,
    total: u64,
    duplicates: u64,
    front: Ghost<Seq<Option<u64>>>,
    merged: Ghost<Multiset<u64>>,
}

impl Merger {
    /// The frontier holds one candidate for each stream that is not
    /// exhausted, each no smaller than the rest of its stream; the counters
    /// describe what has been merged; and the value merged last separates
    /// what has been merged from what is waiting.
    pub closed spec fn wf(&self) -> bool {
        let views = stream_views(self.streams@);
        let waiting = combined(pending(self.front@, views));
        &&& self.front@.len() == self.streams@.len()
        &&& frontier_matches(self.frontier@, self.front@)
        &&& self.frontier@.len() == occupied(self.front@)
        &&& candidates_lead(self.front@, views, self.streams@.len() as int)
        &&& self.merged@.len() + waiting.len() <= u64::MAX
        &&& self.total == self.merged@.len()
        &&& self.duplicates == repeats(self.merged@)
        &&& self.previous is None <==> self.merged@.len() == 0
        &&& self.previous matches Some(p) ==> {
            &&& self.merged@.count(p) > 0
            &&& forall|y: u64| self.merged@.count(y) > 0 ==> p <= y
            &&& forall|y: u64| waiting.count(y) > 0 ==> y <= p
        }
    }

    /// The values merged so far.
    pub closed spec fn merged(&self) -> Multiset<u64> {
        self.merged@
    }

    /// What each stream still has to give, its candidate in the frontier
    /// included.
    pub closed spec fn remaining(&self) -> Seq<Multiset<u64>> {
        pending(self.front@, stream_views(self.streams@))
    }

    /// The values still to be merged.
    pub open spec fn waiting(&self) -> Multiset<u64> {
        combined(self.remaining())
    }

    /// The number of streams.
    pub open spec fn width(&self) -> nat {
        self.remaining().len()
    }

    /// Starts a merge: takes one candidate from each stream that has any.
    pub fn new(streams: Vec<MaxHeap<u64>>) -> (m: Merger)
        requires
            combined(stream_views(streams@)).len() <= u64::MAX,
        ensures
            m.wf(),
            m.merged() == Multiset::<u64>::empty(),
            m.remaining() == stream_views(streams@),
    {
        let mut streams = streams;
        let ghost given = stream_views(streams@);
        let n: usize = streams.len();
        let mut frontier: MaxHeap<Candidate> = MaxHeap::new();
        let ghost mut front: Seq<Option<u64>> = Seq::new(n as nat, |i: int| None::<u64>);
        proof {
            broadcast use vstd::multiset::group_multiset_axioms;
            assert(pending(front, stream_views(streams@)) =~= given);
            lemma_occupied_none(front);
        }
        let mut i: usize = 0;
        while i < n
            invariant
                i <= n,
                n == streams.len(),
                front.len() == n,
                pending(front, stream_views(streams@)) == given,
                frontier_matches(frontier@, front),
                frontier@.len() == occupied(front),
                candidates_lead(front, stream_views(streams@), i as int),
                forall|j: int| i <= j < n ==> front[j] is None,
            decreases n - i,
        {
            let ghost views = stream_views(streams@);
            let ghost before = frontier@;
            let ghost front_before = front;
            let next = streams[i].pop();
            match next {
                Some(x) => {
                    let entry = Candidate { value: x, origin: i };
                    frontier.push(entry);
                    proof {
                        broadcast use vstd::multiset::group_multiset_axioms;
                        front = front.update(i as int, Some(x));
                        lemma_occupied_update(front_before, i as int, Some(x));
                        let views_after = stream_views(streams@);
                        assert(views_after[i as int] == views[i as int].remove(x));
                        assert(views[i as int] =~= views_after[i as int].insert(x));
                        assert(pending(front, views_after) =~= pending(front_before, views));
                        assert forall|y: u64| views_after[i as int].count(y) > 0 implies y
                            <= x by {
                            assert(views[i as int].count(y) > 0);
                            assert(y.key() <= x.key());
                        }
                        assert forall|j: int| 0 <= j < n && j != i implies views_after[j]
                            == views[j] by {}
                        assert(before.count(entry) == 0);
                        assert forall|c: Candidate| #[trigger]
                            frontier@.count(c) > 0 <==> (c.origin < front.len()
                                && front[c.origin as int] == Some(c.value)) by {
                            assert(before.count(c) > 0 <==> (c.origin < front_before.len()
                                && front_before[c.origin as int] == Some(c.value)));
                        }
                        assert forall|c: Candidate| #[trigger] frontier@.count(c) <= 1 by {
                            assert(before.count(c) <= 1);
                        }
                    }
                },
                None => {
                    proof {
                        assert(stream_views(streams@) =~= views);
                    }
                },
            }
            i = i + 1;
        }
        proof {
            broadcast use vstd::multiset::group_multiset_axioms;
            broadcast use vstd::set::group_set_axioms;
            assert(Multiset::<u64>::empty().dom() =~= Set::<u64>::empty());
        }
        Merger {
            streams,
            frontier,
            previous: None,
            total: 0,
            duplicates: 0,
            front: Ghost(front),
            merged: Ghost(Multiset::empty()),
        }
    }

    /// Whether every value has been merged.
    pub fn is_done(&self) -> (b: bool)
        requires
            self.wf(),
        ensures
            b == (self.waiting().len() == 0),
    {
        proof {
            assert(self.streams@.len() == self.streams.len());
            lemma_frontier_empties_last(self.frontier@, self.front@, stream_views(self.streams@));
        }
        self.frontier.is_empty()
    }

    /// The number of candidates in the frontier: one for each stream that
    /// still has a value to give, so never more than there are streams.
    pub fn frontier_len(&self) -> (n: usize)
        requires
            self.wf(),
        ensures
            n == live_count(self.remaining()),
            n <= self.width(),
    {
        proof {
            lemma_occupied_bound(self.front@);
            lemma_live_matches(self.front@, stream_views(self.streams@));
        }
        self.frontier.len()
    }

    /// The counts of what has been merged so far.
    pub fn tally(&self) -> (t: Tally)
        requires
            self.wf(),
        ensures
            t.total == self.merged().len(),
            t.duplicates == repeats(self.merged()),
    {
        Tally { total: self.total, duplicates: self.duplicates }
    }

    /// Merges one more value: a greatest one of those that are waiting,
    /// taken from the last of the streams that hold it. It counts as a
    /// duplicate where it equals the value merged before it. Returns `None`,
    /// and changes nothing, once nothing is waiting.
    pub fn step(&mut self) -> (r: Option<Candidate>)
        requires
            old(self).wf(),
        ensures
            final(self).wf(),
            r is None <==> old(self).waiting().len() == 0,
            r is None ==> *final(self) == *old(self),
            r matches Some(c) ==> {
                &&& c.origin < old(self).width()
                &&& old(self).remaining()[c.origin as int].count(c.value) > 0
                &&& old(self).waiting().count(c.value) > 0
                &&& forall|y: u64| old(self).waiting().count(y) > 0 ==> y <= c.value
                &&& forall|j: int|
                    c.origin < j < old(self).width() ==> old(self).remaining()[j].count(c.value)
                        == 0
                &&& final(self).remaining() == old(self).remaining().update(
                    c.origin as int,
                    old(self).remaining()[c.origin as int].remove(c.value),
                )
                &&& final(self).waiting() == old(self).waiting().remove(c.value)
                &&& final(self).merged() == old(self).merged().insert(c.value)
            },
    {
        let ghost n = self.streams.len();
        proof {
            assert(self.streams@.len() == n);
            lemma_frontier_empties_last(self.frontier@, self.front@, stream_views(self.streams@));
        }
        if self.frontier.is_empty() {
            return None;
        }
        let ghost views = stream_views(self.streams@);
        let ghost before = self.frontier@;
        let ghost front_before = self.front@;
        let ghost held = pending(front_before, views);
        let ghost waiting = combined(held);
        let ghost merged_before = self.merged@;
        let popped = self.frontier.pop();
        let top: Candidate = popped.unwrap();
        let origin: usize = top.origin;
        let ghost mut front = front_before;
        proof {
            broadcast use vstd::multiset::group_multiset_axioms;
            assert(before.count(top) > 0);
            lemma_top_leads(before, front_before, views, top);
            lemma_repeats_insert(merged_before, top.value);
            assert(held[origin as int] == views[origin as int].insert(top.value));
            assert forall|j: int| origin < j < n implies held[j].count(top.value) == 0 by {
                if held[j].count(top.value) > 0 {
                    match front_before[j] {
                        Some(v) => {
                            let c = Candidate { value: v, origin: j as usize };
                            assert(before.count(c) > 0);
                            assert(c.key() <= top.key());
                            assert(top.value <= v);
                        },
                        None => {},
                    }
                }
            }
            // The candidate leaves the frontier: its stream has none for now.
            front = front_before.update(origin as int, None);
            lemma_occupied_update(front_before, origin as int, None);
            let gap = pending(front, views);
            assert(views[origin as int] =~= held[origin as int].remove(top.value));
            assert(gap =~= held.update(origin as int, held[origin as int].remove(top.value)));
            lemma_combined_remove(held, origin as int, top.value);
            lemma_combined_holds(held, origin as int, top.value);
        }
        let is_repeat: bool = match self.previous {
            Some(p) => p == top.value,
            None => false,
        };
        if is_repeat {
            self.duplicates = self.duplicates + 1;
        }
        self.total = self.total + 1;
        self.previous = Some(top.value);
        let refill = self.streams[origin].pop();
        match refill {
            Some(x) => {
                let entry = Candidate { value: x, origin };
                self.frontier.push(entry);
                proof {
                    broadcast use vstd::multiset::group_multiset_axioms;
                    let gap = pending(front, views);
                    let front_gap = front;
                    front = front.update(origin as int, Some(x));
                    lemma_occupied_update(front_gap, origin as int, Some(x));
                    let views_after = stream_views(self.streams@);
                    assert(views_after[origin as int] == views[origin as int].remove(x));
                    assert(views[origin as int] =~= views_after[origin as int].insert(x));
                    assert(pending(front, views_after) =~= gap);
                    assert forall|y: u64| views_after[origin as int].count(y) > 0 implies y
                        <= x by {
                        assert(views[origin as int].count(y) > 0);
                        assert(y.key() <= x.key());
                    }
                    assert forall|j: int| 0 <= j < n && j != origin implies views_after[j]
                        == views[j] by {}
                    assert forall|j: int| 0 <= j < n && j != origin implies front[j]
                        == front_before[j] by {}
                    assert forall|c: Candidate| #[trigger]
                        self.frontier@.count(c) > 0 <==> (c.origin < front.len()
                            && front[c.origin as int] == Some(c.value)) by {
                        assert(before.count(c) > 0 <==> (c.origin < front_before.len()
                            && front_before[c.origin as int] == Some(c.value)));
                    }
                    assert forall|c: Candidate| #[trigger] self.frontier@.count(c) <= 1 by {
                        assert(before.count(c) <= 1);
                    }
                }
            },
            None => {
                proof {
                    broadcast use vstd::multiset::group_multiset_axioms;
                    assert(stream_views(self.streams@) =~= views);
                    assert forall|c: Candidate| #[trigger]
                        self.frontier@.count(c) > 0 <==> (c.origin < front.len()
                            && front[c.origin as int] == Some(c.value)) by {
                        assert(before.count(c) > 0 <==> (c.origin < front_before.len()
                            && front_before[c.origin as int] == Some(c.value)));
                    }
                    assert forall|c: Candidate| #[trigger] self.frontier@.count(c) <= 1 by {
                        assert(before.count(c) <= 1);
                    }
                }
            },
        }
        self.front = Ghost(front);
        self.merged = Ghost(merged_before.insert(top.value));
        Some(top)
    }
}

/// Merges the streams into one descending run and counts how many values
/// come out, and how many of them equal the value just before them.
pub fn count_duplicates(streams: Vec<MaxHeap<u64>>) -> (t: Tally)
    requires
        combined(stream_views(streams@)).len() <= u64::MAX,
    ensures
        t.total == combined(stream_views(streams@)).len(),
        t.duplicates == repeats(combined(stream_views(streams@))),
{
    let ghost all = combined(stream_views(streams@));
    let mut merger = Merger::new(streams);
    proof {
        broadcast use vstd::multiset::group_multiset_axioms;
        assert(merger.merged().add(merger.waiting()) =~= all);
    }
    loop
        invariant_except_break
            merger.wf(),
            merger.merged().add(merger.waiting()) == all,
        ensures
            merger.wf(),
            merger.merged() == all,
        decreases merger.waiting().len(),
    {
        let ghost merged_before = merger.merged();
        let ghost waiting_before = merger.waiting();
        match merger.step() {
            Some(c) => {
                proof {
                    broadcast use vstd::multiset::group_multiset_axioms;
                    assert(merged_before.insert(c.value).add(waiting_before.remove(c.value))
                        =~= all);
                }
            },
            None => {
                proof {
                    broadcast use vstd::multiset::group_multiset_axioms;
                    vstd::multiset::lemma_multiset_empty_len(waiting_before);
                    assert(merged_before.add(waiting_before) =~= merged_before);
                }
                break ;
            },
        }
    }
    merger.tally()
}

} // verus!

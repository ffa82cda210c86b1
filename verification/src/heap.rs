//! A binary max-heap over keyed items.

use vstd::prelude::*;
use vstd::multiset::Multiset;
use vstd::seq_lib::{to_multiset_update, to_multiset_build, to_multiset_remove, to_multiset_len};

verus! {

/// Items that a heap can order: each has a position `key` in a total
/// preorder, and `at_most` decides that order at run time.
pub trait Keyed: Copy {
    /// The item's position in the order.
    spec fn key(&self) -> int;

    /// Whether `self` comes no later than `other`.
    fn at_most(&self, other: &Self) -> (b: bool)
        ensures
            b == (self.key() <= other.key()),
    ;
}

impl Keyed for u64 {
    open spec fn key(&self) -> int {
        *self as int
    }

    fn at_most(&self, other: &Self) -> (b: bool) {
        *self <= *other
    }
}

/// Every item is at most as large as its parent in the implicit tree.
spec fn heap_ordered<T: Keyed>(s: Seq<T>) -> bool {
    forall|i: int| 0 < i < s.len() ==> (#[trigger] s[i]).key() <= s[(i - 1) / 2].key()
}

/// Exchanging two positions is `s` with each position overwritten by the other.
spec fn swapped<T>(s: Seq<T>, i: int, j: int) -> Seq<T> {
    s.update(i, s[j]).update(j, s[i])
}

proof fn lemma_swapped_multiset<T>(s: Seq<T>, i: int, j: int)
    requires
        0 <= i < s.len(),
        0 <= j < s.len(),
    ensures
        swapped(s, i, j).to_multiset() == s.to_multiset(),
{
    broadcast use vstd::multiset::group_multiset_axioms;
    let s1 = s.update(i, s[j]);
    to_multiset_update(s, i, s[j]);
    to_multiset_update(s1, j, s[i]);
    s.to_multiset_ensures();
    assert(s.contains(s[i]));
    assert(s.contains(s[j]));
    assert(swapped(s, i, j).to_multiset() =~= s.to_multiset());
}

proof fn lemma_root_is_greatest<T: Keyed>(s: Seq<T>, i: int)
    requires
        heap_ordered(s),
        0 <= i < s.len(),
    ensures
        s[i].key() <= s[0].key(),
    decreases i,
{
    if i > 0 {
        lemma_root_is_greatest(s, (i - 1) / 2);
    }
}

proof fn lemma_root_leads<T: Keyed>(s: Seq<T>)
    requires
        heap_ordered(s),
        s.len() > 0,
    ensures
        s.to_multiset().count(s[0]) > 0,
        forall|other: T| #[trigger] s.to_multiset().count(other) > 0 ==> other.key() <= s[0].key(),
{
    s.to_multiset_ensures();
    assert(s.contains(s[0]));
    assert forall|other: T| #[trigger] s.to_multiset().count(other) > 0 implies other.key()
        <= s[0].key() by {
        assert(s.contains(other));
        let k = choose|k: int| 0 <= k < s.len() && s[k] == other;
        lemma_root_is_greatest(s, k);
    }
}

fn swap_items<T: Keyed>(v: &mut Vec<T>, i: usize, j: usize)
    requires
        i < old(v).len(),
        j < old(v).len(),
    ensures
        final(v)@ == swapped(old(v)@, i as int, j as int),
{
    let a: T = v[i];
    let b: T = v[j];
    v.set(i, b);
    v.set(j, a);
}

/// The heap order holds everywhere but between `pos` and its parent, and
/// the children of `pos` already respect its parent.
spec fn ordered_above<T: Keyed>(s: Seq<T>, pos: int) -> bool {
    &&& forall|i: int|
        0 < i < s.len() && i != pos ==> (#[trigger] s[i]).key() <= s[(i - 1) / 2].key()
    &&& forall|i: int|
        0 < i < s.len() && (i - 1) / 2 == pos && pos > 0 ==> (#[trigger] s[i]).key() <= s[(pos
            - 1) / 2].key()
}

/// The heap order holds everywhere but between `pos` and its children, and
/// the children of `pos` already respect its parent.
spec fn ordered_below<T: Keyed>(s: Seq<T>, pos: int) -> bool {
    &&& forall|i: int|
        0 < i < s.len() && (i - 1) / 2 != pos ==> (#[trigger] s[i]).key() <= s[(i - 1) / 2].key()
    &&& forall|i: int|
        0 < i < s.len() && (i - 1) / 2 == pos && pos > 0 ==> (#[trigger] s[i]).key() <= s[(pos
            - 1) / 2].key()
}

/// Moves the item at `start` towards the root until its parent is no smaller.
fn sift_up<T: Keyed>(v: &mut Vec<T>, start: usize)
    requires
        start < old(v).len(),
        ordered_above(old(v)@, start as int),
    ensures
        heap_ordered(final(v)@),
        final(v)@.to_multiset() == old(v)@.to_multiset(),
        final(v)@.len() == old(v)@.len(),
{
    let mut pos: usize = start;
    while pos > 0 && !v[pos].at_most(&v[(pos - 1) / 2])
        invariant
            pos < v.len(),
            v@.len() == old(v)@.len(),
            v@.to_multiset() == old(v)@.to_multiset(),
            ordered_above(v@, pos as int),
        decreases pos,
    {
        let parent: usize = (pos - 1) / 2;
        proof {
            lemma_swapped_multiset(v@, pos as int, parent as int);
        }
        swap_items(v, pos, parent);
        pos = parent;
    }
}

/// Moves the item at `start` towards the leaves until no child is larger.
fn sift_down<T: Keyed>(v: &mut Vec<T>, start: usize)
    requires
        start < old(v).len(),
        ordered_below(old(v)@, start as int),
    ensures
        heap_ordered(final(v)@),
        final(v)@.to_multiset() == old(v)@.to_multiset(),
        final(v)@.len() == old(v)@.len(),
{
    let len: usize = v.len();
    let mut pos: usize = start;
    loop
        invariant_except_break
            ordered_below(v@, pos as int),
        invariant
            pos < len,
            len == v@.len(),
            v@.len() == old(v)@.len(),
            v@.to_multiset() == old(v)@.to_multiset(),
        ensures
            heap_ordered(v@),
        decreases len - pos,
    {
        if len < 2 || pos > (len - 2) / 2 {
            break ;
        }
        let left: usize = 2 * pos + 1;
        let right: usize = left + 1;
        let child: usize = if right < len && !v[right].at_most(&v[left]) {
            right
        } else {
            left
        };
        if v[child].at_most(&v[pos]) {
            break ;
        }
        proof {
            lemma_swapped_multiset(v@, pos as int, child as int);
        }
        swap_items(v, pos, child);
        pos = child;
    }
}

/// A binary max-heap: `pop` hands out a greatest item first.
pub struct MaxHeap<T: Keyed> {
    items: Vec<T>,
}

impl<T: Keyed> View for MaxHeap<T> {
    type V = Multiset<T>;

    closed spec fn view(&self) -> Multiset<T> {
        self.items@.to_multiset()
    }
}

impl<T: Keyed> MaxHeap<T> {
    #[verifier::type_invariant]
    spec fn well_formed(&self) -> bool {
        heap_ordered(self.items@)
    }

    /// An empty heap.
    pub fn new() -> (h: Self)
        ensures
            h@ == Multiset::<T>::empty(),
    {
        let items: Vec<T> = Vec::new();
        proof {
            broadcast use vstd::multiset::group_multiset_axioms;
            items@.to_multiset_ensures();
            assert(items@.to_multiset() =~= Multiset::<T>::empty());
        }
        MaxHeap { items }
    }

    /// Number of items held.
    pub fn len(&self) -> (n: usize)
        ensures
            n == self@.len(),
    {
        proof {
            to_multiset_len(self.items@);
        }
        self.items.len()
    }

    /// Whether the heap holds nothing.
    pub fn is_empty(&self) -> (b: bool)
        ensures
            b == (self@.len() == 0),
    {
        proof {
            to_multiset_len(self.items@);
        }
        self.items.len() == 0
    }

    /// Adds `item`.
    pub fn push(&mut self, item: T)
        ensures
            final(self)@ == old(self)@.insert(item),
    {
        proof {
            use_type_invariant(&*self);
        }
        let mut items: Vec<T> = Vec::new();
        core::mem::swap(&mut items, &mut self.items);
        let ghost before = items@;
        items.push(item);
        proof {
            to_multiset_build(before, item);
        }
        let last: usize = items.len() - 1;
        sift_up(&mut items, last);
        self.items = items;
    }

    /// Removes and returns a greatest item, or `None` from an empty heap.
    pub fn pop(&mut self) -> (r: Option<T>)
        ensures
            old(self)@.len() == 0 ==> r is None && final(self)@ == old(self)@,
            old(self)@.len() > 0 ==> r is Some && old(self)@.contains(r->Some_0) && final(self)@
                == old(self)@.remove(r->Some_0),
            forall|other: T|
                r is Some && #[trigger] old(self)@.count(other) > 0 ==> other.key()
                    <= r->Some_0.key(),
    {
        proof {
            use_type_invariant(&*self);
            to_multiset_len(self.items@);
        }
        let len: usize = self.items.len();
        if len == 0 {
            return None;
        }
        let mut items: Vec<T> = Vec::new();
        core::mem::swap(&mut items, &mut self.items);
        let ghost before = items@;
        let top: T = items[0];
        proof {
            lemma_root_leads(before);
            lemma_swapped_multiset(before, 0, len - 1);
        }
        swap_items(&mut items, 0, len - 1);
        let ghost exchanged = items@;
        items.pop();
        proof {
            assert(items@ =~= exchanged.remove(len - 1));
            to_multiset_remove(exchanged, len - 1);
        }
        if items.len() > 0 {
            sift_down(&mut items, 0);
        }
        self.items = items;
        Some(top)
    }
}

} // verus!

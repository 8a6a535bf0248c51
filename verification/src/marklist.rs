//! A reusable sparse membership structure over a fixed integer universe.
//!
//! Items `0 .. len` can be marked; the marked items are kept in insertion
//! order in `list`, and `index` maps a marked item back to its position in
//! `list` (its "local id").  Clearing touches only the currently marked
//! items, never the whole universe, so a `MarkList` can be reused across
//! many small queries over a huge universe without paying for its size.

use vstd::prelude::*;

verus! {

/// The order list that results from marking the items of `xs`, one after the
/// other, into a marker whose order list currently holds `l`: an item already
/// present is skipped, a new one is appended.
pub open spec fn mark_seq(l: Seq<usize>, xs: Seq<usize>) -> Seq<usize>
    decreases xs.len(),
{
    if xs.len() == 0 {
        l
    } else {
        let pre = mark_seq(l, xs.drop_last());
        if pre.contains(xs.last()) {
            pre
        } else {
            pre.push(xs.last())
        }
    }
}

/// Marking one more item extends the order list exactly when the item is new.
pub proof fn lemma_mark_seq_push(l: Seq<usize>, xs: Seq<usize>, x: usize)
    ensures
        mark_seq(l, xs.push(x)) == if mark_seq(l, xs).contains(x) {
            mark_seq(l, xs)
        } else {
            mark_seq(l, xs).push(x)
        },
{
    assert(xs.push(x).drop_last() =~= xs);
    assert(xs.push(x).last() == x);
}

/// An item ends up in the order list exactly when it was there already or is
/// among the items being marked.
pub proof fn lemma_mark_seq_contains(l: Seq<usize>, xs: Seq<usize>, e: usize)
    ensures
        mark_seq(l, xs).contains(e) <==> (l.contains(e) || xs.contains(e)),
    decreases xs.len(),
{
    broadcast use vstd::seq_lib::group_seq_properties;

    if xs.len() > 0 {
        lemma_mark_seq_contains(l, xs.drop_last(), e);
        let pre = mark_seq(l, xs.drop_last());
        assert(xs.contains(xs.last())) by {
            assert(xs[xs.len() - 1] == xs.last());
        }
        if xs.contains(e) && e != xs.last() {
            let k = choose|k: int| 0 <= k < xs.len() && xs[k] == e;
            assert(k < xs.len() - 1);
            assert(xs.drop_last()[k] == e);
        }
        if xs.drop_last().contains(e) {
            let k = choose|k: int| 0 <= k < xs.drop_last().len() && xs.drop_last()[k] == e;
            assert(xs[k] == e);
        }
    }
}

/// Marking never introduces a repeated item into the order list.
pub proof fn lemma_mark_seq_no_duplicates(l: Seq<usize>, xs: Seq<usize>)
    requires
        l.no_duplicates(),
    ensures
        mark_seq(l, xs).no_duplicates(),
    decreases xs.len(),
{
    if xs.len() > 0 {
        lemma_mark_seq_no_duplicates(l, xs.drop_last());
    }
}

pub struct MarkList {
    /// Size of the universe; valid items are `0 .. len`.
    pub len: usize,
    /// `marked[i]` holds exactly when item `i` is currently marked.
    pub marked: Vec<bool>,
    /// The currently marked items, in the order they were marked.
    pub list: Vec<usize>,
    /// Position of item `i` within `list`; meaningful only while
    /// `marked[i]` is true.
    pub index: Vec<usize>,
}

impl MarkList {
    /// The structural invariant: the membership array, the order list and
    /// the position array agree with each other.
    pub open spec fn wf(&self) -> bool {
        &&& self.marked@.len() == self.len
        &&& self.index@.len() == self.len
        &&& forall|k: int|
            0 <= k < self.list@.len() ==> (#[trigger] self.list@[k]) < self.len
                && self.index@[self.list@[k] as int] == k
        &&& forall|i: usize|
            i < self.len ==> ((#[trigger] self.marked@[i as int]) <==> self.list@.contains(i))
    }

    /// The order list never repeats an item.
    pub proof fn lemma_list_no_duplicates(&self)
        requires
            self.wf(),
        ensures
            self.list@.no_duplicates(),
    {
        assert forall|i: int, j: int|
            0 <= i < self.list@.len() && 0 <= j < self.list@.len() && i != j
                implies self.list@[i] != self.list@[j] by {
            assert(self.index@[self.list@[i] as int] == i);
        }
    }

    /// No more items can be marked than the universe holds.
    pub proof fn lemma_list_len_bound(&self)
        requires
            self.wf(),
        ensures
            self.list@.len() <= self.len,
    {
        broadcast use vstd::set_lib::group_set_lib_default;
        broadcast use vstd::set::group_set_axioms;

        self.lemma_list_no_duplicates();
        let ints = self.list@.map_values(|x: usize| x as int);
        assert(ints.no_duplicates());
        ints.unique_seq_to_set();
        let range = vstd::set_lib::set_int_range(0, self.len as int);
        vstd::set_lib::lemma_int_range(0, self.len as int);
        assert forall|v: int| ints.to_set().contains(v) implies range.contains(v) by {
            let k = choose|k: int| 0 <= k < ints.len() && ints[k] == v;
            assert(self.list@[k] < self.len);
        }
        vstd::set_lib::lemma_len_subset(ints.to_set(), range);
    }

    /// Allocates a marker over the universe `0 .. len`, with nothing marked.
    pub fn new(len: usize) -> (r: MarkList)
        ensures
            r.wf(),
            r.len == len,
            r.list@.len() == 0,
            forall|i: usize| i < len ==> !(#[trigger] r.marked@[i as int]),
    {
        MarkList { len: len, marked: vec![false; len], list: Vec::new(), index: vec![0; len] }
    }

    /// Marks item `n`.  Idempotent: a second mark of the same item changes
    /// nothing; a first mark appends `n` to the order list and records its
    /// position.
    pub fn mark(&mut self, n: usize)
        requires
            old(self).wf(),
            n < old(self).len,
        ensures
            final(self).wf(),
            final(self).len == old(self).len,
            old(self).marked@[n as int] ==> *final(self) == *old(self),
            !old(self).marked@[n as int] ==> final(self).marked@ == old(self).marked@.update(
                n as int,
                true,
            ),
            !old(self).marked@[n as int] ==> final(self).list@ == old(self).list@.push(n),
            !old(self).marked@[n as int] ==> final(self).index@ == old(self).index@.update(
                n as int,
                old(self).list@.len() as usize,
            ),
    {
        if !self.marked[n] {
            proof {
                assert(!old(self).list@.contains(n));
            }
            self.marked.set(n, true);
            self.index.set(n, self.list.len());
            self.list.push(n);
            proof {
                assert forall|i: usize|
                    i < self.len implies ((#[trigger] self.marked@[i as int])
                    <==> self.list@.contains(i)) by {
                    if i == n {
                        assert(self.list@[self.list@.len() - 1] == n);
                    } else {
                        assert(self.list@.contains(i) <==> old(self).list@.contains(i)) by {
                            if old(self).list@.contains(i) {
                                let k = choose|k: int|
                                    0 <= k < old(self).list@.len() && old(self).list@[k] == i;
                                assert(self.list@[k] == i);
                            }
                            if self.list@.contains(i) {
                                let k = choose|k: int|
                                    0 <= k < self.list@.len() && self.list@[k] == i;
                                assert(old(self).list@[k] == i);
                            }
                        }
                    }
                }
            }
        }
    }

    /// Unmarks exactly the items currently in the order list, then empties
    /// the list.  The cost is proportional to the number of marked items,
    /// not to the size of the universe.
    pub fn clear(&mut self)
        requires
            old(self).wf(),
        ensures
            final(self).wf(),
            final(self).len == old(self).len,
            final(self).list@.len() == 0,
            forall|i: usize| i < final(self).len ==> !(#[trigger] final(self).marked@[i as int]),
            final(self).index@ == old(self).index@,
    {
        proof {
            self.lemma_list_no_duplicates();
        }
        let mut k: usize = 0;
        while k < self.list.len()
            invariant
                k <= self.list@.len(),
                self.len == old(self).len,
                self.list@ == old(self).list@,
                self.index@ == old(self).index@,
                self.marked@.len() == self.len,
                old(self).wf(),
                self.list@.no_duplicates(),
                forall|i: usize|
                    i < self.len ==> ((#[trigger] self.marked@[i as int]) <==> exists|j: int|
                        k <= j < self.list@.len() && self.list@[j] == i),
            decreases self.list@.len() - k,
        {
            let v = self.list[k];
            self.marked.set(v, false);
            proof {
                let kk = k as int;
                assert forall|i: usize|
                    i < self.len implies ((#[trigger] self.marked@[i as int]) <==> exists|j: int|
                    kk + 1 <= j < self.list@.len() && self.list@[j] == i) by {
                    if i == v {
                        assert(!self.marked@[i as int]);
                        assert forall|j: int|
                            kk + 1 <= j < self.list@.len() implies self.list@[j] != i by {
                            assert(self.list@[kk] == v);
                        }
                    } else {
                        if self.marked@[i as int] {
                            let j = choose|j: int|
                                kk <= j < self.list@.len() && self.list@[j] == i;
                            assert(j != kk);
                        }
                    }
                }
            }
            k = k + 1;
        }
        self.list.clear();
    }
}

} // verus!

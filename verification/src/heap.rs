//! A binary max-heap of merge candidates `(score, key, count)`, ordered as
//! tuples: by score, then key, then count.
use vstd::prelude::*;
use vstd::multiset::Multiset;

verus! {

broadcast use {vstd::seq_lib::group_to_multiset_ensures, vstd::multiset::group_multiset_properties};

/// A merge candidate: score, pair key, and the pair count it was scored with.
pub type Entry = (u64, u32, u32);

/// Tuple order on candidates.
pub open spec fn entry_le(x: Entry, y: Entry) -> bool {
    x.0 < y.0 || (x.0 == y.0 && (x.1 < y.1 || (x.1 == y.1 && x.2 <= y.2)))
}

/// `x` is at least every candidate of `m`.
pub open spec fn is_max_of(x: Entry, m: Multiset<Entry>) -> bool {
    forall|y: Entry| m.count(y) > 0 ==> #[trigger] entry_le(y, x)
}

pub open spec fn parent(i: int) -> int {
    (i - 1) / 2
}

/// Every item is at most its parent.
pub open spec fn heap_ordered(s: Seq<Entry>) -> bool {
    forall|j: int| 0 < j < s.len() ==> entry_le(#[trigger] s[j], s[parent(j)])
}

pub proof fn lemma_entry_le_trans(x: Entry, y: Entry, z: Entry)
    requires
        entry_le(x, y),
        entry_le(y, z),
    ensures
        entry_le(x, z),
{
}

/// The root of an ordered heap is at least every item.
proof fn lemma_root_max(s: Seq<Entry>, i: int)
    requires
        heap_ordered(s),
        0 <= i < s.len(),
    ensures
        entry_le(s[i], s[0]),
    decreases i,
{
    if i > 0 {
        lemma_root_max(s, parent(i));
        lemma_entry_le_trans(s[i], s[parent(i)], s[0]);
    }
}

proof fn lemma_root_is_max(s: Seq<Entry>)
    requires
        heap_ordered(s),
        s.len() > 0,
    ensures
        is_max_of(s[0], s.to_multiset()),
{
    assert forall|y: Entry| s.to_multiset().count(y) > 0 implies #[trigger] entry_le(y, s[0]) by {
        assert(s.contains(y));
        let i = choose|i: int| 0 <= i < s.len() && s[i] == y;
        lemma_root_max(s, i);
    }
}

proof fn lemma_swap_multiset(s: Seq<Entry>, i: int, j: int)
    requires
        0 <= i < s.len(),
        0 <= j < s.len(),
    ensures
        s.update(i, s[j]).update(j, s[i]).to_multiset() == s.to_multiset(),
{
    let t = s.update(i, s[j]);
    assert(t.to_multiset() == s.to_multiset().insert(s[j]).remove(s[i]));
    assert(t.update(j, s[i]).to_multiset() == t.to_multiset().insert(s[i]).remove(t[j]));
    assert(t[j] == s[j]);
    assert(t.update(j, s[i]).to_multiset() =~= s.to_multiset());
}

/// Ordered but for the edge from `i` to its parent.
pub open spec fn ordered_except_at(s: Seq<Entry>, i: int) -> bool {
    forall|j: int| 0 < j < s.len() && j != i ==> entry_le(#[trigger] s[j], s[parent(j)])
}

/// Ordered but for the edges from the children of `i` to `i`.
pub open spec fn ordered_except_below(s: Seq<Entry>, i: int) -> bool {
    forall|j: int| 0 < j < s.len() && parent(j) != i ==> entry_le(#[trigger] s[j], s[parent(j)])
}

/// The children of `i` are at most the parent of `i`.
pub open spec fn children_below_grand(s: Seq<Entry>, i: int) -> bool {
    i > 0 ==> forall|j: int|
        0 < j < s.len() && parent(j) == i ==> entry_le(#[trigger] s[j], s[parent(i)])
}

proof fn lemma_sift_up_step(s: Seq<Entry>, i: int)
    requires
        0 < i < s.len(),
        ordered_except_at(s, i),
        children_below_grand(s, i),
        !entry_le(s[i], s[parent(i)]),
    ensures
        ({
            let p = parent(i);
            let t = s.update(i, s[p]).update(p, s[i]);
            &&& ordered_except_at(t, p)
            &&& children_below_grand(t, p)
            &&& t.to_multiset() == s.to_multiset()
        }),
{
    let p = parent(i);
    lemma_swap_multiset(s, i, p);
    let t = s.update(i, s[p]).update(p, s[i]);
    assert forall|j: int| 0 < j < t.len() && j != p implies entry_le(#[trigger] t[j], t[parent(j)]) by {
        if parent(j) == i {
            assert(entry_le(s[j], s[p]));
        } else if parent(j) == p && j != i {
            assert(entry_le(s[j], s[p]));
        }
    }
    if p > 0 {
        assert forall|j: int| 0 < j < t.len() && parent(j) == p implies entry_le(
            #[trigger] t[j],
            t[parent(p)],
        ) by {
            assert(entry_le(s[p], s[parent(p)]));
            if j != i {
                assert(entry_le(s[j], s[p]));
                lemma_entry_le_trans(s[j], s[p], s[parent(p)]);
            }
        }
    }
}

proof fn lemma_sift_down_step(s: Seq<Entry>, i: int, c: int)
    requires
        0 <= i,
        c == 2 * i + 1 || c == 2 * i + 2,
        c < s.len(),
        ordered_except_below(s, i),
        children_below_grand(s, i),
        forall|j: int| 0 < j < s.len() && parent(j) == i ==> entry_le(#[trigger] s[j], s[c]),
        !entry_le(s[c], s[i]),
    ensures
        ({
            let t = s.update(i, s[c]).update(c, s[i]);
            &&& ordered_except_below(t, c)
            &&& children_below_grand(t, c)
            &&& t.to_multiset() == s.to_multiset()
        }),
{
    assert(parent(c) == i);
    lemma_swap_multiset(s, i, c);
    let t = s.update(i, s[c]).update(c, s[i]);
    assert forall|j: int| 0 < j < t.len() && parent(j) != c implies entry_le(
        #[trigger] t[j],
        t[parent(j)],
    ) by {
        if j == i {
            assert(entry_le(s[c], s[parent(i)]));
        }
    }
    assert forall|j: int| 0 < j < t.len() && parent(j) == c implies entry_le(
        #[trigger] t[j],
        t[parent(c)],
    ) by {
        assert(entry_le(s[j], s[c]));
    }
}

proof fn lemma_sift_down_done(s: Seq<Entry>, i: int)
    requires
        0 <= i,
        ordered_except_below(s, i),
        forall|j: int| 0 < j < s.len() && parent(j) == i ==> entry_le(#[trigger] s[j], s[i]),
    ensures
        heap_ordered(s),
{
    assert forall|j: int| 0 < j < s.len() implies entry_le(#[trigger] s[j], s[parent(j)]) by {
        if parent(j) == i {
        }
    }
}

/// Candidates in a binary max-heap.
pub struct EntryHeap {
    items: Vec<Entry>,
}

impl EntryHeap {
    /// The candidates held.
    pub closed spec fn view(&self) -> Multiset<Entry> {
        self.items@.to_multiset()
    }

    pub closed spec fn wf(&self) -> bool {
        heap_ordered(self.items@)
    }

    pub fn new() -> (r: EntryHeap)
        ensures
            r.wf(),
            r@ == Multiset::<Entry>::empty(),
    {
        let r = EntryHeap { items: Vec::new() };
        assert(r.items@ =~= Seq::<Entry>::empty());
        r
    }

    pub fn len(&self) -> (r: usize)
        ensures
            r == self@.len(),
    {
        self.items.len()
    }

    /// Drops every candidate.
    pub fn clear(&mut self)
        ensures
            final(self).wf(),
            final(self)@ == Multiset::<Entry>::empty(),
    {
        self.items.clear();
        assert(self.items@ =~= Seq::<Entry>::empty());
    }

    fn greater(x: Entry, y: Entry) -> (r: bool)
        ensures
            r == !entry_le(x, y),
    {
        x.0 > y.0 || (x.0 == y.0 && (x.1 > y.1 || (x.1 == y.1 && x.2 > y.2)))
    }

    /// Adds a candidate.
    pub fn push(&mut self, e: Entry)
        requires
            old(self).wf(),
        ensures
            final(self).wf(),
            final(self)@ == old(self)@.insert(e),
    {
        self.items.push(e);
        let mut i = self.items.len() - 1;
        loop
            invariant
                0 <= i < self.items@.len(),
                self.items@.to_multiset() == old(self)@.insert(e),
                ordered_except_at(self.items@, i as int),
                children_below_grand(self.items@, i as int),
            ensures
                heap_ordered(self.items@),
                self.items@.to_multiset() == old(self)@.insert(e),
            decreases i,
        {
            if i == 0 {
                break;
            }
            let p = (i - 1) / 2;
            if !Self::greater(self.items[i], self.items[p]) {
                break;
            }
            let ghost s = self.items@;
            proof {
                lemma_sift_up_step(s, i as int);
            }
            let x = self.items[i];
            let y = self.items[p];
            self.items.set(i, y);
            self.items.set(p, x);
            assert(self.items@ == s.update(i as int, s[p as int]).update(p as int, s[i as int]));
            i = p;
        }
    }

    /// Takes out a greatest candidate, if there is one.
    pub fn pop(&mut self) -> (r: Option<Entry>)
        requires
            old(self).wf(),
        ensures
            final(self).wf(),
            match r {
                None => old(self)@.len() == 0 && final(self)@ == old(self)@,
                Some(e) => old(self)@.count(e) > 0 && is_max_of(e, old(self)@) && final(self)@
                    == old(self)@.remove(e),
            },
    {
        let n = self.items.len();
        if n == 0 {
            return None;
        }
        proof {
            lemma_root_is_max(self.items@);
            assert(self.items@.contains(self.items@[0]));
        }
        let top = self.items[0];
        let ghost s0 = self.items@;
        let last = self.items.pop().unwrap();
        if n == 1 {
            proof {
                assert(s0 == self.items@.push(last));
                assert(self.items@.to_multiset() =~= s0.to_multiset().remove(top));
            }
            return Some(top);
        }
        self.items.set(0, last);
        proof {
            assert(s0.drop_last() == s0.remove(n - 1));
            assert(self.items@ == s0.remove(n - 1).update(0, last));
            assert(s0.remove(n - 1).to_multiset() == s0.to_multiset().remove(last));
            assert(self.items@.to_multiset() == s0.to_multiset().remove(last).insert(last).remove(
                top,
            ));
            assert(s0.to_multiset().count(last) > 0) by {
                assert(s0[n - 1] == last);
                assert(s0.contains(last));
            }
            assert(s0.to_multiset().remove(last).insert(last) =~= s0.to_multiset());
            assert forall|j: int| 0 < j < self.items@.len() && parent(j) != 0 implies entry_le(
                #[trigger] self.items@[j],
                self.items@[parent(j)],
            ) by {
                assert(entry_le(s0[j], s0[parent(j)]));
            }
        }
        let len = self.items.len();
        let mut i: usize = 0;
        loop
            invariant
                len == self.items@.len(),
                0 <= i < len,
                self.items@.to_multiset() == s0.to_multiset().remove(top),
                ordered_except_below(self.items@, i as int),
                children_below_grand(self.items@, i as int),
            ensures
                heap_ordered(self.items@),
                self.items@.to_multiset() == s0.to_multiset().remove(top),
            decreases len - i,
        {
            if i >= len / 2 {
                proof {
                    lemma_sift_down_done(self.items@, i as int);
                }
                break;
            }
            let l = 2 * i + 1;
            let r = l + 1;
            let mut c = l;
            if r < len && Self::greater(self.items[r], self.items[l]) {
                c = r;
            }
            proof {
                assert(parent(l as int) == i);
                assert(parent(r as int) == i);
                assert forall|j: int| 0 < j < len && parent(j) == i implies entry_le(
                    #[trigger] self.items@[j],
                    self.items@[c as int],
                ) by {
                    assert(j == l as int || j == r as int);
                }
            }
            if !Self::greater(self.items[c], self.items[i]) {
                proof {
                    assert forall|j: int| 0 < j < len && parent(j) == i implies entry_le(
                        #[trigger] self.items@[j],
                        self.items@[i as int],
                    ) by {
                        lemma_entry_le_trans(self.items@[j], self.items@[c as int], self.items@[i as int]);
                    }
                    lemma_sift_down_done(self.items@, i as int);
                }
                break;
            }
            let ghost s = self.items@;
            proof {
                lemma_sift_down_step(s, i as int, c as int);
            }
            let x = self.items[i];
            let y = self.items[c];
            self.items.set(i, y);
            self.items.set(c, x);
            assert(self.items@ == s.update(i as int, s[c as int]).update(c as int, s[i as int]));
            i = c;
        }
        Some(top)
    }
}

} // verus!

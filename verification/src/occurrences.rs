//! Per-pair lists of the positions where the pair was seen, in the order
//! they were seen. Lists may hold positions where the pair no longer is;
//! readers check each position against the current sequence.
use vstd::prelude::*;
use vstd::multiset::Multiset;
use std::collections::HashMap;
use crate::pair_table::{PairTable, PairSlot, count_of, EMPTY_PAIR};
use crate::pairs::{pair_key, pair_key_spec};
use crate::trie::NONE;

verus! {

broadcast use vstd::std_specs::hash::group_hash_axioms;

/// Link of a node that was merged away.
pub const REMOVED: u32 = 4294967294u32;

/// Position `p` still holds the pair `key`: `p` is a node whose right link
/// is a live node and the two tokens make `key`.
pub open spec fn occurrence_live(key: u32, p: u32, tokens: Seq<u16>, next: Seq<u32>) -> bool {
    let pos = p as int;
    &&& pos < tokens.len()
    &&& next[pos] != NONE
    &&& next[pos] != REMOVED
    &&& (next[pos] as int) < tokens.len()
    &&& pair_key_spec(tokens[pos], tokens[next[pos] as int]) == key
}

/// The positions of `list` that still hold `key`, in order.
pub open spec fn live_part(key: u32, list: Seq<u32>, tokens: Seq<u16>, next: Seq<u32>) -> Seq<u32> {
    list.filter(|p: u32| occurrence_live(key, p, tokens, next))
}

/// Sum of the counts in the first `i` slots of a pair table.
pub open spec fn slot_count_sum(slots: Seq<PairSlot>, i: int) -> int
    decreases i,
{
    if i <= 0 {
        0
    } else {
        slot_count_sum(slots, i - 1) + if slots[i - 1].key != EMPTY_PAIR {
            count_of(slots[i - 1].count) as int
        } else {
            0
        }
    }
}

/// What compaction keeps of the lists, walking the first `i` slots of the
/// pair table: the live part of each list whose key is in the table, when
/// that part is not empty.
pub open spec fn kept(
    lists: Map<u32, Seq<u32>>,
    slots: Seq<PairSlot>,
    tokens: Seq<u16>,
    next: Seq<u32>,
    i: int,
) -> Map<u32, Seq<u32>>
    decreases i,
{
    if i <= 0 {
        Map::empty()
    } else {
        let prev = kept(lists, slots, tokens, next, i - 1);
        let k = slots[i - 1].key;
        if k != EMPTY_PAIR && lists.contains_key(k) && live_part(k, lists[k], tokens, next).len()
            > 0 {
            prev.insert(k, live_part(k, lists[k], tokens, next))
        } else {
            prev
        }
    }
}

/// Number of positions `kept` keeps, saturating at `u64::MAX`.
pub open spec fn kept_total(
    lists: Map<u32, Seq<u32>>,
    slots: Seq<PairSlot>,
    tokens: Seq<u16>,
    next: Seq<u32>,
    i: int,
) -> u64
    decreases i,
{
    if i <= 0 {
        0
    } else {
        let prev = kept_total(lists, slots, tokens, next, i - 1);
        let k = slots[i - 1].key;
        if k != EMPTY_PAIR && lists.contains_key(k) && live_part(k, lists[k], tokens, next).len()
            > 0 {
            let s = prev + live_part(k, lists[k], tokens, next).len();
            if s > u64::MAX {
                u64::MAX
            } else {
                s as u64
            }
        } else {
            prev
        }
    }
}

/// The total overflowed 64 bits.
#[derive(Debug)]
pub struct OccurrenceOverflow;

/// Pair key -> positions where the pair was seen, with a running count of
/// positions used to decide when to compact.
pub struct OccurrenceStore {
    lists: HashMap<u32, Vec<u32>>,
    total_len: u64,
    held: Ghost<Multiset<u32>>,
}

impl OccurrenceStore {
    /// Pair key -> its list of positions.
    pub closed spec fn view(&self) -> Map<u32, Seq<u32>> {
        self.lists@.map_values(|v: Vec<u32>| v@)
    }

    /// The running count.
    pub closed spec fn total(&self) -> u64 {
        self.total_len
    }

    /// The running count is at least the number of positions held.
    pub closed spec fn wf(&self) -> bool {
        &&& bag_matches(self.held@, self@)
        &&& self.held@.len() <= self.total_len
    }

    /// An empty list for every pair of the table with a count; the running
    /// count starts at the sum of the counts.
    pub fn from_pairs(pairs: &PairTable) -> (r: OccurrenceStore)
        requires
            pairs.wf(),
        ensures
            r@ == Map::new(
                |k: u32| pairs@.contains_key(k) && count_of(pairs@[k]) > 0,
                |k: u32| Seq::<u32>::empty(),
            ),
            r.total() as int == slot_count_sum(pairs.slots_view(), pairs.cap()),
            r.total() <= 268435456 * 2147483648,
            r.wf(),
    {
        proof {
            pairs.lemma_slots_cover();
        }
        let cap = pairs.capacity();
        let mut lists: HashMap<u32, Vec<u32>> = HashMap::new();
        let mut total_len: u64 = 0;
        let mut i: usize = 0;
        while i < cap
            invariant
                pairs.wf(),
                cap == pairs.cap(),
                16 <= cap <= 268435456,
                0 <= i <= cap,
                total_len as int == slot_count_sum(pairs.slots_view(), i as int),
                total_len <= i * 2147483648,
                forall|k: u32|
                    #[trigger] lists@.contains_key(k) <==> (pairs@.contains_key(k) && count_of(
                        pairs@[k],
                    ) > 0 && pairs.position(k) < i),
                forall|k: u32| #[trigger] lists@.contains_key(k) ==> lists@[k]@ == Seq::<u32>::empty(),
            decreases cap - i,
        {
            proof {
                pairs.lemma_slots_cover();
            }
            let slot = pairs.slot_at(i);
            if slot.key != EMPTY_PAIR {
                let count = slot.count();
                if count != 0 {
                    total_len = total_len + count as u64;
                    lists.insert(slot.key, Vec::with_capacity(count as usize));
                }
            }
            proof {
                assert forall|k: u32| #[trigger] lists@.contains_key(k) <==> (pairs@.contains_key(k)
                    && count_of(pairs@[k]) > 0 && pairs.position(k) < i + 1) by {
                    if pairs@.contains_key(k) && pairs.position(k) == i {
                        assert(pairs.slot_view(i as int).key == k);
                    }
                }
                assert(i * 2147483648 + 2147483648 == (i + 1) * 2147483648) by (nonlinear_arith);
            }
            i += 1;
        }
        let r = OccurrenceStore { lists, total_len, held: Ghost(Multiset::empty()) };
        proof {
            assert forall|k: u32| #[trigger] r@.contains_key(k) <==> (pairs@.contains_key(k)
                && count_of(pairs@[k]) > 0) by {
                if pairs@.contains_key(k) {
                    assert(pairs.position(k) < i);
                }
            }
            assert(r@ =~= Map::new(
                |k: u32| pairs@.contains_key(k) && count_of(pairs@[k]) > 0,
                |k: u32| Seq::<u32>::empty(),
            ));
            broadcast use vstd::multiset::group_multiset_axioms;

            assert forall|k: u32| #[trigger] r.held@.count(k) == if r@.contains_key(k) {
                r@[k].len()
            } else {
                0
            } by {}
        }
        r
    }

    /// The running count.
    pub fn len(&self) -> (r: u64)
        ensures
            r == self.total(),
    {
        self.total_len
    }

    /// Adds `node` at the end of the list of `key` and counts it.
    pub fn append(&mut self, key: u32, node: u32) -> (r: Result<(), OccurrenceOverflow>)
        ensures
            final(self)@ == old(self)@.insert(
                key,
                if old(self)@.contains_key(key) {
                    old(self)@[key]
                } else {
                    Seq::<u32>::empty()
                }.push(node),
            ),
            r is Ok <==> old(self).total() < u64::MAX,
            r is Ok ==> final(self).total() == old(self).total() + 1,
            r is Err ==> final(self).total() == old(self).total(),
            r is Ok && old(self).wf() ==> final(self).wf(),
    {
        let list = match self.lists.remove(&key) {
            Some(mut v) => {
                v.push(node);
                v
            },
            None => {
                let mut v: Vec<u32> = Vec::new();
                v.push(node);
                v
            },
        };
        self.lists.insert(key, list);
        proof {
            let h0 = self.held@;
            self.held@ = h0.insert(key);
            broadcast use vstd::multiset::group_multiset_axioms;

            assert(self@ =~= old(self)@.insert(
                key,
                if old(self)@.contains_key(key) {
                    old(self)@[key]
                } else {
                    Seq::<u32>::empty()
                }.push(node),
            ));
        }
        match self.total_len.checked_add(1) {
            Some(t) => {
                self.total_len = t;
                Ok(())
            },
            None => Err(OccurrenceOverflow),
        }
    }

    /// Drops the list of `key`, uncounting its positions.
    pub fn remove(&mut self, key: u32)
        ensures
            final(self)@ == old(self)@.remove(key),
            final(self).total() == (if old(self)@.contains_key(key) {
                if old(self).total() >= old(self)@[key].len() {
                    (old(self).total() - old(self)@[key].len()) as u64
                } else {
                    0
                }
            } else {
                old(self).total()
            }),
            old(self).wf() ==> final(self).wf(),
    {
        let ghost m0 = self@;
        if let Some(list) = self.lists.remove(&key) {
            self.total_len = self.total_len.saturating_sub(list.len() as u64);
        }
        proof {
            assert(self@ =~= old(self)@.remove(key));
            let c: nat = if m0.contains_key(key) {
                m0[key].len()
            } else {
                0
            };
            if bag_matches(self.held@, m0) {
                lemma_drop_key(self.held@, m0, key);
            }
            self.held@ = self.held@.sub(copies(key, c));
        }
    }

    /// Takes the list of `key` out of the store (empty if it had none).
    pub fn take(&mut self, key: u32) -> (r: Vec<u32>)
        ensures
            final(self)@ == old(self)@.remove(key),
            r@ == (if old(self)@.contains_key(key) {
                old(self)@[key]
            } else {
                Seq::<u32>::empty()
            }),
            final(self).total() == (if old(self).total() >= r@.len() {
                (old(self).total() - r@.len()) as u64
            } else {
                0
            }),
            old(self).wf() ==> final(self).wf(),
    {
        let ghost m0 = self@;
        let list = match self.lists.remove(&key) {
            Some(v) => v,
            None => Vec::new(),
        };
        self.total_len = self.total_len.saturating_sub(list.len() as u64);
        proof {
            assert(self@ =~= old(self)@.remove(key));
            let c: nat = if m0.contains_key(key) {
                m0[key].len()
            } else {
                0
            };
            if bag_matches(self.held@, m0) {
                lemma_drop_key(self.held@, m0, key);
            }
            self.held@ = self.held@.sub(copies(key, c));
        }
        list
    }

    /// Keeps of each list the positions that still hold its pair, drops the
    /// lists left empty and those of pairs no longer in the table, and
    /// recounts.
    pub fn compact(&mut self, pairs: &PairTable, tokens: &[u16], next: &[u32])
        requires
            pairs.wf(),
            next@.len() == tokens@.len(),
        ensures
            final(self)@ == kept(old(self)@, pairs.slots_view(), tokens@, next@, pairs.cap()),
            final(self).total() == kept_total(
                old(self)@,
                pairs.slots_view(),
                tokens@,
                next@,
                pairs.cap(),
            ),
            forall|k: u32| #[trigger]
                final(self)@.contains_key(k) ==> old(self)@.contains_key(k) && pairs@.contains_key(k)
                    && final(self)@[k] == live_part(k, old(self)@[k], tokens@, next@)
                    && final(self)@[k].len() > 0,
            forall|k: u32|
                old(self)@.contains_key(k) && pairs@.contains_key(k) && #[trigger] live_part(
                    k,
                    old(self)@[k],
                    tokens@,
                    next@,
                ).len() > 0 ==> final(self)@.contains_key(k),
            old(self).wf() ==> final(self).wf() && final(self).total() <= old(self).total(),
    {
        proof {
            pairs.lemma_slots_cover();
        }
        let ghost old_view = self@;
        let cap = pairs.capacity();
        let mut fresh: HashMap<u32, Vec<u32>> = HashMap::new();
        let mut total: u64 = 0;
        let mut i: usize = 0;
        while i < cap
            invariant
                pairs.wf(),
                cap == pairs.cap(),
                0 <= i <= cap,
                next@.len() == tokens@.len(),
                self@ == old_view,
                fresh@.map_values(|v: Vec<u32>| v@) == kept(
                    old_view,
                    pairs.slots_view(),
                    tokens@,
                    next@,
                    i as int,
                ),
                total == kept_total(old_view, pairs.slots_view(), tokens@, next@, i as int),
                forall|k: u32| #[trigger]
                    fresh@.contains_key(k) ==> pairs@.contains_key(k) && pairs.position(k) < i,
            decreases cap - i,
        {
            proof {
                pairs.lemma_slots_cover();
            }
            let slot = pairs.slot_at(i);
            if slot.key != EMPTY_PAIR {
                let key = slot.key;
                match self.lists.get(&key) {
                    Some(list) => {
                        let mut kept_list: Vec<u32> = Vec::new();
                        let mut j: usize = 0;
                        while j < list.len()
                            invariant
                                0 <= j <= list@.len(),
                                next@.len() == tokens@.len(),
                                kept_list@ == live_part(key, list@.take(j as int), tokens@, next@),
                            decreases list@.len() - j,
                        {
                            let p = list[j];
                            let pos = p as usize;
                            let mut live = false;
                            if pos < tokens.len() {
                                let right = next[pos];
                                if right != NONE && right != REMOVED && (right as usize) < tokens.len() {
                                    live = pair_key(tokens[pos], tokens[right as usize]) == key;
                                }
                            }
                            if live {
                                kept_list.push(p);
                            }
                            proof {
                                reveal(Seq::filter);
                                let s1 = list@.take(j + 1);
                                assert(s1.len() == j + 1);
                                assert(s1.drop_last() == list@.take(j as int));
                                assert(s1.last() == p);
                                assert(live == occurrence_live(key, p, tokens@, next@));
                                assert(live_part(key, s1, tokens@, next@) == (if occurrence_live(
                                    key,
                                    p,
                                    tokens@,
                                    next@,
                                ) {
                                    live_part(key, s1.drop_last(), tokens@, next@).push(p)
                                } else {
                                    live_part(key, s1.drop_last(), tokens@, next@)
                                }));
                            }
                            j += 1;
                        }
                        proof {
                            reveal(Seq::filter);
                            assert(list@.take(list@.len() as int) == list@);
                        }
                        if kept_list.len() > 0 {
                            total = total.saturating_add(kept_list.len() as u64);
                            proof {
                                assert(!fresh@.contains_key(key));
                            }
                            fresh.insert(key, kept_list);
                        }
                    },
                    None => {},
                }
            }
            proof {
                let f = fresh@.map_values(|v: Vec<u32>| v@);
                assert(f =~= kept(old_view, pairs.slots_view(), tokens@, next@, i + 1));
            }
            i += 1;
        }
        self.lists = fresh;
        self.total_len = total;
        proof {
            let slots0 = pairs.slots_view();
            let h0 = self.held@;
            self.held@ = kept_bag(old_view, slots0, tokens@, next@, pairs.cap());
            if old(self).wf() {
                assert(slot_keys_distinct(slots0)) by {
                    assert forall|a: int, b: int|
                        0 <= a < b < slots0.len() && slots0[a].key != EMPTY_PAIR implies #[trigger] slots0[a].key
                            != #[trigger] slots0[b].key by {
                        assert(slots0[a] == pairs.slot_view(a));
                        assert(slots0[b] == pairs.slot_view(b));
                        if slots0[b].key == slots0[a].key {
                            assert(pairs.position(pairs.slot_view(a).key) == a);
                            assert(pairs.position(pairs.slot_view(b).key) == b);
                        }
                    }
                }
                lemma_kept_bag(old_view, h0, slots0, tokens@, next@, pairs.cap());
                lemma_sub_len(self.held@, h0);
            }
            let slots = pairs.slots_view();
            let c = pairs.cap();
            assert forall|k: u32| #[trigger]
                self@.contains_key(k) implies old_view.contains_key(k) && pairs@.contains_key(k)
                && self@[k] == live_part(k, old_view[k], tokens@, next@) && self@[k].len() > 0 by {
                lemma_kept_entry(old_view, slots, tokens@, next@, c, k);
            }
            assert forall|k: u32|
                old_view.contains_key(k) && pairs@.contains_key(k) && #[trigger] live_part(
                    k,
                    old_view[k],
                    tokens@,
                    next@,
                ).len() > 0 implies self@.contains_key(k) by {
                let p = pairs.position(k);
                lemma_kept_has(old_view, slots, tokens@, next@, c, p, k);
            }
        }
    }
}

/// `c` copies of `k`.
pub open spec fn copies(k: u32, c: nat) -> Multiset<u32>
    decreases c,
{
    if c == 0 {
        Multiset::empty()
    } else {
        copies(k, (c - 1) as nat).insert(k)
    }
}

/// `bag` holds each key as many times as its list in `m` is long.
pub open spec fn bag_matches(bag: Multiset<u32>, m: Map<u32, Seq<u32>>) -> bool {
    forall|k: u32| #[trigger]
        bag.count(k) == if m.contains_key(k) {
            m[k].len()
        } else {
            0
        }
}

/// The keys of `kept`, each as many times as its kept list is long.
pub open spec fn kept_bag(
    lists: Map<u32, Seq<u32>>,
    slots: Seq<PairSlot>,
    tokens: Seq<u16>,
    next: Seq<u32>,
    i: int,
) -> Multiset<u32>
    decreases i,
{
    if i <= 0 {
        Multiset::empty()
    } else {
        let prev = kept_bag(lists, slots, tokens, next, i - 1);
        let k = slots[i - 1].key;
        if k != EMPTY_PAIR && lists.contains_key(k) && live_part(k, lists[k], tokens, next).len()
            > 0 {
            prev.add(copies(k, live_part(k, lists[k], tokens, next).len()))
        } else {
            prev
        }
    }
}

proof fn lemma_copies(k: u32, c: nat)
    ensures
        copies(k, c).len() == c,
        copies(k, c).count(k) == c,
        forall|x: u32| x != k ==> #[trigger] copies(k, c).count(x) == 0,
    decreases c,
{
    broadcast use vstd::multiset::group_multiset_axioms;

    if c > 0 {
        lemma_copies(k, (c - 1) as nat);
    }
}

/// Dropping the list of `key` drops its copies from the bag.
proof fn lemma_drop_key(bag: Multiset<u32>, m: Map<u32, Seq<u32>>, key: u32)
    requires
        bag_matches(bag, m),
    ensures
        ({
            let c: nat = if m.contains_key(key) {
                m[key].len()
            } else {
                0
            };
            &&& bag_matches(bag.sub(copies(key, c)), m.remove(key))
            &&& bag.sub(copies(key, c)).len() == bag.len() - c
            &&& c <= bag.len()
        }),
{
    broadcast use vstd::multiset::group_multiset_axioms;

    let c: nat = if m.contains_key(key) {
        m[key].len()
    } else {
        0
    };
    lemma_copies(key, c);
    assert(bag.count(key) == c);
    assert(copies(key, c).subset_of(bag));
    assert forall|k: u32| #[trigger] bag.sub(copies(key, c)).count(k) == if m.remove(key).contains_key(
        k,
    ) {
        m.remove(key)[k].len()
    } else {
        0
    } by {
        assert(bag.count(k) == if m.contains_key(k) {
            m[k].len()
        } else {
            0
        });
    }
}


/// A part of a multiset is no larger than it.
proof fn lemma_sub_len(a: Multiset<u32>, b: Multiset<u32>)
    requires
        a.subset_of(b),
    ensures
        a.len() <= b.len(),
{
    broadcast use vstd::multiset::group_multiset_axioms;

    assert(b =~= a.add(b.sub(a)));
}

/// Slots that hold keys hold different ones.
pub open spec fn slot_keys_distinct(slots: Seq<PairSlot>) -> bool {
    forall|i: int, j: int|
        0 <= i < j < slots.len() && slots[i].key != EMPTY_PAIR ==> #[trigger] slots[i].key
            != #[trigger] slots[j].key
}

/// The bag of `kept` counts its lists, adds up to `kept_total` unless that
/// saturated, and takes no key more often than `lists` does.
proof fn lemma_kept_bag(
    lists: Map<u32, Seq<u32>>,
    bag: Multiset<u32>,
    slots: Seq<PairSlot>,
    tokens: Seq<u16>,
    next: Seq<u32>,
    i: int,
)
    requires
        0 <= i <= slots.len(),
        slot_keys_distinct(slots),
        bag_matches(bag, lists),
    ensures
        bag_matches(kept_bag(lists, slots, tokens, next, i), kept(lists, slots, tokens, next, i)),
        kept_bag(lists, slots, tokens, next, i).subset_of(bag),
        kept_bag(lists, slots, tokens, next, i).len() <= u64::MAX ==> kept_total(
            lists,
            slots,
            tokens,
            next,
            i,
        ) == kept_bag(lists, slots, tokens, next, i).len(),
    decreases i,
{
    broadcast use vstd::multiset::group_multiset_axioms;

    if i > 0 {
        lemma_kept_bag(lists, bag, slots, tokens, next, i - 1);
        let prev = kept_bag(lists, slots, tokens, next, i - 1);
        let k = slots[i - 1].key;
        let kp = kept(lists, slots, tokens, next, i - 1);
        if k != EMPTY_PAIR && lists.contains_key(k) && live_part(k, lists[k], tokens, next).len()
            > 0 {
            let c = live_part(k, lists[k], tokens, next).len();
            lemma_copies(k, c);
            if kp.contains_key(k) {
                lemma_kept_entry(lists, slots, tokens, next, i - 1, k);
                let j = choose|j: int| 0 <= j < i - 1 && slots[j].key == k;
                assert(slots[j].key != slots[i - 1].key);
            }
            assert(prev.count(k) == 0);
            lists[k].lemma_filter_len(|p: u32| occurrence_live(k, p, tokens, next));
        }
    }
}


proof fn lemma_kept_entry(
    lists: Map<u32, Seq<u32>>,
    slots: Seq<PairSlot>,
    tokens: Seq<u16>,
    next: Seq<u32>,
    i: int,
    k: u32,
)
    requires
        kept(lists, slots, tokens, next, i).contains_key(k),
    ensures
        lists.contains_key(k),
        k != EMPTY_PAIR,
        exists|j: int| 0 <= j < i && slots[j].key == k,
        kept(lists, slots, tokens, next, i)[k] == live_part(k, lists[k], tokens, next),
        live_part(k, lists[k], tokens, next).len() > 0,
    decreases i,
{
    if i > 0 {
        let prev = kept(lists, slots, tokens, next, i - 1);
        if slots[i - 1].key != k && prev.contains_key(k) {
            lemma_kept_entry(lists, slots, tokens, next, i - 1, k);
            let j = choose|j: int| 0 <= j < i - 1 && slots[j].key == k;
            assert(0 <= j < i && slots[j].key == k);
        } else if slots[i - 1].key == k && !(k != EMPTY_PAIR && lists.contains_key(k)
            && live_part(k, lists[k], tokens, next).len() > 0) {
            lemma_kept_entry(lists, slots, tokens, next, i - 1, k);
        }
    }
}

proof fn lemma_kept_has(
    lists: Map<u32, Seq<u32>>,
    slots: Seq<PairSlot>,
    tokens: Seq<u16>,
    next: Seq<u32>,
    i: int,
    p: int,
    k: u32,
)
    requires
        0 <= p < i,
        p < slots.len(),
        slots[p].key == k,
        k != EMPTY_PAIR,
        lists.contains_key(k),
        live_part(k, lists[k], tokens, next).len() > 0,
    ensures
        kept(lists, slots, tokens, next, i).contains_key(k),
    decreases i,
{
    if i - 1 > p {
        lemma_kept_has(lists, slots, tokens, next, i - 1, p, k);
    }
}

} // verus!

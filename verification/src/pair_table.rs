//! Open-addressing table of pair counts with linear probing.
use vstd::prelude::*;
use vstd::arithmetic::power2::pow2;
use crate::pairs::{self, mix};

verus! {

/// Key of an unused slot.
pub const EMPTY_PAIR: u32 = 4294967295u32;

/// Count bit set while the pair has an entry waiting in the merge heap.
pub const COUNT_QUEUED: u32 = 2147483648u32;

/// The count proper.
pub const COUNT_MASK: u32 = 2147483647u32;

/// The count held in a count word.
pub open spec fn count_of(word: u32) -> u32 {
    (word % 2147483648) as u32
}

/// Whether a count word carries the queued bit.
pub open spec fn queued_of(word: u32) -> bool {
    word >= 2147483648
}

/// One slot: a pair key (or `EMPTY_PAIR`) and its count word.
#[derive(Clone, Copy)]
pub struct PairSlot {
    pub key: u32,
    pub count: u32,
}

impl PairSlot {
    pub fn count(&self) -> (r: u32)
        ensures
            r == count_of(self.count),
    {
        let w = self.count;
        assert(w & 2147483647u32 == w % 2147483648) by (bit_vector);
        self.count & COUNT_MASK
    }

    pub fn set_count(&mut self, count: u32)
        requires
            count <= COUNT_MASK,
        ensures
            final(self).key == old(self).key,
            count_of(final(self).count) == count,
            queued_of(final(self).count) == queued_of(old(self).count),
    {
        let w = self.count;
        assert(count_of((w & 2147483648u32) | count) == count && queued_of((w & 2147483648u32)
            | count) == queued_of(w)) by (bit_vector)
            requires
                count <= 2147483647u32,
        ;
        self.count = (self.count & COUNT_QUEUED) | count;
    }

    pub fn queued(&self) -> (r: bool)
        ensures
            r == queued_of(self.count),
    {
        let w = self.count;
        assert((w & 2147483648u32 != 0) == (w >= 2147483648)) by (bit_vector);
        (self.count & COUNT_QUEUED) != 0
    }

    pub fn set_queued(&mut self, value: bool)
        ensures
            final(self).key == old(self).key,
            count_of(final(self).count) == count_of(old(self).count),
            queued_of(final(self).count) == value,
    {
        let w = self.count;
        assert(count_of(w | 2147483648u32) == count_of(w) && queued_of(w | 2147483648u32))
            by (bit_vector);
        assert(count_of(w & 2147483647u32) == count_of(w) && !queued_of(w & 2147483647u32))
            by (bit_vector);
        if value {
            self.count = self.count | COUNT_QUEUED;
        } else {
            self.count = self.count & COUNT_MASK;
        }
    }
}

// ------------------------------------------------------------------
// Probe geometry
// ------------------------------------------------------------------

/// Forward distance from slot `a` to slot `b` in a ring of `cap` slots.
pub open spec fn dist(a: int, b: int, cap: int) -> int {
    if b >= a {
        b - a
    } else {
        b - a + cap
    }
}

/// The slot after `i` in a ring of `cap` slots.
pub open spec fn next_slot(i: int, cap: int) -> int {
    if i + 1 >= cap {
        0
    } else {
        i + 1
    }
}

/// The slot where probing for `key` starts.
pub open spec fn home(key: u32, cap: int) -> int {
    (pairs::mix_spec(key as u64) as usize) as int % cap
}

pub open spec fn occupied(slots: Seq<PairSlot>, x: int) -> bool {
    slots[x].key != EMPTY_PAIR
}

/// Slot `x` lies strictly before slot `i` on a probe path that starts at `h`.
pub open spec fn on_path(cap: int, h: int, x: int, i: int) -> bool {
    0 < dist(x, i, cap) <= dist(h, i, cap)
}

/// Every slot between the home of the key at `i` and `i` is in use.
pub open spec fn path_clear(slots: Seq<PairSlot>, i: int) -> bool {
    let cap = slots.len() as int;
    forall|x: int|
        #![trigger on_path(cap, home(slots[i].key, cap), x, i)]
        0 <= x < cap && on_path(cap, home(slots[i].key, cap), x, i) ==> occupied(slots, x)
}

/// The table's bookkeeping: the key map, where each key lives, and which
/// slots are in use agree with the slots.
pub open spec fn book_ok(
    slots: Seq<PairSlot>,
    log_cap: nat,
    contents: Map<u32, u32>,
    at: Map<u32, int>,
    occ: Set<int>,
    len: nat,
) -> bool {
    let cap = slots.len() as int;
    &&& 4 <= log_cap <= 28
    &&& cap == pow2(log_cap)
    &&& !contents.contains_key(EMPTY_PAIR)
    &&& contents.dom() == at.dom()
    &&& contents.dom().finite()
    &&& contents.dom().len() == len
    &&& forall|k: u32|
        #[trigger] at.contains_key(k) ==> 0 <= at[k] < cap && slots[at[k]].key == k
            && slots[at[k]].count == contents[k]
    &&& forall|i: int|
        0 <= i < cap && #[trigger] occupied(slots, i) ==> at.contains_key(slots[i].key) && at[slots[i].key]
            == i
    &&& forall|i: int| #[trigger] occ.contains(i) <==> (0 <= i < cap && occupied(slots, i))
    &&& occ.finite()
    &&& occ.len() == len
    &&& len < cap
}

/// The table invariant over its parts: the bookkeeping holds and every
/// key's probe path is clear.
pub open spec fn table_ok(
    slots: Seq<PairSlot>,
    log_cap: nat,
    contents: Map<u32, u32>,
    at: Map<u32, int>,
    occ: Set<int>,
    len: nat,
) -> bool {
    &&& book_ok(slots, log_cap, contents, at, occ, len)
    &&& forall|i: int| 0 <= i < slots.len() && occupied(slots, i) ==> #[trigger] path_clear(slots, i)
}

/// While removal moves keys back: every slot from `s` slots after `p` up to
/// `i` is in use.
pub open spec fn run(slots: Seq<PairSlot>, p: int, s: int, i: int) -> bool {
    let cap = slots.len() as int;
    &&& s <= dist(p, i, cap)
    &&& forall|y: int|
        0 <= y < cap && s <= #[trigger] dist(p, y, cap) <= dist(p, i, cap) ==> occupied(slots, y)
}

/// A key still to be moved has a clear path but for the slots already
/// passed, less than `s` slots after `p`.
pub open spec fn pending_path_ok(slots: Seq<PairSlot>, p: int, s: int, i: int) -> bool {
    let cap = slots.len() as int;
    forall|x: int|
        #![trigger on_path(cap, home(slots[i].key, cap), x, i)]
        0 <= x < cap && on_path(cap, home(slots[i].key, cap), x, i) ==> occupied(slots, x) || dist(
            p,
            x,
            cap,
        ) < s
}

/// The probe-path invariant while the keys after a removed one at `p` are
/// moved back, `s` slots after `p` so far.
pub open spec fn removal_ok(slots: Seq<PairSlot>, p: int, s: int) -> bool {
    let cap = slots.len() as int;
    &&& forall|i: int|
        0 <= i < cap && occupied(slots, i) ==> #[trigger] path_clear(slots, i) || run(slots, p, s, i)
    &&& forall|i: int|
        0 <= i < cap && occupied(slots, i) && #[trigger] run(slots, p, s, i) ==> pending_path_ok(
            slots,
            p,
            s,
            i,
        )
}

/// Emptying the slot `p` of a table whose paths are clear.
proof fn lemma_remove_start(slots0: Seq<PairSlot>, slots1: Seq<PairSlot>, p: int)
    requires
        0 <= p < slots0.len(),
        slots1.len() == slots0.len(),
        !occupied(slots1, p),
        forall|j: int| 0 <= j < slots0.len() && j != p ==> slots1[j] == slots0[j],
        forall|i: int| 0 <= i < slots0.len() && occupied(slots0, i) ==> #[trigger] path_clear(slots0, i),
    ensures
        removal_ok(slots1, p, 1),
{
    let cap = slots0.len() as int;
    assert forall|i: int| 0 <= i < cap && occupied(slots1, i) implies #[trigger] path_clear(slots1, i)
        || run(slots1, p, 1, i) by {
        assert(slots1[i] == slots0[i]);
        assert(path_clear(slots0, i));
        let h = home(slots0[i].key, cap);
        if on_path(cap, h, p, i) {
            assert forall|y: int|
                0 <= y < cap && 1 <= #[trigger] dist(p, y, cap) <= dist(p, i, cap) implies occupied(
                slots1,
                y,
            ) by {
                if y != i {
                    assert(on_path(cap, h, y, i));
                    assert(slots1[y] == slots0[y]);
                }
            }
        } else {
            assert forall|x: int|
                #![trigger on_path(cap, home(slots1[i].key, cap), x, i)]
                0 <= x < cap && on_path(cap, home(slots1[i].key, cap), x, i) implies occupied(slots1, x) by {
                assert(on_path(cap, h, x, i));
                assert(slots1[x] == slots0[x]);
            }
        }
    }
    assert forall|i: int| 0 <= i < cap && occupied(slots1, i) && #[trigger] run(slots1, p, 1, i) implies pending_path_ok(
        slots1,
        p,
        1,
        i,
    ) by {
        assert(slots1[i] == slots0[i]);
        assert(path_clear(slots0, i));
        let h = home(slots0[i].key, cap);
        assert forall|x: int|
            #![trigger on_path(cap, home(slots1[i].key, cap), x, i)]
            0 <= x < cap && on_path(cap, home(slots1[i].key, cap), x, i) implies occupied(slots1, x)
            || dist(p, x, cap) < 1 by {
            assert(on_path(cap, h, x, i));
            if x != p {
                assert(slots1[x] == slots0[x]);
            }
        }
    }
}

/// Moving the key at `scan`, `s` slots after `p`, to the slot `dst` that its
/// probe path now ends at.
proof fn lemma_remove_step(
    old_slots: Seq<PairSlot>,
    mid: Seq<PairSlot>,
    new_slots: Seq<PairSlot>,
    p: int,
    s: int,
    e: int,
    scan: int,
    dst: int,
)
    requires
        removal_ok(old_slots, p, s),
        0 <= p < old_slots.len(),
        0 <= e < old_slots.len(),
        0 <= scan < old_slots.len(),
        0 <= dst < old_slots.len(),
        1 <= s,
        dist(p, scan, old_slots.len() as int) == s,
        s <= dist(p, e, old_slots.len() as int),
        !occupied(old_slots, e),
        occupied(old_slots, scan),
        mid.len() == old_slots.len(),
        new_slots.len() == old_slots.len(),
        !occupied(mid, scan),
        forall|j: int| 0 <= j < old_slots.len() && j != scan ==> mid[j] == old_slots[j],
        !occupied(mid, dst),
        forall|x: int|
            #![trigger on_path(old_slots.len() as int, home(old_slots[scan].key, old_slots.len() as int), x, dst)]
            0 <= x < old_slots.len() && on_path(
                old_slots.len() as int,
                home(old_slots[scan].key, old_slots.len() as int),
                x,
                dst,
            ) ==> occupied(mid, x),
        new_slots[dst] == old_slots[scan],
        forall|j: int| 0 <= j < old_slots.len() && j != dst ==> new_slots[j] == mid[j],
    ensures
        dst == scan || dist(p, dst, old_slots.len() as int) < s,
        dst != e,
        s < dist(p, e, old_slots.len() as int),
        removal_ok(new_slots, p, s + 1),
{
    let cap = old_slots.len() as int;
    let k = old_slots[scan].key;
    let hk = home(k, cap);
    assert(scan != e);
    if dst != scan {
        if dist(hk, dst, cap) > dist(hk, scan, cap) {
            assert(on_path(cap, hk, scan, dst));
            assert(false);
        }
        assert(dist(hk, dst, cap) != dist(hk, scan, cap));
        assert(on_path(cap, hk, dst, scan));
        assert(run(old_slots, p, s, scan));
        assert(pending_path_ok(old_slots, p, s, scan));
        assert(mid[dst] == old_slots[dst]);
    }
    assert forall|i: int| 0 <= i < cap && occupied(new_slots, i) implies #[trigger] path_clear(
        new_slots,
        i,
    ) || run(new_slots, p, s + 1, i) by {
        if i == dst {
            assert forall|x: int|
                #![trigger on_path(cap, home(new_slots[i].key, cap), x, i)]
                0 <= x < cap && on_path(cap, home(new_slots[i].key, cap), x, i) implies occupied(
                new_slots,
                x,
            ) by {
                assert(on_path(cap, hk, x, dst));
                if x != dst {
                    assert(new_slots[x] == mid[x]);
                }
            }
        } else {
            assert(i != scan);
            assert(new_slots[i] == old_slots[i]);
            assert(occupied(old_slots, i));
            let hi = home(old_slots[i].key, cap);
            if run(old_slots, p, s, i) {
                assert forall|y: int|
                    0 <= y < cap && s + 1 <= #[trigger] dist(p, y, cap) <= dist(p, i, cap) implies occupied(
                    new_slots,
                    y,
                ) by {
                    if y != dst {
                        assert(new_slots[y] == mid[y]);
                        assert(mid[y] == old_slots[y]);
                    }
                }
            } else {
                assert(path_clear(old_slots, i));
                if on_path(cap, hi, scan, i) {
                    if dist(p, i, cap) < s {
                        assert(on_path(cap, hi, e, i));
                        assert(false);
                    }
                    assert forall|y: int|
                        0 <= y < cap && s + 1 <= #[trigger] dist(p, y, cap) <= dist(p, i, cap) implies occupied(
                        new_slots,
                        y,
                    ) by {
                        if y != i {
                            assert(on_path(cap, hi, y, i));
                        }
                        if y != dst {
                            assert(new_slots[y] == mid[y]);
                            assert(mid[y] == old_slots[y]);
                        }
                    }
                } else {
                    assert forall|x: int|
                        #![trigger on_path(cap, home(new_slots[i].key, cap), x, i)]
                        0 <= x < cap && on_path(cap, home(new_slots[i].key, cap), x, i) implies occupied(
                        new_slots,
                        x,
                    ) by {
                        assert(on_path(cap, hi, x, i));
                        if x != dst {
                            assert(new_slots[x] == mid[x]);
                            assert(mid[x] == old_slots[x]);
                        }
                    }
                }
            }
        }
    }
    assert forall|i: int| 0 <= i < cap && occupied(new_slots, i) && #[trigger] run(new_slots, p, s + 1, i) implies pending_path_ok(
        new_slots,
        p,
        s + 1,
        i,
    ) by {
        assert(i != dst && i != scan);
        assert(new_slots[i] == old_slots[i]);
        assert forall|y: int|
            0 <= y < cap && s <= #[trigger] dist(p, y, cap) <= dist(p, i, cap) implies occupied(
            old_slots,
            y,
        ) by {
            if y != scan {
                assert(dist(p, y, cap) >= s + 1);
                assert(y != dst);
                assert(new_slots[y] == mid[y]);
                assert(mid[y] == old_slots[y]);
            }
        }
        assert(run(old_slots, p, s, i));
        assert(pending_path_ok(old_slots, p, s, i));
        let hi = home(old_slots[i].key, cap);
        assert forall|x: int|
            #![trigger on_path(cap, home(new_slots[i].key, cap), x, i)]
            0 <= x < cap && on_path(cap, home(new_slots[i].key, cap), x, i) implies occupied(new_slots, x)
            || dist(p, x, cap) < s + 1 by {
            assert(on_path(cap, hi, x, i));
            if x != scan && x != dst {
                assert(new_slots[x] == mid[x]);
                assert(mid[x] == old_slots[x]);
            }
        }
    }
}

/// When the move reaches a free slot, every probe path is clear again.
proof fn lemma_remove_end(slots: Seq<PairSlot>, p: int, s: int, scan: int)
    requires
        removal_ok(slots, p, s),
        0 <= p < slots.len(),
        0 <= scan < slots.len(),
        dist(p, scan, slots.len() as int) == s,
        !occupied(slots, scan),
    ensures
        forall|i: int| 0 <= i < slots.len() && occupied(slots, i) ==> #[trigger] path_clear(slots, i),
{
    let cap = slots.len() as int;
    assert forall|i: int| 0 <= i < slots.len() && occupied(slots, i) implies #[trigger] path_clear(
        slots,
        i,
    ) by {
        if run(slots, p, s, i) {
            assert(s <= dist(p, scan, cap) <= dist(p, i, cap));
            assert(occupied(slots, scan));
        }
    }
}

pub proof fn lemma_pow2_facts(log_cap: nat)
    requires
        4 <= log_cap <= 28,
    ensures
        16 <= pow2(log_cap) <= 268435456,
        pow2((log_cap + 1) as nat) == 2 * pow2(log_cap),
{
    vstd::arithmetic::power2::lemma2_to64();
    vstd::arithmetic::power2::lemma_pow2_unfold((log_cap + 1) as nat);
    if log_cap > 4 {
        vstd::arithmetic::power2::lemma_pow2_strictly_increases(4, log_cap);
    }
    if log_cap < 28 {
        vstd::arithmetic::power2::lemma_pow2_strictly_increases(log_cap, 28);
    }
}

/// Masking with `cap - 1` is reduction modulo `cap` for a power of two.
pub proof fn lemma_mask(x: usize, log_cap: nat)
    requires
        4 <= log_cap <= 28,
    ensures
        x & ((pow2(log_cap) - 1) as usize) == x % (pow2(log_cap) as usize),
{
    vstd::bits::lemma_usize_low_bits_mask_is_mod(x, log_cap);
    lemma_pow2_facts(log_cap);
}

/// Some slot is empty when fewer slots are used than there are.
pub proof fn lemma_exists_empty(slots: Seq<PairSlot>, occ: Set<int>, len: nat) -> (e: int)
    requires
        forall|i: int| #[trigger] occ.contains(i) <==> (0 <= i < slots.len() && occupied(slots, i)),
        occ.finite(),
        occ.len() == len,
        len < slots.len(),
    ensures
        0 <= e < slots.len(),
        !occupied(slots, e),
{
    let range = vstd::set_lib::set_int_range(0, slots.len() as int);
    vstd::set_lib::lemma_int_range(0, slots.len() as int);
    if forall|i: int| 0 <= i < slots.len() ==> occupied(slots, i) {
        assert(range.subset_of(occ));
        vstd::set_lib::lemma_len_subset(range, occ);
        assert(false);
        0
    } else {
        choose|i: int| 0 <= i < slots.len() && !occupied(slots, i)
    }
}

/// Putting a key into a free slot, found at the end of its clear probe path,
/// keeps every probe path clear.
proof fn lemma_fill_keeps_paths(slots: Seq<PairSlot>, slots2: Seq<PairSlot>, idx: int)
    requires
        0 <= idx < slots.len(),
        slots2.len() == slots.len(),
        !occupied(slots, idx),
        slots2[idx].key != EMPTY_PAIR,
        forall|j: int| 0 <= j < slots.len() && j != idx ==> slots2[j] == slots[j],
        forall|i: int| 0 <= i < slots.len() && occupied(slots, i) ==> #[trigger] path_clear(slots, i),
        forall|x: int|
            #![trigger on_path(slots.len() as int, home(slots2[idx].key, slots.len() as int), x, idx)]
            0 <= x < slots.len() && on_path(
                slots.len() as int,
                home(slots2[idx].key, slots.len() as int),
                x,
                idx,
            ) ==> occupied(slots, x),
    ensures
        forall|i: int| 0 <= i < slots2.len() && occupied(slots2, i) ==> #[trigger] path_clear(slots2, i),
{
    let cap = slots.len() as int;
    assert forall|i: int| 0 <= i < slots2.len() && occupied(slots2, i) implies #[trigger] path_clear(
        slots2,
        i,
    ) by {
        if i == idx {
            assert forall|x: int|
                #![trigger on_path(cap, home(slots2[i].key, cap), x, i)]
                0 <= x < cap && on_path(cap, home(slots2[i].key, cap), x, i) implies occupied(
                slots2,
                x,
            ) by {
                assert(occupied(slots, x));
                if x != idx {
                    assert(slots2[x] == slots[x]);
                }
            }
        } else {
            assert(slots2[i] == slots[i]);
            assert(path_clear(slots, i));
            assert forall|x: int|
                #![trigger on_path(cap, home(slots2[i].key, cap), x, i)]
                0 <= x < cap && on_path(cap, home(slots2[i].key, cap), x, i) implies occupied(
                slots2,
                x,
            ) by {
                assert(on_path(cap, home(slots[i].key, cap), x, i));
                if x != idx {
                    assert(slots2[x] == slots[x]);
                }
            }
        }
    }
}

/// Pair counts in an open-addressing table with linear probing: a key lives
/// at the first free slot of its probe path when it is added; removing a key
/// moves the keys after it back along their paths.
pub struct PairTable {
    slots: Vec<PairSlot>,
    len: usize,
    log_cap: Ghost<nat>,
    contents: Ghost<Map<u32, u32>>,
    at: Ghost<Map<u32, int>>,
    occ: Ghost<Set<int>>,
}

impl PairTable {
    /// Key -> count word of every pair in the table.
    pub closed spec fn view(&self) -> Map<u32, u32> {
        self.contents@
    }

    pub closed spec fn wf(&self) -> bool {
        table_ok(
            self.slots@,
            self.log_cap@,
            self.contents@,
            self.at@,
            self.occ@,
            self.len as nat,
        )
    }

    /// Number of slots.
    pub closed spec fn cap(&self) -> int {
        self.slots@.len() as int
    }

    /// The slot at `i`.
    pub closed spec fn slot_view(&self, i: int) -> PairSlot {
        self.slots@[i]
    }

    /// Where a key of the table lives.
    pub closed spec fn position(&self, k: u32) -> int {
        self.at@[k]
    }

    /// All the slots.
    pub closed spec fn slots_view(&self) -> Seq<PairSlot> {
        self.slots@
    }

    /// The slots in use are exactly the keys of the table, each once.
    pub proof fn lemma_slots_cover(&self)
        requires
            self.wf(),
        ensures
            16 <= self.cap() <= 268435456,
            self.slots_view().len() == self.cap(),
            forall|i: int| 0 <= i < self.cap() ==> #[trigger] self.slots_view()[i] == self.slot_view(i),
            !self.view().contains_key(EMPTY_PAIR),
            self.view().dom().finite(),
            forall|i: int|
                0 <= i < self.cap() && #[trigger] self.slot_view(i).key != EMPTY_PAIR ==> self.view().contains_key(
                    self.slot_view(i).key,
                ) && self.view()[self.slot_view(i).key] == self.slot_view(i).count
                    && self.position(self.slot_view(i).key) == i,
            forall|k: u32|
                #[trigger] self.view().contains_key(k) ==> 0 <= self.position(k) < self.cap()
                    && self.slot_view(self.position(k)).key == k,
    {
        lemma_pow2_facts(self.log_cap@);
        assert forall|i: int|
            0 <= i < self.cap() && #[trigger] self.slot_view(i).key != EMPTY_PAIR implies self.view().contains_key(
            self.slot_view(i).key,
        ) && self.view()[self.slot_view(i).key] == self.slot_view(i).count && self.position(
            self.slot_view(i).key,
        ) == i by {
            assert(occupied(self.slots@, i));
            assert(self.at@.contains_key(self.slots@[i].key));
        }
        assert forall|k: u32| #[trigger] self.view().contains_key(k) implies 0 <= self.position(k)
            < self.cap() && self.slot_view(self.position(k)).key == k by {
            assert(self.at@.contains_key(k));
        }
    }

    /// A table of at least `capacity` slots, and at least 16, rounded up to a
    /// power of two.
    pub fn with_capacity(capacity: usize) -> (r: PairTable)
        requires
            capacity <= 268435456,
        ensures
            r.wf(),
            r.view() == Map::<u32, u32>::empty(),
            r.cap() >= capacity,
            r.cap() >= 16,
            r.cap() == 16 || r.cap() < 2 * capacity,
            exists|l: nat| r.cap() == pow2(l),
    {
        let mut cap: usize = 16;
        let ghost mut log: nat = 4;
        proof {
            vstd::arithmetic::power2::lemma2_to64();
        }
        while cap < capacity
            invariant
                4 <= log <= 28,
                cap == pow2(log),
                capacity <= 268435456,
                cap == 16 || cap < 2 * capacity,
            decreases 268435456 - cap,
        {
            proof {
                lemma_pow2_facts(log);
                vstd::arithmetic::power2::lemma2_to64();
                if log == 28 {
                    assert(false);
                }
            }
            cap = cap * 2;
            proof {
                log = log + 1;
            }
        }
        let mut slots: Vec<PairSlot> = Vec::with_capacity(cap);
        let mut i: usize = 0;
        while i < cap
            invariant
                0 <= i <= cap,
                slots@.len() == i,
                forall|j: int| 0 <= j < i ==> (#[trigger] slots@[j]).key == EMPTY_PAIR && slots@[j].count
                    == 0,
            decreases cap - i,
        {
            slots.push(PairSlot { key: EMPTY_PAIR, count: 0 });
            i += 1;
        }
        let ghost contents = Map::<u32, u32>::empty();
        let ghost at = Map::<u32, int>::empty();
        let ghost occ = Set::<int>::empty();
        let r = PairTable {
            slots,
            len: 0,
            log_cap: Ghost(log),
            contents: Ghost(contents),
            at: Ghost(at),
            occ: Ghost(occ),
        };
        proof {
            lemma_pow2_facts(log);
            assert(contents.dom() =~= at.dom());
        }
        r
    }

    /// Where probing for `key` starts.
    pub fn hash(key: u32) -> (r: usize)
        ensures
            r == pairs::mix_spec(key as u64) as usize,
    {
        mix(key as u64) as usize
    }

    /// Walks the probe path of `key` from its home to the first slot that is
    /// free or holds `key`.
    fn probe(&self, key: u32, Ghost(e): Ghost<int>) -> (idx: usize)
        requires
            4 <= self.log_cap@ <= 28,
            self.slots@.len() == pow2(self.log_cap@),
            0 <= e < self.slots@.len(),
            !occupied(self.slots@, e),
        ensures
            idx < self.slots@.len(),
            self.slots@[idx as int].key == key || !occupied(self.slots@, idx as int),
            forall|x: int|
                #![trigger on_path(self.slots@.len() as int, home(key, self.slots@.len() as int), x, idx as int)]
                0 <= x < self.slots@.len() && on_path(
                    self.slots@.len() as int,
                    home(key, self.slots@.len() as int),
                    x,
                    idx as int,
                ) ==> occupied(self.slots@, x) && self.slots@[x].key != key,
    {
        let ghost cap = self.slots@.len() as int;
        proof {
            lemma_pow2_facts(self.log_cap@);
        }
        let mask = self.slots.len() - 1;
        let hv = Self::hash(key);
        proof {
            lemma_mask(hv, self.log_cap@);
        }
        let mut index = hv & mask;
        let ghost h = index as int;
        assert(h == home(key, cap));
        loop
            invariant
                4 <= self.log_cap@ <= 28,
                cap == self.slots@.len(),
                cap == pow2(self.log_cap@),
                16 <= cap <= 268435456,
                mask == cap - 1,
                0 <= e < cap,
                !occupied(self.slots@, e),
                h == home(key, cap),
                0 <= h < cap,
                0 <= index < cap,
                dist(h, index as int, cap) <= dist(h, e, cap),
                forall|x: int|
                    #![trigger on_path(cap, h, x, index as int)]
                    0 <= x < cap && on_path(cap, h, x, index as int) ==> occupied(self.slots@, x)
                        && self.slots@[x].key != key,
            decreases dist(index as int, e, cap),
        {
            let existing = self.slots[index].key;
            if existing == EMPTY_PAIR || existing == key {
                return index;
            }
            proof {
                lemma_mask((index + 1) as usize, self.log_cap@);
            }
            let ghost old_index = index as int;
            index = (index + 1) & mask;
            proof {
                assert(old_index != e);
                if old_index + 1 < cap {
                    vstd::arithmetic::div_mod::lemma_small_mod((old_index + 1) as nat, cap as nat);
                } else {
                    vstd::arithmetic::div_mod::lemma_mod_self_0(cap);
                }
                assert(index as int == next_slot(old_index, cap));
                assert forall|x: int|
                    #![trigger on_path(cap, h, x, index as int)]
                    0 <= x < cap && on_path(cap, h, x, index as int) implies occupied(self.slots@, x)
                        && self.slots@[x].key != key by {
                    if x != old_index {
                        assert(on_path(cap, h, x, old_index));
                    }
                }
            }
        }
    }

    /// Puts a key that is not in the table into the free slot its probe
    /// path ends at.
    fn place(&mut self, slot: PairSlot) -> (idx: usize)
        requires
            old(self).wf(),
            slot.key != EMPTY_PAIR,
            !old(self).view().contains_key(slot.key),
            old(self).len + 1 < old(self).slots@.len(),
        ensures
            final(self).wf(),
            final(self).view() == old(self).view().insert(slot.key, slot.count),
            final(self).slots@.len() == old(self).slots@.len(),
            final(self).log_cap@ == old(self).log_cap@,
            idx < final(self).slots@.len(),
            final(self).slots@[idx as int] == slot,
            final(self).at@ == old(self).at@.insert(slot.key, idx as int),
    {
        let ghost e = lemma_exists_empty(self.slots@, self.occ@, self.len as nat);
        let index = self.probe(slot.key, Ghost(e));
        proof {
            self.lemma_probe_result(slot.key, index as int);
        }
        let ghost old_slots = self.slots@;
        proof {
            lemma_pow2_facts(self.log_cap@);
        }
        self.slots[index] = slot;
        self.len = self.len + 1;
        proof {
            let cap = old_slots.len() as int;
            lemma_fill_keeps_paths(old_slots, self.slots@, index as int);
            let old_contents = self.contents@;
            let old_at = self.at@;
            let old_occ = self.occ@;
            self.contents@ = old_contents.insert(slot.key, slot.count);
            self.at@ = old_at.insert(slot.key, index as int);
            self.occ@ = old_occ.insert(index as int);
            assert(!old_occ.contains(index as int));
            assert(self.contents@.dom() =~= self.at@.dom());
            assert forall|k: u32| #[trigger] self.at@.contains_key(k) implies 0 <= self.at@[k] < cap
                && self.slots@[self.at@[k]].key == k && self.slots@[self.at@[k]].count
                == self.contents@[k] by {
                if k != slot.key {
                    assert(old_at.contains_key(k));
                    assert(old_at[k] != index as int);
                }
            }
            assert forall|i: int|
                0 <= i < cap && #[trigger] occupied(self.slots@, i) implies self.at@.contains_key(
                self.slots@[i].key,
            ) && self.at@[self.slots@[i].key] == i by {
                if i != index as int {
                    assert(occupied(old_slots, i));
                    assert(old_slots[i].key != slot.key);
                }
            }
            assert forall|i: int| #[trigger] self.occ@.contains(i) <==> (0 <= i < cap && occupied(
                self.slots@,
                i,
            )) by {
                if i != index as int && 0 <= i < cap {
                    assert(old_slots[i] == self.slots@[i]);
                }
            }
        }
        index
    }

    /// Doubles the number of slots and places every key anew.
    fn rehash(&mut self)
        requires
            old(self).wf(),
            old(self).log_cap@ < 28,
        ensures
            final(self).wf(),
            final(self).view() == old(self).view(),
            final(self).log_cap@ == old(self).log_cap@ + 1,
            final(self).slots@.len() == 2 * old(self).slots@.len(),
    {
        let old_capacity = self.slots.len();
        proof {
            lemma_pow2_facts(self.log_cap@);
        }
        let mut fresh = PairTable::empty_with(old_capacity * 2, Ghost((self.log_cap@ + 1) as nat));
        let mut i: usize = 0;
        while i < old_capacity
            invariant
                self.wf(),
                old_capacity == self.slots@.len(),
                fresh.wf(),
                fresh.slots@.len() == 2 * old_capacity,
                fresh.log_cap@ == self.log_cap@ + 1,
                0 <= i <= old_capacity,
                forall|k: u32|
                    #[trigger] fresh.contents@.contains_key(k) <==> (self.contents@.contains_key(k)
                        && self.at@[k] < i),
                forall|k: u32|
                    #[trigger] fresh.contents@.contains_key(k) ==> fresh.contents@[k]
                        == self.contents@[k],
                fresh.len <= self.len,
            decreases old_capacity - i,
        {
            let slot = self.slots[i];
            if slot.key != EMPTY_PAIR {
                proof {
                    assert(occupied(self.slots@, i as int));
                    assert(self.at@.contains_key(slot.key));
                    assert(fresh.contents@.dom().subset_of(self.contents@.dom().remove(slot.key)));
                    vstd::set_lib::lemma_len_subset(
                        fresh.contents@.dom(),
                        self.contents@.dom().remove(slot.key),
                    );
                }
                fresh.place(slot);
                proof {
                    assert forall|k: u32| #[trigger] fresh.contents@.contains_key(k) <==> (
                    self.contents@.contains_key(k) && self.at@[k] < i + 1) by {
                        if k != slot.key && self.contents@.contains_key(k) && self.at@[k] == i {
                            assert(self.at@.contains_key(k));
                        }
                    }
                }
            } else {
                proof {
                    assert forall|k: u32| #[trigger] fresh.contents@.contains_key(k) <==> (
                    self.contents@.contains_key(k) && self.at@[k] < i + 1) by {
                        if self.contents@.contains_key(k) && self.at@[k] == i {
                            assert(self.at@.contains_key(k));
                        }
                    }
                }
            }
            i += 1;
        }
        proof {
            assert forall|k: u32| #[trigger] self.contents@.contains_key(k) implies self.at@[k]
                < old_capacity by {
                assert(self.at@.contains_key(k));
            }
            assert(fresh.contents@ =~= self.contents@);
        }
        *self = fresh;
    }

    /// An empty table of `cap == 2^log` slots.
    fn empty_with(cap: usize, Ghost(log): Ghost<nat>) -> (r: PairTable)
        requires
            4 <= log <= 28,
            cap == pow2(log),
        ensures
            r.wf(),
            r.view() == Map::<u32, u32>::empty(),
            r.slots@.len() == cap,
            r.log_cap@ == log,
            r.len == 0,
    {
        proof {
            lemma_pow2_facts(log);
        }
        let mut slots: Vec<PairSlot> = Vec::with_capacity(cap);
        let mut i: usize = 0;
        while i < cap
            invariant
                0 <= i <= cap,
                slots@.len() == i,
                forall|j: int| 0 <= j < i ==> (#[trigger] slots@[j]).key == EMPTY_PAIR && slots@[j].count
                    == 0,
            decreases cap - i,
        {
            slots.push(PairSlot { key: EMPTY_PAIR, count: 0 });
            i += 1;
        }
        let ghost contents = Map::<u32, u32>::empty();
        let ghost at = Map::<u32, int>::empty();
        let ghost occ = Set::<int>::empty();
        let r = PairTable {
            slots,
            len: 0,
            log_cap: Ghost(log),
            contents: Ghost(contents),
            at: Ghost(at),
            occ: Ghost(occ),
        };
        proof {
            assert(contents.dom() =~= at.dom());
        }
        r
    }

    /// The slot of `key`, added with count 0 if it was not there; the table
    /// doubles first when the addition would fill it past seven tenths.
    pub fn get_or_insert(&mut self, key: u32) -> (r: PairSlot)
        requires
            old(self).wf(),
            key != EMPTY_PAIR,
            old(self).view().dom().len() + 1 < 187000000,
        ensures
            final(self).wf(),
            final(self).view() == (if old(self).view().contains_key(key) {
                old(self).view()
            } else {
                old(self).view().insert(key, 0)
            }),
            r == (PairSlot { key, count: final(self).view()[key] }),
    {
        let mut index = self.find_slot(key);
        if self.slots[index].key == key {
            proof {
                assert(self.at@.contains_key(key));
            }
            return self.slots[index];
        }
        proof {
            lemma_pow2_facts(self.log_cap@);
        }
        if (self.len + 1) * 10 >= self.slots.len() * 7 {
            proof {
                if self.log_cap@ >= 28 {
                    vstd::arithmetic::power2::lemma2_to64();
                    assert(false);
                }
            }
            self.rehash();
        }
        proof {
            lemma_pow2_facts(self.log_cap@);
        }
        let idx = self.place(PairSlot { key, count: 0 });
        self.slots[idx]
    }

    /// Overwrites the count word of the key in use at slot `idx`.
    fn write_word(&mut self, idx: usize, word: u32)
        requires
            old(self).wf(),
            idx < old(self).slots@.len(),
            occupied(old(self).slots@, idx as int),
        ensures
            final(self).wf(),
            final(self).view() == old(self).view().insert(old(self).slots@[idx as int].key, word),
            final(self).slots@.len() == old(self).slots@.len(),
            final(self).at@ == old(self).at@,
            final(self).slots@[idx as int].key == old(self).slots@[idx as int].key,
            forall|j: int|
                0 <= j < old(self).slots@.len() && j != idx ==> #[trigger] final(self).slots@[j]
                    == old(self).slots@[j],
    {
        let key = self.slots[idx].key;
        let ghost old_slots = self.slots@;
        self.slots[idx] = PairSlot { key, count: word };
        proof {
            let cap = old_slots.len() as int;
            let old_contents = self.contents@;
            self.contents@ = old_contents.insert(key, word);
            assert(self.at@.contains_key(key));
            assert(self.at@[key] == idx as int);
            assert(self.contents@.dom() =~= old_contents.dom());
            assert forall|k: u32| #[trigger] self.at@.contains_key(k) implies 0 <= self.at@[k] < cap
                && self.slots@[self.at@[k]].key == k && self.slots@[self.at@[k]].count
                == self.contents@[k] by {
                if k != key {
                    assert(self.at@[k] != idx as int);
                }
            }
            assert forall|i: int|
                0 <= i < cap && #[trigger] occupied(self.slots@, i) implies self.at@.contains_key(
                self.slots@[i].key,
            ) && self.at@[self.slots@[i].key] == i by {
                if i != idx as int {
                    assert(occupied(old_slots, i));
                }
            }
            assert forall|i: int| #[trigger] self.occ@.contains(i) <==> (0 <= i < cap && occupied(
                self.slots@,
                i,
            )) by {
                if i != idx as int && 0 <= i < cap {
                    assert(old_slots[i] == self.slots@[i]);
                }
            }
            assert forall|i: int| 0 <= i < cap && occupied(self.slots@, i) implies #[trigger] path_clear(
                self.slots@,
                i,
            ) by {
                assert(occupied(old_slots, i));
                assert(path_clear(old_slots, i));
                assert forall|x: int|
                    #![trigger on_path(cap, home(self.slots@[i].key, cap), x, i)]
                    0 <= x < cap && on_path(cap, home(self.slots@[i].key, cap), x, i) implies occupied(
                    self.slots@,
                    x,
                ) by {
                    assert(on_path(cap, home(old_slots[i].key, cap), x, i));
                }
            }
        }
    }

    /// Sets the count of a pair in the table, keeping its queued bit.
    pub fn set_count_of(&mut self, key: u32, count: u32)
        requires
            old(self).wf(),
            key != EMPTY_PAIR,
            old(self).view().contains_key(key),
            count <= COUNT_MASK,
        ensures
            final(self).wf(),
            final(self).view().dom() == old(self).view().dom(),
            count_of(final(self).view()[key]) == count,
            queued_of(final(self).view()[key]) == queued_of(old(self).view()[key]),
            forall|k: u32| k != key ==> #[trigger] final(self).view()[k] == old(self).view()[k],
    {
        let idx = self.find_slot(key);
        let mut slot = self.slots[idx];
        slot.set_count(count);
        proof {
            assert(occupied(self.slots@, idx as int));
        }
        self.write_word(idx, slot.count);
        proof {
            assert(final(self).view().dom() =~= old(self).view().dom());
        }
    }

    /// Sets or clears the queued bit of a pair in the table.
    pub fn set_queued_of(&mut self, key: u32, value: bool)
        requires
            old(self).wf(),
            key != EMPTY_PAIR,
            old(self).view().contains_key(key),
        ensures
            final(self).wf(),
            final(self).view().dom() == old(self).view().dom(),
            count_of(final(self).view()[key]) == count_of(old(self).view()[key]),
            queued_of(final(self).view()[key]) == value,
            forall|k: u32| k != key ==> #[trigger] final(self).view()[k] == old(self).view()[k],
    {
        let idx = self.find_slot(key);
        let mut slot = self.slots[idx];
        slot.set_queued(value);
        proof {
            assert(occupied(self.slots@, idx as int));
        }
        self.write_word(idx, slot.count);
        proof {
            assert(final(self).view().dom() =~= old(self).view().dom());
        }
    }

    /// Sets or clears the queued bit of the pair at slot `i`.
    pub fn set_queued_at(&mut self, i: usize, value: bool)
        requires
            old(self).wf(),
            i < old(self).cap(),
            old(self).slot_view(i as int).key != EMPTY_PAIR,
        ensures
            final(self).wf(),
            final(self).cap() == old(self).cap(),
            final(self).view().dom() == old(self).view().dom(),
            count_of(final(self).view()[old(self).slot_view(i as int).key]) == count_of(
                old(self).view()[old(self).slot_view(i as int).key],
            ),
            queued_of(final(self).view()[old(self).slot_view(i as int).key]) == value,
            forall|k: u32|
                k != old(self).slot_view(i as int).key ==> #[trigger] final(self).view()[k] == old(
                    self,
                ).view()[k],
            forall|j: int|
                0 <= j < old(self).cap() ==> (#[trigger] final(self).slot_view(j)).key == old(
                    self,
                ).slot_view(j).key,
    {
        let mut slot = self.slots[i];
        proof {
            assert(occupied(self.slots@, i as int));
            assert(self.at@.contains_key(slot.key));
        }
        slot.set_queued(value);
        self.write_word(i, slot.count);
        proof {
            assert(final(self).view().dom() =~= old(self).view().dom());
        }
    }

    /// Takes `key` out of the table, moving back the keys after it.
    pub fn remove(&mut self, key: u32)
        requires
            old(self).wf(),
            key != EMPTY_PAIR,
        ensures
            final(self).wf(),
            final(self).view() == old(self).view().remove(key),
    {
        let index = self.find_slot(key);
        if self.slots[index].key != key {
            proof {
                assert(self.contents@.remove(key) =~= self.contents@);
            }
            return;
        }
        let ghost e0 = lemma_exists_empty(self.slots@, self.occ@, self.len as nat);
        let ghost cap = self.slots@.len() as int;
        let ghost p = index as int;
        let ghost slots0 = self.slots@;
        proof {
            lemma_pow2_facts(self.log_cap@);
            assert(self.at@.contains_key(key));
        }
        self.slots[index] = PairSlot { key: EMPTY_PAIR, count: 0 };
        self.len = self.len - 1;
        proof {
            lemma_remove_start(slots0, self.slots@, p);
            let old_contents = self.contents@;
            let old_at = self.at@;
            let old_occ = self.occ@;
            self.contents@ = old_contents.remove(key);
            self.at@ = old_at.remove(key);
            self.occ@ = old_occ.remove(p);
            assert(self.contents@.dom() =~= self.at@.dom());
            assert forall|k: u32| #[trigger] self.at@.contains_key(k) implies 0 <= self.at@[k] < cap
                && self.slots@[self.at@[k]].key == k && self.slots@[self.at@[k]].count
                == self.contents@[k] by {
                assert(old_at.contains_key(k));
                assert(old_at[k] != p);
            }
            assert forall|i: int|
                0 <= i < cap && #[trigger] occupied(self.slots@, i) implies self.at@.contains_key(
                self.slots@[i].key,
            ) && self.at@[self.slots@[i].key] == i by {
                assert(occupied(slots0, i));
                assert(slots0[i].key != key);
            }
            assert forall|i: int| #[trigger] self.occ@.contains(i) <==> (0 <= i < cap && occupied(
                self.slots@,
                i,
            )) by {
                if i != p && 0 <= i < cap {
                    assert(slots0[i] == self.slots@[i]);
                }
            }
        }
        let mask = self.slots.len() - 1;
        proof {
            lemma_mask((index + 1) as usize, self.log_cap@);
            if p + 1 < cap {
                vstd::arithmetic::div_mod::lemma_small_mod((p + 1) as nat, cap as nat);
            } else {
                vstd::arithmetic::div_mod::lemma_mod_self_0(cap);
            }
        }
        let mut scan = (index + 1) & mask;
        let ghost mut s: int = 1;
        while self.slots[scan].key != EMPTY_PAIR
            invariant
                book_ok(self.slots@, self.log_cap@, self.contents@, self.at@, self.occ@, self.len as nat),
                cap == self.slots@.len(),
                16 <= cap <= 268435456,
                mask == cap - 1,
                self.contents@ == old(self).contents@.remove(key),
                0 <= p < cap,
                0 <= e0 < cap,
                !occupied(self.slots@, e0),
                0 <= scan < cap,
                1 <= s <= dist(p, e0, cap),
                dist(p, scan as int, cap) == s,
                removal_ok(self.slots@, p, s),
            decreases dist(p, e0, cap) - s,
        {
            let slot = self.slots[scan];
            let ghost old_slots = self.slots@;
            proof {
                assert(occupied(old_slots, scan as int));
                assert(self.at@.contains_key(slot.key));
                assert(self.occ@.contains(scan as int));
                assert(self.occ@.len() >= 1) by {
                    vstd::set_lib::lemma_set_empty_equivalency_len(self.occ@);
                }
            }
            self.slots[scan] = PairSlot { key: EMPTY_PAIR, count: 0 };
            self.len = self.len - 1;
            let ghost mid = self.slots@;
            let dst = self.probe(slot.key, Ghost(scan as int));
            proof {
                if mid[dst as int].key == slot.key {
                    assert(occupied(old_slots, dst as int));
                    assert(self.at@[old_slots[dst as int].key] == dst as int);
                }
            }
            self.slots[dst] = slot;
            self.len = self.len + 1;
            proof {
                lemma_remove_step(old_slots, mid, self.slots@, p, s, e0, scan as int, dst as int);
                let old_at = self.at@;
                let old_occ = self.occ@;
                self.at@ = old_at.insert(slot.key, dst as int);
                if dst != scan {
                    self.occ@ = old_occ.remove(scan as int).insert(dst as int);
                    assert(!old_occ.contains(dst as int));
                }
                assert(self.contents@.dom() =~= self.at@.dom());
                assert forall|k: u32| #[trigger] self.at@.contains_key(k) implies 0 <= self.at@[k]
                    < cap && self.slots@[self.at@[k]].key == k && self.slots@[self.at@[k]].count
                    == self.contents@[k] by {
                    if k != slot.key {
                        assert(old_at.contains_key(k));
                        assert(old_at[k] != scan as int);
                        assert(old_at[k] != dst as int);
                    }
                }
                assert forall|i: int|
                    0 <= i < cap && #[trigger] occupied(self.slots@, i) implies self.at@.contains_key(
                    self.slots@[i].key,
                ) && self.at@[self.slots@[i].key] == i by {
                    if i != dst as int {
                        assert(i != scan as int);
                        assert(occupied(old_slots, i));
                        assert(old_slots[i].key != slot.key);
                    }
                }
                assert forall|i: int| #[trigger] self.occ@.contains(i) <==> (0 <= i < cap
                    && occupied(self.slots@, i)) by {
                    if i != dst as int && i != scan as int && 0 <= i < cap {
                        assert(old_slots[i] == self.slots@[i]);
                    }
                }
            }
            proof {
                lemma_mask((scan + 1) as usize, self.log_cap@);
                if scan + 1 < cap {
                    vstd::arithmetic::div_mod::lemma_small_mod((scan + 1) as nat, cap as nat);
                } else {
                    vstd::arithmetic::div_mod::lemma_mod_self_0(cap);
                }
            }
            scan = (scan + 1) & mask;
            proof {
                s = s + 1;
            }
        }
        proof {
            lemma_remove_end(self.slots@, p, s, scan as int);
        }
    }

    /// Slot where `key` lives, or the free slot where it would go.
    pub fn find_slot(&self, key: u32) -> (idx: usize)
        requires
            self.wf(),
            key != EMPTY_PAIR,
        ensures
            idx < self.cap(),
            self.view().contains_key(key) ==> idx as int == self.position(key)
                && self.slot_view(idx as int).key == key,
            !self.view().contains_key(key) ==> self.slot_view(idx as int).key == EMPTY_PAIR,
    {
        let ghost e = lemma_exists_empty(self.slots@, self.occ@, self.len as nat);
        let idx = self.probe(key, Ghost(e));
        proof {
            self.lemma_probe_result(key, idx as int);
        }
        idx
    }

    /// What the probe found, read against the table invariant.
    proof fn lemma_probe_result(&self, key: u32, idx: int)
        requires
            self.wf(),
            key != EMPTY_PAIR,
            0 <= idx < self.slots@.len(),
            self.slots@[idx].key == key || !occupied(self.slots@, idx),
            forall|x: int|
                #![trigger on_path(self.slots@.len() as int, home(key, self.slots@.len() as int), x, idx)]
                0 <= x < self.slots@.len() && on_path(
                    self.slots@.len() as int,
                    home(key, self.slots@.len() as int),
                    x,
                    idx,
                ) ==> occupied(self.slots@, x) && self.slots@[x].key != key,
        ensures
            self.contents@.contains_key(key) ==> idx == self.at@[key] && self.slots@[idx].key == key,
            !self.contents@.contains_key(key) ==> self.slots@[idx].key == EMPTY_PAIR,
    {
        let cap = self.slots@.len() as int;
        let h = home(key, cap);
        lemma_pow2_facts(self.log_cap@);
        if self.contents@.contains_key(key) {
            let q = self.at@[key];
            assert(self.at@.contains_key(key));
            assert(occupied(self.slots@, q));
            assert(path_clear(self.slots@, q));
            if q != idx {
                if dist(h, q, cap) < dist(h, idx, cap) {
                    assert(on_path(cap, h, q, idx));
                } else {
                    assert(on_path(cap, h, idx, q));
                    assert(occupied(self.slots@, idx));
                    assert(self.slots@[idx].key == key);
                    assert(self.at@[self.slots@[idx].key] == idx);
                }
            }
        } else {
            if self.slots@[idx].key == key {
                assert(occupied(self.slots@, idx));
                assert(self.at@.contains_key(self.slots@[idx].key));
            }
        }
    }

    /// The slot of `key`, if it is in the table.
    pub fn get(&self, key: u32) -> (r: Option<PairSlot>)
        requires
            self.wf(),
            key != EMPTY_PAIR,
        ensures
            r == (if self.view().contains_key(key) {
                Some(PairSlot { key, count: self.view()[key] })
            } else {
                None
            }),
    {
        let index = self.find_slot(key);
        proof {
            if self.contents@.contains_key(key) {
                assert(self.at@.contains_key(key));
            }
        }
        if self.slots[index].key == key {
            Some(self.slots[index])
        } else {
            None
        }
    }

    /// Number of pairs in the table.
    pub fn len(&self) -> (r: usize)
        requires
            self.wf(),
        ensures
            r == self.view().dom().len(),
    {
        self.len
    }

    /// Number of slots.
    pub fn capacity(&self) -> (r: usize)
        ensures
            r == self.cap(),
    {
        self.slots.len()
    }

    /// The slot at `i`.
    pub fn slot_at(&self, i: usize) -> (r: PairSlot)
        requires
            i < self.cap(),
        ensures
            r == self.slot_view(i as int),
    {
        self.slots[i]
    }
}

} // verus!

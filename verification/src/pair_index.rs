//! The state of byte-pair merging: the token sequence as a linked list over
//! positions, the count of every adjacent pair, where each pair was seen,
//! and a heap of merge candidates.
use vstd::prelude::*;
use vstd::multiset::Multiset;
use std::collections::HashSet;
use crate::heap::{Entry, EntryHeap, entry_le};
use crate::occurrences::{OccurrenceStore, REMOVED, occurrence_live, live_part};
use crate::pair_table::{PairTable, count_of, queued_of, EMPTY_PAIR};
use crate::pairs::{
    pair_key,
    pair_ids,
    pair_score,
    pair_key_spec,
    pair_ids_spec,
    score_spec,
    merged_len,
    lemma_pair_key_roundtrip,
    lemma_pair_ids_roundtrip,
};
use crate::token_meta::{TokenMeta, valid_fusion_spec, fuse_spec};
use crate::trie::NONE;

verus! {

broadcast use {
    vstd::std_specs::hash::group_hash_axioms,
    vstd::seq_lib::group_to_multiset_ensures,
    vstd::multiset::group_multiset_properties,
};

/// Largest corpus, in bytes, that merging accepts: 2 GiB.
pub const MAX_CORPUS_BYTES: u64 = 2147483648u64;

/// Most distinct pairs the pair table holds: 70% of its largest size,
/// 2^28 slots of eight bytes, the most that still fits a 32-bit address
/// space beside the rest of the index.
pub const MAX_PAIRS: usize = 186999998usize;

/// Why merging could not go on.
#[derive(Debug)]
pub enum VocabError {
    /// The corpus is over `MAX_CORPUS_BYTES`.
    CorpusTooLarge,
    /// More token positions than 32-bit links can address.
    TooManyTokens,
    /// More distinct pairs than the pair table holds.
    TooManyPairs,
    /// The running count of recorded positions overflowed.
    OccurrenceOverflow,
}

// ------------------------------------------------------------------
// The model
// ------------------------------------------------------------------

/// A link to a live node (not "none" and not "removed").
pub open spec fn is_link(v: u32) -> bool {
    v != NONE && v != REMOVED
}

/// The links form a doubly linked list over positions in increasing order;
/// a removed node has both links "removed".
pub open spec fn links_ok(prev: Seq<u32>, next: Seq<u32>) -> bool {
    let n = next.len() as int;
    &&& prev.len() == n
    &&& forall|i: int| #![trigger next[i]] 0 <= i < n ==> (next[i] == REMOVED <==> prev[i] == REMOVED)
    &&& forall|i: int|
        #![trigger next[i]]
        0 <= i < n && is_link(next[i]) ==> i < next[i] < n && prev[next[i] as int] == i
    &&& forall|i: int|
        #![trigger prev[i]]
        0 <= i < n && is_link(prev[i]) ==> prev[i] < i && next[prev[i] as int] == i
}

/// The pair key at node `i`: its token and the next live token, when the
/// two may merge.
pub open spec fn edge_at(tokens: Seq<u16>, next: Seq<u32>, meta: Seq<TokenMeta>, i: int) -> Option<
    u32,
> {
    let j = next[i];
    if is_link(j) && valid_fusion_spec(meta[tokens[i] as int], meta[tokens[j as int] as int]) {
        Some(pair_key_spec(tokens[i], tokens[j as int]))
    } else {
        None
    }
}

/// The pair key at every node.
pub open spec fn edges(tokens: Seq<u16>, next: Seq<u32>, meta: Seq<TokenMeta>) -> Seq<Option<u32>> {
    Seq::new(next.len(), |i: int| edge_at(tokens, next, meta, i))
}

/// How many nodes hold the pair `k`.
pub open spec fn edge_count(e: Seq<Option<u32>>, k: u32) -> nat {
    e.to_multiset().count(Some(k))
}

/// One round of merging `(a, b)` into `new_id`, from the list of tokens
/// `t0` and links `next0`/`prev0` to `t1`/`next1`: each node whose token
/// changed held `a`, now holds `new_id`, and took over the right link of its
/// right neighbour, which held `b` and is removed; every other node keeps
/// its token and its right link.
pub open spec fn merged_into(
    t0: Seq<u16>,
    next0: Seq<u32>,
    prev0: Seq<u32>,
    t1: Seq<u16>,
    next1: Seq<u32>,
    a: u16,
    b: u16,
    new_id: u16,
) -> bool {
    let n = t0.len() as int;
    &&& t1.len() == n
    &&& next1.len() == n
    &&& forall|i: int|
        #![trigger t1[i]]
        0 <= i < n && t1[i] != t0[i] ==> {
            &&& t0[i] == a
            &&& t1[i] == new_id
            &&& is_link(next0[i])
            &&& t0[next0[i] as int] == b
            &&& t1[next0[i] as int] == b
            &&& next1[i] == next0[next0[i] as int]
            &&& next1[next0[i] as int] == REMOVED
        }
    &&& forall|i: int|
        #![trigger next1[i]]
        0 <= i < n && t1[i] == t0[i] && next1[i] != next0[i] ==> {
            &&& next1[i] == REMOVED
            &&& is_link(prev0[i])
            &&& t1[prev0[i] as int] != t0[prev0[i] as int]
            &&& next0[prev0[i] as int] == i
        }
}

/// The list of `k` in `m`, or none.
pub open spec fn recorded_in(m: Map<u32, Seq<u32>>, k: u32) -> Seq<u32> {
    if m.contains_key(k) {
        m[k]
    } else {
        Seq::empty()
    }
}

/// The nodes among the first `i` whose pair key is `k`, in increasing order.
pub open spec fn positions_of(e: Seq<Option<u32>>, k: u32, i: int) -> Seq<u32>
    decreases i,
{
    if i <= 0 {
        Seq::empty()
    } else if e[i - 1] == Some(k) {
        positions_of(e, k, i - 1).push((i - 1) as u32)
    } else {
        positions_of(e, k, i - 1)
    }
}

/// The position lists of a fresh index over `n` nodes with pair keys `e`:
/// each pair present has the nodes that hold it, in increasing order.
pub open spec fn initial_lists(e: Seq<Option<u32>>, n: int) -> Map<u32, Seq<u32>> {
    Map::new(|k: u32| edge_count(e, k) > 0, |k: u32| positions_of(e, k, n))
}

/// Node `p` of the list `t`/`nx` is live, holds `a`, and its next live node
/// holds `b`.
pub open spec fn merges_at(t: Seq<u16>, nx: Seq<u32>, a: u16, b: u16, p: int) -> bool {
    &&& 0 <= p < t.len()
    &&& p < nx.len()
    &&& is_link(nx[p])
    &&& (nx[p] as int) < t.len()
    &&& t[p] == a
    &&& t[nx[p] as int] == b
}

/// Merging `(a, b)` into `new_id` at the recorded positions `l`, taken from
/// the last to the first: a position merges when it still holds `a` with
/// `b` on its next live node (positions already consumed by an earlier
/// merge of the pass are skipped); it then holds `new_id` and takes over the
/// right link of its neighbour, which is removed. Gives the tokens and right
/// links after the pass.
pub open spec fn scan_merge(
    l: Seq<u32>,
    t: Seq<u16>,
    nx: Seq<u32>,
    a: u16,
    b: u16,
    new_id: u16,
) -> (Seq<u16>, Seq<u32>)
    decreases l.len(),
{
    if l.len() == 0 {
        (t, nx)
    } else {
        let p = l.last() as int;
        if merges_at(t, nx, a, b, p) {
            let r = nx[p] as int;
            scan_merge(
                l.drop_last(),
                t.update(p, new_id),
                nx.update(p, nx[r]).update(r, REMOVED),
                a,
                b,
                new_id,
            )
        } else {
            scan_merge(l.drop_last(), t, nx, a, b, new_id)
        }
    }
}

/// `m` without the list of the pair `e`, if there is one and no node of
/// the pair keys `keys` holds it any more.
pub open spec fn drop_if_gone(m: Map<u32, Seq<u32>>, e: Option<u32>, keys: Seq<Option<u32>>) -> Map<
    u32,
    Seq<u32>,
> {
    match e {
        Some(k) => if edge_count(keys, k) == 0 {
            m.remove(k)
        } else {
            m
        },
        None => m,
    }
}

/// `m` with `node` added at the end of the list of the pair `e`, if there
/// is one.
pub open spec fn record_edge(m: Map<u32, Seq<u32>>, e: Option<u32>, node: int) -> Map<
    u32,
    Seq<u32>,
> {
    match e {
        Some(k) => m.insert(k, recorded_in(m, k).push(node as u32)),
        None => m,
    }
}

/// `m` with every position that no longer holds its pair dropped, and the
/// lists of pairs no longer seen removed.
#[verifier::opaque]
pub open spec fn compacted(
    m: Map<u32, Seq<u32>>,
    t: Seq<u16>,
    nx: Seq<u32>,
    meta: Seq<TokenMeta>,
) -> Map<u32, Seq<u32>> {
    Map::new(
        |k: u32|
            m.contains_key(k) && edge_count(edges(t, nx, meta), k) > 0 && live_part(k, m[k], t, nx).len()
                > 0,
        |k: u32| live_part(k, m[k], t, nx),
    )
}

/// Tokens, right links, left links and position lists during a pass.
pub type PassState = (Seq<u16>, Seq<u32>, Seq<u32>, Map<u32, Seq<u32>>);

/// The merge at node `p` of a pass to `new_id`: the pairs at the left
/// neighbour, at `p` and at its right neighbour leave (a pair whose last
/// node goes loses its list, checked after each); `p` takes `new_id` and the
/// right link of its right neighbour, which is removed; then the pair that
/// now ends at `p` is recorded at the left neighbour, and the pair that now
/// starts at `p` at `p`.
#[verifier::opaque]
pub open spec fn merge_one(s: PassState, meta: Seq<TokenMeta>, new_id: u16, p: int) -> PassState {
    let t = s.0;
    let nx = s.1;
    let pv = s.2;
    let r = nx[p] as int;
    let after = nx[r];
    let left = pv[p];
    let e0 = edges(t, nx, meta);
    let e1 = if is_link(left) {
        e0.update(left as int, None)
    } else {
        e0
    };
    let e2 = e1.update(p, None);
    let e3 = if is_link(after) {
        e2.update(r, None)
    } else {
        e2
    };
    let m1 = if is_link(left) {
        drop_if_gone(s.3, e0[left as int], e1)
    } else {
        s.3
    };
    let m2 = drop_if_gone(m1, e0[p], e2);
    let m3 = if is_link(after) {
        drop_if_gone(m2, e0[r], e3)
    } else {
        m2
    };
    let t1 = t.update(p, new_id);
    let nx1 = nx.update(p, after).update(r, REMOVED);
    let pv1 = (if is_link(after) {
        pv.update(after as int, p as u32)
    } else {
        pv
    }).update(r, REMOVED);
    let m4 = if is_link(left) {
        record_edge(m3, edge_at(t1, nx1, meta, left as int), left as int)
    } else {
        m3
    };
    let m5 = if is_link(after) {
        record_edge(m4, edge_at(t1, nx1, meta, p), p)
    } else {
        m4
    };
    (t1, nx1, pv1, m5)
}

/// The merge at node `p`, followed by a compaction of the lists when
/// `compact` holds.
pub open spec fn pass_step(
    s: PassState,
    meta: Seq<TokenMeta>,
    new_id: u16,
    p: int,
    compact: bool,
) -> PassState {
    let s1 = merge_one(s, meta, new_id, p);
    if compact {
        (s1.0, s1.1, s1.2, compacted(s1.3, s1.0, s1.1, meta))
    } else {
        s1
    }
}

/// A whole pass merging `(a, b)` into `new_id` over the recorded positions
/// `l`, from the last to the first, as `scan_merge`, with the lists kept up
/// to date; after the merges at the remaining lengths in `marks` the lists
/// are compacted.
pub open spec fn merge_pass(
    l: Seq<u32>,
    s: PassState,
    meta: Seq<TokenMeta>,
    a: u16,
    b: u16,
    new_id: u16,
    marks: Set<int>,
) -> PassState
    decreases l.len(),
{
    if l.len() == 0 {
        s
    } else {
        let p = l.last() as int;
        if merges_at(s.0, s.1, a, b, p) {
            merge_pass(
                l.drop_last(),
                pass_step(s, meta, new_id, p, marks.contains(l.len() - 1)),
                meta,
                a,
                b,
                new_id,
                marks,
            )
        } else {
            merge_pass(l.drop_last(), s, meta, a, b, new_id, marks)
        }
    }
}

/// The lists a pass starts from: `m`, compacted first when `pre` holds.
pub open spec fn pass_start(
    m: Map<u32, Seq<u32>>,
    pre: bool,
    t: Seq<u16>,
    nx: Seq<u32>,
    meta: Seq<TokenMeta>,
) -> Map<u32, Seq<u32>> {
    if pre {
        compacted(m, t, nx, meta)
    } else {
        m
    }
}

/// How many of the first `i` positions hold a different token in `t1` than
/// in `t0`.
pub open spec fn changed_count(t0: Seq<u16>, t1: Seq<u16>, i: int) -> nat
    decreases i,
{
    if i <= 0 {
        0
    } else {
        changed_count(t0, t1, i - 1) + if t0[i - 1] != t1[i - 1] {
            1nat
        } else {
            0nat
        }
    }
}

/// Changing one more position, which still held its first token, adds one.
proof fn lemma_changed_count_update(t0: Seq<u16>, t1: Seq<u16>, c: int, v: u16, i: int)
    requires
        0 <= c < t1.len(),
        t1[c] == t0[c],
        v != t0[c],
        i <= t1.len(),
    ensures
        changed_count(t0, t1.update(c, v), i) == changed_count(t0, t1, i) + if 0 <= c < i {
            1nat
        } else {
            0nat
        },
    decreases i,
{
    if i > 0 {
        lemma_changed_count_update(t0, t1, c, v, i - 1);
    }
}

/// Nothing changes between a token list and itself.
proof fn lemma_changed_count_same(t0: Seq<u16>, i: int)
    ensures
        changed_count(t0, t0, i) == 0,
    decreases i,
{
    if i > 0 {
        lemma_changed_count_same(t0, i - 1);
    }
}

/// At most `i` of the first `i` positions change.
proof fn lemma_changed_count_bound(t0: Seq<u16>, t1: Seq<u16>, i: int)
    ensures
        changed_count(t0, t1, i) <= if i > 0 {
            i
        } else {
            0
        },
    decreases i,
{
    if i > 0 {
        lemma_changed_count_bound(t0, t1, i - 1);
    }
}


/// The count a pair table holds for `k` (0 when absent).
pub open spec fn count_in(pairs: Map<u32, u32>, k: u32) -> nat {
    if pairs.contains_key(k) {
        count_of(pairs[k]) as nat
    } else {
        0
    }
}

/// The node after `i`, or `n` past the last one.
pub open spec fn succ(next: Seq<u32>, i: int) -> int {
    if next[i] == NONE {
        next.len() as int
    } else {
        next[i] as int
    }
}

/// Each live node covers the bytes from its offset to the next node's, as
/// many as its token has; all within the corpus.
pub open spec fn spans_ok(tokens: Seq<u16>, next: Seq<u32>, meta: Seq<TokenMeta>, offs: Seq<int>) -> bool {
    let n = next.len() as int;
    &&& offs.len() == n + 1
    &&& 0 <= offs[n] <= MAX_CORPUS_BYTES
    &&& forall|i: int|
        #![trigger next[i]]
        0 <= i < n && next[i] != REMOVED ==> 0 <= offs[i] && offs[succ(next, i)] <= offs[n]
            && meta[tokens[i] as int].byte_len == offs[succ(next, i)] - offs[i]
}

/// Every token has no more words than bytes, and ids fit in 16 bits
/// without reaching the key of an unused slot.
pub open spec fn meta_ok(meta: Seq<TokenMeta>) -> bool {
    &&& meta.len() <= 65535
    &&& forall|t: int| 0 <= t < meta.len() ==> (#[trigger] meta[t]).word_count <= meta[t].byte_len
}

/// The ids of `k` name tokens of the vocabulary.
pub open spec fn ids_in(k: u32, meta: Seq<TokenMeta>) -> bool {
    (pair_ids_spec(k).0 as int) < meta.len() && (pair_ids_spec(k).1 as int) < meta.len()
}

/// `k` is a pair that may merge and whose merged token fits the corpus.
pub open spec fn key_ok(k: u32, meta: Seq<TokenMeta>) -> bool {
    &&& ids_in(k, meta)
    &&& valid_fusion_spec(meta[pair_ids_spec(k).0 as int], meta[pair_ids_spec(k).1 as int])
    &&& merged_len(k, meta) <= MAX_CORPUS_BYTES
}

/// The heap entry of the pair `k` seen `c` times.
pub open spec fn entry_for(k: u32, c: u32, meta: Seq<TokenMeta>) -> Entry {
    (score_spec(c, merged_len(k, meta)) as u64, k, c)
}

/// `x` is the heap entry, for its current count, of a pair of `pairs` seen
/// at least twice.
pub open spec fn is_rebuilt_entry(pairs: Map<u32, u32>, meta: Seq<TokenMeta>, x: Entry) -> bool {
    &&& pairs.contains_key(x.1)
    &&& count_of(pairs[x.1]) >= 2
    &&& x == entry_for(x.1, count_of(pairs[x.1]), meta)
}

/// Every heap entry was scored with the count it carries.
pub open spec fn heap_entries_ok(heap: Multiset<Entry>, meta: Seq<TokenMeta>) -> bool {
    forall|e: Entry|
        #[trigger] heap.count(e) > 0 ==> ids_in(e.1, meta) && e == entry_for(e.1, e.2, meta)
}

/// Every pair seen at least twice has an entry for its current count, or
/// is waiting in `dirty` to get one, or is the pair `popped` that was just
/// taken off the heap to be merged.
pub open spec fn heap_covers(
    heap: Multiset<Entry>,
    pairs: Map<u32, u32>,
    dirty: Set<u32>,
    popped: Option<u32>,
    meta: Seq<TokenMeta>,
) -> bool {
    forall|k: u32|
        #[trigger] pairs.contains_key(k) && count_of(pairs[k]) >= 2 ==> dirty.contains(k) || popped
            == Some(k) || heap.count(entry_for(k, count_of(pairs[k]), meta)) > 0
}

/// Every node holding a pair (but the pair `except`) is in that pair's list.
pub open spec fn occ_ok(occ: Map<u32, Seq<u32>>, e: Seq<Option<u32>>, except: Option<u32>) -> bool {
    forall|i: int|
        #![trigger e[i]]
        0 <= i < e.len() && e[i] is Some && e[i] != except ==> occ.contains_key(e[i]->0) && occ[e[i]->0].contains(
            i as u32,
        )
}

/// Every recorded position is a node.
pub open spec fn occ_bounded(occ: Map<u32, Seq<u32>>, n: int) -> bool {
    forall|k: u32, j: int|
        #![trigger occ[k][j]]
        occ.contains_key(k) && 0 <= j < occ[k].len() ==> (occ[k][j] as int) < n
}

// ------------------------------------------------------------------
// Counting lemmas
// ------------------------------------------------------------------

proof fn lemma_count_update(e: Seq<Option<u32>>, p: int, o: Option<u32>)
    requires
        0 <= p < e.len(),
    ensures
        forall|k: u32|
            #[trigger] edge_count(e.update(p, o), k) == edge_count(e, k) - (if e[p] == Some(k) {
                1int
            } else {
                0int
            }) + (if o == Some(k) {
                1int
            } else {
                0int
            }),
{
    assert forall|k: u32|
        #[trigger] edge_count(e.update(p, o), k) == edge_count(e, k) - (if e[p] == Some(k) {
            1int
        } else {
            0int
        }) + (if o == Some(k) {
            1int
        } else {
            0int
        }) by {
        assert(e.update(p, o).to_multiset() == e.to_multiset().insert(o).remove(e[p]));
        if e[p] == Some(k) {
            assert(e.contains(e[p]));
            assert(e.to_multiset().count(Some(k)) > 0);
        }
    }
}

proof fn lemma_count_witness(e: Seq<Option<u32>>, k: u32) -> (i: int)
    requires
        edge_count(e, k) > 0,
    ensures
        0 <= i < e.len(),
        e[i] == Some(k),
{
    assert(e.contains(Some(k)));
    choose|i: int| 0 <= i < e.len() && e[i] == Some(k)
}

proof fn lemma_count_zero(e: Seq<Option<u32>>, k: u32)
    requires
        forall|i: int| 0 <= i < e.len() ==> e[i] != Some(k),
    ensures
        edge_count(e, k) == 0,
{
    if e.to_multiset().count(Some(k)) > 0 {
        assert(e.contains(Some(k)));
    }
}

proof fn lemma_count_bound(e: Seq<Option<u32>>, k: u32)
    requires
        e.len() > 0,
        e.last() != Some(k),
    ensures
        edge_count(e, k) <= e.len() - 1,
{
    let d = e.drop_last();
    assert(e == d.push(e.last()));
    assert(e.to_multiset() == d.to_multiset().insert(e.last()));
    assert(d.to_multiset().count(Some(k)) <= d.to_multiset().len());
}

/// A set of keys each held by some node is no larger than the number of
/// nodes.
proof fn lemma_keys_bound(e: Seq<Option<u32>>, s: Set<u32>)
    requires
        s.finite(),
        forall|k: u32| #[trigger] s.contains(k) ==> edge_count(e, k) > 0,
    ensures
        s.len() <= e.len(),
    decreases e.len(),
{
    if e.len() == 0 {
        if s.len() > 0 {
            let k = s.choose();
            assert(s.contains(k));
        }
    } else {
        let d = e.drop_last();
        assert(e == d.push(e.last()));
        assert(e.to_multiset() == d.to_multiset().insert(e.last()));
        let s2 = match e.last() {
            Some(k0) => s.remove(k0),
            None => s,
        };
        assert forall|k: u32| #[trigger] s2.contains(k) implies edge_count(d, k) > 0 by {
            assert(s.contains(k));
        }
        lemma_keys_bound(d, s2);
    }
}


// ------------------------------------------------------------------
// The index
// ------------------------------------------------------------------

/// The merge state over a token sequence held by the caller.
pub struct PairIndex {
    pairs: PairTable,
    prev: Vec<u32>,
    next: Vec<u32>,
    occ: OccurrenceStore,
    heap: EntryHeap,
    dirty: HashSet<u32>,
    dirty_list: Vec<u32>,
    ekey: Ghost<Seq<Option<u32>>>,
    offs: Ghost<Seq<int>>,
    popped: Ghost<Option<u32>>,
}

impl PairIndex {
    /// How many live nodes hold the pair `k`.
    pub closed spec fn count(&self, k: u32) -> nat {
        count_in(self.pairs@, k)
    }

    /// Right links of the nodes.
    pub closed spec fn next_view(&self) -> Seq<u32> {
        self.next@
    }

    /// Left links of the nodes.
    pub closed spec fn prev_view(&self) -> Seq<u32> {
        self.prev@
    }

    /// The running count of recorded pair positions.
    pub closed spec fn occ_total(&self) -> u64 {
        self.occ.total()
    }

    /// The position list of every pair that has one, oldest first.
    pub closed spec fn lists(&self) -> Map<u32, Seq<u32>> {
        self.occ@
    }

    /// The positions recorded for the pair `k`, oldest first.
    pub open spec fn recorded(&self, k: u32) -> Seq<u32> {
        recorded_in(self.lists(), k)
    }

    /// Every part but the pair keys agrees with the tokens and metadata;
    /// the pair keys counted are those of `ekey`.
    spec fn parts_ok(&self, tokens: Seq<u16>, meta: Seq<TokenMeta>, except: Option<u32>) -> bool {
        let n = tokens.len() as int;
        let e = self.ekey@;
        &&& self.next@.len() == n
        &&& n <= MAX_CORPUS_BYTES
        &&& links_ok(self.prev@, self.next@)
        &&& n > 0 ==> self.next@[0] != REMOVED
        &&& meta_ok(meta)
        &&& forall|i: int| 0 <= i < n ==> (#[trigger] tokens[i] as int) < meta.len()
        &&& e.len() == n
        &&& forall|i: int|
            #![trigger e[i]]
            0 <= i < n && e[i] is Some ==> key_ok(e[i]->0, meta) && is_link(self.next@[i])
        &&& self.pairs.wf()
        &&& forall|k: u32| #[trigger] self.pairs@.contains_key(k) <==> edge_count(e, k) > 0
        &&& forall|k: u32|
            #[trigger] self.pairs@.contains_key(k) ==> count_of(self.pairs@[k]) == edge_count(e, k)
        &&& spans_ok(tokens, self.next@, meta, self.offs@)
        &&& occ_ok(self.occ@, e, except)
        &&& occ_bounded(self.occ@, n)
        &&& self.occ.wf()
        &&& self.heap.wf()
        &&& heap_entries_ok(self.heap@, meta)
        &&& heap_covers(self.heap@, self.pairs@, self.dirty@, self.popped@, meta)
        &&& self.dirty_list@.to_set() == self.dirty@
        &&& self.dirty_list@.no_duplicates()
    }

    /// The index describes `tokens`: the counted pair keys are the pairs of
    /// the list, every occurrence is recorded, and every pair seen at least
    /// twice has a heap entry for its count.
    pub closed spec fn wf(&self, tokens: Seq<u16>, meta: Seq<TokenMeta>) -> bool {
        &&& self.parts_ok(tokens, meta, None)
        &&& self.ekey@ == edges(tokens, self.next@, meta)
        &&& self.dirty@.is_empty()
        &&& self.popped@ is None
    }

    /// All but the pair table and the heap are those of `other`.
    spec fn same_lists(&self, other: PairIndex) -> bool {
        &&& self.prev == other.prev
        &&& self.next == other.next
        &&& self.occ == other.occ
        &&& self.dirty == other.dirty
        &&& self.dirty_list == other.dirty_list
        &&& self.ekey == other.ekey
        &&& self.offs == other.offs
        &&& self.popped == other.popped
    }

    /// As `wf`, but `key` was just chosen for merging: it is present, seen
    /// at least twice, and its heap entry was taken.
    pub closed spec fn selected(&self, tokens: Seq<u16>, meta: Seq<TokenMeta>, key: u32) -> bool {
        &&& self.parts_ok(tokens, meta, None)
        &&& self.ekey@ == edges(tokens, self.next@, meta)
        &&& self.dirty@.is_empty()
        &&& self.popped@ == Some(key)
        &&& self.pairs@.contains_key(key)
        &&& count_of(self.pairs@[key]) >= 2
    }

    /// What `parts_ok` gives about one pair present in the table.
    proof fn lemma_present(&self, tokens: Seq<u16>, meta: Seq<TokenMeta>, except: Option<u32>, k: u32)
        requires
            self.parts_ok(tokens, meta, except),
            self.pairs@.contains_key(k),
        ensures
            key_ok(k, meta),
            1 <= count_of(self.pairs@[k]) <= tokens.len() - 1,
            k != EMPTY_PAIR,
    {
        let e = self.ekey@;
        let i = lemma_count_witness(e, k);
        assert(e[i] is Some);
        let n = tokens.len() as int;
        assert(!is_link(self.next@[n - 1])) by {
            if is_link(self.next@[n - 1]) {
                assert(self.next@[n - 1] < n);
            }
        }
        assert(e[n - 1] != Some(k)) by {
            if e[n - 1] is Some {
                assert(is_link(self.next@[n - 1]));
            }
        }
        assert(e.last() == e[n - 1]);
        lemma_count_bound(e, k);
        self.pairs.lemma_slots_cover();
    }

    /// Marks `key` for a fresh heap entry at the next flush.
    fn mark_dirty(&mut self, key: u32)
        ensures
            final(self).dirty@ == old(self).dirty@.insert(key),
            old(self).dirty_list@.to_set() == old(self).dirty@ && old(self).dirty_list@.no_duplicates()
                ==> final(self).dirty_list@.to_set() == final(self).dirty@
                && final(self).dirty_list@.no_duplicates(),
            final(self).pairs == old(self).pairs,
            final(self).prev == old(self).prev,
            final(self).next == old(self).next,
            final(self).occ == old(self).occ,
            final(self).heap == old(self).heap,
            final(self).ekey == old(self).ekey,
            final(self).offs == old(self).offs,
            final(self).popped == old(self).popped,
    {
        if self.dirty.insert(key) {
            let ghost l = self.dirty_list@;
            self.dirty_list.push(key);
            proof {
                assert(self.dirty_list@ == l.push(key));
                if l.to_set() == old(self).dirty@ && l.no_duplicates() {
                    assert(!l.contains(key));
                    let l2 = self.dirty_list@;
                    assert forall|x: u32| #[trigger] l2.to_set().contains(x) <==> l.to_set().insert(
                        key,
                    ).contains(x) by {
                        if l.contains(x) {
                            let i = choose|i: int| 0 <= i < l.len() && l[i] == x;
                            assert(l2[i] == x);
                        }
                        if x == key {
                            assert(l2[l.len() as int] == x);
                        }
                        if l2.contains(x) {
                            let i = choose|i: int| 0 <= i < l2.len() && l2[i] == x;
                            if i < l.len() {
                                assert(l[i] == x);
                            }
                        }
                    }
                    assert(l2.to_set() =~= l.to_set().insert(key));
                    assert forall|i: int, j: int|
                        0 <= i < l2.len() && 0 <= j < l2.len() && i != j implies l2[i] != l2[j] by {
                        if i < l.len() && j < l.len() {
                            assert(l[i] != l[j]);
                        } else if i < l.len() {
                            assert(l.contains(l[i]));
                        } else if j < l.len() {
                            assert(l.contains(l[j]));
                        }
                    }
                }
            }
        }
    }

    /// Takes one occurrence of `(a, b)` at node `p` out of the counts: the
    /// pair's count drops by one, and the pair leaves the table (with its
    /// position list) when none is left.
    fn remove_edge(
        &mut self,
        a: u16,
        b: u16,
        meta: &[TokenMeta],
        Ghost(tokens): Ghost<Seq<u16>>,
        Ghost(except): Ghost<Option<u32>>,
        Ghost(p): Ghost<int>,
    )
        requires
            old(self).parts_ok(tokens, meta@, except),
            0 <= p < tokens.len(),
            (a as int) < meta@.len(),
            (b as int) < meta@.len(),
            meta@[a as int].byte_len + meta@[b as int].byte_len <= MAX_CORPUS_BYTES,
            old(self).ekey@[p] == (if valid_fusion_spec(meta@[a as int], meta@[b as int]) {
                Some(pair_key_spec(a, b))
            } else {
                None::<u32>
            }),
        ensures
            final(self).parts_ok(tokens, meta@, except),
            final(self).ekey@ == old(self).ekey@.update(p, None),
            final(self).next@ == old(self).next@,
            final(self).prev@ == old(self).prev@,
            final(self).offs@ == old(self).offs@,
            final(self).popped == old(self).popped,
            forall|k: u32|
                #[trigger] final(self).dirty@.contains(k) ==> old(self).dirty@.contains(k)
                    || final(self).pairs@.contains_key(k),
            final(self).occ_total() <= old(self).occ_total(),
            final(self).occ@ == drop_if_gone(old(self).occ@, old(self).ekey@[p], final(self).ekey@),
    {
        if !TokenMeta::valid_fusion(meta[a as usize], meta[b as usize]) {
            proof {
                assert(self.ekey@.update(p, None) =~= self.ekey@);
            }
            return;
        }
        let key = pair_key(a, b);
        let ghost e = self.ekey@;
        proof {
            lemma_count_update(e, p, None);
            assert(edge_count(e, key) > 0) by {
                assert(e.contains(Some(key)));
            }
            self.lemma_present(tokens, meta@, except, key);
        }
        let slot = match self.pairs.get(key) {
            Some(slot) => slot,
            None => {
                proof {
                    assert(false);
                }
                return;
            },
        };
        let old_count = slot.count();
        let new_count = old_count - 1;
        self.pairs.set_count_of(key, new_count);
        if new_count > 0 {
            self.pairs.set_queued_of(key, false);
        }
        proof {
            self.ekey@ = e.update(p, None);
        }
        if new_count == 0 {
            self.occ.remove(key);
            self.pairs.remove(key);
        } else {
            self.mark_dirty(key);
        }
        proof {
            let e2 = self.ekey@;
            assert forall|k: u32| #[trigger] self.pairs@.contains_key(k) <==> edge_count(e2, k) > 0 by {
                if k != key {
                    assert(old(self).pairs@.contains_key(k) == self.pairs@.contains_key(k));
                }
            }
            assert(new_count as int == edge_count(e2, key));
            assert forall|k: u32| #[trigger] self.pairs@.contains_key(k) implies count_of(
                self.pairs@[k],
            ) == edge_count(e2, k) by {
                if k != key {
                    assert(old(self).pairs@.contains_key(k));
                }
            }
            assert forall|i: int|
                #![trigger e2[i]]
                0 <= i < e2.len() && e2[i] is Some && e2[i] != except implies self.occ@.contains_key(
                e2[i]->0,
            ) && self.occ@[e2[i]->0].contains(i as u32) by {
                assert(e[i] == e2[i]);
                if e2[i]->0 == key {
                    assert(e2.to_multiset().count(Some(key)) > 0) by {
                        assert(e2.contains(Some(key)));
                    }
                }
            }
            assert forall|k: u32|
                #[trigger] self.pairs@.contains_key(k) && count_of(self.pairs@[k]) >= 2 implies self.dirty@.contains(
                k,
            ) || self.popped@ == Some(k) || self.heap@.count(
                entry_for(k, count_of(self.pairs@[k]), meta@),
            ) > 0 by {
                if k != key {
                    assert(old(self).pairs@.contains_key(k));
                    assert(old(self).pairs@[k] == self.pairs@[k]);
                }
            }
            assert forall|i: int|
                #![trigger e2[i]]
                0 <= i < tokens.len() && e2[i] is Some implies key_ok(e2[i]->0, meta@) && is_link(
                self.next@[i],
            ) by {
                assert(e[i] == e2[i]);
            }
        }
    }

    /// Queues a heap entry for `key` when it is seen at least twice and has
    /// no queued entry.
    fn maybe_queue_pair(
        &mut self,
        key: u32,
        meta: &[TokenMeta],
        Ghost(tokens): Ghost<Seq<u16>>,
        Ghost(except): Ghost<Option<u32>>,
    )
        requires
            old(self).parts_ok(tokens, meta@, except),
        ensures
            final(self).parts_ok(tokens, meta@, except),
            final(self).ekey == old(self).ekey,
            final(self).next@ == old(self).next@,
            final(self).prev@ == old(self).prev@,
            final(self).offs == old(self).offs,
            final(self).popped == old(self).popped,
            final(self).dirty@ == old(self).dirty@,
            final(self).occ@ == old(self).occ@,
            final(self).pairs@.dom() == old(self).pairs@.dom(),
            forall|k: u32| #[trigger]
                final(self).pairs@.contains_key(k) ==> count_of(final(self).pairs@[k]) == count_of(
                    old(self).pairs@[k],
                ),
            final(self).pairs@.contains_key(key) && count_of(final(self).pairs@[key]) >= 2
                && !queued_of(old(self).pairs@[key]) ==> final(self).heap@.count(
                entry_for(key, count_of(final(self).pairs@[key]), meta@),
            ) > 0,
            final(self).heap@ == old(self).heap@ || (final(self).pairs@.contains_key(key) && count_of(
                final(self).pairs@[key],
            ) >= 2 && final(self).heap@ == old(self).heap@.insert(
                entry_for(key, count_of(final(self).pairs@[key]), meta@),
            )),
            final(self).occ_total() == old(self).occ_total(),
    {
        if key == EMPTY_PAIR {
            proof {
                self.pairs.lemma_slots_cover();
            }
            return;
        }
        let slot = match self.pairs.get(key) {
            Some(slot) => slot,
            None => {
                return;
            },
        };
        let count = slot.count();
        if count < 2 || slot.queued() {
            return;
        }
        proof {
            self.lemma_present(tokens, meta@, except, key);
            lemma_pair_ids_roundtrip(key);
        }
        self.pairs.set_queued_of(key, true);
        let score = pair_score(key, count, meta);
        self.heap.push((score, key, count));
        proof {
            let e = self.ekey@;
            assert forall|k: u32| #[trigger] self.pairs@.contains_key(k) <==> edge_count(e, k) > 0 by {
                assert(old(self).pairs@.contains_key(k) == self.pairs@.contains_key(k));
            }
            assert forall|k: u32| #[trigger] self.pairs@.contains_key(k) implies count_of(
                self.pairs@[k],
            ) == edge_count(e, k) by {
                assert(old(self).pairs@.contains_key(k));
            }
            assert forall|x: Entry| #[trigger] self.heap@.count(x) > 0 implies ids_in(x.1, meta@)
                && x == entry_for(x.1, x.2, meta@) by {
                if x != (score, key, count) {
                    assert(old(self).heap@.count(x) > 0);
                }
            }
            assert forall|k: u32|
                #[trigger] self.pairs@.contains_key(k) && count_of(self.pairs@[k]) >= 2 implies self.dirty@.contains(
                k,
            ) || self.popped@ == Some(k) || self.heap@.count(
                entry_for(k, count_of(self.pairs@[k]), meta@),
            ) > 0 by {
                assert(old(self).pairs@.contains_key(k));
                if k != key {
                    assert(old(self).pairs@[k] == self.pairs@[k]);
                }
            }
            assert(self.pairs@.dom() =~= old(self).pairs@.dom());
        }
    }

    /// Counts one more occurrence of `(a, b)`, at node `node`: the pair is
    /// added to the table if needed, the node recorded in its list, and the
    /// pair marked for a fresh heap entry.
    fn add_edge(
        &mut self,
        node: u32,
        a: u16,
        b: u16,
        meta: &[TokenMeta],
        Ghost(tokens): Ghost<Seq<u16>>,
        Ghost(except): Ghost<Option<u32>>,
    ) -> (r: Result<(), VocabError>)
        requires
            old(self).parts_ok(tokens, meta@, except),
            (node as int) < tokens.len(),
            old(self).ekey@[node as int] == None::<u32>,
            is_link(old(self).next@[node as int]),
            tokens[node as int] == a,
            tokens[old(self).next@[node as int] as int] == b,
            Some(pair_key_spec(a, b)) != except,
        ensures
            r is Ok ==> {
                &&& final(self).parts_ok(tokens, meta@, except)
                &&& final(self).ekey@ == old(self).ekey@.update(
                    node as int,
                    edge_at(tokens, old(self).next@, meta@, node as int),
                )
                &&& final(self).next@ == old(self).next@
                &&& final(self).prev@ == old(self).prev@
                &&& final(self).offs@ == old(self).offs@
                &&& final(self).popped == old(self).popped
                &&& forall|k: u32| #[trigger]
                    final(self).dirty@.contains(k) ==> old(self).dirty@.contains(k)
                        || final(self).pairs@.contains_key(k)
                &&& final(self).occ@ == record_edge(
                    old(self).occ@,
                    edge_at(tokens, old(self).next@, meta@, node as int),
                    node as int,
                )
            },
            r matches Err(err) ==> (err is TooManyPairs && old(self).pairs@.dom().len() > MAX_PAIRS
                && tokens.len() > MAX_PAIRS) || (err is OccurrenceOverflow && final(self).occ_total()
                == u64::MAX),
            final(self).occ_total() <= old(self).occ_total() + 1,
    {
        let ghost n = tokens.len() as int;
        let ghost j = self.next@[node as int] as int;
        proof {
            assert(self.prev@[j] == node);
            assert(self.next@[j] != REMOVED);
            assert(self.next@[node as int] != REMOVED);
        }
        if !TokenMeta::valid_fusion(meta[a as usize], meta[b as usize]) {
            proof {
                assert(self.ekey@.update(node as int, None) =~= self.ekey@);
            }
            return Ok(());
        }
        let key = pair_key(a, b);
        if self.pairs.len() > MAX_PAIRS {
            proof {
                self.pairs.lemma_slots_cover();
                lemma_keys_bound(self.ekey@, self.pairs@.dom());
            }
            return Err(VocabError::TooManyPairs);
        }
        let ghost e = self.ekey@;
        let ghost e2 = e.update(node as int, Some(key));
        proof {
            lemma_pair_key_roundtrip(a, b);
            self.pairs.lemma_slots_cover();
            lemma_count_update(e, node as int, Some(key));
            assert(e2.last() == e2[n - 1]);
            assert(!is_link(self.next@[n - 1])) by {
                if is_link(self.next@[n - 1]) {
                    assert(self.next@[n - 1] < n);
                }
            }
            assert(e2[n - 1] != Some(key)) by {
                if e[n - 1] is Some {
                    assert(is_link(self.next@[n - 1]));
                }
            }
            lemma_count_bound(e2, key);
            if !self.pairs@.contains_key(key) {
                assert(edge_count(e, key) == 0);
            }
        }
        let slot = self.pairs.get_or_insert(key);
        let count = slot.count() + 1;
        self.pairs.set_count_of(key, count);
        proof {
            self.ekey@ = e2;
        }
        match self.occ.append(key, node) {
            Ok(()) => {},
            Err(_) => {
                return Err(VocabError::OccurrenceOverflow);
            },
        }
        self.mark_dirty(key);
        proof {
            assert(key_ok(key, meta@));
            assert forall|k: u32| #[trigger] self.pairs@.contains_key(k) <==> edge_count(e2, k) > 0 by {
                if k != key {
                    assert(old(self).pairs@.contains_key(k) == self.pairs@.contains_key(k));
                }
            }
            assert forall|k: u32| #[trigger] self.pairs@.contains_key(k) implies count_of(
                self.pairs@[k],
            ) == edge_count(e2, k) by {
                if k != key {
                    assert(old(self).pairs@.contains_key(k));
                }
            }
            assert forall|i: int|
                #![trigger e2[i]]
                0 <= i < e2.len() && e2[i] is Some && e2[i] != except implies self.occ@.contains_key(
                e2[i]->0,
            ) && self.occ@[e2[i]->0].contains(i as u32) by {
                if i == node as int {
                    let l = self.occ@[key];
                    assert(l[l.len() - 1] == node);
                } else {
                    assert(e[i] == e2[i]);
                    let k = e2[i]->0;
                    assert(old(self).occ@.contains_key(k) && old(self).occ@[k].contains(i as u32));
                    if k == key {
                        let l0 = old(self).occ@[k];
                        let t = choose|t: int| 0 <= t < l0.len() && l0[t] == i as u32;
                        assert(self.occ@[k][t] == i as u32);
                    }
                }
            }
            assert forall|k: u32, t: int|
                #![trigger self.occ@[k][t]]
                self.occ@.contains_key(k) && 0 <= t < self.occ@[k].len() implies (self.occ@[k][t] as int)
                < n by {
                if k == key && old(self).occ@.contains_key(k) && t < old(self).occ@[k].len() {
                    assert(self.occ@[k][t] == old(self).occ@[k][t]);
                } else if k != key {
                    assert(self.occ@[k][t] == old(self).occ@[k][t]);
                }
            }
            assert forall|k: u32|
                #[trigger] self.pairs@.contains_key(k) && count_of(self.pairs@[k]) >= 2 implies self.dirty@.contains(
                k,
            ) || self.popped@ == Some(k) || self.heap@.count(
                entry_for(k, count_of(self.pairs@[k]), meta@),
            ) > 0 by {
                if k != key {
                    assert(old(self).pairs@.contains_key(k));
                    assert(old(self).pairs@[k] == self.pairs@[k]);
                }
            }
            assert forall|i: int|
                #![trigger e2[i]]
                0 <= i < tokens.len() && e2[i] is Some implies key_ok(e2[i]->0, meta@) && is_link(
                self.next@[i],
            ) by {
                if i != node as int {
                    assert(e[i] == e2[i]);
                }
            }
        }
        self.maybe_queue_pair(key, meta, Ghost(tokens), Ghost(except));
        Ok(())
    }

    /// Merges the occurrence of `(a, b)` at node `cur` into one node holding
    /// `new_id`: the three pairs around it leave the counts, the right node
    /// leaves the list, and the two new pairs come in.
    #[verifier::rlimit(60)]
    fn merge_at(
        &mut self,
        cur: u32,
        a: u16,
        b: u16,
        new_id: u16,
        tokens: &mut Vec<u16>,
        meta: &[TokenMeta],
        Ghost(key): Ghost<u32>,
    ) -> (r: Result<(), VocabError>)
        requires
            old(self).parts_ok(old(tokens)@, meta@, Some(key)),
            old(self).ekey@ == edges(old(tokens)@, old(self).next@, meta@),
            key == pair_key_spec(a, b),
            valid_fusion_spec(meta@[a as int], meta@[b as int]),
            (cur as int) < old(tokens)@.len(),
            is_link(old(self).next@[cur as int]),
            old(tokens)@[cur as int] == a,
            old(tokens)@[old(self).next@[cur as int] as int] == b,
            new_id as int == meta@.len() - 1,
            a < new_id,
            b < new_id,
            meta@[new_id as int] == fuse_spec(meta@[a as int], meta@[b as int]),
        ensures
            r is Ok ==> {
                &&& final(self).parts_ok(final(tokens)@, meta@, Some(key))
                &&& final(self).ekey@ == edges(final(tokens)@, final(self).next@, meta@)
                &&& final(tokens)@ == old(tokens)@.update(cur as int, new_id)
                &&& final(self).next@ == old(self).next@.update(
                    cur as int,
                    old(self).next@[old(self).next@[cur as int] as int],
                ).update(old(self).next@[cur as int] as int, REMOVED)
                &&& final(self).popped == old(self).popped
                &&& forall|i: int|
                    #![trigger final(self).ekey@[i]]
                    0 <= i < final(self).ekey@.len() && final(self).ekey@[i] == Some(key) ==> old(
                        self,
                    ).ekey@[i] == Some(key) && i != cur
                &&& (final(tokens)@, final(self).next@, final(self).prev@, final(self).occ@)
                    == merge_one(
                    (old(tokens)@, old(self).next@, old(self).prev@, old(self).occ@),
                    meta@,
                    new_id,
                    cur as int,
                )
            },
            r matches Err(err) ==> (err is TooManyPairs && old(tokens)@.len() > MAX_PAIRS) || (
            err is OccurrenceOverflow && final(self).occ_total() == u64::MAX),
            final(self).occ_total() <= old(self).occ_total() + 2,
    {
        let ghost n = old(tokens)@.len() as int;
        let ghost t0 = tokens@;
        let ghost next0 = self.next@;
        let ghost prev0 = self.prev@;
        let ghost e0 = self.ekey@;
        let ghost offs = self.offs@;
        let c = cur as usize;
        let right_u32 = self.next[c];
        let right = right_u32 as usize;
        let left_u32 = self.prev[c];
        let after_u32 = self.next[right];
        proof {
            assert(prev0[right as int] == cur);
            assert(next0[c as int] != REMOVED);
            assert(prev0[c as int] != REMOVED);
            assert(next0[right as int] != REMOVED);
            assert(self.ekey@[c as int] == edge_at(t0, next0, meta@, c as int));
            assert(t0[c as int] == a);
            if is_link(left_u32) {
                assert(next0[left_u32 as int] == cur);
                assert(next0[left_u32 as int] != REMOVED);
                assert(succ(next0, left_u32 as int) == c);
                assert(self.ekey@[left_u32 as int] == edge_at(t0, next0, meta@, left_u32 as int));
            }
            if is_link(after_u32) {
                assert(prev0[after_u32 as int] == right);
                assert(next0[after_u32 as int] != REMOVED);
                assert(succ(next0, right as int) == after_u32);
            }
            assert(self.ekey@[right as int] == edge_at(t0, next0, meta@, right as int));
        }
        let ghost m0 = self.occ@;
        if left_u32 != NONE {
            let left = left_u32 as usize;
            let left_token = tokens[left];
            self.remove_edge(left_token, a, meta, Ghost(tokens@), Ghost(Some(key)), Ghost(left as int));
        }
        let ghost m1 = self.occ@;
        let ghost ea = self.ekey@;
        self.remove_edge(a, b, meta, Ghost(tokens@), Ghost(Some(key)), Ghost(c as int));
        let ghost m2 = self.occ@;
        let ghost eb = self.ekey@;
        if after_u32 != NONE {
            let after = after_u32 as usize;
            let after_token = tokens[after];
            self.remove_edge(b, after_token, meta, Ghost(tokens@), Ghost(Some(key)), Ghost(right as int));
        }
        let ghost m3 = self.occ@;
        let ghost e1 = self.ekey@;
        let ghost before = *self;
        proof {
            assert(e1[c as int] == None::<u32>);
            assert(e1[right as int] == None::<u32>);
            if is_link(left_u32) {
                assert(e1[left_u32 as int] == None::<u32>);
            }
        }
        tokens.set(c, new_id);
        self.next.set(c, after_u32);
        if after_u32 != NONE {
            self.prev.set(after_u32 as usize, cur);
        }
        self.next.set(right, REMOVED);
        self.prev.set(right, REMOVED);
        proof {
            self.lemma_surgery(before, t0, meta@, key, c as int, right as int, left_u32, after_u32, new_id);
        }
        let ghost t1 = tokens@;
        let ghost nx1 = self.next@;
        if left_u32 != NONE {
            let left = left_u32 as usize;
            let left_token = tokens[left];
            proof {
                lemma_pair_key_roundtrip(left_token, new_id);
                lemma_pair_key_roundtrip(a, b);
            }
            match self.add_edge(left_u32, left_token, new_id, meta, Ghost(tokens@), Ghost(Some(key))) {
                Ok(()) => {},
                Err(e) => {
                    return Err(e);
                },
            }
        }
        let ghost e2 = self.ekey@;
        let ghost m4 = self.occ@;
        if after_u32 != NONE {
            let after = after_u32 as usize;
            let after_token = tokens[after];
            proof {
                lemma_pair_key_roundtrip(new_id, after_token);
                lemma_pair_key_roundtrip(a, b);
                if is_link(left_u32) {
                    assert(left_u32 != c);
                }
            }
            match self.add_edge(cur, new_id, after_token, meta, Ghost(tokens@), Ghost(Some(key))) {
                Ok(()) => {},
                Err(e) => {
                    return Err(e);
                },
            }
        }
        proof {
            let t1 = tokens@;
            let e3 = self.ekey@;
            let next1 = self.next@;
            assert(e3[right as int] == None::<u32>);
            if !is_link(after_u32) {
                assert(e3[c as int] == None::<u32>);
            }
            lemma_merge_edges(t0, t1, next0, next1, prev0, e0, e3, meta@, key, c as int, right as int, left_u32, after_u32, new_id);
            let s0: PassState = (t0, next0, prev0, m0);
            reveal(merge_one);
            assert(e0 == edges(t0, next0, meta@));
            if is_link(left_u32) {
                assert(ea == e0.update(left_u32 as int, None));
                assert(m1 == drop_if_gone(m0, e0[left_u32 as int], ea));
            } else {
                assert(ea == e0);
                assert(m1 == m0);
            }
            assert(eb == ea.update(c as int, None));
            assert(m2 == drop_if_gone(m1, e0[c as int], eb));
            if is_link(after_u32) {
                assert(e1 == eb.update(right as int, None));
                assert(m3 == drop_if_gone(m2, e0[right as int], e1));
            } else {
                assert(m3 == m2);
            }
            if is_link(left_u32) {
                assert(m4 == record_edge(m3, edge_at(t1, nx1, meta@, left_u32 as int), left_u32 as int));
            } else {
                assert(m4 == m3);
            }
            if is_link(after_u32) {
                assert(self.occ@ == record_edge(m4, edge_at(t1, nx1, meta@, c as int), c as int));
            } else {
                assert(self.occ@ == m4);
            }
            assert(self.prev@ == (if is_link(after_u32) {
                prev0.update(after_u32 as int, cur)
            } else {
                prev0
            }).update(right as int, REMOVED));
        }
        Ok(())
    }

    /// The list surgery of a merge keeps every part consistent: node `c`
    /// takes `new_id` and the right link of `r`, and `r` is removed.
    proof fn lemma_surgery(
        &self,
        before: PairIndex,
        t0: Seq<u16>,
        meta: Seq<TokenMeta>,
        key: u32,
        c: int,
        r: int,
        left: u32,
        after: u32,
        new_id: u16,
    )
        requires
            before.parts_ok(t0, meta, Some(key)),
            0 <= c < t0.len(),
            before.next@[c] == r,
            is_link(before.next@[c]),
            before.prev@[c] == left,
            before.next@[r] == after,
            before.ekey@[c] == None::<u32>,
            before.ekey@[r] == None::<u32>,
            is_link(left) ==> before.ekey@[left as int] == None::<u32>,
            (new_id as int) < meta.len(),
            meta[new_id as int] == fuse_spec(meta[t0[c] as int], meta[t0[r] as int]),
            self.pairs == before.pairs,
            self.occ == before.occ,
            self.heap == before.heap,
            self.dirty == before.dirty,
            self.dirty_list == before.dirty_list,
            self.ekey == before.ekey,
            self.offs == before.offs,
            self.popped == before.popped,
            self.next@ == before.next@.update(c, after).update(r, REMOVED),
            self.prev@ == (if is_link(after) {
                before.prev@.update(after as int, c as u32)
            } else {
                before.prev@
            }).update(r, REMOVED),
        ensures
            self.parts_ok(t0.update(c, new_id), meta, Some(key)),
    {
        let n = t0.len() as int;
        let t1 = t0.update(c, new_id);
        let next0 = before.next@;
        let prev0 = before.prev@;
        let next1 = self.next@;
        let prev1 = self.prev@;
        let offs = self.offs@;
        let e = self.ekey@;
        assert(prev0[r] == c);
        assert(c < r);
        assert(next0[r] != REMOVED);
        assert(prev0[c] != REMOVED);
        if is_link(after) {
            assert(prev0[after as int] == r);
            assert(r < after);
        }
        if is_link(left) {
            assert(next0[left as int] == c);
            assert(left < c);
        }
        assert forall|i: int|
            #![trigger next1[i]]
            0 <= i < n implies (next1[i] == REMOVED <==> prev1[i] == REMOVED) by {
            if i != c && i != r && !(is_link(after) && i == after as int) {
                assert(next1[i] == next0[i] && prev1[i] == prev0[i]);
            }
        }
        assert forall|i: int|
            #![trigger next1[i]]
            0 <= i < n && is_link(next1[i]) implies i < next1[i] < n && prev1[next1[i] as int] == i by {
            if i != c && i != r {
                let j = next0[i];
                assert(next1[i] == j);
                assert(prev0[j as int] == i);
                if j as int == r {
                    assert(false);
                }
                if is_link(after) && j == after {
                    assert(false);
                }
            }
        }
        assert forall|i: int|
            #![trigger prev1[i]]
            0 <= i < n && is_link(prev1[i]) implies prev1[i] < i && next1[prev1[i] as int] == i by {
            if i != r && !(is_link(after) && i == after as int) {
                let j = prev0[i];
                assert(prev1[i] == j);
                assert(next0[j as int] == i);
                if j as int == c {
                    assert(false);
                }
                if j as int == r {
                    assert(false);
                }
            }
        }
        assert(links_ok(prev1, next1));
        assert forall|i: int| 0 <= i < n implies (#[trigger] t1[i] as int) < meta.len() by {
            if i != c {
                assert(t1[i] == t0[i]);
            }
        }
        assert forall|i: int|
            #![trigger e[i]]
            0 <= i < n && e[i] is Some implies key_ok(e[i]->0, meta) && is_link(next1[i]) by {
            assert(is_link(next0[i]));
            if is_link(left) {
                assert(i != left as int);
            }
        }
        assert forall|i: int|
            #![trigger next1[i]]
            0 <= i < n && next1[i] != REMOVED implies 0 <= offs[i] && offs[succ(next1, i)] <= offs[n]
                && meta[t1[i] as int].byte_len == offs[succ(next1, i)] - offs[i] by {
            if i == c {
                assert(next0[c] != REMOVED);
                assert(succ(next0, c) == r);
                assert(succ(next1, c) == succ(next0, r));
                let ma = meta[t0[c] as int];
                let mb = meta[t0[r] as int];
                assert(ma.byte_len + mb.byte_len <= MAX_CORPUS_BYTES);
            } else if i != r {
                assert(next1[i] == next0[i]);
                assert(t1[i] == t0[i]);
                assert(succ(next1, i) == succ(next0, i));
            }
        }
        assert(spans_ok(t1, next1, meta, offs));
    }

    /// Takes the position list of the chosen pair out of the store; the
    /// pair loses its queued mark.
    fn take_occurrences(
        &mut self,
        key: u32,
        Ghost(tokens): Ghost<Seq<u16>>,
        Ghost(meta): Ghost<Seq<TokenMeta>>,
    ) -> (r: Vec<u32>)
        requires
            old(self).selected(tokens, meta, key),
        ensures
            final(self).parts_ok(tokens, meta, Some(key)),
            final(self).ekey == old(self).ekey,
            final(self).next@ == old(self).next@,
            final(self).prev@ == old(self).prev@,
            final(self).dirty@.is_empty(),
            final(self).popped == old(self).popped,
            final(self).pairs@.dom() == old(self).pairs@.dom(),
            forall|k: u32| #[trigger]
                final(self).pairs@.contains_key(k) ==> count_of(final(self).pairs@[k]) == count_of(
                    old(self).pairs@[k],
                ),
            forall|i: int|
                #![trigger old(self).ekey@[i]]
                0 <= i < tokens.len() && old(self).ekey@[i] == Some(key) ==> r@.contains(i as u32),
            forall|j: int| 0 <= j < r@.len() ==> (#[trigger] r@[j] as int) < tokens.len(),
            final(self).occ_total() <= old(self).occ_total(),
            r@ == old(self).recorded(key),
            final(self).occ@ == old(self).occ@.remove(key),
    {
        proof {
            self.lemma_present(tokens, meta, None, key);
        }
        self.pairs.set_queued_of(key, false);
        let list = self.occ.take(key);
        proof {
            let e = self.ekey@;
            assert forall|k: u32| #[trigger] self.pairs@.contains_key(k) <==> edge_count(e, k) > 0 by {
                assert(old(self).pairs@.contains_key(k) == self.pairs@.contains_key(k));
            }
            assert forall|k: u32| #[trigger] self.pairs@.contains_key(k) implies count_of(
                self.pairs@[k],
            ) == edge_count(e, k) by {
                assert(old(self).pairs@.contains_key(k));
            }
            assert forall|k: u32|
                #[trigger] self.pairs@.contains_key(k) && count_of(self.pairs@[k]) >= 2 implies self.dirty@.contains(
                k,
            ) || self.popped@ == Some(k) || self.heap@.count(
                entry_for(k, count_of(self.pairs@[k]), meta),
            ) > 0 by {
                assert(old(self).pairs@.contains_key(k));
                if k != key {
                    assert(old(self).pairs@[k] == self.pairs@[k]);
                }
            }
            assert forall|i: int|
                #![trigger e[i]]
                0 <= i < e.len() && e[i] is Some && e[i] != Some(key) implies self.occ@.contains_key(
                e[i]->0,
            ) && self.occ@[e[i]->0].contains(i as u32) by {
                assert(old(self).occ@.contains_key(e[i]->0));
            }
            assert forall|k: u32, t: int|
                #![trigger self.occ@[k][t]]
                self.occ@.contains_key(k) && 0 <= t < self.occ@[k].len() implies (self.occ@[k][t] as int)
                < tokens.len() by {
                assert(old(self).occ@[k][t] == self.occ@[k][t]);
            }
            assert forall|i: int|
                #![trigger old(self).ekey@[i]]
                0 <= i < tokens.len() && old(self).ekey@[i] == Some(key) implies list@.contains(i as u32) by {
                assert(e[i] == Some(key));
            }
            assert forall|j: int| 0 <= j < list@.len() implies (#[trigger] list@[j] as int) < tokens.len() by {
                assert(old(self).occ@[key][j] == list@[j]);
            }
            assert(self.pairs@.dom() =~= old(self).pairs@.dom());
        }
        list
    }

    /// Gives every pair marked since the last flush a heap entry for its
    /// current count, when it is seen at least twice.
    fn flush_heap(&mut self, meta: &[TokenMeta], Ghost(tokens): Ghost<Seq<u16>>)
        requires
            old(self).parts_ok(tokens, meta@, None),
        ensures
            final(self).parts_ok(tokens, meta@, None),
            final(self).dirty@.is_empty(),
            final(self).ekey == old(self).ekey,
            final(self).next@ == old(self).next@,
            final(self).occ@ == old(self).occ@,
            final(self).prev@ == old(self).prev@,
            final(self).popped == old(self).popped,
            final(self).pairs == old(self).pairs,
            final(self).occ == old(self).occ,
    {
        let mut i: usize = 0;
        let ghost d = self.dirty_list@;
        while i < self.dirty_list.len()
            invariant
                self.parts_ok(tokens, meta@, None),
                self.dirty_list@ == d,
                self.ekey == old(self).ekey,
                self.next@ == old(self).next@,
                self.prev@ == old(self).prev@,
                self.popped == old(self).popped,
                self.pairs == old(self).pairs,
                self.occ == old(self).occ,
                self.dirty@ == old(self).dirty@,
                0 <= i <= d.len(),
                forall|j: int|
                    0 <= j < i && #[trigger] self.pairs@.contains_key(d[j]) && count_of(
                        self.pairs@[d[j]],
                    ) >= 2 ==> self.heap@.count(
                        entry_for(d[j], count_of(self.pairs@[d[j]]), meta@),
                    ) > 0,
            decreases d.len() - i,
        {
            let key = self.dirty_list[i];
            if key != EMPTY_PAIR {
                match self.pairs.get(key) {
                    Some(slot) => {
                        let count = slot.count();
                        if count >= 2 {
                            proof {
                                self.lemma_present(tokens, meta@, None, key);
                                lemma_pair_ids_roundtrip(key);
                            }
                            let score = pair_score(key, count, meta);
                            let ghost h0 = self.heap@;
                            self.heap.push((score, key, count));
                            proof {
                                assert forall|x: Entry| #[trigger] self.heap@.count(x) > 0 implies ids_in(
                                    x.1,
                                    meta@,
                                ) && x == entry_for(x.1, x.2, meta@) by {
                                    if x != (score, key, count) {
                                        assert(h0.count(x) > 0);
                                    }
                                }
                                assert forall|k: u32|
                                    #[trigger] self.pairs@.contains_key(k) && count_of(self.pairs@[k]) >= 2 implies self.dirty@.contains(
                                    k,
                                ) || self.popped@ == Some(k) || self.heap@.count(
                                    entry_for(k, count_of(self.pairs@[k]), meta@),
                                ) > 0 by {
                                    if self.heap@.count(entry_for(k, count_of(self.pairs@[k]), meta@)) == 0 {
                                        assert(h0.count(entry_for(k, count_of(self.pairs@[k]), meta@)) == 0);
                                    }
                                }
                                assert forall|j: int|
                                    0 <= j < i + 1 && #[trigger] self.pairs@.contains_key(d[j]) && count_of(
                                        self.pairs@[d[j]],
                                    ) >= 2 implies self.heap@.count(
                                        entry_for(d[j], count_of(self.pairs@[d[j]]), meta@),
                                    ) > 0 by {
                                    if j < i {
                                        assert(h0.count(entry_for(d[j], count_of(self.pairs@[d[j]]), meta@)) > 0);
                                    }
                                }
                            }
                        }
                    },
                    None => {},
                }
            } else {
                proof {
                    self.pairs.lemma_slots_cover();
                }
            }
            i += 1;
        }
        self.dirty.clear();
        self.dirty_list.clear();
        proof {
            assert forall|k: u32|
                #[trigger] self.pairs@.contains_key(k) && count_of(self.pairs@[k]) >= 2 implies self.dirty@.contains(
                k,
            ) || self.popped@ == Some(k) || self.heap@.count(
                entry_for(k, count_of(self.pairs@[k]), meta@),
            ) > 0 by {
                if old(self).dirty@.contains(k) {
                    assert(d.to_set().contains(k));
                    let j = choose|j: int| 0 <= j < d.len() && d[j] == k;
                    assert(self.pairs@.contains_key(d[j]));
                }
            }
            assert(self.dirty_list@ =~= Seq::<u32>::empty());
            assert(self.dirty_list@.to_set() =~= self.dirty@);
        }
    }

    /// When the heap holds more than 4096 entries beyond the number of
    /// pairs, refills it with one entry per pair seen at least twice.
    #[verifier::rlimit(40)]
    fn rebuild_heap_if_needed(&mut self, meta: &[TokenMeta], Ghost(tokens): Ghost<Seq<u16>>)
        requires
            old(self).parts_ok(tokens, meta@, None),
        ensures
            final(self).parts_ok(tokens, meta@, None),
            final(self).dirty@ == old(self).dirty@,
            final(self).ekey == old(self).ekey,
            final(self).next@ == old(self).next@,
            final(self).occ@ == old(self).occ@,
            final(self).prev@ == old(self).prev@,
            final(self).popped == old(self).popped,
            final(self).occ == old(self).occ,
            final(self).pairs@.dom() == old(self).pairs@.dom(),
            forall|k: u32| #[trigger]
                final(self).pairs@.contains_key(k) ==> count_of(final(self).pairs@[k]) == count_of(
                    old(self).pairs@[k],
                ),
            old(self).heap@.len() <= old(self).pairs@.dom().len() + 4096 ==> final(self).heap@ == old(
                self,
            ).heap@ && final(self).pairs@ == old(self).pairs@,
            old(self).heap@.len() > old(self).pairs@.dom().len() + 4096 ==> {
                &&& forall|x: Entry| #[trigger]
                    final(self).heap@.count(x) == if is_rebuilt_entry(old(self).pairs@, meta@, x) {
                        1nat
                    } else {
                        0nat
                    }
                &&& forall|k: u32| #[trigger]
                    final(self).pairs@.contains_key(k) ==> queued_of(final(self).pairs@[k]) == (count_of(
                        final(self).pairs@[k],
                    ) >= 2)
            },
    {
        let pair_count = self.pairs.len();
        let heap_limit = pair_count.saturating_add(4096);
        if self.heap.len() <= heap_limit {
            return;
        }
        self.heap.clear();
        let cap = self.pairs.capacity();
        let mut i: usize = 0;
        proof {
            self.pairs.lemma_slots_cover();
        }
        while i < cap
            invariant
                self.pairs.wf(),
                cap == self.pairs.cap(),
                self.pairs@.dom() == old(self).pairs@.dom(),
                forall|k: u32| #[trigger]
                    self.pairs@.contains_key(k) ==> count_of(self.pairs@[k]) == count_of(
                        old(self).pairs@[k],
                    ),
                self.heap.wf(),
                self.heap@ == Multiset::<Entry>::empty(),
                self.same_lists(*old(self)),
                0 <= i <= cap,
                forall|k: u32|
                    #[trigger] self.pairs@.contains_key(k) && self.pairs.position(k) < i ==> !queued_of(
                        self.pairs@[k],
                    ),
            decreases cap - i,
        {
            proof {
                self.pairs.lemma_slots_cover();
            }
            let slot = self.pairs.slot_at(i);
            if slot.key != EMPTY_PAIR {
                let ghost p0 = self.pairs;
                self.pairs.set_queued_at(i, false);
                proof {
                    self.pairs.lemma_slots_cover();
                    p0.lemma_slots_cover();
                    assert forall|k: u32| #[trigger] self.pairs@.contains_key(k) implies count_of(
                        self.pairs@[k],
                    ) == count_of(old(self).pairs@[k]) by {
                        assert(p0@.contains_key(k));
                    }
                    assert forall|k: u32|
                        #[trigger] self.pairs@.contains_key(k) && self.pairs.position(k) < i + 1 implies !queued_of(
                        self.pairs@[k],
                    ) by {
                        assert(p0@.contains_key(k));
                        let q = p0.position(k);
                        assert(p0.slot_view(q).key == k);
                        assert(self.pairs.slot_view(q).key == k);
                        assert(self.pairs.position(k) == q);
                    }
                }
            } else {
                proof {
                    assert forall|k: u32|
                        #[trigger] self.pairs@.contains_key(k) && self.pairs.position(k) < i + 1 implies !queued_of(
                        self.pairs@[k],
                    ) by {
                        if self.pairs.position(k) == i {
                            assert(self.pairs.slot_view(i as int).key == k);
                        }
                    }
                }
            }
            i += 1;
        }
        proof {
            self.pairs.lemma_slots_cover();
        }
        let mut i: usize = 0;
        while i < cap
            invariant
                self.pairs.wf(),
                cap == self.pairs.cap(),
                self.pairs@.dom() == old(self).pairs@.dom(),
                forall|k: u32| #[trigger]
                    self.pairs@.contains_key(k) ==> count_of(self.pairs@[k]) == count_of(
                        old(self).pairs@[k],
                    ),
                self.heap.wf(),
                heap_entries_ok(self.heap@, meta@),
                forall|k: u32|
                    #[trigger] self.pairs@.contains_key(k) && count_of(self.pairs@[k]) >= 2
                        && self.pairs.position(k) < i ==> self.heap@.count(
                        entry_for(k, count_of(self.pairs@[k]), meta@),
                    ) > 0,
                forall|x: Entry| #[trigger]
                    self.heap@.count(x) == if is_rebuilt_entry(old(self).pairs@, meta@, x)
                        && self.pairs.position(x.1) < i {
                        1nat
                    } else {
                        0nat
                    },
                forall|k: u32| #[trigger]
                    self.pairs@.contains_key(k) ==> queued_of(self.pairs@[k]) == (self.pairs.position(k) < i
                        && count_of(self.pairs@[k]) >= 2),
                old(self).parts_ok(tokens, meta@, None),
                self.same_lists(*old(self)),
                0 <= i <= cap,
            decreases cap - i,
        {
            proof {
                self.pairs.lemma_slots_cover();
            }
            let slot = self.pairs.slot_at(i);
            if slot.key != EMPTY_PAIR {
                let key = slot.key;
                let count = slot.count();
                if count >= 2 {
                    let ghost p0 = self.pairs;
                    self.pairs.set_queued_at(i, true);
                    proof {
                        old(self).lemma_present(tokens, meta@, None, key);
                        lemma_pair_ids_roundtrip(key);
                    }
                    let score = pair_score(key, count, meta);
                    let ghost h0 = self.heap@;
                    self.heap.push((score, key, count));
                    proof {
                        self.pairs.lemma_slots_cover();
                        p0.lemma_slots_cover();
                        assert forall|k: u32| #[trigger] self.pairs@.contains_key(k) implies count_of(
                            self.pairs@[k],
                        ) == count_of(old(self).pairs@[k]) by {
                            assert(p0@.contains_key(k));
                        }
                        assert forall|x: Entry| #[trigger] self.heap@.count(x) > 0 implies ids_in(
                            x.1,
                            meta@,
                        ) && x == entry_for(x.1, x.2, meta@) by {
                            if x != (score, key, count) {
                                assert(h0.count(x) > 0);
                            }
                        }
                        assert forall|k: u32|
                            #[trigger] self.pairs@.contains_key(k) && count_of(self.pairs@[k]) >= 2
                                && self.pairs.position(k) < i + 1 implies self.heap@.count(
                                entry_for(k, count_of(self.pairs@[k]), meta@),
                            ) > 0 by {
                            assert(p0@.contains_key(k));
                            let q = p0.position(k);
                            assert(p0.slot_view(q).key == k);
                            assert(self.pairs.slot_view(q).key == k);
                            assert(self.pairs.position(k) == q);
                            if q < i {
                                assert(h0.count(entry_for(k, count_of(self.pairs@[k]), meta@)) > 0);
                            } else {
                                assert(self.pairs.slot_view(i as int).key == k);
                            }
                        }
                    }
                }
            }
            i += 1;
        }
        proof {
            self.pairs.lemma_slots_cover();
            assert forall|x: Entry| #[trigger]
                self.heap@.count(x) == if is_rebuilt_entry(old(self).pairs@, meta@, x) {
                    1nat
                } else {
                    0nat
                } by {
                if is_rebuilt_entry(old(self).pairs@, meta@, x) {
                    assert(self.pairs@.contains_key(x.1));
                }
            }
            let e = self.ekey@;
            assert forall|k: u32| #[trigger] self.pairs@.contains_key(k) <==> edge_count(e, k) > 0 by {
                assert(old(self).pairs@.contains_key(k) == self.pairs@.contains_key(k));
            }
            assert forall|k: u32| #[trigger] self.pairs@.contains_key(k) implies count_of(
                self.pairs@[k],
            ) == edge_count(e, k) by {
                assert(old(self).pairs@.contains_key(k));
            }
            assert forall|k: u32|
                #[trigger] self.pairs@.contains_key(k) && count_of(self.pairs@[k]) >= 2 implies self.dirty@.contains(
                k,
            ) || self.popped@ == Some(k) || self.heap@.count(
                entry_for(k, count_of(self.pairs@[k]), meta@),
            ) > 0 by {
                assert(old(self).pairs@.contains_key(k));
                self.pairs.lemma_slots_cover();
            }
        }
    }

    /// Compaction keeps every recorded occurrence that is still live.
    proof fn lemma_after_compact(&self, before: PairIndex, tokens: Seq<u16>, meta: Seq<TokenMeta>, key: u32)
        requires
            before.parts_ok(tokens, meta, Some(key)),
            before.ekey@ == edges(tokens, before.next@, meta),
            self.pairs == before.pairs,
            self.heap == before.heap,
            self.prev == before.prev,
            self.next == before.next,
            self.dirty == before.dirty,
            self.dirty_list == before.dirty_list,
            self.ekey == before.ekey,
            self.offs == before.offs,
            self.popped == before.popped,
            forall|k: u32| #[trigger]
                self.occ@.contains_key(k) ==> before.occ@.contains_key(k) && before.pairs@.contains_key(k)
                    && self.occ@[k] == live_part(k, before.occ@[k], tokens, before.next@)
                    && self.occ@[k].len() > 0,
            forall|k: u32|
                before.occ@.contains_key(k) && before.pairs@.contains_key(k) && #[trigger] live_part(
                    k,
                    before.occ@[k],
                    tokens,
                    before.next@,
                ).len() > 0 ==> self.occ@.contains_key(k),
            self.occ.wf(),
        ensures
            self.parts_ok(tokens, meta, Some(key)),
            self.occ@ == compacted(before.occ@, tokens, before.next@, meta),
    {
        let e = self.ekey@;
        let next = self.next@;
        let n = tokens.len() as int;
        assert forall|i: int|
            #![trigger e[i]]
            0 <= i < e.len() && e[i] is Some && e[i] != Some(key) implies self.occ@.contains_key(
            e[i]->0,
        ) && self.occ@[e[i]->0].contains(i as u32) by {
            let k = e[i]->0;
            let l = before.occ@[k];
            assert(before.occ@.contains_key(k) && l.contains(i as u32));
            let t = choose|t: int| 0 <= t < l.len() && l[t] == i as u32;
            assert(e[i] == edge_at(tokens, next, meta, i));
            assert(is_link(next[i]));
            assert(next[i] < n);
            let pred = |p: u32| occurrence_live(k, p, tokens, next);
            assert(pred(l[t]));
            l.lemma_filter_contains(pred, t);
            assert(live_part(k, l, tokens, next) == l.filter(pred));
            assert(live_part(k, l, tokens, next).len() > 0);
            assert(before.pairs@.contains_key(k)) by {
                assert(e.contains(Some(k)));
            }
        }
        assert forall|k: u32, j: int|
            #![trigger self.occ@[k][j]]
            self.occ@.contains_key(k) && 0 <= j < self.occ@[k].len() implies (self.occ@[k][j] as int) < n by {
            let l = before.occ@[k];
            let pred = |p: u32| occurrence_live(k, p, tokens, next);
            assert(self.occ@[k] == l.filter(pred));
            l.lemma_filter_pred(pred, j);
        }
        reveal(compacted);
        let c = compacted(before.occ@, tokens, before.next@, meta);
        assert forall|k: u32| #[trigger] self.occ@.contains_key(k) <==> c.contains_key(k) by {
            if before.occ@.contains_key(k) && before.pairs@.contains_key(k) {
                assert(count_of(before.pairs@[k]) == edge_count(before.ekey@, k));
            }
        }
        assert(self.occ@ =~= c);
    }

    /// Merges every live occurrence of the chosen pair `key` into a node
    /// holding `new_id`, taking the recorded positions newest first, then
    /// brings the heap up to date. Returns how many occurrences merged.
    #[verifier::spinoff_prover]
    #[verifier::rlimit(100)]
    pub fn merge_pair(
        &mut self,
        key: u32,
        new_id: u16,
        tokens: &mut Vec<u16>,
        meta: &[TokenMeta],
        occ_limit: usize,
    ) -> (r: Result<usize, VocabError>)
        requires
            old(self).selected(old(tokens)@, meta@, key),
            new_id as int == meta@.len() - 1,
            (pair_ids_spec(key).0 as int) < new_id,
            (pair_ids_spec(key).1 as int) < new_id,
            meta@[new_id as int] == fuse_spec(
                meta@[pair_ids_spec(key).0 as int],
                meta@[pair_ids_spec(key).1 as int],
            ),
        ensures
            r matches Ok(merged) ==> {
                &&& final(self).wf(final(tokens)@, meta@)
                &&& merged > 0
                &&& merged == changed_count(old(tokens)@, final(tokens)@, old(tokens)@.len() as int)
                &&& final(self).count(key) == 0
                &&& final(tokens)@.len() == old(tokens)@.len()
                &&& merged_into(
                    old(tokens)@,
                    old(self).next_view(),
                    old(self).prev_view(),
                    final(tokens)@,
                    final(self).next_view(),
                    pair_ids_spec(key).0,
                    pair_ids_spec(key).1,
                    new_id,
                )
                &&& (final(tokens)@, final(self).next_view()) == scan_merge(
                    old(self).recorded(key),
                    old(tokens)@,
                    old(self).next_view(),
                    pair_ids_spec(key).0,
                    pair_ids_spec(key).1,
                    new_id,
                )
                &&& exists|pre: bool, marks: Set<int>|
                    #![trigger merge_pass(old(self).recorded(key), (old(tokens)@, old(self).next_view(), old(self).prev_view(), pass_start(old(self).lists().remove(key), pre, old(tokens)@, old(self).next_view(), meta@)), meta@, pair_ids_spec(key).0, pair_ids_spec(key).1, new_id, marks)]
                    (final(tokens)@, final(self).next_view(), final(self).prev_view(), final(self).lists())
                        == merge_pass(
                        old(self).recorded(key),
                        (
                            old(tokens)@,
                            old(self).next_view(),
                            old(self).prev_view(),
                            pass_start(
                                old(self).lists().remove(key),
                                pre,
                                old(tokens)@,
                                old(self).next_view(),
                                meta@,
                            ),
                        ),
                        meta@,
                        pair_ids_spec(key).0,
                        pair_ids_spec(key).1,
                        new_id,
                        marks,
                    )
            },
            r matches Err(err) ==> (err is TooManyPairs && old(tokens)@.len() > MAX_PAIRS) || (
            err is OccurrenceOverflow && old(self).occ_total() + 2 * old(tokens)@.len() + 2
                >= u64::MAX),
            final(self).occ_total() <= old(self).occ_total() + 2 * old(tokens)@.len() + 2,
    {
        let ghost n = old(tokens)@.len() as int;
        let ghost t0 = tokens@;
        let ghost start = self.occ_total();
        let ghost e0 = self.ekey@;
        let ghost next0 = self.next@;
        let ghost prev0 = self.prev@;
        proof {
            self.lemma_present(tokens@, meta@, None, key);
            lemma_pair_ids_roundtrip(key);
        }
        let mut occurrences = self.take_occurrences(key, Ghost(tokens@), Ghost(meta@));
        let ghost list0 = occurrences@;
        let (wanted_a, wanted_b) = pair_ids(key);
        let mut merged: usize = 0;
        let ghost m_taken = self.occ@;
        let ghost mut pre = false;
        if self.occ.len() > occ_limit as u64 {
            let ghost before = *self;
            self.occ.compact(&self.pairs, tokens.as_slice(), self.next.as_slice());
            proof {
                self.lemma_after_compact(before, tokens@, meta@, key);
                pre = true;
            }
        }
        let ghost pass0: PassState = (t0, next0, prev0, self.occ@);
        let ghost mut marks: Set<int> = Set::empty();
        proof {
            assert(self.occ@ == pass_start(m_taken, pre, t0, next0, meta@));
        }
        let len0 = occurrences.len();
        proof {
            lemma_changed_count_same(t0, n);
        }
        while occurrences.len() > 0
            invariant
                self.parts_ok(tokens@, meta@, Some(key)),
                self.ekey@ == edges(tokens@, self.next@, meta@),
                self.popped@ == Some(key),
                tokens@.len() == n,
                n == old(tokens)@.len(),
                start == old(self).occ_total(),
                self.occ_total() <= start + 2 * merged,
                links_ok(prev0, next0),
                next0.len() == n,
                merged_into(t0, next0, prev0, tokens@, self.next@, wanted_a, wanted_b, new_id),
                forall|i: int|
                    #![trigger self.ekey@[i]]
                    0 <= i < n && self.ekey@[i] == Some(key) ==> occurrences@.contains(i as u32),
                forall|j: int| 0 <= j < occurrences@.len() ==> (#[trigger] occurrences@[j] as int) < n,
                merged + occurrences@.len() <= len0,
                merged == changed_count(t0, tokens@, n),
                merged == 0 ==> self.ekey@ == e0,
                key == pair_key_spec(wanted_a, wanted_b),
                valid_fusion_spec(meta@[wanted_a as int], meta@[wanted_b as int]),
                new_id as int == meta@.len() - 1,
                wanted_a < new_id,
                wanted_b < new_id,
                meta@[new_id as int] == fuse_spec(meta@[wanted_a as int], meta@[wanted_b as int]),
                scan_merge(occurrences@, tokens@, self.next@, wanted_a, wanted_b, new_id)
                    == scan_merge(list0, t0, next0, wanted_a, wanted_b, new_id),
                len0 == list0.len(),
                occurrences@.len() <= len0,
                forall|j: int| #[trigger] marks.contains(j) ==> occurrences@.len() <= j,
                forall|ms: Set<int>|
                    #![trigger merge_pass(list0, pass0, meta@, wanted_a, wanted_b, new_id, ms)]
                    (forall|j: int|
                        occurrences@.len() <= j < len0 ==> (ms.contains(j) <==> marks.contains(j)))
                        ==> merge_pass(
                        occurrences@,
                        (tokens@, self.next@, self.prev@, self.occ@),
                        meta@,
                        wanted_a,
                        wanted_b,
                        new_id,
                        ms,
                    ) == merge_pass(list0, pass0, meta@, wanted_a, wanted_b, new_id, ms),
            decreases occurrences@.len(),
        {
            let ghost occ_before = occurrences@;
            let cur_u32 = occurrences.pop().unwrap();
            let cur = cur_u32 as usize;
            proof {
                assert(occ_before == occurrences@.push(cur_u32));
                assert(occ_before[occ_before.len() - 1] == cur_u32);
                assert(occ_before.drop_last() =~= occurrences@);
                let tt = tokens@;
                let nn = self.next@;
                let pc = cur as int;
                assert(scan_merge(occ_before, tt, nn, wanted_a, wanted_b, new_id) == (if merges_at(
                    tt,
                    nn,
                    wanted_a,
                    wanted_b,
                    pc,
                ) {
                    scan_merge(
                        occurrences@,
                        tt.update(pc, new_id),
                        nn.update(pc, nn[nn[pc] as int]).update(nn[pc] as int, REMOVED),
                        wanted_a,
                        wanted_b,
                        new_id,
                    )
                } else {
                    scan_merge(occurrences@, tt, nn, wanted_a, wanted_b, new_id)
                }));
                assert forall|i: int|
                    #![trigger self.ekey@[i]]
                    0 <= i < n && self.ekey@[i] == Some(key) && i != cur as int implies occurrences@.contains(
                    i as u32,
                ) by {
                    assert(occ_before.contains(i as u32));
                    let t = choose|t: int| 0 <= t < occ_before.len() && occ_before[t] == i as u32;
                    if t == occ_before.len() - 1 {
                        assert(false);
                    }
                    assert(occurrences@[t] == i as u32);
                }
                assert forall|j: int| 0 <= j < occurrences@.len() implies (#[trigger] occurrences@[j] as int) < n by {
                    assert(occ_before[j] == occurrences@[j]);
                }
                assert(self.ekey@[cur as int] == edge_at(tokens@, self.next@, meta@, cur as int));
            }
            let ghost st0: PassState = (tokens@, self.next@, self.prev@, self.occ@);
            let ghost marks0 = marks;
            proof {
                let pc = cur as int;
                let lp = occurrences@.len() as int;
                assert forall|ms: Set<int>|
                    (forall|j: int| lp + 1 <= j < len0 ==> (ms.contains(j) <==> marks0.contains(j)))
                        implies #[trigger] merge_pass(list0, pass0, meta@, wanted_a, wanted_b, new_id, ms)
                    == (if merges_at(st0.0, st0.1, wanted_a, wanted_b, pc) {
                    merge_pass(
                        occurrences@,
                        pass_step(st0, meta@, new_id, pc, ms.contains(lp)),
                        meta@,
                        wanted_a,
                        wanted_b,
                        new_id,
                        ms,
                    )
                } else {
                    merge_pass(occurrences@, st0, meta@, wanted_a, wanted_b, new_id, ms)
                }) by {
                    assert(occ_before.len() == lp + 1);
                    assert(merge_pass(occ_before, st0, meta@, wanted_a, wanted_b, new_id, ms)
                        == merge_pass(list0, pass0, meta@, wanted_a, wanted_b, new_id, ms));
                }
            }
            if self.next[cur] == REMOVED {
                continue;
            }
            let right_u32 = self.next[cur];
            if right_u32 == NONE || right_u32 == REMOVED {
                continue;
            }
            let right = right_u32 as usize;
            proof {
                assert(right < n);
            }
            if tokens[cur] != wanted_a || tokens[right] != wanted_b {
                proof {
                    if self.ekey@[cur as int] == Some(key) {
                        lemma_pair_key_roundtrip(tokens@[cur as int], tokens@[right as int]);
                        lemma_pair_key_roundtrip(wanted_a, wanted_b);
                    }
                }
                continue;
            }
            let ghost e_before = self.ekey@;
            let ghost t_before = tokens@;
            let ghost nx_before = self.next@;
            proof {
                assert(self.prev@[right as int] == cur);
                assert(nx_before[right as int] != REMOVED);
            }
            match self.merge_at(cur_u32, wanted_a, wanted_b, new_id, tokens, meta, Ghost(key)) {
                Ok(()) => {},
                Err(e) => {
                    proof {
                        lemma_changed_count_bound(t0, t_before, n);
                    }
                    return Err(e);
                },
            }
            proof {
                lemma_merged_into_step(
                    t0,
                    next0,
                    prev0,
                    t_before,
                    nx_before,
                    wanted_a,
                    wanted_b,
                    new_id,
                    cur as int,
                );
            }
            proof {
                if t_before[cur as int] != t0[cur as int] {
                    assert(t_before[cur as int] == new_id);
                }
                lemma_changed_count_update(t0, t_before, cur as int, new_id, n);
                lemma_changed_count_bound(t0, t_before, n);
            }
            merged += 1;
            proof {
                assert forall|i: int|
                    #![trigger self.ekey@[i]]
                    0 <= i < n && self.ekey@[i] == Some(key) implies occurrences@.contains(i as u32) by {
                    assert(e_before[i] == Some(key) && i != cur as int);
                }
            }
            let ghost st1: PassState = (tokens@, self.next@, self.prev@, self.occ@);
            proof {
                assert(st1 == merge_one(st0, meta@, new_id, cur as int));
            }
            if merged % 1048576 == 0 && self.occ.len() > occ_limit as u64 {
                let ghost before = *self;
                self.occ.compact(&self.pairs, tokens.as_slice(), self.next.as_slice());
                proof {
                    self.lemma_after_compact(before, tokens@, meta@, key);
                    marks = marks.insert(occurrences@.len() as int);
                }
            }
            proof {
                let lp = occurrences@.len() as int;
                let did = marks.contains(lp);
                assert(!marks0.contains(lp)) by {
                    if marks0.contains(lp) {
                        assert(false);
                    }
                }
                assert((tokens@, self.next@, self.prev@, self.occ@) == pass_step(
                    st0,
                    meta@,
                    new_id,
                    cur as int,
                    did,
                ));
                assert(merges_at(st0.0, st0.1, wanted_a, wanted_b, cur as int));
                assert forall|ms: Set<int>|
                    (forall|j: int| lp <= j < len0 ==> (ms.contains(j) <==> marks.contains(j)))
                        implies #[trigger] merge_pass(list0, pass0, meta@, wanted_a, wanted_b, new_id, ms)
                    == merge_pass(
                    occurrences@,
                    (tokens@, self.next@, self.prev@, self.occ@),
                    meta@,
                    wanted_a,
                    wanted_b,
                    new_id,
                    ms,
                ) by {
                    assert(ms.contains(lp) == did);
                    assert forall|j: int| lp + 1 <= j < len0 implies (ms.contains(j) <==> marks0.contains(j)) by {
                        assert(marks.contains(j) == marks0.contains(j));
                    }
                }
            }
        }
        proof {
            assert(scan_merge(occurrences@, tokens@, self.next@, wanted_a, wanted_b, new_id) == (
            tokens@, self.next@));
            assert(merge_pass(occurrences@, (tokens@, self.next@, self.prev@, self.occ@), meta@, wanted_a, wanted_b, new_id, marks)
                == merge_pass(list0, pass0, meta@, wanted_a, wanted_b, new_id, marks));
            lemma_changed_count_bound(t0, tokens@, n);
            let e = self.ekey@;
            assert forall|i: int| 0 <= i < e.len() implies e[i] != Some(key) by {
                if e[i] == Some(key) {
                    assert(occurrences@.contains(i as u32));
                }
            }
            lemma_count_zero(e, key);
            if merged == 0 {
                let w = lemma_count_witness(e0, key);
            }
            assert(!self.pairs@.contains_key(key));
            self.popped@ = None;
            assert forall|i: int|
                #![trigger e[i]]
                0 <= i < e.len() && e[i] is Some && e[i] != None::<u32> implies self.occ@.contains_key(
                e[i]->0,
            ) && self.occ@[e[i]->0].contains(i as u32) by {
                assert(e[i] != Some(key));
            }
            assert forall|k: u32|
                #[trigger] self.pairs@.contains_key(k) && count_of(self.pairs@[k]) >= 2 implies self.dirty@.contains(
                k,
            ) || self.popped@ == Some(k) || self.heap@.count(
                entry_for(k, count_of(self.pairs@[k]), meta@),
            ) > 0 by {
                assert(k != key);
            }
        }
        let ghost fin: PassState = (tokens@, self.next@, self.prev@, self.occ@);
        self.flush_heap(meta, Ghost(tokens@));
        self.rebuild_heap_if_needed(meta, Ghost(tokens@));
        proof {
            assert(fin == merge_pass(list0, pass0, meta@, wanted_a, wanted_b, new_id, marks));
            assert(pass0 == (t0, next0, prev0, pass_start(old(self).lists().remove(key), pre, t0, next0, meta@)));
            assert(list0 == old(self).recorded(key));
            assert((tokens@, self.next_view(), self.prev_view(), self.lists()) == merge_pass(
                old(self).recorded(key),
                (
                    old(tokens)@,
                    old(self).next_view(),
                    old(self).prev_view(),
                    pass_start(old(self).lists().remove(key), pre, old(tokens)@, old(self).next_view(), meta@),
                ),
                meta@,
                pair_ids_spec(key).0,
                pair_ids_spec(key).1,
                new_id,
                marks,
            ));
        }
        Ok(merged)
    }

    /// Pops heap entries until one is current: its pair is present with
    /// the count it was scored with, at least 2. Stale entries of pairs still
    /// seen twice are queued again with their current count. Returns the
    /// pair and its count, or `None` when the heap runs out.
    pub fn best_pair(&mut self, meta: &[TokenMeta], Ghost(tokens): Ghost<Seq<u16>>) -> (r: Option<
        (u32, u32),
    >)
        requires
            old(self).wf(tokens, meta@),
        ensures
            forall|k: u32| #[trigger] final(self).count(k) == old(self).count(k),
            final(self).next_view() == old(self).next_view(),
            final(self).prev_view() == old(self).prev_view(),
            final(self).lists() == old(self).lists(),
            match r {
                None => final(self).wf(tokens, meta@) && forall|k: u32| #[trigger]
                    final(self).count(k) < 2,
                Some((k, c)) => {
                    &&& final(self).selected(tokens, meta@, k)
                    &&& c == final(self).count(k)
                    &&& c >= 2
                    &&& forall|k2: u32|
                        #[trigger] final(self).count(k2) >= 2 ==> entry_le(
                            entry_for(k2, final(self).count(k2) as u32, meta@),
                            entry_for(k, c, meta@),
                        )
                },
            },
            final(self).occ_total() == old(self).occ_total(),
    {
        let ghost cnt = self.pairs@;
        loop
            invariant
                self.parts_ok(tokens, meta@, None),
                self.ekey@ == edges(tokens, self.next@, meta@),
                self.dirty@.is_empty(),
                self.popped@ is None,
                self.pairs@.dom() == cnt.dom(),
                forall|k: u32| #[trigger]
                    self.pairs@.contains_key(k) ==> count_of(self.pairs@[k]) == count_of(cnt[k]),
                cnt == old(self).pairs@,
                self.next@ == old(self).next@,
                self.prev@ == old(self).prev@,
                self.occ_total() == old(self).occ_total(),
                self.occ@ == old(self).occ@,
            decreases self.heap@.filter(|x: Entry| !live_entry(cnt, x)).len(),
        {
            let ghost h0 = self.heap@;
            let popped = self.heap.pop();
            let e = match popped {
                None => {
                    proof {
                        assert forall|k: u32| #[trigger] self.count(k) < 2 by {
                            if self.pairs@.contains_key(k) && count_of(self.pairs@[k]) >= 2 {
                                assert(h0.count(entry_for(k, count_of(self.pairs@[k]), meta@)) > 0);
                            }
                        }
                        assert forall|k: u32| #[trigger] self.count(k) == old(self).count(k) by {
                            if self.pairs@.contains_key(k) {
                                assert(cnt.contains_key(k));
                            }
                        }
                    }
                    return None;
                },
                Some(e) => e,
            };
            let key = e.1;
            let snapshot_count = e.2;
            proof {
                assert(h0.count(e) > 0);
                lemma_stale_pop(h0, cnt, e);
            }
            if key == EMPTY_PAIR {
                proof {
                    self.lemma_after_pop(h0, tokens, meta@, e);
                    assert(!cnt.contains_key(key)) by {
                        self.pairs.lemma_slots_cover();
                    }
                }
                continue;
            }
            let current_count = match self.pairs.get(key) {
                Some(slot) => {
                    let ghost p0 = self.pairs@;
                    self.pairs.set_queued_of(key, false);
                    proof {
                        assert forall|k: u32| #[trigger] self.pairs@.contains_key(k) implies count_of(
                            self.pairs@[k],
                        ) == count_of(cnt[k]) by {
                            assert(p0.contains_key(k));
                        }
                    }
                    slot.count()
                },
                None => {
                    proof {
                        self.lemma_after_pop(h0, tokens, meta@, e);
                    }
                    continue;
                },
            };
            proof {
                self.lemma_after_pop(h0, tokens, meta@, e);
            }
            if current_count == snapshot_count && current_count >= 2 {
                proof {
                    self.popped@ = Some(key);
                    assert(e == entry_for(key, current_count, meta@));
                    assert forall|k2: u32|
                        #[trigger] self.count(k2) >= 2 implies entry_le(
                        entry_for(k2, self.count(k2) as u32, meta@),
                        entry_for(key, current_count, meta@),
                    ) by {
                        assert(self.pairs@.contains_key(k2));
                        let c2 = count_of(self.pairs@[k2]);
                        assert(h0.count(entry_for(k2, c2, meta@)) > 0);
                    }
                    assert forall|k: u32|
                        #[trigger] self.pairs@.contains_key(k) && count_of(self.pairs@[k]) >= 2 implies self.dirty@.contains(
                        k,
                    ) || self.popped@ == Some(k) || self.heap@.count(
                        entry_for(k, count_of(self.pairs@[k]), meta@),
                    ) > 0 by {
                        if k != key {
                            assert(h0.count(entry_for(k, count_of(self.pairs@[k]), meta@)) > 0);
                        }
                    }
                    assert forall|k: u32| #[trigger] self.count(k) == old(self).count(k) by {
                        if self.pairs@.contains_key(k) {
                            assert(cnt.contains_key(k));
                        }
                    }
                }
                return Some((key, current_count));
            }
            if current_count >= 2 {
                let ghost h1 = self.heap@;
                self.maybe_queue_pair(key, meta, Ghost(tokens), Ghost(None));
                proof {
                    assert forall|k: u32| #[trigger] self.pairs@.contains_key(k) implies count_of(
                        self.pairs@[k],
                    ) == count_of(cnt[k]) by {
                        assert(cnt.contains_key(k));
                    }
                    if self.heap@ != h1 {
                        let x = entry_for(key, count_of(self.pairs@[key]), meta@);
                        assert(live_entry(cnt, x));
                        lemma_filter_insert_live(h1, cnt, x);
                    }
                }
            }
        }
    }

    /// After popping `e`, every part is consistent again once a stale entry
    /// of a pair seen twice is queued back, which the caller does.
    proof fn lemma_after_pop(&self, h0: Multiset<Entry>, tokens: Seq<u16>, meta: Seq<TokenMeta>, e: Entry)
        requires
            h0.count(e) > 0,
            self.heap@ == h0.remove(e),
            heap_entries_ok(h0, meta),
            forall|k: u32|
                #[trigger] self.pairs@.contains_key(k) && count_of(self.pairs@[k]) >= 2 ==> h0.count(
                    entry_for(k, count_of(self.pairs@[k]), meta),
                ) > 0,
        ensures
            heap_entries_ok(self.heap@, meta),
            e == entry_for(e.1, e.2, meta),
            ids_in(e.1, meta),
            forall|k: u32|
                #[trigger] self.pairs@.contains_key(k) && count_of(self.pairs@[k]) >= 2 && (k != e.1
                    || count_of(self.pairs@[k]) != e.2) ==> self.heap@.count(
                    entry_for(k, count_of(self.pairs@[k]), meta),
                ) > 0,
    {
        assert forall|x: Entry| #[trigger] self.heap@.count(x) > 0 implies ids_in(x.1, meta) && x
            == entry_for(x.1, x.2, meta) by {
            assert(h0.count(x) > 0);
        }
        assert forall|k: u32|
            #[trigger] self.pairs@.contains_key(k) && count_of(self.pairs@[k]) >= 2 && (k != e.1
                || count_of(self.pairs@[k]) != e.2) implies self.heap@.count(
            entry_for(k, count_of(self.pairs@[k]), meta),
        ) > 0 by {
            assert(entry_for(k, count_of(self.pairs@[k]), meta) != e);
        }
    }

    /// The count of every pair is the number of live nodes that hold it: the
    /// node's token and the next live token make the pair, and may merge.
    pub proof fn lemma_counts_are_pair_counts(&self, tokens: Seq<u16>, meta: Seq<TokenMeta>)
        requires
            self.wf(tokens, meta),
        ensures
            forall|k: u32|
                #[trigger] self.count(k) == edge_count(edges(tokens, self.next_view(), meta), k),
    {
        assert forall|k: u32| #[trigger]
            self.count(k) == edge_count(edges(tokens, self.next_view(), meta), k) by {
            if self.pairs@.contains_key(k) {
                assert(count_of(self.pairs@[k]) == edge_count(self.ekey@, k));
            } else {
                assert(!(edge_count(self.ekey@, k) > 0));
            }
        }
    }

    /// The links form an ordered doubly linked list over the positions.
    pub proof fn lemma_wf_links(&self, tokens: Seq<u16>, meta: Seq<TokenMeta>)
        requires
            self.wf(tokens, meta),
        ensures
            links_ok(self.prev_view(), self.next_view()),
            self.next_view().len() == tokens.len(),
            tokens.len() > 0 ==> self.next_view()[0] != REMOVED,
            tokens.len() <= MAX_CORPUS_BYTES,
            meta_ok(meta),
            forall|i: int| 0 <= i < tokens.len() ==> (#[trigger] tokens[i] as int) < meta.len(),
    {
    }

    /// The chosen pair may merge, its ids name tokens, and the merged token
    /// fits the corpus.
    pub proof fn lemma_selected_key(&self, tokens: Seq<u16>, meta: Seq<TokenMeta>, key: u32)
        requires
            self.selected(tokens, meta, key),
        ensures
            key_ok(key, meta),
            meta_ok(meta),
    {
        self.lemma_present(tokens, meta, None, key);
    }

    /// A token added at the end of the metadata changes nothing the index
    /// describes.
    pub proof fn lemma_extend_meta(&self, tokens: Seq<u16>, meta: Seq<TokenMeta>, m: TokenMeta, key: u32)
        requires
            self.selected(tokens, meta, key),
            meta.len() < 65535,
            m.word_count <= m.byte_len,
        ensures
            self.selected(tokens, meta.push(m), key),
    {
        let meta2 = meta.push(m);
        let e = self.ekey@;
        let n = tokens.len() as int;
        assert forall|t: int| 0 <= t < meta2.len() implies (#[trigger] meta2[t]).word_count
            <= meta2[t].byte_len by {
            if t < meta.len() {
                assert(meta2[t] == meta[t]);
            }
        }
        assert forall|i: int| 0 <= i < n implies (#[trigger] tokens[i] as int) < meta2.len() by {
            assert((tokens[i] as int) < meta.len());
        }
        assert forall|i: int|
            #![trigger e[i]]
            0 <= i < n && e[i] is Some implies key_ok(e[i]->0, meta2) && is_link(self.next@[i]) by {
            assert(key_ok(e[i]->0, meta));
        }
        let next = self.next@;
        let offs = self.offs@;
        assert forall|i: int|
            #![trigger next[i]]
            0 <= i < n && next[i] != REMOVED implies 0 <= offs[i] && offs[succ(next, i)] <= offs[n]
                && meta2[tokens[i] as int].byte_len == offs[succ(next, i)] - offs[i] by {
            assert((tokens[i] as int) < meta.len());
        }
        assert forall|x: Entry| #[trigger] self.heap@.count(x) > 0 implies ids_in(x.1, meta2) && x
            == entry_for(x.1, x.2, meta2) by {
            assert(ids_in(x.1, meta));
        }
        assert forall|k: u32|
            #[trigger] self.pairs@.contains_key(k) && count_of(self.pairs@[k]) >= 2 implies self.dirty@.contains(
            k,
        ) || self.popped@ == Some(k) || self.heap@.count(
            entry_for(k, count_of(self.pairs@[k]), meta2),
        ) > 0 by {
            self.lemma_present(tokens, meta, None, k);
        }
        assert forall|i: int| 0 <= i < n implies #[trigger] edge_at(tokens, next, meta2, i) == edge_at(
            tokens,
            next,
            meta,
            i,
        ) by {
            assert((tokens[i] as int) < meta.len());
            if is_link(next[i]) {
                assert(next[i] < n);
                assert((tokens[next[i] as int] as int) < meta.len());
            }
        }
        assert(edges(tokens, next, meta2) =~= edges(tokens, next, meta));
    }

    /// The index of a fresh token sequence: every position linked to its
    /// neighbours, every adjacent pair that may merge counted and recorded
    /// in order, and a heap entry for every pair seen at least twice.
    pub fn build(tokens: &[u16], meta: &[TokenMeta]) -> (r: Result<PairIndex, VocabError>)
        requires
            tokens@.len() <= MAX_CORPUS_BYTES,
            meta_ok(meta@),
            forall|i: int| 0 <= i < tokens@.len() ==> (#[trigger] tokens@[i] as int) < meta@.len(),
            bytes_before(tokens@, meta@, tokens@.len() as int) <= MAX_CORPUS_BYTES,
        ensures
            r matches Ok(index) ==> {
                &&& index.wf(tokens@, meta@)
                &&& index.next_view() == initial_next(tokens@.len() as int)
                &&& index.prev_view() == initial_prev(tokens@.len() as int)
                &&& index.lists() == initial_lists(
                    edges(tokens@, initial_next(tokens@.len() as int), meta@),
                    tokens@.len() as int,
                )
                &&& index.occ_total() <= 268435456 * 2147483648 + tokens@.len() + 1
            },
            r matches Err(err) ==> err is TooManyPairs && tokens@.len() > MAX_PAIRS,
    {
        let n = tokens.len();
        let ghost t = tokens@;
        let mut prev: Vec<u32> = Vec::with_capacity(n);
        let mut next: Vec<u32> = Vec::with_capacity(n);
        let mut i: usize = 0;
        while i < n
            invariant
                n == t.len(),
                n <= MAX_CORPUS_BYTES,
                0 <= i <= n,
                prev@ == initial_prev(n as int).take(i as int),
                next@ == initial_next(n as int).take(i as int),
            decreases n - i,
        {
            if i > 0 {
                prev.push((i - 1) as u32);
            } else {
                prev.push(NONE);
            }
            if i + 1 < n {
                next.push((i + 1) as u32);
            } else {
                next.push(NONE);
            }
            proof {
                assert(prev@ =~= initial_prev(n as int).take(i + 1));
                assert(next@ =~= initial_next(n as int).take(i + 1));
            }
            i += 1;
        }
        proof {
            assert(prev@ =~= initial_prev(n as int));
            assert(next@ =~= initial_next(n as int));
            lemma_initial_links(n as int);
        }
        let ghost big_e = edges(t, next@, meta@);
        let ghost offs = Seq::new((n + 1) as nat, |j: int| bytes_before(t, meta@, j));
        proof {
            lemma_initial_spans(t, meta@);
            assert forall|j: int|
                #![trigger big_e[j]]
                0 <= j < n && big_e[j] is Some implies key_ok(big_e[j]->0, meta@) && is_link(next@[j]) by {
                lemma_pair_key_roundtrip(t[j], t[j + 1]);
                lemma_bytes_before_mono(t, meta@, j + 2, n as int);
                assert(bytes_before(t, meta@, j + 1) == bytes_before(t, meta@, j)
                    + meta@[t[j] as int].byte_len);
                assert(bytes_before(t, meta@, j + 2) == bytes_before(t, meta@, j)
                    + meta@[t[j] as int].byte_len + meta@[t[j + 1] as int].byte_len);
                lemma_bytes_before_mono(t, meta@, 0, j);
            }
        }
        // Pass 1: count the pairs.
        let mut pairs = PairTable::with_capacity(1048576);
        let ghost mut ek: Seq<Option<u32>> = Seq::new(n as nat, |j: int| None::<u32>);
        let mut i: usize = 1;
        while i < n
            invariant
                n == t.len(),
                t == tokens@,
                n <= MAX_CORPUS_BYTES,
                1 <= i,
                i <= n || n == 0,
                meta_ok(meta@),
                forall|j: int| 0 <= j < n ==> (#[trigger] t[j] as int) < meta@.len(),
                bytes_before(t, meta@, n as int) <= MAX_CORPUS_BYTES,
                next@ == initial_next(n as int),
                big_e == edges(t, next@, meta@),
                pairs.wf(),
                ek.len() == n,
                forall|j: int| 0 <= j < n ==> #[trigger] ek[j] == (if j < i - 1 {
                    big_e[j]
                } else {
                    None::<u32>
                }),
                forall|k: u32| #[trigger] pairs@.contains_key(k) <==> edge_count(ek, k) > 0,
                forall|k: u32|
                    #[trigger] pairs@.contains_key(k) ==> count_of(pairs@[k]) == edge_count(ek, k),
            decreases n - i,
        {
            let a = tokens[i - 1];
            let b = tokens[i];
            proof {
                lemma_bytes_before_mono(t, meta@, i + 1, n as int);
                lemma_bytes_before_mono(t, meta@, 0, i - 1);
                assert(bytes_before(t, meta@, i as int) == bytes_before(t, meta@, i - 1)
                    + meta@[a as int].byte_len);
                assert(bytes_before(t, meta@, i + 1) == bytes_before(t, meta@, i - 1)
                    + meta@[a as int].byte_len + meta@[b as int].byte_len);
                assert(big_e[i - 1] == edge_at(t, next@, meta@, i - 1));
                assert(next@[i - 1] == i as u32);
            }
            if TokenMeta::valid_fusion(meta[a as usize], meta[b as usize]) {
                let key = pair_key(a, b);
                if pairs.len() > MAX_PAIRS {
                    proof {
                        pairs.lemma_slots_cover();
                        lemma_keys_bound(ek, pairs@.dom());
                    }
                    return Err(VocabError::TooManyPairs);
                }
                let ghost ek2 = ek.update(i - 1, Some(key));
                proof {
                    lemma_pair_key_roundtrip(a, b);
                    lemma_count_update(ek, i - 1, Some(key));
                    assert(ek2.last() == ek2[n - 1]);
                    lemma_count_bound(ek2, key);
                    if !pairs@.contains_key(key) {
                        assert(edge_count(ek, key) == 0);
                    }
                    pairs.lemma_slots_cover();
                }
                let slot = pairs.get_or_insert(key);
                let count = slot.count() + 1;
                pairs.set_count_of(key, count);
                proof {
                    let p0 = pairs@;
                    assert forall|k: u32| #[trigger] pairs@.contains_key(k) <==> edge_count(ek2, k) > 0 by {
                    }
                    ek = ek2;
                }
            } else {
                proof {
                    assert(big_e[i - 1] == None::<u32>);
                }
            }
            i += 1;
        }
        proof {
            assert(ek =~= big_e) by {
                if n > 0 {
                    assert(big_e[n - 1] == None::<u32>);
                }
            }
        }
        // Pass 2: record where each pair is.
        let mut occ = OccurrenceStore::from_pairs(&pairs);
        proof {
            assert forall|k: u32| #[trigger] occ@.contains_key(k) <==> edge_count(big_e, k) > 0 by {
                if pairs@.contains_key(k) {
                    assert(count_of(pairs@[k]) == edge_count(big_e, k));
                }
            }
        }
        let mut i: usize = 1;
        while i < n
            invariant
                n == t.len(),
                t == tokens@,
                n <= MAX_CORPUS_BYTES,
                1 <= i,
                i <= n || n == 0,
                meta_ok(meta@),
                forall|j: int| 0 <= j < n ==> (#[trigger] t[j] as int) < meta@.len(),
                bytes_before(t, meta@, n as int) <= MAX_CORPUS_BYTES,
                next@ == initial_next(n as int),
                big_e == edges(t, next@, meta@),
                forall|j: int|
                    #![trigger big_e[j]]
                    0 <= j < i - 1 && j < n && big_e[j] is Some ==> occ@.contains_key(big_e[j]->0)
                        && occ@[big_e[j]->0].contains(j as u32),
                occ_bounded(occ@, n as int),
                occ.total() <= 268435456 * 2147483648 + i,
                i <= n + 1,
                occ.wf(),
                forall|k: u32| #[trigger] occ@.contains_key(k) <==> edge_count(big_e, k) > 0,
                forall|k: u32| #[trigger]
                    occ@.contains_key(k) ==> occ@[k] == positions_of(big_e, k, i - 1),
            decreases n - i,
        {
            let a = tokens[i - 1];
            let b = tokens[i];
            proof {
                lemma_bytes_before_mono(t, meta@, i + 1, n as int);
                lemma_bytes_before_mono(t, meta@, 0, i - 1);
                assert(bytes_before(t, meta@, i as int) == bytes_before(t, meta@, i - 1)
                    + meta@[a as int].byte_len);
                assert(bytes_before(t, meta@, i + 1) == bytes_before(t, meta@, i - 1)
                    + meta@[a as int].byte_len + meta@[b as int].byte_len);
                assert(big_e[i - 1] == edge_at(t, next@, meta@, i - 1));
                assert(next@[i - 1] == i as u32);
            }
            if TokenMeta::valid_fusion(meta[a as usize], meta[b as usize]) {
                let key = pair_key(a, b);
                let ghost o0 = occ@;
                match occ.append(key, (i - 1) as u32) {
                    Ok(()) => {},
                    Err(_) => {
                        return Err(VocabError::OccurrenceOverflow);
                    },
                }
                proof {
                    assert(big_e[i - 1] == Some(key));
                    assert(big_e.contains(Some(key)));
                    assert(o0.contains_key(key));
                    assert forall|k: u32| #[trigger]
                        occ@.contains_key(k) implies occ@[k] == positions_of(big_e, k, i as int) by {
                        assert(o0.contains_key(k));
                    }
                    assert forall|j: int|
                        #![trigger big_e[j]]
                        0 <= j < i && j < n && big_e[j] is Some implies occ@.contains_key(big_e[j]->0)
                            && occ@[big_e[j]->0].contains(j as u32) by {
                        if j == i - 1 {
                            let l = occ@[key];
                            assert(l[l.len() - 1] == (i - 1) as u32);
                        } else {
                            let k = big_e[j]->0;
                            assert(o0.contains_key(k) && o0[k].contains(j as u32));
                            if k == key {
                                let l0 = o0[k];
                                let q = choose|q: int| 0 <= q < l0.len() && l0[q] == j as u32;
                                assert(occ@[k][q] == j as u32);
                            }
                        }
                    }
                    assert forall|k: u32, q: int|
                        #![trigger occ@[k][q]]
                        occ@.contains_key(k) && 0 <= q < occ@[k].len() implies (occ@[k][q] as int) < n by {
                        if o0.contains_key(k) && q < o0[k].len() {
                            assert(occ@[k][q] == o0[k][q]);
                        }
                    }
                }
            } else {
                proof {
                    assert(big_e[i - 1] == None::<u32>);
                }
            }
            i += 1;
        }
        assert(occ.total() <= 268435456 * 2147483648 + n + 1);
        proof {
            if n > 0 {
                assert(big_e[n - 1] == None::<u32>);
            }
            assert(occ@ =~= initial_lists(big_e, n as int));
        }
        let mut index = PairIndex {
            pairs,
            prev,
            next,
            occ,
            heap: EntryHeap::new(),
            dirty: HashSet::new(),
            dirty_list: Vec::new(),
            ekey: Ghost(big_e),
            offs: Ghost(offs),
            popped: Ghost(None),
        };
        proof {
            assert(index.dirty_list@.to_set() =~= index.dirty@);
        }
        // The initial heap.
        let ghost index0 = index;
        let cap = index.pairs.capacity();
        proof {
            index.pairs.lemma_slots_cover();
        }
        let mut i: usize = 0;
        while i < cap
            invariant
                index.pairs.wf(),
                cap == index.pairs.cap(),
                index.pairs@.dom() == index0.pairs@.dom(),
                forall|k: u32| #[trigger]
                    index.pairs@.contains_key(k) ==> count_of(index.pairs@[k]) == count_of(
                        index0.pairs@[k],
                    ),
                index.heap.wf(),
                heap_entries_ok(index.heap@, meta@),
                forall|k: u32|
                    #[trigger] index.pairs@.contains_key(k) && count_of(index.pairs@[k]) >= 2
                        && index.pairs.position(k) < i ==> index.heap@.count(
                        entry_for(k, count_of(index.pairs@[k]), meta@),
                    ) > 0,
                forall|k: u32| #[trigger] index0.pairs@.contains_key(k) ==> key_ok(k, meta@),
                index.same_lists(index0),
                0 <= i <= cap,
            decreases cap - i,
        {
            proof {
                index.pairs.lemma_slots_cover();
            }
            let slot = index.pairs.slot_at(i);
            if slot.key != EMPTY_PAIR {
                let key = slot.key;
                let count = slot.count();
                if count >= 2 {
                    let ghost p0 = index.pairs;
                    index.pairs.set_queued_at(i, true);
                    proof {
                        assert(index0.pairs@.contains_key(key));
                        lemma_pair_ids_roundtrip(key);
                    }
                    let score = pair_score(key, count, meta);
                    let ghost h0 = index.heap@;
                    index.heap.push((score, key, count));
                    proof {
                        index.pairs.lemma_slots_cover();
                        p0.lemma_slots_cover();
                        assert forall|k: u32| #[trigger] index.pairs@.contains_key(k) implies count_of(
                            index.pairs@[k],
                        ) == count_of(index0.pairs@[k]) by {
                            assert(p0@.contains_key(k));
                        }
                        assert forall|x: Entry| #[trigger] index.heap@.count(x) > 0 implies ids_in(
                            x.1,
                            meta@,
                        ) && x == entry_for(x.1, x.2, meta@) by {
                            if x != (score, key, count) {
                                assert(h0.count(x) > 0);
                            }
                        }
                        assert forall|k: u32|
                            #[trigger] index.pairs@.contains_key(k) && count_of(index.pairs@[k]) >= 2
                                && index.pairs.position(k) < i + 1 implies index.heap@.count(
                                entry_for(k, count_of(index.pairs@[k]), meta@),
                            ) > 0 by {
                            assert(p0@.contains_key(k));
                            let q = p0.position(k);
                            assert(p0.slot_view(q).key == k);
                            assert(index.pairs.slot_view(q).key == k);
                            assert(index.pairs.position(k) == q);
                            if q < i {
                                assert(h0.count(entry_for(k, count_of(index.pairs@[k]), meta@)) > 0);
                            } else {
                                assert(index.pairs.slot_view(i as int).key == k);
                            }
                        }
                    }
                }
            }
            i += 1;
        }
        proof {
            index.pairs.lemma_slots_cover();
            assert(index.occ == index0.occ);
            let e = index.ekey@;
            assert forall|k: u32| #[trigger] index.pairs@.contains_key(k) <==> edge_count(e, k) > 0 by {
                assert(index0.pairs@.contains_key(k) == index.pairs@.contains_key(k));
            }
            assert forall|k: u32| #[trigger] index.pairs@.contains_key(k) implies count_of(
                index.pairs@[k],
            ) == edge_count(e, k) by {
                assert(index0.pairs@.contains_key(k));
            }
            assert forall|k: u32|
                #[trigger] index.pairs@.contains_key(k) && count_of(index.pairs@[k]) >= 2 implies index.dirty@.contains(
                k,
            ) || index.popped@ == Some(k) || index.heap@.count(
                entry_for(k, count_of(index.pairs@[k]), meta@),
            ) > 0 by {
            }
            assert forall|j: int|
                #![trigger e[j]]
                0 <= j < e.len() && e[j] is Some && e[j] != None::<u32> implies index.occ@.contains_key(
                e[j]->0,
            ) && index.occ@[e[j]->0].contains(j as u32) by {
                assert(big_e[j] == e[j]);
                if j == n - 1 {
                    assert(big_e[n - 1] == None::<u32>);
                }
            }
        }
        Ok(index)
    }
}

/// Bytes covered by the first `i` tokens.
pub open spec fn bytes_before(tokens: Seq<u16>, meta: Seq<TokenMeta>, i: int) -> int
    decreases i,
{
    if i <= 0 {
        0
    } else {
        bytes_before(tokens, meta, i - 1) + meta[tokens[i - 1] as int].byte_len
    }
}

/// Right links of a fresh list of `n` nodes.
pub open spec fn initial_next(n: int) -> Seq<u32> {
    Seq::new(n as nat, |i: int| if i + 1 < n { (i + 1) as u32 } else { NONE })
}

/// Left links of a fresh list of `n` nodes.
pub open spec fn initial_prev(n: int) -> Seq<u32> {
    Seq::new(n as nat, |i: int| if i > 0 { (i - 1) as u32 } else { NONE })
}

proof fn lemma_bytes_before_nonneg(tokens: Seq<u16>, meta: Seq<TokenMeta>, i: int)
    ensures
        0 <= bytes_before(tokens, meta, i),
    decreases i,
{
    if i > 0 {
        lemma_bytes_before_nonneg(tokens, meta, i - 1);
    }
}

proof fn lemma_bytes_before_mono(tokens: Seq<u16>, meta: Seq<TokenMeta>, i: int, j: int)
    requires
        0 <= i <= j,
    ensures
        0 <= bytes_before(tokens, meta, i) <= bytes_before(tokens, meta, j),
    decreases j - i,
{
    if i < j {
        lemma_bytes_before_mono(tokens, meta, i, j - 1);
    } else {
        lemma_bytes_before_nonneg(tokens, meta, i);
    }
}

proof fn lemma_initial_links(n: int)
    requires
        0 <= n <= MAX_CORPUS_BYTES,
    ensures
        links_ok(initial_prev(n), initial_next(n)),
{
    let prev = initial_prev(n);
    let next = initial_next(n);
    assert forall|i: int| #![trigger next[i]] 0 <= i < n implies (next[i] == REMOVED <==> prev[i]
        == REMOVED) by {
    }
    assert forall|i: int|
        #![trigger next[i]]
        0 <= i < n && is_link(next[i]) implies i < next[i] < n && prev[next[i] as int] == i by {
    }
    assert forall|i: int|
        #![trigger prev[i]]
        0 <= i < n && is_link(prev[i]) implies prev[i] < i && next[prev[i] as int] == i by {
    }
}

proof fn lemma_initial_spans(tokens: Seq<u16>, meta: Seq<TokenMeta>)
    requires
        tokens.len() <= MAX_CORPUS_BYTES,
        bytes_before(tokens, meta, tokens.len() as int) <= MAX_CORPUS_BYTES,
    ensures
        spans_ok(
            tokens,
            initial_next(tokens.len() as int),
            meta,
            Seq::new((tokens.len() + 1) as nat, |j: int| bytes_before(tokens, meta, j)),
        ),
{
    let n = tokens.len() as int;
    let next = initial_next(n);
    let offs = Seq::new((n + 1) as nat, |j: int| bytes_before(tokens, meta, j));
    lemma_bytes_before_mono(tokens, meta, 0, n);
    assert forall|i: int|
        #![trigger next[i]]
        0 <= i < n && next[i] != REMOVED implies 0 <= offs[i] && offs[succ(next, i)] <= offs[n]
            && meta[tokens[i] as int].byte_len == offs[succ(next, i)] - offs[i] by {
        assert(succ(next, i) == i + 1);
        lemma_bytes_before_mono(tokens, meta, 0, i);
        lemma_bytes_before_mono(tokens, meta, i + 1, n);
    }
}

/// A heap entry is current: its pair has, in `pairs`, the count it carries,
/// at least 2.
pub open spec fn live_entry(pairs: Map<u32, u32>, x: Entry) -> bool {
    pairs.contains_key(x.1) && count_of(pairs[x.1]) == x.2 && x.2 >= 2
}

proof fn lemma_stale_pop(h: Multiset<Entry>, cnt: Map<u32, u32>, e: Entry)
    requires
        h.count(e) > 0,
    ensures
        !live_entry(cnt, e) ==> h.remove(e).filter(|x: Entry| !live_entry(cnt, x)).len() + 1 == h.filter(
            |x: Entry| !live_entry(cnt, x),
        ).len(),
        live_entry(cnt, e) ==> h.remove(e).filter(|x: Entry| !live_entry(cnt, x)) == h.filter(
            |x: Entry| !live_entry(cnt, x),
        ),
{
    let f = |x: Entry| !live_entry(cnt, x);
    let a = h.remove(e).filter(f);
    let b = h.filter(f);
    if !live_entry(cnt, e) {
        assert(a =~= b.remove(e));
        assert(b.count(e) > 0);
        assert(b.remove(e) =~= b.sub(Multiset::singleton(e)));
        assert(Multiset::singleton(e).subset_of(b));
    } else {
        assert(a =~= b);
    }
}

proof fn lemma_filter_insert_live(h: Multiset<Entry>, cnt: Map<u32, u32>, x: Entry)
    requires
        live_entry(cnt, x),
    ensures
        h.insert(x).filter(|y: Entry| !live_entry(cnt, y)) == h.filter(|y: Entry| !live_entry(cnt, y)),
{
    let f = |y: Entry| !live_entry(cnt, y);
    assert(h.insert(x).filter(f) =~= h.filter(f));
}

/// Merging one more occurrence, at `c`, extends a round of merging.
proof fn lemma_merged_into_step(
    t0: Seq<u16>,
    next0: Seq<u32>,
    prev0: Seq<u32>,
    t: Seq<u16>,
    nx: Seq<u32>,
    a: u16,
    b: u16,
    new_id: u16,
    c: int,
)
    requires
        links_ok(prev0, next0),
        next0.len() == t0.len(),
        merged_into(t0, next0, prev0, t, nx, a, b, new_id),
        0 <= c < t.len(),
        a != new_id,
        b != new_id,
        t[c] == a,
        is_link(nx[c]),
        (nx[c] as int) < t.len(),
        t[nx[c] as int] == b,
        nx[nx[c] as int] != REMOVED,
    ensures
        merged_into(
            t0,
            next0,
            prev0,
            t.update(c, new_id),
            nx.update(c, nx[nx[c] as int]).update(nx[c] as int, REMOVED),
            a,
            b,
            new_id,
        ),
{
    let n = t0.len() as int;
    let r = nx[c] as int;
    let t1 = t.update(c, new_id);
    let nx1 = nx.update(c, nx[r]).update(r, REMOVED);
    assert(t[c] == t0[c]);
    assert(nx[c] == next0[c]) by {
        if nx[c] != next0[c] {
            assert(t[c] == t0[c]);
        }
    }
    assert(t[r] == t0[r]);
    assert(nx[r] == next0[r]) by {
        if nx[r] != next0[r] {
            assert(t[r] == t0[r]);
        }
    }
    assert(prev0[r] == c);
    assert forall|i: int|
        #![trigger t1[i]]
        0 <= i < n && t1[i] != t0[i] implies {
            &&& t0[i] == a
            &&& t1[i] == new_id
            &&& is_link(next0[i])
            &&& t0[next0[i] as int] == b
            &&& t1[next0[i] as int] == b
            &&& nx1[i] == next0[next0[i] as int]
            &&& nx1[next0[i] as int] == REMOVED
        } by {
        if i != c {
            assert(t[i] != t0[i]);
            let ri = next0[i] as int;
            assert(nx[ri] == REMOVED);
            assert(ri != c);
            assert(ri != r);
            assert(i != r);
        }
    }
    assert forall|i: int|
        #![trigger nx1[i]]
        0 <= i < n && t1[i] == t0[i] && nx1[i] != next0[i] implies {
            &&& nx1[i] == REMOVED
            &&& is_link(prev0[i])
            &&& t1[prev0[i] as int] != t0[prev0[i] as int]
            &&& next0[prev0[i] as int] == i
        } by {
        if i != r {
            assert(i != c);
            assert(t[i] == t0[i]);
            assert(nx[i] != next0[i]);
            if prev0[i] as int == c {
                assert(next0[c] == i);
            }
        }
    }
}

/// After a merge at `c` (with `r` removed), the counted pair keys are the
/// pairs of the new list, and none of them is the merged pair but where it
/// already was, away from `c`.
proof fn lemma_merge_edges(
    t0: Seq<u16>,
    t1: Seq<u16>,
    next0: Seq<u32>,
    next1: Seq<u32>,
    prev0: Seq<u32>,
    e0: Seq<Option<u32>>,
    e3: Seq<Option<u32>>,
    meta: Seq<TokenMeta>,
    key: u32,
    c: int,
    r: int,
    left: u32,
    after: u32,
    new_id: u16,
)
    requires
        links_ok(prev0, next0),
        t0.len() == next0.len(),
        0 <= c < t0.len(),
        next0[c] == r,
        is_link(next0[c]),
        prev0[c] == left,
        next0[r] == after,
        t1 == t0.update(c, new_id),
        next1 == next0.update(c, after).update(r, REMOVED),
        e0 == edges(t0, next0, meta),
        e3.len() == e0.len(),
        key == pair_key_spec(t0[c], t0[r]),
        new_id != t0[c],
        new_id != t0[r],
        e3[r] == None::<u32>,
        e3[c] == edge_at(t1, next1, meta, c),
        is_link(left) ==> e3[left as int] == edge_at(t1, next1, meta, left as int),
        forall|i: int|
            0 <= i < e3.len() && i != c && i != r && !(is_link(left) && i == left as int) ==> e3[i]
                == e0[i],
    ensures
        e3 == edges(t1, next1, meta),
        forall|i: int|
            #![trigger e3[i]]
            0 <= i < e3.len() && e3[i] == Some(key) ==> e0[i] == Some(key) && i != c,
{
    let n = t0.len() as int;
    assert(prev0[r] == c);
    assert forall|i: int| 0 <= i < n implies #[trigger] e3[i] == edge_at(t1, next1, meta, i) by {
        if i != c && i != r && !(is_link(left) && i == left as int) {
            assert(e3[i] == e0[i]);
            assert(e0[i] == edge_at(t0, next0, meta, i));
            assert(next1[i] == next0[i]);
            if is_link(next0[i]) {
                if next0[i] as int == c {
                    assert(prev0[c] == i);
                }
                assert(t1[next0[i] as int] == t0[next0[i] as int]);
            }
        }
    }
    assert(e3 =~= edges(t1, next1, meta));
    lemma_pair_key_roundtrip(t0[c], t0[r]);
    assert forall|i: int|
        #![trigger e3[i]]
        0 <= i < e3.len() && e3[i] == Some(key) implies e0[i] == Some(key) && i != c by {
        if i == c {
            if is_link(after) {
                lemma_pair_key_roundtrip(new_id, t1[after as int]);
            }
        } else if is_link(left) && i == left as int {
            assert(next1[i] == c);
            lemma_pair_key_roundtrip(t1[i], new_id);
        } else if i != r {
            assert(e3[i] == e0[i]);
        }
    }
}

} // verus!

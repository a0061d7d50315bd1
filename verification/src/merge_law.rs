//! What one round of pair merging does to the token sequence as it is read
//! along the links.
use vstd::prelude::*;
use crate::occurrences::REMOVED;
use crate::pair_index::{
    MAX_CORPUS_BYTES,
    edge_at,
    edge_count,
    edges,
    is_link,
    links_ok,
    merged_into,
    merges_at,
    scan_merge,
};
use crate::pairs::pair_key_spec;
use crate::token_meta::{TokenMeta, valid_fusion_spec};

verus! {

/// The tokens read from node `i` on, following the right links.
pub open spec fn live_from(t: Seq<u16>, nx: Seq<u32>, i: int) -> Seq<u16>
    decreases t.len() - i,
{
    if 0 <= i < t.len() {
        let j = nx[i] as int;
        if is_link(nx[i]) && i < j < t.len() {
            seq![t[i]] + live_from(t, nx, j)
        } else {
            seq![t[i]]
        }
    } else {
        Seq::empty()
    }
}

/// The token sequence of a list whose first node is node 0.
pub open spec fn live_tokens(t: Seq<u16>, nx: Seq<u32>) -> Seq<u16> {
    live_from(t, nx, 0)
}

/// `s1` is `s0` with some adjacent `a, b`, none of them overlapping,
/// replaced by `c`, and every other token kept.
pub open spec fn replaces_pairs(s0: Seq<u16>, s1: Seq<u16>, a: u16, b: u16, c: u16) -> bool
    decreases s0.len(),
{
    if s0.len() == 0 {
        s1.len() == 0
    } else if s1.len() == 0 {
        false
    } else if s1[0] == s0[0] {
        replaces_pairs(s0.skip(1), s1.skip(1), a, b, c)
    } else {
        &&& s0.len() >= 2
        &&& s0[0] == a
        &&& s0[1] == b
        &&& s1[0] == c
        &&& replaces_pairs(s0.skip(2), s1.skip(1), a, b, c)
    }
}

/// Both lists read the same way from node `i`, up to the merges.
proof fn lemma_merged_from(
    t0: Seq<u16>,
    nx0: Seq<u32>,
    pv0: Seq<u32>,
    t1: Seq<u16>,
    nx1: Seq<u32>,
    pv1: Seq<u32>,
    a: u16,
    b: u16,
    c: u16,
    i: int,
)
    requires
        links_ok(pv0, nx0),
        links_ok(pv1, nx1),
        nx0.len() == t0.len(),
        t0.len() <= MAX_CORPUS_BYTES,
        merged_into(t0, nx0, pv0, t1, nx1, a, b, c),
        c != a,
        0 <= i < t0.len(),
        nx0[i] != REMOVED,
        nx1[i] != REMOVED,
    ensures
        replaces_pairs(live_from(t0, nx0, i), live_from(t1, nx1, i), a, b, c),
    decreases t0.len() - i,
{
    let s0 = live_from(t0, nx0, i);
    let s1 = live_from(t1, nx1, i);
    if t1[i] != t0[i] {
        let r = nx0[i] as int;
        assert(i < r < t0.len());
        assert(pv0[r] == i as u32);
        assert(nx0[r] != REMOVED);
        let j = nx0[r];
        assert(nx1[i] == j);
        if is_link(j) {
            assert(r < j < t0.len());
            assert(pv0[j as int] == r as u32);
            assert(nx0[j as int] != REMOVED);
            assert(pv1[j as int] == i as u32);
            assert(nx1[j as int] != REMOVED);
            lemma_merged_from(t0, nx0, pv0, t1, nx1, pv1, a, b, c, j as int);
            let r0 = live_from(t0, nx0, j as int);
            let r1 = live_from(t1, nx1, j as int);
            assert(live_from(t0, nx0, r) == seq![b] + r0);
            assert(s0 == seq![a] + (seq![b] + r0));
            assert(s1 == seq![c] + r1);
            assert(s0.skip(2) =~= r0);
            assert(s1.skip(1) =~= r1);
            assert(s0[0] == a && s0[1] == b && s1[0] == c && s0.len() >= 2 && s1.len() >= 1);
            assert(replaces_pairs(s0, s1, a, b, c));
        } else {
            assert(live_from(t0, nx0, r) == seq![b]);
            assert(s0 == seq![a] + seq![b]);
            assert(s1 == seq![c]);
            assert(s0.skip(2) =~= Seq::<u16>::empty());
            assert(s1.skip(1) =~= Seq::<u16>::empty());
            assert(replaces_pairs(s0.skip(2), s1.skip(1), a, b, c));
            assert(replaces_pairs(s0, s1, a, b, c));
        }
    } else {
        assert(nx1[i] == nx0[i]);
        let j = nx0[i];
        if is_link(j) {
            assert(i < j < t0.len());
            assert(pv0[j as int] == i as u32);
            assert(nx0[j as int] != REMOVED);
            assert(pv1[j as int] == i as u32);
            assert(nx1[j as int] != REMOVED);
            lemma_merged_from(t0, nx0, pv0, t1, nx1, pv1, a, b, c, j as int);
            assert(s0.skip(1) =~= live_from(t0, nx0, j as int));
            assert(s1.skip(1) =~= live_from(t1, nx1, j as int));
            assert(s1[0] == s0[0]);
            assert(replaces_pairs(s0, s1, a, b, c));
        } else {
            assert(s0.skip(1) =~= Seq::<u16>::empty());
            assert(s1.skip(1) =~= Seq::<u16>::empty());
            assert(s1[0] == s0[0]);
            assert(replaces_pairs(s0.skip(1), s1.skip(1), a, b, c));
            assert(replaces_pairs(s0, s1, a, b, c));
        }
    }
}

/// Two tokens next to each other in the sequence read from node `i` are
/// a node and the node its right link names.
proof fn lemma_adjacent_nodes(t: Seq<u16>, nx: Seq<u32>, i: int, q: int) -> (node: int)
    requires
        0 <= q,
        q + 1 < live_from(t, nx, i).len(),
    ensures
        0 <= node < t.len(),
        is_link(nx[node]),
        node < nx[node] < t.len(),
        live_from(t, nx, i)[q] == t[node],
        live_from(t, nx, i)[q + 1] == t[nx[node] as int],
    decreases t.len() - i,
{
    let s = live_from(t, nx, i);
    assert(0 <= i < t.len());
    let j = nx[i] as int;
    assert(is_link(nx[i]) && i < j < t.len());
    if q == 0 {
        assert(live_from(t, nx, j)[0] == t[j]);
        assert(s[1] == live_from(t, nx, j)[0]);
        i
    } else {
        let node = lemma_adjacent_nodes(t, nx, j, q - 1);
        assert(s[q] == live_from(t, nx, j)[q - 1]);
        assert(s[q + 1] == live_from(t, nx, j)[q]);
        node
    }
}

/// Law: one round of merging the pair `(a, b)` into `new_id` (what
/// `PairIndex::merge_pair` reports through `merged_into` and a zero count)
/// leaves a token sequence, read along the links from the first node, that
/// is the sequence before with some non-overlapping adjacent `a, b`
/// replaced by `new_id`, and in which no `a` is followed by `b` any more.
pub proof fn lemma_merge_live_sequence(
    t0: Seq<u16>,
    nx0: Seq<u32>,
    pv0: Seq<u32>,
    t1: Seq<u16>,
    nx1: Seq<u32>,
    pv1: Seq<u32>,
    meta: Seq<TokenMeta>,
    a: u16,
    b: u16,
    new_id: u16,
)
    requires
        links_ok(pv0, nx0),
        links_ok(pv1, nx1),
        nx0.len() == t0.len(),
        0 < t0.len() <= MAX_CORPUS_BYTES,
        nx0[0] != REMOVED,
        merged_into(t0, nx0, pv0, t1, nx1, a, b, new_id),
        a != new_id,
        valid_fusion_spec(meta[a as int], meta[b as int]),
        edge_count(edges(t1, nx1, meta), pair_key_spec(a, b)) == 0,
    ensures
        replaces_pairs(live_tokens(t0, nx0), live_tokens(t1, nx1), a, b, new_id),
        forall|q: int|
            0 <= q < live_tokens(t1, nx1).len() - 1 ==> !(#[trigger] live_tokens(t1, nx1)[q] == a
                && live_tokens(t1, nx1)[q + 1] == b),
{
    broadcast use {vstd::seq_lib::group_to_multiset_ensures, vstd::multiset::group_multiset_properties};

    assert(nx1[0] != REMOVED) by {
        if nx1[0] == REMOVED {
            if t1[0] == t0[0] {
                assert(is_link(pv0[0]));
            }
        }
    }
    lemma_merged_from(t0, nx0, pv0, t1, nx1, pv1, a, b, new_id, 0);
    let s1 = live_tokens(t1, nx1);
    let e = edges(t1, nx1, meta);
    assert forall|q: int| 0 <= q < s1.len() - 1 implies !(#[trigger] s1[q] == a && s1[q + 1] == b) by {
        let node = lemma_adjacent_nodes(t1, nx1, 0, q);
        if s1[q] == a && s1[q + 1] == b {
            assert(e[node] == edge_at(t1, nx1, meta, node));
            assert(e[node] == Some(pair_key_spec(a, b)));
            assert(e.contains(Some(pair_key_spec(a, b))));
        }
    }
}

/// Whether a position still merges `(a, b)` in the list `t`/`nx`.
pub open spec fn merging(t: Seq<u16>, nx: Seq<u32>, a: u16, b: u16) -> spec_fn(u32) -> bool {
    |p: u32| merges_at(t, nx, a, b, p as int)
}

/// A node that merges after a merge at `p` already merged before it: the
/// merge only gives `p` the new token and removes its right neighbour.
proof fn lemma_merge_keeps_stale(t: Seq<u16>, nx: Seq<u32>, a: u16, b: u16, c: u16, p: int, q: int)
    requires
        nx.len() == t.len(),
        merges_at(t, nx, a, b, p),
        c != a,
        c != b,
        merges_at(
            t.update(p, c),
            nx.update(p, nx[nx[p] as int]).update(nx[p] as int, REMOVED),
            a,
            b,
            q,
        ),
    ensures
        merges_at(t, nx, a, b, q),
{
    let t1 = t.update(p, c);
    let r = nx[p] as int;
    let nx1 = nx.update(p, nx[r]).update(r, REMOVED);
    assert(q != p);
    assert(q != r);
    assert(nx1[q] == nx[q]);
    let w = nx[q] as int;
    assert(w != p);
    assert(t1[w] == t[w]);
}

/// Filtering by a weaker test first changes nothing.
proof fn lemma_filter_twice(l: Seq<u32>, f: spec_fn(u32) -> bool, g: spec_fn(u32) -> bool)
    requires
        forall|x: u32| #[trigger] g(x) ==> f(x),
    ensures
        l.filter(f).filter(g) == l.filter(g),
    decreases l.len(),
{
    reveal(Seq::filter);
    if l.len() > 0 {
        let dl = l.drop_last();
        lemma_filter_twice(dl, f, g);
        if f(l.last()) {
            assert(l.filter(f).drop_last() =~= dl.filter(f));
        }
    }
}

/// Law: a pass merging `(a, b)` into `c` depends only on the recorded
/// positions that still hold `a` followed by `b` when it starts: dropping
/// the others from the list, as compacting the lists does, changes nothing.
pub proof fn lemma_scan_ignores_stale(l: Seq<u32>, t: Seq<u16>, nx: Seq<u32>, a: u16, b: u16, c: u16)
    requires
        nx.len() == t.len(),
        c != a,
        c != b,
    ensures
        scan_merge(l, t, nx, a, b, c) == scan_merge(l.filter(merging(t, nx, a, b)), t, nx, a, b, c),
    decreases l.len(),
{
    reveal(Seq::filter);
    if l.len() > 0 {
        let p = l.last() as int;
        let dl = l.drop_last();
        let f = merging(t, nx, a, b);
        let fl = l.filter(f);
        let fdl = dl.filter(f);
        dl.lemma_filter_len(f);
        if merges_at(t, nx, a, b, p) {
            let r = nx[p] as int;
            let t1 = t.update(p, c);
            let nx1 = nx.update(p, nx[r]).update(r, REMOVED);
            let g = merging(t1, nx1, a, b);
            assert(fl == fdl.push(l.last()));
            assert(fl.drop_last() =~= fdl);
            assert(scan_merge(fl, t, nx, a, b, c) == scan_merge(fdl, t1, nx1, a, b, c));
            lemma_scan_ignores_stale(dl, t1, nx1, a, b, c);
            lemma_scan_ignores_stale(fdl, t1, nx1, a, b, c);
            assert forall|x: u32| #[trigger] g(x) implies f(x) by {
                lemma_merge_keeps_stale(t, nx, a, b, c, p, x as int);
            }
            lemma_filter_twice(dl, f, g);
        } else {
            assert(fl == fdl);
            lemma_scan_ignores_stale(dl, t, nx, a, b, c);
        }
    }
}

} // verus!

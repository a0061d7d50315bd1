//! Byte trie over the raw bytes of a vocabulary, and greedy longest-match
//! tokenization with a per-byte fallback block.
use vstd::prelude::*;
use vstd::string::StringSliceAdditionalSpecFns;
use crate::byte_token::{self, append_token_bytes, spelled, token_bytes};

verus! {

/// Marks a trie node that ends no vocabulary entry.
pub const NONE: u32 = 4294967295u32;

// ------------------------------------------------------------------
// Specification: dictionary and greedy tokenization
// ------------------------------------------------------------------

/// The UTF-8 spellings of a vocabulary.
pub open spec fn spellings(vocab: Seq<String>) -> Seq<Seq<u8>> {
    vocab.map_values(|s: String| spelled(s@))
}

/// The dictionary that the first `n` vocabulary spellings define: the raw
/// bytes of each non-empty entry map to its id; a later entry with the same
/// bytes takes the place of an earlier one.
pub open spec fn vocab_dict(sp: Seq<Seq<u8>>, n: int) -> Map<Seq<u8>, u32>
    decreases n,
{
    if n <= 0 {
        Map::empty()
    } else {
        let prev = vocab_dict(sp, n - 1);
        let w = token_bytes(sp[n - 1]);
        if w.len() > 0 {
            prev.insert(w, (n - 1) as u32)
        } else {
            prev
        }
    }
}

/// Sum of the raw byte lengths of the first `n` entries.
pub open spec fn total_token_bytes(sp: Seq<Seq<u8>>, n: int) -> int
    decreases n,
{
    if n <= 0 {
        0
    } else {
        total_token_bytes(sp, n - 1) + token_bytes(sp[n - 1]).len()
    }
}

/// The longest raw byte length among the first `n` entries, and at least 1.
pub open spec fn max_token_len(sp: Seq<Seq<u8>>, n: int) -> int
    decreases n,
{
    if n <= 0 {
        1
    } else {
        let prev = max_token_len(sp, n - 1);
        let l = token_bytes(sp[n - 1]).len() as int;
        if l > prev {
            l
        } else {
            prev
        }
    }
}

/// The largest `k <= n`, `k >= 1`, such that `b[pos..pos + k]` is in the
/// dictionary; 0 when there is none.
pub open spec fn longest_in(dict: Map<Seq<u8>, u32>, b: Seq<u8>, pos: int, n: int) -> int
    decreases n,
{
    if n <= 0 {
        0
    } else if dict.contains_key(b.subrange(pos, pos + n)) {
        n
    } else {
        longest_in(dict, b, pos, n - 1)
    }
}

/// Length of the longest dictionary entry that `b` has at `pos` (0 if none).
pub open spec fn match_len(dict: Map<Seq<u8>, u32>, b: Seq<u8>, pos: int) -> int {
    longest_in(dict, b, pos, b.len() - pos)
}

/// The id that greedy tokenization emits at `pos`, and how many bytes it takes.
pub open spec fn step_at(dict: Map<Seq<u8>, u32>, base: u32, b: Seq<u8>, pos: int) -> (u32, int) {
    let k = match_len(dict, b, pos);
    if k == 0 {
        ((base + b[pos]) as u32, 1)
    } else {
        (dict[b.subrange(pos, pos + k)], k)
    }
}

/// Greedy longest-match tokenization of `b` from `pos` on; a byte that starts
/// no dictionary entry becomes `base + byte`.
pub open spec fn tokenize_from(dict: Map<Seq<u8>, u32>, base: u32, b: Seq<u8>, pos: int) -> Seq<u32>
    decreases b.len() - pos,
{
    if pos < 0 || pos >= b.len() {
        Seq::empty()
    } else {
        let (id, k) = step_at(dict, base, b, pos);
        if k <= 0 || pos + k > b.len() {
            Seq::empty()
        } else {
            seq![id] + tokenize_from(dict, base, b, pos + k)
        }
    }
}

/// Greedy longest-match tokenization of all of `b`.
pub open spec fn tokenize_spec(dict: Map<Seq<u8>, u32>, base: u32, b: Seq<u8>) -> Seq<u32> {
    tokenize_from(dict, base, b, 0)
}

/// Some dictionary entry is strictly longer than `s` and starts with it.
pub open spec fn has_extension(dict: Map<Seq<u8>, u32>, s: Seq<u8>) -> bool {
    exists|k: Seq<u8>|
        #![trigger dict.contains_key(k)]
        dict.contains_key(k) && k.len() > s.len() && k.subrange(0, s.len() as int) == s
}

/// `p` is a prefix of some dictionary entry.
pub open spec fn prefix_of_entry(dict: Map<Seq<u8>, u32>, p: Seq<u8>) -> bool {
    exists|k: Seq<u8>|
        #![trigger dict.contains_key(k)]
        dict.contains_key(k) && k.len() >= p.len() && k.subrange(0, p.len() as int) == p
}

pub proof fn lemma_longest_in_bounds(dict: Map<Seq<u8>, u32>, b: Seq<u8>, pos: int, n: int)
    ensures
        0 <= longest_in(dict, b, pos, n),
        n >= 0 ==> longest_in(dict, b, pos, n) <= n,
        longest_in(dict, b, pos, n) > 0 ==> dict.contains_key(
            b.subrange(pos, pos + longest_in(dict, b, pos, n)),
        ),
    decreases n,
{
    if n > 0 {
        lemma_longest_in_bounds(dict, b, pos, n - 1);
    }
}

/// If no length in `(a, m]` matches, the longest match up to `m` is the one up to `a`.
pub proof fn lemma_longest_in_stable(dict: Map<Seq<u8>, u32>, b: Seq<u8>, pos: int, a: int, m: int)
    requires
        0 <= a <= m,
        forall|k: int| a < k <= m ==> !dict.contains_key(#[trigger] b.subrange(pos, pos + k)),
    ensures
        longest_in(dict, b, pos, m) == longest_in(dict, b, pos, a),
    decreases m,
{
    if m > a {
        assert(!dict.contains_key(b.subrange(pos, pos + m)));
        lemma_longest_in_stable(dict, b, pos, a, m - 1);
    }
}

/// The longest match only looks at the bytes it could cover.
pub proof fn lemma_longest_in_local(
    dict: Map<Seq<u8>, u32>,
    b1: Seq<u8>,
    p1: int,
    b2: Seq<u8>,
    p2: int,
    n: int,
)
    requires
        forall|k: int| 0 < k <= n ==> #[trigger] b1.subrange(p1, p1 + k) == b2.subrange(p2, p2 + k),
    ensures
        longest_in(dict, b1, p1, n) == longest_in(dict, b2, p2, n),
    decreases n,
{
    if n > 0 {
        assert(b1.subrange(p1, p1 + n) == b2.subrange(p2, p2 + n));
        lemma_longest_in_local(dict, b1, p1, b2, p2, n - 1);
    }
}

proof fn lemma_no_longer_entry_core(
    index_of: Map<Seq<u8>, int>,
    dict: Map<Seq<u8>, u32>,
    b: Seq<u8>,
    pos: int,
    j: int,
)
    requires
        forall|p: Seq<u8>| #[trigger] dict.contains_key(p) ==> index_of.contains_key(p),
        forall|p: Seq<u8>, l: int|
            #![trigger index_of.contains_key(p), p.subrange(0, l)]
            index_of.contains_key(p) && 0 <= l <= p.len() ==> index_of.contains_key(p.subrange(0, l)),
        0 <= pos <= j < b.len(),
        !index_of.contains_key(b.subrange(pos, j + 1)),
    ensures
        forall|k: int|
            j - pos < k <= b.len() - pos ==> !dict.contains_key(#[trigger] b.subrange(pos, pos + k)),
        !has_extension(dict, b.subrange(pos, b.len() as int)),
{
    assert forall|k: int| j - pos < k <= b.len() - pos implies !dict.contains_key(
        #[trigger] b.subrange(pos, pos + k),
    ) by {
        let s = b.subrange(pos, pos + k);
        if dict.contains_key(s) {
            assert(index_of.contains_key(s));
            assert(index_of.contains_key(s.subrange(0, j + 1 - pos)));
            assert(s.subrange(0, j + 1 - pos) =~= b.subrange(pos, j + 1));
        }
    }
    let s = b.subrange(pos, b.len() as int);
    if has_extension(dict, s) {
        let k = choose|k: Seq<u8>|
            #![trigger dict.contains_key(k)]
            dict.contains_key(k) && k.len() > s.len() && k.subrange(0, s.len() as int) == s;
        assert(index_of.contains_key(k));
        assert(index_of.contains_key(k.subrange(0, j + 1 - pos)));
        assert(k.subrange(0, j + 1 - pos) =~= s.subrange(0, j + 1 - pos));
        assert(s.subrange(0, j + 1 - pos) =~= b.subrange(pos, j + 1));
    }
}


#[verifier::opaque]
/// The nodes, their paths and the path index agree: paths and nodes are in
/// one-to-one correspondence, the set of paths is prefix-closed, and each
/// node's edges are exactly the one-byte extensions of its path.
spec fn shape_ok(nodes: Seq<TrieNode>, paths: Seq<Seq<u8>>, index_of: Map<Seq<u8>, int>) -> bool {
    let n = nodes.len();
    &&& 1 <= n <= 4294967295
    &&& paths.len() == n
    &&& paths[0] == Seq::<u8>::empty()
    &&& forall|i: int|
        0 <= i < n ==> #[trigger] index_of.contains_key(paths[i]) && index_of[paths[i]] == i
    &&& forall|p: Seq<u8>|
        #[trigger] index_of.contains_key(p) ==> 0 <= index_of[p] < n && paths[index_of[p]] == p
    &&& forall|p: Seq<u8>, l: int|
        #![trigger index_of.contains_key(p), p.subrange(0, l)]
        index_of.contains_key(p) && 0 <= l <= p.len() ==> index_of.contains_key(p.subrange(0, l))
    &&& forall|i: int, k: int|
        #![trigger nodes[i].children@[k]]
        0 <= i < n && 0 <= k < nodes[i].children@.len() ==> {
            let e = nodes[i].children@[k];
            &&& index_of.contains_key(paths[i].push(e.0))
            &&& e.1 as int == index_of[paths[i].push(e.0)]
        }
    &&& forall|i: int, c: u8|
        0 <= i < n && #[trigger] index_of.contains_key(paths[i].push(c)) ==> exists|k: int|
            0 <= k < nodes[i].children@.len() && (#[trigger] nodes[i].children@[k]).0 == c
}

#[verifier::opaque]
/// A node carries an id exactly when its path is a dictionary entry, and
/// then the entry's id.
spec fn ids_ok(
    nodes: Seq<TrieNode>,
    paths: Seq<Seq<u8>>,
    index_of: Map<Seq<u8>, int>,
    dict: Map<Seq<u8>, u32>,
) -> bool {
    &&& forall|i: int|
        0 <= i < nodes.len() ==> ((#[trigger] nodes[i]).id != NONE <==> dict.contains_key(paths[i]))
            && (dict.contains_key(paths[i]) ==> dict[paths[i]] == nodes[i].id)
    &&& forall|p: Seq<u8>| #[trigger] dict.contains_key(p) ==> index_of.contains_key(p)
}

proof fn lemma_shape_root(nodes: Seq<TrieNode>, paths: Seq<Seq<u8>>, index_of: Map<Seq<u8>, int>)
    requires
        shape_ok(nodes, paths, index_of),
    ensures
        1 <= nodes.len() <= 4294967295,
        paths.len() == nodes.len(),
        paths[0] == Seq::<u8>::empty(),
        index_of.contains_key(paths[0]),
        index_of[paths[0]] == 0,
{
    reveal(shape_ok);
    assert(index_of.contains_key(paths[0]));
}

proof fn lemma_shape_index(
    nodes: Seq<TrieNode>,
    paths: Seq<Seq<u8>>,
    index_of: Map<Seq<u8>, int>,
    p: Seq<u8>,
)
    requires
        shape_ok(nodes, paths, index_of),
        index_of.contains_key(p),
    ensures
        0 <= index_of[p] < nodes.len(),
        paths[index_of[p]] == p,
{
    reveal(shape_ok);
}

proof fn lemma_ids_node(
    nodes: Seq<TrieNode>,
    paths: Seq<Seq<u8>>,
    index_of: Map<Seq<u8>, int>,
    dict: Map<Seq<u8>, u32>,
    i: int,
)
    requires
        ids_ok(nodes, paths, index_of, dict),
        0 <= i < nodes.len(),
    ensures
        nodes[i].id != NONE <==> dict.contains_key(paths[i]),
        dict.contains_key(paths[i]) ==> dict[paths[i]] == nodes[i].id,
{
    reveal(ids_ok);
    assert(nodes[i].id == nodes[i].id);
}

/// Changing ids only keeps the shape.
proof fn lemma_shape_same_children(
    nodes: Seq<TrieNode>,
    nodes2: Seq<TrieNode>,
    paths: Seq<Seq<u8>>,
    index_of: Map<Seq<u8>, int>,
)
    requires
        shape_ok(nodes, paths, index_of),
        nodes2.len() == nodes.len(),
        forall|i: int| 0 <= i < nodes.len() ==> #[trigger] nodes2[i].children == nodes[i].children,
    ensures
        shape_ok(nodes2, paths, index_of),
{
    reveal(shape_ok);
    assert forall|i: int, k: int|
        #![trigger nodes2[i].children@[k]]
        0 <= i < nodes2.len() && 0 <= k < nodes2[i].children@.len() implies {
            let e = nodes2[i].children@[k];
            &&& index_of.contains_key(paths[i].push(e.0))
            &&& e.1 as int == index_of[paths[i].push(e.0)]
        } by {
        assert(nodes2[i].children == nodes[i].children);
        assert(nodes2[i].children@[k] == nodes[i].children@[k]);
    }
    assert forall|i: int, c: u8|
        0 <= i < nodes2.len() && #[trigger] index_of.contains_key(paths[i].push(c)) implies exists|
            k: int,
        | 0 <= k < nodes2[i].children@.len() && (#[trigger] nodes2[i].children@[k]).0 == c by {
        assert(nodes2[i].children == nodes[i].children);
        let k = choose|k: int|
            0 <= k < nodes[i].children@.len() && (#[trigger] nodes[i].children@[k]).0 == c;
        assert(nodes2[i].children@[k] == nodes[i].children@[k]);
    }
}

/// Giving the node of `w` the id `id` records `w -> id`.
proof fn lemma_set_id(
    nodes: Seq<TrieNode>,
    nodes2: Seq<TrieNode>,
    paths: Seq<Seq<u8>>,
    index_of: Map<Seq<u8>, int>,
    dict: Map<Seq<u8>, u32>,
    cur: int,
    w: Seq<u8>,
    id: u32,
)
    requires
        shape_ok(nodes, paths, index_of),
        ids_ok(nodes, paths, index_of, dict),
        0 <= cur < nodes.len(),
        paths[cur] == w,
        id != NONE,
        nodes2.len() == nodes.len(),
        nodes2[cur].id == id,
        forall|i: int| 0 <= i < nodes.len() && i != cur ==> #[trigger] nodes2[i] == nodes[i],
    ensures
        ids_ok(nodes2, paths, index_of, dict.insert(w, id)),
{
    reveal(shape_ok);
    reveal(ids_ok);
    let d2 = dict.insert(w, id);
    assert forall|i: int| 0 <= i < nodes2.len() implies ((#[trigger] nodes2[i]).id != NONE
        <==> d2.contains_key(paths[i])) && (d2.contains_key(paths[i]) ==> d2[paths[i]]
        == nodes2[i].id) by {
        if i != cur {
            assert(index_of.contains_key(paths[i]));
            assert(index_of[paths[i]] == i);
            assert(index_of.contains_key(paths[cur]));
            assert(paths[i] != w);
            assert(nodes2[i] == nodes[i]);
        }
    }
    assert forall|p: Seq<u8>| #[trigger] d2.contains_key(p) implies index_of.contains_key(p) by {
        if p == w {
            assert(index_of.contains_key(paths[cur]));
        }
    }
}

pub proof fn lemma_total_bytes_monotone(sp: Seq<Seq<u8>>, a: int, b: int)
    requires
        0 <= a <= b,
    ensures
        total_token_bytes(sp, a) <= total_token_bytes(sp, b),
    decreases b,
{
    if b > a {
        lemma_total_bytes_monotone(sp, a, b - 1);
    }
}

/// Adding the node for `paths[cur].push(byte)` keeps the shape invariants.
proof fn lemma_insert_node_shape(
    old_nodes: Seq<TrieNode>,
    old_paths: Seq<Seq<u8>>,
    old_index: Map<Seq<u8>, int>,
    nodes: Seq<TrieNode>,
    paths: Seq<Seq<u8>>,
    index_of: Map<Seq<u8>, int>,
    cur: int,
    byte: u8,
    dict: Map<Seq<u8>, u32>,
)
    requires
        shape_ok(old_nodes, old_paths, old_index),
        ids_ok(old_nodes, old_paths, old_index, dict),
        old_nodes.len() + 1 <= 4294967295,
        0 <= cur < old_nodes.len(),
        !old_index.contains_key(old_paths[cur].push(byte)),
        nodes.len() == old_nodes.len() + 1,
        forall|i: int| 0 <= i < old_nodes.len() && i != cur ==> nodes[i] == old_nodes[i],
        nodes[cur].id == old_nodes[cur].id,
        nodes[cur].children@ == old_nodes[cur].children@.push((byte, old_nodes.len() as u32)),
        nodes[old_nodes.len() as int].id == NONE,
        nodes[old_nodes.len() as int].children@.len() == 0,
        paths == old_paths.push(old_paths[cur].push(byte)),
        index_of == old_index.insert(old_paths[cur].push(byte), old_nodes.len() as int),
    ensures
        shape_ok(nodes, paths, index_of),
        ids_ok(nodes, paths, index_of, dict),
{
    reveal(shape_ok);
    reveal(ids_ok);
    let q = old_paths[cur].push(byte);
    let n0 = old_nodes.len() as int;
    assert forall|i: int| 0 <= i < nodes.len() implies #[trigger] index_of.contains_key(paths[i])
        && index_of[paths[i]] == i by {
        if i < n0 {
            assert(old_index.contains_key(old_paths[i]));
        }
    }
    assert forall|p: Seq<u8>| #[trigger] index_of.contains_key(p) implies 0 <= index_of[p] < nodes.len()
        && paths[index_of[p]] == p by {
        if p != q {
            assert(old_index.contains_key(p));
        }
    }
    assert forall|p: Seq<u8>, l: int|
        #![trigger index_of.contains_key(p), p.subrange(0, l)]
        index_of.contains_key(p) && 0 <= l <= p.len() implies index_of.contains_key(p.subrange(0, l)) by {
        if p == q {
            if l < q.len() {
                assert(old_index.contains_key(old_paths[cur]));
                assert(old_index.contains_key(old_paths[cur].subrange(0, l)));
                assert(q.subrange(0, l) =~= old_paths[cur].subrange(0, l));
            } else {
                assert(q.subrange(0, l) =~= q);
            }
        } else {
            assert(old_index.contains_key(p));
            assert(old_index.contains_key(p.subrange(0, l)));
        }
    }
    assert forall|i: int, k: int|
        #![trigger nodes[i].children@[k]]
        0 <= i < nodes.len() && 0 <= k < nodes[i].children@.len() implies {
            let e = nodes[i].children@[k];
            &&& index_of.contains_key(paths[i].push(e.0))
            &&& e.1 as int == index_of[paths[i].push(e.0)]
        } by {
        if i == cur {
            if k < old_nodes[cur].children@.len() {
                assert(nodes[i].children@[k] == old_nodes[cur].children@[k]);
                assert(old_index.contains_key(old_paths[i].push(old_nodes[cur].children@[k].0)));
            }
        } else if i < n0 {
            assert(nodes[i].children@[k] == old_nodes[i].children@[k]);
            assert(old_index.contains_key(old_paths[i].push(old_nodes[i].children@[k].0)));
        }
    }
    assert forall|i: int, c: u8|
        0 <= i < nodes.len() && #[trigger] index_of.contains_key(paths[i].push(c)) implies exists|
            k: int,
        | 0 <= k < nodes[i].children@.len() && (#[trigger] nodes[i].children@[k]).0 == c by {
        let t = paths[i].push(c);
        if t == q {
            assert(t.subrange(0, t.len() - 1) =~= paths[i]);
            assert(q.subrange(0, q.len() - 1) =~= old_paths[cur]);
            assert(old_index.contains_key(old_paths[cur]));
            if i < n0 {
                assert(old_index.contains_key(old_paths[i]));
                assert(i == cur);
            } else {
                assert(paths[i] == q);
                assert(q.len() == old_paths[cur].len() + 1);
            }
            let k = old_nodes[cur].children@.len() as int;
            assert(t[t.len() - 1] == c);
            assert(q[q.len() - 1] == byte);
            assert(nodes[cur].children@[k] == (byte, n0 as u32));
            assert(nodes[i].children@[k].0 == c);
        } else if i == n0 {
            assert(old_index.contains_key(t));
            assert(old_index.contains_key(t.subrange(0, q.len() as int)));
            assert(t.subrange(0, q.len() as int) =~= q);
        } else {
            assert(old_index.contains_key(t));
            let k = choose|k: int|
                0 <= k < old_nodes[i].children@.len() && (#[trigger] old_nodes[i].children@[k]).0 == c;
            assert(nodes[i].children@[k] == old_nodes[i].children@[k]);
        }
    }
    assert forall|i: int|
        0 <= i < nodes.len() implies ((#[trigger] nodes[i]).id != NONE <==> dict.contains_key(paths[i]))
        && (dict.contains_key(paths[i]) ==> dict[paths[i]] == nodes[i].id) by {
        if i == n0 {
            assert(!dict.contains_key(q));
        } else {
            assert(old_nodes[i].id == nodes[i].id);
        }
    }
}

/// The greedy step at `i` depends only on the bytes from `i` on.
pub proof fn lemma_step_shift(dict: Map<Seq<u8>, u32>, base: u32, x: Seq<u8>, i: int)
    requires
        0 <= i < x.len(),
    ensures
        step_at(dict, base, x, i) == step_at(dict, base, x.subrange(i, x.len() as int), 0),
{
    let y = x.subrange(i, x.len() as int);
    assert forall|k: int| 0 < k <= x.len() - i implies #[trigger] x.subrange(i, i + k) == y.subrange(
        0,
        0 + k,
    ) by {
        assert(x.subrange(i, i + k) =~= y.subrange(0, 0 + k));
    }
    lemma_longest_in_local(dict, x, i, y, 0, x.len() - i);
    let k = match_len(dict, x, i);
    lemma_longest_in_bounds(dict, x, i, x.len() - i);
    if k > 0 {
        assert(x.subrange(i, i + k) == y.subrange(0, 0 + k));
    }
}

/// Greedy tokenization from `i` is greedy tokenization of the suffix at `i`.
pub proof fn lemma_tokenize_shift(dict: Map<Seq<u8>, u32>, base: u32, x: Seq<u8>, i: int)
    requires
        0 <= i <= x.len(),
    ensures
        tokenize_from(dict, base, x, i) == tokenize_spec(dict, base, x.subrange(i, x.len() as int)),
    decreases x.len() - i,
{
    let y = x.subrange(i, x.len() as int);
    if i < x.len() {
        lemma_step_shift(dict, base, x, i);
        let (id, k) = step_at(dict, base, x, i);
        lemma_longest_in_bounds(dict, x, i, x.len() - i);
        lemma_tokenize_shift(dict, base, x, i + k);
        lemma_tokenize_shift(dict, base, y, k);
        assert(y.subrange(k, y.len() as int) =~= x.subrange(i + k, x.len() as int));
    } else {
        assert(y.len() == 0);
    }
}

/// A greedy step at `pos` that did not reach the end of `x` with room to
/// grow is the same step whatever bytes follow `x`.
pub proof fn lemma_committed_step(dict: Map<Seq<u8>, u32>, base: u32, x: Seq<u8>, e: Seq<u8>, pos: int)
    requires
        0 <= pos < x.len(),
        !has_extension(dict, x.subrange(pos, x.len() as int)),
    ensures
        step_at(dict, base, x + e, pos) == step_at(dict, base, x, pos),
        tokenize_from(dict, base, x + e, pos) == seq![step_at(dict, base, x, pos).0]
            + tokenize_from(dict, base, x + e, pos + step_at(dict, base, x, pos).1),
        1 <= step_at(dict, base, x, pos).1 <= x.len() - pos,
{
    let xe = x + e;
    let l = x.len() as int;
    assert forall|m: int| l - pos < m <= xe.len() - pos implies !dict.contains_key(
        #[trigger] xe.subrange(pos, pos + m),
    ) by {
        let k = xe.subrange(pos, pos + m);
        if dict.contains_key(k) {
            assert(k.subrange(0, l - pos) =~= x.subrange(pos, l));
            assert(has_extension(dict, x.subrange(pos, l)));
        }
    }
    lemma_longest_in_stable(dict, xe, pos, l - pos, xe.len() - pos);
    assert forall|k: int| 0 < k <= l - pos implies #[trigger] xe.subrange(pos, pos + k) == x.subrange(
        pos,
        pos + k,
    ) by {
        assert(xe.subrange(pos, pos + k) =~= x.subrange(pos, pos + k));
    }
    lemma_longest_in_local(dict, xe, pos, x, pos, l - pos);
    lemma_longest_in_bounds(dict, x, pos, l - pos);
    lemma_longest_in_bounds(dict, xe, pos, xe.len() - pos);
    let k = match_len(dict, x, pos);
    if k > 0 {
        assert(xe.subrange(pos, pos + k) == x.subrange(pos, pos + k));
    }
    assert(xe[pos] == x[pos]);
}

// ------------------------------------------------------------------
// The trie
// ------------------------------------------------------------------

/// One trie node: its outgoing edges by byte, and the id of the vocabulary
/// entry whose raw bytes end here (`NONE` if none does).
pub struct TrieNode {
    children: Vec<(u8, u32)>,
    id: u32,
}

/// A trie over the raw bytes of a vocabulary.
pub struct Trie {
    nodes: Vec<TrieNode>,
    byte_fallback_base: u32,
    max_token_bytes: usize,
    paths: Ghost<Seq<Seq<u8>>>,
    index_of: Ghost<Map<Seq<u8>, int>>,
    dict: Ghost<Map<Seq<u8>, u32>>,
}

impl Trie {
    /// Raw bytes -> id of the vocabulary entry that the trie resolves them to.
    pub closed spec fn dict(&self) -> Map<Seq<u8>, u32> {
        self.dict@
    }

    /// First id of the 256-entry byte fallback block.
    pub closed spec fn base(&self) -> u32 {
        self.byte_fallback_base
    }

    /// Longest raw byte length of a vocabulary entry, at least 1.
    pub closed spec fn max_len(&self) -> int {
        self.max_token_bytes as int
    }

    spec fn is_path(&self, p: Seq<u8>) -> bool {
        self.index_of@.contains_key(p)
    }

    spec fn wf_shape(&self) -> bool {
        shape_ok(self.nodes@, self.paths@, self.index_of@)
    }

    spec fn wf_ids(&self) -> bool {
        &&& forall|p: Seq<u8>|
            #[trigger] self.dict@.contains_key(p) ==> self.index_of@.contains_key(p) && p.len() > 0
                && p.len() <= self.max_token_bytes && self.dict@[p] != NONE
        &&& ids_ok(self.nodes@, self.paths@, self.index_of@, self.dict@)
        &&& self.max_token_bytes >= 1
        &&& self.byte_fallback_base <= 4294967295 - 256
    }

    spec fn wf_cover(&self) -> bool {
        forall|p: Seq<u8>|
            #[trigger] self.index_of@.contains_key(p) ==> p.len() == 0 || prefix_of_entry(
                self.dict@,
                p,
            )
    }

    /// The trie is well formed and `dict()` is what it resolves.
    pub closed spec fn wf(&self) -> bool {
        self.wf_shape() && self.wf_ids() && self.wf_cover()
    }

    pub proof fn lemma_wf_facts(&self)
        requires
            self.wf(),
        ensures
            self.max_len() >= 1,
            self.base() <= 4294967295 - 256,
            forall|p: Seq<u8>|
                #[trigger] self.dict().contains_key(p) ==> p.len() <= self.max_len() && p.len() > 0
                    && self.dict()[p] != NONE,
    {
    }

    /// Longest raw byte length of an entry.
    pub fn max_token_bytes_of(&self) -> (r: usize)
        ensures
            r == self.max_len(),
    {
        self.max_token_bytes
    }

    /// First id of the byte fallback block.
    pub fn byte_fallback_base_of(&self) -> (r: u32)
        ensures
            r == self.base(),
    {
        self.byte_fallback_base
    }

    /// An empty trie with the given fallback block.
    fn empty(byte_fallback_base: u32) -> (t: Trie)
        requires
            byte_fallback_base <= 4294967295 - 256,
        ensures
            t.wf(),
            t.dict() == Map::<Seq<u8>, u32>::empty(),
            t.base() == byte_fallback_base,
            t.max_len() == 1,
            t.nodes@.len() == 1,
    {
        let mut nodes = Vec::new();
        nodes.push(TrieNode { children: Vec::new(), id: NONE });
        let ghost paths = seq![Seq::<u8>::empty()];
        let ghost index_of = Map::<Seq<u8>, int>::empty().insert(Seq::<u8>::empty(), 0);
        let ghost dict = Map::<Seq<u8>, u32>::empty();
        let t = Trie {
            nodes,
            byte_fallback_base,
            max_token_bytes: 1,
            paths: Ghost(paths),
            index_of: Ghost(index_of),
            dict: Ghost(dict),
        };
        reveal(shape_ok);
        reveal(ids_ok);
        assert forall|p: Seq<u8>, l: int|
            t.index_of@.contains_key(p) && 0 <= l <= p.len() implies t.index_of@.contains_key(
            p.subrange(0, l),
        ) by {
            assert(p.subrange(0, l) =~= Seq::<u8>::empty());
        }
        assert forall|i: int, c: u8|
            0 <= i < 1 && #[trigger] t.index_of@.contains_key(t.paths@[i].push(c)) implies false by {
            assert(t.paths@[i].push(c).len() == 1);
        }
        t
    }

    /// Node reached from `node` by `byte`, if any.
    fn child(&self, node: u32, byte: u8) -> (r: Option<u32>)
        requires
            self.wf_shape(),
            node < self.nodes@.len(),
        ensures
            match r {
                Some(j) => self.is_path(self.paths@[node as int].push(byte)) && j as int
                    == self.index_of@[self.paths@[node as int].push(byte)],
                None => !self.is_path(self.paths@[node as int].push(byte)),
            },
    {
        reveal(shape_ok);
        let children = &self.nodes[node as usize].children;
        let mut k: usize = 0;
        while k < children.len()
            invariant
                self.wf_shape(),
                node < self.nodes@.len(),
                children@ == self.nodes@[node as int].children@,
                0 <= k <= children@.len(),
                forall|m: int| 0 <= m < k ==> (#[trigger] children@[m]).0 != byte,
            decreases children.len() - k,
        {
            let e = children[k];
            if e.0 == byte {
                proof {
                    reveal(shape_ok);
                    assert(self.nodes@[node as int].children@[k as int] == e);
                }
                return Some(e.1);
            }
            k += 1;
        }
        proof {
            reveal(shape_ok);
            if self.is_path(self.paths@[node as int].push(byte)) {
                let m = choose|m: int|
                    0 <= m < self.nodes@[node as int].children@.len()
                        && (#[trigger] self.nodes@[node as int].children@[m]).0 == byte;
                assert(children@[m].0 == byte);
            }
        }
        None
    }

    /// A node's path has children exactly when some entry strictly extends it.
    proof fn lemma_children_iff_extension(&self, i: int)
        requires
            self.wf(),
            0 <= i < self.nodes@.len(),
        ensures
            (self.nodes@[i].children@.len() > 0) == has_extension(self.dict@, self.paths@[i]),
    {
        reveal(shape_ok);
        let s = self.paths@[i];
        if self.nodes@[i].children@.len() > 0 {
            let e = self.nodes@[i].children@[0];
            let t = s.push(e.0);
            assert(self.index_of@.contains_key(t));
            assert(prefix_of_entry(self.dict@, t));
            let k = choose|k: Seq<u8>|
                #![trigger self.dict@.contains_key(k)]
                self.dict@.contains_key(k) && k.len() >= t.len() && k.subrange(0, t.len() as int) == t;
            assert(k.subrange(0, s.len() as int) =~= t.subrange(0, s.len() as int));
            assert(t.subrange(0, s.len() as int) =~= s);
            assert(has_extension(self.dict@, s));
        }
        if has_extension(self.dict@, s) {
            let k = choose|k: Seq<u8>|
                #![trigger self.dict@.contains_key(k)]
                self.dict@.contains_key(k) && k.len() > s.len() && k.subrange(0, s.len() as int) == s;
            assert(self.index_of@.contains_key(k));
            let t = k.subrange(0, s.len() as int + 1);
            assert(self.index_of@.contains_key(t));
            assert(t =~= s.push(k[s.len() as int]));
            assert(self.index_of@.contains_key(self.paths@[i].push(k[s.len() as int])));
            let m = choose|m: int|
                0 <= m < self.nodes@[i].children@.len() && (#[trigger] self.nodes@[i].children@[m]).0
                    == k[s.len() as int];
        }
    }

    /// No dictionary entry at `pos` is longer than the path that exists there.
    proof fn lemma_no_longer_entry(&self, b: Seq<u8>, pos: int, j: int)
        requires
            self.wf(),
            0 <= pos <= j < b.len(),
            !self.is_path(b.subrange(pos, j + 1)),
        ensures
            forall|k: int|
                j - pos < k <= b.len() - pos ==> !self.dict@.contains_key(
                    #[trigger] b.subrange(pos, pos + k),
                ),
            !has_extension(self.dict@, b.subrange(pos, b.len() as int)),
    {
        reveal(shape_ok);
        lemma_no_longer_entry_core(self.index_of@, self.dict@, b, pos, j);
    }

    /// Walks the trie along `bytes` from `pos`: the id and length of the
    /// longest vocabulary entry found there (`NONE` and 0 if none), and whether
    /// the walk ran to the end of `bytes` on a node that still has children.
    pub(crate) fn walk(&self, bytes: &[u8], pos: usize) -> (r: (u32, usize, bool))
        requires
            self.wf(),
            pos < bytes@.len(),
        ensures
            r.1 as int == match_len(self.dict(), bytes@, pos as int),
            r.1 <= bytes@.len() - pos,
            r.1 > 0 ==> r.0 == self.dict()[bytes@.subrange(pos as int, pos + r.1)],
            r.1 == 0 ==> r.0 == NONE,
            r.1 > 0 ==> r.0 != NONE,
            r.2 == has_extension(self.dict(), bytes@.subrange(pos as int, bytes@.len() as int)),
    {
        let mut current: u32 = 0;
        let mut best_id: u32 = NONE;
        let mut best_len: usize = 0;
        let mut j: usize = pos;
        let mut stopped = false;
        proof {
            assert(bytes@.subrange(pos as int, pos as int) =~= Seq::<u8>::empty());
            lemma_shape_root(self.nodes@, self.paths@, self.index_of@);
        }
        while j < bytes.len() && !stopped
            invariant
                self.wf(),
                pos < bytes@.len(),
                pos <= j <= bytes@.len(),
                self.is_path(bytes@.subrange(pos as int, j as int)),
                current as int == self.index_of@[bytes@.subrange(pos as int, j as int)],
                best_len as int == longest_in(self.dict@, bytes@, pos as int, j - pos),
                best_len > 0 ==> best_id == self.dict@[bytes@.subrange(
                    pos as int,
                    pos + best_len,
                )],
                best_len == 0 ==> best_id == NONE,
                stopped ==> j < bytes@.len() && !self.is_path(
                    bytes@.subrange(pos as int, j + 1),
                ),
            decreases bytes.len() - j + (if stopped { 0int } else { 1int }),
        {
            let byte = bytes[j];
            proof {
                lemma_shape_index(
                    self.nodes@,
                    self.paths@,
                    self.index_of@,
                    bytes@.subrange(pos as int, j as int),
                );
                assert(bytes@.subrange(pos as int, j + 1) =~= bytes@.subrange(
                    pos as int,
                    j as int,
                ).push(byte));
            }
            match self.child(current, byte) {
                None => {
                    stopped = true;
                },
                Some(next) => {
                    current = next;
                    j += 1;
                    proof {
                        lemma_shape_index(
                            self.nodes@,
                            self.paths@,
                            self.index_of@,
                            bytes@.subrange(pos as int, j as int),
                        );
                    }
                    let id = self.nodes[current as usize].id;
                    proof {
                        lemma_ids_node(
                            self.nodes@,
                            self.paths@,
                            self.index_of@,
                            self.dict@,
                            current as int,
                        );
                        lemma_longest_in_bounds(self.dict@, bytes@, pos as int, j - pos - 1);
                    }
                    if id != NONE {
                        best_id = id;
                        best_len = j - pos;
                    }
                },
            }
        }
        proof {
            lemma_longest_in_bounds(self.dict@, bytes@, pos as int, j - pos);
            if stopped {
                self.lemma_no_longer_entry(bytes@, pos as int, j as int);
                lemma_longest_in_stable(
                    self.dict@,
                    bytes@,
                    pos as int,
                    j - pos,
                    bytes@.len() - pos,
                );
            } else {
                lemma_shape_index(
                    self.nodes@,
                    self.paths@,
                    self.index_of@,
                    bytes@.subrange(pos as int, j as int),
                );
                self.lemma_children_iff_extension(current as int);
            }
        }
        let open_end = !stopped && self.nodes[current as usize].children.len() > 0;
        (best_id, best_len, open_end)
    }

    proof fn lemma_step(&self, b: Seq<u8>, pos: int)
        requires
            self.wf(),
            0 <= pos < b.len(),
        ensures
            ({
                let (id, k) = step_at(self.dict(), self.base(), b, pos);
                &&& 1 <= k <= b.len() - pos
                &&& tokenize_from(self.dict(), self.base(), b, pos) == seq![id] + tokenize_from(
                    self.dict(),
                    self.base(),
                    b,
                    pos + k,
                )
            }),
    {
        lemma_longest_in_bounds(self.dict@, b, pos, b.len() - pos);
    }

    /// Greedy longest-match tokenization of the UTF-8 bytes of `text`.
    pub fn tokenize_u32(&self, text: &str) -> (r: Vec<u32>)
        requires
            self.wf(),
        ensures
            r@ == tokenize_spec(self.dict(), self.base(), text.spec_bytes()),
    {
        self.tokenize_bytes(text.as_bytes())
    }

    /// Greedy longest-match tokenization of raw bytes, each id kept in 16 bits.
    pub fn tokenize_bytes_u16(&self, bytes: &[u8]) -> (r: Vec<u16>)
        requires
            self.wf(),
        ensures
            r@ == tokenize_spec(self.dict(), self.base(), bytes@).map_values(|x: u32| x as u16),
    {
        let mut result: Vec<u16> = Vec::with_capacity(bytes.len() / 2);
        let mut pos: usize = 0;
        let ghost full = tokenize_from(self.dict(), self.base(), bytes@, 0);
        let ghost done: Seq<u32> = Seq::empty();
        while pos < bytes.len()
            invariant
                self.wf(),
                pos <= bytes@.len(),
                full == tokenize_from(self.dict(), self.base(), bytes@, 0),
                done + tokenize_from(self.dict(), self.base(), bytes@, pos as int) == full,
                result@ == done.map_values(|x: u32| x as u16),
            decreases bytes.len() - pos,
        {
            let (best_id, best_len, _) = self.walk(bytes, pos);
            proof {
                self.lemma_step(bytes@, pos as int);
            }
            let ghost before = done;
            let id: u32 = if best_id == NONE {
                self.byte_fallback_base + bytes[pos] as u32
            } else {
                best_id
            };
            result.push(id as u16);
            if best_id == NONE {
                pos += 1;
            } else {
                pos += best_len;
            }
            proof {
                done = done.push(id);
                assert(done + tokenize_from(self.dict(), self.base(), bytes@, pos as int) =~= before
                    + (seq![id] + tokenize_from(self.dict(), self.base(), bytes@, pos as int)));
                assert(result@ =~= done.map_values(|x: u32| x as u16));
            }
        }
        proof {
            assert(tokenize_from(self.dict(), self.base(), bytes@, pos as int) =~= Seq::<u32>::empty());
            assert(done =~= full);
        }
        result
    }

    /// Adds the raw byte string `w` with the given id; a path that already
    /// ended an entry now ends this one.
    #[verifier::rlimit(80)]
    fn insert(&mut self, w: &[u8], id: u32)
        requires
            old(self).wf(),
            id != NONE,
            w@.len() <= old(self).max_token_bytes,
            old(self).nodes@.len() + w@.len() <= 4294967295,
        ensures
            final(self).wf(),
            final(self).dict() == (if w@.len() > 0 {
                old(self).dict().insert(w@, id)
            } else {
                old(self).dict()
            }),
            final(self).base() == old(self).base(),
            final(self).max_len() == old(self).max_len(),
            final(self).nodes@.len() <= old(self).nodes@.len() + w@.len(),
    {
        let mut current: u32 = 0;
        let mut i: usize = 0;
        proof {
            assert(w@.subrange(0, 0) =~= Seq::<u8>::empty());
            lemma_shape_root(self.nodes@, self.paths@, self.index_of@);
        }
        while i < w.len()
            invariant
                self.wf_shape(),
                self.wf_ids(),
                forall|p: Seq<u8>|
                    #[trigger] self.index_of@.contains_key(p) ==> p.len() == 0 || prefix_of_entry(
                        self.dict@,
                        p,
                    ) || (p.len() <= w@.len() && w@.subrange(0, p.len() as int) == p),
                self.dict@ == old(self).dict@,
                self.byte_fallback_base == old(self).byte_fallback_base,
                self.max_token_bytes == old(self).max_token_bytes,
                w@.len() <= self.max_token_bytes,
                0 <= i <= w@.len(),
                self.nodes@.len() <= old(self).nodes@.len() + i,
                old(self).nodes@.len() + w@.len() <= 4294967295,
                self.index_of@.contains_key(w@.subrange(0, i as int)),
                current as int == self.index_of@[w@.subrange(0, i as int)],
            decreases w.len() - i,
        {
            let byte = w[i];
            let ghost p = w@.subrange(0, i as int);
            let ghost q = w@.subrange(0, i + 1);
            proof {
                assert(q =~= p.push(byte));
                lemma_shape_index(self.nodes@, self.paths@, self.index_of@, p);
                lemma_shape_root(self.nodes@, self.paths@, self.index_of@);
            }
            match self.child(current, byte) {
                Some(next) => {
                    current = next;
                },
                None => {
                    let next = self.nodes.len() as u32;
                    let ghost old_nodes = self.nodes@;
                    let ghost old_index = self.index_of@;
                    let ghost old_paths = self.paths@;
                    self.nodes.push(TrieNode { children: Vec::new(), id: NONE });
                    self.nodes[current as usize].children.push((byte, next));
                    proof {
                        self.paths@ = self.paths@.push(q);
                        self.index_of@ = self.index_of@.insert(q, next as int);
                        lemma_insert_node_shape(
                            old_nodes,
                            old_paths,
                            old_index,
                            self.nodes@,
                            self.paths@,
                            self.index_of@,
                            current as int,
                            byte,
                            self.dict@,
                        );
                        assert forall|p2: Seq<u8>|
                            #[trigger] self.index_of@.contains_key(p2) implies p2.len() == 0
                            || prefix_of_entry(self.dict@, p2) || (p2.len() <= w@.len()
                            && w@.subrange(0, p2.len() as int) == p2) by {
                            if p2 == q {
                                assert(w@.subrange(0, q.len() as int) =~= q);
                            } else {
                                assert(old_index.contains_key(p2));
                            }
                        }
                    }
                    current = next;
                },
            }
            i += 1;
        }
        if w.len() > 0 {
            let ghost old_nodes = self.nodes@;
            proof {
                assert(w@.subrange(0, w@.len() as int) =~= w@);
                lemma_shape_index(self.nodes@, self.paths@, self.index_of@, w@);
            }
            self.nodes[current as usize].id = id;
            proof {
                let old_dict = self.dict@;
                lemma_set_id(
                    old_nodes,
                    self.nodes@,
                    self.paths@,
                    self.index_of@,
                    old_dict,
                    current as int,
                    w@,
                    id,
                );
                lemma_shape_same_children(old_nodes, self.nodes@, self.paths@, self.index_of@);
                self.dict@ = self.dict@.insert(w@, id);
                assert forall|p2: Seq<u8>|
                    #[trigger] self.index_of@.contains_key(p2) implies p2.len() == 0
                    || prefix_of_entry(self.dict@, p2) by {
                    if prefix_of_entry(old_dict, p2) {
                        let k = choose|k: Seq<u8>|
                            #![trigger old_dict.contains_key(k)]
                            old_dict.contains_key(k) && k.len() >= p2.len() && k.subrange(
                                0,
                                p2.len() as int,
                            ) == p2;
                        assert(self.dict@.contains_key(k));
                    } else if p2.len() > 0 {
                        assert(self.dict@.contains_key(w@));
                    }
                }
                assert forall|p2: Seq<u8>| #[trigger] self.dict@.contains_key(p2) implies
                    self.index_of@.contains_key(p2) && p2.len() > 0 && p2.len()
                    <= self.max_token_bytes && self.dict@[p2] != NONE by {
                    if p2 != w@ {
                        assert(old_dict.contains_key(p2));
                    }
                }
            }
        }
    }

    /// Builds the trie of a vocabulary whose byte fallback block starts at
    /// `byte_fallback_base`.
    pub fn from_vocab(vocab: &[String], byte_fallback_base: u32) -> (t: Trie)
        requires
            byte_fallback_base as int + 256 <= vocab@.len(),
            vocab@.len() <= 4294967295,
            total_token_bytes(spellings(vocab@), vocab@.len() as int) + 1 <= 4294967295,
        ensures
            t.wf(),
            t.dict() == vocab_dict(spellings(vocab@), vocab@.len() as int),
            t.base() == byte_fallback_base,
            t.max_len() == max_token_len(spellings(vocab@), vocab@.len() as int),
    {
        let ghost sp = spellings(vocab@);
        let mut t = Trie::empty(byte_fallback_base);
        let mut id: usize = 0;
        while id < vocab.len()
            invariant
                sp == spellings(vocab@),
                t.wf(),
                t.base() == byte_fallback_base,
                0 <= id <= vocab@.len(),
                vocab@.len() <= 4294967295,
                total_token_bytes(sp, vocab@.len() as int) + 1 <= 4294967295,
                t.dict() == vocab_dict(sp, id as int),
                t.max_len() == max_token_len(sp, id as int),
                t.nodes@.len() <= 1 + total_token_bytes(sp, id as int),
            decreases vocab.len() - id,
        {
            let mut word: Vec<u8> = Vec::new();
            let token = vocab[id].as_str();
            append_token_bytes(token, &mut word);
            proof {
                assert(sp[id as int] == spelled(vocab@[id as int]@));
                assert(word@ =~= token_bytes(sp[id as int]));
                lemma_total_bytes_monotone(sp, id as int + 1, vocab@.len() as int);
            }
            if word.len() > t.max_token_bytes {
                t.max_token_bytes = word.len();
            }
            t.insert(&word, id as u32);
            id += 1;
        }
        t
    }

    /// Greedy longest-match tokenization of raw bytes.
    pub fn tokenize_bytes(&self, bytes: &[u8]) -> (r: Vec<u32>)
        requires
            self.wf(),
        ensures
            r@ == tokenize_spec(self.dict(), self.base(), bytes@),
    {
        let mut result: Vec<u32> = Vec::with_capacity(bytes.len() / 2);
        let mut pos: usize = 0;
        while pos < bytes.len()
            invariant
                self.wf(),
                pos <= bytes@.len(),
                result@ + tokenize_from(self.dict(), self.base(), bytes@, pos as int)
                    == tokenize_from(self.dict(), self.base(), bytes@, 0),
            decreases bytes.len() - pos,
        {
            let (best_id, best_len, _) = self.walk(bytes, pos);
            proof {
                self.lemma_step(bytes@, pos as int);
            }
            let ghost before = result@;
            if best_id == NONE {
                result.push(self.byte_fallback_base + bytes[pos] as u32);
                pos += 1;
            } else {
                result.push(best_id);
                pos += best_len;
            }
            assert(result@ + tokenize_from(self.dict(), self.base(), bytes@, pos as int)
                =~= before + (seq![result@.last()] + tokenize_from(
                self.dict(),
                self.base(),
                bytes@,
                pos as int,
            )));
        }
        proof {
            assert(tokenize_from(self.dict(), self.base(), bytes@, pos as int) =~= Seq::<u32>::empty());
            assert(result@ =~= result@ + Seq::<u32>::empty());
        }
        result
    }
}

} // verus!

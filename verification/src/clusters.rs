//! Grouping tokens into clusters from a list of similar pairs.
//!
//! Two tokens share a cluster when a chain of similar pairs joins them. The
//! grouping keeps a disjoint-set forest (union by size, path halving); the
//! contracts speak of the clusters through `joined_label`, which relabels one
//! class at a time as the pairs come in.
use vstd::prelude::*;

verus! {

/// The label of token `x` once every pair of `links` has been joined, one pair
/// after the other: joining `(a, b)` gives every token labelled as `b` the
/// label of `a`.
pub open spec fn joined_label(links: Seq<(usize, usize)>, x: int) -> int
    decreases links.len(),
{
    if links.len() == 0 {
        x
    } else {
        let prev = links.drop_last();
        let a = links.last().0 as int;
        let b = links.last().1 as int;
        if joined_label(prev, x) == joined_label(prev, b) {
            joined_label(prev, a)
        } else {
            joined_label(prev, x)
        }
    }
}

/// `x` and `y` end up in one cluster.
pub open spec fn same_cluster(links: Seq<(usize, usize)>, x: int, y: int) -> bool {
    joined_label(links, x) == joined_label(links, y)
}

/// The token ids `0..n`, in order.
pub open spec fn ids(n: nat) -> Seq<usize> {
    Seq::new(n, |i: int| i as usize)
}

/// Some token below `k` shares a cluster with `x`.
pub open spec fn seen_before(links: Seq<(usize, usize)>, k: int, x: int) -> bool {
    exists|y: int| 0 <= y < k && #[trigger] same_cluster(links, y, x)
}

/// The smallest token of each cluster among `0..n`, in increasing order.
pub open spec fn cluster_leaders(links: Seq<(usize, usize)>, n: nat) -> Seq<usize> {
    ids(n).filter(|x: usize| !seen_before(links, x as int, x as int))
}

/// The tokens among `0..n` in the cluster of `r`, in increasing order.
pub open spec fn cluster_of(links: Seq<(usize, usize)>, n: nat, r: int) -> Seq<usize> {
    ids(n).filter(|y: usize| same_cluster(links, y as int, r))
}

/// Every cluster of `0..n`, each in increasing order, ordered by their
/// smallest tokens.
pub open spec fn clusters_of(links: Seq<(usize, usize)>, n: nat) -> Seq<Seq<usize>> {
    cluster_leaders(links, n).map_values(|r: usize| cluster_of(links, n, r as int))
}

/// The clusters of `0..n` that hold more than one token.
pub open spec fn shared_clusters(links: Seq<(usize, usize)>, n: nat) -> Seq<Seq<usize>> {
    clusters_of(links, n).filter(|g: Seq<usize>| g.len() > 1)
}

proof fn lemma_leaders_push(l: Seq<(usize, usize)>, k: nat)
    requires
        k <= usize::MAX,
    ensures
        cluster_leaders(l, k + 1) == if !seen_before(l, k as int, k as int) {
            cluster_leaders(l, k).push(k as usize)
        } else {
            cluster_leaders(l, k)
        },
{
    reveal(Seq::filter);
    assert(ids(k + 1).drop_last() =~= ids(k));
}

proof fn lemma_cluster_of_push(l: Seq<(usize, usize)>, k: nat, r: int)
    requires
        k <= usize::MAX,
    ensures
        cluster_of(l, k + 1, r) == if same_cluster(l, k as int, r) {
            cluster_of(l, k, r).push(k as usize)
        } else {
            cluster_of(l, k, r)
        },
{
    reveal(Seq::filter);
    assert(ids(k + 1).drop_last() =~= ids(k));
}

/// No token below `k` joins `r`: its cluster among `0..k` is empty.
proof fn lemma_cluster_of_empty(l: Seq<(usize, usize)>, k: nat, r: int)
    requires
        !seen_before(l, k as int, r),
    ensures
        cluster_of(l, k, r).len() == 0,
{
    broadcast use Seq::lemma_filter_pred, Seq::lemma_filter_contains_rev;

    if cluster_of(l, k, r).len() > 0 {
        let e = cluster_of(l, k, r)[0];
        assert(cluster_of(l, k, r).contains(e));
        assert(ids(k).contains(e));
        let j = choose|j: int| 0 <= j < ids(k).len() && ids(k)[j] == e;
        assert(same_cluster(l, j, r));
    }
}

/// Taking in token `k` adds it to the tokens seen.
proof fn lemma_seen_step(l: Seq<(usize, usize)>, k: int, x: int)
    requires
        0 <= k,
    ensures
        seen_before(l, k + 1, x) == (seen_before(l, k, x) || same_cluster(l, k, x)),
{
    if seen_before(l, k + 1, x) && !same_cluster(l, k, x) {
        let y = choose|y: int| 0 <= y < k + 1 && #[trigger] same_cluster(l, y, x);
        assert(y < k);
    }
    if same_cluster(l, k, x) {
        assert(0 <= k < k + 1 && same_cluster(l, k, x));
    }
}

/// Joining one more pair `(a, b)` merges the cluster of `a` with that of `b`
/// and leaves every other cluster as it was.
proof fn lemma_join_step(links: Seq<(usize, usize)>, x: int, y: int)
    requires
        links.len() > 0,
    ensures
        ({
            let prev = links.drop_last();
            let a = links.last().0 as int;
            let b = links.last().1 as int;
            same_cluster(links, x, y) <==> (same_cluster(prev, x, y) || (
            (same_cluster(prev, x, a) || same_cluster(prev, x, b)) && (same_cluster(prev, y, a)
                || same_cluster(prev, y, b))))
        }),
{
}

/// Law: the two tokens of every pair end up in one cluster.
pub proof fn lemma_links_share_cluster(links: Seq<(usize, usize)>, i: int)
    requires
        0 <= i < links.len(),
    ensures
        same_cluster(links, links[i].0 as int, links[i].1 as int),
    decreases links.len(),
{
    let prev = links.drop_last();
    if i < links.len() - 1 {
        lemma_links_share_cluster(prev, i);
        assert(prev[i] == links[i]);
        lemma_join_step(links, links[i].0 as int, links[i].1 as int);
    } else {
        lemma_join_step(links, links[i].0 as int, links[i].1 as int);
    }
}

/// Law: the clusters are the finest grouping that keeps every pair together.
/// Any labelling `f` that gives both tokens of each pair one label gives one
/// label to all the tokens of a cluster.
pub proof fn lemma_clusters_are_finest(
    links: Seq<(usize, usize)>,
    f: spec_fn(int) -> int,
    x: int,
    y: int,
)
    requires
        forall|i: int| 0 <= i < links.len() ==> f(#[trigger] links[i].0 as int) == f(links[i].1 as int),
        same_cluster(links, x, y),
    ensures
        f(x) == f(y),
    decreases links.len(),
{
    if links.len() > 0 {
        let prev = links.drop_last();
        let a = links.last().0 as int;
        let b = links.last().1 as int;
        assert forall|i: int| 0 <= i < prev.len() implies f(#[trigger] prev[i].0 as int) == f(prev[i].1 as int) by {
            assert(prev[i] == links[i]);
        }
        assert(f(a) == f(b)) by {
            assert(links[links.len() - 1] == links.last());
        }
        lemma_join_step(links, x, y);
        if same_cluster(prev, x, y) {
            lemma_clusters_are_finest(prev, f, x, y);
        } else {
            if same_cluster(prev, x, a) {
                lemma_clusters_are_finest(prev, f, x, a);
            } else {
                lemma_clusters_are_finest(prev, f, x, b);
            }
            if same_cluster(prev, y, a) {
                lemma_clusters_are_finest(prev, f, y, a);
            } else {
                lemma_clusters_are_finest(prev, f, y, b);
            }
        }
    }
}

/// Law: the clusters depend only on which pairs are given, not on their order
/// or on repeated pairs.
pub proof fn lemma_clusters_ignore_order(l1: Seq<(usize, usize)>, l2: Seq<(usize, usize)>, x: int, y: int)
    requires
        forall|i: int| 0 <= i < l1.len() ==> l2.contains(#[trigger] l1[i]),
        forall|j: int| 0 <= j < l2.len() ==> l1.contains(#[trigger] l2[j]),
    ensures
        same_cluster(l1, x, y) == same_cluster(l2, x, y),
{
    let f2 = |z: int| joined_label(l2, z);
    let f1 = |z: int| joined_label(l1, z);
    assert forall|i: int| 0 <= i < l1.len() implies f2(#[trigger] l1[i].0 as int) == f2(l1[i].1 as int) by {
        let j = choose|j: int| 0 <= j < l2.len() && l2[j] == l1[i];
        lemma_links_share_cluster(l2, j);
    }
    assert forall|j: int| 0 <= j < l2.len() implies f1(#[trigger] l2[j].0 as int) == f1(l2[j].1 as int) by {
        let i = choose|i: int| 0 <= i < l1.len() && l1[i] == l2[j];
        lemma_links_share_cluster(l1, i);
    }
    if same_cluster(l1, x, y) {
        lemma_clusters_are_finest(l1, f2, x, y);
    }
    if same_cluster(l2, x, y) {
        lemma_clusters_are_finest(l2, f1, x, y);
    }
}

/// The root reached from `x` by following parents. Each step goes to a node of
/// smaller depth, which bounds the walk.
spec fn root_of(parent: Seq<usize>, depth: Seq<nat>, x: int) -> int
    decreases depth[x],
{
    if 0 <= x < parent.len() && parent[x] != x && 0 <= parent[x] < depth.len() && depth[
        parent[x] as int
    ] < depth[x] {
        root_of(parent, depth, parent[x] as int)
    } else {
        x
    }
}

/// A forest over `0..n`: parents stay in range and every step towards the root
/// lowers the depth.
spec fn forest_ok(parent: Seq<usize>, depth: Seq<nat>) -> bool {
    &&& depth.len() == parent.len()
    &&& forall|x: int| 0 <= x < parent.len() ==> #[trigger] parent[x] < parent.len()
    &&& forall|x: int|
        0 <= x < parent.len() && parent[x] != x ==> depth[#[trigger] parent[x] as int] < depth[x]
}

/// The sizes kept at the roots among the first `k` nodes, added up.
spec fn root_sizes(parent: Seq<usize>, size: Seq<usize>, k: int) -> int
    decreases k,
{
    if k <= 0 {
        0
    } else {
        root_sizes(parent, size, k - 1) + if parent[k - 1] == k - 1 {
            size[k - 1] as int
        } else {
            0
        }
    }
}

proof fn lemma_root_of(parent: Seq<usize>, depth: Seq<nat>, x: int)
    requires
        forest_ok(parent, depth),
        0 <= x < parent.len(),
    ensures
        0 <= root_of(parent, depth, x) < parent.len(),
        parent[root_of(parent, depth, x)] == root_of(parent, depth, x),
        root_of(parent, depth, parent[x] as int) == root_of(parent, depth, x),
        parent[x] == x ==> root_of(parent, depth, x) == x,
    decreases depth[x],
{
    if parent[x] != x {
        lemma_root_of(parent, depth, parent[x] as int);
    }
}

/// Pointing `x` at its grandparent keeps the forest and every node's root.
proof fn lemma_halve(parent: Seq<usize>, depth: Seq<nat>, x: int, y: int)
    requires
        forest_ok(parent, depth),
        0 <= x < parent.len(),
        0 <= y < parent.len(),
        parent[x] != x,
    ensures
        forest_ok(parent.update(x, parent[parent[x] as int]), depth),
        root_of(parent.update(x, parent[parent[x] as int]), depth, y) == root_of(parent, depth, y),
    decreases depth[y],
{
    let p = parent[x] as int;
    let np = parent.update(x, parent[p]);
    assert(forest_ok(np, depth)) by {
        assert forall|z: int| 0 <= z < np.len() && np[z] != z implies depth[#[trigger] np[z] as int] < depth[z] by {
            if z == x {
                assert(parent[p] != p ==> depth[parent[p] as int] < depth[p]);
            }
        }
    }
    lemma_root_of(parent, depth, x);
    lemma_root_of(parent, depth, p);
    if np[y] != y {
        lemma_halve(parent, depth, x, np[y] as int);
        lemma_root_of(parent, depth, y);
    }
}

/// Hanging root `rb` under root `ra`, with the depths of `rb`'s tree raised
/// above that of `ra`, keeps a forest in which `rb`'s tree now reaches `ra`.
proof fn lemma_link(parent: Seq<usize>, depth: Seq<nat>, ra: int, rb: int, y: int)
    requires
        forest_ok(parent, depth),
        0 <= ra < parent.len(),
        0 <= rb < parent.len(),
        0 <= y < parent.len(),
        parent[ra] == ra,
        parent[rb] == rb,
        ra != rb,
    ensures
        ({
            let np = parent.update(rb, ra as usize);
            let nd = Seq::new(
                depth.len(),
                |z: int|
                    if root_of(parent, depth, z) == rb {
                        depth[z] + depth[ra] + 1
                    } else {
                        depth[z]
                    },
            );
            &&& forest_ok(np, nd)
            &&& root_of(np, nd, y) == if root_of(parent, depth, y) == rb {
                ra
            } else {
                root_of(parent, depth, y)
            }
        }),
    decreases depth[y],
{
    let np = parent.update(rb, ra as usize);
    let nd = Seq::new(
        depth.len(),
        |z: int|
            if root_of(parent, depth, z) == rb {
                depth[z] + depth[ra] + 1
            } else {
                depth[z]
            },
    );
    lemma_root_of(parent, depth, ra);
    lemma_root_of(parent, depth, rb);
    assert(forest_ok(np, nd)) by {
        assert forall|z: int| 0 <= z < np.len() && np[z] != z implies nd[#[trigger] np[z] as int] < nd[z] by {
            lemma_root_of(parent, depth, z);
        }
    }
    lemma_root_of(parent, depth, y);
    if y == rb {
        lemma_root_of(np, nd, ra);
    } else if parent[y] != y {
        lemma_link(parent, depth, ra, rb, parent[y] as int);
    }
}

/// The root sizes add up the same when the set of roots and their sizes agree.
proof fn lemma_root_sizes_same(p1: Seq<usize>, s1: Seq<usize>, p2: Seq<usize>, s2: Seq<usize>, k: int)
    requires
        0 <= k <= p1.len(),
        p1.len() == p2.len(),
        s1.len() == p1.len(),
        s2.len() == p1.len(),
        forall|i: int| 0 <= i < p1.len() ==> (p1[i] == i) == (p2[i] == i),
        forall|i: int| 0 <= i < p1.len() && p1[i] == i ==> s1[i] == s2[i],
    ensures
        root_sizes(p1, s1, k) == root_sizes(p2, s2, k),
    decreases k,
{
    if k > 0 {
        lemma_root_sizes_same(p1, s1, p2, s2, k - 1);
    }
}

/// Two distinct roots among the first `k` nodes hold no more than the total.
proof fn lemma_two_roots_fit(parent: Seq<usize>, size: Seq<usize>, ra: int, rb: int, k: int)
    requires
        0 <= k <= parent.len(),
        size.len() == parent.len(),
        0 <= ra < k,
        0 <= rb < k,
        ra != rb,
        parent[ra] == ra,
        parent[rb] == rb,
    ensures
        size[ra] + size[rb] <= root_sizes(parent, size, k),
    decreases k,
{
    lemma_root_sizes_nonneg(parent, size, k - 1);
    if ra < k - 1 && rb < k - 1 {
        lemma_two_roots_fit(parent, size, ra, rb, k - 1);
    } else if ra == k - 1 {
        lemma_one_root_fits(parent, size, rb, k - 1);
    } else {
        lemma_one_root_fits(parent, size, ra, k - 1);
    }
}

proof fn lemma_one_root_fits(parent: Seq<usize>, size: Seq<usize>, r: int, k: int)
    requires
        0 <= k <= parent.len(),
        size.len() == parent.len(),
        0 <= r < k,
        parent[r] == r,
    ensures
        size[r] <= root_sizes(parent, size, k),
    decreases k,
{
    lemma_root_sizes_nonneg(parent, size, k - 1);
    if r < k - 1 {
        lemma_one_root_fits(parent, size, r, k - 1);
    }
}

proof fn lemma_root_sizes_nonneg(parent: Seq<usize>, size: Seq<usize>, k: int)
    ensures
        0 <= root_sizes(parent, size, k),
    decreases k,
{
    if k > 0 {
        lemma_root_sizes_nonneg(parent, size, k - 1);
    }
}

/// Moving the size of root `rb` onto root `ra` and hanging `rb` below `ra`
/// keeps the total.
proof fn lemma_root_sizes_link(parent: Seq<usize>, size: Seq<usize>, ra: int, rb: int, k: int)
    requires
        0 <= k <= parent.len(),
        size.len() == parent.len(),
        0 <= ra < parent.len(),
        0 <= rb < parent.len(),
        ra != rb,
        parent[ra] == ra,
        parent[rb] == rb,
        size[ra] + size[rb] <= usize::MAX,
    ensures
        root_sizes(parent.update(rb, ra as usize), size.update(ra, (size[ra] + size[rb]) as usize), k)
            == root_sizes(parent, size, k) + (if ra < k { size[rb] as int } else { 0 }) - (if rb
            < k {
            size[rb] as int
        } else {
            0
        }),
    decreases k,
{
    if k > 0 {
        lemma_root_sizes_link(parent, size, ra, rb, k - 1);
    }
}

/// Roots of size one each, over `k` nodes, add up to `k`.
proof fn lemma_root_sizes_fresh(parent: Seq<usize>, size: Seq<usize>, k: int)
    requires
        0 <= k <= parent.len(),
        size.len() == parent.len(),
        forall|i: int| 0 <= i < parent.len() ==> parent[i] == i && size[i] == 1,
    ensures
        root_sizes(parent, size, k) == k,
    decreases k,
{
    if k > 0 {
        lemma_root_sizes_fresh(parent, size, k - 1);
    }
}

/// A disjoint-set forest over `0..n`: each node's parent, and at each root the
/// number of nodes in its tree.
struct DisjointSets {
    parent: Vec<usize>,
    size: Vec<usize>,
    depth: Ghost<Seq<nat>>,
}

impl DisjointSets {
    spec fn wf(&self) -> bool {
        &&& forest_ok(self.parent@, self.depth@)
        &&& self.size.len() == self.parent.len()
        &&& root_sizes(self.parent@, self.size@, self.parent.len() as int) == self.parent.len()
    }

    spec fn root(&self, x: int) -> int {
        root_of(self.parent@, self.depth@, x)
    }

    /// Every node in a set of its own.
    fn new(n: usize) -> (r: Self)
        ensures
            r.wf(),
            r.parent.len() == n,
            forall|x: int| 0 <= x < n ==> #[trigger] r.root(x) == x,
    {
        let mut parent: Vec<usize> = Vec::new();
        let mut size: Vec<usize> = Vec::new();
        let mut i: usize = 0;
        while i < n
            invariant
                i <= n,
                parent.len() == i,
                size.len() == i,
                forall|j: int| 0 <= j < i ==> parent[j] == j && size[j] == 1,
            decreases n - i,
        {
            parent.push(i);
            size.push(1);
            i = i + 1;
        }
        let r = DisjointSets { parent, size, depth: Ghost(Seq::new(n as nat, |j: int| 0nat)) };
        proof {
            lemma_root_sizes_fresh(r.parent@, r.size@, n as int);
            assert forall|x: int| 0 <= x < n implies #[trigger] r.root(x) == x by {
                lemma_root_of(r.parent@, r.depth@, x);
            }
        }
        r
    }

    /// The root of `x`'s tree, halving the path on the way.
    fn find(&mut self, x: usize) -> (r: usize)
        requires
            old(self).wf(),
            x < old(self).parent.len(),
        ensures
            final(self).wf(),
            final(self).parent.len() == old(self).parent.len(),
            r == old(self).root(x as int),
            r < final(self).parent.len(),
            final(self).parent[r as int] == r,
            forall|y: int| 0 <= y < old(self).parent.len() ==> #[trigger] final(self).root(y) == old(self).root(y),
            forall|i: int|
                0 <= i < old(self).parent.len() ==> (final(self).parent[i] == i) == (old(self).parent[i]
                    == i),
    {
        let ghost start = *self;
        let ghost x0 = x as int;
        let mut x = x;
        while self.parent[x] != x
            invariant
                self.wf(),
                self.parent.len() == start.parent.len(),
                self.depth@ == start.depth@,
                self.size@ == start.size@,
                forall|i: int| 0 <= i < self.parent.len() ==> (self.parent[i] == i) == (start.parent[i] == i),
                x < self.parent.len(),
                x0 < self.parent.len(),
                self.root(x as int) == start.root(x0),
                forall|y: int| 0 <= y < self.parent.len() ==> #[trigger] self.root(y) == start.root(y),
            decreases self.depth@[x as int],
        {
            let p = self.parent[x];
            let gp = self.parent[p];
            proof {
                assert forall|y: int| 0 <= y < self.parent.len() implies #[trigger] root_of(
                    self.parent@.update(x as int, gp),
                    self.depth@,
                    y,
                ) == start.root(y) by {
                    lemma_halve(self.parent@, self.depth@, x as int, y);
                    assert(self.root(y) == start.root(y));
                }
                lemma_halve(self.parent@, self.depth@, x as int, x as int);
                assert(self.parent@[p as int] != p ==> self.depth@[gp as int] < self.depth@[p as int]);
                lemma_root_sizes_same(
                    self.parent@,
                    self.size@,
                    self.parent@.update(x as int, gp),
                    self.size@,
                    self.parent.len() as int,
                );
                lemma_root_of(self.parent@, self.depth@, x as int);
                lemma_root_of(self.parent@, self.depth@, p as int);
            }
            self.parent.set(x, gp);
            x = gp;
        }
        proof {
            lemma_root_of(self.parent@, self.depth@, x as int);
        }
        x
    }

    /// Joins the sets of `a` and `b`, hanging the smaller tree below the root
    /// of the larger.
    fn union(&mut self, a: usize, b: usize)
        requires
            old(self).wf(),
            a < old(self).parent.len(),
            b < old(self).parent.len(),
        ensures
            final(self).wf(),
            final(self).parent.len() == old(self).parent.len(),
            forall|x: int, y: int|
                0 <= x < old(self).parent.len() && 0 <= y < old(self).parent.len() ==> ((
                #[trigger] final(self).root(x) == #[trigger] final(self).root(y)) <==> (old(self).root(x)
                == old(self).root(y) || ((old(self).root(x) == old(self).root(a as int) || old(self).root(x)
                == old(self).root(b as int)) && (old(self).root(y) == old(self).root(a as int)
                || old(self).root(y) == old(self).root(b as int))))),
    {
        let ghost start = *self;
        let mut root_a = self.find(a);
        let mut root_b = self.find(b);
        if root_a == root_b {
            return;
        }
        if self.size[root_a] < self.size[root_b] {
            let t = root_a;
            root_a = root_b;
            root_b = t;
        }
        let ghost mid = *self;
        proof {
            lemma_root_of(self.parent@, self.depth@, root_a as int);
            lemma_root_of(self.parent@, self.depth@, root_b as int);
            lemma_root_of(self.parent@, self.depth@, a as int);
            lemma_root_of(self.parent@, self.depth@, b as int);
            lemma_two_roots_fit(self.parent@, self.size@, root_a as int, root_b as int, self.parent.len() as int);
            lemma_root_sizes_link(self.parent@, self.size@, root_a as int, root_b as int, self.parent.len() as int);
            let nd = Seq::new(
                self.depth@.len(),
                |z: int|
                    if root_of(self.parent@, self.depth@, z) == root_b as int {
                        self.depth@[z] + self.depth@[root_a as int] + 1
                    } else {
                        self.depth@[z]
                    },
            );
            assert forall|y: int| 0 <= y < self.parent.len() implies #[trigger] root_of(
                self.parent@.update(root_b as int, root_a),
                nd,
                y,
            ) == if root_of(self.parent@, self.depth@, y) == root_b as int {
                root_a as int
            } else {
                root_of(self.parent@, self.depth@, y)
            } by {
                lemma_link(self.parent@, self.depth@, root_a as int, root_b as int, y);
            }
            // the new parents and depths still form a forest
            lemma_link(self.parent@, self.depth@, root_a as int, root_b as int, root_b as int);
            self.depth = Ghost(nd);
        }
        self.parent.set(root_b, root_a);
        let merged = self.size[root_a] + self.size[root_b];
        self.size.set(root_a, merged);
        proof {
            assert forall|x: int| 0 <= x < self.parent.len() implies #[trigger] self.root(x) == if mid.root(x)
                == root_b as int {
                root_a as int
            } else {
                mid.root(x)
            } by {}
        }
    }
}

/// Joins every pair of `links` in a fresh forest over `0..n`: afterwards two
/// tokens share a root exactly when they share a cluster.
fn join_links(n: usize, links: &[(usize, usize)]) -> (sets: DisjointSets)
    requires
        forall|i: int| 0 <= i < links.len() ==> #[trigger] links[i].0 < n && links[i].1 < n,
    ensures
        sets.wf(),
        sets.parent.len() == n,
        forall|x: int, y: int|
            0 <= x < n && 0 <= y < n ==> ((#[trigger] sets.root(x) == #[trigger] sets.root(y))
                <==> same_cluster(links@, x, y)),
{
    let mut sets = DisjointSets::new(n);
    let mut k: usize = 0;
    while k < links.len()
        invariant
            sets.wf(),
            sets.parent.len() == n,
            k <= links.len(),
            forall|i: int| 0 <= i < links.len() ==> #[trigger] links[i].0 < n && links[i].1 < n,
            forall|x: int, y: int|
                0 <= x < n && 0 <= y < n ==> ((#[trigger] sets.root(x) == #[trigger] sets.root(y))
                    <==> same_cluster(links@.subrange(0, k as int), x, y)),
        decreases links.len() - k,
    {
        let (a, b) = links[k];
        let ghost before = sets;
        sets.union(a, b);
        proof {
            let prev = links@.subrange(0, k as int);
            let next = links@.subrange(0, k + 1);
            assert(next.drop_last() =~= prev);
            assert(next.last() == links@[k as int]);
            assert forall|x: int, y: int| 0 <= x < n && 0 <= y < n implies ((#[trigger] sets.root(x)
                == #[trigger] sets.root(y)) <==> same_cluster(next, x, y)) by {
                lemma_join_step(next, x, y);
                assert(before.root(x) == before.root(y) <==> same_cluster(prev, x, y));
                assert(before.root(x) == before.root(a as int) <==> same_cluster(prev, x, a as int));
                assert(before.root(x) == before.root(b as int) <==> same_cluster(prev, x, b as int));
                assert(before.root(y) == before.root(a as int) <==> same_cluster(prev, y, a as int));
                assert(before.root(y) == before.root(b as int) <==> same_cluster(prev, y, b as int));
            }
        }
        k = k + 1;
    }
    proof {
        assert(links@.subrange(0, links@.len() as int) =~= links@);
    }
    sets
}

/// The leaders below `k` are tokens below `k` that no smaller token joins.
proof fn lemma_leaders_below(l: Seq<(usize, usize)>, k: nat)
    ensures
        forall|h: int|
            0 <= h < cluster_leaders(l, k).len() ==> (#[trigger] cluster_leaders(l, k)[h]) < k
                && !seen_before(l, cluster_leaders(l, k)[h] as int, cluster_leaders(l, k)[h] as int),
{
    broadcast use Seq::lemma_filter_pred, Seq::lemma_filter_contains_rev;

    let p = |x: usize| !seen_before(l, x as int, x as int);
    assert forall|h: int| 0 <= h < cluster_leaders(l, k).len() implies (#[trigger] cluster_leaders(
        l,
        k,
    )[h]) < k && !seen_before(l, cluster_leaders(l, k)[h] as int, cluster_leaders(l, k)[h] as int) by {
        let e = ids(k).filter(p)[h];
        assert(ids(k).filter(p).contains(e));
        assert(ids(k).contains(e));
        let j = choose|j: int| 0 <= j < ids(k).len() && ids(k)[j] == e;
        assert(p(e));
    }
}

/// The groups, once token `k` has joined the group of its cluster (a new group
/// when `k` leads its cluster), are the clusters among `0..k + 1`.
proof fn lemma_group_step(
    l: Seq<(usize, usize)>,
    n: int,
    k: int,
    sets: DisjointSets,
    old_index: Seq<usize>,
    index: Seq<usize>,
    old_groups: Seq<Seq<usize>>,
    groups: Seq<Seq<usize>>,
    fresh: bool,
    root: int,
)
    requires
        0 <= k < n <= usize::MAX,
        forall|x: int, y: int|
            0 <= x < n && 0 <= y < n ==> ((#[trigger] sets.root(x) == #[trigger] sets.root(y))
                <==> same_cluster(l, x, y)),
        forall|x: int| 0 <= x < n ==> 0 <= #[trigger] sets.root(x) < n,
        root == sets.root(k),
        old_index.len() == n,
        old_groups.len() == cluster_leaders(l, k as nat).len(),
        forall|g: int|
            0 <= g < old_groups.len() ==> #[trigger] old_groups[g] == cluster_of(
                l,
                k as nat,
                cluster_leaders(l, k as nat)[g] as int,
            ),
        forall|g: int|
            0 <= g < old_groups.len() ==> old_index[sets.root(#[trigger] cluster_leaders(l, k as nat)[g] as int)]
                == g,
        forall|x: int|
            0 <= x < n ==> (old_index[#[trigger] sets.root(x)] == usize::MAX <==> !seen_before(l, k, x)),
        forall|x: int|
            0 <= x < n && old_index[#[trigger] sets.root(x)] != usize::MAX ==> old_index[sets.root(x)]
                < old_groups.len() && same_cluster(
                l,
                cluster_leaders(l, k as nat)[old_index[sets.root(x)] as int] as int,
                x,
            ),
        fresh == (old_index[root] == usize::MAX),
        fresh ==> index == old_index.update(root, old_groups.len() as usize) && groups == old_groups.push(
            seq![k as usize],
        ),
        !fresh ==> index == old_index && groups == old_groups.update(
            old_index[root] as int,
            old_groups[old_index[root] as int].push(k as usize),
        ),
    ensures
        index.len() == n,
        groups.len() == cluster_leaders(l, (k + 1) as nat).len(),
        forall|g: int|
            0 <= g < groups.len() ==> #[trigger] groups[g] == cluster_of(
                l,
                (k + 1) as nat,
                cluster_leaders(l, (k + 1) as nat)[g] as int,
            ),
        forall|g: int|
            0 <= g < groups.len() ==> index[sets.root(#[trigger] cluster_leaders(l, (k + 1) as nat)[g] as int)]
                == g,
        forall|x: int|
            0 <= x < n ==> (index[#[trigger] sets.root(x)] == usize::MAX <==> !seen_before(l, k + 1, x)),
        forall|x: int|
            0 <= x < n && index[#[trigger] sets.root(x)] != usize::MAX ==> index[sets.root(x)] < groups.len()
                && same_cluster(l, cluster_leaders(l, (k + 1) as nat)[index[sets.root(x)] as int] as int, x),
{
    let lk = cluster_leaders(l, k as nat);
    let lk1 = cluster_leaders(l, (k + 1) as nat);
    lemma_leaders_below(l, k as nat);
    lemma_leaders_push(l, k as nat);
    assert(fresh == !seen_before(l, k, k));
    assert forall|x: int| 0 <= x < n implies seen_before(l, k + 1, x) == (seen_before(l, k, x)
        || same_cluster(l, k, x)) by {
        lemma_seen_step(l, k, x);
    }
    if fresh {
        // no earlier leader shares k's cluster
        assert forall|h: int| 0 <= h < lk.len() implies !same_cluster(l, k, #[trigger] lk[h] as int) by {
            if same_cluster(l, k, lk[h] as int) {
                assert(same_cluster(l, lk[h] as int, k));
            }
        }
        assert forall|g: int| 0 <= g < groups.len() implies #[trigger] groups[g] == cluster_of(
            l,
            (k + 1) as nat,
            lk1[g] as int,
        ) by {
            if g < old_groups.len() {
                lemma_cluster_of_push(l, k as nat, lk[g] as int);
                assert(!same_cluster(l, k, lk[g] as int));
            } else {
                lemma_cluster_of_push(l, k as nat, k);
                lemma_cluster_of_empty(l, k as nat, k);
                assert(lk1[g] == k);
                assert(cluster_of(l, k as nat, k) =~= Seq::<usize>::empty());
                assert(groups[g] =~= cluster_of(l, (k + 1) as nat, k));
            }
        }
        assert forall|g: int| 0 <= g < groups.len() implies index[sets.root(
            #[trigger] lk1[g] as int,
        )] == g by {
            if g < old_groups.len() {
                assert(lk1[g] == lk[g]);
                assert(!same_cluster(l, k, lk[g] as int));
                assert(sets.root(lk[g] as int) != sets.root(k));
            }
        }
        assert forall|x: int| 0 <= x < n implies (index[#[trigger] sets.root(x)] == usize::MAX
            <==> !seen_before(l, k + 1, x)) by {
            if sets.root(x) == root {
                assert(same_cluster(l, k, x));
            } else {
                assert(!same_cluster(l, k, x));
            }
        }
        assert forall|x: int| 0 <= x < n && index[#[trigger] sets.root(x)] != usize::MAX implies index[sets.root(x)]
            < groups.len() && same_cluster(l, lk1[index[sets.root(x)] as int] as int, x) by {
            if sets.root(x) == root {
                assert(same_cluster(l, k, x));
                assert(lk1[old_groups.len() as int] == k);
            } else {
                assert(lk1[old_index[sets.root(x)] as int] == lk[old_index[sets.root(x)] as int]);
            }
        }
    } else {
        let g0 = old_index[root] as int;
        assert(same_cluster(l, lk[g0] as int, k));
        assert forall|g: int| 0 <= g < groups.len() implies #[trigger] groups[g] == cluster_of(
            l,
            (k + 1) as nat,
            lk1[g] as int,
        ) by {
            lemma_cluster_of_push(l, k as nat, lk[g] as int);
            if g != g0 {
                if same_cluster(l, k, lk[g] as int) {
                    assert(sets.root(lk[g] as int) == sets.root(k));
                }
            }
        }
        assert forall|x: int| 0 <= x < n implies (index[#[trigger] sets.root(x)] == usize::MAX
            <==> !seen_before(l, k + 1, x)) by {
            if same_cluster(l, k, x) {
                assert(sets.root(x) == sets.root(k));
            }
        }
    }
}

/// Groups `0..n` into the clusters that the similar pairs `links` join: every
/// cluster once, its tokens in increasing order, the clusters ordered by their
/// smallest tokens.
pub fn cluster_members(n: usize, links: &[(usize, usize)]) -> (groups: Vec<Vec<usize>>)
    requires
        forall|i: int| 0 <= i < links.len() ==> #[trigger] links[i].0 < n && links[i].1 < n,
    ensures
        groups.len() == clusters_of(links@, n as nat).len(),
        forall|g: int| 0 <= g < groups.len() ==> #[trigger] groups[g]@ == clusters_of(links@, n as nat)[g],
{
    let ghost l = links@;
    let mut sets = join_links(n, links);
    let mut index: Vec<usize> = Vec::new();
    let mut i: usize = 0;
    while i < n
        invariant
            i <= n,
            index.len() == i,
            forall|j: int| 0 <= j < i ==> index[j] == usize::MAX,
        decreases n - i,
    {
        index.push(usize::MAX);
        i = i + 1;
    }
    let mut groups: Vec<Vec<usize>> = Vec::new();
    let mut id: usize = 0;
    proof {
        assert(cluster_leaders(l, 0) =~= Seq::<usize>::empty()) by {
            reveal(Seq::filter);
        }
        assert forall|x: int| 0 <= x < n implies (index[#[trigger] sets.root(x)] == usize::MAX) by {
            lemma_root_of(sets.parent@, sets.depth@, x);
        }
    }
    while id < n
        invariant
            sets.wf(),
            sets.parent.len() == n,
            l == links@,
            forall|x: int, y: int|
                0 <= x < n && 0 <= y < n ==> ((#[trigger] sets.root(x) == #[trigger] sets.root(y))
                    <==> same_cluster(l, x, y)),
            index.len() == n,
            id <= n,
            groups.len() == cluster_leaders(l, id as nat).len(),
            forall|g: int|
                0 <= g < groups.len() ==> #[trigger] groups[g]@ == cluster_of(
                    l,
                    id as nat,
                    cluster_leaders(l, id as nat)[g] as int,
                ),
            forall|g: int|
                0 <= g < groups.len() ==> index[sets.root(#[trigger] cluster_leaders(l, id as nat)[g] as int)]
                    == g,
            forall|x: int|
                0 <= x < n ==> (index[#[trigger] sets.root(x)] == usize::MAX <==> !seen_before(l, id as int, x)),
            forall|x: int|
                0 <= x < n && index[#[trigger] sets.root(x)] != usize::MAX ==> index[sets.root(x)] < groups.len()
                    && same_cluster(l, cluster_leaders(l, id as nat)[index[sets.root(x)] as int] as int, x),
        decreases n - id,
    {
        let ghost before = sets;
        let ghost old_index = index;
        let ghost old_groups = groups;
        let root = sets.find(id);
        let ghost k = id as int;
        proof {
            lemma_root_of(sets.parent@, sets.depth@, k);
            lemma_leaders_below(l, k as nat);
            lemma_leaders_push(l, k as nat);
            assert(sets.root(k) == root);
        }
        let ghost fresh = index[root as int] == usize::MAX;
        if index[root] == usize::MAX {
            index.set(root, groups.len());
            groups.push(Vec::new());
        }
        let g = index[root];
        groups[g].push(id);
        id = id + 1;
        proof {
            let og = old_groups@.map_values(|v: Vec<usize>| v@);
            let ng = groups@.map_values(|v: Vec<usize>| v@);
            if fresh {
                assert(ng =~= og.push(seq![k as usize]));
            } else {
                assert(ng =~= og.update(
                    old_index@[root as int] as int,
                    og[old_index@[root as int] as int].push(k as usize),
                ));
            }
            assert forall|x: int| 0 <= x < n implies 0 <= #[trigger] before.root(x) < n by {
                lemma_root_of(before.parent@, before.depth@, x);
            }
            lemma_group_step(l, n as int, k, before, old_index@, index@, og, ng, fresh, root as int);
            assert forall|g: int| 0 <= g < groups.len() implies #[trigger] groups[g]@ == cluster_of(
                l,
                id as nat,
                cluster_leaders(l, id as nat)[g] as int,
            ) by {
                assert(ng[g] == groups[g]@);
            }
        }
    }
    groups
}

} // verus!

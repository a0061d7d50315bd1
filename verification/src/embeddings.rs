//! Where a token embedding table sits among the model's parameters.
use vstd::prelude::*;
use crate::clusters::{cluster_members, clusters_of, shared_clusters};

verus! {

/// A contiguous run of parameters: `len` of them from index `start`.
#[derive(Clone, Copy)]
pub struct ParamRange {
    pub start: usize,
    pub len: usize,
}

/// An embedding table of `vocab_size` rows of `embedding_dim` parameters,
/// row after row, inside the model's parameter store.
#[derive(Clone, Copy)]
pub struct Embeddings {
    embedding_dim: usize,
    parameter_range: ParamRange,
}

impl Embeddings {
    pub closed spec fn dim(&self) -> usize {
        self.embedding_dim
    }

    pub closed spec fn range(&self) -> ParamRange {
        self.parameter_range
    }

    /// Every table has rows of at least one parameter.
    pub closed spec fn wf(&self) -> bool {
        self.embedding_dim > 0
    }

    /// A table for `vocab_size` tokens of `embedding_dim` parameters each,
    /// occupying the parameters from `first_parameter` on.
    pub fn new(first_parameter: usize, vocab_size: usize, embedding_dim: usize) -> (r: Embeddings)
        requires
            vocab_size > 0,
            embedding_dim > 0,
            vocab_size * embedding_dim <= usize::MAX,
        ensures
            r.wf(),
            r.dim() == embedding_dim,
            r.range() == (ParamRange { start: first_parameter, len: (vocab_size * embedding_dim) as usize }),
    {
        Embeddings {
            embedding_dim,
            parameter_range: ParamRange { start: first_parameter, len: vocab_size * embedding_dim },
        }
    }

    pub fn parameter_range(&self) -> (r: ParamRange)
        ensures
            r == self.range(),
    {
        self.parameter_range
    }

    pub fn embedding_dim(&self) -> (r: usize)
        ensures
            r == self.dim(),
    {
        self.embedding_dim
    }

    /// Number of rows: parameters over row width.
    pub fn vocab_size(&self) -> (r: usize)
        requires
            self.wf(),
        ensures
            r == self.range().len / self.dim(),
    {
        self.parameter_range.len / self.embedding_dim
    }

    pub fn parameter_count(&self) -> (r: usize)
        ensures
            r == self.range().len,
    {
        self.parameter_range.len
    }
    /// The clusters of more than one token that the pairs of similar tokens
    /// `similar` join, each in increasing order, ordered by their smallest
    /// tokens. Deciding which pairs are similar is left to the caller.
    pub fn find_clusters(&self, similar: &[(usize, usize)]) -> (clusters: Vec<Vec<usize>>)
        requires
            self.wf(),
            forall|i: int|
                0 <= i < similar.len() ==> #[trigger] similar[i].0 < self.range().len / self.dim()
                    && similar[i].1 < self.range().len / self.dim(),
        ensures
            clusters.len() == shared_clusters(similar@, (self.range().len / self.dim()) as nat).len(),
            forall|g: int|
                0 <= g < clusters.len() ==> #[trigger] clusters[g]@ == shared_clusters(
                    similar@,
                    (self.range().len / self.dim()) as nat,
                )[g],
    {
        let n = self.vocab_size();
        let mut groups = cluster_members(n, similar);
        let ghost all = groups@.map_values(|v: Vec<usize>| v@);
        proof {
            assert(all =~= clusters_of(similar@, n as nat));
        }
        let mut clusters: Vec<Vec<usize>> = Vec::new();
        let mut i: usize = 0;
        while i < groups.len()
            invariant
                i <= groups.len(),
                groups.len() == all.len(),
                forall|g: int| i <= g < groups.len() ==> #[trigger] groups[g]@ == all[g],
                clusters@.map_values(|v: Vec<usize>| v@) == all.subrange(0, i as int).filter(
                    |g: Seq<usize>| g.len() > 1,
                ),
            decreases groups.len() - i,
        {
            let ghost before = clusters@.map_values(|v: Vec<usize>| v@);
            let mut group: Vec<usize> = Vec::new();
            std::mem::swap(&mut group, &mut groups[i]);
            proof {
                reveal(Seq::filter);
                assert(all.subrange(0, i + 1).drop_last() =~= all.subrange(0, i as int));
            }
            if group.len() > 1 {
                clusters.push(group);
                assert(clusters@.map_values(|v: Vec<usize>| v@) =~= before.push(all[i as int]));
            }
            i = i + 1;
        }
        proof {
            assert(all.subrange(0, all.len() as int) =~= all);
            assert forall|g: int| 0 <= g < clusters.len() implies #[trigger] clusters[g]@ == shared_clusters(
                similar@,
                n as nat,
            )[g] by {
                assert(clusters@.map_values(|v: Vec<usize>| v@)[g] == clusters[g]@);
            }
        }
        clusters
    }
}

} // verus!

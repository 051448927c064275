use vstd::prelude::*;
use crate::error::{length_error, length_error_seq, NNSearchError};
use crate::graph::{
    item_lt, wired, CostedItem, CostedItemSet, GraphOperator, NavigableSmallWorldGraph,
    VectorNode,
};
use crate::linalg::distance::{metric_dist, DistanceType};

verus! {

/// The exact baseline: every stored point is scanned and ranked on each
/// query.
#[derive(Debug)]
pub struct NaiveKnnIndex {
    pub dim: usize,
    pub distance: DistanceType,
    pub points: Vec<Vec<i32>>,
}

impl NaiveKnnIndex {
    /// Number of stored points.
    pub open spec fn n(&self) -> nat {
        self.points@.len()
    }

    /// Every stored point has the configured dimensionality.
    pub open spec fn wf(&self) -> bool {
        forall|i: int| 0 <= i < self.n() ==> (#[trigger] self.points@[i])@.len() == self.dim
    }

    /// True distance from a query to the stored point at `id`.
    pub open spec fn dist_to(&self, q: Seq<i32>, id: int) -> int {
        metric_dist(self.distance, q, self.points@[id]@)
    }

    /// Ranking of stored indices by distance to the query, ties by index.
    pub open spec fn nid_lt(&self, q: Seq<i32>, a: int, b: int) -> bool {
        self.dist_to(q, a) < self.dist_to(q, b) || (self.dist_to(q, a) == self.dist_to(q, b)
            && a < b)
    }

    /// The ranked entry a scan associates with the stored index `id`.
    pub open spec fn scan_item(&self, q: Seq<i32>, id: int) -> CostedItem {
        CostedItem { id: id as usize, cost: self.dist_to(q, id) as u128 }
    }

    /// A scanned working set is made of stored indices with true distances.
    pub open spec fn scan_valid(&self, q: Seq<i32>, s: Seq<CostedItem>) -> bool {
        forall|t: int|
            0 <= t < s.len() ==> (#[trigger] s[t]).id < self.n() && s[t].cost as int
                == self.dist_to(q, s[t].id as int)
    }

    proof fn lemma_scan_valid_after_insert(
        &self,
        q: Seq<i32>,
        s0: Seq<CostedItem>,
        s1: Seq<CostedItem>,
        item: CostedItem,
    )
        requires
            self.scan_valid(q, s0),
            item.id < self.n(),
            item.cost as int == self.dist_to(q, item.id as int),
            forall|x: CostedItem| s1.contains(x) <==> (s0.contains(x) || x == item),
        ensures
            self.scan_valid(q, s1),
    {
        assert forall|t: int| 0 <= t < s1.len() implies (#[trigger] s1[t]).id < self.n()
            && s1[t].cost as int == self.dist_to(q, s1[t].id as int) by {
            assert(s1.contains(s1[t]));
            if s0.contains(s1[t]) {
                let j = choose|j: int| 0 <= j < s0.len() && s0[j] == s1[t];
                assert(s0[j].id < self.n());
            }
        }
    }

    /// Store one point. The only failure is a dimensionality mismatch, in
    /// which case the index is unchanged.
    pub fn add(&mut self, data: Vec<i32>) -> (r: Result<(), NNSearchError>)
        requires
            old(self).wf(),
        ensures
            final(self).wf(),
            final(self).dim == old(self).dim,
            final(self).distance == old(self).distance,
            (data@.len() == old(self).dim) <==> r is Ok,
            r is Ok ==> final(self).points@ == old(self).points@.push(data),
            r matches Err(e) ==> ({
                &&& *final(self) == *old(self)
                &&& e matches NNSearchError::ValueError(m) && m@ == length_error_seq(
                    data@.len(),
                    old(self).dim as nat,
                )
            }),
    {
        if data.len() != self.dim {
            return Err(length_error(data.len(), self.dim));
        }
        self.points.push(data);
        Ok(())
    }

    /// Store a batch of points, one by one, in order.
    pub fn add_batch(&mut self, data_batch: Vec<Vec<i32>>) -> (r: Result<(), NNSearchError>)
        requires
            old(self).wf(),
            forall|i: int|
                0 <= i < data_batch@.len() ==> (#[trigger] data_batch@[i])@.len() == old(
                    self,
                ).dim,
        ensures
            final(self).wf(),
            r is Ok,
            final(self).dim == old(self).dim,
            final(self).distance == old(self).distance,
            final(self).n() == old(self).n() + data_batch@.len(),
    {
        let mut rest = data_batch;
        while rest.len() > 0
            invariant
                self.wf(),
                self.dim == old(self).dim,
                self.distance == old(self).distance,
                forall|i: int|
                    0 <= i < rest@.len() ==> (#[trigger] rest@[i])@.len() == old(self).dim,
                self.n() + rest@.len() == old(self).n() + data_batch@.len(),
            decreases rest@.len(),
        {
            let data = rest.remove(0);
            let _ = self.add(data);
        }
        Ok(())
    }

    /// Exact k-nearest search: the `min(k, n)` stored indices closest to
    /// the query, in ascending (distance, index) order; every returned
    /// index ranks no worse than any index left out. Fails exactly when
    /// the query's length is not the configured dimensionality.
    #[verifier::loop_isolation(false)]
    pub fn search(&self, query: Vec<i32>, k: usize) -> (r: Result<Vec<usize>, NNSearchError>)
        requires
            self.wf(),
        ensures
            (query@.len() == self.dim) <==> r is Ok,
            r matches Err(e) ==> e matches NNSearchError::ValueError(m) && m@
                == length_error_seq(query@.len(), self.dim as nat),
            r matches Ok(ids) ==> {
                &&& ids@.len() == if (k as nat) <= self.n() {
                    k as nat
                } else {
                    self.n()
                }
                &&& forall|i: int| 0 <= i < ids@.len() ==> (#[trigger] ids@[i]) < self.n()
                &&& forall|i: int, j: int|
                    0 <= i < j < ids@.len() ==> self.nid_lt(
                        query@,
                        #[trigger] ids@[i] as int,
                        #[trigger] ids@[j] as int,
                    )
                &&& forall|ai: int, b: int|
                    #![trigger ids@[ai], ids@.contains(b as usize)]
                    0 <= ai < ids@.len() && 0 <= b < self.n() && !ids@.contains(b as usize)
                        ==> self.nid_lt(query@, ids@[ai] as int, b)
            },
    {
        let ghost q = query@;
        if query.len() != self.dim {
            return Err(length_error(query.len(), self.dim));
        }
        let n = self.points.len();
        let mut scores = CostedItemSet::new();
        for id in 0..n
            invariant
                query@.len() == self.dim,
                n == self.n(),
                scores.wf(),
                scores@.len() == id,
                self.scan_valid(q, scores@),
                forall|t: int| 0 <= t < scores@.len() ==> (#[trigger] scores@[t]).id < id,
                forall|id0: int|
                    0 <= id0 < id ==> scores@.contains(#[trigger] self.scan_item(q, id0)),
        {
            let d = crate::linalg::distance::compute_metric(
                self.distance,
                query.as_slice(),
                self.points[id].as_slice(),
            );
            let item = CostedItem { id, cost: d };
            let ghost pre = scores@;
            proof {
                assert(item == self.scan_item(q, id as int));
                assert(!scores@.contains(item)) by {
                    if scores@.contains(item) {
                        let t = choose|t: int| 0 <= t < scores@.len() && scores@[t] == item;
                        assert(scores@[t].id < id);
                    }
                }
            }
            scores.insert(item);
            proof {
                self.lemma_scan_valid_after_insert(q, pre, scores@, item);
                assert forall|t: int| 0 <= t < scores@.len() implies (#[trigger] scores@[t]).id
                    < id + 1 by {
                    assert(scores@.contains(scores@[t]));
                    if pre.contains(scores@[t]) {
                        let j = choose|j: int| 0 <= j < pre.len() && pre[j] == scores@[t];
                        assert(pre[j].id < id);
                    }
                }
            }
        }
        let ids = scores.ids_prefix(k);
        proof {
            let m = ids@.len();
            assert forall|i: int, j: int| 0 <= i < j < m implies self.nid_lt(
                q,
                #[trigger] ids@[i] as int,
                #[trigger] ids@[j] as int,
            ) by {
                assert(item_lt(scores@[i], scores@[j]));
            }
            assert forall|ai: int, b: int|
                #![trigger ids@[ai], ids@.contains(b as usize)]
                0 <= ai < m && 0 <= b < self.n() && !ids@.contains(b as usize) implies self.nid_lt(
                q,
                ids@[ai] as int,
                b,
            ) by {
                assert(scores@.contains(self.scan_item(q, b)));
                let t = choose|t: int|
                    0 <= t < scores@.len() && scores@[t] == self.scan_item(q, b);
                if t < m {
                    assert(ids@[t] == b as usize);
                } else if t > ai {
                    assert(item_lt(scores@[ai], scores@[t]));
                }
            }
        }
        Ok(ids)
    }
}

/// The approximate index: a thin dimensional guard around the navigable
/// small-world graph engine.
pub struct NSWIndex {
    dim: usize,
    graph: NavigableSmallWorldGraph,
}

impl NSWIndex {
    /// The engine this index wraps, for stating contracts.
    pub closed spec fn graph_spec(&self) -> NavigableSmallWorldGraph {
        self.graph
    }

    /// The configured dimensionality.
    pub closed spec fn dim_spec(&self) -> nat {
        self.dim as nat
    }

    /// Number of stored vectors.
    pub open spec fn n(&self) -> nat {
        self.graph_spec().n()
    }

    /// The graph is well formed and every stored vector matches the
    /// configured dimensionality.
    pub open spec fn wf(&self) -> bool {
        &&& self.graph_spec().wf()
        &&& self.n() > 0 ==> self.graph_spec().dim() == self.dim_spec()
    }

    /// Build an empty index over `dim`-dimensional vectors with the given
    /// metric, number of search restarts, target degree for freshly wired
    /// nodes, and the seed of the per-call random entry choice.
    pub fn new(dim: usize, distance: DistanceType, trial: usize, min_degree: usize, seed: u64) -> (r:
        Self)
        requires
            min_degree >= 1,
        ensures
            r.wf(),
            r.n() == 0,
            r.dim_spec() == dim as nat,
            r.graph_spec().trial == trial,
            r.graph_spec().min_degree == min_degree,
            r.graph_spec().distance == distance,
            r.graph_spec().seed == seed,
    {
        NSWIndex {
            dim,
            graph: NavigableSmallWorldGraph {
                trial,
                min_degree,
                id2adjacency_ids: Vec::new(),
                id2node: Vec::new(),
                distance,
                seed,
            },
        }
    }

    /// Insert one vector and return its engine-assigned id: the current
    /// size of the index. The first vector gets id 0 and no edges; any
    /// later vector is wired bidirectionally to the nearest ids the engine
    /// finds for it. Fails exactly on a dimensionality mismatch, leaving
    /// the index unchanged.
    pub fn add(&mut self, data: Vec<i32>) -> (r: Result<usize, NNSearchError>)
        requires
            old(self).wf(),
        ensures
            final(self).wf(),
            final(self).dim_spec() == old(self).dim_spec(),
            (data@.len() == old(self).dim_spec()) <==> r is Ok,
            r matches Err(e) ==> ({
                &&& *final(self) == *old(self)
                &&& e matches NNSearchError::ValueError(m) && m@ == length_error_seq(
                    data@.len(),
                    old(self).dim_spec(),
                )
            }),
            r matches Ok(id) ==> id == old(self).n() && final(self).n() == old(self).n() + 1,
            (r is Ok && old(self).n() == 0) ==> wired(
                old(self).graph_spec(),
                final(self).graph_spec(),
                VectorNode { id: 0, vec: data },
                Seq::<usize>::empty(),
            ),
            (r is Ok && old(self).n() > 0) ==> exists|nns: Seq<usize>|
                #[trigger] wired(
                    old(self).graph_spec(),
                    final(self).graph_spec(),
                    VectorNode { id: old(self).n() as usize, vec: data },
                    nns,
                ) && old(self).graph_spec().search_post(
                    data@,
                    old(self).graph_spec().min_degree as nat,
                    nns,
                ),
    {
        if data.len() != self.dim {
            return Err(length_error(data.len(), self.dim));
        }
        let id = self.graph.len();
        let node = VectorNode { id, vec: data };
        let _ = self.graph.add_node(node);
        Ok(id)
    }

    /// Insert a batch of vectors, one by one, in order.
    pub fn add_batch(&mut self, data_batch: Vec<Vec<i32>>) -> (r: Result<(), NNSearchError>)
        requires
            old(self).wf(),
            forall|i: int|
                0 <= i < data_batch@.len() ==> (#[trigger] data_batch@[i])@.len() == old(
                    self,
                ).dim_spec(),
        ensures
            final(self).wf(),
            r is Ok,
            final(self).dim_spec() == old(self).dim_spec(),
            final(self).n() == old(self).n() + data_batch@.len(),
    {
        let mut rest = data_batch;
        while rest.len() > 0
            invariant
                self.wf(),
                self.dim_spec() == old(self).dim_spec(),
                forall|i: int|
                    0 <= i < rest@.len() ==> (#[trigger] rest@[i])@.len() == old(
                        self,
                    ).dim_spec(),
                self.n() + rest@.len() == old(self).n() + data_batch@.len(),
            decreases rest@.len(),
        {
            let data = rest.remove(0);
            let _ = self.add(data);
        }
        Ok(())
    }

    /// Answer a k-nearest query: up to `k` stored ids in ascending
    /// (distance, id) order. When the index holds no more than `k`
    /// vectors, all stored ids come back exactly sorted; the caller
    /// observes an under-filled result as a length below `k`. Fails
    /// exactly on a dimensionality mismatch of the query.
    pub fn search(&self, query: Vec<i32>, k: usize) -> (r: Result<Vec<usize>, NNSearchError>)
        requires
            self.wf(),
            k >= 1,
        ensures
            (query@.len() == self.dim_spec()) <==> r is Ok,
            r matches Err(e) ==> e matches NNSearchError::ValueError(m) && m@
                == length_error_seq(query@.len(), self.dim_spec()),
            r matches Ok(ids) ==> self.graph_spec().search_post(query@, k as nat, ids@),
    {
        if query.len() != self.dim {
            return Err(length_error(query.len(), self.dim));
        }
        let node = VectorNode { id: usize::MAX, vec: query };
        let knn = self.graph.search_nearest_neighbor(&node, k);
        Ok(knn)
    }
}

} // verus!

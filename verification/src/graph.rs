use vstd::prelude::*;
use crate::linalg::distance::{metric_dist, DistanceType};
use crate::linalg::utils::{gen_below, get_rng};

verus! {

/// One stored vector: a unique engine-assigned id and its fixed-point
/// coordinates.
#[derive(Debug)]
pub struct VectorNode {
    pub id: usize,
    pub vec: Vec<i32>,
}

/// An id paired with its distance to the query of the current search call.
#[derive(Debug, Clone, Copy, PartialEq, Eq, Structural)]
pub struct CostedItem {
    pub id: usize,
    pub cost: u128,
}

/// Strict total order on candidate entries: by distance, ties broken by id,
/// so that distinct ids with equal distances are never conflated.
pub open spec fn item_lt(a: CostedItem, b: CostedItem) -> bool {
    a.cost < b.cost || (a.cost == b.cost && a.id < b.id)
}

fn costed_lt(a: CostedItem, b: CostedItem) -> (r: bool)
    ensures
        r == item_lt(a, b),
{
    a.cost < b.cost || (a.cost == b.cost && a.id < b.id)
}

/// An ordered set of `CostedItem`s, kept strictly sorted under `item_lt`.
/// It serves both as the min-first working set of candidates and as the
/// accumulated result set of a search call.
pub struct CostedItemSet {
    items: Vec<CostedItem>,
}

impl View for CostedItemSet {
    type V = Seq<CostedItem>;

    closed spec fn view(&self) -> Seq<CostedItem> {
        self.items@
    }
}

impl CostedItemSet {
    /// Strictly ascending under `item_lt`; in particular no entry repeats.
    pub open spec fn wf(&self) -> bool {
        forall|i: int, j: int|
            0 <= i < j < self@.len() ==> item_lt(#[trigger] self@[i], #[trigger] self@[j])
    }

    pub fn new() -> (s: Self)
        ensures
            s.wf(),
            s@.len() == 0,
    {
        CostedItemSet { items: Vec::new() }
    }

    pub fn len(&self) -> (n: usize)
        ensures
            n == self@.len(),
    {
        self.items.len()
    }

    pub fn get(&self, i: usize) -> (r: CostedItem)
        requires
            i < self@.len(),
        ensures
            r == self@[i as int],
    {
        self.items[i]
    }

    /// Set-insert: the entry is added at its ordered position, or nothing
    /// changes if the very same (id, distance) pair is already present.
    pub fn insert(&mut self, item: CostedItem)
        requires
            old(self).wf(),
        ensures
            final(self).wf(),
            old(self)@.contains(item) ==> final(self)@ == old(self)@,
            !old(self)@.contains(item) ==> final(self)@.len() == old(self)@.len() + 1,
            forall|x: CostedItem| final(self)@.contains(x) <==> (old(self)@.contains(x) || x == item),
    {
        let ghost orig = self.items@;
        let mut pos: usize = 0;
        while pos < self.items.len() && costed_lt(self.items[pos], item)
            invariant
                self.items@ == orig,
                pos <= orig.len(),
                forall|j: int| 0 <= j < pos ==> item_lt(#[trigger] orig[j], item),
            decreases orig.len() - pos,
        {
            pos = pos + 1;
        }
        if pos < self.items.len() {
            let cur = self.items[pos];
            if cur.cost == item.cost && cur.id == item.id {
                proof {
                    assert(orig[pos as int] == item);
                    assert(orig.contains(item));
                }
                return ;
            }
        }
        proof {
            assert(orig == old(self)@);
            assert forall|i: int, j: int| 0 <= i < j < orig.len() implies item_lt(
                #[trigger] orig[i],
                #[trigger] orig[j],
            ) by {
                assert(item_lt(old(self)@[i], old(self)@[j]));
            }
            // Everything at or past `pos` is strictly greater than `item`.
            if pos < orig.len() {
                assert(!item_lt(orig[pos as int], item));
                assert(orig[pos as int] != item);
                assert(item_lt(item, orig[pos as int]));
            }
            assert forall|j: int| pos <= j < orig.len() implies item_lt(
                item,
                #[trigger] orig[j],
            ) by {
                if j > pos {
                    assert(item_lt(orig[pos as int], orig[j]));
                }
            }
            assert(!orig.contains(item)) by {
                if orig.contains(item) {
                    let j = choose|j: int| 0 <= j < orig.len() && orig[j] == item;
                    if j < pos {
                        assert(item_lt(orig[j], item));
                    } else {
                        assert(item_lt(item, orig[j]));
                    }
                }
            }
        }
        self.items.insert(pos, item);
        proof {
            orig.insert_ensures(pos as int, item);
            let cur = self.items@;
            assert(cur == orig.insert(pos as int, item));
            assert forall|i: int, j: int| 0 <= i < j < cur.len() implies item_lt(
                #[trigger] cur[i],
                #[trigger] cur[j],
            ) by {
                if j < pos {
                    assert(item_lt(orig[i], orig[j]));
                } else if i > pos {
                    assert(item_lt(orig[i - 1], orig[j - 1]));
                } else if i == pos && j > pos {
                    assert(cur[i] == item && cur[j] == orig[j - 1]);
                } else if j == pos {
                    assert(cur[i] == orig[i] && cur[j] == item);
                } else {
                    // i < pos < j
                    assert(cur[i] == orig[i] && cur[j] == orig[j - 1]);
                    assert(item_lt(item, orig[j - 1]));
                }
            }
            assert forall|x: CostedItem| self@.contains(x) implies (orig.contains(x) || x
                == item) by {
                let j = choose|j: int| 0 <= j < cur.len() && cur[j] == x;
                if j < pos {
                    assert(orig[j] == x);
                } else if j > pos {
                    assert(orig[j - 1] == x);
                }
            }
            assert forall|x: CostedItem| (orig.contains(x) || x == item) implies self@.contains(
                x,
            ) by {
                if x == item {
                    assert(cur[pos as int] == x);
                } else {
                    let j = choose|j: int| 0 <= j < orig.len() && orig[j] == x;
                    if j < pos {
                        assert(cur[j] == x);
                    } else {
                        assert(cur[j + 1] == x);
                    }
                }
            }
        }
    }

    /// Remove and return the minimum entry, if any.
    pub fn pop_first(&mut self) -> (r: Option<CostedItem>)
        requires
            old(self).wf(),
        ensures
            final(self).wf(),
            old(self)@.len() == 0 ==> r is None && final(self)@ == old(self)@,
            old(self)@.len() > 0 ==> r == Some(old(self)@[0]) && final(self)@ == old(self)@.subrange(
                1,
                old(self)@.len() as int,
            ),
            r matches Some(m) ==> forall|j: int|
                0 <= j < final(self)@.len() ==> item_lt(m, #[trigger] final(self)@[j]),
    {
        if self.items.len() == 0 {
            None
        } else {
            let m = self.items.remove(0);
            proof {
                assert(self.items@ =~= old(self)@.subrange(1, old(self)@.len() as int));
            }
            Some(m)
        }
    }

    /// The ids of the first `k` entries in ascending order (all of them if
    /// fewer than `k` are present).
    pub fn ids_prefix(&self, k: usize) -> (r: Vec<usize>)
        ensures
            r@.len() == if k <= self@.len() {
                k as int
            } else {
                self@.len() as int
            },
            forall|i: int| 0 <= i < r@.len() ==> r@[i] == self@[i].id,
    {
        let n = self.items.len();
        let m = if k <= n {
            k
        } else {
            n
        };
        let mut r: Vec<usize> = Vec::new();
        for i in 0..m
            invariant
                m <= self@.len(),
                r@.len() == i,
                forall|j: int| 0 <= j < i ==> r@[j] == self@[j].id,
        {
            r.push(self.items[i].id);
        }
        r
    }
}

/// How many entries of a boolean sequence are set.
pub open spec fn count_trues(s: Seq<bool>) -> nat
    decreases s.len(),
{
    if s.len() == 0 {
        0
    } else {
        count_trues(s.drop_last()) + if s.last() {
            1nat
        } else {
            0nat
        }
    }
}

proof fn lemma_count_trues_le(s: Seq<bool>)
    ensures
        count_trues(s) <= s.len(),
    decreases s.len(),
{
    if s.len() > 0 {
        lemma_count_trues_le(s.drop_last());
    }
}

proof fn lemma_count_trues_update(s: Seq<bool>, i: int)
    requires
        0 <= i < s.len(),
        !s[i],
    ensures
        count_trues(s.update(i, true)) == count_trues(s) + 1,
    decreases s.len(),
{
    let t = s.update(i, true);
    if i == s.len() - 1 {
        assert(t.drop_last() =~= s.drop_last());
    } else {
        assert(t.drop_last() =~= s.drop_last().update(i, true));
        lemma_count_trues_update(s.drop_last(), i);
    }
}

proof fn lemma_count_trues_zero(s: Seq<bool>)
    requires
        forall|j: int| 0 <= j < s.len() ==> !(#[trigger] s[j]),
    ensures
        count_trues(s) == 0,
    decreases s.len(),
{
    if s.len() > 0 {
        lemma_count_trues_zero(s.drop_last());
    }
}

proof fn lemma_count_trues_pos(s: Seq<bool>, i: int)
    requires
        0 <= i < s.len(),
        s[i],
    ensures
        count_trues(s) >= 1,
    decreases s.len(),
{
    if i < s.len() - 1 {
        lemma_count_trues_pos(s.drop_last(), i);
    }
}

/// Per-search-call memo of distances from the query to stored ids, so that
/// no pairwise distance is computed more than once within one search call.
#[derive(Debug)]
pub struct DistanceCache {
    pub cache: Vec<Option<u128>>,
}

impl DistanceCache {
    /// A fresh, empty cache with one slot per stored id.
    pub fn new(n: usize) -> (c: Self)
        ensures
            c.cache@.len() == n,
            forall|j: int| 0 <= j < n ==> c.cache@[j] is None,
    {
        let mut cache: Vec<Option<u128>> = Vec::new();
        for i in 0..n
            invariant
                cache@.len() == i,
                forall|j: int| 0 <= j < i ==> cache@[j] is None,
        {
            cache.push(None);
        }
        DistanceCache { cache }
    }

    /// The distance from `query` to `target`, computed on the first request
    /// for `target.id` and replayed from the cache afterwards.
    pub fn get_distance(&mut self, distance: DistanceType, query: &VectorNode, target: &VectorNode) -> (r:
        u128)
        requires
            target.id < old(self).cache@.len(),
            query.vec@.len() == target.vec@.len(),
            old(self).cache@[target.id as int] matches Some(d) ==> d as int == metric_dist(
                distance,
                query.vec@,
                target.vec@,
            ),
        ensures
            r as int == metric_dist(distance, query.vec@, target.vec@),
            final(self).cache@ == old(self).cache@.update(target.id as int, Some(r)),
    {
        match self.cache[target.id] {
            Some(d) => {
                proof {
                    assert(old(self).cache@.update(target.id as int, Some(d)) =~= old(
                        self,
                    ).cache@);
                }
                d
            },
            None => {
                let d = crate::linalg::distance::compute_metric(
                    distance,
                    query.vec.as_slice(),
                    target.vec.as_slice(),
                );
                let _ = self.cache.remove(target.id);
                self.cache.insert(target.id, Some(d));
                proof {
                    assert(self.cache@ =~= old(self).cache@.update(target.id as int, Some(d)));
                }
                d
            },
        }
    }
}

/// Distance lookups are idempotent within one search call. After a lookup
/// for some id has stored its distance (`c1[id] == Some(r1)`, with `r1` the
/// true distance), a second lookup for the same id — whose contract yields a
/// result `r2` equal to the same true distance and the cache updated at that
/// id — returns the very same value and leaves the cache exactly as it was:
/// the metric is never evaluated a second time for that id.
pub proof fn lemma_cache_idempotent(
    dt: DistanceType,
    q: Seq<i32>,
    target: Seq<i32>,
    id: int,
    c1: Seq<Option<u128>>,
    r1: u128,
    c2: Seq<Option<u128>>,
    r2: u128,
)
    requires
        0 <= id < c1.len(),
        r1 as int == metric_dist(dt, q, target),
        c1[id] == Some(r1),
        r2 as int == metric_dist(dt, q, target),
        c2 == c1.update(id, Some(r2)),
    ensures
        r2 == r1,
        c2 == c1,
{
    assert(c2 =~= c1);
}

/// The navigable small-world proximity graph: stored vectors, their
/// adjacency, and the configuration of the search engine. Ids are assigned
/// sequentially, so id `i` lives at index `i` of `id2node` and of
/// `id2adjacency_ids`.
#[derive(Debug)]
pub struct NavigableSmallWorldGraph {
    pub trial: usize,
    pub min_degree: usize,
    pub id2adjacency_ids: Vec<Vec<usize>>,
    pub id2node: Vec<VectorNode>,
    pub distance: DistanceType,
    pub seed: u64,
}

impl NavigableSmallWorldGraph {
    /// Number of stored vectors.
    pub open spec fn n(&self) -> nat {
        self.id2node@.len()
    }

    /// Dimensionality shared by every stored vector (0 while empty).
    pub open spec fn dim(&self) -> nat {
        if self.n() > 0 {
            self.id2node@[0].vec@.len()
        } else {
            0
        }
    }

    /// True distance from a query to the stored vector with the given id.
    pub open spec fn dist_to(&self, q: Seq<i32>, id: int) -> int {
        metric_dist(self.distance, q, self.id2node@[id].vec@)
    }

    /// Order on stored ids by distance to the query, ties broken by id.
    pub open spec fn id_lt(&self, q: Seq<i32>, a: int, b: int) -> bool {
        self.dist_to(q, a) < self.dist_to(q, b) || (self.dist_to(q, a) == self.dist_to(q, b)
            && a < b)
    }

    /// The candidate entry a search for `q` associates with a stored id.
    pub open spec fn cost_item(&self, q: Seq<i32>, id: int) -> CostedItem {
        CostedItem { id: id as usize, cost: self.dist_to(q, id) as u128 }
    }

    /// Structural invariants of the store: records and adjacency rows are
    /// aligned, ids are the indices, every vector has the shared
    /// dimensionality, every neighbor id is stored, and the graph is
    /// undirected (adjacency is symmetric).
    pub open spec fn wf(&self) -> bool {
        &&& self.id2adjacency_ids@.len() == self.n()
        &&& self.min_degree >= 1
        &&& forall|i: int| 0 <= i < self.n() ==> (#[trigger] self.id2node@[i]).id == i
        &&& forall|i: int|
            0 <= i < self.n() ==> (#[trigger] self.id2node@[i]).vec@.len() == self.dim()
        &&& forall|i: int, j: int|
            0 <= i < self.n() && 0 <= j < self.id2adjacency_ids@[i]@.len()
                ==> (#[trigger] self.id2adjacency_ids@[i]@[j]) < self.n()
        &&& forall|a: usize, b: usize|
            a < self.n() && b < self.n() ==> ((#[trigger] self.id2adjacency_ids@[
                a as int
            ]@.contains(b)) <==> self.id2adjacency_ids@[b as int]@.contains(a))
    }

    /// Every entry of a working set names a stored id and carries its true
    /// distance to the query.
    pub open spec fn items_valid(&self, q: Seq<i32>, s: Seq<CostedItem>) -> bool {
        forall|t: int|
            0 <= t < s.len() ==> (#[trigger] s[t]).id < self.n() && s[t].cost as int
                == self.dist_to(q, s[t].id as int)
    }

    /// A set-insert of a valid entry keeps a working set valid.
    proof fn lemma_items_valid_after_insert(
        &self,
        q: Seq<i32>,
        s0: Seq<CostedItem>,
        s1: Seq<CostedItem>,
        item: CostedItem,
    )
        requires
            self.items_valid(q, s0),
            item.id < self.n(),
            item.cost as int == self.dist_to(q, item.id as int),
            forall|x: CostedItem| s1.contains(x) <==> (s0.contains(x) || x == item),
        ensures
            self.items_valid(q, s1),
    {
        assert forall|t: int| 0 <= t < s1.len() implies (#[trigger] s1[t]).id < self.n()
            && s1[t].cost as int == self.dist_to(q, s1[t].id as int) by {
            assert(s1.contains(s1[t]));
            if s0.contains(s1[t]) {
                let j = choose|j: int| 0 <= j < s0.len() && s0[j] == s1[t];
                assert(s0[j].id < self.n());
            }
        }
    }

    /// Every cached distance is the true distance to the query.
    pub open spec fn cache_valid(&self, q: Seq<i32>, c: Seq<Option<u128>>) -> bool {
        &&& c.len() == self.n()
        &&& forall|j: int|
            0 <= j < c.len() ==> ((#[trigger] c[j]) matches Some(d) ==> d as int == self.dist_to(
                q,
                j,
            ))
    }

    /// What a search call promises of its result: every returned id is
    /// stored; the returned ids come in strictly ascending (distance, id)
    /// order; when the store holds no more than `k` vectors, all of them
    /// are returned; otherwise at most `k` ids come back, and at least one
    /// does whenever at least one restart is configured.
    pub open spec fn search_post(&self, q: Seq<i32>, k: nat, r: Seq<usize>) -> bool {
        &&& forall|i: int| 0 <= i < r.len() ==> (#[trigger] r[i]) < self.n()
        &&& forall|i: int, j: int|
            0 <= i < j < r.len() ==> self.id_lt(q, #[trigger] r[i] as int, #[trigger] r[j] as int)
        &&& self.n() <= k ==> r.len() == self.n() && (forall|id: int|
            0 <= id < self.n() ==> #[trigger] r.contains(id as usize))
        &&& self.n() > k ==> r.len() <= k && (self.trial >= 1 ==> r.len() >= 1)
    }

    /// The multi-restart greedy graph search.
    ///
    /// When the store holds no more than `k` vectors it falls back to an
    /// exact scan: all stored ids, sorted by ascending distance. Otherwise
    /// `trial` random entry points seed a min-first expansion over the
    /// adjacency, pruned once the k-th best distance found so far no longer
    /// exceeds the current frontier, and the `k` best ids found are
    /// returned (fewer when the restarts reached fewer).
    #[verifier::loop_isolation(false)]
    fn approx_knn_search(&self, query: &VectorNode, k: usize) -> (r: Vec<usize>)
        requires
            self.wf(),
            k >= 1,
            self.n() > 0 ==> query.vec@.len() == self.dim(),
        ensures
            self.search_post(query.vec@, k as nat, r@),
    {
        let ghost q = query.vec@;
        let n = self.id2node.len();
        if n <= k {
            // Exact fallback: the result is shorter than requested, which
            // the caller observes as a length below `k`.
            let mut all = CostedItemSet::new();
            for id in 0..n
                invariant
                    all.wf(),
                    all@.len() == id,
                    self.items_valid(q, all@),
                    forall|t: int| 0 <= t < all@.len() ==> (#[trigger] all@[t]).id < id,
                    forall|id0: int| 0 <= id0 < id ==> all@.contains(#[trigger] self.cost_item(q, id0)),
            {
                let d = crate::linalg::distance::compute_metric(
                    self.distance,
                    query.vec.as_slice(),
                    self.id2node[id].vec.as_slice(),
                );
                let item = CostedItem { id, cost: d };
                let ghost pre = all@;
                proof {
                    assert(item == self.cost_item(q, id as int));
                    assert(!all@.contains(item)) by {
                        if all@.contains(item) {
                            let t = choose|t: int| 0 <= t < all@.len() && all@[t] == item;
                            assert(all@[t].id < id);
                        }
                    }
                }
                all.insert(item);
                proof {
                    self.lemma_items_valid_after_insert(q, pre, all@, item);
                    assert forall|t: int| 0 <= t < all@.len() implies (#[trigger] all@[t]).id
                        < id + 1 by {
                        assert(all@.contains(all@[t]));
                        if pre.contains(all@[t]) {
                            let j = choose|j: int| 0 <= j < pre.len() && pre[j] == all@[t];
                            assert(pre[j].id < id);
                        }
                    }
                }
            }
            let r = all.ids_prefix(n);
            proof {
                assert forall|id: int| 0 <= id < self.n() implies #[trigger] r@.contains(
                    id as usize,
                ) by {
                    assert(all@.contains(self.cost_item(q, id)));
                    let t = choose|t: int| 0 <= t < all@.len() && all@[t] == self.cost_item(q, id);
                    assert(r@[t] == id as usize);
                }
                assert forall|i: int, j: int| 0 <= i < j < r@.len() implies self.id_lt(
                    q,
                    #[trigger] r@[i] as int,
                    #[trigger] r@[j] as int,
                ) by {
                    assert(item_lt(all@[i], all@[j]));
                }
            }
            return r;
        }
        let mut rng = get_rng(self.seed);
        let mut candidates = CostedItemSet::new();
        let mut visited: Vec<bool> = Vec::new();
        for i in 0..n
            invariant
                visited@.len() == i,
                forall|j: int| 0 <= j < i ==> !(#[trigger] visited@[j]),
        {
            visited.push(false);
        }
        let mut visited_count: usize = 0;
        let mut result = CostedItemSet::new();
        let mut dist_cache = DistanceCache::new(n);
        proof {
            assert(count_trues(visited@) == 0) by {
                lemma_count_trues_zero(visited@);
            }
        }
        for t in 0..self.trial
            invariant
                candidates.wf(),
                self.items_valid(q, candidates@),
                result.wf(),
                self.items_valid(q, result@),
                visited@.len() == n,
                visited_count == count_trues(visited@),
                visited_count <= n,
                self.cache_valid(q, dist_cache.cache@),
                t >= 1 ==> result@.len() >= 1,
                count_trues(visited@) >= 1 ==> result@.len() >= 1,
        {
            let entry_id = gen_below(&mut rng, n);
            let ec = dist_cache.get_distance(self.distance, query, &self.id2node[entry_id]);
            let ghost pre_entry = candidates@;
            candidates.insert(CostedItem { id: entry_id, cost: ec });
            proof {
                self.lemma_items_valid_after_insert(
                    q,
                    pre_entry,
                    candidates@,
                    CostedItem { id: entry_id, cost: ec },
                );
                assert(candidates@.contains(CostedItem { id: entry_id, cost: ec }));
            }
            let mut temp_res: Vec<usize> = Vec::new();
            #[verifier::loop_isolation(true)]
            loop
                invariant_except_break
                    self.wf(),
                    n == self.n(),
                    k >= 1,
                    (k as nat) < self.n(),
                    q == query.vec@,
                    query.vec@.len() == self.dim(),
                    candidates.wf(),
                    self.items_valid(q, candidates@),
                    result.wf(),
                    self.items_valid(q, result@),
                    visited@.len() == n,
                    visited_count == count_trues(visited@),
                    visited_count <= n,
                    self.cache_valid(q, dist_cache.cache@),
                    forall|ti: int| 0 <= ti < temp_res@.len() ==> (#[trigger] temp_res@[ti]) < n,
                    result@.len() >= 1 || candidates@.len() >= 1,
                    count_trues(visited@) >= 1 ==> result@.len() >= 1,
                ensures
                    self.wf(),
                    n == self.n(),
                    k >= 1,
                    (k as nat) < self.n(),
                    q == query.vec@,
                    query.vec@.len() == self.dim(),
                    candidates.wf(),
                    self.items_valid(q, candidates@),
                    result.wf(),
                    self.items_valid(q, result@),
                    visited@.len() == n,
                    visited_count == count_trues(visited@),
                    visited_count <= n,
                    self.cache_valid(q, dist_cache.cache@),
                    result@.len() >= 1,
                decreases candidates@.len() + n - visited_count,
            {
                let ghost r0 = result@.len();
                let ghost count0 = count_trues(visited@);
                let ghost t0 = temp_res@.len();
                let copt = candidates.pop_first();
                let c = match copt {
                    None => { break ; },
                    Some(c) => c,
                };
                if result.len() >= k {
                    let kth = result.get(k - 1);
                    let kth_dist = dist_cache.get_distance(
                        self.distance,
                        query,
                        &self.id2node[kth.id],
                    );
                    if kth_dist <= c.cost {
                        break ;
                    }
                }
                let ghost bound = candidates@.len() + n - count_trues(visited@);
                let num_neighbors = self.id2adjacency_ids[c.id].len();
                for ni in 0..num_neighbors
                    invariant
                        self.wf(),
                        n == self.n(),
                        q == query.vec@,
                        query.vec@.len() == self.dim(),
                        candidates.wf(),
                        self.items_valid(q, candidates@),
                        visited@.len() == n,
                        visited_count == count_trues(visited@),
                        visited_count <= n,
                        self.cache_valid(q, dist_cache.cache@),
                        forall|ti: int|
                            0 <= ti < temp_res@.len() ==> (#[trigger] temp_res@[ti]) < n,
                        candidates@.len() + n - visited_count <= bound,
                        num_neighbors == self.id2adjacency_ids@[c.id as int]@.len(),
                        temp_res@.len() >= t0,
                        count_trues(visited@) >= count0,
                        count_trues(visited@) - count0 <= temp_res@.len() - t0,
                {
                    let nb = self.id2adjacency_ids[c.id][ni];
                    if !visited[nb] {
                        proof {
                            lemma_count_trues_update(visited@, nb as int);
                        }
                        visited[nb] = true;
                        proof {
                            lemma_count_trues_le(visited@);
                        }
                        visited_count = visited_count + 1;
                        let d = dist_cache.get_distance(self.distance, query, &self.id2node[nb]);
                        let ghost pre_nb = candidates@;
                        candidates.insert(CostedItem { id: nb, cost: d });
                        proof {
                            self.lemma_items_valid_after_insert(
                                q,
                                pre_nb,
                                candidates@,
                                CostedItem { id: nb, cost: d },
                            );
                        }
                        temp_res.push(nb);
                    }
                }
                if !visited[c.id] {
                    proof {
                        lemma_count_trues_update(visited@, c.id as int);
                    }
                    visited[c.id] = true;
                    proof {
                        lemma_count_trues_le(visited@);
                    }
                    visited_count = visited_count + 1;
                    temp_res.push(c.id);
                }
                proof {
                    assert(visited@[c.id as int]);
                    lemma_count_trues_pos(visited@, c.id as int);
                }
                let num_staged = temp_res.len();
                for ti in 0..num_staged
                    invariant
                        self.wf(),
                        n == self.n(),
                        q == query.vec@,
                        query.vec@.len() == self.dim(),
                        result.wf(),
                        self.items_valid(q, result@),
                        self.cache_valid(q, dist_cache.cache@),
                        num_staged == temp_res@.len(),
                        forall|tj: int|
                            0 <= tj < temp_res@.len() ==> (#[trigger] temp_res@[tj]) < n,
                        ti >= 1 ==> result@.len() >= 1,
                        result@.len() >= r0,
                {
                    let sid = temp_res[ti];
                    let d = dist_cache.get_distance(self.distance, query, &self.id2node[sid]);
                    let item = CostedItem { id: sid, cost: d };
                    let ghost pre_flush = result@;
                    result.insert(item);
                    proof {
                        self.lemma_items_valid_after_insert(q, pre_flush, result@, item);
                        assert(result@.contains(item));
                        assert(result@.len() >= 1);
                    }
                }
                proof {
                    // One entry always reaches the result set by the end of an
                    // expansion step: either something was staged and flushed
                    // now, or the popped candidate had been visited before, in
                    // which case the result was already non-empty at the head.
                    if temp_res@.len() == 0 {
                        assert(t0 == 0);
                        assert(count_trues(visited@) == count0);
                        assert(r0 >= 1);
                    }
                    assert(result@.len() >= 1);
                }
            }
        }
        let r = result.ids_prefix(k);
        proof {
            assert forall|i: int, j: int| 0 <= i < j < r@.len() implies self.id_lt(
                q,
                #[trigger] r@[i] as int,
                #[trigger] r@[j] as int,
            ) by {
                assert(item_lt(result@[i], result@[j]));
            }
        }
        r
    }
}

proof fn lemma_push_contains(s: Seq<usize>, v: usize, x: usize)
    ensures
        s.push(v).contains(x) <==> (s.contains(x) || x == v),
{
    if s.push(v).contains(x) {
        let j = choose|j: int| 0 <= j < s.push(v).len() && s.push(v)[j] == x;
        if j < s.len() {
            assert(s[j] == x);
        }
    }
    if s.contains(x) {
        let j = choose|j: int| 0 <= j < s.len() && s[j] == x;
        assert(s.push(v)[j] == x);
    }
    if x == v {
        assert(s.push(v)[s.len() as int] == x);
    }
}

fn copy_ids(v: &Vec<usize>) -> (r: Vec<usize>)
    ensures
        r@ == v@,
{
    let mut r: Vec<usize> = Vec::new();
    for i in 0..v.len()
        invariant
            r@ == v@.take(i as int),
    {
        r.push(v[i]);
        proof {
            assert(r@ =~= v@.take(i + 1));
        }
    }
    proof {
        assert(v@.take(v@.len() as int) =~= v@);
    }
    r
}

/// `g1` is `g0` with `node` appended under the next id and a bidirectional
/// edge between that id and every id in `nns`; nothing else changed.
pub open spec fn wired(
    g0: NavigableSmallWorldGraph,
    g1: NavigableSmallWorldGraph,
    node: VectorNode,
    nns: Seq<usize>,
) -> bool {
    &&& g1.trial == g0.trial
    &&& g1.min_degree == g0.min_degree
    &&& g1.distance == g0.distance
    &&& g1.seed == g0.seed
    &&& g1.id2node@ == g0.id2node@.push(node)
    &&& g1.id2adjacency_ids@.len() == g0.n() + 1
    &&& g1.id2adjacency_ids@[g0.n() as int]@ == nns
    &&& forall|j: int|
        0 <= j < g0.n() ==> (#[trigger] g1.id2adjacency_ids@[j])@ == (if nns.contains(j as usize) {
            g0.id2adjacency_ids@[j]@.push(node.id)
        } else {
            g0.id2adjacency_ids@[j]@
        })
}

/// The operations the search engine needs from a graph store: lookup,
/// size, k-nearest answering, and insertion of a new node. Every method's
/// promise is phrased through the store's own spec functions.
pub trait GraphOperator: Sized {
    /// The store's structural invariant.
    spec fn inv(&self) -> bool;

    /// Number of stored records.
    spec fn count(&self) -> nat;

    /// Dimensionality shared by the stored vectors.
    spec fn dim_of(&self) -> nat;

    /// The record stored under an id.
    spec fn node_at(&self, id: int) -> VectorNode;

    /// What a k-nearest answer promises.
    spec fn searched(&self, q: Seq<i32>, k: nat, r: Seq<usize>) -> bool;

    /// How an insertion relates the store before and after.
    spec fn added(&self, post: Self, node: VectorNode) -> bool;

    fn add_node(&mut self, node: VectorNode) -> (r: Result<(), ()>)
        requires
            old(self).inv(),
            node.id == old(self).count(),
            old(self).count() > 0 ==> node.vec@.len() == old(self).dim_of(),
        ensures
            final(self).inv(),
            r is Ok,
            old(self).added(*final(self), node),
    ;

    fn get_node(&self, id: &usize) -> (r: Option<&VectorNode>)
        ensures
            (*id as int) < self.count() ==> (r matches Some(nd) && *nd == self.node_at(
                *id as int,
            )),
            (*id as int) >= self.count() ==> r is None,
    ;

    fn search_nearest_neighbor(&self, query: &VectorNode, k: usize) -> (r: Vec<usize>)
        requires
            self.inv(),
            k >= 1,
            self.count() > 0 ==> query.vec@.len() == self.dim_of(),
        ensures
            self.searched(query.vec@, k as nat, r@),
    ;

    fn len(&self) -> (r: usize)
        ensures
            r == self.count(),
    ;

    fn is_empty(&self) -> (r: bool)
        ensures
            r == (self.count() == 0),
    ;
}

impl GraphOperator for NavigableSmallWorldGraph {
    open spec fn inv(&self) -> bool {
        self.wf()
    }

    open spec fn count(&self) -> nat {
        self.n()
    }

    open spec fn dim_of(&self) -> nat {
        self.dim()
    }

    open spec fn node_at(&self, id: int) -> VectorNode {
        self.id2node@[id]
    }

    open spec fn searched(&self, q: Seq<i32>, k: nat, r: Seq<usize>) -> bool {
        self.search_post(q, k, r)
    }

    open spec fn added(&self, post: Self, node: VectorNode) -> bool {
        &&& post.n() == self.n() + 1
        &&& self.n() == 0 ==> wired(*self, post, node, Seq::<usize>::empty())
        &&& self.n() > 0 ==> exists|nns: Seq<usize>|
            #[trigger] wired(*self, post, node, nns) && self.search_post(
                node.vec@,
                self.min_degree as nat,
                nns,
            )
    }

    /// Insert a fresh node: the first node is stored without edges; any
    /// later node is first searched in the existing graph and then wired
    /// bidirectionally to the up-to-`min_degree` nearest ids found.
    fn add_node(&mut self, node: VectorNode) -> (r: Result<(), ()>) {
        let ghost g0 = *self;
        if self.id2node.is_empty() {
            self.id2adjacency_ids.push(Vec::new());
            self.id2node.push(node);
            proof {
                assert(wired(g0, *self, node, Seq::<usize>::empty()));
                assert(self.wf()) by {
                    assert(forall|i: int|
                        0 <= i < self.n() ==> (#[trigger] self.id2node@[i]).id == i);
                    assert(self.id2adjacency_ids@[0]@.len() == 0);
                }
            }
            return Ok(());
        }
        let ghost n0 = g0.n();
        let n_before = self.id2node.len();
        let nn_ids = self.search_nearest_neighbor(&node, self.min_degree);
        let nn_copy = copy_ids(&nn_ids);
        // connect node -> nn
        self.id2adjacency_ids.push(nn_copy);
        // connect nn -> node
        let ghost nns = nn_ids@;
        proof {
            assert forall|i: int, j: int| 0 <= i < j < nns.len() implies nns[i] != nns[j] by {
                assert(g0.id_lt(node.vec@, nns[i] as int, nns[j] as int));
            }
        }
        for i in 0..nn_ids.len()
            invariant
                self.id2node@ == g0.id2node@,
                self.trial == g0.trial,
                self.min_degree == g0.min_degree,
                self.distance == g0.distance,
                self.seed == g0.seed,
                nns == nn_ids@,
                n0 == n_before as nat,
                forall|t: int| 0 <= t < nns.len() ==> (#[trigger] nns[t]) < n0,
                forall|t1: int, t2: int| 0 <= t1 < t2 < nns.len() ==> nns[t1] != nns[t2],
                self.id2adjacency_ids@.len() == n0 + 1,
                self.id2adjacency_ids@[n0 as int]@ == nns,
                forall|j: int|
                    0 <= j < n0 ==> (#[trigger] self.id2adjacency_ids@[j])@ == (
                    if nns.take(i as int).contains(j as usize) {
                        g0.id2adjacency_ids@[j]@.push(node.id)
                    } else {
                        g0.id2adjacency_ids@[j]@
                    }),
        {
            let nn = nn_ids[i];
            let ghost before = self.id2adjacency_ids@;
            self.id2adjacency_ids[nn].push(node.id);
            proof {
                assert(nns.take(i + 1) =~= nns.take(i as int).push(nns[i as int]));
                assert(!nns.take(i as int).contains(nns[i as int])) by {
                    if nns.take(i as int).contains(nns[i as int]) {
                        let t = choose|t: int|
                            0 <= t < i && nns.take(i as int)[t] == nns[i as int];
                        assert(nns[t] == nns[i as int]);
                    }
                }
                assert forall|j: int|
                    0 <= j < n0 implies (#[trigger] self.id2adjacency_ids@[j])@ == (
                    if nns.take(i + 1).contains(j as usize) {
                        g0.id2adjacency_ids@[j]@.push(node.id)
                    } else {
                        g0.id2adjacency_ids@[j]@
                    }) by {
                    lemma_push_contains(nns.take(i as int), nns[i as int], j as usize);
                    assert((j as usize) as int == j);
                    assert(nns.take(i + 1).contains(j as usize) <==> (nns.take(
                        i as int,
                    ).contains(j as usize) || j == nn as int));
                    if j == nn as int {
                        assert(before[j]@ == g0.id2adjacency_ids@[j]@);
                        assert(self.id2adjacency_ids@[j]@ == before[j]@.push(node.id));
                    } else {
                        assert(self.id2adjacency_ids@[j] == before[j]);
                    }
                }
            }
        }
        self.id2node.push(node);
        proof {
            assert(nns.take(nns.len() as int) =~= nns);
            assert(wired(g0, *self, node, nns));
            assert(g0.search_post(node.vec@, g0.min_degree as nat, nns));
            self.lemma_wired_wf(g0, node, nns);
        }
        Ok(())
    }

    /// Fetch a stored record by id; absent ids yield `None`.
    fn get_node(&self, id: &usize) -> (r: Option<&VectorNode>) {
        if *id < self.id2node.len() {
            Some(&self.id2node[*id])
        } else {
            None
        }
    }

    /// Answer a k-nearest query by the multi-restart greedy search.
    fn search_nearest_neighbor(&self, query: &VectorNode, k: usize) -> (r: Vec<usize>) {
        self.approx_knn_search(query, k)
    }

    /// Number of stored records.
    fn len(&self) -> (r: usize) {
        self.id2node.len()
    }

    /// Whether the graph holds no records yet.
    fn is_empty(&self) -> (r: bool) {
        self.len() == 0
    }
}

/// Proof support for the insertion path.
impl NavigableSmallWorldGraph {
    /// A graph extended by a correctly wired node is still well-formed.
    proof fn lemma_wired_wf(
        &self,
        g0: NavigableSmallWorldGraph,
        node: VectorNode,
        nns: Seq<usize>,
    )
        requires
            g0.wf(),
            g0.n() > 0,
            node.id == g0.n(),
            node.vec@.len() == g0.dim(),
            forall|t: int| 0 <= t < nns.len() ==> (#[trigger] nns[t]) < g0.n(),
            wired(g0, *self, node, nns),
        ensures
            self.wf(),
    {
        let n0 = g0.n() as int;
        assert(self.n() == n0 + 1);
        assert(self.id2node@[0] == g0.id2node@[0]);
        assert(self.dim() == g0.dim());
        assert forall|i: int| 0 <= i < self.n() implies (#[trigger] self.id2node@[i]).id
            == i by {
            if i < n0 {
                assert(self.id2node@[i] == g0.id2node@[i]);
            }
        }
        assert forall|i: int| 0 <= i < self.n() implies (#[trigger] self.id2node@[i]).vec@.len()
            == self.dim() by {
            if i < n0 {
                assert(self.id2node@[i] == g0.id2node@[i]);
            }
        }
        assert forall|i: int, j: int|
            0 <= i < self.n() && 0 <= j < self.id2adjacency_ids@[i]@.len() implies (
        #[trigger] self.id2adjacency_ids@[i]@[j]) < self.n() by {
            if i < n0 {
                if nns.contains(i as usize) {
                    let row0 = g0.id2adjacency_ids@[i]@;
                    assert(self.id2adjacency_ids@[i]@ == row0.push(node.id));
                    if j < row0.len() {
                        assert(row0[j] < g0.n());
                    }
                } else {
                    assert(self.id2adjacency_ids@[i]@ == g0.id2adjacency_ids@[i]@);
                }
            } else {
                assert(self.id2adjacency_ids@[i]@ == nns);
            }
        }
        assert forall|a: usize, b: usize| a < self.n() && b < self.n() implies ((
        #[trigger] self.id2adjacency_ids@[a as int]@.contains(b))
            <==> self.id2adjacency_ids@[b as int]@.contains(a)) by {
            if self.id2adjacency_ids@[a as int]@.contains(b) {
                self.lemma_wired_symmetry_one(g0, node, nns, a, b);
            }
            if self.id2adjacency_ids@[b as int]@.contains(a) {
                self.lemma_wired_symmetry_one(g0, node, nns, b, a);
            }
        }
    }

    /// One direction of the symmetry argument for a wired extension.
    proof fn lemma_wired_symmetry_one(
        &self,
        g0: NavigableSmallWorldGraph,
        node: VectorNode,
        nns: Seq<usize>,
        a: usize,
        b: usize,
    )
        requires
            g0.wf(),
            g0.n() > 0,
            node.id == g0.n(),
            forall|t: int| 0 <= t < nns.len() ==> (#[trigger] nns[t]) < g0.n(),
            wired(g0, *self, node, nns),
            a < self.n(),
            b < self.n(),
            self.id2adjacency_ids@[a as int]@.contains(b),
        ensures
            self.id2adjacency_ids@[b as int]@.contains(a),
    {
        let n0 = g0.n() as int;
        let rows1 = self.id2adjacency_ids@;
        let rows0 = g0.id2adjacency_ids@;
        if (a as int) < n0 {
            let row0 = rows0[a as int];
            if nns.contains(a) {
                lemma_push_contains(row0@, node.id, b);
                if b == node.id {
                    // reverse edge: the new node's row is exactly `nns`.
                    assert(rows1[b as int]@ == nns);
                } else {
                    assert(row0@.contains(b));
                    assert(rows0[b as int]@.contains(a));
                    assert((b as int) < n0) by {
                        assert(row0@[choose|j: int|
                            0 <= j < row0@.len() && row0@[j] == b] < g0.n());
                    }
                    if nns.contains(b) {
                        lemma_push_contains(rows0[b as int]@, node.id, a);
                        assert(rows1[b as int]@ == rows0[b as int]@.push(node.id));
                    } else {
                        assert(rows1[b as int]@ == rows0[b as int]@);
                    }
                }
            } else {
                assert(rows1[a as int]@ == row0@);
                assert(row0@.contains(b));
                assert((b as int) < n0) by {
                    assert(row0@[choose|j: int|
                        0 <= j < row0@.len() && row0@[j] == b] < g0.n());
                }
                assert(rows0[b as int]@.contains(a));
                if nns.contains(b) {
                    lemma_push_contains(rows0[b as int]@, node.id, a);
                    assert(rows1[b as int]@ == rows0[b as int]@.push(node.id));
                } else {
                    assert(rows1[b as int]@ == rows0[b as int]@);
                }
            }
        } else {
            // `a` is the new id: its row is `nns`, and each `b` in `nns`
            // had the new id pushed onto its own row.
            assert(rows1[a as int]@ == nns);
            assert(nns.contains(b));
            assert((b as int) < n0);
            assert(rows1[b as int]@ == rows0[b as int]@.push(node.id));
            lemma_push_contains(rows0[b as int]@, node.id, a);
        }
    }

}

} // verus!

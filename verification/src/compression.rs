//! Compression of an instance into meta-destinations: the destinations are
//! clustered, each cluster becomes one destination of a smaller instance, and
//! the cost between two clusters is the least cost between their members.

use vstd::prelude::*;
use std::collections::HashMap;
use clustering::kmeans;
use smallbitset::Set64;
use crate::bitset::{listed, lists, members, set_add, set_empty, set_items, set_len};
use crate::instance::Instance;
use crate::model::{Decision, TspModel, TspState};

verus! {

/// The number of rounds after which the clustering stops at the latest.
pub const CLUSTERING_ROUNDS: usize = 1000;

/// The cost between two clusters of which one has no member.
pub const NO_EDGE: isize = isize::MAX;

/// `clustering::kmeans` on the rows of a square matrix, each row the feature
/// vector of one element; the result is the `membership` of the clustering it
/// returns. The first centre is drawn at random, so the same rows may be
/// grouped differently from call to call. Whatever is drawn, every row is
/// assigned the index of one of the `k` centres. The routine draws from the
/// range of row indices, which must not be empty.
#[verifier::external_body]
fn cluster_rows(k: usize, rows: &Vec<Vec<isize>>, rounds: usize) -> (membership: Vec<usize>)
    requires
        k >= 1,
        rows@.len() >= 1,
        forall|i: int| 0 <= i < rows@.len() ==> (#[trigger] rows@[i])@.len() == rows@.len(),
    ensures
        membership@.len() == rows@.len(),
        forall|i: int| 0 <= i < membership@.len() ==> (#[trigger] membership@[i]) < k,
{
    kmeans(k, rows, rounds).membership
}

/// `clusters` assigns each of the `n` destinations one of `k` clusters.
pub open spec fn is_clustering(clusters: Seq<usize>, n: nat, k: nat) -> bool {
    &&& clusters.len() == n
    &&& forall|i: int| 0 <= i < n ==> (#[trigger] clusters[i]) < k
}

/// `i` is a destination of cluster `a`, `j` one of cluster `b`.
pub open spec fn crosses(clusters: Seq<usize>, a: int, b: int, i: int, j: int) -> bool {
    &&& 0 <= i < clusters.len()
    &&& 0 <= j < clusters.len()
    &&& clusters[i] == a
    &&& clusters[j] == b
}

/// `m` is the cost from cluster `a` to cluster `b`: the least cost of an edge
/// from a destination of `a` to one of `b`, or `NO_EDGE` where there is no
/// such edge.
pub open spec fn is_meta_distance(instance: &Instance, clusters: Seq<usize>, a: int, b: int, m: int) -> bool {
    &&& forall|i: int, j: int| crosses(clusters, a, b, i, j) ==> m <= #[trigger] instance.cost(i, j)
    &&& m == NO_EDGE || exists|i: int, j: int| crosses(clusters, a, b, i, j) && m == #[trigger] instance.cost(i, j)
}

/// `meta` holds the cost between any two of the `k` clusters.
pub open spec fn is_meta_matrix(instance: &Instance, clusters: Seq<usize>, k: nat, meta: Seq<Vec<isize>>) -> bool {
    &&& meta.len() == k
    &&& forall|a: int| 0 <= a < k ==> (#[trigger] meta[a])@.len() == k
    &&& forall|a: int, b: int|
        0 <= a < k && 0 <= b < k ==> is_meta_distance(instance, clusters, a, b, #[trigger] meta[a]@[b] as int)
}

/// `image` holds the clusters of the destinations in `source`.
pub open spec fn is_image(clusters: Seq<usize>, source: Set<int>, image: Set<int>) -> bool {
    forall|c: int|
        image.contains(c) <==> exists|d: int|
            0 <= d < clusters.len() && source.contains(d) && (#[trigger] clusters[d]) == c
}

/// An instance together with its compression. `membership` maps each
/// destination of `problem` to its cluster, which is a destination of
/// `meta_problem`.
pub struct TspCompression<'a> {
    pub problem: &'a TspModel,
    pub meta_problem: TspModel,
    pub membership: HashMap<isize, isize>,
}

impl<'a> TspCompression<'a> {
    /// The cluster of each destination, in the order of the destinations.
    pub open spec fn clusters(&self) -> Seq<usize> {
        Seq::new(self.problem.instance.size(), |d: int| self.membership@[d as isize] as usize)
    }

    /// `membership` is defined on the destinations of the problem and on
    /// nothing else.
    pub open spec fn membership_total(&self) -> bool {
        forall|d: isize| self.membership@.contains_key(d) <==> 0 <= d < self.problem.instance.size()
    }

    /// Both problems are well formed, every destination has its cluster, and
    /// the costs of the meta-problem are the least costs between clusters.
    pub open spec fn wf(&self) -> bool {
        &&& self.problem.wf()
        &&& self.meta_problem.wf()
        &&& self.membership_total()
        &&& forall|d: isize|
            0 <= d < self.problem.instance.size() ==> 0 <= #[trigger] self.membership@[d]
                < self.meta_problem.instance.size()
        &&& is_meta_matrix(
            &self.problem.instance,
            self.clusters(),
            self.meta_problem.instance.size(),
            self.meta_problem.instance.distances@,
        )
    }

    /// Clusters the destinations of `problem` by their rows of the cost
    /// matrix into `n_meta_destinations` groups and compresses the problem
    /// along that clustering. Which clustering is found is not determined;
    /// the compression is the one of `from_clustering` on it.
    pub fn new(problem: &'a TspModel, n_meta_destinations: usize) -> (c: Self)
        requires
            problem.wf(),
            problem.instance.size() >= 1,
            1 <= n_meta_destinations <= 64,
        ensures
            c.wf(),
            c.problem == problem,
            c.meta_problem.instance.size() == n_meta_destinations,
    {
        let membership = cluster_rows(n_meta_destinations, &problem.instance.distances, CLUSTERING_ROUNDS);
        Self::from_clustering(problem, &membership, n_meta_destinations)
    }

    /// The compression of `problem` along a given clustering of its
    /// destinations.
    pub fn from_clustering(problem: &'a TspModel, clustering: &Vec<usize>, n_meta_destinations: usize) -> (c: Self)
        requires
            problem.wf(),
            n_meta_destinations <= 64,
            is_clustering(clustering@, problem.instance.size(), n_meta_destinations as nat),
        ensures
            c.wf(),
            c.problem == problem,
            c.clusters() == clustering@,
            c.meta_problem.instance.size() == n_meta_destinations,
            forall|a: int| 0 <= a < n_meta_destinations ==> (#[trigger] c.meta_problem.instance.destinations@[a]) == 0,
    {
        let mut destinations: Vec<usize> = Vec::new();
        let mut a: usize = 0;
        while a < n_meta_destinations
            invariant
                a <= n_meta_destinations,
                destinations@.len() == a,
                forall|x: int| 0 <= x < a ==> (#[trigger] destinations@[x]) == 0,
            decreases n_meta_destinations - a,
        {
            destinations.push(0);
            a += 1;
        }
        let distances = Self::compute_meta_distances(problem, clustering, n_meta_destinations);
        let meta_problem = TspModel { instance: Instance { destinations, distances } };
        let mut membership: HashMap<isize, isize> = HashMap::new();
        let mut i: usize = 0;
        while i < clustering.len()
            invariant
                i <= clustering@.len() <= 64,
                n_meta_destinations <= 64,
                forall|d: int| 0 <= d < clustering@.len() ==> (#[trigger] clustering@[d]) < n_meta_destinations,
                forall|d: isize| membership@.contains_key(d) <==> 0 <= d < i,
                forall|d: isize| 0 <= d < i ==> #[trigger] membership@[d] == clustering@[d as int],
            decreases clustering@.len() - i,
        {
            membership.insert(i as isize, clustering[i] as isize);
            i += 1;
        }
        let c = TspCompression { problem, meta_problem, membership };
        proof {
            assert(c.clusters() =~= clustering@);
            assert forall|x: int, y: int| 0 <= x < n_meta_destinations && 0 <= y < n_meta_destinations implies #[trigger] c.meta_problem.instance.cost(x, y) > isize::MIN by {
                let m = c.meta_problem.instance.distances@[x]@[y] as int;
                assert(is_meta_distance(&problem.instance, clustering@, x, y, m));
                if m != NO_EDGE {
                    let (p, q) = choose|p: int, q: int| crosses(clustering@, x, y, p, q) && m == #[trigger] problem.instance.cost(p, q);
                    assert(problem.instance.cost(p, q) > isize::MIN);
                }
            }
        }
        c
    }

    /// The least cost from a destination of cluster `a` to one of cluster `b`.
    fn meta_distance(tsp: &TspModel, membership: &Vec<usize>, a: usize, b: usize) -> (m: isize)
        requires
            tsp.instance.wf(),
            membership@.len() == tsp.instance.size(),
        ensures
            is_meta_distance(&tsp.instance, membership@, a as int, b as int, m as int),
    {
        let n: usize = tsp.instance.destinations.len();
        let mut m: isize = NO_EDGE;
        let ghost mut at: (int, int) = (0, 0);
        let mut i: usize = 0;
        while i < n
            invariant
                tsp.instance.wf(),
                n == tsp.instance.size(),
                membership@.len() == n,
                i <= n,
                forall|p: int, q: int| crosses(membership@, a as int, b as int, p, q) && p < i ==> m <= #[trigger] tsp.instance.cost(p, q),
                m == NO_EDGE || (crosses(membership@, a as int, b as int, at.0, at.1) && m == tsp.instance.cost(at.0, at.1)),
            decreases n - i,
        {
            if membership[i] == a {
                let mut j: usize = 0;
                while j < n
                    invariant
                        tsp.instance.wf(),
                        n == tsp.instance.size(),
                        membership@.len() == n,
                        i < n,
                        j <= n,
                        membership@[i as int] == a,
                        forall|p: int, q: int| crosses(membership@, a as int, b as int, p, q) && (p < i || (p == i && q < j)) ==> m <= #[trigger] tsp.instance.cost(p, q),
                        m == NO_EDGE || (crosses(membership@, a as int, b as int, at.0, at.1) && m == tsp.instance.cost(at.0, at.1)),
                    decreases n - j,
                {
                    if membership[j] == b {
                        let d: isize = tsp.instance.distances[i][j];
                        assert(d == tsp.instance.cost(i as int, j as int));
                        if d < m {
                            m = d;
                            proof {
                                at = (i as int, j as int);
                            }
                        }
                    }
                    j += 1;
                }
            }
            i += 1;
        }
        proof {
            if m != NO_EDGE {
                assert(crosses(membership@, a as int, b as int, at.0, at.1) && m == tsp.instance.cost(at.0, at.1));
            }
        }
        m
    }

    /// The matrix of least costs between the `n_meta_destinations` clusters.
    fn compute_meta_distances(tsp: &TspModel, membership: &Vec<usize>, n_meta_destinations: usize) -> (meta: Vec<Vec<isize>>)
        requires
            tsp.instance.wf(),
            membership@.len() == tsp.instance.size(),
        ensures
            is_meta_matrix(&tsp.instance, membership@, n_meta_destinations as nat, meta@),
    {
        let mut meta: Vec<Vec<isize>> = Vec::new();
        let mut a: usize = 0;
        while a < n_meta_destinations
            invariant
                tsp.instance.wf(),
                membership@.len() == tsp.instance.size(),
                a <= n_meta_destinations,
                meta@.len() == a,
                forall|x: int| 0 <= x < a ==> (#[trigger] meta@[x])@.len() == n_meta_destinations,
                forall|x: int, y: int|
                    0 <= x < a && 0 <= y < n_meta_destinations ==> is_meta_distance(&tsp.instance, membership@, x, y, #[trigger] meta@[x]@[y] as int),
            decreases n_meta_destinations - a,
        {
            let mut row: Vec<isize> = Vec::new();
            let mut b: usize = 0;
            while b < n_meta_destinations
                invariant
                    tsp.instance.wf(),
                    membership@.len() == tsp.instance.size(),
                    b <= n_meta_destinations,
                    row@.len() == b,
                    forall|y: int| 0 <= y < b ==> is_meta_distance(&tsp.instance, membership@, a as int, y, #[trigger] row@[y] as int),
                decreases n_meta_destinations - b,
            {
                let m = Self::meta_distance(tsp, membership, a, b);
                row.push(m);
                b += 1;
            }
            meta.push(row);
            a += 1;
        }
        meta
    }

    /// The smaller problem, on which bounds are computed.
    pub fn get_compressed_problem(&self) -> (p: &TspModel)
        ensures
            *p == self.meta_problem,
    {
        &self.meta_problem
    }

    /// The clusters of the destinations in `source`, as a visit-set of the
    /// meta-problem.
    fn compress_set(&self, source: Set64) -> (image: Set64)
        requires
            self.wf(),
            self.problem.covers(members(source)),
        ensures
            is_image(self.clusters(), members(source), members(image)),
            forall|c: int| members(image).contains(c) ==> 0 <= c < self.meta_problem.instance.size(),
    {
        let items = set_items(source);
        let mut image = set_empty();
        let mut k: usize = 0;
        let ghost clusters = self.clusters();
        while k < items.len()
            invariant
                self.wf(),
                self.problem.covers(members(source)),
                clusters == self.clusters(),
                lists(items@, members(source)),
                k <= items@.len(),
                forall|c: int| members(image).contains(c) <==> exists|j: int| 0 <= j < k && clusters[(#[trigger] items@[j]) as int] == c,
            decreases items@.len() - k,
        {
            let d: usize = items[k];
            assert(members(source).contains(items@[k as int] as int));
            let key: isize = d as isize;
            assert(self.membership@.contains_key(key));
            let found = self.membership.get(&key);
            let c: isize = *found.unwrap();
            assert(0 <= self.membership@[key] < 64);
            assert(clusters[d as int] == c);
            let ghost before = members(image);
            image = set_add(image, c as usize);
            proof {
                assert forall|x: int| members(image).contains(x) <==> exists|j: int| 0 <= j < k + 1 && clusters[(#[trigger] items@[j]) as int] == x by {
                    if before.contains(x) {
                        let j = choose|j: int| 0 <= j < k && clusters[(#[trigger] items@[j]) as int] == x;
                        assert(clusters[items@[j] as int] == x);
                    }
                    if x == c {
                        assert(clusters[items@[k as int] as int] == x);
                    }
                    if exists|j: int| 0 <= j < k + 1 && clusters[(#[trigger] items@[j]) as int] == x {
                        let j = choose|j: int| 0 <= j < k + 1 && clusters[(#[trigger] items@[j]) as int] == x;
                        if j < k {
                            assert(before.contains(x));
                        }
                    }
                }
            }
            k += 1;
        }
        proof {
            assert forall|c: int| members(image).contains(c) <==> exists|d: int|
                0 <= d < clusters.len() && members(source).contains(d) && (#[trigger] clusters[d]) == c by {
                if members(image).contains(c) {
                    let j = choose|j: int| 0 <= j < k && clusters[(#[trigger] items@[j]) as int] == c;
                    let d = items@[j] as int;
                    assert(members(source).contains(d));
                    assert(clusters[d] == c);
                }
                if exists|d: int| 0 <= d < clusters.len() && members(source).contains(d) && (#[trigger] clusters[d]) == c {
                    let d = choose|d: int| 0 <= d < clusters.len() && members(source).contains(d) && (#[trigger] clusters[d]) == c;
                    assert(listed(items@, d));
                    let j = choose|j: int| 0 <= j < items@.len() && (#[trigger] items@[j]) as int == d;
                    assert(clusters[items@[j] as int] == c);
                }
            }
            assert forall|c: int| members(image).contains(c) implies 0 <= c < self.meta_problem.instance.size() by {
                let j = choose|j: int| 0 <= j < k && clusters[(#[trigger] items@[j]) as int] == c;
                let d = items@[j] as int;
                assert(members(source).contains(d));
                assert(0 <= self.membership@[d as isize] < self.meta_problem.instance.size());
            }
        }
        image
    }

    /// The state of the meta-problem that stands for `state`: it stands at the
    /// clusters of the current destinations and has to visit the clusters of
    /// those that must be visited. What might be visited is left out. Its depth
    /// is the number of clusters that it need not visit.
    pub fn compress(&self, state: &TspState) -> (meta: TspState)
        requires
            self.wf(),
            self.problem.covers(state@.current),
            self.problem.covers(state@.must_visit),
        ensures
            is_image(self.clusters(), state@.current, meta@.current),
            is_image(self.clusters(), state@.must_visit, meta@.must_visit),
            forall|x: int| !meta@.might_visit.contains(x),
            meta@.depth == self.meta_problem.instance.size() - meta@.must_visit.len(),
            meta@.wf(),
    {
        let current = self.compress_set(state.current);
        let must_visit = self.compress_set(state.must_visit);
        let might_visit = set_empty();
        let k: usize = self.meta_problem.instance.destinations.len();
        proof {
            vstd::set_lib::lemma_int_range(0, k as int);
            vstd::set_lib::lemma_len_subset(members(must_visit), vstd::set_lib::set_int_range(0, k as int));
        }
        let depth: usize = k - set_len(must_visit);
        TspState { depth, current, must_visit, might_visit }
    }

    /// A solution of the meta-problem is handed back as it is: it serves for
    /// bounds and is not turned into a tour of the problem.
    pub fn decompress(&self, solution: &Vec<Decision>) -> (out: Vec<Decision>)
        ensures
            out@ == solution@,
    {
        let mut out: Vec<Decision> = Vec::new();
        let mut i: usize = 0;
        while i < solution.len()
            invariant
                i <= solution@.len(),
                out@ == solution@.subrange(0, i as int),
            decreases solution@.len() - i,
        {
            out.push(solution[i]);
            proof {
                assert(out@ =~= solution@.subrange(0, i + 1));
            }
            i += 1;
        }
        proof {
            assert(out@ =~= solution@);
        }
        out
    }
}

/// Splitting clusters never lowers a cost between them: where cluster `fa` of
/// the clustering `fine` lies within cluster `a` of `coarse`, and `fb` within
/// `b`, the cost from `a` to `b` is at most the cost from `fa` to `fb`.
pub proof fn lemma_refinement_tightens(
    instance: &Instance,
    coarse: Seq<usize>,
    fine: Seq<usize>,
    a: int,
    b: int,
    fa: int,
    fb: int,
    m: int,
    fm: int,
)
    requires
        coarse.len() == fine.len(),
        forall|i: int| 0 <= i < fine.len() && fine[i] == fa ==> coarse[i] == a,
        forall|i: int| 0 <= i < fine.len() && fine[i] == fb ==> coarse[i] == b,
        is_meta_distance(instance, coarse, a, b, m),
        is_meta_distance(instance, fine, fa, fb, fm),
    ensures
        m <= fm,
{
    if fm != NO_EDGE {
        let (i, j) = choose|i: int, j: int| crosses(fine, fa, fb, i, j) && fm == #[trigger] instance.cost(i, j);
        assert(crosses(coarse, a, b, i, j));
    }
}

/// Where every cluster holds one destination, the cost between two distinct
/// clusters is the cost between their destinations.
pub proof fn lemma_singleton_clusters_are_exact(instance: &Instance, clusters: Seq<usize>, i: int, j: int, m: int)
    requires
        forall|p: int, q: int| 0 <= p < clusters.len() && 0 <= q < clusters.len() && clusters[p] == clusters[q] ==> p == q,
        0 <= i < clusters.len(),
        0 <= j < clusters.len(),
        is_meta_distance(instance, clusters, clusters[i] as int, clusters[j] as int, m),
    ensures
        m == instance.cost(i, j),
{
    assert(crosses(clusters, clusters[i] as int, clusters[j] as int, i, j));
    if m != NO_EDGE {
        let (p, q) = choose|p: int, q: int|
            crosses(clusters, clusters[i] as int, clusters[j] as int, p, q) && m == #[trigger] instance.cost(p, q);
        assert(p == i && q == j);
    }
}

/// The cost between two clusters never exceeds the cost between a
/// destination of the first and a destination of the second: a bound found on
/// the meta-problem holds on the problem.
pub proof fn lemma_meta_distance_admissible(c: &TspCompression, i: int, j: int)
    requires
        c.wf(),
        0 <= i < c.problem.instance.size(),
        0 <= j < c.problem.instance.size(),
    ensures
        c.meta_problem.instance.cost(c.clusters()[i] as int, c.clusters()[j] as int) <= c.problem.instance.cost(i, j),
{
    let a = c.clusters()[i] as int;
    let b = c.clusters()[j] as int;
    assert(0 <= c.membership@[i as isize] < c.meta_problem.instance.size());
    assert(0 <= c.membership@[j as isize] < c.meta_problem.instance.size());
    assert(is_meta_distance(&c.problem.instance, c.clusters(), a, b, c.meta_problem.instance.distances@[a]@[b] as int));
    assert(crosses(c.clusters(), a, b, i, j));
}

} // verus!

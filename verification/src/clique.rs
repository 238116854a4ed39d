//! The largest set of branches that merge pairwise, found with the maximal
//! cliques that the `petgraph` crate enumerates.
use vstd::prelude::*;
use crate::conflict::{ConflictStatistics, StatisticView};
use crate::qualified_path::{path_views, QualifiedPath};

verus! {

/// Whether an edge joins `a` and `b`, in either direction.
pub open spec fn adjacent(edges: Seq<(usize, usize)>, a: usize, b: usize) -> bool {
    edges.contains((a, b)) || edges.contains((b, a))
}

/// Whether the members are vertices below `n` of which every two are joined
/// by an edge.
pub open spec fn is_clique(n: int, edges: Seq<(usize, usize)>, members: Set<usize>) -> bool {
    &&& forall|v: usize| members.contains(v) ==> v < n
    &&& forall|a: usize, b: usize|
        members.contains(a) && members.contains(b) && a != b ==> adjacent(edges, a, b)
}

/// Whether the members are a clique that no further vertex below `n` can
/// join: every other vertex misses an edge to a member.
pub open spec fn is_maximal_clique(n: int, edges: Seq<(usize, usize)>, members: Set<usize>) -> bool {
    &&& is_clique(n, edges, members)
    &&& forall|v: usize|
        v < n && !members.contains(v) ==> exists|u: usize|
            members.contains(u) && !adjacent(edges, u, v)
}

/// Whether every edge joins two different vertices below `n`.
pub open spec fn edges_within(n: int, edges: Seq<(usize, usize)>) -> bool {
    forall|i: int|
        0 <= i < edges.len() ==> (#[trigger] edges[i]).0 < n && edges[i].1 < n && edges[i].0
            != edges[i].1
}

/// The lists as sequences, one by one.
pub open spec fn lists(cliques: Seq<Vec<usize>>) -> Seq<Seq<usize>> {
    Seq::new(cliques.len(), |i: int| cliques[i]@)
}

/// Whether the lists are the maximal cliques of the graph: each is one,
/// without a member twice, and each maximal clique is among them.
pub open spec fn enumerates_maximal_cliques(
    n: int,
    edges: Seq<(usize, usize)>,
    cliques: Seq<Seq<usize>>,
) -> bool {
    &&& forall|i: int|
        0 <= i < cliques.len() ==> (#[trigger] cliques[i]).no_duplicates() && is_maximal_clique(
            n,
            edges,
            cliques[i].to_set(),
        )
    &&& forall|members: Set<usize>| #[trigger]
        is_maximal_clique(n, edges, members) ==> exists|i: int|
            0 <= i < cliques.len() && (#[trigger] cliques[i]).to_set() == members
}

/// `petgraph::algo::maximal_cliques` on the undirected graph of `n` vertices
/// and the given edges: the maximal cliques of the graph, each once and in no
/// particular order, the members of each in no particular order.
#[verifier::external_body]
pub(crate) fn maximal_cliques(n: usize, edges: &Vec<(usize, usize)>) -> (cliques: Vec<Vec<usize>>)
    requires
        n * n <= usize::MAX,
        edges_within(n as int, edges@),
    ensures
        enumerates_maximal_cliques(n as int, edges@, lists(cliques@)),
{
    let mut graph = petgraph::Graph::<(), (), petgraph::Undirected, usize>::with_capacity(0, 0);
    for _ in 0..n {
        graph.add_node(());
    }
    for (a, b) in edges.iter() {
        graph.update_edge(petgraph::graph::NodeIndex::new(*a), petgraph::graph::NodeIndex::new(*b), ());
    }
    let found = petgraph::algo::maximal_cliques(&graph);
    found.into_iter().map(|c| c.into_iter().map(|v| v.index()).collect()).collect()
}

/// The first of the longest lists; the empty list where there is none.
pub open spec fn largest(cliques: Seq<Seq<usize>>) -> Seq<usize>
    decreases cliques.len(),
{
    if cliques.len() == 0 {
        Seq::empty()
    } else {
        let before = largest(cliques.drop_last());
        if cliques.last().len() > before.len() {
            cliques.last()
        } else {
            before
        }
    }
}

/// The largest list is as long as any of the lists, and is one of them where
/// one of them is not empty.
pub proof fn lemma_largest(cliques: Seq<Seq<usize>>)
    ensures
        forall|i: int| 0 <= i < cliques.len() ==> (#[trigger] cliques[i]).len() <= largest(
            cliques,
        ).len(),
        largest(cliques).len() > 0 ==> exists|i: int|
            0 <= i < cliques.len() && #[trigger] cliques[i] == largest(cliques),
    decreases cliques.len(),
{
    if cliques.len() > 0 {
        let front = cliques.drop_last();
        lemma_largest(front);
        assert forall|i: int| 0 <= i < cliques.len() implies (#[trigger] cliques[i]).len()
            <= largest(cliques).len() by {
            if i < front.len() {
                assert(front[i] == cliques[i]);
            }
        }
        if largest(cliques).len() > 0 {
            if cliques.last().len() > largest(front).len() {
                assert(cliques[cliques.len() - 1] == largest(cliques));
            } else {
                let i = choose|i: int| 0 <= i < front.len() && #[trigger] front[i] == largest(front);
                assert(cliques[i] == largest(cliques));
            }
        }
    }
}

/// The first of the longest cliques.
pub fn get_max_clique(cliques: &Vec<Vec<usize>>) -> (r: Vec<usize>)
    ensures
        r@ == largest(lists(cliques@)),
{
    let mut best: usize = 0;
    let mut found = false;
    let mut i: usize = 0;
    proof {
        assert(lists(cliques@).take(0) =~= Seq::empty());
    }
    while i < cliques.len()
        invariant
            i <= cliques.len(),
            found ==> best < i && cliques@[best as int]@ == largest(lists(cliques@).take(i as int)),
            !found ==> largest(lists(cliques@).take(i as int)) == Seq::<usize>::empty(),
        decreases cliques.len() - i,
    {
        proof {
            assert(lists(cliques@).take(i + 1).drop_last() =~= lists(cliques@).take(i as int));
            assert(lists(cliques@).take(i + 1).last() == cliques@[i as int]@);
        }
        let current = if found {
            cliques[best].len()
        } else {
            0
        };
        if cliques[i].len() > current {
            best = i;
            found = true;
        }
        i += 1;
    }
    assert(lists(cliques@).take(cliques@.len() as int) =~= lists(cliques@));
    if found {
        let r = cliques[best].clone();
        assert(r@ =~= cliques@[best as int]@);
        r
    } else {
        Vec::new()
    }
}

/// The index of the first of the paths that equals `path`.
pub open spec fn index_of(paths: Seq<Seq<Seq<char>>>, path: Seq<Seq<char>>) -> Option<int>
    decreases paths.len(),
{
    if paths.len() == 0 {
        None
    } else {
        match index_of(paths.drop_last(), path) {
            Some(i) => Some(i),
            None => if paths.last() == path {
                Some(paths.len() - 1)
            } else {
                None
            },
        }
    }
}

/// The index that `index_of` gives is the index of a path equal to `path`.
pub proof fn lemma_index_of(paths: Seq<Seq<Seq<char>>>, path: Seq<Seq<char>>)
    ensures
        match index_of(paths, path) {
            Some(i) => 0 <= i < paths.len() && paths[i] == path,
            None => !paths.contains(path),
        },
    decreases paths.len(),
{
    if paths.len() > 0 {
        let front = paths.drop_last();
        lemma_index_of(front, path);
        match index_of(front, path) {
            Some(i) => {
                assert(front[i] == paths[i]);
            },
            None => {
                if paths.last() != path {
                    assert forall|k: int| 0 <= k < paths.len() implies paths[k] != path by {
                        if k < front.len() {
                            assert(front[k] == paths[k]);
                            assert(front.contains(front[k]));
                        }
                    }
                }
            },
        }
    }
}

/// The edge that a pair of paths stands for: the indices of the two among
/// the candidates, where both are candidates and not the same one.
pub open spec fn edge_of(candidates: Seq<Seq<Seq<char>>>, pair: StatisticView) -> Option<
    (usize, usize),
> {
    match (index_of(candidates, pair.left), index_of(candidates, pair.right)) {
        (Some(a), Some(b)) => if a != b {
            Some((a as usize, b as usize))
        } else {
            None
        },
        _ => None,
    }
}

/// The edges that the pairs stand for, in order.
pub open spec fn edges_of(candidates: Seq<Seq<Seq<char>>>, pairs: Seq<StatisticView>) -> Seq<
    (usize, usize),
>
    decreases pairs.len(),
{
    if pairs.len() == 0 {
        Seq::empty()
    } else {
        let before = edges_of(candidates, pairs.drop_last());
        match edge_of(candidates, pairs.last()) {
            Some(edge) => before.push(edge),
            None => before,
        }
    }
}

/// The edges that pairs of candidates stand for join different vertices
/// below the number of candidates.
pub proof fn lemma_edges_within(candidates: Seq<Seq<Seq<char>>>, pairs: Seq<StatisticView>)
    requires
        candidates.len() <= usize::MAX,
    ensures
        edges_within(candidates.len() as int, edges_of(candidates, pairs)),
    decreases pairs.len(),
{
    if pairs.len() > 0 {
        lemma_edges_within(candidates, pairs.drop_last());
        lemma_index_of(candidates, pairs.last().left);
        lemma_index_of(candidates, pairs.last().right);
    }
}

/// The paths, each with its index: the number by which the graph of the
/// candidates knows it.
pub fn map_paths_to_id(paths: &Vec<QualifiedPath>) -> (r: Vec<(usize, QualifiedPath)>)
    ensures
        r@.len() == paths@.len(),
        forall|i: int| 0 <= i < r@.len() ==> (#[trigger] r@[i]).0 == i && r@[i].1@ == paths@[i]@,
{
    let mut map: Vec<(usize, QualifiedPath)> = Vec::new();
    let mut i: usize = 0;
    while i < paths.len()
        invariant
            i <= paths.len(),
            map@.len() == i,
            forall|k: int| 0 <= k < i ==> (#[trigger] map@[k]).0 == k && map@[k].1@ == paths@[k]@,
        decreases paths.len() - i,
    {
        map.push((i, paths[i].clone()));
        i += 1;
    }
    map
}

/// The index of the first of the paths that equals `path`.
pub fn position_of(paths: &Vec<QualifiedPath>, path: &QualifiedPath) -> (r: Option<usize>)
    ensures
        match r {
            Some(i) => index_of(path_views(paths@), path@) == Some(i as int),
            None => index_of(path_views(paths@), path@) is None,
        },
{
    let ghost all = path_views(paths@);
    let mut i: usize = 0;
    proof {
        assert(all.take(0) =~= Seq::empty());
    }
    while i < paths.len()
        invariant
            i <= paths.len(),
            all == path_views(paths@),
            index_of(all.take(i as int), path@) is None,
        decreases paths.len() - i,
    {
        proof {
            assert(all.take(i + 1).drop_last() =~= all.take(i as int));
            assert(all.take(i + 1).last() == paths@[i as int]@);
        }
        if paths[i] == *path {
            proof {
                lemma_index_of_extends(all, path@, i + 1);
            }
            return Some(i);
        }
        i += 1;
    }
    assert(all.take(all.len() as int) =~= all);
    None
}

proof fn lemma_index_of_extends(paths: Seq<Seq<Seq<char>>>, path: Seq<Seq<char>>, k: int)
    requires
        0 <= k <= paths.len(),
        index_of(paths.take(k), path) is Some,
    ensures
        index_of(paths, path) == index_of(paths.take(k), path),
    decreases paths.len() - k,
{
    if k < paths.len() {
        assert(paths.take(k + 1).drop_last() =~= paths.take(k));
        lemma_index_of_extends(paths, path, k + 1);
    } else {
        assert(paths.take(k) =~= paths);
    }
}

/// The edges of the graph of the candidates: one for every pair that merged,
/// between the indices of its two branches among the candidates.
pub fn build_edges(conflict_data: &ConflictStatistics, candidates: &Vec<QualifiedPath>) -> (r: Vec<
    (usize, usize),
>)
    ensures
        r@ == edges_of(path_views(candidates@), conflict_data@.ok),
        edges_within(candidates@.len() as int, r@),
{
    let merged = conflict_data.iter_ok();
    let count = candidates.len();
    let ghost pairs = conflict_data@.ok;
    let mut out: Vec<(usize, usize)> = Vec::new();
    let mut i: usize = 0;
    proof {
        assert(pairs.take(0) =~= Seq::empty());
    }
    while i < merged.len()
        invariant
            i <= merged.len(),
            pairs == conflict_data@.ok,
            pairs == crate::conflict::statistic_views(merged@),
            out@ == edges_of(path_views(candidates@), pairs.take(i as int)),
        decreases merged.len() - i,
    {
        proof {
            assert(pairs.take(i + 1).drop_last() =~= pairs.take(i as int));
            assert(pairs.take(i + 1).last() == merged@[i as int]@);
        }
        let (left, right) = merged[i].branches();
        match position_of(candidates, left) {
            Some(a) => match position_of(candidates, right) {
                Some(b) => {
                    if a != b {
                        out.push((a, b));
                    }
                },
                None => {},
            },
            None => {},
        }
        i += 1;
    }
    proof {
        assert(pairs.take(pairs.len() as int) =~= pairs);
        assert(path_views(candidates@).len() == count);
        lemma_edges_within(path_views(candidates@), pairs);
    }
    out
}

/// The candidates before index `i` whose index is among the members, or is
/// not, as `inside` says.
pub open spec fn picked(
    candidates: Seq<Seq<Seq<char>>>,
    members: Seq<usize>,
    inside: bool,
    i: int,
) -> Seq<Seq<Seq<char>>>
    decreases i,
{
    if i <= 0 {
        Seq::empty()
    } else {
        let before = picked(candidates, members, inside, i - 1);
        if members.contains((i - 1) as usize) == inside {
            before.push(candidates[i - 1])
        } else {
            before
        }
    }
}

/// What to merge of the candidates, and what to leave out.
#[derive(Debug)]
pub struct DerivationPlan {
    /// The indices of the candidates to merge.
    pub clique: Vec<usize>,
    /// The candidates to merge, in their order.
    pub merge: Vec<QualifiedPath>,
    /// The candidates left out as conflicting, in their order.
    pub excluded: Vec<QualifiedPath>,
}

impl DerivationPlan {
    /// Whether the plan says what it has to say of the candidates and the
    /// members chosen among them.
    pub open spec fn is_plan_of(&self, candidates: Seq<Seq<Seq<char>>>, members: Seq<usize>) -> bool {
        &&& self.clique@ == members
        &&& path_views(self.merge@) == picked(candidates, members, true, candidates.len() as int)
        &&& path_views(self.excluded@) == picked(
            candidates,
            members,
            false,
            candidates.len() as int,
        )
    }

    /// Whether every candidate is merged.
    pub fn is_complete(&self) -> (r: bool)
        ensures
            r == (self.excluded@.len() == 0),
    {
        self.excluded.len() == 0
    }
}

/// Whether `value` is among the members.
pub fn is_member(members: &Vec<usize>, value: usize) -> (r: bool)
    ensures
        r == members@.contains(value),
{
    let mut i: usize = 0;
    while i < members.len()
        invariant
            i <= members.len(),
            forall|j: int| 0 <= j < i ==> members@[j] != value,
        decreases members.len() - i,
    {
        if members[i] == value {
            return true;
        }
        i += 1;
    }
    false
}

/// The plan that merges the candidates whose index is in `clique` and leaves
/// out the others.
pub fn plan_derivation(candidates: &Vec<QualifiedPath>, clique: Vec<usize>) -> (r: DerivationPlan)
    ensures
        r.is_plan_of(path_views(candidates@), clique@),
{
    let ghost all = path_views(candidates@);
    let mut merge: Vec<QualifiedPath> = Vec::new();
    let mut excluded: Vec<QualifiedPath> = Vec::new();
    let mut i: usize = 0;
    proof {
        assert(path_views(merge@) =~= Seq::empty());
        assert(path_views(excluded@) =~= Seq::empty());
    }
    while i < candidates.len()
        invariant
            i <= candidates.len(),
            all == path_views(candidates@),
            path_views(merge@) == picked(all, clique@, true, i as int),
            path_views(excluded@) == picked(all, clique@, false, i as int),
        decreases candidates.len() - i,
    {
        let ghost merge_before = path_views(merge@);
        let ghost excluded_before = path_views(excluded@);
        if is_member(&clique, i) {
            merge.push(candidates[i].clone());
            assert(path_views(merge@) =~= merge_before.push(all[i as int]));
        } else {
            excluded.push(candidates[i].clone());
            assert(path_views(excluded@) =~= excluded_before.push(all[i as int]));
        }
        i += 1;
    }
    DerivationPlan { clique, merge, excluded }
}

/// The members together with every vertex below `v` that, taken in order, is
/// joined to all that were there before it.
pub open spec fn grown(n: int, edges: Seq<(usize, usize)>, members: Set<usize>, v: int) -> Set<
    usize,
>
    decreases v,
{
    if v <= 0 {
        members
    } else {
        let before = grown(n, edges, members, v - 1);
        let x = (v - 1) as usize;
        if !before.contains(x) && forall|u: usize| before.contains(u) ==> adjacent(edges, u, x) {
            before.insert(x)
        } else {
            before
        }
    }
}

proof fn lemma_grown(n: int, edges: Seq<(usize, usize)>, members: Set<usize>, v: int)
    requires
        is_clique(n, edges, members),
        0 <= v <= n <= usize::MAX,
    ensures
        is_clique(n, edges, grown(n, edges, members, v)),
        members.subset_of(grown(n, edges, members, v)),
        forall|x: usize|
            x < v && !grown(n, edges, members, v).contains(x) ==> exists|u: usize|
                grown(n, edges, members, v).contains(u) && !adjacent(edges, u, x),
    decreases v,
{
    if v > 0 {
        lemma_grown(n, edges, members, v - 1);
        let before = grown(n, edges, members, v - 1);
        let after = grown(n, edges, members, v);
        let last = (v - 1) as usize;
        assert(before.subset_of(after));
        assert forall|a: usize, b: usize|
            after.contains(a) && after.contains(b) && a != b implies adjacent(edges, a, b) by {
            if before.contains(a) && before.contains(b) {
            } else if before.contains(a) {
                assert(adjacent(edges, a, last));
            } else if before.contains(b) {
                assert(adjacent(edges, b, last));
            }
        }
        assert forall|x: usize| x < v && !after.contains(x) implies exists|u: usize|
            after.contains(u) && !adjacent(edges, u, x) by {
            if x == last {
                let u = choose|u: usize| before.contains(u) && !adjacent(edges, u, last);
                assert(after.contains(u));
            } else {
                assert(!before.contains(x));
                let u = choose|u: usize| before.contains(u) && !adjacent(edges, u, x);
                assert(after.contains(u));
            }
        }
    }
}

/// Every clique is part of a maximal clique.
pub proof fn lemma_clique_grows(n: int, edges: Seq<(usize, usize)>, members: Set<usize>)
    requires
        is_clique(n, edges, members),
        0 <= n <= usize::MAX,
    ensures
        is_maximal_clique(n, edges, grown(n, edges, members, n)),
        members.subset_of(grown(n, edges, members, n)),
{
    lemma_grown(n, edges, members, n);
}

/// Where the lists are the maximal cliques of a graph, no clique of the
/// graph has more members than the largest of the lists, and the largest is
/// itself a maximal clique.
pub proof fn lemma_largest_is_maximum(
    n: int,
    edges: Seq<(usize, usize)>,
    cliques: Seq<Seq<usize>>,
    other: Seq<usize>,
)
    requires
        0 <= n <= usize::MAX,
        enumerates_maximal_cliques(n, edges, cliques),
        other.no_duplicates(),
        is_clique(n, edges, other.to_set()),
    ensures
        other.len() <= largest(cliques).len(),
        largest(cliques).no_duplicates(),
        is_maximal_clique(n, edges, largest(cliques).to_set()),
{
    lemma_largest(cliques);
    lemma_clique_grows(n, edges, other.to_set());
    let whole = grown(n, edges, other.to_set(), n);
    let i = choose|i: int| 0 <= i < cliques.len() && (#[trigger] cliques[i]).to_set() == whole;
    other.unique_seq_to_set();
    cliques[i].unique_seq_to_set();
    vstd::seq_lib::seq_to_set_is_finite(cliques[i]);
    vstd::set_lib::lemma_len_subset(other.to_set(), whole);
    if largest(cliques).len() > 0 {
        let k = choose|k: int| 0 <= k < cliques.len() && #[trigger] cliques[k] == largest(cliques);
        assert(cliques[k].no_duplicates());
    } else {
        assert(cliques[i].len() == 0);
        assert(cliques[i] =~= largest(cliques));
    }
}

/// The first of the largest sets of vertices of which every two are joined
/// by an edge, in the graph of `n` vertices and the given edges.
pub fn max_clique_of(n: usize, edges: &Vec<(usize, usize)>) -> (r: Vec<usize>)
    requires
        n * n <= usize::MAX,
        edges_within(n as int, edges@),
    ensures
        r@.no_duplicates(),
        is_maximal_clique(n as int, edges@, r@.to_set()),
        forall|other: Seq<usize>|
            other.no_duplicates() && #[trigger] is_clique(n as int, edges@, other.to_set())
                ==> other.len() <= r@.len(),
{
    let cliques = maximal_cliques(n, edges);
    let r = get_max_clique(&cliques);
    proof {
        let empty = Seq::<usize>::empty();
        assert(is_clique(n as int, edges@, empty.to_set()));
        lemma_largest_is_maximum(n as int, edges@, lists(cliques@), empty);
        assert forall|other: Seq<usize>|
            other.no_duplicates() && #[trigger] is_clique(
                n as int,
                edges@,
                other.to_set(),
            ) implies other.len() <= r@.len() by {
            lemma_largest_is_maximum(n as int, edges@, lists(cliques@), other);
        }
    }
    r
}

/// The plan for the candidates, given how the probes of their pairs went:
/// a largest set of candidates of which every two merged is merged, and the
/// others are left out. There is no plan for more candidates than a graph
/// can hold.
pub fn find_mergeable(candidates: &Vec<QualifiedPath>, conflict_data: &ConflictStatistics) -> (r:
    Option<DerivationPlan>)
    ensures
        match r {
            Some(plan) => {
                let n = candidates@.len() as int;
                let edges = edges_of(path_views(candidates@), conflict_data@.ok);
                &&& n * n <= usize::MAX
                &&& plan.is_plan_of(path_views(candidates@), plan.clique@)
                &&& plan.clique@.no_duplicates()
                &&& is_maximal_clique(n, edges, plan.clique@.to_set())
                &&& forall|other: Seq<usize>|
                    other.no_duplicates() && #[trigger] is_clique(n, edges, other.to_set())
                        ==> other.len() <= plan.clique@.len()
            },
            None => candidates@.len() * candidates@.len() > usize::MAX,
        },
{
    let n = candidates.len();
    match n.checked_mul(n) {
        Some(_) => {
            let edges = build_edges(conflict_data, candidates);
            let clique = max_clique_of(n, &edges);
            Some(plan_derivation(candidates, clique))
        },
        None => None,
    }
}

} // verus!

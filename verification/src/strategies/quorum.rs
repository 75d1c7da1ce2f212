//! Quorum voting over clusters of similar answers, after Raft and Paxos:
//! answers are grouped by single-linkage clustering, and the largest group
//! wins if it holds a strict majority of the agents.
use vstd::prelude::*;
use vstd::string::*;

use crate::models::{
    fraction_view, fractions_valid, lemma_fraction_view_insert, AgentResponse, ConsensusInput, ConsensusResult, Fraction, KeyedTable, ResponseCluster,
    ResultMetadata, WinningResponse, CONFIDENCE_SCALE,
};
use crate::strategies::ConsensusStrategy;
use crate::similarity::{
    build_similarity_matrix, exceeds, exceeds_threshold, get_similarity, similarity_lookup,
    similarity_matrix, SimilarityMatrix,
};

verus! {

/// Similarity score of the responses at positions `p` and `q`.
pub open spec fn sim_of(rs: Seq<AgentResponse>, m: Map<(Seq<char>, Seq<char>), (int, int)>, p: usize, q: usize) -> (int, int) {
    similarity_lookup(m, rs[p as int].agent_id@, rs[q as int].agent_id@)
}

/// Some member of `c1` is more than `thr` similar to some member of `c2`.
pub open spec fn linked(
    rs: Seq<AgentResponse>,
    m: Map<(Seq<char>, Seq<char>), (int, int)>,
    thr: u64,
    c1: Seq<usize>,
    c2: Seq<usize>,
) -> bool {
    exists|a: int, b: int|
        0 <= a < c1.len() && 0 <= b < c2.len() && exceeds(#[trigger] sim_of(rs, m, c1[a], c2[b]), thr)
}

/// Every member of every cluster is the position of a response.
pub open spec fn members_valid(cl: Seq<Seq<usize>>, n: int) -> bool {
    forall|k: int, a: int| 0 <= k < cl.len() && 0 <= a < cl[k].len() ==> #[trigger] cl[k][a] < n
}

/// `(i, j)` is the first pair of linked clusters, in row-by-row order.
pub open spec fn is_first_link(
    rs: Seq<AgentResponse>,
    m: Map<(Seq<char>, Seq<char>), (int, int)>,
    thr: u64,
    cl: Seq<Seq<usize>>,
    i: int,
    j: int,
) -> bool {
    &&& 0 <= i < j < cl.len()
    &&& linked(rs, m, thr, cl[i], cl[j])
    &&& forall|i2: int, j2: int|
        0 <= i2 < j2 < cl.len() && (i2 < i || (i2 == i && j2 < j)) ==> !#[trigger] linked(
            rs,
            m,
            thr,
            cl[i2],
            cl[j2],
        )
}

/// Cluster `j` appended to cluster `i`, and removed from the list.
pub open spec fn merge(cl: Seq<Seq<usize>>, i: int, j: int) -> Seq<Seq<usize>> {
    cl.update(i, cl[i] + cl[j]).remove(j)
}

/// Single-linkage clustering: while two clusters are linked, the first such
/// pair is merged.
pub open spec fn clustering(
    rs: Seq<AgentResponse>,
    m: Map<(Seq<char>, Seq<char>), (int, int)>,
    thr: u64,
    cl: Seq<Seq<usize>>,
) -> Seq<Seq<usize>>
    decreases cl.len(),
{
    if exists|i: int, j: int| is_first_link(rs, m, thr, cl, i, j) {
        let (i, j) = choose|i: int, j: int| is_first_link(rs, m, thr, cl, i, j);
        clustering(rs, m, thr, merge(cl, i, j))
    } else {
        cl
    }
}

/// One cluster for each response.
pub open spec fn singletons(n: nat) -> Seq<Seq<usize>> {
    Seq::new(n, |k: int| seq![k as usize])
}

/// The clusters as sequences of response positions.
pub open spec fn clusters_view(v: Seq<Vec<usize>>) -> Seq<Seq<usize>> {
    v.map_values(|c: Vec<usize>| c@)
}

/// Whether some member of `c1` is more than `threshold` similar to some
/// member of `c2`.
fn clusters_linked(
    c1: &Vec<usize>,
    c2: &Vec<usize>,
    responses: &[AgentResponse],
    matrix: &SimilarityMatrix,
    threshold: u64,
) -> (r: bool)
    requires
        matrix.wf(),
        fractions_valid(matrix@),
        forall|a: int| 0 <= a < c1@.len() ==> #[trigger] c1@[a] < responses@.len(),
        forall|b: int| 0 <= b < c2@.len() ==> #[trigger] c2@[b] < responses@.len(),
    ensures
        r == linked(responses@, fraction_view(matrix@), threshold, c1@, c2@),
{
    for a in 0..c1.len()
        invariant
            matrix.wf(),
            fractions_valid(matrix@),
            forall|a: int| 0 <= a < c1@.len() ==> #[trigger] c1@[a] < responses@.len(),
            forall|b: int| 0 <= b < c2@.len() ==> #[trigger] c2@[b] < responses@.len(),
            forall|a2: int, b2: int|
                0 <= a2 < a && 0 <= b2 < c2@.len() ==> !exceeds(
                    #[trigger] sim_of(responses@, fraction_view(matrix@), c1@[a2], c2@[b2]),
                    threshold,
                ),
    {
        for b in 0..c2.len()
            invariant
                matrix.wf(),
                fractions_valid(matrix@),
                a < c1@.len(),
                forall|a: int| 0 <= a < c1@.len() ==> #[trigger] c1@[a] < responses@.len(),
                forall|b: int| 0 <= b < c2@.len() ==> #[trigger] c2@[b] < responses@.len(),
                forall|a2: int, b2: int|
                    (0 <= a2 < a && 0 <= b2 < c2@.len()) || (a2 == a && 0 <= b2 < b) ==> !exceeds(
                        #[trigger] sim_of(responses@, fraction_view(matrix@), c1@[a2], c2@[b2]),
                        threshold,
                    ),
        {
            let s = get_similarity(
                matrix,
                responses[c1[a]].agent_id.as_str(),
                responses[c2[b]].agent_id.as_str(),
            );
            if exceeds_threshold(&s, threshold) {
                proof {
                    assert(exceeds(sim_of(responses@, fraction_view(matrix@), c1@[a as int], c2@[b as int]), threshold));
                }
                return true;
            }
        }
    }
    false
}

/// Finds the first pair of linked clusters, in row-by-row order.
fn find_first_link(
    clusters: &Vec<Vec<usize>>,
    responses: &[AgentResponse],
    matrix: &SimilarityMatrix,
    threshold: u64,
) -> (r: Option<(usize, usize)>)
    requires
        matrix.wf(),
        fractions_valid(matrix@),
        members_valid(clusters_view(clusters@), responses@.len() as int),
    ensures
        match r {
            Some((i, j)) => is_first_link(
                responses@,
                fraction_view(matrix@),
                threshold,
                clusters_view(clusters@),
                i as int,
                j as int,
            ),
            None => forall|i: int, j: int|
                0 <= i < j < clusters@.len() ==> !#[trigger] linked(
                    responses@,
                    fraction_view(matrix@),
                    threshold,
                    clusters_view(clusters@)[i],
                    clusters_view(clusters@)[j],
                ),
        },
{
    let ghost cl = clusters_view(clusters@);
    let n = clusters.len();
    for i in 0..n
        invariant
            n == clusters@.len(),
            cl == clusters_view(clusters@),
            matrix.wf(),
            fractions_valid(matrix@),
            members_valid(cl, responses@.len() as int),
            forall|i2: int, j2: int|
                0 <= i2 < i && i2 < j2 < n ==> !#[trigger] linked(
                    responses@,
                    fraction_view(matrix@),
                    threshold,
                    cl[i2],
                    cl[j2],
                ),
    {
        for j in (i + 1)..n
            invariant
                n == clusters@.len(),
                i < n,
                cl == clusters_view(clusters@),
                matrix.wf(),
                fractions_valid(matrix@),
                members_valid(cl, responses@.len() as int),
                forall|i2: int, j2: int|
                    (0 <= i2 < i && i2 < j2 < n) || (i2 == i && i < j2 < j) ==> !#[trigger] linked(
                        responses@,
                        fraction_view(matrix@),
                        threshold,
                        cl[i2],
                        cl[j2],
                    ),
        {
            proof {
                assert(cl[i as int] == clusters@[i as int]@);
                assert(cl[j as int] == clusters@[j as int]@);
                assert forall|a: int| 0 <= a < clusters@[i as int]@.len() implies #[trigger] clusters@[i as int]@[a]
                    < responses@.len() by {
                    assert(cl[i as int][a] < responses@.len());
                }
                assert forall|b: int| 0 <= b < clusters@[j as int]@.len() implies #[trigger] clusters@[j as int]@[b]
                    < responses@.len() by {
                    assert(cl[j as int][b] < responses@.len());
                }
            }
            if clusters_linked(&clusters[i], &clusters[j], responses, matrix, threshold) {
                return Some((i, j));
            }
        }
    }
    None
}

/// Groups the responses by single-linkage clustering: clusters are merged
/// while any member of one is more than `threshold` similar to any member of
/// the other.  Clusters hold response positions.
pub fn cluster_responses(responses: &[AgentResponse], matrix: &SimilarityMatrix, threshold: u64) -> (clusters: Vec<Vec<usize>>)
    requires
        matrix.wf(),
        fractions_valid(matrix@),
    ensures
        clusters_view(clusters@) == clustering(
            responses@,
            fraction_view(matrix@),
            threshold,
            singletons(responses@.len()),
        ),
        members_valid(clusters_view(clusters@), responses@.len() as int),
        forall|k: int| 0 <= k < clusters@.len() ==> (#[trigger] clusters@[k])@.len() > 0,
        responses@.len() > 0 ==> clusters@.len() > 0,
{
    let n = responses.len();
    let mut clusters: Vec<Vec<usize>> = Vec::new();
    for k in 0..n
        invariant
            n == responses@.len(),
            clusters_view(clusters@) =~= singletons(k as nat),
            clusters@.len() == k,
            forall|l: int| 0 <= l < clusters@.len() ==> (#[trigger] clusters@[l])@.len() > 0,
    {
        let mut c: Vec<usize> = Vec::new();
        c.push(k);
        let ghost prev = clusters@;
        proof {
            assert(c@ =~= seq![k]);
        }
        clusters.push(c);
        proof {
            assert(clusters@ == prev.push(c));
            assert(clusters_view(clusters@) =~= clusters_view(prev).push(seq![k]));
        }
    }
    let ghost goal = clustering(responses@, fraction_view(matrix@), threshold, singletons(n as nat));
    let mut done = false;
    while !done
        invariant
            n == responses@.len(),
            matrix.wf(),
            fractions_valid(matrix@),
            members_valid(clusters_view(clusters@), n as int),
            forall|k: int| 0 <= k < clusters@.len() ==> (#[trigger] clusters@[k])@.len() > 0,
            n > 0 ==> clusters@.len() > 0,
            clustering(responses@, fraction_view(matrix@), threshold, clusters_view(clusters@)) == goal,
            done ==> clusters_view(clusters@) == goal,
        decreases clusters@.len() + (if done { 0int } else { 1int }),
    {
        let ghost before = clusters_view(clusters@);
        proof {
            assert forall|k: int| 0 <= k < before.len() implies (#[trigger] before[k]).len() > 0 by {
                assert(before[k] == clusters@[k]@);
            }
        }
        match find_first_link(&clusters, responses, matrix, threshold) {
            None => {
                proof {
                    assert(!exists|i: int, j: int| is_first_link(responses@, fraction_view(matrix@), threshold, before, i, j));
                }
                done = true;
            },
            Some((i, j)) => {
                let mut merged: Vec<usize> = Vec::new();
                let ci = clusters[i].len();
                for a in 0..ci
                    invariant
                        i < clusters@.len(),
                        ci == clusters@[i as int]@.len(),
                        merged@ == clusters@[i as int]@.take(a as int),
                {
                    merged.push(clusters[i][a]);
                    proof {
                        assert(merged@ =~= clusters@[i as int]@.take(a + 1));
                    }
                }
                let cj = clusters[j].len();
                for b in 0..cj
                    invariant
                        i < clusters@.len(),
                        j < clusters@.len(),
                        cj == clusters@[j as int]@.len(),
                        merged@ == clusters@[i as int]@ + clusters@[j as int]@.take(b as int),
                {
                    merged.push(clusters[j][b]);
                    proof {
                        assert(merged@ =~= clusters@[i as int]@ + clusters@[j as int]@.take(b + 1));
                    }
                }
                proof {
                    assert(clusters@[i as int]@ =~= clusters@[i as int]@.take(ci as int));
                    assert(clusters@[j as int]@ =~= clusters@[j as int]@.take(cj as int));
                    assert(merged@ == before[i as int] + before[j as int]);
                    lemma_first_link_unique(responses@, fraction_view(matrix@), threshold, before, i as int, j as int);
                }
                clusters.set(i, merged);
                let _ = clusters.remove(j);
                proof {
                    assert(clusters_view(clusters@) =~= merge(before, i as int, j as int));
                    let after = clusters_view(clusters@);
                    assert forall|k: int| 0 <= k < clusters@.len() implies (#[trigger] clusters@[k])@.len() > 0 by {
                        assert(clusters@[k]@ == after[k]);
                        if k < j {
                            if k == i {
                                assert(after[k].len() >= before[i as int].len());
                            } else {
                                assert(after[k] == before[k]);
                            }
                        } else {
                            assert(after[k] == before[k + 1]);
                        }
                    }
                    assert forall|k: int, a: int| 0 <= k < after.len() && 0 <= a < after[k].len()
                        implies #[trigger] after[k][a] < n by {
                        if k < j {
                            if k == i {
                                if a < before[i as int].len() {
                                    assert(after[k][a] == before[i as int][a]);
                                } else {
                                    assert(after[k][a] == before[j as int][a - before[i as int].len()]);
                                }
                            } else {
                                assert(after[k] == before[k]);
                            }
                        } else {
                            assert(after[k] == before[k + 1]);
                        }
                    }
                }
            },
        }
    }
    clusters
}

/// There is only one first pair of linked clusters.
proof fn lemma_first_link_unique(
    rs: Seq<AgentResponse>,
    m: Map<(Seq<char>, Seq<char>), (int, int)>,
    thr: u64,
    cl: Seq<Seq<usize>>,
    i: int,
    j: int,
)
    requires
        is_first_link(rs, m, thr, cl, i, j),
    ensures
        (choose|i2: int, j2: int| is_first_link(rs, m, thr, cl, i2, j2)) == (i, j),
        clustering(rs, m, thr, cl) == clustering(rs, m, thr, merge(cl, i, j)),
{
    let (i2, j2) = choose|i2: int, j2: int| is_first_link(rs, m, thr, cl, i2, j2);
    assert(is_first_link(rs, m, thr, cl, i2, j2));
    if i2 < i || (i2 == i && j2 < j) {
        assert(!linked(rs, m, thr, cl[i2], cl[j2]));
    } else if i < i2 || (i == i2 && j < j2) {
        assert(!linked(rs, m, thr, cl[i], cl[j]));
    }
}


/// Total confidence of the members of a cluster.
pub open spec fn conf_sum(rs: Seq<AgentResponse>, c: Seq<usize>) -> int
    decreases c.len(),
{
    if c.len() == 0 {
        0
    } else {
        conf_sum(rs, c.drop_last()) + rs[c.last() as int].confidence
    }
}

/// Cluster `k` ranks before cluster `l`: it has more members, or as many
/// members and a higher mean confidence, or it is tied and comes earlier.
pub open spec fn ranks_before(rs: Seq<AgentResponse>, cl: Seq<Seq<usize>>, k: int, l: int) -> bool {
    let (a, b) = (cl[k], cl[l]);
    ||| a.len() > b.len()
    ||| a.len() == b.len() && conf_sum(rs, a) > conf_sum(rs, b)
    ||| a.len() == b.len() && conf_sum(rs, a) == conf_sum(rs, b) && k < l
}

/// `order` holds `k`.
pub open spec fn lists(order: Seq<usize>, k: int) -> bool {
    exists|a: int| 0 <= a < order.len() && order[a] == k
}

/// `order` lists every cluster once, from the highest ranked down.
pub open spec fn is_ranking(rs: Seq<AgentResponse>, cl: Seq<Seq<usize>>, order: Seq<usize>) -> bool {
    &&& order.len() == cl.len()
    &&& forall|a: int| 0 <= a < order.len() ==> #[trigger] order[a] < cl.len()
    &&& forall|k: int| 0 <= k < cl.len() ==> #[trigger] lists(order, k)
    &&& forall|a: int, b: int| 0 <= a < b < order.len() ==> ranks_before(rs, cl, #[trigger] order[a] as int, #[trigger] order[b] as int)
}

/// The clusters from the highest ranked down.
pub open spec fn ranked(rs: Seq<AgentResponse>, cl: Seq<Seq<usize>>) -> Seq<Seq<usize>> {
    let order = choose|order: Seq<usize>| is_ranking(rs, cl, order);
    order.map_values(|k: usize| cl[k as int])
}

proof fn lemma_ranks_order(rs: Seq<AgentResponse>, cl: Seq<Seq<usize>>, k: int, l: int, m: int)
    ensures
        !ranks_before(rs, cl, k, k),
        ranks_before(rs, cl, k, l) ==> !ranks_before(rs, cl, l, k),
        k != l ==> ranks_before(rs, cl, k, l) || ranks_before(rs, cl, l, k),
        ranks_before(rs, cl, k, l) && ranks_before(rs, cl, l, m) ==> ranks_before(rs, cl, k, m),
{
}

/// Two rankings of the same clusters are the same.
pub proof fn lemma_ranking_unique(rs: Seq<AgentResponse>, cl: Seq<Seq<usize>>, o1: Seq<usize>, o2: Seq<usize>)
    requires
        is_ranking(rs, cl, o1),
        is_ranking(rs, cl, o2),
    ensures
        o1 == o2,
{
    assert forall|a: int| 0 <= a < o1.len() implies o1[a] == o2[a] by {
        lemma_ranking_prefix(rs, cl, o1, o2, a);
    }
    assert(o1 =~= o2);
}

proof fn lemma_ranking_prefix(rs: Seq<AgentResponse>, cl: Seq<Seq<usize>>, o1: Seq<usize>, o2: Seq<usize>, a: int)
    requires
        is_ranking(rs, cl, o1),
        is_ranking(rs, cl, o2),
        0 <= a < o1.len(),
    ensures
        o1[a] == o2[a],
    decreases a,
{
    if a > 0 {
        lemma_ranking_prefix(rs, cl, o1, o2, a - 1);
    }
    assert forall|c: int| 0 <= c < a implies o1[c] == o2[c] by {
        lemma_ranking_prefix(rs, cl, o1, o2, c);
    }
    let x = o1[a];
    let y = o2[a];
    if x != y {
        assert(lists(o2, x as int));
        assert(lists(o1, y as int));
        let b = choose|b: int| 0 <= b < o2.len() && o2[b] == x as int;
        let c = choose|c: int| 0 <= c < o1.len() && o1[c] == y as int;
        if b < a {
            assert(o1[b] == o2[b]);
            assert(ranks_before(rs, cl, o1[b] as int, o1[a] as int));
            lemma_ranks_order(rs, cl, x as int, x as int, x as int);
        }
        if c < a {
            assert(o1[c] == o2[c]);
            assert(ranks_before(rs, cl, o2[c] as int, o2[a] as int));
            lemma_ranks_order(rs, cl, y as int, y as int, y as int);
        }
        assert(b > a && c > a);
        assert(ranks_before(rs, cl, o2[a] as int, o2[b] as int));
        assert(ranks_before(rs, cl, o1[a] as int, o1[c] as int));
        lemma_ranks_order(rs, cl, x as int, y as int, x as int);
    }
}

/// Total confidence of the members of a cluster.
fn cluster_confidence(c: &Vec<usize>, responses: &[AgentResponse]) -> (total: u128)
    requires
        forall|a: int| 0 <= a < c@.len() ==> #[trigger] c@[a] < responses@.len(),
    ensures
        total == conf_sum(responses@, c@),
        total <= c@.len() * 0xffff_ffff,
{
    let mut total: u128 = 0;
    for a in 0..c.len()
        invariant
            forall|a: int| 0 <= a < c@.len() ==> #[trigger] c@[a] < responses@.len(),
            total == conf_sum(responses@, c@.take(a as int)),
            total <= a * 0xffff_ffff,
    {
        proof {
            assert(c@.take(a + 1).drop_last() =~= c@.take(a as int));
        }
        total = total + responses[c[a]].confidence as u128;
    }
    proof {
        assert(c@.take(c@.len() as int) =~= c@);
    }
    total
}

/// Mean confidence of the members of a non-empty cluster, as a fraction of
/// full confidence.
pub fn mean_confidence(c: &Vec<usize>, responses: &[AgentResponse]) -> (mean: Fraction)
    requires
        c@.len() > 0,
        forall|a: int| 0 <= a < c@.len() ==> #[trigger] c@[a] < responses@.len(),
    ensures
        mean.value() == (conf_sum(responses@, c@), c@.len() * CONFIDENCE_SCALE),
{
    let total = cluster_confidence(c, responses);
    Fraction { numerator: total, denominator: c.len() as u128 * CONFIDENCE_SCALE as u128 }
}

/// Orders the clusters from the highest ranked down: by size, then by mean
/// confidence, both descending; ties keep their order.
pub fn rank_clusters(clusters: &Vec<Vec<usize>>, responses: &[AgentResponse]) -> (order: Vec<usize>)
    requires
        members_valid(clusters_view(clusters@), responses@.len() as int),
    ensures
        is_ranking(responses@, clusters_view(clusters@), order@),
{
    let ghost cl = clusters_view(clusters@);
    let n = clusters.len();
    let mut sums: Vec<u128> = Vec::new();
    for k in 0..n
        invariant
            n == clusters@.len(),
            cl == clusters_view(clusters@),
            members_valid(cl, responses@.len() as int),
            sums@.len() == k,
            forall|l: int| 0 <= l < k ==> #[trigger] sums@[l] == conf_sum(responses@, cl[l]),
    {
        proof {
            assert(cl[k as int] == clusters@[k as int]@);
            assert forall|a: int| 0 <= a < clusters@[k as int]@.len() implies #[trigger] clusters@[k as int]@[a]
                < responses@.len() by {
                assert(cl[k as int][a] < responses@.len());
            }
        }
        let t = cluster_confidence(&clusters[k], responses);
        sums.push(t);
    }
    let mut order: Vec<usize> = Vec::new();
    for t in 0..n
        invariant
            n == clusters@.len(),
            cl == clusters_view(clusters@),
            sums@.len() == n,
            forall|l: int| 0 <= l < n ==> #[trigger] sums@[l] == conf_sum(responses@, cl[l]),
            order@.len() == t,
            forall|a: int| 0 <= a < order@.len() ==> #[trigger] order@[a] < t,
            forall|k: int| 0 <= k < t ==> #[trigger] lists(order@, k),
            forall|a: int, b: int|
                0 <= a < b < order@.len() ==> ranks_before(responses@, cl, #[trigger] order@[a] as int, #[trigger] order@[b] as int),
    {
        let mut p: usize = 0;
        while p < order.len() && !before_in(t, order[p], clusters, &sums)
            invariant
                n == clusters@.len(),
                t < n,
                cl == clusters_view(clusters@),
                sums@.len() == n,
                forall|l: int| 0 <= l < n ==> #[trigger] sums@[l] == conf_sum(responses@, cl[l]),
                order@.len() == t,
                forall|a: int| 0 <= a < order@.len() ==> #[trigger] order@[a] < t,
                p <= order@.len(),
                forall|a: int| 0 <= a < p ==> ranks_before(responses@, cl, #[trigger] order@[a] as int, t as int),
            decreases order@.len() - p,
        {
            proof {
                lemma_ranks_order(responses@, cl, t as int, order@[p as int] as int, 0);
            }
            p = p + 1;
        }
        let ghost old_order = order@;
        proof {
            assert forall|a: int| p <= a < old_order.len() implies ranks_before(responses@, cl, t as int, #[trigger] old_order[a] as int) by {
                if a > p {
                    assert(ranks_before(responses@, cl, old_order[p as int] as int, old_order[a] as int));
                    lemma_ranks_order(responses@, cl, t as int, old_order[p as int] as int, old_order[a] as int);
                }
            }
        }
        order.insert(p, t);
        proof {
            assert(order@ == old_order.insert(p as int, t));
            assert forall|k: int| 0 <= k < t + 1 implies #[trigger] lists(order@, k) by {
                if k == t {
                    assert(order@[p as int] == k);
                } else {
                    assert(lists(old_order, k));
                    let a = choose|a: int| 0 <= a < old_order.len() && old_order[a] == k;
                    if a < p {
                        assert(order@[a] == k);
                    } else {
                        assert(order@[a + 1] == k);
                    }
                }
            }
            assert forall|a: int, b: int| 0 <= a < b < order@.len()
                implies ranks_before(responses@, cl, #[trigger] order@[a] as int, #[trigger] order@[b] as int) by {
                if b < p {
                    assert(order@[a] == old_order[a] && order@[b] == old_order[b]);
                } else if b == p {
                    assert(order@[a] == old_order[a]);
                } else if a < p {
                    assert(order@[a] == old_order[a] && order@[b] == old_order[b - 1]);
                    lemma_ranks_order(responses@, cl, old_order[a] as int, t as int, old_order[b - 1] as int);
                } else if a == p {
                    assert(order@[b] == old_order[b - 1]);
                } else {
                    assert(order@[a] == old_order[a - 1] && order@[b] == old_order[b - 1]);
                }
            }
        }
    }
    order
}

/// Whether cluster `k` ranks before cluster `l`.
fn before_in(k: usize, l: usize, clusters: &Vec<Vec<usize>>, sums: &Vec<u128>) -> (r: bool)
    requires
        k < clusters@.len(),
        l < clusters@.len(),
        sums@.len() == clusters@.len(),
    ensures
        r == ({
            let (a, b) = (clusters@[k as int]@, clusters@[l as int]@);
            ||| a.len() > b.len()
            ||| a.len() == b.len() && sums@[k as int] > sums@[l as int]
            ||| a.len() == b.len() && sums@[k as int] == sums@[l as int] && k < l
        }),
{
    let a = clusters[k].len();
    let b = clusters[l].len();
    a > b || (a == b && sums[k] > sums[l]) || (a == b && sums[k] == sums[l] && k < l)
}


/// Position, within `c`, of the member with the highest confidence; the last
/// one among equals.
pub open spec fn best_member(rs: Seq<AgentResponse>, c: Seq<usize>) -> int
    decreases c.len(),
{
    if c.len() <= 1 {
        0
    } else {
        let p = best_member(rs, c.drop_last());
        if rs[c.last() as int].confidence >= rs[c[p] as int].confidence {
            c.len() - 1
        } else {
            p
        }
    }
}

/// The chosen member has the highest confidence, and every member after it
/// has less.
pub proof fn lemma_best_member(rs: Seq<AgentResponse>, c: Seq<usize>)
    requires
        c.len() > 0,
    ensures
        0 <= best_member(rs, c) < c.len(),
        forall|q: int| 0 <= q < c.len() ==> rs[#[trigger] c[q] as int].confidence <= rs[c[best_member(rs, c)] as int].confidence,
        forall|q: int| best_member(rs, c) < q < c.len() ==> rs[#[trigger] c[q] as int].confidence < rs[c[best_member(rs, c)] as int].confidence,
    decreases c.len(),
{
    if c.len() > 1 {
        let d = c.drop_last();
        lemma_best_member(rs, d);
        let p = best_member(rs, d);
        let b = best_member(rs, c);
        assert(d[p] == c[p]);
        assert forall|q: int| 0 <= q < c.len() implies rs[#[trigger] c[q] as int].confidence <= rs[c[b] as int].confidence by {
            if q < c.len() - 1 {
                assert(d[q] == c[q]);
            }
        }
        assert forall|q: int| b < q < c.len() implies rs[#[trigger] c[q] as int].confidence < rs[c[b] as int].confidence by {
            if q < c.len() - 1 {
                assert(d[q] == c[q]);
            }
        }
    }
}

/// Position of the member with the highest confidence, the last among equals.
pub fn find_best_member(c: &Vec<usize>, responses: &[AgentResponse]) -> (p: usize)
    requires
        c@.len() > 0,
        forall|a: int| 0 <= a < c@.len() ==> #[trigger] c@[a] < responses@.len(),
    ensures
        p == best_member(responses@, c@),
        p < c@.len(),
{
    let mut best: usize = 0;
    for a in 1..c.len()
        invariant
            c@.len() > 0,
            forall|a: int| 0 <= a < c@.len() ==> #[trigger] c@[a] < responses@.len(),
            best < a,
            best == best_member(responses@, c@.take(a as int)),
    {
        proof {
            assert(c@.take(a + 1).drop_last() =~= c@.take(a as int));
            assert(c@.take(a as int)[best as int] == c@[best as int]);
        }
        if responses[c[a]].confidence >= responses[c[best]].confidence {
            best = a;
        }
    }
    proof {
        assert(c@.take(c@.len() as int) =~= c@);
    }
    best
}

/// Key under which the similarity of two members is reported.
pub open spec fn score_key(a: Seq<char>, b: Seq<char>) -> Seq<char> {
    a + seq![':'] + b
}

/// The reported similarity scores after all member pairs before `(i, j)`,
/// in row-by-row order, have been entered; a later pair replaces an earlier
/// one under the same key.
pub open spec fn scores_upto(
    rs: Seq<AgentResponse>,
    m: Map<(Seq<char>, Seq<char>), (int, int)>,
    c: Seq<usize>,
    i: int,
    j: int,
) -> Map<Seq<char>, (int, int)>
    decreases i, j,
{
    if 0 <= i && i + 1 < j {
        scores_upto(rs, m, c, i, j - 1).insert(
            score_key(rs[c[i] as int].agent_id@, rs[c[j - 1] as int].agent_id@),
            sim_of(rs, m, c[i], c[j - 1]),
        )
    } else if 0 < i {
        scores_upto(rs, m, c, i - 1, c.len() as int)
    } else {
        Map::empty()
    }
}

/// The similarity scores of all pairs of members of a cluster.
pub open spec fn pair_scores(rs: Seq<AgentResponse>, m: Map<(Seq<char>, Seq<char>), (int, int)>, c: Seq<usize>) -> Map<Seq<char>, (int, int)> {
    scores_upto(rs, m, c, c.len() as int, c.len() + 1int)
}

/// `out` reports cluster `c`: the content of its most confident member, its
/// members' ids in order, and the similarity of each pair of members.
pub open spec fn describes_cluster(
    out: ResponseCluster,
    rs: Seq<AgentResponse>,
    m: Map<(Seq<char>, Seq<char>), (int, int)>,
    c: Seq<usize>,
) -> bool {
    &&& out.representative_content@ == rs[c[best_member(rs, c)] as int].content@
    &&& out.members@.len() == c.len()
    &&& forall|a: int| 0 <= a < c.len() ==> (#[trigger] out.members@[a])@ == rs[c[a] as int].agent_id@
    &&& out.similarity_scores.wf()
    &&& fraction_view(out.similarity_scores@) == pair_scores(rs, m, c)
    &&& fractions_valid(out.similarity_scores@)
}

/// The ids of the given members, in order.
pub fn member_ids(c: &Vec<usize>, responses: &[AgentResponse]) -> (ids: Vec<String>)
    requires
        forall|a: int| 0 <= a < c@.len() ==> #[trigger] c@[a] < responses@.len(),
    ensures
        ids@.len() == c@.len(),
        forall|a: int| 0 <= a < c@.len() ==> (#[trigger] ids@[a])@ == responses@[c@[a] as int].agent_id@,
{
    let mut ids: Vec<String> = Vec::new();
    for a in 0..c.len()
        invariant
            forall|a: int| 0 <= a < c@.len() ==> #[trigger] c@[a] < responses@.len(),
            ids@.len() == a,
            forall|b: int| 0 <= b < a ==> (#[trigger] ids@[b])@ == responses@[c@[b] as int].agent_id@,
    {
        ids.push(responses[c[a]].agent_id.clone());
    }
    ids
}

/// Builds the report of one cluster.
pub fn build_response_cluster(c: &Vec<usize>, responses: &[AgentResponse], matrix: &SimilarityMatrix) -> (out: ResponseCluster)
    requires
        matrix.wf(),
        fractions_valid(matrix@),
        c@.len() > 0,
        forall|a: int| 0 <= a < c@.len() ==> #[trigger] c@[a] < responses@.len(),
    ensures
        describes_cluster(out, responses@, fraction_view(matrix@), c@),
{
    let best = find_best_member(c, responses);
    let members = member_ids(c, responses);
    let mut scores: KeyedTable<String, Fraction> = KeyedTable::new();
    let n = c.len();
    for i in 0..n
        invariant
            n == c@.len(),
            matrix.wf(),
            fractions_valid(matrix@),
            forall|a: int| 0 <= a < c@.len() ==> #[trigger] c@[a] < responses@.len(),
            scores.wf(),
            fractions_valid(scores@),
            fraction_view(scores@) == scores_upto(responses@, fraction_view(matrix@), c@, i as int, i + 1),
    {
        for j in (i + 1)..n
            invariant
                n == c@.len(),
                i < n,
                matrix.wf(),
                fractions_valid(matrix@),
                forall|a: int| 0 <= a < c@.len() ==> #[trigger] c@[a] < responses@.len(),
                scores.wf(),
                fractions_valid(scores@),
                fraction_view(scores@) == scores_upto(responses@, fraction_view(matrix@), c@, i as int, j as int),
        {
            let a = &responses[c[i]].agent_id;
            let b = &responses[c[j]].agent_id;
            let mut key = a.clone();
            key.append(":");
            key.append(b.as_str());
            proof {
                reveal_strlit(":");
                assert(key@ =~= score_key(a@, b@));
            }
            let s = get_similarity(matrix, a.as_str(), b.as_str());
            proof {
                lemma_fraction_view_insert(scores@, key@, s);
            }
            scores.insert(key, s);
        }
        proof {
            assert(scores_upto(responses@, fraction_view(matrix@), c@, i + 1, i + 2) == scores_upto(
                responses@,
                fraction_view(matrix@),
                c@,
                i as int,
                n as int,
            ));
        }
    }
    ResponseCluster {
        representative_content: responses[c[best]].content.clone(),
        members,
        similarity_scores: scores,
    }
}


/// The quorum strategy.
#[derive(Debug)]
pub struct QuorumStrategy;

/// The number of agents that make a strict majority of `n`.
pub open spec fn quorum_size(n: int) -> int {
    n / 2 + 1
}

/// The clusters of a quorum run, from the highest ranked down.
pub open spec fn quorum_clusters(rs: Seq<AgentResponse>, thr: u64) -> Seq<Seq<usize>> {
    ranked(rs, clustering(rs, similarity_matrix(rs), thr, singletons(rs.len())))
}

/// `w` reports cluster `c` as the winner among the agents `rs`.
pub open spec fn describes_winner(w: WinningResponse, rs: Seq<AgentResponse>, c: Seq<usize>) -> bool {
    &&& w.content@ == rs[c[best_member(rs, c)] as int].content@
    &&& w.supporting_agents@.len() == c.len()
    &&& forall|a: int| 0 <= a < c.len() ==> (#[trigger] w.supporting_agents@[a])@ == rs[c[a] as int].agent_id@
    &&& w.agreement_ratio.value() == (c.len() as int, rs.len() as int)
    &&& w.confidence_score.value() == (conf_sum(rs, c), c.len() * CONFIDENCE_SCALE)
}

/// `r` is the outcome of a quorum run on `input`: the clusters in rank
/// order, and a winner exactly when the top cluster holds a strict majority.
pub open spec fn quorum_outcome(input: ConsensusInput, thr: u64, r: ConsensusResult) -> bool {
    let rs = input.responses@;
    let m = similarity_matrix(rs);
    let ranked = quorum_clusters(rs, thr);
    &&& r.strategy@ == "quorum"@
    &&& r.prompt@ == input.prompt@
    &&& r.consensus_reached == (ranked[0].len() >= quorum_size(rs.len() as int))
    &&& r.clusters@.len() == ranked.len()
    &&& forall|k: int| 0 <= k < ranked.len() ==> describes_cluster(#[trigger] r.clusters@[k], rs, m, ranked[k])
    &&& match r.winning_response {
        Some(w) => r.consensus_reached && describes_winner(w, rs, ranked[0]),
        None => !r.consensus_reached,
    }
    &&& r.metadata == (ResultMetadata::Quorum {
        total_responses: rs.len() as usize,
        similarity_threshold: thr,
        quorum_size: quorum_size(rs.len() as int) as usize,
    })
}

impl ConsensusStrategy for QuorumStrategy {
    open spec fn strategy_name(&self) -> Seq<char> {
        "quorum"@
    }

    /// The quorum needs at least one response.
    open spec fn accepts(&self, input: ConsensusInput) -> bool {
        input.responses@.len() > 0
    }

    open spec fn outcome(&self, input: ConsensusInput, threshold: u64, result: ConsensusResult) -> bool {
        quorum_outcome(input, threshold, result)
    }

    fn name(&self) -> (name: &'static str) {
        "quorum"
    }

    /// Clusters the responses, ranks the clusters, and declares the top
    /// cluster the winner if a strict majority of the agents is in it.
    fn evaluate(&self, input: &ConsensusInput, similarity_threshold: u64) -> (result: ConsensusResult) {
        let responses = input.responses.as_slice();
        let n = responses.len();
        let quorum = n / 2 + 1;
        let matrix = build_similarity_matrix(responses);
        let clusters = cluster_responses(responses, &matrix, similarity_threshold);
        let order = rank_clusters(&clusters, responses);
        let ghost rs = responses@;
        let ghost cl = clusters_view(clusters@);
        let ghost ranked_spec = quorum_clusters(rs, similarity_threshold);
        proof {
            let o = choose|o: Seq<usize>| is_ranking(rs, cl, o);
            lemma_ranking_unique(rs, cl, o, order@);
            assert(ranked_spec == order@.map_values(|k: usize| cl[k as int]));
        }
        let mut out: Vec<ResponseCluster> = Vec::new();
        for t in 0..order.len()
            invariant
                rs == responses@,
                matrix.wf(),
                fractions_valid(matrix@),
                fraction_view(matrix@) == similarity_matrix(rs),
                cl == clusters_view(clusters@),
                members_valid(cl, rs.len() as int),
                forall|k: int| 0 <= k < clusters@.len() ==> (#[trigger] clusters@[k])@.len() > 0,
                is_ranking(rs, cl, order@),
                ranked_spec == order@.map_values(|k: usize| cl[k as int]),
                out@.len() == t,
                forall|k: int| 0 <= k < t ==> describes_cluster(#[trigger] out@[k], rs, fraction_view(matrix@), ranked_spec[k]),
        {
            let k = order[t];
            proof {
                assert(cl[k as int] == clusters@[k as int]@);
                assert forall|a: int| 0 <= a < clusters@[k as int]@.len() implies #[trigger] clusters@[k as int]@[a]
                    < rs.len() by {
                    assert(cl[k as int][a] < rs.len());
                }
            }
            out.push(build_response_cluster(&clusters[k], responses, &matrix));
        }
        let top = order[0];
        let largest = &clusters[top];
        proof {
            assert(cl[top as int] == largest@);
            assert(ranked_spec[0] == largest@);
            assert forall|a: int| 0 <= a < largest@.len() implies #[trigger] largest@[a] < rs.len() by {
                assert(cl[top as int][a] < rs.len());
            }
        }
        let consensus_reached = largest.len() >= quorum;
        let winning_response = if consensus_reached {
            let best = find_best_member(largest, responses);
            Some(WinningResponse {
                content: responses[largest[best]].content.clone(),
                supporting_agents: member_ids(largest, responses),
                agreement_ratio: Fraction { numerator: largest.len() as u128, denominator: n as u128 },
                confidence_score: mean_confidence(largest, responses),
            })
        } else {
            None
        };
        let result = ConsensusResult {
            strategy: "quorum".to_owned(),
            prompt: input.prompt.clone(),
            consensus_reached,
            winning_response,
            clusters: out,
            metadata: ResultMetadata::Quorum {
                total_responses: n,
                similarity_threshold,
                quorum_size: quorum,
            },
        };
        proof {
            reveal_strlit("quorum");
        }
        result
    }
}


/// The sum of `f` over the clusters.
pub open spec fn sum_of(cl: Seq<Seq<usize>>, f: spec_fn(Seq<usize>) -> int) -> int
    decreases cl.len(),
{
    if cl.len() == 0 {
        0
    } else {
        sum_of(cl.drop_last(), f) + f(cl.last())
    }
}

/// How often `x` occurs in `s`.
pub open spec fn count(s: Seq<usize>, x: usize) -> int
    decreases s.len(),
{
    if s.len() == 0 {
        0
    } else {
        count(s.drop_last(), x) + (if s.last() == x { 1int } else { 0 })
    }
}

/// The size of a cluster.
pub open spec fn size_fn() -> spec_fn(Seq<usize>) -> int {
    |c: Seq<usize>| c.len() as int
}

/// How often `x` occurs in a cluster.
pub open spec fn count_fn(x: usize) -> spec_fn(Seq<usize>) -> int {
    |c: Seq<usize>| count(c, x)
}

/// `f` adds up over concatenation.
pub open spec fn additive(f: spec_fn(Seq<usize>) -> int) -> bool {
    forall|a: Seq<usize>, b: Seq<usize>| #[trigger] f(a + b) == f(a) + f(b)
}

proof fn lemma_count_concat(a: Seq<usize>, b: Seq<usize>, x: usize)
    ensures
        count(a + b, x) == count(a, x) + count(b, x),
    decreases b.len(),
{
    if b.len() > 0 {
        lemma_count_concat(a, b.drop_last(), x);
        assert((a + b).drop_last() =~= a + b.drop_last());
    } else {
        assert(a + b =~= a);
    }
}

proof fn lemma_additive_fns(x: usize)
    ensures
        additive(size_fn()),
        additive(count_fn(x)),
{
    assert forall|a: Seq<usize>, b: Seq<usize>| #[trigger] count_fn(x)(a + b) == count_fn(x)(a) + count_fn(x)(b) by {
        lemma_count_concat(a, b, x);
    }
}

proof fn lemma_sum_remove(cl: Seq<Seq<usize>>, f: spec_fn(Seq<usize>) -> int, j: int)
    requires
        0 <= j < cl.len(),
    ensures
        sum_of(cl.remove(j), f) + f(cl[j]) == sum_of(cl, f),
    decreases cl.len(),
{
    if j == cl.len() - 1 {
        assert(cl.remove(j) =~= cl.drop_last());
    } else {
        lemma_sum_remove(cl.drop_last(), f, j);
        assert(cl.remove(j).drop_last() =~= cl.drop_last().remove(j));
        assert(cl.remove(j).last() == cl.last());
    }
}

proof fn lemma_sum_update(cl: Seq<Seq<usize>>, f: spec_fn(Seq<usize>) -> int, i: int, y: Seq<usize>)
    requires
        0 <= i < cl.len(),
    ensures
        sum_of(cl.update(i, y), f) + f(cl[i]) == sum_of(cl, f) + f(y),
    decreases cl.len(),
{
    if i == cl.len() - 1 {
        assert(cl.update(i, y).drop_last() =~= cl.drop_last());
    } else {
        lemma_sum_update(cl.drop_last(), f, i, y);
        assert(cl.update(i, y).drop_last() =~= cl.drop_last().update(i, y));
    }
}

proof fn lemma_sum_merge(cl: Seq<Seq<usize>>, f: spec_fn(Seq<usize>) -> int, i: int, j: int)
    requires
        0 <= i < j < cl.len(),
        additive(f),
    ensures
        sum_of(merge(cl, i, j), f) == sum_of(cl, f),
{
    let u = cl.update(i, cl[i] + cl[j]);
    lemma_sum_update(cl, f, i, cl[i] + cl[j]);
    lemma_sum_remove(u, f, j);
    assert(f(cl[i] + cl[j]) == f(cl[i]) + f(cl[j]));
}

proof fn lemma_clustering_sum(
    rs: Seq<AgentResponse>,
    m: Map<(Seq<char>, Seq<char>), (int, int)>,
    thr: u64,
    cl: Seq<Seq<usize>>,
    f: spec_fn(Seq<usize>) -> int,
)
    requires
        additive(f),
    ensures
        sum_of(clustering(rs, m, thr, cl), f) == sum_of(cl, f),
    decreases cl.len(),
{
    if exists|i: int, j: int| is_first_link(rs, m, thr, cl, i, j) {
        let (i, j) = choose|i: int, j: int| is_first_link(rs, m, thr, cl, i, j);
        lemma_sum_merge(cl, f, i, j);
        lemma_clustering_sum(rs, m, thr, merge(cl, i, j), f);
    }
}

proof fn lemma_first_link_exists(
    rs: Seq<AgentResponse>,
    m: Map<(Seq<char>, Seq<char>), (int, int)>,
    thr: u64,
    cl: Seq<Seq<usize>>,
    i: int,
    j: int,
)
    requires
        0 <= i < j < cl.len(),
        linked(rs, m, thr, cl[i], cl[j]),
    ensures
        exists|i2: int, j2: int| is_first_link(rs, m, thr, cl, i2, j2),
    decreases i, j,
{
    if !is_first_link(rs, m, thr, cl, i, j) {
        let (i2, j2) = choose|i2: int, j2: int|
            0 <= i2 < j2 < cl.len() && (i2 < i || (i2 == i && j2 < j)) && #[trigger] linked(
                rs,
                m,
                thr,
                cl[i2],
                cl[j2],
            );
        lemma_first_link_exists(rs, m, thr, cl, i2, j2);
    }
}

proof fn lemma_clustering_unlinked(
    rs: Seq<AgentResponse>,
    m: Map<(Seq<char>, Seq<char>), (int, int)>,
    thr: u64,
    cl: Seq<Seq<usize>>,
)
    ensures
        forall|i: int, j: int|
            0 <= i < j < clustering(rs, m, thr, cl).len() ==> !#[trigger] linked(
                rs,
                m,
                thr,
                clustering(rs, m, thr, cl)[i],
                clustering(rs, m, thr, cl)[j],
            ),
    decreases cl.len(),
{
    if exists|i: int, j: int| is_first_link(rs, m, thr, cl, i, j) {
        let (i, j) = choose|i: int, j: int| is_first_link(rs, m, thr, cl, i, j);
        lemma_clustering_unlinked(rs, m, thr, merge(cl, i, j));
        assert(clustering(rs, m, thr, cl) == clustering(rs, m, thr, merge(cl, i, j)));
    } else {
        assert(clustering(rs, m, thr, cl) == cl);
        assert forall|i: int, j: int| 0 <= i < j < cl.len() implies !#[trigger] linked(rs, m, thr, cl[i], cl[j]) by {
            if linked(rs, m, thr, cl[i], cl[j]) {
                lemma_first_link_exists(rs, m, thr, cl, i, j);
            }
        }
    }
}

/// The clusters of a quorum run before ranking.
pub open spec fn quorum_partition(rs: Seq<AgentResponse>, thr: u64) -> Seq<Seq<usize>> {
    clustering(rs, similarity_matrix(rs), thr, singletons(rs.len()))
}

proof fn lemma_singletons_sums(n: nat, x: usize)
    requires
        n <= usize::MAX + 1,
    ensures
        sum_of(singletons(n), size_fn()) == n,
        sum_of(singletons(n), count_fn(x)) == (if x < n { 1int } else { 0 }),
    decreases n,
{
    if n > 0 {
        lemma_singletons_sums((n - 1) as nat, x);
        assert(singletons(n).drop_last() =~= singletons((n - 1) as nat));
        let c = singletons(n).last();
        assert(c =~= seq![(n - 1) as usize]);
        assert(c.drop_last() =~= Seq::<usize>::empty());
        assert(count(c.drop_last(), x) == 0);
        assert(count(c, x) == (if x == (n - 1) as usize { 1int } else { 0 }));
    }
}

/// Clustering partitions the responses: every response is in exactly one
/// cluster, and the sizes of the clusters add up to the number of responses.
pub proof fn lemma_quorum_partition(rs: Seq<AgentResponse>, thr: u64, x: usize)
    requires
        rs.len() <= usize::MAX,
    ensures
        sum_of(quorum_partition(rs, thr), size_fn()) == rs.len(),
        sum_of(quorum_partition(rs, thr), count_fn(x)) == (if x < rs.len() { 1int } else { 0 }),
{
    lemma_additive_fns(x);
    lemma_singletons_sums(rs.len(), x);
    lemma_clustering_sum(rs, similarity_matrix(rs), thr, singletons(rs.len()), size_fn());
    lemma_clustering_sum(rs, similarity_matrix(rs), thr, singletons(rs.len()), count_fn(x));
}

/// Single linkage: no member of one cluster is more similar than the
/// threshold to a member of another.
pub proof fn lemma_quorum_linkage(rs: Seq<AgentResponse>, thr: u64, i: int, j: int, a: int, b: int)
    requires
        0 <= i < quorum_partition(rs, thr).len(),
        0 <= j < quorum_partition(rs, thr).len(),
        i != j,
        0 <= a < quorum_partition(rs, thr)[i].len(),
        0 <= b < quorum_partition(rs, thr)[j].len(),
    ensures
        sim_of(rs, similarity_matrix(rs), quorum_partition(rs, thr)[i][a], quorum_partition(rs, thr)[j][b]).0
            * crate::similarity::SIMILARITY_SCALE <= thr * sim_of(
            rs,
            similarity_matrix(rs),
            quorum_partition(rs, thr)[i][a],
            quorum_partition(rs, thr)[j][b],
        ).1,
{
    let m = similarity_matrix(rs);
    let cl = quorum_partition(rs, thr);
    lemma_clustering_unlinked(rs, m, thr, singletons(rs.len()));
    let (p, q) = (cl[i][a], cl[j][b]);
    crate::similarity::lemma_lookup_symmetric(m, rs[p as int].agent_id@, rs[q as int].agent_id@);
    if i < j {
        assert(!linked(rs, m, thr, cl[i], cl[j]));
    } else {
        assert(!linked(rs, m, thr, cl[j], cl[i]));
        assert(!exceeds(sim_of(rs, m, cl[j][b], cl[i][a]), thr));
    }
}

proof fn lemma_sum_two(cl: Seq<Seq<usize>>, i: int, j: int)
    requires
        0 <= i < cl.len(),
        0 <= j < cl.len(),
        i != j,
    ensures
        cl[i].len() + cl[j].len() <= sum_of(cl, size_fn()),
    decreases cl.len(),
{
    lemma_sum_nonneg(cl.drop_last());
    if i == cl.len() - 1 || j == cl.len() - 1 {
        let k = if i == cl.len() - 1 { j } else { i };
        lemma_sum_one(cl.drop_last(), k);
    } else {
        lemma_sum_two(cl.drop_last(), i, j);
    }
}

proof fn lemma_sum_one(cl: Seq<Seq<usize>>, i: int)
    requires
        0 <= i < cl.len(),
    ensures
        cl[i].len() <= sum_of(cl, size_fn()),
    decreases cl.len(),
{
    lemma_sum_nonneg(cl.drop_last());
    if i < cl.len() - 1 {
        lemma_sum_one(cl.drop_last(), i);
    }
}

proof fn lemma_sum_nonneg(cl: Seq<Seq<usize>>)
    ensures
        sum_of(cl, size_fn()) >= 0,
    decreases cl.len(),
{
    if cl.len() > 0 {
        lemma_sum_nonneg(cl.drop_last());
    }
}

/// At most one cluster holds a strict majority of the agents.
pub proof fn lemma_single_majority(rs: Seq<AgentResponse>, thr: u64, i: int, j: int)
    requires
        rs.len() <= usize::MAX,
        0 <= i < quorum_partition(rs, thr).len(),
        0 <= j < quorum_partition(rs, thr).len(),
        i != j,
    ensures
        !(quorum_partition(rs, thr)[i].len() >= quorum_size(rs.len() as int) && quorum_partition(
            rs,
            thr,
        )[j].len() >= quorum_size(rs.len() as int)),
{
    lemma_quorum_partition(rs, thr, 0);
    lemma_sum_two(quorum_partition(rs, thr), i, j);
}


/// The order "ranks before, or is the same cluster".
pub open spec fn rank_leq(rs: Seq<AgentResponse>, cl: Seq<Seq<usize>>) -> spec_fn(usize, usize) -> bool {
    |k: usize, l: usize| k == l || ranks_before(rs, cl, k as int, l as int)
}

/// Every list of clusters has a ranking.
pub proof fn lemma_ranking_exists(rs: Seq<AgentResponse>, cl: Seq<Seq<usize>>)
    requires
        cl.len() <= usize::MAX + 1,
    ensures
        exists|o: Seq<usize>| is_ranking(rs, cl, o),
{
    broadcast use vstd::seq_lib::group_to_multiset_ensures;

    let n = cl.len();
    let s = Seq::new(n, |k: int| k as usize);
    let leq = rank_leq(rs, cl);
    assert(vstd::relations::total_ordering(leq)) by {
        assert forall|x: usize, y: usize, z: usize| #[trigger] leq(x, y) && #[trigger] leq(y, z) implies leq(x, z) by {
            lemma_ranks_order(rs, cl, x as int, y as int, z as int);
        }
        assert forall|x: usize, y: usize| #[trigger] leq(x, y) && #[trigger] leq(y, x) implies x == y by {
            lemma_ranks_order(rs, cl, x as int, y as int, x as int);
        }
        assert forall|x: usize, y: usize| #[trigger] leq(x, y) || #[trigger] leq(y, x) by {
            lemma_ranks_order(rs, cl, x as int, y as int, x as int);
        }
    }
    assert(s.no_duplicates());
    s.lemma_multiset_has_no_duplicates();
    s.lemma_sort_by_ensures(leq);
    let o = s.sort_by(leq);
    assert forall|x: usize| o.to_multiset().contains(x) implies o.to_multiset().count(x) == 1 by {
        assert(s.to_multiset().count(x) == o.to_multiset().count(x));
    }
    o.lemma_multiset_has_no_duplicates_conv();
    assert(o.len() == n) by {
        assert(o.to_multiset().len() == s.to_multiset().len());
    }
    assert forall|a: int| 0 <= a < o.len() implies #[trigger] o[a] < cl.len() by {
        assert(o.contains(o[a]));
        assert(s.contains(o[a]));
    }
    assert forall|k: int| 0 <= k < cl.len() implies #[trigger] lists(o, k) by {
        assert(s[k] == k as usize);
        assert(s.contains(k as usize));
        assert(o.to_multiset().count(k as usize) == s.to_multiset().count(k as usize));
        assert(o.contains(k as usize));
        let a = choose|a: int| 0 <= a < o.len() && o[a] == k as usize;
        assert(o[a] == k);
    }
    assert forall|a: int, b: int| 0 <= a < b < o.len() implies ranks_before(rs, cl, #[trigger] o[a] as int, #[trigger] o[b] as int) by {
        assert(leq(o[a], o[b]));
        assert(o[a] != o[b]);
    }
    assert(is_ranking(rs, cl, o));
}

/// The top-ranked cluster is a largest one.
pub proof fn lemma_top_is_largest(rs: Seq<AgentResponse>, cl: Seq<Seq<usize>>, k: int)
    requires
        cl.len() <= usize::MAX + 1,
        0 <= k < cl.len(),
    ensures
        ranked(rs, cl).len() == cl.len(),
        ranked(rs, cl)[0].len() >= cl[k].len(),
{
    lemma_ranking_exists(rs, cl);
    let o = choose|o: Seq<usize>| is_ranking(rs, cl, o);
    assert(lists(o, k));
    let a = choose|a: int| 0 <= a < o.len() && o[a] == k;
    if a > 0 {
        assert(ranks_before(rs, cl, o[0] as int, o[a] as int));
    }
}

/// A quorum run reaches consensus exactly when some cluster holds a strict
/// majority of the agents.
pub proof fn lemma_consensus_iff_majority(rs: Seq<AgentResponse>, thr: u64)
    requires
        0 < rs.len() <= usize::MAX,
    ensures
        quorum_clusters(rs, thr).len() > 0,
        (quorum_clusters(rs, thr)[0].len() >= quorum_size(rs.len() as int)) == exists|k: int|
            0 <= k < quorum_partition(rs, thr).len() && #[trigger] quorum_partition(rs, thr)[k].len()
                >= quorum_size(rs.len() as int),
{
    let cl = quorum_partition(rs, thr);
    lemma_quorum_partition(rs, thr, 0);
    assert(cl.len() > 0) by {
        if cl.len() == 0 {
            assert(sum_of(cl, size_fn()) == 0);
        }
    }
    assert(cl.len() <= usize::MAX + 1) by {
        lemma_clustering_nonempty(rs, similarity_matrix(rs), thr, singletons(rs.len()));
        lemma_cluster_count(cl);
    }
    lemma_top_is_largest(rs, cl, 0);
    lemma_ranking_exists(rs, cl);
    let o = choose|o: Seq<usize>| is_ranking(rs, cl, o);
    assert(quorum_clusters(rs, thr)[0] == cl[o[0] as int]);
    if exists|k: int| 0 <= k < cl.len() && #[trigger] cl[k].len() >= quorum_size(rs.len() as int) {
        let k = choose|k: int| 0 <= k < cl.len() && #[trigger] cl[k].len() >= quorum_size(rs.len() as int);
        lemma_top_is_largest(rs, cl, k);
    }
}

/// Clustering keeps every cluster non-empty.
proof fn lemma_clustering_nonempty(
    rs: Seq<AgentResponse>,
    m: Map<(Seq<char>, Seq<char>), (int, int)>,
    thr: u64,
    cl: Seq<Seq<usize>>,
)
    requires
        forall|k: int| 0 <= k < cl.len() ==> (#[trigger] cl[k]).len() > 0,
    ensures
        forall|k: int| 0 <= k < clustering(rs, m, thr, cl).len() ==> (#[trigger] clustering(rs, m, thr, cl)[k]).len() > 0,
    decreases cl.len(),
{
    if exists|i: int, j: int| is_first_link(rs, m, thr, cl, i, j) {
        let (i, j) = choose|i: int, j: int| is_first_link(rs, m, thr, cl, i, j);
        let mg = merge(cl, i, j);
        assert forall|k: int| 0 <= k < mg.len() implies (#[trigger] mg[k]).len() > 0 by {
            if k < j {
                if k != i {
                    assert(mg[k] == cl[k]);
                }
            } else {
                assert(mg[k] == cl[k + 1]);
            }
        }
        lemma_clustering_nonempty(rs, m, thr, mg);
        assert(clustering(rs, m, thr, cl) == clustering(rs, m, thr, mg));
    }
}

proof fn lemma_cluster_count(cl: Seq<Seq<usize>>)
    requires
        forall|k: int| 0 <= k < cl.len() ==> (#[trigger] cl[k]).len() > 0,
    ensures
        cl.len() <= sum_of(cl, size_fn()),
    decreases cl.len(),
{
    if cl.len() > 0 {
        lemma_cluster_count(cl.drop_last());
    }
}


/// A quorum winner is supported by a strict majority of the agents.
pub proof fn lemma_winner_has_majority(input: ConsensusInput, thr: u64, r: ConsensusResult)
    requires
        quorum_outcome(input, thr, r),
        r.consensus_reached,
    ensures
        r.winning_response is Some,
        2 * r.winning_response->0.supporting_agents@.len() > input.responses@.len(),
{
}

/// Agents whose answers agree (every pair more similar than the threshold)
/// all end up in one cluster.
pub proof fn lemma_unanimous_single_cluster(rs: Seq<AgentResponse>, thr: u64)
    requires
        0 < rs.len() <= usize::MAX,
        forall|p: usize, q: usize|
            p < rs.len() && q < rs.len() ==> (#[trigger] sim_of(rs, similarity_matrix(rs), p, q)).0 * crate::similarity::SIMILARITY_SCALE
                > thr * sim_of(rs, similarity_matrix(rs), p, q).1,
    ensures
        quorum_partition(rs, thr).len() == 1,
        quorum_partition(rs, thr)[0].len() == rs.len(),
        quorum_clusters(rs, thr)[0].len() == rs.len(),
{
    let cl = quorum_partition(rs, thr);
    lemma_quorum_partition(rs, thr, 0);
    lemma_clustering_nonempty(rs, similarity_matrix(rs), thr, singletons(rs.len()));
    if cl.len() == 0 {
        assert(sum_of(cl, size_fn()) == 0);
    }
    if cl.len() > 1 {
        assert(cl[0].len() > 0 && cl[1].len() > 0);
        lemma_partition_members_valid(rs, thr);
        lemma_quorum_linkage(rs, thr, 0, 1, 0, 0);
        assert(exceeds(sim_of(rs, similarity_matrix(rs), cl[0][0], cl[1][0]), thr));
    }
    assert(cl.len() == 1);
    assert(sum_of(cl, size_fn()) == sum_of(cl.drop_last(), size_fn()) + cl[0].len());
    assert(cl.drop_last().len() == 0);
    lemma_consensus_iff_majority(rs, thr);
    lemma_ranking_exists(rs, cl);
    let o = choose|o: Seq<usize>| is_ranking(rs, cl, o);
    assert(o[0] < 1);
}

/// Every member of a cluster is the position of a response.
proof fn lemma_partition_members_valid(rs: Seq<AgentResponse>, thr: u64)
    requires
        rs.len() <= usize::MAX,
    ensures
        members_valid(quorum_partition(rs, thr), rs.len() as int),
{
    let cl = quorum_partition(rs, thr);
    assert forall|k: int, a: int| 0 <= k < cl.len() && 0 <= a < cl[k].len() implies #[trigger] cl[k][a] < rs.len() by {
        let x = cl[k][a];
        lemma_quorum_partition(rs, thr, x);
        lemma_count_in_sum(cl, k, a);
    }
}

proof fn lemma_count_positive(c: Seq<usize>, a: int)
    requires
        0 <= a < c.len(),
    ensures
        count(c, c[a]) >= 1,
    decreases c.len(),
{
    lemma_count_nonneg(c.drop_last(), c[a]);
    if a < c.len() - 1 {
        lemma_count_positive(c.drop_last(), a);
    }
}

proof fn lemma_count_nonneg(c: Seq<usize>, x: usize)
    ensures
        count(c, x) >= 0,
    decreases c.len(),
{
    if c.len() > 0 {
        lemma_count_nonneg(c.drop_last(), x);
    }
}

proof fn lemma_count_sum_nonneg(cl: Seq<Seq<usize>>, x: usize)
    ensures
        sum_of(cl, count_fn(x)) >= 0,
    decreases cl.len(),
{
    if cl.len() > 0 {
        lemma_count_sum_nonneg(cl.drop_last(), x);
        lemma_count_nonneg(cl.last(), x);
    }
}

proof fn lemma_count_in_sum(cl: Seq<Seq<usize>>, k: int, a: int)
    requires
        0 <= k < cl.len(),
        0 <= a < cl[k].len(),
    ensures
        sum_of(cl, count_fn(cl[k][a])) >= 1,
    decreases cl.len(),
{
    let x = cl[k][a];
    lemma_count_sum_nonneg(cl.drop_last(), x);
    lemma_count_nonneg(cl.last(), x);
    if k == cl.len() - 1 {
        lemma_count_positive(cl[k], a);
    } else {
        lemma_count_in_sum(cl.drop_last(), k, a);
    }
}


/// Agents with distinct ids that give the same answer, up to case and
/// surrounding white space, are fully similar to each other.
pub proof fn lemma_same_answers_fully_similar(rs: Seq<AgentResponse>)
    requires
        crate::similarity::distinct_ids(rs),
        forall|p: int, q: int|
            0 <= p < rs.len() && 0 <= q < rs.len() ==> crate::similarity::normalized(#[trigger] rs[p].content@)
                == crate::similarity::normalized(#[trigger] rs[q].content@),
    ensures
        forall|p: usize, q: usize| p < rs.len() && q < rs.len() ==> crate::similarity::is_full(
            #[trigger] sim_of(rs, similarity_matrix(rs), p, q),
        ),
{
    assert forall|p: usize, q: usize| p < rs.len() && q < rs.len() implies crate::similarity::is_full(
        #[trigger] sim_of(rs, similarity_matrix(rs), p, q),
    ) by {
        if p != q {
            crate::similarity::lemma_matrix_scores(rs, p as int, q as int);
            let x = crate::similarity::normalized(rs[p as int].content@);
            assert(crate::similarity::normalized(rs[q as int].content@) == x);
            crate::similarity::lemma_similarity_self(rs[p as int].content@);
            crate::similarity::lemma_similarity_bounds(rs[p as int].content@, rs[p as int].content@);
            let f = crate::similarity::similarity(rs[p as int].content@, rs[q as int].content@);
            assert(f == crate::similarity::similarity(rs[p as int].content@, rs[p as int].content@));
        }
    }
}

/// Every cluster of a quorum run is non-empty.
pub proof fn lemma_quorum_clusters_nonempty(rs: Seq<AgentResponse>, thr: u64)
    requires
        rs.len() <= usize::MAX,
    ensures
        forall|k: int| 0 <= k < quorum_clusters(rs, thr).len() ==> (#[trigger] quorum_clusters(rs, thr)[k]).len() > 0,
{
    let cl = quorum_partition(rs, thr);
    lemma_quorum_partition(rs, thr, 0);
    lemma_clustering_nonempty(rs, similarity_matrix(rs), thr, singletons(rs.len()));
    lemma_cluster_count(cl);
    lemma_ranking_exists(rs, cl);
    let o = choose|o: Seq<usize>| is_ranking(rs, cl, o);
    assert forall|k: int| 0 <= k < quorum_clusters(rs, thr).len() implies (#[trigger] quorum_clusters(rs, thr)[k]).len() > 0 by {
        assert(quorum_clusters(rs, thr)[k] == cl[o[k] as int]);
    }
}

/// The member at position `a` of `c` is one of the most confident.
pub open spec fn most_confident_at(rs: Seq<AgentResponse>, c: Seq<usize>, a: int) -> bool {
    &&& 0 <= a < c.len()
    &&& forall|b: int| 0 <= b < c.len() ==> rs[#[trigger] c[b] as int].confidence <= rs[c[a] as int].confidence
}

/// `content` is the answer of one of the most confident members of `c`.
pub open spec fn most_confident_answer(rs: Seq<AgentResponse>, c: Seq<usize>, content: Seq<char>) -> bool {
    exists|a: int| #[trigger] most_confident_at(rs, c, a) && content == rs[c[a] as int].content@
}

/// Each cluster of a quorum result is represented by the answer of one of
/// its most confident members, and the winning answer, when there is one,
/// is the answer of a most confident member of the top cluster, whose
/// members are exactly the supporting agents.
pub proof fn lemma_quorum_answers_most_confident(input: ConsensusInput, thr: u64, r: ConsensusResult)
    requires
        quorum_outcome(input, thr, r),
        0 < input.responses@.len() <= usize::MAX,
    ensures
        forall|k: int|
            0 <= k < r.clusters@.len() ==> most_confident_answer(
                input.responses@,
                quorum_clusters(input.responses@, thr)[k],
                (#[trigger] r.clusters@[k]).representative_content@,
            ),
        r.winning_response matches Some(w) ==> {
            let c = quorum_clusters(input.responses@, thr)[0];
            &&& r.clusters@.len() > 0
            &&& w.content@ == r.clusters@[0].representative_content@
            &&& most_confident_answer(input.responses@, c, w.content@)
            &&& w.supporting_agents@.len() == c.len()
            &&& forall|b: int| 0 <= b < c.len() ==> (#[trigger] w.supporting_agents@[b])@ == input.responses@[c[b] as int].agent_id@
        },
{
    let rs = input.responses@;
    let ranked = quorum_clusters(rs, thr);
    lemma_quorum_clusters_nonempty(rs, thr);
    lemma_consensus_iff_majority(rs, thr);
    assert forall|k: int| 0 <= k < r.clusters@.len() implies most_confident_answer(
        rs,
        ranked[k],
        (#[trigger] r.clusters@[k]).representative_content@,
    ) by {
        assert(describes_cluster(r.clusters@[k], rs, similarity_matrix(rs), ranked[k]));
        lemma_best_member(rs, ranked[k]);
        assert(most_confident_at(rs, ranked[k], best_member(rs, ranked[k])));
    }
    if let Some(w) = r.winning_response {
        let c = ranked[0];
        assert(describes_cluster(r.clusters@[0], rs, similarity_matrix(rs), c));
        lemma_best_member(rs, c);
        assert(most_confident_at(rs, c, best_member(rs, c)));
    }
}

/// The clusters of a quorum result come from the largest down; among
/// clusters of one size, those whose members have the higher total (so
/// mean) confidence come first.
pub proof fn lemma_quorum_cluster_order(input: ConsensusInput, thr: u64, r: ConsensusResult)
    requires
        quorum_outcome(input, thr, r),
        input.responses@.len() <= usize::MAX,
    ensures
        forall|k: int, l: int|
            0 <= k < l < r.clusters@.len() ==> #[trigger] r.clusters@[k].members@.len() >= #[trigger] r.clusters@[l].members@.len(),
        forall|k: int, l: int|
            0 <= k < l < r.clusters@.len() && #[trigger] r.clusters@[k].members@.len() == #[trigger] r.clusters@[l].members@.len()
                ==> conf_sum(input.responses@, quorum_clusters(input.responses@, thr)[k]) >= conf_sum(
                input.responses@,
                quorum_clusters(input.responses@, thr)[l],
            ),
{
    let rs = input.responses@;
    let cl = quorum_partition(rs, thr);
    let ranked = quorum_clusters(rs, thr);
    lemma_quorum_partition(rs, thr, 0);
    lemma_clustering_nonempty(rs, similarity_matrix(rs), thr, singletons(rs.len()));
    lemma_cluster_count(cl);
    lemma_ranking_exists(rs, cl);
    let o = choose|o: Seq<usize>| is_ranking(rs, cl, o);
    assert forall|k: int, l: int| 0 <= k < l < r.clusters@.len() implies #[trigger] r.clusters@[k].members@.len()
        >= #[trigger] r.clusters@[l].members@.len() && (r.clusters@[k].members@.len() == r.clusters@[l].members@.len()
        ==> conf_sum(rs, ranked[k]) >= conf_sum(rs, ranked[l])) by {
        assert(describes_cluster(r.clusters@[k], rs, similarity_matrix(rs), ranked[k]));
        assert(describes_cluster(r.clusters@[l], rs, similarity_matrix(rs), ranked[l]));
        assert(ranks_before(rs, cl, o[k] as int, o[l] as int));
        assert(ranked[k] == cl[o[k] as int]);
        assert(ranked[l] == cl[o[l] as int]);
    }
}

/// A quorum run reaches consensus exactly when its top cluster holds more
/// than half of the responses, and then reports a winner whose agreement
/// ratio is the top cluster's share of the responses.
pub proof fn lemma_quorum_consensus_rule(input: ConsensusInput, thr: u64, r: ConsensusResult)
    requires
        quorum_outcome(input, thr, r),
        0 < input.responses@.len() <= usize::MAX,
    ensures
        r.clusters@.len() > 0,
        r.consensus_reached == (2 * r.clusters@[0].members@.len() > input.responses@.len()),
        (r.winning_response is Some) == r.consensus_reached,
        r.winning_response matches Some(w) ==> w.agreement_ratio.value() == (
            r.clusters@[0].members@.len() as int,
            input.responses@.len() as int,
        ),
{
    let rs = input.responses@;
    lemma_consensus_iff_majority(rs, thr);
    assert(describes_cluster(r.clusters@[0], rs, similarity_matrix(rs), quorum_clusters(rs, thr)[0]));
}

/// Clusters merge only above the threshold: when no two responses are more
/// similar than the threshold (a pair exactly at it included), every
/// response stays in a cluster of its own.
pub proof fn lemma_no_link_no_merge(rs: Seq<AgentResponse>, thr: u64)
    requires
        rs.len() <= usize::MAX,
        forall|p: usize, q: usize|
            p < rs.len() && q < rs.len() && p != q ==> (#[trigger] sim_of(rs, similarity_matrix(rs), p, q)).0
                * crate::similarity::SIMILARITY_SCALE <= thr * sim_of(rs, similarity_matrix(rs), p, q).1,
    ensures
        quorum_partition(rs, thr).len() == rs.len(),
        forall|k: int| 0 <= k < rs.len() ==> (#[trigger] quorum_partition(rs, thr)[k]).len() == 1,
{
    let m = similarity_matrix(rs);
    let cl = singletons(rs.len());
    assert forall|i: int, j: int| !is_first_link(rs, m, thr, cl, i, j) by {
        if 0 <= i < j < cl.len() && linked(rs, m, thr, cl[i], cl[j]) {
            let (a, b) = choose|a: int, b: int|
                0 <= a < cl[i].len() && 0 <= b < cl[j].len() && exceeds(#[trigger] sim_of(rs, m, cl[i][a], cl[j][b]), thr);
            assert(cl[i][a] == i as usize && cl[j][b] == j as usize);
            assert(sim_of(rs, m, i as usize, j as usize).0 * crate::similarity::SIMILARITY_SCALE <= thr * sim_of(
                rs,
                m,
                i as usize,
                j as usize,
            ).1);
        }
    }
    assert(quorum_partition(rs, thr) == cl);
}

} // verus!

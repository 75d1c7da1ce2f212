//! An iterated prisoner's dilemma between the agents: an agent cooperates
//! when its answer is, on average and weighted by the others' confidence,
//! similar enough to the others' answers.  Defectors lose confidence each
//! round; the cooperator with the highest payoff wins.
use vstd::prelude::*;

use crate::models::{
    fraction_valid, fraction_view, fractions_valid, AgentResponse, ConsensusInput, ConsensusResult, Fraction, KeyedTable, ResponseCluster,
    ResultMetadata, WinningResponse,
};
use crate::natural::Natural;
use crate::similarity::{
    build_similarity_matrix, get_similarity, is_full, similarity_matrix, SimilarityMatrix, SIMILARITY_SCALE,
};
use crate::strategies::ConsensusStrategy;
use crate::strategies::quorum::{
    build_response_cluster, describes_cluster, member_ids, sim_of,
};

verus! {

/// Payoff when both agents cooperate.
pub const REWARD: u128 = 3;

/// Payoff of a defector against a cooperator.
pub const TEMPTATION: u128 = 5;

/// Payoff of a cooperator against a defector.
pub const SUCKER: u128 = 0;

/// Payoff when both agents defect.
pub const PUNISHMENT: u128 = 1;

/// Number of rounds played.
pub const NUM_ROUNDS: usize = 3;

/// Scale of the effective confidence: a confidence is multiplied by this
/// before the rounds, so that three penalties of one fifth each stay exact.
pub const WEIGHT_SCALE: u128 = 125;

/// Upper bound of an effective confidence.
pub const MAX_WEIGHT: u128 = 0xffff_ffff * 125;

/// Upper bound of the number of responses: a vector of responses cannot be
/// longer, since each response takes more than 32 bytes and no allocation
/// exceeds `isize::MAX` bytes.
pub open spec fn max_responses() -> int {
    0x0400_0000_0000_0000
}

/// The payoffs of two agents that play each other, by whether each cooperates.
pub open spec fn payoff_of(c1: bool, c2: bool) -> (int, int) {
    if c1 && c2 {
        (REWARD as int, REWARD as int)
    } else if c1 {
        (SUCKER as int, TEMPTATION as int)
    } else if c2 {
        (TEMPTATION as int, SUCKER as int)
    } else {
        (PUNISHMENT as int, PUNISHMENT as int)
    }
}

/// The payoffs of two agents that play each other, by whether each cooperates.
pub fn payoff(r1_coop: bool, r2_coop: bool) -> (p: (u128, u128))
    ensures
        (p.0 as int, p.1 as int) == payoff_of(r1_coop, r2_coop),
{
    if r1_coop && r2_coop {
        (REWARD, REWARD)
    } else if r1_coop {
        (SUCKER, TEMPTATION)
    } else if r2_coop {
        (TEMPTATION, SUCKER)
    } else {
        (PUNISHMENT, PUNISHMENT)
    }
}

/// A table of numbers seen as integers.
pub open spec fn as_ints(t: Map<Seq<char>, u128>) -> Map<Seq<char>, int> {
    t.map_values(|v: u128| v as int)
}

/// Every agent's effective confidence before the first round: its stated
/// confidence, scaled; of responses that share an id, the last one counts.
pub open spec fn initial_weights(rs: Seq<AgentResponse>) -> Map<Seq<char>, int>
    decreases rs.len(),
{
    if rs.len() == 0 {
        Map::empty()
    } else {
        initial_weights(rs.drop_last()).insert(
            rs.last().agent_id@,
            rs.last().confidence * WEIGHT_SCALE,
        )
    }
}

/// A payoff of zero for every agent.
pub open spec fn zero_payoffs(rs: Seq<AgentResponse>) -> Map<Seq<char>, int>
    decreases rs.len(),
{
    if rs.len() == 0 {
        Map::empty()
    } else {
        zero_payoffs(rs.drop_last()).insert(rs.last().agent_id@, 0)
    }
}

/// For the response at `p`: the similarity to each of the responses before
/// `upto` with another id, weighted by that agent's effective confidence and
/// summed, as an exact fraction `(numerator, denominator)`; and the sum of
/// those weights.
pub open spec fn weighted_sums(
    rs: Seq<AgentResponse>,
    m: Map<(Seq<char>, Seq<char>), (int, int)>,
    w: Map<Seq<char>, int>,
    p: int,
    upto: int,
) -> (int, int, int)
    decreases upto,
{
    if upto <= 0 {
        (0, 1, 0)
    } else {
        let (n, d, t) = weighted_sums(rs, m, w, p, upto - 1);
        let o = upto - 1;
        if rs[o].agent_id@ != rs[p].agent_id@ {
            let f = sim_of(rs, m, p as usize, o as usize);
            let wo = w[rs[o].agent_id@];
            (n * f.1 + wo * f.0 * d, d * f.1, t + wo)
        } else {
            (n, d, t)
        }
    }
}

/// Some other agent answered besides the one at `p`.
pub open spec fn has_others(rs: Seq<AgentResponse>, p: int) -> bool {
    exists|o: int| 0 <= o < rs.len() && #[trigger] rs[o].agent_id@ != rs[p].agent_id@
}

/// The agent at `p` cooperates: it is alone, or its weighted mean
/// similarity to the others reaches the threshold (a mean of zero where
/// the others carry no weight).  With the weighted sum `n / d` and the
/// total weight `t`, the mean is `n / (d * t)`; the threshold is in
/// millionths.
pub open spec fn cooperates(
    rs: Seq<AgentResponse>,
    m: Map<(Seq<char>, Seq<char>), (int, int)>,
    w: Map<Seq<char>, int>,
    thr: u64,
    p: int,
) -> bool {
    let (n, d, t) = weighted_sums(rs, m, w, p, rs.len() as int);
    ||| !has_others(rs, p)
    ||| t > 0 && SIMILARITY_SCALE * n >= thr * t * d
    ||| t == 0 && thr == 0
}

/// The ids of the cooperating agents.
pub open spec fn cooperator_set(
    rs: Seq<AgentResponse>,
    m: Map<(Seq<char>, Seq<char>), (int, int)>,
    w: Map<Seq<char>, int>,
    thr: u64,
) -> Set<Seq<char>> {
    Set::new(|id: Seq<char>| exists|p: int| 0 <= p < rs.len() && #[trigger] rs[p].agent_id@ == id && cooperates(rs, m, w, thr, p))
}

/// Every agent has a weight, and no weight exceeds `MAX_WEIGHT`.
pub open spec fn weights_valid(rs: Seq<AgentResponse>, w: Map<Seq<char>, int>) -> bool {
    &&& forall|o: int| 0 <= o < rs.len() ==> w.contains_key(#[trigger] rs[o].agent_id@)
    &&& forall|k: Seq<char>| #[trigger] w.contains_key(k) ==> 0 <= w[k] <= MAX_WEIGHT
}

/// Whether the agent at `p` cooperates.
fn classify_one(
    p: usize,
    responses: &[AgentResponse],
    matrix: &SimilarityMatrix,
    weights: &KeyedTable<String, u128>,
    threshold: u64,
) -> (r: bool)
    requires
        p < responses@.len(),
        responses@.len() <= max_responses(),
        matrix.wf(),
        fractions_valid(matrix@),
        weights.wf(),
        weights_valid(responses@, as_ints(weights@)),
    ensures
        r == cooperates(responses@, fraction_view(matrix@), as_ints(weights@), threshold, p as int),
{
    let ghost rs = responses@;
    let ghost m = fraction_view(matrix@);
    let ghost w = as_ints(weights@);
    let n = responses.len();
    let mut num = Natural::from_u128(0);
    let mut den = Natural::from_u128(1);
    let mut wt: u128 = 0;
    let mut others = false;
    for o in 0..n
        invariant
            n == rs.len(),
            rs == responses@,
            m == fraction_view(matrix@),
            w == as_ints(weights@),
            p < n,
            n <= max_responses(),
            matrix.wf(),
            fractions_valid(matrix@),
            weights.wf(),
            weights_valid(rs, w),
            num.wf(),
            den.wf(),
            (num.value() as int, den.value() as int, wt as int) == weighted_sums(rs, m, w, p as int, o as int),
            wt <= o * MAX_WEIGHT,
            others == exists|q: int| 0 <= q < o && #[trigger] rs[q].agent_id@ != rs[p as int].agent_id@,
    {
        proof {
            assert((o as int) * MAX_WEIGHT + MAX_WEIGHT == (o + 1) * MAX_WEIGHT) by (nonlinear_arith);
            assert((o + 1) * MAX_WEIGHT <= 0x0400_0000_0000_0000 * MAX_WEIGHT) by (nonlinear_arith)
                requires
                    o + 1 <= 0x0400_0000_0000_0000,
            ;
        }
        if responses[o].agent_id != responses[p].agent_id {
            proof {
                assert(w.contains_key(rs[o as int].agent_id@));
            }
            let wo = match weights.get(&responses[o].agent_id) {
                Some(v) => v,
                None => 0,
            };
            let f = get_similarity(matrix, responses[p].agent_id.as_str(), responses[o].agent_id.as_str());
            proof {
                assert(wo as int == w[rs[o as int].agent_id@]);
                assert(wo <= MAX_WEIGHT);
            }
            let a = num.mul_small(f.denominator);
            let b = den.mul_small(f.numerator).mul_small(wo);
            let ghost (n0, d0) = (num.value() as int, den.value() as int);
            num = a.add(&b);
            den = den.mul_small(f.denominator);
            proof {
                let fv = f.value();
                assert((d0 * fv.0) * (wo as int) == (wo as int) * fv.0 * d0) by (nonlinear_arith);
            }
            wt = wt + wo;
            others = true;
        }
    }
    proof {
        assert(!others ==> !has_others(rs, p as int));
        if others {
            assert(has_others(rs, p as int));
        }
        assert(wt <= 0x0400_0000_0000_0000 * MAX_WEIGHT) by (nonlinear_arith)
            requires
                wt <= n * MAX_WEIGHT,
                n <= 0x0400_0000_0000_0000,
        ;
    }
    if !others {
        true
    } else if wt > 0 {
        let lhs = num.mul_small(SIMILARITY_SCALE as u128);
        let rhs = den.mul_small(wt).mul_small(threshold as u128);
        let r = lhs.ge(&rhs);
        proof {
            let (nv, dv) = (num.value() as int, den.value() as int);
            assert((dv * wt) * threshold == threshold * wt * dv) by (nonlinear_arith);
            assert(nv * SIMILARITY_SCALE == SIMILARITY_SCALE * nv) by (nonlinear_arith);
        }
        r
    } else {
        threshold == 0
    }
}

proof fn lemma_as_ints_insert(t: Map<Seq<char>, u128>, k: Seq<char>, v: u128)
    ensures
        as_ints(t.insert(k, v)) == as_ints(t).insert(k, v as int),
{
    assert(as_ints(t.insert(k, v)) =~= as_ints(t).insert(k, v as int));
}

/// Every id in `rs` is a key of the initial weights and of the zero payoffs,
/// and every weight is within bounds.
pub proof fn lemma_initial_tables(rs: Seq<AgentResponse>)
    ensures
        weights_valid(rs, initial_weights(rs)),
        forall|o: int| 0 <= o < rs.len() ==> zero_payoffs(rs).contains_key(#[trigger] rs[o].agent_id@),
        forall|k: Seq<char>| #[trigger] zero_payoffs(rs).contains_key(k) ==> zero_payoffs(rs)[k] == 0,
        initial_weights(rs).dom() == zero_payoffs(rs).dom(),
    decreases rs.len(),
{
    if rs.len() > 0 {
        let d = rs.drop_last();
        lemma_initial_tables(d);
        assert forall|o: int| 0 <= o < rs.len() implies initial_weights(rs).contains_key(#[trigger] rs[o].agent_id@) by {
            if o < rs.len() - 1 {
                assert(d[o] == rs[o]);
                assert(initial_weights(d).contains_key(d[o].agent_id@));
            }
        }
        assert forall|o: int| 0 <= o < rs.len() implies zero_payoffs(rs).contains_key(#[trigger] rs[o].agent_id@) by {
            if o < rs.len() - 1 {
                assert(d[o] == rs[o]);
                assert(zero_payoffs(d).contains_key(d[o].agent_id@));
            }
        }
        assert(initial_weights(rs).dom() =~= zero_payoffs(rs).dom());
    }
}

/// Builds a table holding every agent's initial effective confidence.
fn initial_weight_table(responses: &[AgentResponse]) -> (t: KeyedTable<String, u128>)
    ensures
        t.wf(),
        as_ints(t@) == initial_weights(responses@),
{
    let mut t: KeyedTable<String, u128> = KeyedTable::new();
    proof {
        assert(as_ints(t@) =~= Map::empty());
        assert(responses@.take(0) =~= Seq::<AgentResponse>::empty());
    }
    for i in 0..responses.len()
        invariant
            t.wf(),
            as_ints(t@) == initial_weights(responses@.take(i as int)),
    {
        proof {
            assert(responses@.take(i + 1).drop_last() =~= responses@.take(i as int));
            lemma_as_ints_insert(t@, responses@[i as int].agent_id@, (responses@[i as int].confidence as u128 * WEIGHT_SCALE) as u128);
        }
        t.insert(responses[i].agent_id.clone(), responses[i].confidence as u128 * WEIGHT_SCALE);
    }
    proof {
        assert(responses@.take(responses@.len() as int) =~= responses@);
    }
    t
}

/// Builds a table holding a payoff of zero for every agent.
fn zero_payoff_table(responses: &[AgentResponse]) -> (t: KeyedTable<String, u128>)
    ensures
        t.wf(),
        as_ints(t@) == zero_payoffs(responses@),
{
    let mut t: KeyedTable<String, u128> = KeyedTable::new();
    proof {
        assert(as_ints(t@) =~= Map::empty());
        assert(responses@.take(0) =~= Seq::<AgentResponse>::empty());
    }
    for i in 0..responses.len()
        invariant
            t.wf(),
            as_ints(t@) == zero_payoffs(responses@.take(i as int)),
    {
        proof {
            assert(responses@.take(i + 1).drop_last() =~= responses@.take(i as int));
            lemma_as_ints_insert(t@, responses@[i as int].agent_id@, 0);
        }
        t.insert(responses[i].agent_id.clone(), 0);
    }
    proof {
        assert(responses@.take(responses@.len() as int) =~= responses@);
    }
    t
}

/// The ids of the cooperating agents, as a table.
pub fn classify_cooperator_ids(
    responses: &[AgentResponse],
    matrix: &SimilarityMatrix,
    weights: &KeyedTable<String, u128>,
    threshold: u64,
) -> (coop: KeyedTable<String, bool>)
    requires
        responses@.len() <= max_responses(),
        matrix.wf(),
        fractions_valid(matrix@),
        weights.wf(),
        weights_valid(responses@, as_ints(weights@)),
    ensures
        coop.wf(),
        coop@.dom() == cooperator_set(responses@, fraction_view(matrix@), as_ints(weights@), threshold),
        forall|id: Seq<char>| #[trigger] coop@.contains_key(id) ==> coop@[id],
{
    let ghost rs = responses@;
    let ghost w = as_ints(weights@);
    let mut coop: KeyedTable<String, bool> = KeyedTable::new();
    for p in 0..responses.len()
        invariant
            rs == responses@,
            w == as_ints(weights@),
            rs.len() <= max_responses(),
            matrix.wf(),
            fractions_valid(matrix@),
            weights.wf(),
            weights_valid(rs, w),
            coop.wf(),
            forall|id: Seq<char>| #[trigger] coop@.contains_key(id) ==> coop@[id],
            forall|id: Seq<char>| #[trigger] coop@.contains_key(id) == exists|q: int|
                0 <= q < p && #[trigger] rs[q].agent_id@ == id && cooperates(rs, fraction_view(matrix@), w, threshold, q),
    {
        if classify_one(p, responses, matrix, weights, threshold) {
            coop.insert(responses[p].agent_id.clone(), true);
            proof {
                assert forall|id: Seq<char>| #[trigger] coop@.contains_key(id) == exists|q: int|
                    0 <= q < p + 1 && #[trigger] rs[q].agent_id@ == id && cooperates(rs, fraction_view(matrix@), w, threshold, q) by {
                    if id == rs[p as int].agent_id@ {
                        assert(rs[p as int].agent_id@ == id);
                    }
                }
            }
        } else {
            proof {
                assert forall|id: Seq<char>| #[trigger] coop@.contains_key(id) == exists|q: int|
                    0 <= q < p + 1 && #[trigger] rs[q].agent_id@ == id && cooperates(rs, fraction_view(matrix@), w, threshold, q) by {
                    if exists|q: int| 0 <= q < p + 1 && #[trigger] rs[q].agent_id@ == id && cooperates(rs, fraction_view(matrix@), w, threshold, q) {
                        let q = choose|q: int| 0 <= q < p + 1 && #[trigger] rs[q].agent_id@ == id && cooperates(rs, fraction_view(matrix@), w, threshold, q);
                        assert(q != p);
                    }
                }
            }
        }
    }
    proof {
        assert(coop@.dom() =~= cooperator_set(rs, fraction_view(matrix@), w, threshold));
    }
    coop
}


/// The totals `acc` after every pair of responses before `(i, j)`, in
/// row-by-row order, has played one game and each side has added its payoff
/// to its agent's total.
pub open spec fn play_pairs(
    rs: Seq<AgentResponse>,
    coop: Set<Seq<char>>,
    acc: Map<Seq<char>, int>,
    i: int,
    j: int,
) -> Map<Seq<char>, int>
    decreases i, j,
{
    if 0 <= i && i + 1 < j {
        let prev = play_pairs(rs, coop, acc, i, j - 1);
        let a = rs[i].agent_id@;
        let b = rs[j - 1].agent_id@;
        let pay = payoff_of(coop.contains(a), coop.contains(b));
        let first = prev.insert(a, prev[a] + pay.0);
        first.insert(b, first[b] + pay.1)
    } else if 0 < i {
        play_pairs(rs, coop, acc, i - 1, rs.len() as int)
    } else {
        acc
    }
}

/// The weights after every defector among the responses before `i` has had
/// its agent's weight cut by a fifth, rounded down.
pub open spec fn penalize(
    rs: Seq<AgentResponse>,
    coop: Set<Seq<char>>,
    w: Map<Seq<char>, int>,
    i: int,
) -> Map<Seq<char>, int>
    decreases i,
{
    if i <= 0 {
        w
    } else {
        let prev = penalize(rs, coop, w, i - 1);
        let id = rs[i - 1].agent_id@;
        if coop.contains(id) {
            prev
        } else {
            prev.insert(id, prev[id] * 4 / 5)
        }
    }
}

/// Every agent has a total, and no total exceeds `bound`.
pub open spec fn totals_valid(rs: Seq<AgentResponse>, acc: Map<Seq<char>, int>, bound: int) -> bool {
    &&& forall|o: int| 0 <= o < rs.len() ==> acc.contains_key(#[trigger] rs[o].agent_id@)
    &&& forall|k: Seq<char>| #[trigger] acc.contains_key(k) ==> 0 <= acc[k] <= bound
}

proof fn lemma_payoff_bounds(c1: bool, c2: bool)
    ensures
        0 <= payoff_of(c1, c2).0 <= 5,
        0 <= payoff_of(c1, c2).1 <= 5,
{
}

/// Every pair of responses plays one game; each side's payoff is added to
/// its agent's total.
fn play_round(
    responses: &[AgentResponse],
    coop: &KeyedTable<String, bool>,
    totals: &mut KeyedTable<String, u128>,
    Ghost(bound): Ghost<int>,
)
    requires
        responses@.len() <= max_responses(),
        coop.wf(),
        old(totals).wf(),
        totals_valid(responses@, as_ints(old(totals)@), bound),
        0 <= bound <= 20 * 0x0400_0000_0000_0000 * 0x0400_0000_0000_0000,
    ensures
        final(totals).wf(),
        as_ints(final(totals)@) == play_pairs(
            responses@,
            coop@.dom(),
            as_ints(old(totals)@),
            responses@.len() as int,
            responses@.len() + 1int,
        ),
        totals_valid(responses@, as_ints(final(totals)@), bound + 10 * responses@.len() * responses@.len()),
{
    let ghost rs = responses@;
    let ghost acc = as_ints(totals@);
    let ghost cs = coop@.dom();
    let n = responses.len();
    let ghost mut steps: int = 0;
    for i in 0..n
        invariant
            n == rs.len(),
            rs == responses@,
            cs == coop@.dom(),
            n <= max_responses(),
            0 <= bound <= 20 * 0x0400_0000_0000_0000 * 0x0400_0000_0000_0000,
            coop.wf(),
            totals.wf(),
            as_ints(totals@) == play_pairs(rs, cs, acc, i as int, i + 1),
            0 <= steps <= i * n,
            totals_valid(rs, as_ints(totals@), bound + 10 * steps),
    {
        for j in (i + 1)..n
            invariant
                n == rs.len(),
                rs == responses@,
                cs == coop@.dom(),
                n <= max_responses(),
                0 <= bound <= 20 * 0x0400_0000_0000_0000 * 0x0400_0000_0000_0000,
                i < n,
                coop.wf(),
                totals.wf(),
                as_ints(totals@) == play_pairs(rs, cs, acc, i as int, j as int),
                0 <= steps <= i * n + j,
                totals_valid(rs, as_ints(totals@), bound + 10 * steps),
        {
            let ghost before = as_ints(totals@);
            let a = &responses[i].agent_id;
            let b = &responses[j].agent_id;
            let c1 = coop.get(a).is_some();
            let c2 = coop.get(b).is_some();
            let (p1, p2) = payoff(c1, c2);
            proof {
                lemma_payoff_bounds(c1, c2);
                assert(i * n + j + 1 <= n * n) by (nonlinear_arith)
                    requires
                        i < n,
                        j < n,
                ;
                assert(n * n <= 0x0400_0000_0000_0000 * 0x0400_0000_0000_0000) by (nonlinear_arith)
                    requires
                        n <= 0x0400_0000_0000_0000,
                ;
                assert(before.contains_key(rs[i as int].agent_id@));
                assert(before.contains_key(rs[j as int].agent_id@));
            }
            let ta = match totals.get(a) {
                Some(v) => v,
                None => 0,
            };
            proof {
                lemma_as_ints_insert(totals@, a@, (ta + p1) as u128);
            }
            totals.insert(a.clone(), ta + p1);
            let tb = match totals.get(b) {
                Some(v) => v,
                None => 0,
            };
            proof {
                lemma_as_ints_insert(totals@, b@, (tb + p2) as u128);
            }
            totals.insert(b.clone(), tb + p2);
            proof {
                steps = steps + 1;
                let now = as_ints(totals@);
                assert forall|k: Seq<char>| #[trigger] now.contains_key(k) implies 0 <= now[k] <= bound + 10 * steps by {
                    if k != a@ && k != b@ {
                        assert(before.contains_key(k));
                    }
                }
                assert forall|o: int| 0 <= o < rs.len() implies now.contains_key(#[trigger] rs[o].agent_id@) by {
                    assert(before.contains_key(rs[o].agent_id@));
                }
            }
        }
        proof {
            assert(play_pairs(rs, cs, acc, i + 1, i + 2) == play_pairs(rs, cs, acc, i as int, n as int));
            assert(steps <= (i + 1) * n) by (nonlinear_arith)
                requires
                    steps <= i * n + n,
            ;
        }
    }
    proof {
        assert(steps <= n * n) by (nonlinear_arith)
            requires
                steps <= n * n,
        ;
        assert(10 * steps <= 10 * n * n) by (nonlinear_arith)
            requires
                steps <= n * n,
        ;
    }
}


/// Cuts the weight of every defector's agent by a fifth, once for each of its
/// responses.
pub fn penalize_defectors(
    responses: &[AgentResponse],
    coop: &KeyedTable<String, bool>,
    weights: &mut KeyedTable<String, u128>,
)
    requires
        coop.wf(),
        old(weights).wf(),
        weights_valid(responses@, as_ints(old(weights)@)),
    ensures
        final(weights).wf(),
        as_ints(final(weights)@) == penalize(
            responses@,
            coop@.dom(),
            as_ints(old(weights)@),
            responses@.len() as int,
        ),
        weights_valid(responses@, as_ints(final(weights)@)),
{
    let ghost rs = responses@;
    let ghost w0 = as_ints(weights@);
    let ghost cs = coop@.dom();
    for i in 0..responses.len()
        invariant
            rs == responses@,
            cs == coop@.dom(),
            coop.wf(),
            weights.wf(),
            as_ints(weights@) == penalize(rs, cs, w0, i as int),
            weights_valid(rs, as_ints(weights@)),
    {
        let id = &responses[i].agent_id;
        if coop.get(id).is_none() {
            let ghost before = as_ints(weights@);
            proof {
                assert(before.contains_key(rs[i as int].agent_id@));
            }
            let w = match weights.get(id) {
                Some(v) => v,
                None => 0,
            };
            proof {
                lemma_as_ints_insert(weights@, id@, (w * 4 / 5) as u128);
            }
            weights.insert(id.clone(), w * 4 / 5);
            proof {
                let now = as_ints(weights@);
                assert forall|k: Seq<char>| #[trigger] now.contains_key(k) implies 0 <= now[k] <= MAX_WEIGHT by {
                    if k != id@ {
                        assert(before.contains_key(k));
                    }
                }
                assert forall|o: int| 0 <= o < rs.len() implies now.contains_key(#[trigger] rs[o].agent_id@) by {
                    assert(before.contains_key(rs[o].agent_id@));
                }
            }
        }
    }
}

/// Weights and totals after `k` rounds: each round, the agents are
/// classified, every pair plays, and defectors are penalised.
pub open spec fn rounds(
    rs: Seq<AgentResponse>,
    m: Map<(Seq<char>, Seq<char>), (int, int)>,
    thr: u64,
    k: nat,
) -> (Map<Seq<char>, int>, Map<Seq<char>, int>)
    decreases k,
{
    if k == 0 {
        (initial_weights(rs), zero_payoffs(rs))
    } else {
        let (w, acc) = rounds(rs, m, thr, (k - 1) as nat);
        let coop = cooperator_set(rs, m, w, thr);
        (
            penalize(rs, coop, w, rs.len() as int),
            play_pairs(rs, coop, acc, rs.len() as int, rs.len() + 1int),
        )
    }
}

/// Positions, in order, of the responses whose agent is (`keep`) or is not
/// (`!keep`) in `coop`, among the first `upto`.
pub open spec fn select(rs: Seq<AgentResponse>, coop: Set<Seq<char>>, keep: bool, upto: int) -> Seq<usize>
    decreases upto,
{
    if upto <= 0 {
        Seq::empty()
    } else {
        let prev = select(rs, coop, keep, upto - 1);
        if coop.contains(rs[upto - 1].agent_id@) == keep {
            prev.push((upto - 1) as usize)
        } else {
            prev
        }
    }
}

/// Position, within `c`, of the member whose agent has the highest total;
/// the last one among equals.
pub open spec fn best_by_payoff(rs: Seq<AgentResponse>, tot: Map<Seq<char>, int>, c: Seq<usize>) -> int
    decreases c.len(),
{
    if c.len() <= 1 {
        0
    } else {
        let p = best_by_payoff(rs, tot, c.drop_last());
        if tot[rs[c.last() as int].agent_id@] >= tot[rs[c[p] as int].agent_id@] {
            c.len() - 1
        } else {
            p
        }
    }
}

/// The final classification of a prisoner's dilemma run on `rs`: weights and
/// totals after all rounds, and the cooperating ids under the final weights.
pub open spec fn final_state(rs: Seq<AgentResponse>, thr: u64) -> (Map<Seq<char>, int>, Map<Seq<char>, int>, Set<Seq<char>>) {
    let m = similarity_matrix(rs);
    let (w, acc) = rounds(rs, m, thr, NUM_ROUNDS as nat);
    (w, acc, cooperator_set(rs, m, w, thr))
}

/// The share of the largest possible total that the winner earned.
pub open spec fn payoff_share(total: int, n: int) -> (int, int) {
    if n > 1 {
        (total, TEMPTATION * (n - 1) * NUM_ROUNDS)
    } else {
        (0, 1)
    }
}

/// The ids of the responses at the positions `c`.
pub open spec fn ids_match(ids: Seq<String>, rs: Seq<AgentResponse>, c: Seq<usize>) -> bool {
    &&& ids.len() == c.len()
    &&& forall|a: int| 0 <= a < c.len() ==> (#[trigger] ids[a])@ == rs[c[a] as int].agent_id@
}

/// `r` is the outcome of a prisoner's dilemma run on `input`.
pub open spec fn dilemma_outcome(input: ConsensusInput, thr: u64, r: ConsensusResult) -> bool {
    let rs = input.responses@;
    let n = rs.len() as int;
    let m = similarity_matrix(rs);
    let (w, acc, coop) = final_state(rs, thr);
    let cps = select(rs, coop, true, n);
    let dps = select(rs, coop, false, n);
    &&& r.strategy@ == "prisoners_dilemma"@
    &&& r.prompt@ == input.prompt@
    &&& r.consensus_reached == (cps.len() >= 2)
    &&& r.clusters@.len() == (if cps.len() > 0 { 1int } else { 0 }) + (if dps.len() > 0 { 1int } else { 0 })
    &&& cps.len() > 0 ==> describes_cluster(r.clusters@[0], rs, m, cps)
    &&& dps.len() > 0 ==> describes_cluster(r.clusters@[r.clusters@.len() - 1], rs, m, dps)
    &&& match r.winning_response {
        Some(win) => {
            let best = cps[best_by_payoff(rs, acc, cps)];
            &&& r.consensus_reached
            &&& win.content@ == rs[best as int].content@
            &&& ids_match(win.supporting_agents@, rs, cps)
            &&& win.agreement_ratio.value() == (cps.len() as int, n)
            &&& win.confidence_score.value() == payoff_share(acc[rs[best as int].agent_id@], n)
        },
        None => !r.consensus_reached,
    }
    &&& match r.metadata {
        ResultMetadata::PrisonersDilemma {
            total_responses,
            similarity_threshold,
            num_rounds,
            final_payoffs,
            cooperators,
            defectors,
        } => {
            &&& total_responses == n
            &&& similarity_threshold == thr
            &&& num_rounds == NUM_ROUNDS
            &&& final_payoffs.wf()
            &&& as_ints(final_payoffs@) == acc
            &&& ids_match(cooperators@, rs, cps)
            &&& ids_match(defectors@, rs, dps)
        },
        _ => false,
    }
}


/// Positions, in order, of the responses whose agent is (`keep`) or is not
/// (`!keep`) among the cooperators.
fn positions(responses: &[AgentResponse], coop: &KeyedTable<String, bool>, keep: bool) -> (v: Vec<usize>)
    requires
        coop.wf(),
    ensures
        v@ == select(responses@, coop@.dom(), keep, responses@.len() as int),
        forall|a: int| 0 <= a < v@.len() ==> #[trigger] v@[a] < responses@.len(),
{
    let mut v: Vec<usize> = Vec::new();
    for i in 0..responses.len()
        invariant
            coop.wf(),
            v@ == select(responses@, coop@.dom(), keep, i as int),
            forall|a: int| 0 <= a < v@.len() ==> #[trigger] v@[a] < i,
    {
        if coop.get(&responses[i].agent_id).is_some() == keep {
            v.push(i);
        }
    }
    v
}

/// Position, within `c`, of the member whose agent has the highest total;
/// the last one among equals.
fn find_best_by_payoff(c: &Vec<usize>, responses: &[AgentResponse], totals: &KeyedTable<String, u128>) -> (p: usize)
    requires
        c@.len() > 0,
        forall|a: int| 0 <= a < c@.len() ==> #[trigger] c@[a] < responses@.len(),
        totals.wf(),
        totals_valid(responses@, as_ints(totals@), u128::MAX as int),
    ensures
        p == best_by_payoff(responses@, as_ints(totals@), c@),
        p < c@.len(),
{
    let ghost tot = as_ints(totals@);
    let mut best: usize = 0;
    proof {
        assert(tot.contains_key(responses@[c@[0] as int].agent_id@));
    }
    let mut best_total: u128 = match totals.get(&responses[c[0]].agent_id) {
        Some(v) => v,
        None => 0,
    };
    for a in 1..c.len()
        invariant
            c@.len() > 0,
            forall|a: int| 0 <= a < c@.len() ==> #[trigger] c@[a] < responses@.len(),
            totals.wf(),
            tot == as_ints(totals@),
            totals_valid(responses@, tot, u128::MAX as int),
            best < a,
            best == best_by_payoff(responses@, tot, c@.take(a as int)),
            best_total == tot[responses@[c@[best as int] as int].agent_id@],
    {
        proof {
            assert(c@.take(a + 1).drop_last() =~= c@.take(a as int));
            assert(c@.take(a as int)[best as int] == c@[best as int]);
            assert(tot.contains_key(responses@[c@[a as int] as int].agent_id@));
        }
        let t = match totals.get(&responses[c[a]].agent_id) {
            Some(v) => v,
            None => 0,
        };
        if t >= best_total {
            best = a;
            best_total = t;
        }
    }
    proof {
        assert(c@.take(c@.len() as int) =~= c@);
    }
    best
}

/// The report of a group of agents, if the group is not empty.
pub fn build_cluster(members: &Vec<usize>, responses: &[AgentResponse], matrix: &SimilarityMatrix) -> (r: Option<ResponseCluster>)
    requires
        matrix.wf(),
        fractions_valid(matrix@),
        forall|a: int| 0 <= a < members@.len() ==> #[trigger] members@[a] < responses@.len(),
    ensures
        match r {
            Some(c) => members@.len() > 0 && describes_cluster(c, responses@, fraction_view(matrix@), members@),
            None => members@.len() == 0,
        },
{
    if members.len() == 0 {
        None
    } else {
        Some(build_response_cluster(members, responses, matrix))
    }
}

/// The prisoner's dilemma strategy.
#[derive(Debug)]
pub struct PrisonersDilemmaStrategy;

impl ConsensusStrategy for PrisonersDilemmaStrategy {
    open spec fn strategy_name(&self) -> Seq<char> {
        "prisoners_dilemma"@
    }

    /// No response vector is too long for the payoff arithmetic.
    open spec fn accepts(&self, input: ConsensusInput) -> bool {
        input.responses@.len() <= max_responses()
    }

    open spec fn outcome(&self, input: ConsensusInput, threshold: u64, result: ConsensusResult) -> bool {
        dilemma_outcome(input, threshold, result)
    }

    fn name(&self) -> (name: &'static str) {
        "prisoners_dilemma"
    }

    /// Plays the rounds, classifies the agents a last time, and declares
    /// the cooperator with the highest total the winner if at least two
    /// agents cooperate.
    fn evaluate(&self, input: &ConsensusInput, similarity_threshold: u64) -> (result: ConsensusResult) {
        let responses = input.responses.as_slice();
        let ghost rs = responses@;
        let n = responses.len();
        let matrix = build_similarity_matrix(responses);
        let mut weights = initial_weight_table(responses);
        let mut totals = zero_payoff_table(responses);
        let ghost nn: int = n * n;
        proof {
            lemma_initial_tables(rs);
            assert(nn <= 0x0400_0000_0000_0000 * 0x0400_0000_0000_0000) by (nonlinear_arith)
                requires
                    nn == n * n,
                    n <= 0x0400_0000_0000_0000,
            ;
            assert(totals_valid(rs, as_ints(totals@), 0));
        }
        for round in 0..NUM_ROUNDS
            invariant
                rs == responses@,
                n == rs.len(),
                nn == n * n,
                nn <= 0x0400_0000_0000_0000 * 0x0400_0000_0000_0000,
                n <= max_responses(),
                matrix.wf(),
                fraction_view(matrix@) == similarity_matrix(rs),
                fractions_valid(matrix@),
                weights.wf(),
                totals.wf(),
                (as_ints(weights@), as_ints(totals@)) == rounds(rs, fraction_view(matrix@), similarity_threshold, round as nat),
                weights_valid(rs, as_ints(weights@)),
                totals_valid(rs, as_ints(totals@), 10 * round * nn),
        {
            let coop = classify_cooperator_ids(responses, &matrix, &weights, similarity_threshold);
            proof {
                assert(10 * round * nn <= 20 * 0x0400_0000_0000_0000 * 0x0400_0000_0000_0000) by (nonlinear_arith)
                    requires
                        round < 3,
                        0 <= nn <= 0x0400_0000_0000_0000 * 0x0400_0000_0000_0000,
                ;
                assert(10 * round * nn >= 0) by (nonlinear_arith)
                    requires
                        round >= 0,
                        nn >= 0,
                ;
            }
            play_round(responses, &coop, &mut totals, Ghost(10 * round * nn));
            penalize_defectors(responses, &coop, &mut weights);
            proof {
                assert(10 * round * nn + 10 * n * n == 10 * (round + 1) * nn) by (nonlinear_arith)
                    requires
                        nn == n * n,
                ;
            }
        }
        let coop = classify_cooperator_ids(responses, &matrix, &weights, similarity_threshold);
        let cooperators = positions(responses, &coop, true);
        let defectors = positions(responses, &coop, false);
        let consensus_reached = cooperators.len() >= 2;
        let mut clusters: Vec<ResponseCluster> = Vec::new();
        let cc = build_cluster(&cooperators, responses, &matrix);
        match cc {
            Some(c) => clusters.push(c),
            None => {},
        }
        let dc = build_cluster(&defectors, responses, &matrix);
        match dc {
            Some(c) => clusters.push(c),
            None => {},
        }
        proof {
            assert(10 * 3 * nn <= u128::MAX) by (nonlinear_arith)
                requires
                    0 <= nn <= 0x0400_0000_0000_0000 * 0x0400_0000_0000_0000,
            ;
        }
        let winning_response = if consensus_reached {
            let best = find_best_by_payoff(&cooperators, responses, &totals);
            let winner = &responses[cooperators[best]];
            proof {
                assert(as_ints(totals@).contains_key(rs[cooperators@[best as int] as int].agent_id@));
            }
            let total = match totals.get(&winner.agent_id) {
                Some(v) => v,
                None => 0,
            };
            let confidence_score = if n > 1 {
                Fraction { numerator: total, denominator: TEMPTATION * (n as u128 - 1) * NUM_ROUNDS as u128 }
            } else {
                Fraction { numerator: 0, denominator: 1 }
            };
            Some(WinningResponse {
                content: winner.content.clone(),
                supporting_agents: member_ids(&cooperators, responses),
                agreement_ratio: Fraction { numerator: cooperators.len() as u128, denominator: n as u128 },
                confidence_score,
            })
        } else {
            None
        };
        let cooperator_ids = member_ids(&cooperators, responses);
        let defector_ids = member_ids(&defectors, responses);
        let result = ConsensusResult {
            strategy: "prisoners_dilemma".to_owned(),
            prompt: input.prompt.clone(),
            consensus_reached,
            winning_response,
            clusters,
            metadata: ResultMetadata::PrisonersDilemma {
                total_responses: n,
                similarity_threshold,
                num_rounds: NUM_ROUNDS,
                final_payoffs: totals,
                cooperators: cooperator_ids,
                defectors: defector_ids,
            },
        };
        proof {
            reveal_strlit("prisoners_dilemma");
        }
        result
    }
}


/// Cooperators and defectors split the responses: each response is in
/// exactly one of the two groups, and the groups keep the input order.
pub proof fn lemma_split(rs: Seq<AgentResponse>, coop: Set<Seq<char>>, upto: int)
    requires
        0 <= upto <= rs.len(),
        upto <= usize::MAX + 1,
    ensures
        select(rs, coop, true, upto).len() + select(rs, coop, false, upto).len() == upto,
        forall|p: int| 0 <= p < upto ==> (select(rs, coop, true, upto).contains(p as usize) <==> coop.contains(#[trigger] rs[p].agent_id@)),
        forall|p: int| 0 <= p < upto ==> (select(rs, coop, false, upto).contains(p as usize) <==> !coop.contains(#[trigger] rs[p].agent_id@)),
        forall|a: int, b: int| 0 <= a < b < select(rs, coop, true, upto).len() ==> #[trigger] select(rs, coop, true, upto)[a] < #[trigger] select(rs, coop, true, upto)[b],
        forall|a: int, b: int| 0 <= a < b < select(rs, coop, false, upto).len() ==> #[trigger] select(rs, coop, false, upto)[a] < #[trigger] select(rs, coop, false, upto)[b],
        forall|a: int| 0 <= a < select(rs, coop, true, upto).len() ==> #[trigger] select(rs, coop, true, upto)[a] < upto,
        forall|a: int| 0 <= a < select(rs, coop, false, upto).len() ==> #[trigger] select(rs, coop, false, upto)[a] < upto,
    decreases upto,
{
    if upto > 0 {
        lemma_split(rs, coop, upto - 1);
        let t0 = select(rs, coop, true, upto - 1);
        let f0 = select(rs, coop, false, upto - 1);
        let t = select(rs, coop, true, upto);
        let f = select(rs, coop, false, upto);
        let last = (upto - 1) as usize;
        assert forall|p: int| 0 <= p < upto implies (t.contains(p as usize) <==> coop.contains(#[trigger] rs[p].agent_id@)) by {
            if p < upto - 1 {
                if t.contains(p as usize) {
                    let a = choose|a: int| 0 <= a < t.len() && t[a] == p as usize;
                    if a < t0.len() {
                        assert(t0[a] == p as usize);
                    }
                }
                if t0.contains(p as usize) {
                    let a = choose|a: int| 0 <= a < t0.len() && t0[a] == p as usize;
                    assert(t[a] == p as usize);
                }
            } else {
                if coop.contains(rs[p].agent_id@) {
                    assert(t[t.len() - 1] == last);
                } else {
                    assert(t == t0);
                }
            }
        }
        assert forall|p: int| 0 <= p < upto implies (f.contains(p as usize) <==> !coop.contains(#[trigger] rs[p].agent_id@)) by {
            if p < upto - 1 {
                if f.contains(p as usize) {
                    let a = choose|a: int| 0 <= a < f.len() && f[a] == p as usize;
                    if a < f0.len() {
                        assert(f0[a] == p as usize);
                    }
                }
                if f0.contains(p as usize) {
                    let a = choose|a: int| 0 <= a < f0.len() && f0[a] == p as usize;
                    assert(f[a] == p as usize);
                }
            } else {
                if !coop.contains(rs[p].agent_id@) {
                    assert(f[f.len() - 1] == last);
                } else {
                    assert(f == f0);
                }
            }
        }
    }
}

/// The winner has the highest total among the cooperators, and every
/// cooperator after it has less.
pub proof fn lemma_best_by_payoff(rs: Seq<AgentResponse>, tot: Map<Seq<char>, int>, c: Seq<usize>)
    requires
        c.len() > 0,
    ensures
        0 <= best_by_payoff(rs, tot, c) < c.len(),
        forall|q: int| 0 <= q < c.len() ==> tot[rs[#[trigger] c[q] as int].agent_id@] <= tot[rs[c[best_by_payoff(rs, tot, c)] as int].agent_id@],
        forall|q: int| best_by_payoff(rs, tot, c) < q < c.len() ==> tot[rs[#[trigger] c[q] as int].agent_id@] < tot[rs[c[best_by_payoff(rs, tot, c)] as int].agent_id@],
    decreases c.len(),
{
    if c.len() > 1 {
        let d = c.drop_last();
        lemma_best_by_payoff(rs, tot, d);
        let p = best_by_payoff(rs, tot, d);
        let b = best_by_payoff(rs, tot, c);
        assert(d[p] == c[p]);
        assert forall|q: int| 0 <= q < c.len() implies tot[rs[#[trigger] c[q] as int].agent_id@] <= tot[rs[c[b] as int].agent_id@] by {
            if q < c.len() - 1 {
                assert(d[q] == c[q]);
            }
        }
        assert forall|q: int| b < q < c.len() implies tot[rs[#[trigger] c[q] as int].agent_id@] < tot[rs[c[b] as int].agent_id@] by {
            if q < c.len() - 1 {
                assert(d[q] == c[q]);
            }
        }
    }
}

/// An agent that answered alone cooperates.
pub proof fn lemma_alone_cooperates(
    rs: Seq<AgentResponse>,
    m: Map<(Seq<char>, Seq<char>), (int, int)>,
    w: Map<Seq<char>, int>,
    thr: u64,
    p: int,
)
    requires
        0 <= p < rs.len(),
        forall|o: int| 0 <= o < rs.len() ==> #[trigger] rs[o].agent_id@ == rs[p].agent_id@,
    ensures
        cooperates(rs, m, w, thr, p),
{
}

/// The game is symmetric: swapping the players swaps their payoffs.
pub proof fn lemma_payoff_symmetric(c1: bool, c2: bool)
    ensures
        payoff_of(c1, c2).0 == payoff_of(c2, c1).1,
        payoff_of(c1, c2).1 == payoff_of(c2, c1).0,
{
}


/// A penalty round keeps the cooperators' weights and never raises a
/// defector's; a defector with a positive weight loses some of it.
pub proof fn lemma_penalty_effect(
    rs: Seq<AgentResponse>,
    coop: Set<Seq<char>>,
    w: Map<Seq<char>, int>,
    i: int,
    id: Seq<char>,
)
    requires
        0 <= i <= rs.len(),
        w.contains_key(id),
        w[id] >= 0,
    ensures
        penalize(rs, coop, w, i).contains_key(id),
        coop.contains(id) ==> penalize(rs, coop, w, i)[id] == w[id],
        0 <= penalize(rs, coop, w, i)[id] <= w[id],
        !coop.contains(id) && w[id] > 0 && (exists|p: int| 0 <= p < i && #[trigger] rs[p].agent_id@ == id)
            ==> penalize(rs, coop, w, i)[id] < w[id],
    decreases i,
{
    if i > 0 {
        lemma_penalty_effect(rs, coop, w, i - 1, id);
        let prev = penalize(rs, coop, w, i - 1);
        if !coop.contains(id) && w[id] > 0 && (exists|p: int| 0 <= p < i && #[trigger] rs[p].agent_id@ == id) {
            if rs[i - 1].agent_id@ == id {
                assert(prev[id] * 4 / 5 < prev[id] || prev[id] == 0);
                if prev[id] == 0 {
                    assert(prev[id] < w[id]);
                }
            } else {
                let p = choose|p: int| 0 <= p < i && #[trigger] rs[p].agent_id@ == id;
                assert(p < i - 1);
            }
        }
    }
}


/// Every agent has a positive weight.
pub open spec fn weights_positive(rs: Seq<AgentResponse>, w: Map<Seq<char>, int>) -> bool {
    forall|o: int| 0 <= o < rs.len() ==> w.contains_key(#[trigger] rs[o].agent_id@) && w[rs[o].agent_id@] > 0
}

proof fn lemma_full_similarity_sums(
    rs: Seq<AgentResponse>,
    m: Map<(Seq<char>, Seq<char>), (int, int)>,
    w: Map<Seq<char>, int>,
    p: int,
    upto: int,
)
    requires
        0 <= p < rs.len(),
        0 <= upto <= rs.len(),
        rs.len() <= usize::MAX,
        weights_positive(rs, w),
        forall|a: usize, b: usize| a < rs.len() && b < rs.len() ==> is_full(#[trigger] sim_of(rs, m, a, b)),
    ensures
        weighted_sums(rs, m, w, p, upto).0 == weighted_sums(rs, m, w, p, upto).2 * weighted_sums(rs, m, w, p, upto).1,
        weighted_sums(rs, m, w, p, upto).1 > 0,
        weighted_sums(rs, m, w, p, upto).2 >= 0,
        (exists|o: int| 0 <= o < upto && #[trigger] rs[o].agent_id@ != rs[p].agent_id@) ==> weighted_sums(
            rs,
            m,
            w,
            p,
            upto,
        ).2 > 0,
    decreases upto,
{
    if upto > 0 {
        lemma_full_similarity_sums(rs, m, w, p, upto - 1);
        let o = upto - 1;
        let f = sim_of(rs, m, p as usize, o as usize);
        assert(is_full(f));
        assert(w[rs[o].agent_id@] > 0);
        let (n, d, t) = weighted_sums(rs, m, w, p, upto - 1);
        if rs[o].agent_id@ != rs[p].agent_id@ {
            let wo = w[rs[o].agent_id@];
            assert(n * f.1 + wo * f.0 * d == (t + wo) * (d * f.1)) by (nonlinear_arith)
                requires
                    n == t * d,
                    f.0 == f.1,
            ;
            assert(d * f.1 > 0) by (nonlinear_arith)
                requires
                    d > 0,
                    f.1 > 0,
            ;
        }
        if exists|q: int| 0 <= q < upto && #[trigger] rs[q].agent_id@ != rs[p].agent_id@ {
            let q = choose|q: int| 0 <= q < upto && #[trigger] rs[q].agent_id@ != rs[p].agent_id@;
            if q < upto - 1 {
                assert(exists|q2: int| 0 <= q2 < upto - 1 && #[trigger] rs[q2].agent_id@ != rs[p].agent_id@);
            }
        }
    }
}

proof fn lemma_penalize_none(rs: Seq<AgentResponse>, coop: Set<Seq<char>>, w: Map<Seq<char>, int>, i: int)
    requires
        0 <= i <= rs.len(),
        forall|o: int| 0 <= o < rs.len() ==> coop.contains(#[trigger] rs[o].agent_id@),
    ensures
        penalize(rs, coop, w, i) == w,
    decreases i,
{
    if i > 0 {
        lemma_penalize_none(rs, coop, w, i - 1);
    }
}

proof fn lemma_initial_weights_positive(rs: Seq<AgentResponse>)
    requires
        crate::similarity::distinct_ids(rs),
        forall|o: int| 0 <= o < rs.len() ==> #[trigger] rs[o].confidence > 0,
    ensures
        weights_positive(rs, initial_weights(rs)),
    decreases rs.len(),
{
    if rs.len() > 0 {
        let d = rs.drop_last();
        assert(crate::similarity::distinct_ids(d)) by {
            assert forall|p: int, q: int| 0 <= p < q < d.len() implies #[trigger] d[p].agent_id@ != #[trigger] d[q].agent_id@ by {
                assert(rs[p].agent_id@ != rs[q].agent_id@);
            }
        }
        lemma_initial_weights_positive(d);
        assert forall|o: int| 0 <= o < rs.len() implies initial_weights(rs).contains_key(#[trigger] rs[o].agent_id@)
            && initial_weights(rs)[rs[o].agent_id@] > 0 by {
            if o < rs.len() - 1 {
                assert(d[o] == rs[o]);
                assert(rs[o].agent_id@ != rs[rs.len() - 1].agent_id@);
            }
        }
    }
}

proof fn lemma_rounds_keep_weights(rs: Seq<AgentResponse>, thr: u64, k: nat)
    requires
        crate::similarity::distinct_ids(rs),
        2 <= rs.len() <= usize::MAX,
        forall|a: usize, b: usize| a < rs.len() && b < rs.len() ==> is_full(#[trigger] sim_of(rs, similarity_matrix(rs), a, b)),
        forall|o: int| 0 <= o < rs.len() ==> #[trigger] rs[o].confidence > 0,
        thr <= SIMILARITY_SCALE,
    ensures
        rounds(rs, similarity_matrix(rs), thr, k).0 == initial_weights(rs),
    decreases k,
{
    let m = similarity_matrix(rs);
    lemma_initial_weights_positive(rs);
    if k > 0 {
        lemma_rounds_keep_weights(rs, thr, (k - 1) as nat);
        let w = rounds(rs, m, thr, (k - 1) as nat).0;
        lemma_all_cooperate(rs, m, w, thr);
        lemma_penalize_none(rs, cooperator_set(rs, m, w, thr), w, rs.len() as int);
    }
}

/// Agents that are all fully similar to each other, with distinct ids and
/// positive confidences, all cooperate in every round and at the end, for
/// any threshold up to full similarity: no one is penalised, and with two
/// or more of them the prisoner's dilemma reaches consensus with every
/// agent in support.
pub proof fn lemma_unanimous_cooperation(rs: Seq<AgentResponse>, thr: u64)
    requires
        crate::similarity::distinct_ids(rs),
        2 <= rs.len() <= usize::MAX,
        forall|a: usize, b: usize| a < rs.len() && b < rs.len() ==> is_full(#[trigger] sim_of(rs, similarity_matrix(rs), a, b)),
        forall|o: int| 0 <= o < rs.len() ==> #[trigger] rs[o].confidence > 0,
        thr <= SIMILARITY_SCALE,
    ensures
        final_state(rs, thr).0 == initial_weights(rs),
        forall|o: int| 0 <= o < rs.len() ==> #[trigger] final_state(rs, thr).2.contains(rs[o].agent_id@),
        select(rs, final_state(rs, thr).2, true, rs.len() as int).len() == rs.len(),
{
    let m = similarity_matrix(rs);
    lemma_initial_weights_positive(rs);
    lemma_rounds_keep_weights(rs, thr, NUM_ROUNDS as nat);
    let wf = rounds(rs, m, thr, NUM_ROUNDS as nat).0;
    lemma_all_cooperate(rs, m, wf, thr);
    let coop = final_state(rs, thr).2;
    lemma_split(rs, coop, rs.len() as int);
    let f = select(rs, coop, false, rs.len() as int);
    if f.len() > 0 {
        assert(f[0] < rs.len());
        assert(f.contains(f[0]));
        assert(!coop.contains(rs[f[0] as int].agent_id@));
    }
}

proof fn lemma_all_cooperate(
    rs: Seq<AgentResponse>,
    m: Map<(Seq<char>, Seq<char>), (int, int)>,
    w: Map<Seq<char>, int>,
    thr: u64,
)
    requires
        crate::similarity::distinct_ids(rs),
        2 <= rs.len() <= usize::MAX,
        weights_positive(rs, w),
        forall|a: usize, b: usize| a < rs.len() && b < rs.len() ==> is_full(#[trigger] sim_of(rs, m, a, b)),
        thr <= SIMILARITY_SCALE,
    ensures
        forall|o: int| 0 <= o < rs.len() ==> #[trigger] cooperator_set(rs, m, w, thr).contains(rs[o].agent_id@),
{
    assert forall|o: int| 0 <= o < rs.len() implies #[trigger] cooperator_set(rs, m, w, thr).contains(rs[o].agent_id@) by {
        lemma_full_similarity_sums(rs, m, w, o, rs.len() as int);
        let other = if o == 0 { 1int } else { 0int };
        assert(rs[other].agent_id@ != rs[o].agent_id@) by {
            if other < o {
                assert(rs[other].agent_id@ != rs[o].agent_id@);
            } else {
                assert(rs[o].agent_id@ != rs[other].agent_id@);
            }
        }
        let (n, d, t) = weighted_sums(rs, m, w, o, rs.len() as int);
        assert(has_others(rs, o));
        assert(t > 0);
        assert(SIMILARITY_SCALE * n >= thr * t * d) by (nonlinear_arith)
            requires
                n == t * d,
                t > 0,
                d > 0,
                thr <= SIMILARITY_SCALE,
        ;
        assert(cooperates(rs, m, w, thr, o));
    }
}

/// Every ratio in `m` has a positive denominator.
pub open spec fn ratios_positive(m: Map<(Seq<char>, Seq<char>), (int, int)>) -> bool {
    forall|k: (Seq<char>, Seq<char>)| #[trigger] m.contains_key(k) ==> m[k].1 > 0
}

proof fn lemma_sums_signs(
    rs: Seq<AgentResponse>,
    m: Map<(Seq<char>, Seq<char>), (int, int)>,
    w: Map<Seq<char>, int>,
    p: int,
    upto: int,
)
    requires
        0 <= p < rs.len() <= usize::MAX,
        upto <= rs.len(),
        ratios_positive(m),
        weights_valid(rs, w),
    ensures
        weighted_sums(rs, m, w, p, upto).1 > 0,
        weighted_sums(rs, m, w, p, upto).2 >= 0,
    decreases upto,
{
    if upto > 0 {
        lemma_sums_signs(rs, m, w, p, upto - 1);
        let o = upto - 1;
        let f = sim_of(rs, m, p as usize, o as usize);
        assert(f.1 > 0);
        assert(w.contains_key(rs[o].agent_id@));
        let (n, d, t) = weighted_sums(rs, m, w, p, upto - 1);
        assert(d * f.1 > 0) by (nonlinear_arith)
            requires
                d > 0,
                f.1 > 0,
        ;
    }
}

/// Raising the threshold never turns a defector into a cooperator: an
/// agent that cooperates at threshold `t2` also cooperates at any lower
/// threshold `t1`.
pub proof fn lemma_cooperators_monotone(
    rs: Seq<AgentResponse>,
    m: Map<(Seq<char>, Seq<char>), (int, int)>,
    w: Map<Seq<char>, int>,
    t1: u64,
    t2: u64,
)
    requires
        rs.len() <= usize::MAX,
        t1 <= t2,
        ratios_positive(m),
        weights_valid(rs, w),
    ensures
        cooperator_set(rs, m, w, t2).subset_of(cooperator_set(rs, m, w, t1)),
{
    assert forall|id: Seq<char>| cooperator_set(rs, m, w, t2).contains(id) implies cooperator_set(rs, m, w, t1).contains(
        id,
    ) by {
        let p = choose|p: int| 0 <= p < rs.len() && #[trigger] rs[p].agent_id@ == id && cooperates(rs, m, w, t2, p);
        lemma_sums_signs(rs, m, w, p, rs.len() as int);
        let (n, d, t) = weighted_sums(rs, m, w, p, rs.len() as int);
        if t > 0 && SIMILARITY_SCALE * n >= t2 * t * d {
            assert(SIMILARITY_SCALE * n >= t1 * t * d) by (nonlinear_arith)
                requires
                    SIMILARITY_SCALE * n >= t2 * t * d,
                    t1 <= t2,
                    t > 0,
                    d > 0,
            ;
        }
        assert(cooperates(rs, m, w, t1, p));
    }
}

/// A matrix of valid similarity ratios has positive denominators.
pub proof fn lemma_valid_ratios_positive(m: Map<(Seq<char>, Seq<char>), Fraction>)
    requires
        fractions_valid(m),
    ensures
        ratios_positive(fraction_view(m)),
{
    assert forall|k: (Seq<char>, Seq<char>)| #[trigger] fraction_view(m).contains_key(k) implies fraction_view(m)[k].1 > 0 by {
        assert(fraction_valid(m[k]));
    }
}

/// The id of the response at `p` is among `ids`.
pub open spec fn listed(ids: Seq<String>, rs: Seq<AgentResponse>, p: int) -> bool {
    exists|a: int| 0 <= a < ids.len() && (#[trigger] ids[a])@ == rs[p].agent_id@
}

/// What a prisoner's dilemma result says of itself: every response is
/// reported as a cooperator or a defector; consensus is reached exactly when
/// at least two agents cooperate; there is a winner exactly then, supported
/// by the cooperators, with an agreement ratio of cooperators to responses;
/// and the winning answer is that of a cooperator whose final payoff is the
/// highest among the cooperators.
pub proof fn lemma_dilemma_result(input: ConsensusInput, thr: u64, r: ConsensusResult)
    requires
        dilemma_outcome(input, thr, r),
        input.responses@.len() <= usize::MAX,
    ensures
        r.metadata matches ResultMetadata::PrisonersDilemma { cooperators, defectors, final_payoffs, .. } && {
            let rs = input.responses@;
            let pay = as_ints(final_payoffs@);
            &&& cooperators@.len() + defectors@.len() == rs.len()
            &&& r.consensus_reached == (cooperators@.len() >= 2)
            &&& (r.winning_response is Some) == r.consensus_reached
            &&& r.winning_response matches Some(w) ==> {
                &&& w.supporting_agents@.len() == cooperators@.len()
                &&& forall|a: int| 0 <= a < cooperators@.len() ==> (#[trigger] w.supporting_agents@[a])@ == cooperators@[a]@
                &&& w.agreement_ratio.value() == (cooperators@.len() as int, rs.len() as int)
                &&& exists|p: int|
                    0 <= p < rs.len() && listed(cooperators@, rs, p) && w.content@ == rs[p].content@ && forall|q: int|
                        0 <= q < rs.len() && #[trigger] listed(cooperators@, rs, q) ==> pay[rs[q].agent_id@]
                            <= pay[rs[p].agent_id@]
            }
        },
{
    let rs = input.responses@;
    let n = rs.len() as int;
    let (w, acc, coop) = final_state(rs, thr);
    let cps = select(rs, coop, true, n);
    lemma_split(rs, coop, n);
    if let ResultMetadata::PrisonersDilemma { cooperators, final_payoffs, .. } = r.metadata {
        if let Some(win) = r.winning_response {
            lemma_best_by_payoff(rs, acc, cps);
            let b = best_by_payoff(rs, acc, cps);
            let p = cps[b] as int;
            assert(listed(cooperators@, rs, p)) by {
                assert(cooperators@[b]@ == rs[p].agent_id@);
            }
            assert forall|q: int| 0 <= q < n && #[trigger] listed(cooperators@, rs, q) implies acc[rs[q].agent_id@]
                <= acc[rs[p].agent_id@] by {
                let a = choose|a: int| 0 <= a < cooperators@.len() && (#[trigger] cooperators@[a])@ == rs[q].agent_id@;
                assert(rs[cps[a] as int].agent_id@ == rs[q].agent_id@);
            }
        }
    }
}

proof fn lemma_penalize_at(
    rs: Seq<AgentResponse>,
    coop: Set<Seq<char>>,
    w: Map<Seq<char>, int>,
    i: int,
    o: int,
)
    requires
        crate::similarity::distinct_ids(rs),
        0 <= i <= rs.len(),
        0 <= o < rs.len(),
        w.contains_key(rs[o].agent_id@),
    ensures
        penalize(rs, coop, w, i).contains_key(rs[o].agent_id@),
        penalize(rs, coop, w, i)[rs[o].agent_id@] == (if o < i && !coop.contains(rs[o].agent_id@) {
            w[rs[o].agent_id@] * 4 / 5
        } else {
            w[rs[o].agent_id@]
        }),
    decreases i,
{
    if i > 0 {
        lemma_penalize_at(rs, coop, w, i - 1, o);
        if i - 1 != o {
            if i - 1 < o {
                assert(rs[i - 1].agent_id@ != rs[o].agent_id@);
            } else {
                assert(rs[o].agent_id@ != rs[i - 1].agent_id@);
            }
        }
    }
}

proof fn lemma_initial_weight_at(rs: Seq<AgentResponse>, o: int)
    requires
        crate::similarity::distinct_ids(rs),
        0 <= o < rs.len(),
    ensures
        initial_weights(rs).contains_key(rs[o].agent_id@),
        initial_weights(rs)[rs[o].agent_id@] == rs[o].confidence * WEIGHT_SCALE,
    decreases rs.len(),
{
    let d = rs.drop_last();
    if o < rs.len() - 1 {
        assert(crate::similarity::distinct_ids(d)) by {
            assert forall|p: int, q: int| 0 <= p < q < d.len() implies #[trigger] d[p].agent_id@ != #[trigger] d[q].agent_id@ by {
                assert(rs[p].agent_id@ != rs[q].agent_id@);
            }
        }
        assert(d[o] == rs[o]);
        lemma_initial_weight_at(d, o);
        assert(rs[o].agent_id@ != rs[rs.len() - 1].agent_id@);
    }
}

/// How the effective confidences evolve over the rounds, for agents with
/// distinct ids: before the first round every agent's weight is its stated
/// confidence (scaled); after each round, an agent that cooperated in that
/// round keeps its weight and one that defected has it cut by a fifth
/// (rounded down), so a defector with a positive weight enters the next
/// round with strictly less.
pub proof fn lemma_round_weights(
    rs: Seq<AgentResponse>,
    m: Map<(Seq<char>, Seq<char>), (int, int)>,
    thr: u64,
    k: nat,
    o: int,
)
    requires
        crate::similarity::distinct_ids(rs),
        0 <= o < rs.len(),
    ensures
        rounds(rs, m, thr, 0).0.contains_key(rs[o].agent_id@),
        rounds(rs, m, thr, 0).0[rs[o].agent_id@] == rs[o].confidence * WEIGHT_SCALE,
        rounds(rs, m, thr, k).0.contains_key(rs[o].agent_id@),
        rounds(rs, m, thr, k + 1).0.contains_key(rs[o].agent_id@),
        ({
            let w = rounds(rs, m, thr, k).0;
            let id = rs[o].agent_id@;
            rounds(rs, m, thr, k + 1).0[id] == (if cooperator_set(rs, m, w, thr).contains(id) {
                w[id]
            } else {
                w[id] * 4 / 5
            })
        }),
        ({
            let w = rounds(rs, m, thr, k).0;
            let id = rs[o].agent_id@;
            !cooperator_set(rs, m, w, thr).contains(id) && w[id] > 0 ==> rounds(rs, m, thr, k + 1).0[id] < w[id]
        }),
    decreases k,
{
    lemma_initial_weight_at(rs, o);
    if k > 0 {
        lemma_round_weights(rs, m, thr, (k - 1) as nat, o);
    }
    let w = rounds(rs, m, thr, k).0;
    let coop = cooperator_set(rs, m, w, thr);
    lemma_penalize_at(rs, coop, w, rs.len() as int, o);
}

/// The result of a prisoner's dilemma run reports three rounds, as
/// cooperators exactly the agents that cooperate under the weights left
/// after the three rounds, the others as defectors, and as final payoffs the
/// totals of those rounds.
pub proof fn lemma_dilemma_classification(input: ConsensusInput, thr: u64, r: ConsensusResult)
    requires
        dilemma_outcome(input, thr, r),
        input.responses@.len() <= usize::MAX,
    ensures
        r.metadata matches ResultMetadata::PrisonersDilemma { cooperators, defectors, final_payoffs, num_rounds, .. } && {
            let rs = input.responses@;
            let m = similarity_matrix(rs);
            let after = rounds(rs, m, thr, 3);
            &&& num_rounds == 3
            &&& as_ints(final_payoffs@) == after.1
            &&& forall|p: int|
                0 <= p < rs.len() ==> (#[trigger] listed(cooperators@, rs, p) <==> cooperator_set(rs, m, after.0, thr).contains(
                    rs[p].agent_id@,
                ))
            &&& forall|p: int|
                0 <= p < rs.len() ==> (#[trigger] listed(defectors@, rs, p) <==> !cooperator_set(rs, m, after.0, thr).contains(
                    rs[p].agent_id@,
                ))
        },
{
    let rs = input.responses@;
    let n = rs.len() as int;
    let (w, acc, coop) = final_state(rs, thr);
    let cps = select(rs, coop, true, n);
    let dps = select(rs, coop, false, n);
    lemma_split(rs, coop, n);
    if let ResultMetadata::PrisonersDilemma { cooperators, defectors, .. } = r.metadata {
        assert forall|p: int| 0 <= p < n implies (#[trigger] listed(cooperators@, rs, p) <==> coop.contains(rs[p].agent_id@)) by {
            if coop.contains(rs[p].agent_id@) {
                assert(cps.contains(p as usize));
                let a = choose|a: int| 0 <= a < cps.len() && cps[a] == p as usize;
                assert(cooperators@[a]@ == rs[p].agent_id@);
            }
            if listed(cooperators@, rs, p) {
                let a = choose|a: int| 0 <= a < cooperators@.len() && (#[trigger] cooperators@[a])@ == rs[p].agent_id@;
                assert(cps.contains(cps[a]));
                assert(coop.contains(rs[cps[a] as int].agent_id@));
            }
        }
        assert forall|p: int| 0 <= p < n implies (#[trigger] listed(defectors@, rs, p) <==> !coop.contains(rs[p].agent_id@)) by {
            if !coop.contains(rs[p].agent_id@) {
                assert(dps.contains(p as usize));
                let a = choose|a: int| 0 <= a < dps.len() && dps[a] == p as usize;
                assert(defectors@[a]@ == rs[p].agent_id@);
            }
            if listed(defectors@, rs, p) {
                let a = choose|a: int| 0 <= a < defectors@.len() && (#[trigger] defectors@[a])@ == rs[p].agent_id@;
                assert(dps.contains(dps[a]));
                assert(!coop.contains(rs[dps[a] as int].agent_id@));
            }
        }
    }
}

/// What the agent at `o` earns in one round from its games against the
/// responses before `upto` other than itself, given who cooperates.
pub open spec fn round_earnings(rs: Seq<AgentResponse>, coop: Set<Seq<char>>, o: int, upto: int) -> int
    decreases upto,
{
    if upto <= 0 {
        0
    } else {
        round_earnings(rs, coop, o, upto - 1) + if upto - 1 == o {
            0
        } else {
            payoff_of(coop.contains(rs[o].agent_id@), coop.contains(rs[upto - 1].agent_id@)).0
        }
    }
}

spec fn earned_so_far(rs: Seq<AgentResponse>, coop: Set<Seq<char>>, o: int, i: int, j: int) -> int {
    if o < i {
        round_earnings(rs, coop, o, rs.len() as int)
    } else if o == i {
        round_earnings(rs, coop, o, j)
    } else if o < j {
        round_earnings(rs, coop, o, i + 1)
    } else {
        round_earnings(rs, coop, o, i)
    }
}

proof fn lemma_play_pairs_at(
    rs: Seq<AgentResponse>,
    coop: Set<Seq<char>>,
    acc: Map<Seq<char>, int>,
    i: int,
    j: int,
    o: int,
)
    requires
        crate::similarity::distinct_ids(rs),
        0 <= o < rs.len(),
        acc.contains_key(rs[o].agent_id@),
        (0 <= i < rs.len() && i + 1 <= j <= rs.len()) || (i == rs.len() && j == rs.len() + 1),
    ensures
        play_pairs(rs, coop, acc, i, j).contains_key(rs[o].agent_id@),
        play_pairs(rs, coop, acc, i, j)[rs[o].agent_id@] == acc[rs[o].agent_id@] + earned_so_far(rs, coop, o, i, j),
    decreases i, j,
{
    let id = rs[o].agent_id@;
    if 0 <= i && i + 1 < j {
        lemma_play_pairs_at(rs, coop, acc, i, j - 1, o);
        let a = rs[i].agent_id@;
        let b = rs[j - 1].agent_id@;
        assert(a != b);
        if o != i {
            if o < i {
                assert(rs[o].agent_id@ != a);
            } else {
                assert(a != rs[o].agent_id@);
            }
        }
        if o != j - 1 {
            if o < j - 1 {
                assert(rs[o].agent_id@ != b);
            } else {
                assert(b != rs[o].agent_id@);
            }
        }
        if o == j - 1 {
            lemma_payoff_symmetric(coop.contains(a), coop.contains(b));
            assert(round_earnings(rs, coop, o, i + 1) == round_earnings(rs, coop, o, i) + payoff_of(
                coop.contains(rs[o].agent_id@),
                coop.contains(a),
            ).0);
        }
        if o == i {
            assert(round_earnings(rs, coop, o, j) == round_earnings(rs, coop, o, j - 1) + payoff_of(
                coop.contains(rs[o].agent_id@),
                coop.contains(b),
            ).0);
        }
    } else if 0 < i {
        lemma_play_pairs_at(rs, coop, acc, i - 1, rs.len() as int, o);
        assert(round_earnings(rs, coop, o, i + 1) == round_earnings(rs, coop, o, i) + (if i == o {
            0
        } else {
            payoff_of(coop.contains(rs[o].agent_id@), coop.contains(rs[i].agent_id@)).0
        }));
    } else {
        assert(round_earnings(rs, coop, o, 1) == round_earnings(rs, coop, o, 0) + (if 0 == o {
            0
        } else {
            payoff_of(coop.contains(rs[o].agent_id@), coop.contains(rs[0].agent_id@)).0
        }));
        assert(round_earnings(rs, coop, o, 0) == 0);
    }
}

proof fn lemma_round_payoff_keys(
    rs: Seq<AgentResponse>,
    m: Map<(Seq<char>, Seq<char>), (int, int)>,
    thr: u64,
    k: nat,
    o: int,
)
    requires
        crate::similarity::distinct_ids(rs),
        0 <= o < rs.len(),
    ensures
        rounds(rs, m, thr, k).1.contains_key(rs[o].agent_id@),
    decreases k,
{
    lemma_initial_tables(rs);
    if k > 0 {
        lemma_round_payoff_keys(rs, m, thr, (k - 1) as nat, o);
        let (w, acc) = rounds(rs, m, thr, (k - 1) as nat);
        let n = rs.len() as int;
        lemma_play_pairs_at(rs, cooperator_set(rs, m, w, thr), acc, n, n + 1, o);
    }
}

/// How the payoffs accumulate, for agents with distinct ids: every agent
/// starts at zero, and each round adds to an agent's total what it earns
/// from one game against every other agent, under that round's
/// classification.
pub proof fn lemma_round_payoffs(
    rs: Seq<AgentResponse>,
    m: Map<(Seq<char>, Seq<char>), (int, int)>,
    thr: u64,
    k: nat,
    o: int,
)
    requires
        crate::similarity::distinct_ids(rs),
        0 <= o < rs.len(),
    ensures
        rounds(rs, m, thr, 0).1[rs[o].agent_id@] == 0,
        rounds(rs, m, thr, k).1.contains_key(rs[o].agent_id@),
        rounds(rs, m, thr, k + 1).1[rs[o].agent_id@] == rounds(rs, m, thr, k).1[rs[o].agent_id@] + round_earnings(
            rs,
            cooperator_set(rs, m, rounds(rs, m, thr, k).0, thr),
            o,
            rs.len() as int,
        ),
{
    lemma_initial_tables(rs);
    lemma_round_payoff_keys(rs, m, thr, k, o);
    let (w, acc) = rounds(rs, m, thr, k);
    let n = rs.len() as int;
    lemma_play_pairs_at(rs, cooperator_set(rs, m, w, thr), acc, n, n + 1, o);
}

/// In one round, a cooperator earns the reward from every other cooperator
/// and the sucker's payoff from every defector; a defector earns the
/// temptation from every cooperator and the punishment from every other
/// defector.
pub proof fn lemma_round_earnings_count(rs: Seq<AgentResponse>, coop: Set<Seq<char>>, o: int, upto: int)
    requires
        0 <= o < rs.len(),
        0 <= upto <= rs.len(),
    ensures
        ({
            let others_c = select(rs, coop, true, upto).len() - (if o < upto && coop.contains(rs[o].agent_id@) { 1int } else { 0 });
            let others_d = select(rs, coop, false, upto).len() - (if o < upto && !coop.contains(rs[o].agent_id@) { 1int } else { 0 });
            round_earnings(rs, coop, o, upto) == if coop.contains(rs[o].agent_id@) {
                REWARD * others_c + SUCKER * others_d
            } else {
                TEMPTATION * others_c + PUNISHMENT * others_d
            }
        }),
    decreases upto,
{
    if upto > 0 {
        lemma_round_earnings_count(rs, coop, o, upto - 1);
    }
}

/// `out` reports the agents `ids`: its members are those ids in order, and
/// its representative answer is that of one of the most confident of them.
pub open spec fn reports_group(out: ResponseCluster, ids: Seq<String>, rs: Seq<AgentResponse>) -> bool {
    &&& out.members@.len() == ids.len()
    &&& forall|a: int| 0 <= a < ids.len() ==> (#[trigger] out.members@[a])@ == ids[a]@
    &&& exists|p: int|
        0 <= p < rs.len() && #[trigger] listed(ids, rs, p) && out.representative_content@ == rs[p].content@ && forall|q: int|
            0 <= q < rs.len() && #[trigger] listed(ids, rs, q) ==> rs[q].confidence <= rs[p].confidence
}

proof fn lemma_group_reported(rs: Seq<AgentResponse>, m: Map<(Seq<char>, Seq<char>), (int, int)>, ids: Seq<String>, c: Seq<usize>, out: ResponseCluster)
    requires
        crate::similarity::distinct_ids(rs),
        c.len() > 0,
        forall|a: int| 0 <= a < c.len() ==> #[trigger] c[a] < rs.len(),
        ids_match(ids, rs, c),
        describes_cluster(out, rs, m, c),
    ensures
        reports_group(out, ids, rs),
{
    crate::strategies::quorum::lemma_best_member(rs, c);
    let b = crate::strategies::quorum::best_member(rs, c);
    let p = c[b] as int;
    assert(listed(ids, rs, p)) by {
        assert(ids[b]@ == rs[p].agent_id@);
    }
    assert forall|q: int| 0 <= q < rs.len() && #[trigger] listed(ids, rs, q) implies rs[q].confidence <= rs[p].confidence by {
        let a = choose|a: int| 0 <= a < ids.len() && (#[trigger] ids[a])@ == rs[q].agent_id@;
        let x = c[a] as int;
        assert(rs[x].agent_id@ == rs[q].agent_id@);
        if x < q {
            assert(rs[x].agent_id@ != rs[q].agent_id@);
        } else if q < x {
            assert(rs[q].agent_id@ != rs[x].agent_id@);
        }
        assert(rs[c[a] as int].confidence <= rs[p].confidence);
    }
}

/// The groups of a prisoner's dilemma result, for agents with distinct
/// ids: the cooperators' cluster comes first and the defectors' last, each
/// present exactly when the group is not empty, each listing its group's
/// agents and represented by the answer of one of the group's most
/// confident agents.
pub proof fn lemma_dilemma_clusters(input: ConsensusInput, thr: u64, r: ConsensusResult)
    requires
        dilemma_outcome(input, thr, r),
        input.responses@.len() <= usize::MAX,
        crate::similarity::distinct_ids(input.responses@),
    ensures
        r.metadata matches ResultMetadata::PrisonersDilemma { cooperators, defectors, .. } && {
            &&& r.clusters@.len() == (if cooperators@.len() > 0 { 1int } else { 0 }) + (if defectors@.len() > 0 {
                1int
            } else {
                0
            })
            &&& cooperators@.len() > 0 ==> reports_group(r.clusters@[0], cooperators@, input.responses@)
            &&& defectors@.len() > 0 ==> reports_group(r.clusters@[r.clusters@.len() - 1], defectors@, input.responses@)
        },
{
    let rs = input.responses@;
    let n = rs.len() as int;
    let m = similarity_matrix(rs);
    let (w, acc, coop) = final_state(rs, thr);
    let cps = select(rs, coop, true, n);
    let dps = select(rs, coop, false, n);
    lemma_split(rs, coop, n);
    if let ResultMetadata::PrisonersDilemma { cooperators, defectors, .. } = r.metadata {
        if cps.len() > 0 {
            lemma_group_reported(rs, m, cooperators@, cps, r.clusters@[0]);
        }
        if dps.len() > 0 {
            lemma_group_reported(rs, m, defectors@, dps, r.clusters@[r.clusters@.len() - 1]);
        }
    }
}

proof fn lemma_sums_one_weighted(
    rs: Seq<AgentResponse>,
    m: Map<(Seq<char>, Seq<char>), (int, int)>,
    w: Map<Seq<char>, int>,
    p: int,
    q1: int,
    upto: int,
)
    requires
        crate::similarity::distinct_ids(rs),
        rs.len() <= usize::MAX,
        ratios_positive(m),
        0 <= p < rs.len(),
        0 <= q1 < rs.len(),
        q1 != p,
        forall|q: int| 0 <= q < rs.len() && q != q1 && q != p ==> w[#[trigger] rs[q].agent_id@] == 0,
        w[rs[q1].agent_id@] > 0,
        0 <= upto <= rs.len(),
    ensures
        weighted_sums(rs, m, w, p, upto).1 > 0,
        upto <= q1 ==> weighted_sums(rs, m, w, p, upto).0 == 0 && weighted_sums(rs, m, w, p, upto).2 == 0,
        upto > q1 ==> weighted_sums(rs, m, w, p, upto).2 == w[rs[q1].agent_id@] && weighted_sums(rs, m, w, p, upto).0
            * sim_of(rs, m, p as usize, q1 as usize).1 == w[rs[q1].agent_id@] * sim_of(rs, m, p as usize, q1 as usize).0
            * weighted_sums(rs, m, w, p, upto).1,
    decreases upto,
{
    if upto > 0 {
        lemma_sums_one_weighted(rs, m, w, p, q1, upto - 1);
        let o = upto - 1;
        let (a, d, t) = weighted_sums(rs, m, w, p, upto - 1);
        let f = sim_of(rs, m, p as usize, o as usize);
        let g = sim_of(rs, m, p as usize, q1 as usize);
        let wq = w[rs[q1].agent_id@];
        assert(f.1 > 0);
        assert(g.1 > 0);
        if o != p {
            if o < p {
                assert(rs[o].agent_id@ != rs[p].agent_id@);
            } else {
                assert(rs[p].agent_id@ != rs[o].agent_id@);
            }
            let wo = w[rs[o].agent_id@];
            assert(d * f.1 > 0) by (nonlinear_arith)
                requires
                    d > 0,
                    f.1 > 0,
            ;
            if o == q1 {
                assert((a * f.1 + wo * f.0 * d) * g.1 == wq * g.0 * (d * f.1)) by (nonlinear_arith)
                    requires
                        a == 0,
                        f == g,
                        wo == wq,
                ;
            } else {
                assert(wo == 0);
                if upto - 1 > q1 {
                    assert((a * f.1 + wo * f.0 * d) * g.1 == wq * g.0 * (d * f.1)) by (nonlinear_arith)
                        requires
                            a * g.1 == wq * g.0 * d,
                            wo == 0,
                    ;
                } else {
                    assert(a * f.1 + wo * f.0 * d == 0) by (nonlinear_arith)
                        requires
                            a == 0,
                            wo == 0,
                    ;
                }
            }
        }
    }
}

/// Only weight counts in the mean: when every other agent but one carries
/// no weight, an agent cooperates exactly when its similarity to that one
/// agent reaches the threshold, whatever its similarity to the others.
pub proof fn lemma_cooperation_follows_weight(
    rs: Seq<AgentResponse>,
    m: Map<(Seq<char>, Seq<char>), (int, int)>,
    w: Map<Seq<char>, int>,
    thr: u64,
    p: int,
    q1: int,
)
    requires
        crate::similarity::distinct_ids(rs),
        rs.len() <= usize::MAX,
        ratios_positive(m),
        0 <= p < rs.len(),
        0 <= q1 < rs.len(),
        q1 != p,
        forall|q: int| 0 <= q < rs.len() && q != q1 && q != p ==> w[#[trigger] rs[q].agent_id@] == 0,
        w[rs[q1].agent_id@] > 0,
    ensures
        cooperates(rs, m, w, thr, p) <==> SIMILARITY_SCALE * sim_of(rs, m, p as usize, q1 as usize).0 >= thr * sim_of(
            rs,
            m,
            p as usize,
            q1 as usize,
        ).1,
{
    let n = rs.len() as int;
    lemma_sums_one_weighted(rs, m, w, p, q1, n);
    let (a, d, t) = weighted_sums(rs, m, w, p, n);
    let g = sim_of(rs, m, p as usize, q1 as usize);
    assert(g.1 > 0);
    assert(has_others(rs, p)) by {
        if q1 < p {
            assert(rs[q1].agent_id@ != rs[p].agent_id@);
        } else {
            assert(rs[p].agent_id@ != rs[q1].agent_id@);
        }
    }
    assert((SIMILARITY_SCALE * a >= thr * t * d) <==> (SIMILARITY_SCALE * g.0 >= thr * g.1)) by (nonlinear_arith)
        requires
            a * g.1 == t * g.0 * d,
            t > 0,
            d > 0,
            g.1 > 0,
    ;
}

} // verus!

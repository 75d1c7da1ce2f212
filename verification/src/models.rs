//! The data that goes into a consensus run and the result that comes out.
use vstd::prelude::*;

verus! {

/// Fixed-point scale of confidences: a confidence of `1.0` is stored as this value.
pub const CONFIDENCE_SCALE: u32 = 1_000_000;

/// Confidence given to a response that states none (`1.0`).
pub fn default_confidence() -> (c: u32)
    ensures
        c == CONFIDENCE_SCALE,
{
    CONFIDENCE_SCALE
}

/// One agent's answer to the prompt.
#[derive(Debug)]
pub struct AgentResponse {
    pub agent_id: String,
    pub content: String,
    /// Confidence in millionths (`CONFIDENCE_SCALE` means `1.0`).
    pub confidence: u32,
}

/// A prompt and the answers that the agents gave to it.
#[derive(Debug)]
pub struct ConsensusInput {
    pub prompt: String,
    pub responses: Vec<AgentResponse>,
}

/// An exact ratio of two integers.
#[derive(Debug, Clone, Copy)]
pub struct Fraction {
    pub numerator: u128,
    pub denominator: u128,
}

impl Fraction {
    pub open spec fn value(self) -> (int, int) {
        (self.numerator as int, self.denominator as int)
    }
}

/// A similarity ratio as the library holds it: numerator at most the
/// denominator, and a positive denominator that a pair of lengths can reach.
pub open spec fn fraction_valid(f: Fraction) -> bool {
    f.numerator <= f.denominator && 0 < f.denominator <= 2 * (usize::MAX as int)
}

/// A map of fractions seen as pairs of integers.
pub open spec fn fraction_view<K>(m: Map<K, Fraction>) -> Map<K, (int, int)> {
    m.map_values(|f: Fraction| f.value())
}

/// Every fraction in the map is a valid similarity ratio.
pub open spec fn fractions_valid<K>(m: Map<K, Fraction>) -> bool {
    forall|k: K| #[trigger] m.contains_key(k) ==> fraction_valid(m[k])
}

/// Viewing a map of fractions commutes with inserting into it.
pub proof fn lemma_fraction_view_insert<K>(m: Map<K, Fraction>, k: K, f: Fraction)
    ensures
        fraction_view(m.insert(k, f)) == fraction_view(m).insert(k, f.value()),
{
    assert(fraction_view(m.insert(k, f)) =~= fraction_view(m).insert(k, f.value()));
}

/// A group of agents whose answers agree.
#[derive(Debug)]
pub struct ResponseCluster {
    /// The content of the most confident member.
    pub representative_content: String,
    /// The members' agent ids.
    pub members: Vec<String>,
    /// Similarity score of each pair of members, keyed `"<id>:<id>"`.
    pub similarity_scores: KeyedTable<String, Fraction>,
}

/// The answer that a consensus settled on.
#[derive(Debug)]
pub struct WinningResponse {
    pub content: String,
    pub supporting_agents: Vec<String>,
    /// Share of all agents that support the answer.
    pub agreement_ratio: Fraction,
    pub confidence_score: Fraction,
}

/// Figures that describe a run, by strategy.
#[derive(Debug)]
pub enum ResultMetadata {
    Quorum { total_responses: usize, similarity_threshold: u64, quorum_size: usize },
    PrisonersDilemma {
        total_responses: usize,
        similarity_threshold: u64,
        num_rounds: usize,
        /// Each agent's payoff over all rounds.
        final_payoffs: KeyedTable<String, u128>,
        cooperators: Vec<String>,
        defectors: Vec<String>,
    },
}

/// The outcome of a consensus run.
#[derive(Debug)]
pub struct ConsensusResult {
    pub strategy: String,
    pub prompt: String,
    pub consensus_reached: bool,
    pub winning_response: Option<WinningResponse>,
    pub clusters: Vec<ResponseCluster>,
    pub metadata: ResultMetadata,
}

/// Keys of a `KeyedTable`: values that can be compared by their view.
pub trait TableKey: View + Sized {
    fn same_key(&self, other: &Self) -> (r: bool)
        ensures
            r == (self@ == other@);
}

impl TableKey for String {
    fn same_key(&self, other: &Self) -> (r: bool) {
        *self == *other
    }
}

impl TableKey for (String, String) {
    fn same_key(&self, other: &Self) -> (r: bool) {
        self.0 == other.0 && self.1 == other.1
    }
}

/// A table in which every key occurs once.  Entries keep the order in which
/// their keys were first inserted.
#[derive(Debug)]
pub struct KeyedTable<K, V> {
    entries: Vec<(K, V)>,
}

impl<K: View, V> View for KeyedTable<K, V> {
    type V = Map<K::V, V>;

    closed spec fn view(&self) -> Map<K::V, V> {
        Map::new(
            |k: K::V| exists|i: int| 0 <= i < self.entries@.len() && #[trigger] self.entries@[i].0@ == k,
            |k: K::V|
                self.entries@[choose|i: int| 0 <= i < self.entries@.len() && #[trigger] self.entries@[i].0@ == k].1,
        )
    }
}

impl<K: TableKey, V: Copy> KeyedTable<K, V> {
    /// No key occurs twice.
    pub closed spec fn wf(&self) -> bool {
        forall|i: int, j: int|
            0 <= i < j < self.entries@.len() ==> #[trigger] self.entries@[i].0@ != #[trigger] self.entries@[j].0@
    }

    /// The keys, in the order of their first insertion.
    pub closed spec fn key_order(&self) -> Seq<K::V> {
        self.entries@.map_values(|e: (K, V)| e.0@)
    }

    proof fn lemma_view_at(&self, i: int)
        requires
            self.wf(),
            0 <= i < self.entries@.len(),
        ensures
            self@.contains_key(self.entries@[i].0@),
            self@[self.entries@[i].0@] == self.entries@[i].1,
    {
        let k = self.entries@[i].0@;
        assert(exists|j: int| 0 <= j < self.entries@.len() && #[trigger] self.entries@[j].0@ == k);
        let c = choose|j: int| 0 <= j < self.entries@.len() && #[trigger] self.entries@[j].0@ == k;
        if c != i {
            if c < i {
                assert(self.entries@[c].0@ != self.entries@[i].0@);
            } else {
                assert(self.entries@[i].0@ != self.entries@[c].0@);
            }
        }
    }

    /// An empty table.
    pub fn new() -> (t: Self)
        ensures
            t.wf(),
            t@ == Map::<K::V, V>::empty(),
            t.key_order() == Seq::<K::V>::empty(),
    {
        let t = KeyedTable { entries: Vec::new() };
        assert(t@ =~= Map::<K::V, V>::empty());
        assert(t.key_order() =~= Seq::<K::V>::empty());
        t
    }

    /// Number of keys.
    pub fn len(&self) -> (n: usize)
        requires
            self.wf(),
        ensures
            n == self@.len(),
            n == self.key_order().len(),
    {
        proof {
            self.lemma_dom();
        }
        self.entries.len()
    }

    proof fn lemma_dom(&self)
        requires
            self.wf(),
        ensures
            self@.dom() == self.key_order().to_set(),
            self.key_order().no_duplicates(),
            self@.len() == self.key_order().len(),
            self@.dom().finite(),
    {
        let ks = self.key_order();
        assert(self@.dom() =~= ks.to_set()) by {
            assert forall|k: K::V| self@.dom().contains(k) implies ks.to_set().contains(k) by {
                let i = choose|i: int| 0 <= i < self.entries@.len() && #[trigger] self.entries@[i].0@ == k;
                assert(ks[i] == k);
            }
            assert forall|k: K::V| ks.to_set().contains(k) implies self@.dom().contains(k) by {
                let i = choose|i: int| 0 <= i < ks.len() && ks[i] == k;
                assert(self.entries@[i].0@ == k);
            }
        }
        assert(ks.no_duplicates()) by {
            assert forall|i: int, j: int| 0 <= i < ks.len() && 0 <= j < ks.len() && i != j implies ks[i] != ks[j] by {
                if i < j {
                    assert(self.entries@[i].0@ != self.entries@[j].0@);
                } else {
                    assert(self.entries@[j].0@ != self.entries@[i].0@);
                }
            }
        }
        ks.unique_seq_to_set();
    }

    /// The value stored under `key`, if any.
    pub fn get(&self, key: &K) -> (r: Option<V>)
        requires
            self.wf(),
        ensures
            r == (if self@.contains_key(key@) { Some(self@[key@]) } else { None::<V> }),
    {
        let mut i: usize = 0;
        while i < self.entries.len()
            invariant
                self.wf(),
                i <= self.entries@.len(),
                forall|j: int| 0 <= j < i ==> #[trigger] self.entries@[j].0@ != key@,
            decreases self.entries@.len() - i,
        {
            if self.entries[i].0.same_key(key) {
                proof {
                    self.lemma_view_at(i as int);
                }
                return Some(self.entries[i].1);
            }
            i = i + 1;
        }
        proof {
            if self@.contains_key(key@) {
                let j = choose|j: int| 0 <= j < self.entries@.len() && #[trigger] self.entries@[j].0@ == key@;
                assert(self.entries@[j].0@ != key@);
            }
        }
        None
    }

    /// Stores `value` under `key`, replacing what was there.  A new key goes
    /// to the end of the key order.
    pub fn insert(&mut self, key: K, value: V)
        requires
            old(self).wf(),
        ensures
            final(self).wf(),
            final(self)@ == old(self)@.insert(key@, value),
            final(self).key_order() == (if old(self)@.contains_key(key@) {
                old(self).key_order()
            } else {
                old(self).key_order().push(key@)
            }),
    {
        let ghost pre = *self;
        let mut i: usize = 0;
        while i < self.entries.len()
            invariant
                *self == pre,
                pre == *old(self),
                pre.wf(),
                i <= self.entries@.len(),
                forall|j: int| 0 <= j < i ==> #[trigger] self.entries@[j].0@ != key@,
            decreases self.entries@.len() - i,
        {
            if self.entries[i].0.same_key(&key) {
                proof {
                    pre.lemma_view_at(i as int);
                }
                self.entries.set(i, (key, value));
                proof {
                    let post = *self;
                    assert(post.wf()) by {
                        assert forall|a: int, b: int| 0 <= a < b < post.entries@.len()
                            implies #[trigger] post.entries@[a].0@ != #[trigger] post.entries@[b].0@ by {
                            assert(pre.entries@[a].0@ != pre.entries@[b].0@);
                        }
                    }
                    assert forall|k: K::V| #[trigger] post@.contains_key(k) == pre@.insert(key@, value).contains_key(k) by {
                        if post@.contains_key(k) {
                            let j = choose|j: int| 0 <= j < post.entries@.len() && #[trigger] post.entries@[j].0@ == k;
                            if j != i {
                                assert(pre.entries@[j].0@ == k);
                            }
                        }
                        if pre@.contains_key(k) {
                            let j = choose|j: int| 0 <= j < pre.entries@.len() && #[trigger] pre.entries@[j].0@ == k;
                            if j != i {
                                assert(post.entries@[j].0@ == k);
                            } else {
                                assert(post.entries@[i as int].0@ == k);
                            }
                        }
                        if k == key@ {
                            assert(post.entries@[i as int].0@ == k);
                        }
                    }
                    assert forall|k: K::V| #[trigger] post@.contains_key(k) implies post@[k] == pre@.insert(key@, value)[k] by {
                        let j = choose|j: int| 0 <= j < post.entries@.len() && #[trigger] post.entries@[j].0@ == k;
                        post.lemma_view_at(j);
                        if j != i {
                            pre.lemma_view_at(j);
                        }
                    }
                    assert(post@ =~= pre@.insert(key@, value));
                    assert(post.key_order() =~= pre.key_order());
                }
                return;
            }
            i = i + 1;
        }
        proof {
            if pre@.contains_key(key@) {
                let j = choose|j: int| 0 <= j < pre.entries@.len() && #[trigger] pre.entries@[j].0@ == key@;
                assert(pre.entries@[j].0@ != key@);
            }
        }
        self.entries.push((key, value));
        proof {
            let post = *self;
            let n = pre.entries@.len() as int;
            assert(post.wf()) by {
                assert forall|a: int, b: int| 0 <= a < b < post.entries@.len()
                    implies #[trigger] post.entries@[a].0@ != #[trigger] post.entries@[b].0@ by {
                    if b < n {
                        assert(pre.entries@[a].0@ != pre.entries@[b].0@);
                    }
                }
            }
            assert forall|k: K::V| #[trigger] post@.contains_key(k) == pre@.insert(key@, value).contains_key(k) by {
                if post@.contains_key(k) {
                    let j = choose|j: int| 0 <= j < post.entries@.len() && #[trigger] post.entries@[j].0@ == k;
                    if j != n {
                        assert(pre.entries@[j].0@ == k);
                    }
                }
                if pre@.contains_key(k) {
                    let j = choose|j: int| 0 <= j < pre.entries@.len() && #[trigger] pre.entries@[j].0@ == k;
                    assert(post.entries@[j].0@ == k);
                }
                if k == key@ {
                    assert(post.entries@[n].0@ == k);
                }
            }
            assert forall|k: K::V| #[trigger] post@.contains_key(k) implies post@[k] == pre@.insert(key@, value)[k] by {
                let j = choose|j: int| 0 <= j < post.entries@.len() && #[trigger] post.entries@[j].0@ == k;
                post.lemma_view_at(j);
                if j != n {
                    pre.lemma_view_at(j);
                }
            }
            assert(post@ =~= pre@.insert(key@, value));
            assert(post.key_order() =~= pre.key_order().push(key@));
        }
    }

    /// The entries, in key order.
    pub fn entries(&self) -> (e: &Vec<(K, V)>)
        requires
            self.wf(),
        ensures
            e@.len() == self.key_order().len(),
            forall|i: int| 0 <= i < e@.len() ==> (#[trigger] e@[i]).0@ == self.key_order()[i]
                && self@[self.key_order()[i]] == e@[i].1,
    {
        proof {
            assert forall|i: int| 0 <= i < self.entries@.len() implies self@[self.key_order()[i]] == self.entries@[i].1 by {
                self.lemma_view_at(i);
            }
        }
        &self.entries
    }
}

} // verus!

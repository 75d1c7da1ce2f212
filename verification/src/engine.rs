//! Runs a strategy chosen by name, after checking the input.
use vstd::prelude::*;

use crate::models::{ConsensusInput, ConsensusResult};
use crate::similarity::distinct_ids;
use crate::strategies::prisoners_dilemma::{dilemma_outcome, max_responses};
use crate::strategies::quorum::quorum_outcome;
use crate::strategies::{get_strategy, unknown_strategy_message, ConsensusStrategy};

verus! {

/// A strategy name together with the similarity threshold to run it with.
#[derive(Debug)]
pub struct ConsensusEngine {
    strategy_name: String,
    similarity_threshold: u64,
}

/// `name` names a strategy.
pub open spec fn known_strategy(name: Seq<char>) -> bool {
    name == "quorum"@ || name == "prisoners_dilemma"@
}

/// Why an input cannot be evaluated, if it cannot.
pub open spec fn validation_error(input: ConsensusInput) -> Option<Seq<char>> {
    if input.responses@.len() < 2 {
        Some("At least 2 agent responses required for consensus"@)
    } else if !distinct_ids(input.responses@) {
        Some("Duplicate agent_id values found"@)
    } else {
        None
    }
}

/// `result` is what the strategy named `name` makes of `input`.
pub open spec fn named_outcome(name: Seq<char>, input: ConsensusInput, threshold: u64, result: ConsensusResult) -> bool {
    &&& name == "quorum"@ ==> quorum_outcome(input, threshold, result)
    &&& name == "prisoners_dilemma"@ ==> dilemma_outcome(input, threshold, result)
}

impl ConsensusEngine {
    /// The name of the strategy the engine runs.
    pub closed spec fn strategy(&self) -> Seq<char> {
        self.strategy_name@
    }

    /// The similarity threshold, in millionths.
    pub closed spec fn threshold(&self) -> u64 {
        self.similarity_threshold
    }

    /// An engine for the strategy named `strategy_name`; an error if there
    /// is no such strategy.
    pub fn new(strategy_name: &str, similarity_threshold: u64) -> (r: Result<Self, String>)
        ensures
            match r {
                Ok(e) => known_strategy(strategy_name@) && e.strategy() == strategy_name@
                    && e.threshold() == similarity_threshold,
                Err(msg) => !known_strategy(strategy_name@) && msg@ == unknown_strategy_message(
                    strategy_name@,
                ),
            },
    {
        match get_strategy(strategy_name) {
            Ok(_) => Ok(ConsensusEngine { strategy_name: strategy_name.to_owned(), similarity_threshold }),
            Err(msg) => Err(msg),
        }
    }

    /// Checks the input and runs the strategy on it.
    pub fn run(&self, input: &ConsensusInput) -> (r: Result<ConsensusResult, String>)
        requires
            input.responses@.len() <= max_responses(),
        ensures
            match r {
                Ok(result) => validation_error(*input) is None && known_strategy(self.strategy())
                    && named_outcome(self.strategy(), *input, self.threshold(), result),
                Err(msg) => match validation_error(*input) {
                    Some(m) => msg@ == m,
                    None => !known_strategy(self.strategy()) && msg@ == unknown_strategy_message(
                        self.strategy(),
                    ),
                },
            },
    {
        match self.validate(input) {
            Ok(()) => {},
            Err(msg) => {
                return Err(msg);
            },
        }
        match get_strategy(self.strategy_name.as_str()) {
            Ok(strategy) => {
                let result = strategy.evaluate(input, self.similarity_threshold);
                Ok(result)
            },
            Err(msg) => Err(msg),
        }
    }

    /// Rejects inputs with fewer than two responses or with an agent id
    /// that occurs twice.
    fn validate(&self, input: &ConsensusInput) -> (r: Result<(), String>)
        ensures
            match r {
                Ok(()) => validation_error(*input) is None,
                Err(msg) => validation_error(*input) == Some(msg@),
            },
    {
        let responses = &input.responses;
        if responses.len() < 2 {
            return Err("At least 2 agent responses required for consensus".to_owned());
        }
        for q in 0..responses.len()
            invariant
                responses@ == input.responses@,
                responses@.len() >= 2,
                forall|a: int, b: int| 0 <= a < b < q ==> #[trigger] responses@[a].agent_id@ != #[trigger] responses@[b].agent_id@,
        {
            for p in 0..q
                invariant
                    responses@ == input.responses@,
                    responses@.len() >= 2,
                    q < responses@.len(),
                    forall|a: int, b: int| 0 <= a < b < q ==> #[trigger] responses@[a].agent_id@ != #[trigger] responses@[b].agent_id@,
                    forall|a: int| 0 <= a < p ==> #[trigger] responses@[a].agent_id@ != responses@[q as int].agent_id@,
            {
                if responses[p].agent_id == responses[q].agent_id {
                    proof {
                        assert(!distinct_ids(input.responses@));
                    }
                    return Err("Duplicate agent_id values found".to_owned());
                }
            }
        }
        Ok(())
    }
}

/// A run of a known strategy reports that strategy's name and the input's
/// prompt, whichever strategy it is.
pub proof fn lemma_outcome_names_strategy(name: Seq<char>, input: ConsensusInput, threshold: u64, result: ConsensusResult)
    requires
        known_strategy(name),
        named_outcome(name, input, threshold, result),
    ensures
        result.strategy@ == name,
        result.prompt@ == input.prompt@,
{
}

/// An input passes the checks exactly when it has at least two responses
/// and no two of them share an agent id; an input with two responses that
/// share an id is refused as a duplicate.
pub proof fn lemma_validation_checks_every_pair(input: ConsensusInput)
    ensures
        (validation_error(input) is None) == (input.responses@.len() >= 2 && forall|p: int, q: int|
            0 <= p < q < input.responses@.len() ==> #[trigger] input.responses@[p].agent_id@
                != #[trigger] input.responses@[q].agent_id@),
        input.responses@.len() >= 2 && (exists|p: int, q: int|
            0 <= p < q < input.responses@.len() && #[trigger] input.responses@[p].agent_id@
                == #[trigger] input.responses@[q].agent_id@) ==> validation_error(input) == Some(
            "Duplicate agent_id values found"@,
        ),
        input.responses@.len() < 2 ==> validation_error(input) == Some(
            "At least 2 agent responses required for consensus"@,
        ),
{
}

} // verus!

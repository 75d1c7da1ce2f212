//! The consensus strategies and the registry that names them.
use vstd::prelude::*;
use vstd::string::*;

pub mod prisoners_dilemma;
pub mod quorum;

use crate::models::{ConsensusInput, ConsensusResult};
use crate::strategies::prisoners_dilemma::PrisonersDilemmaStrategy;
use crate::strategies::quorum::QuorumStrategy;

verus! {

/// A way of reaching consensus among the responses.
pub trait ConsensusStrategy {
    /// The strategy's name.
    spec fn strategy_name(&self) -> Seq<char>;

    /// The inputs the strategy can evaluate.
    spec fn accepts(&self, input: ConsensusInput) -> bool;

    /// `result` is what the strategy makes of `input`.
    spec fn outcome(&self, input: ConsensusInput, threshold: u64, result: ConsensusResult) -> bool;

    fn name(&self) -> (name: &'static str)
        ensures
            name@ == self.strategy_name(),
    ;

    /// Evaluates the responses; `similarity_threshold` is in millionths.
    fn evaluate(&self, input: &ConsensusInput, similarity_threshold: u64) -> (result: ConsensusResult)
        requires
            self.accepts(*input),
        ensures
            self.outcome(*input, similarity_threshold, result),
    ;
}

/// A strategy chosen by name.
#[derive(Debug)]
pub enum Strategy {
    Quorum(QuorumStrategy),
    PrisonersDilemma(PrisonersDilemmaStrategy),
}

impl ConsensusStrategy for Strategy {
    open spec fn strategy_name(&self) -> Seq<char> {
        match self {
            Strategy::Quorum(s) => s.strategy_name(),
            Strategy::PrisonersDilemma(s) => s.strategy_name(),
        }
    }

    open spec fn accepts(&self, input: ConsensusInput) -> bool {
        match self {
            Strategy::Quorum(s) => s.accepts(input),
            Strategy::PrisonersDilemma(s) => s.accepts(input),
        }
    }

    open spec fn outcome(&self, input: ConsensusInput, threshold: u64, result: ConsensusResult) -> bool {
        match self {
            Strategy::Quorum(s) => s.outcome(input, threshold, result),
            Strategy::PrisonersDilemma(s) => s.outcome(input, threshold, result),
        }
    }

    fn name(&self) -> (name: &'static str) {
        match self {
            Strategy::Quorum(s) => s.name(),
            Strategy::PrisonersDilemma(s) => s.name(),
        }
    }

    fn evaluate(&self, input: &ConsensusInput, similarity_threshold: u64) -> (result: ConsensusResult) {
        match self {
            Strategy::Quorum(s) => s.evaluate(input, similarity_threshold),
            Strategy::PrisonersDilemma(s) => s.evaluate(input, similarity_threshold),
        }
    }
}

/// The names of the available strategies, in the order they are listed.
pub fn strategy_names() -> (names: Vec<&'static str>)
    ensures
        names@.len() == 2,
        names@[0]@ == "quorum"@,
        names@[1]@ == "prisoners_dilemma"@,
{
    let mut names: Vec<&'static str> = Vec::new();
    names.push("quorum");
    names.push("prisoners_dilemma");
    names
}

/// The message for a strategy name that names no strategy.
pub open spec fn unknown_strategy_message(name: Seq<char>) -> Seq<char> {
    "Unknown strategy: "@ + name + ". Available: quorum, prisoners_dilemma"@
}

/// Chooses a strategy by name.
pub fn get_strategy(name: &str) -> (r: Result<Strategy, String>)
    ensures
        match r {
            Ok(s) => {
                &&& name@ == "quorum"@ ==> s is Quorum
                &&& name@ == "prisoners_dilemma"@ ==> s is PrisonersDilemma
                &&& name@ == "quorum"@ || name@ == "prisoners_dilemma"@
            },
            Err(msg) => {
                &&& name@ != "quorum"@
                &&& name@ != "prisoners_dilemma"@
                &&& msg@ == unknown_strategy_message(name@)
            },
        },
{
    proof {
        reveal_strlit("quorum");
        reveal_strlit("prisoners_dilemma");
        assert("quorum"@.len() != "prisoners_dilemma"@.len());
    }
    let given = name.to_owned();
    let quorum = "quorum".to_owned();
    let dilemma = "prisoners_dilemma".to_owned();
    if given == quorum {
        Ok(Strategy::Quorum(QuorumStrategy))
    } else if given == dilemma {
        Ok(Strategy::PrisonersDilemma(PrisonersDilemmaStrategy))
    } else {
        let mut msg = "Unknown strategy: ".to_owned();
        msg.append(name);
        msg.append(". Available: quorum, prisoners_dilemma");
        proof {
            reveal_strlit("Unknown strategy: ");
            reveal_strlit(". Available: quorum, prisoners_dilemma");
        }
        Err(msg)
    }
}

} // verus!

use agent_consensus::models::{
    AgentResponse, ConsensusInput, ConsensusResult, Fraction, KeyedTable, ResultMetadata,
};
use agent_consensus::similarity::build_similarity_matrix;
use agent_consensus::strategies::prisoners_dilemma::{
    build_cluster, classify_cooperator_ids, payoff, penalize_defectors, PrisonersDilemmaStrategy,
    NUM_ROUNDS,
    PUNISHMENT, REWARD, SUCKER, TEMPTATION, WEIGHT_SCALE,
};
use agent_consensus::strategies::quorum::QuorumStrategy;
use agent_consensus::strategies::{get_strategy, strategy_names, ConsensusStrategy};

fn confidence(x: f64) -> u32 {
    (x * 1_000_000.0).round() as u32
}

fn threshold(x: f64) -> u64 {
    (x * 1_000_000.0).round() as u64
}

fn ratio(f: &Fraction) -> f64 {
    f.numerator as f64 / f.denominator as f64
}

fn make_input(responses: Vec<(&str, &str, f64)>) -> ConsensusInput {
    ConsensusInput {
        prompt: "test?".to_string(),
        responses: responses
            .into_iter()
            .map(|(id, content, c)| AgentResponse {
                agent_id: id.to_string(),
                content: content.to_string(),
                confidence: confidence(c),
            })
            .collect(),
    }
}

fn pd_groups(result: &ConsensusResult) -> (Vec<String>, Vec<String>) {
    match &result.metadata {
        ResultMetadata::PrisonersDilemma { cooperators, defectors, .. } => {
            (cooperators.clone(), defectors.clone())
        }
        _ => panic!("not a prisoner's dilemma result"),
    }
}

// ---------------------------------------------------------------------------
// Registry
// ---------------------------------------------------------------------------

#[test]
fn test_get_strategy_quorum() {
    let s = get_strategy("quorum").unwrap();
    assert_eq!(s.name(), "quorum");
}

#[test]
fn test_get_strategy_prisoners_dilemma() {
    let s = get_strategy("prisoners_dilemma").unwrap();
    assert_eq!(s.name(), "prisoners_dilemma");
}

#[test]
fn test_get_strategy_unknown() {
    let err = get_strategy("unknown").err().unwrap();
    assert!(err.contains("Unknown strategy"));
    assert_eq!(err, "Unknown strategy: unknown. Available: quorum, prisoners_dilemma");
}

#[test]
fn strategy_names_lists_both() {
    assert_eq!(strategy_names(), vec!["quorum", "prisoners_dilemma"]);
}

// ---------------------------------------------------------------------------
// Quorum
// ---------------------------------------------------------------------------

#[test]
fn test_unanimous_consensus() {
    let input = make_input(vec![
        ("a1", "Paris is the capital of France.", 0.95),
        ("a2", "The capital of France is Paris.", 0.90),
        ("a3", "Paris, capital of France.", 0.85),
    ]);
    let strategy = QuorumStrategy;
    let result = strategy.evaluate(&input, threshold(0.6));
    assert!(result.consensus_reached);
    let winner = result.winning_response.unwrap();
    assert_eq!(winner.supporting_agents.len(), 3);
    assert!((ratio(&winner.agreement_ratio) - 1.0).abs() < 0.001);
}

#[test]
fn test_majority_consensus() {
    let input = make_input(vec![
        ("a1", "The answer is 4.", 0.99),
        ("a2", "2 + 2 equals 4.", 0.95),
        ("a3", "The result is 5.", 0.60),
    ]);
    let strategy = QuorumStrategy;
    let result = strategy.evaluate(&input, threshold(0.3));
    assert!(result.consensus_reached);
    let winner = result.winning_response.unwrap();
    assert!(winner.supporting_agents.len() >= 2);
}

#[test]
fn test_no_consensus() {
    let input = make_input(vec![
        ("a1", "Python is the best language.", 0.80),
        ("a2", "Rust is superior to all others.", 0.85),
        ("a3", "JavaScript dominates the web.", 0.75),
        ("a4", "Go is the most practical choice.", 0.70),
    ]);
    let strategy = QuorumStrategy;
    let result = strategy.evaluate(&input, threshold(0.8));
    assert!(!result.consensus_reached);
    assert!(result.winning_response.is_none());
}

#[test]
fn test_two_responses_agree() {
    let input = make_input(vec![("a1", "yes", 0.9), ("a2", "yes", 0.8)]);
    let strategy = QuorumStrategy;
    let result = strategy.evaluate(&input, threshold(0.6));
    assert!(result.consensus_reached);
    let winner = result.winning_response.unwrap();
    assert_eq!(winner.supporting_agents.len(), 2);
}

#[test]
fn test_clusters_output() {
    let input = make_input(vec![
        ("a1", "hello world", 0.9),
        ("a2", "hello world", 0.8),
        ("a3", "goodbye moon", 0.7),
    ]);
    let strategy = QuorumStrategy;
    let result = strategy.evaluate(&input, threshold(0.6));
    assert!(!result.clusters.is_empty());
}

#[test]
fn test_metadata() {
    let input = make_input(vec![("a1", "yes", 0.9), ("a2", "no", 0.8)]);
    let strategy = QuorumStrategy;
    let result = strategy.evaluate(&input, threshold(0.6));
    match result.metadata {
        ResultMetadata::Quorum { total_responses, quorum_size, similarity_threshold } => {
            assert_eq!(total_responses, 2);
            assert_eq!(quorum_size, 2);
            assert_eq!(similarity_threshold, threshold(0.6));
        }
        _ => panic!("not a quorum result"),
    }
}

#[test]
fn quorum_clusters_are_ranked_and_reported() {
    let input = make_input(vec![
        ("a1", "goodbye moon", 0.7),
        ("a2", "hello world", 0.8),
        ("a3", "hello world", 0.9),
    ]);
    let result = QuorumStrategy.evaluate(&input, threshold(0.6));
    assert_eq!(result.strategy, "quorum");
    assert_eq!(result.prompt, "test?");
    assert_eq!(result.clusters.len(), 2);
    let top = &result.clusters[0];
    assert_eq!(top.members, vec!["a2".to_string(), "a3".to_string()]);
    assert_eq!(top.representative_content, "hello world");
    assert_eq!(top.similarity_scores.len(), 1);
    assert_eq!(ratio(&top.similarity_scores.get(&"a2:a3".to_string()).unwrap()), 1.0);
    assert_eq!(result.clusters[1].members, vec!["a1".to_string()]);
    let winner = result.winning_response.unwrap();
    assert_eq!(winner.content, "hello world");
    assert_eq!((winner.agreement_ratio.numerator, winner.agreement_ratio.denominator), (2, 3));
    // Mean confidence (0.8 + 0.9) / 2.
    assert!((ratio(&winner.confidence_score) - 0.85).abs() < 1e-9);
}

#[test]
fn quorum_ties_go_to_higher_mean_confidence_then_input_order() {
    let input = make_input(vec![
        ("a1", "alpha", 0.5),
        ("a2", "omega", 0.9),
        ("a3", "delta", 0.9),
    ]);
    let result = QuorumStrategy.evaluate(&input, threshold(0.9));
    assert!(!result.consensus_reached);
    let order: Vec<String> = result.clusters.iter().map(|c| c.members[0].clone()).collect();
    assert_eq!(order, vec!["a2".to_string(), "a3".to_string(), "a1".to_string()]);
}

#[test]
fn quorum_representative_is_last_of_equally_confident() {
    let input = make_input(vec![("a1", "same", 0.7), ("a2", "Same", 0.7), ("a3", "other", 0.2)]);
    let result = QuorumStrategy.evaluate(&input, threshold(0.6));
    assert!(result.consensus_reached);
    assert_eq!(result.clusters[0].representative_content, "Same");
}

#[test]
fn quorum_single_linkage_chains_clusters() {
    // "abcd" ~ "abcx" ~ "abxx"  (each neighbour shares 3 of 4), while the
    // ends share only 2 of 4: single linkage still puts all three together.
    let input = make_input(vec![
        ("a1", "abcd", 0.5),
        ("a2", "zzzz", 0.5),
        ("a3", "abxx", 0.5),
        ("a4", "abcx", 0.5),
    ]);
    let result = QuorumStrategy.evaluate(&input, threshold(0.7));
    assert!(result.consensus_reached);
    let winner = result.winning_response.unwrap();
    assert_eq!(winner.supporting_agents, vec!["a1".to_string(), "a4".to_string(), "a3".to_string()]);
}

// ---------------------------------------------------------------------------
// Prisoner's dilemma
// ---------------------------------------------------------------------------

#[test]
fn test_cooperators_reach_consensus() {
    let input = make_input(vec![
        ("a1", "Paris is the capital.", 0.95),
        ("a2", "The capital is Paris.", 0.90),
        ("a3", "Paris, the capital.", 0.85),
    ]);
    let strategy = PrisonersDilemmaStrategy;
    let result = strategy.evaluate(&input, threshold(0.5));
    assert!(result.consensus_reached);
    let winner = result.winning_response.unwrap();
    assert!(winner.supporting_agents.len() >= 2);
}

#[test]
fn test_defector_detected() {
    let input = make_input(vec![
        ("a1", "The answer is 4.", 0.99),
        ("a2", "The answer is 4.", 0.95),
        ("a3", "Something completely different and unrelated.", 0.60),
    ]);
    let strategy = PrisonersDilemmaStrategy;
    let result = strategy.evaluate(&input, threshold(0.6));
    assert!(result.consensus_reached);
    let (_, defectors) = pd_groups(&result);
    assert!(!defectors.is_empty());
}

#[test]
fn test_all_disagree() {
    let input = make_input(vec![("a1", "apples", 0.8), ("a2", "oranges", 0.8)]);
    let strategy = PrisonersDilemmaStrategy;
    let result = strategy.evaluate(&input, threshold(0.8));
    assert!(!result.consensus_reached);
}

#[test]
fn test_payoff_values() {
    assert_eq!(payoff(true, true), (REWARD, REWARD));
    assert_eq!(payoff(true, false), (SUCKER, TEMPTATION));
    assert_eq!(payoff(false, true), (TEMPTATION, SUCKER));
    assert_eq!(payoff(false, false), (PUNISHMENT, PUNISHMENT));
}

#[test]
fn test_metadata_fields() {
    let input = make_input(vec![("a1", "yes", 0.9), ("a2", "yes", 0.8), ("a3", "no", 0.7)]);
    let strategy = PrisonersDilemmaStrategy;
    let result = strategy.evaluate(&input, threshold(0.5));
    match &result.metadata {
        ResultMetadata::PrisonersDilemma {
            total_responses,
            num_rounds,
            final_payoffs,
            cooperators,
            defectors,
            ..
        } => {
            assert_eq!(*total_responses, 3);
            assert_eq!(*num_rounds, NUM_ROUNDS);
            assert_eq!(final_payoffs.len(), 3);
            assert_eq!(cooperators.len() + defectors.len(), 3);
        }
        _ => panic!("not a prisoner's dilemma result"),
    }
}

#[test]
fn test_penalty_reduces_defector_influence() {
    let input = make_input(vec![
        ("a1", "hello world", 0.9),
        ("a2", "hello world", 0.9),
        ("a3", "hello world", 0.9),
    ]);
    let strategy = PrisonersDilemmaStrategy;
    let result = strategy.evaluate(&input, threshold(0.1));
    assert!(result.consensus_reached);
    let (cooperators, _) = pd_groups(&result);
    assert_eq!(cooperators.len(), 3);
}

#[test]
fn test_build_cluster_empty() {
    let responses: Vec<AgentResponse> = vec![];
    let matrix = build_similarity_matrix(&responses);
    let agents: Vec<usize> = vec![];
    assert!(build_cluster(&agents, &responses, &matrix).is_none());
}

#[test]
fn test_classify_single_agent() {
    let responses = make_input(vec![("a1", "hello", 1.0)]).responses;
    let matrix = build_similarity_matrix(&responses);
    let mut eff: KeyedTable<String, u128> = KeyedTable::new();
    eff.insert("a1".to_string(), confidence(1.0) as u128 * WEIGHT_SCALE);
    let ids = classify_cooperator_ids(&responses, &matrix, &eff, threshold(0.5));
    assert!(ids.get(&"a1".to_string()).is_some());
}

#[test]
fn dilemma_payoffs_of_unanimous_agents() {
    // Three cooperators: each plays two games a round at 3 points each.
    let input = make_input(vec![("a1", "yes", 0.9), ("a2", "yes", 0.8), ("a3", "yes", 0.7)]);
    let result = PrisonersDilemmaStrategy.evaluate(&input, threshold(0.5));
    match &result.metadata {
        ResultMetadata::PrisonersDilemma { final_payoffs, .. } => {
            for id in ["a1", "a2", "a3"] {
                assert_eq!(final_payoffs.get(&id.to_string()), Some(18));
            }
        }
        _ => panic!("not a prisoner's dilemma result"),
    }
    let winner = result.winning_response.unwrap();
    // Equal payoffs: the last cooperator wins; 18 of a possible 5 * 2 * 3.
    assert_eq!(winner.content, "yes");
    assert_eq!(winner.supporting_agents, vec!["a1".to_string(), "a2".to_string(), "a3".to_string()]);
    assert_eq!((winner.confidence_score.numerator, winner.confidence_score.denominator), (18, 30));
    assert_eq!(result.clusters.len(), 1);
}

#[test]
fn dilemma_defector_earns_temptation() {
    // a1 and a2 agree, a3 is unrelated: a3 defects every round and gets 5
    // from each cooperator; the cooperators get 3 from each other and 0 from a3.
    let input = make_input(vec![
        ("a1", "The answer is 4.", 0.99),
        ("a2", "The answer is 4.", 0.95),
        ("a3", "zzzzzzzzzzzzzzzzzzzzzzzzzz", 0.60),
    ]);
    let result = PrisonersDilemmaStrategy.evaluate(&input, threshold(0.6));
    let (cooperators, defectors) = pd_groups(&result);
    assert_eq!(cooperators, vec!["a1".to_string(), "a2".to_string()]);
    assert_eq!(defectors, vec!["a3".to_string()]);
    match &result.metadata {
        ResultMetadata::PrisonersDilemma { final_payoffs, .. } => {
            assert_eq!(final_payoffs.get(&"a1".to_string()), Some(9));
            assert_eq!(final_payoffs.get(&"a2".to_string()), Some(9));
            assert_eq!(final_payoffs.get(&"a3".to_string()), Some(30));
        }
        _ => panic!("not a prisoner's dilemma result"),
    }
    assert_eq!(result.clusters.len(), 2);
    assert_eq!(result.clusters[1].members, vec!["a3".to_string()]);
}

#[test]
fn dilemma_alone_agent_cooperates_but_no_consensus() {
    let input = make_input(vec![("a1", "hello", 1.0)]);
    let result = PrisonersDilemmaStrategy.evaluate(&input, threshold(0.5));
    let (cooperators, defectors) = pd_groups(&result);
    assert_eq!(cooperators, vec!["a1".to_string()]);
    assert!(defectors.is_empty());
    assert!(!result.consensus_reached);
}

#[test]
fn defectors_lose_a_fifth_of_their_weight() {
    let responses = make_input(vec![("a1", "x", 1.0), ("a2", "y", 1.0), ("a3", "z", 1.0)]).responses;
    let mut coop: KeyedTable<String, bool> = KeyedTable::new();
    coop.insert("a1".to_string(), true);
    let mut weights: KeyedTable<String, u128> = KeyedTable::new();
    weights.insert("a1".to_string(), 1000);
    weights.insert("a2".to_string(), 1000);
    weights.insert("a3".to_string(), 7);
    penalize_defectors(&responses, &coop, &mut weights);
    assert_eq!(weights.get(&"a1".to_string()), Some(1000));
    assert_eq!(weights.get(&"a2".to_string()), Some(800));
    assert_eq!(weights.get(&"a3".to_string()), Some(5));
}

#[test]
fn quorum_links_only_above_the_threshold() {
    // "ab" against "ac": 2 * 1 / 4, exactly one half.
    let input = make_input(vec![("a1", "ab", 0.9), ("a2", "ac", 0.8)]);
    let at = QuorumStrategy.evaluate(&input, threshold(0.5));
    assert!(!at.consensus_reached);
    assert_eq!(at.clusters.len(), 2);
    let below = QuorumStrategy.evaluate(&input, 499_999);
    assert!(below.consensus_reached);
    assert_eq!(below.clusters.len(), 1);
    assert_eq!(below.clusters[0].members, vec!["a1".to_string(), "a2".to_string()]);
    let f = below.clusters[0].similarity_scores.get(&"a1:a2".to_string()).unwrap();
    assert_eq!((f.numerator, f.denominator), (2, 4));
}

fn exact_mean_responses() -> Vec<AgentResponse> {
    // x against y: 2 * 3 / 9; x against z: 2 * 5 / 12; y against z: 2 * 3 / 9.
    make_input(vec![("x", "abcdef", 1.0), ("y", "abc", 1.0), ("z", "abcdeg", 1.0)]).responses
}

fn cooperator_ids(responses: &[AgentResponse], t: u64) -> Vec<String> {
    let matrix = build_similarity_matrix(responses);
    let mut eff: KeyedTable<String, u128> = KeyedTable::new();
    for r in responses {
        eff.insert(r.agent_id.clone(), r.confidence as u128 * WEIGHT_SCALE);
    }
    let coop = classify_cooperator_ids(responses, &matrix, &eff, t);
    let mut ids: Vec<String> = coop.entries().iter().map(|(k, _)| k.clone()).collect();
    ids.sort();
    ids
}

#[test]
fn cooperation_uses_the_exact_mean() {
    // x's mean similarity is (2/3 + 5/6) / 2 = 3/4 exactly: x cooperates at 0.75.
    let responses = exact_mean_responses();
    assert_eq!(cooperator_ids(&responses, threshold(0.75)), vec!["x".to_string(), "z".to_string()]);
    let input = ConsensusInput { prompt: "p".to_string(), responses };
    let result = PrisonersDilemmaStrategy.evaluate(&input, threshold(0.75));
    let (cooperators, defectors) = pd_groups(&result);
    assert_eq!(cooperators, vec!["x".to_string(), "z".to_string()]);
    assert_eq!(defectors, vec!["y".to_string()]);
    assert!(result.consensus_reached);
}

#[test]
fn raising_the_threshold_only_removes_cooperators() {
    let responses = exact_mean_responses();
    let low = cooperator_ids(&responses, threshold(0.5));
    let mid = cooperator_ids(&responses, threshold(0.75));
    let high = cooperator_ids(&responses, threshold(0.8));
    assert_eq!(low, vec!["x".to_string(), "y".to_string(), "z".to_string()]);
    assert!(mid.iter().all(|id| low.contains(id)));
    assert!(high.iter().all(|id| mid.contains(id)));
    assert!(high.is_empty());
}

use agent_consensus::engine::ConsensusEngine;
use agent_consensus::models::{default_confidence, AgentResponse, ConsensusInput, CONFIDENCE_SCALE};

fn threshold(x: f64) -> u64 {
    (x * 1_000_000.0).round() as u64
}

fn make_response(id: &str, content: &str, confidence: f64) -> AgentResponse {
    AgentResponse {
        agent_id: id.to_string(),
        content: content.to_string(),
        confidence: (confidence * 1_000_000.0).round() as u32,
    }
}

#[test]
fn test_engine_quorum() {
    let engine = ConsensusEngine::new("quorum", threshold(0.6)).unwrap();
    let input = ConsensusInput {
        prompt: "test?".to_string(),
        responses: vec![make_response("a1", "yes", 0.9), make_response("a2", "yes", 0.8)],
    };
    let result = engine.run(&input).unwrap();
    assert_eq!(result.strategy, "quorum");
}

#[test]
fn test_engine_prisoners_dilemma() {
    let engine = ConsensusEngine::new("prisoners_dilemma", threshold(0.5)).unwrap();
    let input = ConsensusInput {
        prompt: "test?".to_string(),
        responses: vec![make_response("a1", "yes", 0.9), make_response("a2", "yes", 0.8)],
    };
    let result = engine.run(&input).unwrap();
    assert_eq!(result.strategy, "prisoners_dilemma");
}

#[test]
fn test_engine_invalid_strategy() {
    let err = ConsensusEngine::new("invalid", threshold(0.6)).err().unwrap();
    assert!(err.contains("Unknown strategy"));
}

#[test]
fn test_engine_too_few_responses() {
    let engine = ConsensusEngine::new("quorum", threshold(0.6)).unwrap();
    let input = ConsensusInput {
        prompt: "test?".to_string(),
        responses: vec![make_response("a1", "yes", 0.9)],
    };
    let err = engine.run(&input).unwrap_err();
    assert!(err.contains("At least 2"));
}

#[test]
fn test_engine_duplicate_ids() {
    let engine = ConsensusEngine::new("quorum", threshold(0.6)).unwrap();
    let input = ConsensusInput {
        prompt: "test?".to_string(),
        responses: vec![make_response("a1", "yes", 0.9), make_response("a1", "no", 0.8)],
    };
    let err = engine.run(&input).unwrap_err();
    assert!(err.contains("Duplicate"));
}

#[test]
fn engine_errors_are_exact() {
    let engine = ConsensusEngine::new("prisoners_dilemma", threshold(0.6)).unwrap();
    let empty = ConsensusInput { prompt: "p".to_string(), responses: vec![] };
    assert_eq!(
        engine.run(&empty).unwrap_err(),
        "At least 2 agent responses required for consensus"
    );
    let dup = ConsensusInput {
        prompt: "p".to_string(),
        responses: vec![
            make_response("a", "x", 0.5),
            make_response("b", "y", 0.5),
            make_response("a", "z", 0.5),
        ],
    };
    assert_eq!(engine.run(&dup).unwrap_err(), "Duplicate agent_id values found");
    assert_eq!(
        ConsensusEngine::new("Quorum", 0).err().unwrap(),
        "Unknown strategy: Quorum. Available: quorum, prisoners_dilemma"
    );
}

#[test]
fn default_confidence_is_one() {
    assert_eq!(default_confidence(), CONFIDENCE_SCALE);
    assert_eq!(CONFIDENCE_SCALE, 1_000_000);
}

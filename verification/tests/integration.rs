use agent_consensus::engine::ConsensusEngine;
use agent_consensus::models::{AgentResponse, ConsensusInput, ConsensusResult, ResultMetadata};

fn threshold(x: f64) -> u64 {
    (x * 1_000_000.0).round() as u64
}

fn make_responses(n: usize, content_fn: impl Fn(usize) -> (String, f64)) -> Vec<AgentResponse> {
    (0..n)
        .map(|i| {
            let (content, confidence) = content_fn(i);
            AgentResponse {
                agent_id: format!("agent-{}", i + 1),
                content,
                confidence: (confidence * 1_000_000.0).round() as u32,
            }
        })
        .collect()
}

fn agreement(result: &ConsensusResult) -> f64 {
    let w = result.winning_response.as_ref().unwrap();
    w.agreement_ratio.numerator as f64 / w.agreement_ratio.denominator as f64
}

#[test]
fn two_agents_programmatic_identical() {
    let responses = make_responses(2, |_i| ("The answer is 42.".to_string(), 0.95));
    let input = ConsensusInput {
        prompt: "What is the meaning of life?".to_string(),
        responses,
    };
    let engine = ConsensusEngine::new("quorum", threshold(0.6)).unwrap();
    let result = engine.run(&input).unwrap();

    assert!(result.consensus_reached);
    assert_eq!(agreement(&result), 1.0);
}

#[test]
fn five_agents_programmatic_supermajority() {
    let responses = make_responses(5, |i| {
        if i < 4 {
            (format!("Earth orbits the Sun. Agent {i} agrees."), 0.9)
        } else {
            ("The Sun orbits the Earth.".to_string(), 0.5)
        }
    });
    let input = ConsensusInput {
        prompt: "What orbits what?".to_string(),
        responses,
    };
    let engine = ConsensusEngine::new("quorum", threshold(0.5)).unwrap();
    let result = engine.run(&input).unwrap();

    assert!(result.consensus_reached);
    let winner = result.winning_response.unwrap();
    assert!(winner.supporting_agents.len() >= 3);
}

#[test]
fn ten_agents_programmatic_all_agree() {
    let responses = make_responses(10, |i| {
        (format!("Water is H2O, agent {i} confirms."), 0.95 - (i as f64 * 0.01))
    });
    let input = ConsensusInput {
        prompt: "What is water?".to_string(),
        responses,
    };

    let engine = ConsensusEngine::new("quorum", threshold(0.5)).unwrap();
    let result = engine.run(&input).unwrap();
    assert!(result.consensus_reached);
    assert_eq!(agreement(&result), 1.0);
    let winner = result.winning_response.unwrap();
    assert_eq!(winner.supporting_agents.len(), 10);
}

#[test]
fn ten_agents_programmatic_all_agree_prisoners_dilemma() {
    let responses = make_responses(10, |i| {
        (format!("Water is H2O, agent {i} confirms."), 0.95 - (i as f64 * 0.01))
    });
    let input = ConsensusInput {
        prompt: "What is water?".to_string(),
        responses,
    };

    let engine = ConsensusEngine::new("prisoners_dilemma", threshold(0.5)).unwrap();
    let result = engine.run(&input).unwrap();
    assert!(result.consensus_reached);
    match &result.metadata {
        ResultMetadata::PrisonersDilemma { cooperators, .. } => assert_eq!(cooperators.len(), 10),
        _ => panic!("not a prisoner's dilemma result"),
    }
}

#[test]
fn ten_agents_programmatic_all_different() {
    let responses = make_responses(10, |i| {
        let unique_answers = [
            "Alpha", "Bravo", "Charlie", "Delta", "Echo", "Foxtrot", "Golf", "Hotel", "India",
            "Juliet",
        ];
        (unique_answers[i].to_string(), 0.8)
    });
    let input = ConsensusInput {
        prompt: "Name a word.".to_string(),
        responses,
    };

    let engine = ConsensusEngine::new("quorum", threshold(0.6)).unwrap();
    let result = engine.run(&input).unwrap();
    assert!(!result.consensus_reached);
    assert!(result.winning_response.is_none());
}

fn validate_result_shape(result: &ConsensusResult) {
    assert!(!result.strategy.is_empty());
    assert!(!result.prompt.is_empty());
    assert!(!result.clusters.is_empty());
    assert_eq!(result.consensus_reached, result.winning_response.is_some());
    if let Some(winner) = &result.winning_response {
        let a = winner.agreement_ratio.numerator as f64 / winner.agreement_ratio.denominator as f64;
        let c = winner.confidence_score.numerator as f64 / winner.confidence_score.denominator as f64;
        assert!(!winner.content.is_empty());
        assert!(!winner.supporting_agents.is_empty());
        assert!(a > 0.0 && a <= 1.0);
        assert!((0.0..=1.0).contains(&c));
    }
    for cluster in &result.clusters {
        assert!(!cluster.members.is_empty());
        assert!(!cluster.representative_content.is_empty());
    }
}

#[test]
fn split_ten_agents_reach_no_quorum() {
    let responses = make_responses(10, |i| {
        if i < 5 {
            ("The meeting is on Monday.".to_string(), 0.8)
        } else {
            ("zzzz qqqq xxxx".to_string(), 0.8)
        }
    });
    let input = ConsensusInput { prompt: "When?".to_string(), responses };
    let quorum = ConsensusEngine::new("quorum", threshold(0.6)).unwrap().run(&input).unwrap();
    validate_result_shape(&quorum);
    assert!(!quorum.consensus_reached);
    assert_eq!(quorum.clusters.len(), 2);
    let dilemma = ConsensusEngine::new("prisoners_dilemma", threshold(0.6)).unwrap().run(&input).unwrap();
    validate_result_shape(&dilemma);
    match &dilemma.metadata {
        ResultMetadata::PrisonersDilemma { total_responses, cooperators, defectors, .. } => {
            assert_eq!(*total_responses, 10);
            assert_eq!(cooperators.len() + defectors.len(), 10);
        }
        _ => panic!("not a prisoner's dilemma result"),
    }
}

#[test]
fn majority_of_five_wins_with_shape() {
    let responses = make_responses(5, |i| {
        if i < 3 {
            ("Yes, water is wet.".to_string(), 0.9)
        } else if i == 3 {
            ("No, it is not.".to_string(), 0.7)
        } else {
            ("Maybe.".to_string(), 0.5)
        }
    });
    let input = ConsensusInput { prompt: "Is water wet?".to_string(), responses };
    let result = ConsensusEngine::new("quorum", threshold(0.6)).unwrap().run(&input).unwrap();
    validate_result_shape(&result);
    assert!(result.consensus_reached);
    assert!(result.winning_response.as_ref().unwrap().content.to_lowercase().contains("wet"));
    match result.metadata {
        ResultMetadata::Quorum { quorum_size, total_responses, .. } => {
            assert_eq!(quorum_size, 3);
            assert_eq!(total_responses, 5);
        }
        _ => panic!("not a quorum result"),
    }
}

use agent_consensus::models::{AgentResponse, Fraction, KeyedTable, CONFIDENCE_SCALE};
use agent_consensus::similarity::{
    build_similarity_matrix, count_matching_chars, exceeds_threshold, get_similarity, lowered_similarity,
    text_similarity, trim_chars, SimilarityMatrix,
};

fn ratio(f: &Fraction) -> f64 {
    f.numerator as f64 / f.denominator as f64
}

fn parts(f: &Fraction) -> (u128, u128) {
    (f.numerator, f.denominator)
}

fn response(id: &str, content: &str) -> AgentResponse {
    AgentResponse {
        agent_id: id.to_string(),
        content: content.to_string(),
        confidence: CONFIDENCE_SCALE,
    }
}

#[test]
fn test_identical_strings() {
    assert_eq!(ratio(&text_similarity("hello", "hello")), 1.0);
}

#[test]
fn test_empty_strings() {
    assert_eq!(ratio(&text_similarity("", "")), 1.0);
}

#[test]
fn test_one_empty() {
    assert_eq!(ratio(&text_similarity("hello", "")), 0.0);
    assert_eq!(ratio(&text_similarity("", "hello")), 0.0);
}

#[test]
fn test_case_insensitive() {
    assert_eq!(ratio(&text_similarity("Hello", "hello")), 1.0);
}

#[test]
fn test_whitespace_trimmed() {
    assert_eq!(ratio(&text_similarity("  hello  ", "hello")), 1.0);
}

#[test]
fn test_completely_different() {
    let s = ratio(&text_similarity("abc", "xyz"));
    assert_eq!(s, 0.0);
}

#[test]
fn test_partial_similarity() {
    let s = ratio(&text_similarity(
        "The capital of France is Paris.",
        "Paris is the capital of France.",
    ));
    assert!(s > 0.5, "Expected > 0.5, got {s}");
}

#[test]
fn test_high_similarity() {
    let s = ratio(&text_similarity("Yes, water is wet.", "Yes, water is indeed wet."));
    assert!(s > 0.7, "Expected > 0.7, got {s}");
}

#[test]
fn test_build_similarity_matrix() {
    let responses = vec![
        response("a1", "hello world"),
        response("a2", "hello world"),
        response("a3", "goodbye"),
    ];
    let matrix = build_similarity_matrix(&responses);
    assert_eq!(matrix.len(), 3);
    assert_eq!(ratio(&matrix.get(&("a1".to_string(), "a2".to_string())).unwrap()), 1.0);
    assert!(ratio(&matrix.get(&("a1".to_string(), "a3".to_string())).unwrap()) < 0.5);
}

#[test]
fn test_get_similarity_ordering() {
    let mut matrix: SimilarityMatrix = KeyedTable::new();
    matrix.insert(("a1".to_string(), "a2".to_string()), Fraction { numerator: 4, denominator: 5 });

    assert_eq!(ratio(&get_similarity(&matrix, "a1", "a2")), 0.8);
    assert_eq!(ratio(&get_similarity(&matrix, "a2", "a1")), 0.8);
    assert_eq!(ratio(&get_similarity(&matrix, "a1", "a1")), 1.0);
    assert_eq!(ratio(&get_similarity(&matrix, "a1", "a3")), 0.0);
}

#[test]
fn lcs_counts_characters_in_order() {
    let a: Vec<char> = "abcbdab".chars().collect();
    let b: Vec<char> = "bdcaba".chars().collect();
    assert_eq!(count_matching_chars(&a, &b), 4);
    assert_eq!(count_matching_chars(&b, &a), 4);
    assert_eq!(count_matching_chars(&a, &a), 7);
    assert_eq!(count_matching_chars(&a, &[]), 0);
}

#[test]
fn similarity_ratio_is_exact() {
    // "abc" and "abd" share "ab": 2 * 2 / 6.
    let f = text_similarity("abc", "abd");
    assert_eq!((f.numerator, f.denominator), (4, 6));
}

#[test]
fn similarity_is_symmetric() {
    let f = text_similarity("The answer is 4.", "2 + 2 equals 4.");
    let g = text_similarity("2 + 2 equals 4.", "The answer is 4.");
    assert_eq!((f.numerator, f.denominator), (g.numerator, g.denominator));
}

#[test]
fn trimming_removes_unicode_white_space() {
    let s: Vec<char> = "\u{3000}\t hi there \u{a0}\n".chars().collect();
    let t = trim_chars(&s);
    assert_eq!(t.iter().collect::<String>(), "hi there");
    let empty: Vec<char> = " \u{2028} ".chars().collect();
    assert!(trim_chars(&empty).is_empty());
}

#[test]
fn matrix_keys_are_ordered_pairs() {
    let responses = vec![response("b", "same"), response("a", "same")];
    let matrix = build_similarity_matrix(&responses);
    assert_eq!(ratio(&matrix.get(&("a".to_string(), "b".to_string())).unwrap()), 1.0);
    assert!(matrix.get(&("b".to_string(), "a".to_string())).is_none());
}

#[test]
fn matrix_keeps_exact_ratios() {
    // "ab" against "abc": 2 * 2 / 5; "a" against "abc": 2 / 4; "a" against "ab": 2 / 3.
    let responses = vec![response("x", "ab"), response("y", "abc"), response("z", "a")];
    let matrix = build_similarity_matrix(&responses);
    assert_eq!(parts(&get_similarity(&matrix, "x", "y")), (4, 5));
    assert_eq!(parts(&get_similarity(&matrix, "z", "y")), (2, 4));
    assert_eq!(parts(&get_similarity(&matrix, "x", "z")), (2, 3));
}

#[test]
fn unknown_agents_have_no_similarity() {
    let responses = vec![response("x", "ab"), response("y", "ab")];
    let matrix = build_similarity_matrix(&responses);
    assert_eq!(ratio(&get_similarity(&matrix, "x", "q")), 0.0);
    assert_eq!(ratio(&get_similarity(&matrix, "q", "y")), 0.0);
    assert_eq!(ratio(&get_similarity(&matrix, "q", "r")), 0.0);
    assert_eq!(ratio(&get_similarity(&matrix, "q", "q")), 1.0);
}

#[test]
fn lowered_similarity_trims_but_keeps_case() {
    assert_eq!(parts(&lowered_similarity("  hello ", "hello")), (10, 10));
    assert_eq!(parts(&lowered_similarity("Hello", "hello")), (8, 10));
    assert_eq!(parts(&lowered_similarity(" ", "")), (1, 1));
    assert_eq!(parts(&lowered_similarity("a", "  ")), (0, 1));
}

#[test]
fn lowercasing_happens_before_comparison() {
    // Would be 8 / 10 without lower-casing.
    assert_eq!(parts(&text_similarity("HELLO", "hello")), (10, 10));
    assert_eq!(parts(&text_similarity("ABC", "abd")), (4, 6));
}

#[test]
fn threshold_is_exceeded_strictly() {
    let half = Fraction { numerator: 2, denominator: 4 };
    assert!(!exceeds_threshold(&half, 500_000));
    assert!(exceeds_threshold(&half, 499_999));
    let third = Fraction { numerator: 1, denominator: 3 };
    assert!(exceeds_threshold(&third, 333_333));
    assert!(!exceeds_threshold(&third, 333_334));
    let one = Fraction { numerator: 7, denominator: 7 };
    assert!(!exceeds_threshold(&one, 1_000_000));
    assert!(exceeds_threshold(&one, 999_999));
}

#[test]
fn appending_a_character_adds_at_most_one_match() {
    let cases = [("abcbdab", "bdcaba"), ("", "abc"), ("xyz", "zyx"), ("aaaa", "aa")];
    for (a, b) in cases {
        let av: Vec<char> = a.chars().collect();
        let bv: Vec<char> = b.chars().collect();
        let base = count_matching_chars(&av, &bv);
        for c in ['a', 'b', 'z', 'q'] {
            let mut longer = av.clone();
            longer.push(c);
            let n = count_matching_chars(&longer, &bv);
            assert!(base <= n && n <= base + 1, "{a} + {c} against {b}");
        }
    }
}

#[test]
fn keyed_table_replaces_values() {
    let mut t: KeyedTable<String, u64> = KeyedTable::new();
    t.insert("k".to_string(), 1);
    t.insert("j".to_string(), 2);
    t.insert("k".to_string(), 3);
    assert_eq!(t.len(), 2);
    assert_eq!(t.get(&"k".to_string()), Some(3));
    assert_eq!(t.get(&"j".to_string()), Some(2));
    assert_eq!(t.get(&"x".to_string()), None);
    assert_eq!(t.entries()[0].0, "k");
}

#[test]
fn white_space_matches_char_is_whitespace() {
    for code in 0u32..0x11_0000 {
        if let Some(c) = char::from_u32(code) {
            let v = vec![c];
            assert_eq!(trim_chars(&v).is_empty(), c.is_whitespace(), "code point {code:#x}");
        }
    }
}

#[test]
fn trimming_agrees_with_str_trim() {
    for s in ["  a b  ", "\u{85}x\u{2009}", "\t\n", "abc", "\u{200b}z\u{200b}", ""] {
        let v: Vec<char> = s.chars().collect();
        assert_eq!(trim_chars(&v).iter().collect::<String>(), s.trim());
    }
}

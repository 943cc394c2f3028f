use optimacore::rollback::Verifier;

#[test]
fn trimming_cuts_at_the_first_indicator() {
    let v = Verifier::new();
    assert_eq!(
        v.trim_reflection("Explain X. Think about it. More text."),
        "Explain X."
    );
}

#[test]
fn trimming_applies_indicators_in_sequence() {
    let v = Verifier::new();
    assert_eq!(
        v.trim_reflection("Explain transformer attention. Think about it. Actually, think again."),
        "Explain transformer attention."
    );
}

#[test]
fn a_prompt_without_indicators_is_only_whitespace_trimmed() {
    let v = Verifier::new();
    assert_eq!(v.trim_reflection("  What is the capital of France?  "), "What is the capital of France?");
}

#[test]
fn empty_knowledge_passes_output_through_whatever_the_oracle_says() {
    let v = Verifier::new();
    let none: Vec<String> = Vec::new();
    assert_eq!(v.verify_and_rollback("the output", &none, Some(99)), "the output");
    assert_eq!(v.verify_and_rollback("the output", &none, None), "the output");
}

#[test]
fn a_score_above_the_threshold_triggers_rollback_with_the_score() {
    let v = Verifier::new();
    let knowledge = vec!["a fact".to_string()];
    let out = v.verify_and_rollback("contradicted output", &knowledge, Some(80));
    assert!(out.starts_with("Rollback triggered"));
    assert!(out.contains("0.80"));
    assert!(out.ends_with("Original contradiction score: 0.80"));
}

#[test]
fn a_score_at_the_threshold_passes_through() {
    let v = Verifier::new();
    let knowledge = vec!["a fact".to_string()];
    assert_eq!(
        v.verify_and_rollback("fine output", &knowledge, Some(70)),
        "fine output"
    );
}

#[test]
fn an_unavailable_oracle_fails_open() {
    let v = Verifier::new();
    let knowledge = vec!["a fact".to_string()];
    assert_eq!(v.verify_and_rollback("fine output", &knowledge, None), "fine output");
}

#[test]
fn rollback_renders_scores_above_one() {
    let v = Verifier::new();
    let knowledge = vec!["a fact".to_string()];
    let out = v.verify_and_rollback("output", &knowledge, Some(123));
    assert!(out.contains("1.23"));
}

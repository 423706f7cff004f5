use embed_core::errors::EmbedError;
use embed_core::precedence::{default_output_precedence, OutputKey, OutputPrecedence};

fn precedence(keys: Vec<OutputKey>) -> OutputPrecedence {
    OutputPrecedence::new(keys).expect("non-empty precedence")
}

fn names(list: &[&str]) -> Vec<String> {
    list.iter().map(|s| s.to_string()).collect()
}

#[test]
fn by_name_fallback_is_chosen() {
    // Precedence [OnlyOne, ByName("text_embeds"), ByName("last_hidden_state")]
    // against a batch exposing only "last_hidden_state" must choose it...
    let p = precedence(vec![
        OutputKey::OnlyOne,
        OutputKey::ByName("text_embeds".to_string()),
        OutputKey::ByName("last_hidden_state".to_string()),
    ]);
    // ... here via the OnlyOne rule, which sees a single output.
    let avail = names(&["last_hidden_state"]);
    assert_eq!(p.select(&avail), Ok(0));
    // With a second, unrelated output present, only the ByName rule fires,
    // and the same output is still the one chosen.
    let avail = names(&["attention_mask", "last_hidden_state"]);
    assert_eq!(p.select(&avail), Ok(1));
}

#[test]
fn by_name_skips_earlier_non_matching_keys() {
    let p = precedence(vec![
        OutputKey::ByName("text_embeds".to_string()),
        OutputKey::ByName("last_hidden_state".to_string()),
    ]);
    let avail = names(&["last_hidden_state", "pooler_output"]);
    assert_eq!(p.select(&avail), Ok(0));
}

#[test]
fn only_one_matches_any_single_output() {
    // A batch exposing exactly one output named "foo" (no ByName key for it)
    // is selected via the OnlyOne rule.
    let p = precedence(vec![
        OutputKey::OnlyOne,
        OutputKey::ByName("text_embeds".to_string()),
    ]);
    let avail = names(&["foo"]);
    assert_eq!(p.select(&avail), Ok(0));
}

#[test]
fn no_match_is_selection_failure() {
    // Two outputs, neither matching any ByName key, and OnlyOne impossible:
    // selection must fail.
    let p = precedence(vec![
        OutputKey::OnlyOne,
        OutputKey::ByName("text_embeds".to_string()),
    ]);
    let avail = names(&["foo", "bar"]);
    assert_eq!(p.select(&avail), Err(EmbedError::SelectionFailure));
}

#[test]
fn only_one_does_not_match_two_outputs() {
    let p = precedence(vec![OutputKey::OnlyOne]);
    let avail = names(&["a", "b"]);
    assert_eq!(p.select(&avail), Err(EmbedError::SelectionFailure));
}

#[test]
fn first_match_wins_in_list_order() {
    let p = precedence(vec![
        OutputKey::ByName("sentence_embedding".to_string()),
        OutputKey::ByName("text_embeds".to_string()),
    ]);
    let avail = names(&["text_embeds", "sentence_embedding"]);
    // "sentence_embedding" is the first key in the list, so it wins even
    // though "text_embeds" comes first among the outputs.
    assert_eq!(p.select(&avail), Ok(1));
}

#[test]
fn empty_precedence_is_rejected() {
    assert!(OutputPrecedence::new(Vec::new()).is_none());
}

#[test]
fn default_precedence_shape() {
    let p = default_output_precedence();
    assert_eq!(p.len(), 4);
    let avail = names(&["attention_mask", "text_embeds"]);
    assert_eq!(p.select(&avail), Ok(1));
    let avail = names(&["attention_mask", "sentence_embedding"]);
    assert_eq!(p.select(&avail), Ok(1));
    // Verbose token-level outputs are deliberately not in the defaults.
    let avail = names(&["token_embeddings", "attention_mask"]);
    assert_eq!(p.select(&avail), Err(EmbedError::SelectionFailure));
}

#[test]
fn fatal_kinds_are_distinguished() {
    assert!(!EmbedError::SelectionFailure.is_fatal());
    assert!(!EmbedError::PoolingIncompatible.is_fatal());
    assert!(EmbedError::DimensionMismatch.is_fatal());
    assert!(EmbedError::LayoutViolation.is_fatal());
}

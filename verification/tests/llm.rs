use llmchain::GenerateResult;
use llmchain::TokenUsage;
use llmchain::assemble_generate_result;

#[test]
fn test_generate_result_from_usage_and_choice() {
    let usage = TokenUsage { prompt_tokens: 10, completion_tokens: 9, total_tokens: 19 };
    let r = assemble_generate_result(Some(usage), Some("Hello".to_string()));
    assert_eq!(r.generation, "Hello");
    assert_eq!(r.prompt_tokens, 10);
    assert_eq!(r.completion_tokens, 9);
    assert_eq!(r.total_tokens, 19);
}

#[test]
fn test_generate_result_without_usage_or_choice() {
    let r = assemble_generate_result(None, None);
    assert_eq!(r.generation, "");
    assert_eq!(r.prompt_tokens, 0);
    assert_eq!(r.completion_tokens, 0);
    assert_eq!(r.total_tokens, 0);
}

#[test]
fn test_generate_result_default() {
    let r = GenerateResult::default();
    assert_eq!(r.generation, "");
    assert_eq!(r.prompt_tokens, 0);
    assert_eq!(r.completion_tokens, 0);
    assert_eq!(r.total_tokens, 0);
}

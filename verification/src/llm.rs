use vstd::prelude::*;

verus! {

/// Token accounting figures reported by a language-model provider for
/// one call. Pass-through data: nothing here is computed locally.
#[derive(Clone, Copy, Debug, PartialEq, Eq, Structural)]
pub struct TokenUsage {
    pub prompt_tokens: u32,
    pub completion_tokens: u32,
    pub total_tokens: u32,
}

/// Outcome of a text-generation call: the generated text and the token
/// accounting the provider reported for it.
pub struct GenerateResult {
    pub generation: String,
    pub prompt_tokens: u32,
    pub completion_tokens: u32,
    pub total_tokens: u32,
}

impl Default for GenerateResult {
    /// An empty generation with zero token counts.
    fn default() -> (r: Self)
        ensures
            r.generation@ == Seq::<char>::empty(),
            r.prompt_tokens == 0,
            r.completion_tokens == 0,
            r.total_tokens == 0,
    {
        GenerateResult {
            generation: String::new(),
            prompt_tokens: 0,
            completion_tokens: 0,
            total_tokens: 0,
        }
    }
}

/// Build the result of a generation call from what the provider sent
/// back: the usage figures when any were reported, otherwise zeroes, and
/// the text of the first choice when one was returned, otherwise empty.
pub fn assemble_generate_result(usage: Option<TokenUsage>, first_choice: Option<String>) -> (r:
    GenerateResult)
    ensures
        r.prompt_tokens == (match usage {
            Some(u) => u.prompt_tokens,
            None => 0u32,
        }),
        r.completion_tokens == (match usage {
            Some(u) => u.completion_tokens,
            None => 0u32,
        }),
        r.total_tokens == (match usage {
            Some(u) => u.total_tokens,
            None => 0u32,
        }),
        r.generation@ == (match first_choice {
            Some(s) => s@,
            None => Seq::<char>::empty(),
        }),
{
    let mut result = GenerateResult::default();
    if let Some(u) = usage {
        result.prompt_tokens = u.prompt_tokens;
        result.completion_tokens = u.completion_tokens;
        result.total_tokens = u.total_tokens;
    }
    if let Some(text) = first_choice {
        result.generation = text;
    }
    result
}

} // verus!

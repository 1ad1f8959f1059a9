//! Splitting text into the tokens of a model.

use crate::error::PluginError;
use crate::text::str_eq;
use vstd::prelude::*;
use vstd::string::*;

verus! {

/// A vocabulary that `tiktoken_rs` knows.
#[derive(Debug, Clone, Copy, PartialEq, Eq, Structural)]
pub enum Encoder {
    /// `o200k_harmony`.
    O200kHarmony,
    /// `o200k_base`.
    O200kBase,
    /// `cl100k_base`.
    Cl100kBase,
    /// `p50k_base`.
    P50kBase,
    /// `r50k_base`.
    R50kBase,
    /// `p50k_edit`.
    P50kEdit,
    /// `gpt2`.
    Gpt2,
}

/// The vocabulary of a model, where `tiktoken_rs` knows the model.
pub uninterp spec fn model_encoder(model: Seq<char>) -> Option<Encoder>;

/// The tokens of a text in a vocabulary, where the text can be split.
pub uninterp spec fn text_tokens(encoder: Encoder, text: Seq<char>) -> Option<Seq<u32>>;

/// `tiktoken_rs::tokenizer::get_tokenizer`: the vocabulary of a model, looked up in the tables of
/// that crate by the model's name alone.
#[verifier::external_body]
fn encoder_for_model(model: &str) -> (r: Option<Encoder>)
    ensures
        r == model_encoder(model@),
{
    match tiktoken_rs::tokenizer::get_tokenizer(model)? {
        tiktoken_rs::tokenizer::Tokenizer::O200kHarmony => Some(Encoder::O200kHarmony),
        tiktoken_rs::tokenizer::Tokenizer::O200kBase => Some(Encoder::O200kBase),
        tiktoken_rs::tokenizer::Tokenizer::Cl100kBase => Some(Encoder::Cl100kBase),
        tiktoken_rs::tokenizer::Tokenizer::P50kBase => Some(Encoder::P50kBase),
        tiktoken_rs::tokenizer::Tokenizer::R50kBase => Some(Encoder::R50kBase),
        tiktoken_rs::tokenizer::Tokenizer::P50kEdit => Some(Encoder::P50kEdit),
        tiktoken_rs::tokenizer::Tokenizer::Gpt2 => Some(Encoder::Gpt2),
    }
}

/// `tiktoken_rs::CoreBPE::encode` without special tokens: the tokens of a text as ordinary text,
/// which depend on the vocabulary and the text alone. `None` where the splitting pattern gives
/// up on the text.
#[verifier::external_body]
pub(crate) fn encode(encoder: Encoder, text: &str) -> (r: Option<Vec<u32>>)
    ensures
        r is Some <==> text_tokens(encoder, text@) is Some,
        r matches Some(v) ==> text_tokens(encoder, text@) == Some(v@),
{
    let vocabulary = match encoder {
        Encoder::O200kHarmony => tiktoken_rs::o200k_harmony_singleton(),
        Encoder::O200kBase => tiktoken_rs::o200k_base_singleton(),
        Encoder::Cl100kBase => tiktoken_rs::cl100k_base_singleton(),
        Encoder::P50kBase => tiktoken_rs::p50k_base_singleton(),
        Encoder::P50kEdit => tiktoken_rs::p50k_edit_singleton(),
        Encoder::R50kBase | Encoder::Gpt2 => tiktoken_rs::r50k_base_singleton(),
    };
    let none = std::collections::HashSet::new();
    vocabulary.encode(text, &none).ok().map(|tokens| tokens.0)
}

/// The vocabulary that a name stands for: the vocabulary of that name, or that of the model of
/// that name.
pub open spec fn named_encoder(name: Seq<char>) -> Option<Encoder> {
    if name == "cl100k_base"@ {
        Some(Encoder::Cl100kBase)
    } else if name == "o200k_base"@ {
        Some(Encoder::O200kBase)
    } else if name == "o200k_harmony"@ {
        Some(Encoder::O200kHarmony)
    } else if name == "p50k_base"@ {
        Some(Encoder::P50kBase)
    } else if name == "p50k_edit"@ {
        Some(Encoder::P50kEdit)
    } else if name == "r50k_base"@ {
        Some(Encoder::R50kBase)
    } else {
        model_encoder(name)
    }
}

/// The refusal of an unknown name.
pub open spec fn unknown_encoder_message(name: Seq<char>) -> Seq<char> {
    "unknown tokenizer encoder '"@ + name + "'"@
}

/// The vocabulary that a name stands for, or the refusal of the name.
pub fn load_encoder(name: &str) -> (r: Result<Encoder, PluginError>)
    ensures
        match named_encoder(name@) {
            Some(e) => r == Ok::<_, PluginError>(e),
            None => r matches Err(PluginError::Internal(m)) && m@ == unknown_encoder_message(name@),
        },
{
    if str_eq(name, "cl100k_base") {
        return Ok(Encoder::Cl100kBase);
    }
    if str_eq(name, "o200k_base") {
        return Ok(Encoder::O200kBase);
    }
    if str_eq(name, "o200k_harmony") {
        return Ok(Encoder::O200kHarmony);
    }
    if str_eq(name, "p50k_base") {
        return Ok(Encoder::P50kBase);
    }
    if str_eq(name, "p50k_edit") {
        return Ok(Encoder::P50kEdit);
    }
    if str_eq(name, "r50k_base") {
        return Ok(Encoder::R50kBase);
    }
    match encoder_for_model(name) {
        Some(encoder) => Ok(encoder),
        None => Err(
            PluginError::Internal(
                "unknown tokenizer encoder '".to_owned().concat(name).concat("'"),
            ),
        ),
    }
}

/// How many tokens a text has, where it can be split.
pub open spec fn token_count(encoder: Encoder, text: Seq<char>) -> Option<nat> {
    match text_tokens(encoder, text) {
        Some(tokens) => Some(tokens.len()),
        None => None,
    }
}

/// How many tokens a text has.
pub fn count_tokens(encoder: Encoder, text: &str) -> (r: Option<usize>)
    ensures
        match token_count(encoder, text@) {
            Some(n) => r matches Some(m) && m == n,
            None => r is None,
        },
{
    match encode(encoder, text) {
        Some(tokens) => Some(tokens.len()),
        None => None,
    }
}

/// How many tokens texts have together, where each can be split.
pub open spec fn token_sum(encoder: Encoder, parts: Seq<Seq<char>>) -> Option<nat>
    decreases parts.len(),
{
    if parts.len() == 0 {
        Some(0)
    } else {
        match (token_sum(encoder, parts.drop_last()), token_count(encoder, parts.last())) {
            (Some(a), Some(b)) => Some(a + b),
            _ => None,
        }
    }
}

/// A number, or the largest count.
pub open spec fn capped_count(n: nat) -> u64 {
    if n <= u64::MAX {
        n as u64
    } else {
        u64::MAX
    }
}

/// `total` is the number of tokens of `parts`, up to the largest count.
pub open spec fn is_counted(encoder: Encoder, parts: Seq<Seq<char>>, total: u64) -> bool {
    token_sum(encoder, parts) matches Some(n) && total == capped_count(n)
}

/// The refusal of a text that cannot be split.
pub open spec fn untokenizable_message() -> Seq<char> {
    "text cannot be split into tokens"@
}

/// A text that cannot be split spoils every sum that it is in.
pub proof fn lemma_token_sum_prefix(encoder: Encoder, a: Seq<Seq<char>>, b: Seq<Seq<char>>)
    requires
        token_sum(encoder, a) is None,
    ensures
        token_sum(encoder, a + b) is None,
    decreases b.len(),
{
    if b.len() == 0 {
        assert(a + b =~= a);
    } else {
        lemma_token_sum_prefix(encoder, a, b.drop_last());
        assert((a + b).drop_last() =~= a + b.drop_last());
    }
}

/// Counts one more text.
pub(crate) fn count_more(
    encoder: Encoder,
    total: u64,
    text: &str,
    Ghost(parts): Ghost<Seq<Seq<char>>>,
) -> (r: Result<u64, PluginError>)
    requires
        is_counted(encoder, parts, total),
    ensures
        r is Ok <==> token_sum(encoder, parts.push(text@)) is Some,
        r matches Ok(n) ==> is_counted(encoder, parts.push(text@), n),
        r matches Err(e) ==> e matches PluginError::Internal(m) && m@ == untokenizable_message(),
{
    assert(parts.push(text@).drop_last() =~= parts);
    assert(parts.push(text@).last() == text@);
    match count_tokens(encoder, text) {
        Some(n) => Ok(total.saturating_add(n as u64)),
        None => Err(PluginError::Internal("text cannot be split into tokens".to_owned())),
    }
}

} // verus!

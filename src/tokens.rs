//! Token counts under the `cl100k_base` encoding, against a budget.
use vstd::prelude::*;

verus! {

/// Number of tokens that the `cl100k_base` encoding gives `text`, with no
/// special tokens recognised.
pub uninterp spec fn cl100k_count(text: Seq<char>) -> nat;

/// Relies on `tiktoken_rs::cl100k_base`, which builds the encoding from data
/// inside the crate and fails only if that data does not parse, and on
/// `CoreBPE::encode_ordinary`, whose tokens are counted.
#[verifier::external_body]
fn count_cl100k(text: &str) -> (r: Option<usize>)
    ensures
        r matches Some(n) ==> n == cl100k_count(text@),
{
    tiktoken_rs::cl100k_base().ok().map(|bpe| bpe.encode_ordinary(text).len())
}

/// A token count, judged against a budget if one is given.
#[derive(PartialEq, Eq, Structural, Clone, Copy, Debug)]
pub enum TokenVerdict {
    /// The count, with no budget given.
    Count(usize),
    /// The count is within the budget.
    Within(usize),
    /// The count is above the budget.
    Over(usize),
}

/// The verdict on `count` tokens against `budget`.
pub open spec fn verdict_for(count: usize, budget: Option<usize>) -> TokenVerdict {
    match budget {
        None => TokenVerdict::Count(count),
        Some(max) => if count > max {
            TokenVerdict::Over(count)
        } else {
            TokenVerdict::Within(count)
        },
    }
}

/// Judges a token count against a budget, if one is given.
pub fn judge_tokens(count: usize, budget: Option<usize>) -> (r: TokenVerdict)
    ensures
        r == verdict_for(count, budget),
{
    match budget {
        None => TokenVerdict::Count(count),
        Some(max) => {
            if count > max {
                TokenVerdict::Over(count)
            } else {
                TokenVerdict::Within(count)
            }
        },
    }
}

/// The `cl100k_base` encoding could not be loaded.
#[derive(PartialEq, Eq, Structural, Clone, Copy, Debug)]
pub struct TokenizerUnavailable;

/// Counts the tokens of `content` under `cl100k_base` (an approximation of
/// other models' tokenizers) and judges the count against `budget`.
pub fn check(content: &str, budget: Option<usize>) -> (r: Result<TokenVerdict, TokenizerUnavailable>)
    ensures
        r matches Ok(v) ==> cl100k_count(content@) <= usize::MAX && v == verdict_for(
            cl100k_count(content@) as usize,
            budget,
        ),
{
    match count_cl100k(content) {
        None => Err(TokenizerUnavailable),
        Some(n) => Ok(judge_tokens(n, budget)),
    }
}

} // verus!

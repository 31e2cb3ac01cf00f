use bito_lint::tokens::{check, judge_tokens, TokenVerdict};

#[test]
fn judge_against_budget() {
    assert_eq!(judge_tokens(5, None), TokenVerdict::Count(5));
    assert_eq!(judge_tokens(5, Some(5)), TokenVerdict::Within(5));
    assert_eq!(judge_tokens(6, Some(5)), TokenVerdict::Over(6));
}

#[test]
fn counts_cl100k_tokens() {
    assert_eq!(check("hello world", None), Ok(TokenVerdict::Count(2)));
    assert_eq!(check("", Some(0)), Ok(TokenVerdict::Within(0)));
    assert_eq!(check("hello world", Some(1)), Ok(TokenVerdict::Over(2)));
}

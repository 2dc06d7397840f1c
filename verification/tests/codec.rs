use rerank_core::codec::{decode_output, encode_input, DecodeError, InputStyle, OutputStyle};
use rerank_core::score::Score;
use rerank_core::usage::Usage;

fn decode(payload: &[u8]) -> Result<Score, DecodeError> {
    decode_output(OutputStyle::StructuredScores, &payload.to_vec())
}

fn score(neg: bool, mant: u64, exp: i32) -> Score {
    Score { neg, mant, exp }
}

#[test]
fn encode_query_and_document_joins_with_separator() {
    let bytes = encode_input(InputStyle::QueryAndDocument, "which fruit", "apple");
    assert_eq!(bytes, b"which fruit</s></s>apple".to_vec());
}

#[test]
fn encode_document_only_drops_the_query() {
    let bytes = encode_input(InputStyle::DocumentOnly, "which fruit", "apple");
    assert_eq!(bytes, b"apple".to_vec());
}

#[test]
fn decode_simple_fraction() {
    assert_eq!(decode(b"{\"scores\":[0.25]}"), Ok(score(false, 25, -2)));
}

#[test]
fn decode_integer_score() {
    assert_eq!(decode(b"{\"scores\":[12]}"), Ok(score(false, 12, 0)));
}

#[test]
fn decode_negative_with_exponent() {
    assert_eq!(decode(b"{\"scores\":[-1.5e3]}"), Ok(score(true, 15, 2)));
}

#[test]
fn decode_capital_exponent_with_plus() {
    assert_eq!(decode(b"{\"scores\":[2E+2]}"), Ok(score(false, 2, 2)));
}

#[test]
fn decode_takes_first_of_several_scores() {
    assert_eq!(decode(b"{\"scores\":[1.5, 2.5, 3.5]}"), Ok(score(false, 15, -1)));
}

#[test]
fn decode_tolerates_whitespace() {
    assert_eq!(decode(b" { \"scores\" : [ 7 , 8 ] } "), Ok(score(false, 7, 0)));
}

#[test]
fn decode_rejects_invalid_utf8() {
    assert_eq!(decode(&[0xff, 0xfe, 0x01]), Err(DecodeError::InvalidOutputEncoding));
}

#[test]
fn decode_rejects_non_object_text() {
    assert_eq!(decode(b"not a payload"), Err(DecodeError::MalformedScorePayload));
}

#[test]
fn decode_rejects_empty_scores() {
    assert_eq!(decode(b"{\"scores\":[]}"), Err(DecodeError::MalformedScorePayload));
}

#[test]
fn decode_rejects_missing_scores_key() {
    assert_eq!(decode(b"{\"values\":[1]}"), Err(DecodeError::MalformedScorePayload));
}

#[test]
fn decode_rejects_leading_zero() {
    assert_eq!(decode(b"{\"scores\":[01]}"), Err(DecodeError::MalformedScorePayload));
}

#[test]
fn decode_rejects_trailing_text() {
    assert_eq!(decode(b"{\"scores\":[1]} extra"), Err(DecodeError::MalformedScorePayload));
}

#[test]
fn decode_rejects_bare_fraction_point() {
    assert_eq!(decode(b"{\"scores\":[1.]}"), Err(DecodeError::MalformedScorePayload));
}

#[test]
fn decode_rejects_huge_exponent() {
    assert_eq!(decode(b"{\"scores\":[1e9999999999]}"), Err(DecodeError::MalformedScorePayload));
}

#[test]
fn decode_keeps_nineteen_significant_digits() {
    // the twentieth digit is discarded but still moves the decimal point
    assert_eq!(
        decode(b"{\"scores\":[12345678901234567895]}"),
        Ok(score(false, 1234567890123456789, 1))
    );
}

#[test]
fn placeholder_ignores_payload() {
    let r = decode_output(OutputStyle::Placeholder, &vec![0xff, 0x00]);
    assert_eq!(r, Ok(score(false, 0, 0)));
}

#[test]
fn score_order_is_on_values_not_representations() {
    // 0.5 written two ways: neither is less than the other
    let a = score(false, 5, -1);
    let b = score(false, 50, -2);
    assert!(!a.lt(&b));
    assert!(!b.lt(&a));
}

#[test]
fn score_order_crosses_magnitudes() {
    let small = score(false, 2, 0);
    let large = score(false, 1, 10);
    assert!(small.lt(&large));
    assert!(!large.lt(&small));
}

#[test]
fn score_order_handles_signs_and_zero() {
    let neg = score(true, 3, 0);
    let zero = score(false, 0, 0);
    let negzero = score(true, 0, 5);
    let pos = score(false, 1, -3);
    assert!(neg.lt(&zero));
    assert!(zero.lt(&pos));
    assert!(neg.lt(&pos));
    assert!(!zero.lt(&negzero));
    assert!(!negzero.lt(&zero));
}

#[test]
fn usage_total_is_always_the_sum() {
    let mut u = Usage::new();
    u.add(5, 1);
    assert_eq!(u.total_tokens, u.prompt_tokens + u.completion_tokens);
    u.add(7, 2);
    assert_eq!((u.prompt_tokens, u.completion_tokens, u.total_tokens), (12, 3, 15));
}

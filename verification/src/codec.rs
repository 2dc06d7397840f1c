//! Tensor codec: between domain values and the model's byte-level contract.
//!
//! Input side: a (query, document) pair becomes the byte buffer the execution
//! graph expects. Two conventions exist in the wild: the raw document bytes
//! alone (a degraded mode whose scores are not conditioned on the query), and
//! the query and document joined by the separator token sequence used by
//! cross-encoder relevance models.
//!
//! Output side: the graph's raw output buffer becomes a relevance score. Two
//! conventions again: a placeholder mode that yields a constant fallback score
//! (kept only for compatibility with a model family that emits no usable
//! score), and a structured mode where the buffer is UTF-8 text holding an
//! object with a `scores` array of decimal numbers, of which the first is the
//! relevance score. The structured payload is parsed here, byte by byte: an
//! optional sign, an integer part without leading zeros, an optional fraction
//! and an optional decimal exponent, with JSON whitespace between tokens.
//!
//! Machine bounds, stated exactly by the parsing specification below: a
//! mantissa keeps its first 19 significant digits (later digits only move the
//! decimal point); a number whose decimal exponent cannot be represented in 32
//! bits, or whose exponent literal exceeds 3 000 000 000, is rejected as
//! malformed.

use crate::score::{Score, MANT_LIMIT};
use vstd::prelude::*;
use vstd::utf8::valid_utf8;

verus! {

/// How a (query, document) pair is encoded into the input tensor.
#[derive(Clone, Copy, Debug, PartialEq, Eq, Structural)]
pub enum InputStyle {
    /// Degraded: the raw document bytes alone; the query is not transmitted,
    /// so scores are not conditioned on it.
    DocumentOnly,
    /// The query and the document joined by the cross-encoder separator:
    /// the default for genuine query-conditioned scoring.
    QueryAndDocument,
}

/// How the output tensor is decoded into a relevance score.
#[derive(Clone, Copy, Debug, PartialEq, Eq, Structural)]
pub enum OutputStyle {
    /// Degraded: the output is ignored and a constant fallback score is
    /// produced, so every document ties and the ranking carries no signal.
    Placeholder,
    /// The output is UTF-8 text holding an object with a `scores` array;
    /// the first entry is the relevance score.
    StructuredScores,
}

/// Why an output buffer could not be decoded.
#[derive(Clone, Copy, Debug, PartialEq, Eq, Structural)]
pub enum DecodeError {
    /// The output bytes are not valid UTF-8 text.
    InvalidOutputEncoding,
    /// The text is not an object with a non-empty `scores` array of decimal
    /// numbers, or a number in it falls outside the stated machine bounds.
    MalformedScorePayload,
}

/// The constant fallback score of the placeholder output mode.
pub open spec fn placeholder_score() -> Score {
    Score { neg: false, mant: 0, exp: 0 }
}

/// The separator token sequence between query and document: `</s></s>`.
pub open spec fn sep_bytes() -> Seq<u8> {
    seq![60u8, 47u8, 115u8, 62u8, 60u8, 47u8, 115u8, 62u8]
}

/// The bytes the input tensor must hold for one document.
pub open spec fn spec_encode_input(style: InputStyle, query: Seq<char>, document: Seq<char>) -> Seq<
    u8,
> {
    match style {
        InputStyle::DocumentOnly => vstd::utf8::encode_utf8(document),
        InputStyle::QueryAndDocument => vstd::utf8::encode_utf8(query) + sep_bytes()
            + vstd::utf8::encode_utf8(document),
    }
}

/// Appends a byte slice to the buffer.
fn push_bytes(out: &mut Vec<u8>, b: &[u8])
    ensures
        final(out)@ == old(out)@ + b@,
{
    let mut k: usize = 0;
    while k < b.len()
        invariant
            k <= b@.len(),
            out@ == old(out)@ + b@.take(k as int),
        decreases b@.len() - k,
    {
        out.push(b[k]);
        k = k + 1;
        proof {
            assert(b@.take(k as int) =~= b@.take(k as int - 1).push(b@[k as int - 1]));
            assert(out@ =~= old(out)@ + b@.take(k as int));
        }
    }
    proof {
        assert(b@.take(b@.len() as int) =~= b@);
    }
}

/// Encodes one document's input tensor from the query and the document text,
/// following the selected input convention.
pub fn encode_input(style: InputStyle, query: &str, document: &str) -> (r: Vec<u8>)
    ensures
        r@ == spec_encode_input(style, query@, document@),
{
    let mut out: Vec<u8> = Vec::new();
    match style {
        InputStyle::DocumentOnly => {
            push_bytes(&mut out, document.as_bytes());
            proof {
                assert(out@ =~= vstd::utf8::encode_utf8(document@));
            }
        },
        InputStyle::QueryAndDocument => {
            push_bytes(&mut out, query.as_bytes());
            out.push(60);
            out.push(47);
            out.push(115);
            out.push(62);
            out.push(60);
            out.push(47);
            out.push(115);
            out.push(62);
            push_bytes(&mut out, document.as_bytes());
            proof {
                assert(out@ =~= vstd::utf8::encode_utf8(query@) + sep_bytes()
                    + vstd::utf8::encode_utf8(document@));
            }
        },
    }
    out
}

/// JSON whitespace: space, tab, line feed, carriage return.
pub open spec fn is_ws(b: u8) -> bool {
    b == 32 || b == 9 || b == 10 || b == 13
}

/// An ASCII decimal digit.
pub open spec fn is_digit(b: u8) -> bool {
    48 <= b <= 57
}

/// The byte at `i` exists and equals `b`.
pub open spec fn byte_at(s: Seq<u8>, i: int, b: u8) -> bool {
    0 <= i < s.len() && s[i] == b
}

/// The first position at or after `i` that does not hold whitespace.
pub open spec fn spec_skip_ws(s: Seq<u8>, i: int) -> int
    decreases s.len() - i when i <= s.len()
{
    if 0 <= i < s.len() && is_ws(s[i]) {
        spec_skip_ws(s, i + 1)
    } else {
        i
    }
}

/// The first position at or after `i` that does not hold a digit.
pub open spec fn digits_end(s: Seq<u8>, i: int) -> int
    decreases s.len() - i when i <= s.len()
{
    if 0 <= i < s.len() && is_digit(s[i]) {
        digits_end(s, i + 1)
    } else {
        i
    }
}

/// The mantissa after absorbing the digits `s[i..j)` into `mant`: a digit is
/// absorbed while the mantissa has fewer than 19 significant digits and is
/// discarded afterwards.
pub open spec fn absorb_mant(s: Seq<u8>, i: int, j: int, mant: int) -> int
    decreases j - i when i <= j
{
    if i < j {
        if mant < 1_000_000_000_000_000_000 {
            absorb_mant(s, i + 1, j, mant * 10 + (s[i] as int - 48))
        } else {
            absorb_mant(s, i + 1, j, mant)
        }
    } else {
        mant
    }
}

/// How many of the digits `s[i..j)` are discarded rather than absorbed.
pub open spec fn dropped_digits(s: Seq<u8>, i: int, j: int, mant: int) -> int
    decreases j - i when i <= j
{
    if i < j {
        if mant < 1_000_000_000_000_000_000 {
            dropped_digits(s, i + 1, j, mant * 10 + (s[i] as int - 48))
        } else {
            1 + dropped_digits(s, i + 1, j, mant)
        }
    } else {
        0
    }
}

/// The value of the exponent digits `s[i..j)`, saturated at 3 000 000 001 so
/// that any exponent literal above 3 000 000 000 is recognisably out of range.
pub open spec fn exp_value(s: Seq<u8>, i: int, j: int, acc: int) -> int
    decreases j - i when i <= j
{
    if i < j {
        if acc * 10 + (s[i] as int - 48) > 3_000_000_000 {
            exp_value(s, i + 1, j, 3_000_000_001)
        } else {
            exp_value(s, i + 1, j, acc * 10 + (s[i] as int - 48))
        }
    } else {
        acc
    }
}

/// One decimal number of the payload, starting at `i`: `None` when the bytes
/// there are not a number within the machine bounds, otherwise the score it
/// denotes and the position just past it.
pub open spec fn spec_parse_number(s: Seq<u8>, i: int) -> Option<(Score, int)> {
    let neg = byte_at(s, i, 45);
    let im = if neg {
        i + 1
    } else {
        i
    };
    if !(0 <= im < s.len() && is_digit(s[im])) {
        None
    } else {
        let ie = digits_end(s, im);
        let m1 = absorb_mant(s, im, ie, 0);
        let drop1 = dropped_digits(s, im, ie, 0);
        if s[im] == 48 && ie > im + 1 {
            None
        } else {
            let has_frac = byte_at(s, ie, 46);
            let fs = ie + 1;
            let fe = if has_frac {
                digits_end(s, fs)
            } else {
                ie
            };
            if has_frac && fe == fs {
                None
            } else {
                let mant = if has_frac {
                    absorb_mant(s, fs, fe, m1)
                } else {
                    m1
                };
                let drop2 = if has_frac {
                    dropped_digits(s, fs, fe, m1)
                } else {
                    0
                };
                let fracdigits = if has_frac {
                    fe - fs
                } else {
                    0
                };
                let pos = if has_frac {
                    fe
                } else {
                    ie
                };
                let has_e = byte_at(s, pos, 101) || byte_at(s, pos, 69);
                let has_sign = has_e && (byte_at(s, pos + 1, 45) || byte_at(s, pos + 1, 43));
                let eneg = has_e && byte_at(s, pos + 1, 45);
                let ds = if has_e {
                    if has_sign {
                        pos + 2
                    } else {
                        pos + 1
                    }
                } else {
                    pos
                };
                let de = if has_e {
                    digits_end(s, ds)
                } else {
                    pos
                };
                if has_e && de == ds {
                    None
                } else {
                    let evalue = if has_e {
                        exp_value(s, ds, de, 0)
                    } else {
                        0
                    };
                    if evalue > 3_000_000_000 {
                        None
                    } else {
                        let et = drop1 + drop2 - fracdigits + (if eneg {
                            -evalue
                        } else {
                            evalue
                        });
                        if et < -2147483648 || et > 2147483647 {
                            None
                        } else {
                            Some((Score { neg, mant: mant as u64, exp: et as i32 }, de))
                        }
                    }
                }
            }
        }
    }
}

/// The eight bytes of the member key `"scores"`, quotes included, stand at `i`.
pub open spec fn scores_key_at(s: Seq<u8>, i: int) -> bool {
    &&& 0 <= i
    &&& i + 8 <= s.len()
    &&& s[i] == 34
    &&& s[i + 1] == 115
    &&& s[i + 2] == 99
    &&& s[i + 3] == 111
    &&& s[i + 4] == 114
    &&& s[i + 5] == 101
    &&& s[i + 6] == 115
    &&& s[i + 7] == 34
}

/// Consumes the remainder of the `scores` array after one number: zero or
/// more `, number` groups and the closing bracket. Returns the position just
/// past the bracket. `fuel` bounds the recursion; a valid remainder consumes
/// at least one byte per group, so `s.len()` fuel is always enough.
pub open spec fn spec_finish_array(s: Seq<u8>, i: int, fuel: nat) -> Option<int>
    decreases fuel,
{
    let k = spec_skip_ws(s, i);
    if byte_at(s, k, 93) {
        Some(k + 1)
    } else if byte_at(s, k, 44) && fuel > 0 {
        let k2 = spec_skip_ws(s, k + 1);
        match spec_parse_number(s, k2) {
            Option::None => None,
            Option::Some((sc, e)) => spec_finish_array(s, e, (fuel - 1) as nat),
        }
    } else {
        None
    }
}

/// The whole structured payload: an object whose single member `scores` holds
/// a non-empty array of numbers, with JSON whitespace allowed between tokens
/// and nothing after the closing brace. The result is the first score.
pub open spec fn spec_parse_payload(s: Seq<u8>) -> Result<Score, DecodeError> {
    let i0 = spec_skip_ws(s, 0);
    if !byte_at(s, i0, 123) {
        Err(DecodeError::MalformedScorePayload)
    } else {
        let i1 = spec_skip_ws(s, i0 + 1);
        if !scores_key_at(s, i1) {
            Err(DecodeError::MalformedScorePayload)
        } else {
            let i2 = spec_skip_ws(s, i1 + 8);
            if !byte_at(s, i2, 58) {
                Err(DecodeError::MalformedScorePayload)
            } else {
                let i3 = spec_skip_ws(s, i2 + 1);
                if !byte_at(s, i3, 91) {
                    Err(DecodeError::MalformedScorePayload)
                } else {
                    let i4 = spec_skip_ws(s, i3 + 1);
                    match spec_parse_number(s, i4) {
                        Option::None => Err(DecodeError::MalformedScorePayload),
                        Option::Some((sc, e)) => match spec_finish_array(s, e, s.len()) {
                            Option::None => Err(DecodeError::MalformedScorePayload),
                            Option::Some(after) => {
                                let f = spec_skip_ws(s, after);
                                if !byte_at(s, f, 125) {
                                    Err(DecodeError::MalformedScorePayload)
                                } else if spec_skip_ws(s, f + 1) != s.len() {
                                    Err(DecodeError::MalformedScorePayload)
                                } else {
                                    Ok(sc)
                                }
                            },
                        },
                    }
                }
            }
        }
    }
}

/// What decoding an output buffer yields under each output convention.
pub open spec fn spec_decode_output(style: OutputStyle, s: Seq<u8>) -> Result<Score, DecodeError> {
    match style {
        OutputStyle::Placeholder => Ok(placeholder_score()),
        OutputStyle::StructuredScores => if !valid_utf8(s) {
            Err(DecodeError::InvalidOutputEncoding)
        } else {
            spec_parse_payload(s)
        },
    }
}

proof fn lemma_skip_ws_bounds(s: Seq<u8>, i: int)
    requires
        0 <= i <= s.len(),
    ensures
        i <= spec_skip_ws(s, i) <= s.len(),
    decreases s.len() - i,
{
    if i < s.len() && is_ws(s[i]) {
        lemma_skip_ws_bounds(s, i + 1);
    }
}

proof fn lemma_digits_end_bounds(s: Seq<u8>, i: int)
    requires
        0 <= i <= s.len(),
    ensures
        i <= digits_end(s, i) <= s.len(),
    decreases s.len() - i,
{
    if i < s.len() && is_digit(s[i]) {
        lemma_digits_end_bounds(s, i + 1);
    }
}

fn is_ws_b(b: u8) -> (r: bool)
    ensures
        r == is_ws(b),
{
    b == 32 || b == 9 || b == 10 || b == 13
}

fn is_digit_b(b: u8) -> (r: bool)
    ensures
        r == is_digit(b),
{
    48 <= b && b <= 57
}

/// Advances past whitespace.
fn skip_ws(s: &Vec<u8>, i: usize) -> (r: usize)
    requires
        i <= s@.len(),
    ensures
        r as int == spec_skip_ws(s@, i as int),
        i <= r <= s@.len(),
{
    let mut k: usize = i;
    while k < s.len() && is_ws_b(s[k])
        invariant
            i <= k <= s@.len(),
            spec_skip_ws(s@, i as int) == spec_skip_ws(s@, k as int),
        decreases s@.len() - k,
    {
        k = k + 1;
    }
    k
}

/// Scans a run of digits starting at `i`, absorbing them into `m0` under the
/// 19-significant-digit cap; returns the end of the run, the mantissa, and
/// how many digits were discarded.
fn scan_number_digits(s: &Vec<u8>, i: usize, m0: u64) -> (r: (usize, u64, usize))
    requires
        i <= s@.len(),
        m0 < MANT_LIMIT,
    ensures
        r.0 as int == digits_end(s@, i as int),
        i <= r.0 <= s@.len(),
        r.1 as int == absorb_mant(s@, i as int, r.0 as int, m0 as int),
        r.1 < MANT_LIMIT,
        r.2 as int == dropped_digits(s@, i as int, r.0 as int, m0 as int),
        r.2 <= r.0 - i,
{
    let ghost jj = digits_end(s@, i as int);
    proof {
        lemma_digits_end_bounds(s@, i as int);
    }
    let mut k: usize = i;
    let mut mant: u64 = m0;
    let mut dropped: usize = 0;
    while k < s.len() && is_digit_b(s[k])
        invariant
            i <= k <= s@.len(),
            mant < MANT_LIMIT,
            dropped <= k - i,
            digits_end(s@, k as int) == jj,
            k as int <= jj,
            absorb_mant(s@, k as int, jj, mant as int) == absorb_mant(s@, i as int, jj, m0 as int),
            dropped + dropped_digits(s@, k as int, jj, mant as int) == dropped_digits(
                s@,
                i as int,
                jj,
                m0 as int,
            ),
        decreases s@.len() - k,
    {
        proof {
            lemma_digits_end_bounds(s@, k as int + 1);
            assert(digits_end(s@, k as int) == digits_end(s@, k as int + 1));
        }
        let d = s[k] - 48;
        if mant < 1_000_000_000_000_000_000 {
            mant = mant * 10 + (d as u64);
        } else {
            dropped = dropped + 1;
        }
        k = k + 1;
    }
    proof {
        assert(digits_end(s@, k as int) == k as int);
        assert(absorb_mant(s@, k as int, jj, mant as int) == mant as int);
        assert(dropped_digits(s@, k as int, jj, mant as int) == 0);
    }
    (k, mant, dropped)
}

/// Scans a run of exponent digits, saturating above 3 000 000 000.
fn scan_exp_digits(s: &Vec<u8>, i: usize) -> (r: (usize, u64))
    requires
        i <= s@.len(),
    ensures
        r.0 as int == digits_end(s@, i as int),
        i <= r.0 <= s@.len(),
        r.1 as int == exp_value(s@, i as int, r.0 as int, 0),
        r.1 <= 3_000_000_001,
{
    let ghost jj = digits_end(s@, i as int);
    proof {
        lemma_digits_end_bounds(s@, i as int);
    }
    let mut k: usize = i;
    let mut acc: u64 = 0;
    while k < s.len() && is_digit_b(s[k])
        invariant
            i <= k <= s@.len(),
            acc <= 3_000_000_001,
            digits_end(s@, k as int) == jj,
            k as int <= jj,
            exp_value(s@, k as int, jj, acc as int) == exp_value(s@, i as int, jj, 0),
        decreases s@.len() - k,
    {
        proof {
            lemma_digits_end_bounds(s@, k as int + 1);
            assert(digits_end(s@, k as int) == digits_end(s@, k as int + 1));
        }
        let d = s[k] - 48;
        let t = acc * 10 + (d as u64);
        if t > 3_000_000_000 {
            acc = 3_000_000_001;
        } else {
            acc = t;
        }
        k = k + 1;
    }
    proof {
        assert(digits_end(s@, k as int) == k as int);
        assert(exp_value(s@, k as int, jj, acc as int) == acc as int);
    }
    (k, acc)
}

/// Parses one number of the payload; mirrors `spec_parse_number` exactly.
#[verifier::rlimit(100)]
fn parse_number(s: &Vec<u8>, i: usize) -> (r: Option<(Score, usize)>)
    requires
        i <= s@.len(),
    ensures
        r.is_some() == spec_parse_number(s@, i as int).is_some(),
        r.is_some() ==> r.unwrap().0 == spec_parse_number(s@, i as int).unwrap().0,
        r.is_some() ==> r.unwrap().1 as int == spec_parse_number(s@, i as int).unwrap().1,
        r.is_some() ==> r.unwrap().0.wf() && i < r.unwrap().1 <= s@.len(),
{
    let neg = i < s.len() && s[i] == 45;
    let im = if neg {
        i + 1
    } else {
        i
    };
    if !(im < s.len() && is_digit_b(s[im])) {
        return None;
    }
    let (ie, m1, drop1) = scan_number_digits(s, im, 0);
    proof {
        assert(digits_end(s@, im as int) == digits_end(s@, im as int + 1));
        lemma_digits_end_bounds(s@, im as int + 1);
    }
    if s[im] == 48 && ie > im + 1 {
        return None;
    }
    let has_frac = ie < s.len() && s[ie] == 46;
    let mut pos: usize = ie;
    let mut mant: u64 = m1;
    let mut drop2: usize = 0;
    let mut fracdigits: usize = 0;
    if has_frac {
        let (fe, m2x, d2) = scan_number_digits(s, ie + 1, m1);
        if fe == ie + 1 {
            return None;
        }
        pos = fe;
        mant = m2x;
        drop2 = d2;
        fracdigits = fe - (ie + 1);
    }
    let has_e = pos < s.len() && (s[pos] == 101 || s[pos] == 69);
    let mut eneg = false;
    let mut evalue: u64 = 0;
    let mut end: usize = pos;
    if has_e {
        let mut ds = pos + 1;
        if ds < s.len() && (s[ds] == 45 || s[ds] == 43) {
            eneg = s[ds] == 45;
            ds = ds + 1;
        }
        let (de, ev) = scan_exp_digits(s, ds);
        if de == ds {
            return None;
        }
        evalue = ev;
        end = de;
    }
    if evalue > 3_000_000_000 {
        return None;
    }
    let bump: i128 = (drop1 as i128) + (drop2 as i128) - (fracdigits as i128);
    let et: i128 = bump + (if eneg {
        -(evalue as i128)
    } else {
        evalue as i128
    });
    if et < -2147483648 || et > 2147483647 {
        return None;
    }
    Some((Score { neg, mant, exp: et as i32 }, end))
}

/// The member key `"scores"` stands at `i`.
fn scores_key(s: &Vec<u8>, i: usize) -> (r: bool)
    requires
        i <= s@.len(),
    ensures
        r == scores_key_at(s@, i as int),
{
    if s.len() - i < 8 {
        return false;
    }
    s[i] == 34 && s[i + 1] == 115 && s[i + 2] == 99 && s[i + 3] == 111 && s[i + 4] == 114 && s[i
        + 5] == 101 && s[i + 6] == 115 && s[i + 7] == 34
}

/// Consumes the remainder of the array; mirrors `spec_finish_array`.
fn finish_array(s: &Vec<u8>, i: usize, fuel: usize) -> (r: Option<usize>)
    requires
        i <= s@.len(),
    ensures
        r.is_some() == spec_finish_array(s@, i as int, fuel as nat).is_some(),
        r.is_some() ==> r.unwrap() as int == spec_finish_array(s@, i as int, fuel as nat).unwrap(),
        r.is_some() ==> r.unwrap() <= s@.len(),
    decreases fuel,
{
    let k = skip_ws(s, i);
    if k < s.len() && s[k] == 93 {
        Some(k + 1)
    } else if k < s.len() && s[k] == 44 && fuel > 0 {
        let k2 = skip_ws(s, k + 1);
        match parse_number(s, k2) {
            Option::None => None,
            Option::Some((sc, e)) => finish_array(s, e, fuel - 1),
        }
    } else {
        None
    }
}

/// Parses the whole structured payload; mirrors `spec_parse_payload`.
fn parse_payload(s: &Vec<u8>) -> (r: Result<Score, DecodeError>)
    ensures
        r == spec_parse_payload(s@),
        r.is_ok() ==> r.unwrap().wf(),
{
    let i0 = skip_ws(s, 0);
    if !(i0 < s.len() && s[i0] == 123) {
        return Err(DecodeError::MalformedScorePayload);
    }
    let i1 = skip_ws(s, i0 + 1);
    if !scores_key(s, i1) {
        return Err(DecodeError::MalformedScorePayload);
    }
    let i2 = skip_ws(s, i1 + 8);
    if !(i2 < s.len() && s[i2] == 58) {
        return Err(DecodeError::MalformedScorePayload);
    }
    let i3 = skip_ws(s, i2 + 1);
    if !(i3 < s.len() && s[i3] == 91) {
        return Err(DecodeError::MalformedScorePayload);
    }
    let i4 = skip_ws(s, i3 + 1);
    match parse_number(s, i4) {
        Option::None => Err(DecodeError::MalformedScorePayload),
        Option::Some((sc, e)) => {
            match finish_array(s, e, s.len()) {
                Option::None => Err(DecodeError::MalformedScorePayload),
                Option::Some(after) => {
                    let f = skip_ws(s, after);
                    if !(f < s.len() && s[f] == 125) {
                        Err(DecodeError::MalformedScorePayload)
                    } else if skip_ws(s, f + 1) != s.len() {
                        Err(DecodeError::MalformedScorePayload)
                    } else {
                        Ok(sc)
                    }
                },
            }
        },
    }
}

/// Relies on `core::str::from_utf8` of std: it accepts exactly the valid
/// UTF-8 byte sequences — vstd's `valid_utf8` — and rejects all others.
#[verifier::external_body]
fn utf8_valid(bytes: &Vec<u8>) -> (r: bool)
    ensures
        r == valid_utf8(bytes@),
{
    core::str::from_utf8(bytes.as_slice()).is_ok()
}

/// Decodes one output buffer into a relevance score under the selected output
/// convention. In the structured mode, fails with `InvalidOutputEncoding`
/// exactly when the bytes are not UTF-8, and with `MalformedScorePayload`
/// exactly when the text is not a well-formed `scores` payload within the
/// machine bounds.
pub fn decode_output(style: OutputStyle, bytes: &Vec<u8>) -> (r: Result<Score, DecodeError>)
    ensures
        r == spec_decode_output(style, bytes@),
        r.is_ok() ==> r.unwrap().wf(),
{
    match style {
        OutputStyle::Placeholder => Ok(Score { neg: false, mant: 0, exp: 0 }),
        OutputStyle::StructuredScores => {
            if !utf8_valid(bytes) {
                Err(DecodeError::InvalidOutputEncoding)
            } else {
                parse_payload(bytes)
            }
        },
    }
}

} // verus!

//! Parsing a polynomial formula.
//!
//! The grammar is a signed sum of terms `[coefficient]['z'['^'power]]`: the
//! coefficient defaults to one, the power to one when `z` is present and to
//! zero otherwise. Whitespace, parentheses and multiplication signs are
//! stripped first, then a `+-` sign pair collapses to a minus, and the
//! remaining text is cut at sign bytes into term runs. A malformed run is a
//! syntax error; a term whose coefficient is zero is dropped; duplicate
//! powers are summed; a formula with no surviving term is empty. Every stage
//! is specified as a pure function of the input bytes, and the executable
//! parser is proved to return exactly that function's result.
//!
//! Coefficients are integers: a coefficient magnitude beyond `COEF_LIMIT`
//! (also after summing duplicate powers) or a power beyond `POWER_LIMIT` is
//! rejected as a syntax error, which keeps all later symbolic arithmetic
//! exact.
use vstd::prelude::*;
use vstd::string::*;

use crate::polynomial::{terms_wf, Polynomial};
use crate::polynomial_term::{term_wf, PolynomialTerm, COEF_LIMIT, POWER_LIMIT};

verus! {

/// Why a formula was rejected.
#[derive(Clone, Copy, PartialEq, Eq, Structural, Debug)]
pub enum ParseError {
    /// A term run that does not match `[coefficient]['z'['^'power]]`, a
    /// number out of bounds, or text that is not ASCII.
    Syntax,
    /// No term survived: nothing but signs and stripped bytes, or all
    /// coefficients cancelled to zero.
    Empty,
}

pub const BYTE_SPACE: u8 = 32;
pub const BYTE_LPAREN: u8 = 40;
pub const BYTE_RPAREN: u8 = 41;
pub const BYTE_STAR: u8 = 42;
pub const BYTE_PLUS: u8 = 43;
pub const BYTE_MINUS: u8 = 45;
pub const BYTE_CARET: u8 = 94;
pub const BYTE_Z: u8 = 122;
pub const BYTE_ZERO: u8 = 48;
pub const BYTE_NINE: u8 = 57;

/// Bytes removed before parsing: space, parentheses, multiplication sign.
pub open spec fn is_strip_byte(b: u8) -> bool {
    b == BYTE_SPACE || b == BYTE_LPAREN || b == BYTE_RPAREN || b == BYTE_STAR
}

/// Sign bytes that separate term runs.
pub open spec fn is_sign_byte(b: u8) -> bool {
    b == BYTE_PLUS || b == BYTE_MINUS
}

pub open spec fn is_digit_byte(b: u8) -> bool {
    BYTE_ZERO <= b <= BYTE_NINE
}

/// The input from position `i` on, with stripped bytes removed.
pub open spec fn strip_from(s: Seq<u8>, i: int) -> Seq<u8>
    decreases s.len() - i,
{
    if i < 0 || i >= s.len() {
        Seq::<u8>::empty()
    } else if is_strip_byte(s[i]) {
        strip_from(s, i + 1)
    } else {
        seq![s[i]] + strip_from(s, i + 1)
    }
}

/// The input from position `i` on, with each (non-overlapping, leftmost)
/// `+-` pair replaced by a single minus.
pub open spec fn canon_from(s: Seq<u8>, i: int) -> Seq<u8>
    decreases s.len() - i,
{
    if i < 0 || i >= s.len() {
        Seq::<u8>::empty()
    } else if s[i] == BYTE_PLUS && i + 1 < s.len() && s[i + 1] == BYTE_MINUS {
        seq![BYTE_MINUS] + canon_from(s, i + 2)
    } else {
        seq![s[i]] + canon_from(s, i + 1)
    }
}

/// Every byte is a decimal digit.
pub open spec fn all_digits(s: Seq<u8>) -> bool {
    forall|i: int| 0 <= i < s.len() ==> is_digit_byte(#[trigger] s[i])
}

/// The number a digit string denotes.
pub open spec fn digits_val(s: Seq<u8>) -> int
    decreases s.len(),
{
    if s.len() == 0 {
        0
    } else {
        digits_val(s.drop_last()) * 10 + (s.last() - BYTE_ZERO)
    }
}

/// A nonempty digit string within `limit` denotes its number; anything else
/// is a syntax error.
pub open spec fn number_spec(s: Seq<u8>, limit: int) -> Result<int, ParseError> {
    if s.len() > 0 && all_digits(s) && digits_val(s) <= limit {
        Ok(digits_val(s))
    } else {
        Err(ParseError::Syntax)
    }
}

proof fn lemma_digits_val_nonneg(s: Seq<u8>)
    requires
        all_digits(s),
    ensures
        digits_val(s) >= 0,
    decreases s.len(),
{
    if s.len() > 0 {
        assert(forall|i: int| 0 <= i < s.len() - 1 ==> s.drop_last()[i] == #[trigger] s[i]);
        lemma_digits_val_nonneg(s.drop_last());
    }
}

/// A digit string's value only grows as digits are appended.
proof fn lemma_digits_val_mono(s: Seq<u8>, i: int)
    requires
        all_digits(s),
        0 <= i <= s.len(),
    ensures
        digits_val(s.take(i)) <= digits_val(s),
    decreases s.len(),
{
    if i == s.len() {
        assert(s.take(i) =~= s);
    } else {
        assert(forall|k: int| 0 <= k < s.len() - 1 ==> s.drop_last()[k] == #[trigger] s[k]);
        assert(s.drop_last().take(i) =~= s.take(i));
        lemma_digits_val_mono(s.drop_last(), i);
        lemma_digits_val_nonneg(s.drop_last());
    }
}

/// Strip unwanted bytes, as executable code.
fn strip_bytes(s: &Vec<u8>) -> (r: Vec<u8>)
    ensures
        r@ == strip_from(s@, 0),
{
    let mut out: Vec<u8> = Vec::new();
    let mut i: usize = 0;
    while i < s.len()
        invariant
            i <= s.len(),
            strip_from(s@, 0) == out@ + strip_from(s@, i as int),
        decreases s.len() - i,
    {
        let b: u8 = s[i];
        if !(b == BYTE_SPACE || b == BYTE_LPAREN || b == BYTE_RPAREN || b == BYTE_STAR) {
            out.push(b);
            proof {
                assert((out@.drop_last() + seq![b]) + strip_from(s@, i + 1) =~= out@.drop_last()
                    + (seq![b] + strip_from(s@, i + 1)));
                assert(out@.drop_last().push(b) =~= out@.drop_last() + seq![b]);
            }
        }
        i = i + 1;
    }
    proof {
        assert(out@ + strip_from(s@, s.len() as int) =~= out@);
    }
    out
}

/// Collapse `+-` pairs, as executable code.
fn canon_bytes(s: &Vec<u8>) -> (r: Vec<u8>)
    ensures
        r@ == canon_from(s@, 0),
{
    let mut out: Vec<u8> = Vec::new();
    let mut i: usize = 0;
    while i < s.len()
        invariant
            i <= s.len(),
            canon_from(s@, 0) == out@ + canon_from(s@, i as int),
        decreases s.len() - i,
    {
        let b: u8 = s[i];
        if b == BYTE_PLUS && i + 1 < s.len() && s[i + 1] == BYTE_MINUS {
            out.push(BYTE_MINUS);
            proof {
                assert((out@.drop_last() + seq![BYTE_MINUS]) + canon_from(s@, i + 2)
                    =~= out@.drop_last() + (seq![BYTE_MINUS] + canon_from(s@, i + 2)));
                assert(out@.drop_last().push(BYTE_MINUS) =~= out@.drop_last() + seq![BYTE_MINUS]);
            }
            i = i + 2;
        } else {
            out.push(b);
            proof {
                assert((out@.drop_last() + seq![b]) + canon_from(s@, i + 1) =~= out@.drop_last()
                    + (seq![b] + canon_from(s@, i + 1)));
                assert(out@.drop_last().push(b) =~= out@.drop_last() + seq![b]);
            }
            i = i + 1;
        }
    }
    proof {
        assert(out@ + canon_from(s@, s.len() as int) =~= out@);
    }
    out
}

/// Parse the digit string `s[from..to]` under `limit`, as executable code.
fn parse_digits(s: &Vec<u8>, from: usize, to: usize, limit: i64) -> (r: Result<i64, ParseError>)
    requires
        from <= to <= s.len(),
        0 <= limit <= COEF_LIMIT,
    ensures
        match r {
            Ok(v) => number_spec(s@.subrange(from as int, to as int), limit as int)
                == Ok::<int, ParseError>(v as int) && 0 <= v <= limit,
            Err(e) => number_spec(s@.subrange(from as int, to as int), limit as int) == Err::<
                int,
                ParseError,
            >(e),
        },
{
    let ghost sub = s@.subrange(from as int, to as int);
    if from == to {
        return Err(ParseError::Syntax);
    }
    let mut val: i64 = 0;
    let mut i: usize = from;
    while i < to
        invariant
            from <= i <= to <= s.len(),
            sub == s@.subrange(from as int, to as int),
            all_digits(sub.take(i - from)),
            val == digits_val(sub.take(i - from)),
            0 <= val <= limit,
            limit <= COEF_LIMIT,
        decreases to - i,
    {
        let b: u8 = s[i];
        proof {
            assert(sub[i - from] == s@[i as int]);
        }
        if b < BYTE_ZERO || b > BYTE_NINE {
            proof {
                assert(!is_digit_byte(sub[i - from]));
            }
            return Err(ParseError::Syntax);
        }
        proof {
            assert(sub.take(i - from + 1).drop_last() =~= sub.take(i - from));
            assert(sub.take(i - from + 1).last() == sub[i - from]);
        }
        val = val * 10 + ((b - BYTE_ZERO) as i64);
        if val > limit {
            proof {
                if sub.len() > 0 && all_digits(sub) && digits_val(sub) <= limit as int {
                    lemma_digits_val_mono(sub, i - from + 1);
                    assert(false);
                }
            }
            return Err(ParseError::Syntax);
        }
        i = i + 1;
    }
    proof {
        assert(sub.take(to - from) =~= sub);
    }
    Ok(val)
}

/// The characters of an ASCII string, as bytes.
pub open spec fn byte_view(text: Seq<char>) -> Seq<u8> {
    Seq::new(text.len(), |i: int| text[i] as u8)
}

/// Position of the first `z` at or after `i`.
pub open spec fn first_z_from(s: Seq<u8>, i: int) -> Option<int>
    decreases s.len() - i,
{
    if i < 0 || i >= s.len() {
        None
    } else if s[i] == BYTE_Z {
        Some(i)
    } else {
        first_z_from(s, i + 1)
    }
}

/// A run containing `z`: what precedes the first `z` is the coefficient
/// (empty means one); what follows is empty (power one) or a caret and the
/// power's digits.
pub open spec fn zed_parse_spec(run: Seq<u8>) -> Result<(int, int), ParseError> {
    match first_z_from(run, 0) {
        None => Err(ParseError::Syntax),
        Some(zi) => {
            let coef = if zi == 0 {
                Ok::<int, ParseError>(1)
            } else {
                number_spec(run.take(zi), COEF_LIMIT as int)
            };
            let post = run.skip(zi + 1);
            let pow = if post.len() == 0 {
                Ok::<int, ParseError>(1)
            } else if post[0] == BYTE_CARET {
                number_spec(post.skip(1), POWER_LIMIT as int)
            } else {
                Err(ParseError::Syntax)
            };
            match (coef, pow) {
                (Ok(c), Ok(p)) => Ok((c, p)),
                _ => Err(ParseError::Syntax),
            }
        },
    }
}

/// A run without `z` is a bare number: a constant term.
pub open spec fn digit_only_parse_spec(run: Seq<u8>) -> Result<(int, int), ParseError> {
    match number_spec(run, COEF_LIMIT as int) {
        Ok(v) => Ok((v, 0)),
        Err(e) => Err(e),
    }
}

/// The (coefficient, power) pair a term run denotes, before its sign.
pub open spec fn pair_spec(run: Seq<u8>) -> Result<(int, int), ParseError> {
    if first_z_from(run, 0) is Some {
        zed_parse_spec(run)
    } else {
        digit_only_parse_spec(run)
    }
}

/// The term a signed run denotes: `None` when the coefficient is zero.
pub open spec fn term_spec(run: Seq<u8>, negative: bool) -> Result<
    Option<PolynomialTerm>,
    ParseError,
> {
    match pair_spec(run) {
        Err(e) => Err(e),
        Ok((c, p)) => {
            let sc = if negative {
                -c
            } else {
                c
            };
            if sc == 0 {
                Ok(None)
            } else {
                Ok(Some(PolynomialTerm { coefficient: sc as i64, power: p as u32 }))
            }
        },
    }
}

/// Find the first `z`, as executable code.
fn find_z(s: &Vec<u8>) -> (r: Option<usize>)
    ensures
        match r {
            Some(zi) => first_z_from(s@, 0) == Some(zi as int) && zi < s.len(),
            None => first_z_from(s@, 0) == None::<int>,
        },
{
    let mut i: usize = 0;
    while i < s.len()
        invariant
            i <= s.len(),
            first_z_from(s@, 0) == first_z_from(s@, i as int),
        decreases s.len() - i,
    {
        if s[i] == BYTE_Z {
            return Some(i);
        }
        i = i + 1;
    }
    None
}

/// Parse a run that contains `z`, as executable code.
fn parse_zed(run: &Vec<u8>) -> (r: Result<(i64, u32), ParseError>)
    ensures
        match r {
            Ok((c, p)) => zed_parse_spec(run@) == Ok::<(int, int), ParseError>((c as int, p as int))
                && 0 <= c <= COEF_LIMIT && p <= POWER_LIMIT,
            Err(e) => zed_parse_spec(run@) == Err::<(int, int), ParseError>(e),
        },
{
    let zi: usize = match find_z(run) {
        Some(z) => z,
        None => {
            return Err(ParseError::Syntax);
        },
    };
    proof {
        assert(run@.take(zi as int) =~= run@.subrange(0, zi as int));
    }
    let c: i64 = if zi == 0 {
        1
    } else {
        match parse_digits(run, 0, zi, COEF_LIMIT) {
            Ok(v) => v,
            Err(e) => {
                return Err(e);
            },
        }
    };
    let ghost post = run@.skip(zi + 1);
    let p: u32;
    if zi + 1 == run.len() {
        proof {
            assert(post.len() == 0);
        }
        p = 1;
    } else if run[zi + 1] == BYTE_CARET {
        proof {
            assert(post[0] == run@[zi + 1]);
            assert(post.skip(1) =~= run@.subrange(zi + 2, run@.len() as int));
        }
        match parse_digits(run, zi + 2, run.len(), 1000) {
            Ok(v) => {
                p = v as u32;
            },
            Err(e) => {
                return Err(e);
            },
        }
    } else {
        proof {
            assert(post[0] == run@[zi + 1]);
        }
        return Err(ParseError::Syntax);
    }
    Ok((c, p))
}

/// Parse a run without `z`, as executable code.
fn parse_digit_only(run: &Vec<u8>) -> (r: Result<(i64, u32), ParseError>)
    ensures
        match r {
            Ok((c, p)) => digit_only_parse_spec(run@) == Ok::<(int, int), ParseError>(
                (c as int, p as int),
            ) && 0 <= c <= COEF_LIMIT && p == 0,
            Err(e) => digit_only_parse_spec(run@) == Err::<(int, int), ParseError>(e),
        },
{
    proof {
        assert(run@.subrange(0, run@.len() as int) =~= run@);
    }
    match parse_digits(run, 0, run.len(), COEF_LIMIT) {
        Ok(v) => Ok((v, 0)),
        Err(e) => Err(e),
    }
}

/// Parse one signed term run, as executable code.
fn parse_run(run: &Vec<u8>, negative: bool) -> (r: Result<Option<PolynomialTerm>, ParseError>)
    ensures
        r == term_spec(run@, negative),
        r matches Ok(t) ==> (t matches Some(x) ==> term_wf(x) && x.coefficient != 0),
{
    let pair: Result<(i64, u32), ParseError> = match find_z(run) {
        Some(_) => parse_zed(run),
        None => parse_digit_only(run),
    };
    let (c, p): (i64, u32) = match pair {
        Ok(cp) => cp,
        Err(e) => {
            return Err(e);
        },
    };
    let sc: i64 = if negative {
        -c
    } else {
        c
    };
    if sc == 0 {
        Ok(None)
    } else {
        Ok(Some(PolynomialTerm { coefficient: sc, power: p }))
    }
}

/// What `PolynomialTerm::parse` returns: the term's run parsed over the
/// string's bytes, or a syntax error for text that is not ASCII.
pub open spec fn term_str_spec(s: &str, negative: bool) -> Result<
    Option<PolynomialTerm>,
    ParseError,
> {
    if !is_ascii(s) {
        Err(ParseError::Syntax)
    } else {
        term_spec(byte_view(s@), negative)
    }
}

/// What `try_zed_parse` returns.
pub open spec fn zed_str_spec(s: &str) -> Result<(int, int), ParseError> {
    if !is_ascii(s) {
        Err(ParseError::Syntax)
    } else {
        zed_parse_spec(byte_view(s@))
    }
}

/// What `try_digit_only_parse` returns.
pub open spec fn digit_only_str_spec(s: &str) -> Result<(int, int), ParseError> {
    if !is_ascii(s) {
        Err(ParseError::Syntax)
    } else {
        digit_only_parse_spec(byte_view(s@))
    }
}

/// The string's bytes when it is ASCII; `None` otherwise.
fn to_ascii_bytes(s: &str) -> (r: Option<Vec<u8>>)
    ensures
        match r {
            Some(v) => is_ascii(s) && v@ == byte_view(s@),
            None => !is_ascii(s),
        },
{
    if !s.is_ascii() {
        return None;
    }
    let bytes = s.as_bytes_vec();
    proof {
        is_ascii_spec_bytes(s);
        assert(bytes@ =~= byte_view(s@));
    }
    Some(bytes)
}

/// Parse a run that contains `z` into its (coefficient, power) pair: the
/// digits before the first `z` (one when empty), and the caret-prefixed
/// digits after it (one when absent).
pub fn try_zed_parse(s: &str) -> (r: Result<(i64, u32), ParseError>)
    ensures
        match r {
            Ok((c, p)) => zed_str_spec(s) == Ok::<(int, int), ParseError>((c as int, p as int)),
            Err(e) => zed_str_spec(s) == Err::<(int, int), ParseError>(e),
        },
{
    match to_ascii_bytes(s) {
        None => Err(ParseError::Syntax),
        Some(bytes) => parse_zed(&bytes),
    }
}

/// Parse a bare number run into a constant term's (coefficient, power) pair.
pub fn try_digit_only_parse(s: &str) -> (r: Result<(i64, u32), ParseError>)
    ensures
        match r {
            Ok((c, p)) => digit_only_str_spec(s) == Ok::<(int, int), ParseError>(
                (c as int, p as int),
            ),
            Err(e) => digit_only_str_spec(s) == Err::<(int, int), ParseError>(e),
        },
{
    match to_ascii_bytes(s) {
        None => Err(ParseError::Syntax),
        Some(bytes) => parse_digit_only(&bytes),
    }
}

impl PolynomialTerm {
    /// Parse one signed term run: `Ok(None)` when the coefficient is zero,
    /// a syntax error when the run is malformed.
    pub fn parse(function_str: &str, negative: bool) -> (r: Result<
        Option<PolynomialTerm>,
        ParseError,
    >)
        ensures
            r == term_str_spec(function_str, negative),
    {
        match to_ascii_bytes(function_str) {
            None => Err(ParseError::Syntax),
            Some(bytes) => parse_run(&bytes, negative),
        }
    }
}

pub open spec fn opt_seq(t: Option<PolynomialTerm>) -> Seq<PolynomialTerm> {
    match t {
        Some(x) => seq![x],
        None => Seq::<PolynomialTerm>::empty(),
    }
}

/// What a run yields when a sign or the end of the text closes it: nothing
/// when the run is empty, otherwise its term.
pub open spec fn finish_run(run: Seq<u8>, negative: bool) -> Result<
    Option<PolynomialTerm>,
    ParseError,
> {
    if run.len() == 0 {
        Ok(None)
    } else {
        term_spec(run, negative)
    }
}

/// The raw term list of the text from position `i` on: `negative` is the
/// sign of the run currently open, `run` what has been read of it.
pub open spec fn scan_from(s: Seq<u8>, i: int, negative: bool, run: Seq<u8>) -> Result<
    Seq<PolynomialTerm>,
    ParseError,
>
    decreases s.len() - i,
{
    if i < 0 || i >= s.len() {
        match finish_run(run, negative) {
            Err(e) => Err(e),
            Ok(t) => Ok(opt_seq(t)),
        }
    } else if is_sign_byte(s[i]) {
        match finish_run(run, negative) {
            Err(e) => Err(e),
            Ok(t) => match scan_from(s, i + 1, s[i] == BYTE_MINUS, Seq::<u8>::empty()) {
                Err(e) => Err(e),
                Ok(rest) => Ok(opt_seq(t) + rest),
            },
        }
    } else {
        scan_from(s, i + 1, negative, run.push(s[i]))
    }
}

/// Insert a term into a descending-power sequence: a greater power goes in
/// front, an equal power merges by summing coefficients (the term vanishes
/// when the sum is zero, and a sum beyond the coefficient bound is an
/// error), a smaller power moves past the head.
pub open spec fn insert_term_spec(ts: Seq<PolynomialTerm>, t: PolynomialTerm) -> Result<
    Seq<PolynomialTerm>,
    ParseError,
>
    decreases ts.len(),
{
    if ts.len() == 0 {
        Ok(seq![t])
    } else if t.power > ts[0].power {
        Ok(seq![t] + ts)
    } else if t.power == ts[0].power {
        let sc = (ts[0].coefficient as int) + (t.coefficient as int);
        if sc == 0 {
            Ok(ts.drop_first())
        } else if -COEF_LIMIT <= sc <= COEF_LIMIT {
            Ok(seq![PolynomialTerm { coefficient: sc as i64, power: t.power }] + ts.drop_first())
        } else {
            Err(ParseError::Syntax)
        }
    } else {
        match insert_term_spec(ts.drop_first(), t) {
            Ok(rest) => Ok(seq![ts[0]] + rest),
            Err(e) => Err(e),
        }
    }
}

/// Merge the raw term list, left to right, into a descending sequence of
/// unique powers.
pub open spec fn merge_terms_spec(raw: Seq<PolynomialTerm>) -> Result<
    Seq<PolynomialTerm>,
    ParseError,
>
    decreases raw.len(),
{
    if raw.len() == 0 {
        Ok(Seq::<PolynomialTerm>::empty())
    } else {
        match merge_terms_spec(raw.drop_last()) {
            Err(e) => Err(e),
            Ok(acc) => insert_term_spec(acc, raw.last()),
        }
    }
}

/// The merged terms of a formula's bytes: stripped, sign pairs collapsed,
/// scanned into raw terms, merged; empty when no term survives.
pub open spec fn parse_terms_of_bytes(bytes: Seq<u8>) -> Result<Seq<PolynomialTerm>, ParseError> {
    match scan_from(canon_from(strip_from(bytes, 0), 0), 0, false, Seq::<u8>::empty()) {
        Err(e) => Err(e),
        Ok(raw) => match merge_terms_spec(raw) {
            Err(e) => Err(e),
            Ok(m) => if m.len() == 0 {
                Err(ParseError::Empty)
            } else {
                Ok(m)
            },
        },
    }
}

/// What `Polynomial::parse` accepts and returns, as a function of the text.
pub open spec fn parse_str_spec(s: &str) -> Result<Seq<PolynomialTerm>, ParseError> {
    if !is_ascii(s) {
        Err(ParseError::Syntax)
    } else {
        parse_terms_of_bytes(byte_view(s@))
    }
}

/// Skipping past entries whose power exceeds the inserted term's only
/// prepends them to the insertion's result.
proof fn lemma_insert_skip(ts: Seq<PolynomialTerm>, t: PolynomialTerm, j: int)
    requires
        0 <= j <= ts.len(),
        forall|i: int| 0 <= i < j ==> (#[trigger] ts[i]).power > t.power,
    ensures
        insert_term_spec(ts, t) == (match insert_term_spec(ts.skip(j), t) {
            Ok(r) => Ok::<Seq<PolynomialTerm>, ParseError>(ts.take(j) + r),
            Err(e) => Err::<Seq<PolynomialTerm>, ParseError>(e),
        }),
    decreases j,
{
    if j == 0 {
        assert(ts.skip(0) =~= ts);
        if insert_term_spec(ts, t) is Ok {
            let r = insert_term_spec(ts, t)->Ok_0;
            assert(ts.take(0) + r =~= r);
        }
    } else {
        assert(forall|i: int|
            0 <= i < ts.len() - 1 ==> ts.drop_first()[i] == #[trigger] ts[i + 1]);
        lemma_insert_skip(ts.drop_first(), t, j - 1);
        assert(ts.drop_first().skip(j - 1) =~= ts.skip(j));
        assert(ts.drop_first().take(j - 1) =~= ts.take(j).drop_first());
        if insert_term_spec(ts.skip(j), t) is Ok {
            let r = insert_term_spec(ts.skip(j), t)->Ok_0;
            assert(seq![ts[0]] + (ts.drop_first().take(j - 1) + r) =~= ts.take(j) + r);
        }
    }
}

/// The only error an insertion can raise is a syntax error.
proof fn lemma_insert_err_is_syntax(ts: Seq<PolynomialTerm>, t: PolynomialTerm)
    ensures
        insert_term_spec(ts, t) matches Err(e) ==> e == ParseError::Syntax,
    decreases ts.len(),
{
    if ts.len() > 0 && t.power < ts[0].power {
        lemma_insert_err_is_syntax(ts.drop_first(), t);
    }
}

/// Once a prefix of the raw list fails to merge, the whole list fails the
/// same way.
proof fn lemma_merge_prefix_err(raw: Seq<PolynomialTerm>, i: int)
    requires
        0 <= i <= raw.len(),
        merge_terms_spec(raw.take(i)) is Err,
    ensures
        merge_terms_spec(raw) == merge_terms_spec(raw.take(i)),
    decreases raw.len() - i,
{
    if i == raw.len() {
        assert(raw.take(i) =~= raw);
    } else {
        assert(raw.take(i + 1).drop_last() =~= raw.take(i));
        lemma_merge_prefix_err(raw, i + 1);
    }
}

/// Insert a term into a descending term vector, as executable code.
fn insert_term(ts: &mut Vec<PolynomialTerm>, t: PolynomialTerm) -> (ok: bool)
    requires
        terms_wf(old(ts)@),
        term_wf(t),
        t.coefficient != 0,
    ensures
        match insert_term_spec(old(ts)@, t) {
            Ok(r) => ok && final(ts)@ == r && terms_wf(r),
            Err(_) => !ok,
        },
{
    let ghost orig = ts@;
    let mut j: usize = 0;
    while j < ts.len() && ts[j].power > t.power
        invariant
            ts@ == orig,
            terms_wf(orig),
            j <= orig.len(),
            forall|i: int| 0 <= i < j ==> (#[trigger] orig[i]).power > t.power,
        decreases ts.len() - j,
    {
        j = j + 1;
    }
    proof {
        lemma_insert_skip(orig, t, j as int);
    }
    if j < ts.len() && ts[j].power == t.power {
        proof {
            assert(term_wf(orig[j as int]));
        }
        let sc: i64 = ts[j].coefficient + t.coefficient;
        if sc == 0 {
            ts.remove(j);
            proof {
                assert(orig.skip(j as int).drop_first() =~= orig.skip(j + 1));
                assert(ts@ =~= orig.take(j as int) + orig.skip(j + 1));
                assert(insert_term_spec(orig, t) == Ok::<Seq<PolynomialTerm>, ParseError>(ts@));
                assert forall|i1: int, i2: int| 0 <= i1 < i2 < ts@.len() implies ts@[i1].power
                    > ts@[i2].power by {
                    let o1 = if i1 < j {
                        i1
                    } else {
                        i1 + 1
                    };
                    let o2 = if i2 < j {
                        i2
                    } else {
                        i2 + 1
                    };
                    assert(ts@[i1] == orig[o1] && ts@[i2] == orig[o2]);
                }
                assert forall|i: int| 0 <= i < ts@.len() implies term_wf(#[trigger] ts@[i])
                    && ts@[i].coefficient != 0 by {
                    let o = if i < j {
                        i
                    } else {
                        i + 1
                    };
                    assert(ts@[i] == orig[o]);
                }
            }
            true
        } else if -COEF_LIMIT <= sc && sc <= COEF_LIMIT {
            let merged = PolynomialTerm { coefficient: sc, power: t.power };
            ts[j] = merged;
            proof {
                assert(orig.skip(j as int).drop_first() =~= orig.skip(j + 1));
                assert(ts@ =~= orig.take(j as int) + (seq![merged] + orig.skip(j + 1)));
                assert(insert_term_spec(orig.skip(j as int), t) == Ok::<
                    Seq<PolynomialTerm>,
                    ParseError,
                >(seq![merged] + orig.skip(j + 1)));
                assert(insert_term_spec(orig, t) == Ok::<Seq<PolynomialTerm>, ParseError>(ts@));
                assert(ts@ =~= orig.update(j as int, merged));
                assert forall|i1: int, i2: int| 0 <= i1 < i2 < ts@.len() implies ts@[i1].power
                    > ts@[i2].power by {
                    assert(orig[i1].power > orig[i2].power);
                }
                assert(terms_wf(ts@));
            }
            true
        } else {
            false
        }
    } else {
        ts.insert(j, t);
        proof {
            assert(ts@ =~= orig.take(j as int) + (seq![t] + orig.skip(j as int)));
            if j < orig.len() {
                assert(orig.skip(j as int)[0] == orig[j as int]);
                assert(orig[j as int].power < t.power);
            }
            assert(insert_term_spec(orig, t) == Ok::<Seq<PolynomialTerm>, ParseError>(ts@));
            assert forall|i1: int, i2: int| 0 <= i1 < i2 < ts@.len() implies ts@[i1].power
                > ts@[i2].power by {
                if i1 < j && i2 == j {
                    assert(ts@[i1] == orig[i1]);
                } else if i1 == j && i2 > j {
                    assert(ts@[i2] == orig[i2 - 1]);
                    assert(orig[j as int].power >= orig[i2 - 1].power);
                } else if i1 < j && i2 > j {
                    assert(ts@[i1] == orig[i1] && ts@[i2] == orig[i2 - 1]);
                    assert(orig[i1].power > t.power);
                    assert(orig[j as int].power >= orig[i2 - 1].power);
                } else if i2 < j {
                    assert(ts@[i1] == orig[i1] && ts@[i2] == orig[i2]);
                } else {
                    assert(ts@[i1] == orig[i1 - 1] && ts@[i2] == orig[i2 - 1]);
                }
            }
            assert forall|i: int| 0 <= i < ts@.len() implies term_wf(#[trigger] ts@[i])
                && ts@[i].coefficient != 0 by {
                if i < j {
                    assert(ts@[i] == orig[i]);
                } else if i > j {
                    assert(ts@[i] == orig[i - 1]);
                }
            }
        }
        true
    }
}

/// Merge a raw term list, as executable code.
fn merge_terms(raw: &Vec<PolynomialTerm>) -> (r: Result<Vec<PolynomialTerm>, ParseError>)
    requires
        forall|k: int|
            0 <= k < raw.len() ==> term_wf(#[trigger] raw@[k]) && raw@[k].coefficient != 0,
    ensures
        match r {
            Ok(v) => merge_terms_spec(raw@) == Ok::<Seq<PolynomialTerm>, ParseError>(v@)
                && terms_wf(v@),
            Err(e) => merge_terms_spec(raw@) == Err::<Seq<PolynomialTerm>, ParseError>(e),
        },
{
    let mut acc: Vec<PolynomialTerm> = Vec::new();
    let mut i: usize = 0;
    while i < raw.len()
        invariant
            i <= raw.len(),
            forall|k: int|
                0 <= k < raw.len() ==> term_wf(#[trigger] raw@[k]) && raw@[k].coefficient != 0,
            merge_terms_spec(raw@.take(i as int)) == Ok::<Seq<PolynomialTerm>, ParseError>(acc@),
            terms_wf(acc@),
        decreases raw.len() - i,
    {
        let ghost acc_old = acc@;
        let t: PolynomialTerm = raw[i];
        let ok: bool = insert_term(&mut acc, t);
        proof {
            assert(raw@.take(i + 1).drop_last() =~= raw@.take(i as int));
            assert(raw@.take(i + 1).last() == raw@[i as int]);
        }
        if !ok {
            proof {
                lemma_insert_err_is_syntax(acc_old, t);
                assert(merge_terms_spec(raw@.take(i + 1)) == Err::<Seq<PolynomialTerm>, ParseError>(
                    ParseError::Syntax,
                ));
                lemma_merge_prefix_err(raw@, i + 1);
            }
            return Err(ParseError::Syntax);
        }
        i = i + 1;
    }
    proof {
        assert(raw@.take(raw.len() as int) =~= raw@);
    }
    Ok(acc)
}

/// Cut the canonical text into signed runs and parse each, as executable
/// code.
fn scan_terms(s: &Vec<u8>) -> (r: Result<Vec<PolynomialTerm>, ParseError>)
    ensures
        match r {
            Ok(v) => scan_from(s@, 0, false, Seq::<u8>::empty()) == Ok::<
                Seq<PolynomialTerm>,
                ParseError,
            >(v@) && forall|k: int|
                0 <= k < v.len() ==> term_wf(#[trigger] v@[k]) && v@[k].coefficient != 0,
            Err(e) => scan_from(s@, 0, false, Seq::<u8>::empty()) == Err::<
                Seq<PolynomialTerm>,
                ParseError,
            >(e),
        },
{
    let mut out: Vec<PolynomialTerm> = Vec::new();
    let mut run: Vec<u8> = Vec::new();
    let mut negative: bool = false;
    let mut i: usize = 0;
    while i < s.len()
        invariant
            i <= s.len(),
            forall|k: int|
                0 <= k < out.len() ==> term_wf(#[trigger] out@[k]) && out@[k].coefficient != 0,
            match scan_from(s@, i as int, negative, run@) {
                Ok(rest) => scan_from(s@, 0, false, Seq::<u8>::empty()) == Ok::<
                    Seq<PolynomialTerm>,
                    ParseError,
                >(out@ + rest),
                Err(e) => scan_from(s@, 0, false, Seq::<u8>::empty()) == Err::<
                    Seq<PolynomialTerm>,
                    ParseError,
                >(e),
            },
        decreases s.len() - i,
    {
        let b: u8 = s[i];
        if b == BYTE_PLUS || b == BYTE_MINUS {
            let ghost out_before = out@;
            if run.len() > 0 {
                match parse_run(&run, negative) {
                    Err(e) => {
                        return Err(e);
                    },
                    Ok(Some(t)) => {
                        out.push(t);
                    },
                    Ok(None) => {
                    },
                }
            }
            proof {
                let t = finish_run(run@, negative)->Ok_0;
                assert(out@ =~= out_before + opt_seq(t));
                if scan_from(s@, i + 1, b == BYTE_MINUS, Seq::<u8>::empty()) is Ok {
                    let rest = scan_from(s@, i + 1, b == BYTE_MINUS, Seq::<u8>::empty())->Ok_0;
                    assert((out_before + opt_seq(t)) + rest =~= out_before + (opt_seq(t) + rest));
                }
            }
            negative = b == BYTE_MINUS;
            run = Vec::new();
        } else {
            run.push(b);
        }
        i = i + 1;
    }
    if run.len() > 0 {
        match parse_run(&run, negative) {
            Err(e) => {
                return Err(e);
            },
            Ok(Some(t)) => {
                let ghost out_before = out@;
                out.push(t);
                proof {
                    assert(out@ =~= out_before + opt_seq(Some(t)));
                }
            },
            Ok(None) => {
                proof {
                    assert(out@ + opt_seq(None::<PolynomialTerm>) =~= out@);
                }
            },
        }
    } else {
        proof {
            assert(out@ + opt_seq(None::<PolynomialTerm>) =~= out@);
        }
    }
    Ok(out)
}

impl Polynomial {
    /// Parse a formula into a polynomial with its three symbolic
    /// derivatives. Returns exactly the term sequence the grammar assigns to
    /// the text; a malformed term is a syntax error, a formula with no
    /// surviving term is empty.
    pub fn parse(function_str: &str) -> (r: Result<Polynomial, ParseError>)
        ensures
            match r {
                Ok(p) => parse_str_spec(function_str) == Ok::<Seq<PolynomialTerm>, ParseError>(
                    p.fun(),
                ) && p.wf() && p.den() == 1,
                Err(e) => parse_str_spec(function_str) == Err::<Seq<PolynomialTerm>, ParseError>(e),
            },
    {
        let bytes: Vec<u8> = match to_ascii_bytes(function_str) {
            None => {
                return Err(ParseError::Syntax);
            },
            Some(v) => v,
        };
        let stripped = strip_bytes(&bytes);
        let canon = canon_bytes(&stripped);
        let raw: Vec<PolynomialTerm> = match scan_terms(&canon) {
            Err(e) => {
                return Err(e);
            },
            Ok(v) => v,
        };
        let merged: Vec<PolynomialTerm> = match merge_terms(&raw) {
            Err(e) => {
                return Err(e);
            },
            Ok(v) => v,
        };
        if merged.len() == 0 {
            return Err(ParseError::Empty);
        }
        Ok(Polynomial::from_sorted_terms(merged))
    }
}

} // verus!

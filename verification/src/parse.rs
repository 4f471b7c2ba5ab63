//! Parsing of the calculator's numeric arguments: decimal fixed-point
//! numbers ("0.9"), comma-separated lists of them ("5.0,2.5,2.5"), and
//! semicolon-separated probability rows ("0.1,0.5,0.4;...").
//!
//! A number has at least one integer digit and, if a decimal point is
//! present, one to nine fraction digits; its value is the scaled
//! integer `number_value`, capped at `REWARD_MAX`.

use crate::model::{REWARD_MAX, SCALE};
use vstd::prelude::*;

verus! {

/// Why a parameter string was rejected.
#[derive(Clone, Copy, Debug, PartialEq, Eq, Structural)]
pub enum ParseError {
    /// A segment is not a well-formed fixed-point number within range.
    BadNumber,
    /// The rewards list held this many values instead of three.
    RewardCount(usize),
    /// A probability row held this many values instead of three.
    RowLength(usize),
    /// The probability matrix held this many values instead of nine.
    ProbabilityCount(usize),
}

pub open spec fn is_digit(b: u8) -> bool {
    48 <= b && b <= 57
}

pub open spec fn all_digits(s: Seq<u8>) -> bool {
    forall|i: int| 0 <= i < s.len() ==> is_digit(#[trigger] s[i])
}

/// The number a string of decimal digits denotes.
pub open spec fn digits_value(s: Seq<u8>) -> int
    decreases s.len(),
{
    if s.len() == 0 {
        0
    } else {
        10 * digits_value(s.drop_last()) + (s.last() - 48)
    }
}

/// The index of the first occurrence of `sep`, or the length when the
/// byte does not occur.
pub open spec fn first_sep(s: Seq<u8>, sep: u8) -> nat
    decreases s.len(),
{
    if s.len() == 0 {
        0
    } else if s[0] == sep {
        0
    } else {
        1 + first_sep(s.drop_first(), sep)
    }
}

/// `first_sep` is where a forward scan that saw no `sep` up to `i`
/// stops.
pub proof fn lemma_first_sep_at(s: Seq<u8>, sep: u8, i: int)
    requires
        0 <= i <= s.len(),
        forall|j: int| 0 <= j < i ==> s[j] != sep,
        i < s.len() ==> s[i] == sep,
    ensures
        first_sep(s, sep) == i,
    decreases i,
{
    if i == 0 {
    } else {
        lemma_first_sep_at(s.drop_first(), sep, i - 1);
    }
}

pub open spec fn pow10(n: nat) -> int
    decreases n,
{
    if n == 0 {
        1
    } else {
        10 * pow10((n - 1) as nat)
    }
}

pub proof fn lemma_digits_value_nonneg(s: Seq<u8>)
    requires
        all_digits(s),
    ensures
        digits_value(s) >= 0,
    decreases s.len(),
{
    if s.len() > 0 {
        lemma_digits_value_nonneg(s.drop_last());
    }
}

/// A digit string's value is below ten to its length.
pub proof fn lemma_digits_value_upper(s: Seq<u8>)
    requires
        all_digits(s),
    ensures
        digits_value(s) < pow10(s.len()),
    decreases s.len(),
{
    if s.len() > 0 {
        lemma_digits_value_upper(s.drop_last());
    }
}

/// Extending a digit string never shrinks its value.
pub proof fn lemma_digits_value_mono(s: Seq<u8>, i: int)
    requires
        all_digits(s),
        0 <= i <= s.len(),
    ensures
        digits_value(s.take(i)) <= digits_value(s),
    decreases s.len() - i,
{
    if i < s.len() {
        lemma_digits_value_mono(s, i + 1);
        assert(s.take(i + 1).drop_last() =~= s.take(i));
        assert(s.take(i + 1).last() == s[i]);
        lemma_digits_value_nonneg(s.take(i));
    } else {
        assert(s.take(i) =~= s);
    }
}

/// A well-formed number: digits, or digits, a point, and one to nine
/// fraction digits.
pub open spec fn wf_number(s: Seq<u8>) -> bool {
    let p = first_sep(s, 46);
    if p == s.len() {
        s.len() >= 1 && all_digits(s)
    } else {
        &&& 1 <= p
        &&& all_digits(s.take(p as int))
        &&& 1 <= s.len() - p - 1 <= 9
        &&& all_digits(s.skip(p + 1 as int))
    }
}

/// The scaled value a well-formed number denotes: the integer part in
/// whole units plus the fraction padded to nine digits.
pub open spec fn number_value(s: Seq<u8>) -> int {
    let p = first_sep(s, 46);
    if p == s.len() {
        digits_value(s) * SCALE
    } else {
        digits_value(s.take(p as int)) * SCALE + digits_value(s.skip(p + 1 as int)) * pow10(
            (9 - (s.len() - p - 1)) as nat,
        )
    }
}

/// A number the parser accepts: well formed and within the bound kept
/// on rewards.
pub open spec fn ok_number(s: Seq<u8>) -> bool {
    wf_number(s) && number_value(s) <= REWARD_MAX
}

/// Parses a digit string into its value, rejecting anything that is
/// not all digits, is empty, or exceeds `cap`.
fn parse_digits(s: &[u8], cap: u64) -> (r: Option<u64>)
    requires
        cap <= 1_000_000_000_000,
    ensures
        r is Some <==> (s@.len() >= 1 && all_digits(s@) && digits_value(s@) <= cap),
        r matches Some(v) ==> v == digits_value(s@),
{
    if s.len() == 0 {
        return None;
    }
    let mut acc: u64 = 0;
    let mut i: usize = 0;
    while i < s.len()
        invariant
            0 <= i <= s@.len(),
            cap <= 1_000_000_000_000,
            all_digits(s@.take(i as int)),
            acc == digits_value(s@.take(i as int)),
            acc <= cap,
        decreases s@.len() - i,
    {
        let b = s[i];
        if b < 48 || b > 57 {
            return None;
        }
        proof {
            assert(s@.take(i + 1).drop_last() =~= s@.take(i as int));
            assert(s@.take(i + 1).last() == s@[i as int]);
        }
        acc = acc * 10 + ((b - 48) as u64);
        i = i + 1;
        if acc > cap {
            proof {
                if all_digits(s@) {
                    lemma_digits_value_mono(s@, i as int);
                }
            }
            return None;
        }
    }
    proof {
        assert(s@.take(i as int) =~= s@);
    }
    Some(acc)
}

/// Ten to the `n`, for exponents up to nine.
fn pow10_exec(n: usize) -> (r: u64)
    requires
        n <= 9,
    ensures
        r == pow10(n as nat),
{
    let mut r: u64 = 1;
    let mut k: usize = 0;
    while k < n
        invariant
            0 <= k <= n <= 9,
            r == pow10(k as nat),
        decreases n - k,
    {
        proof {
            lemma_pow10_mono(k as nat, 8);
            assert(pow10(8) == 100_000_000) by {
                reveal_with_fuel(pow10, 9);
            }
        }
        r = r * 10;
        k = k + 1;
    }
    r
}

/// Parses one decimal fixed-point number. Accepts exactly the strings
/// `ok_number` describes and returns exactly their scaled value.
pub fn parse_fixed(s: &[u8]) -> (r: Option<u64>)
    ensures
        r is Some <==> ok_number(s@),
        r matches Some(v) ==> v == number_value(s@),
{
    // Find the decimal point.
    let mut p: usize = 0;
    while p < s.len() && s[p] != 46
        invariant
            0 <= p <= s@.len(),
            forall|j: int| 0 <= j < p ==> s@[j] != 46,
        decreases s@.len() - p,
    {
        p = p + 1;
    }
    proof {
        lemma_first_sep_at(s@, 46, p as int);
    }
    let int_part = &s[0..p];
    proof {
        assert(int_part@ =~= s@.take(p as int));
    }
    proof {
        if p == s.len() {
            assert(s@.take(p as int) =~= s@);
        }
    }
    let int_raw = match parse_digits(int_part, 1_000_000) {
        Some(v) => v,
        None => {
            proof {
                if wf_number(s@) {
                    // The integer digits alone already exceed the cap,
                    // so the whole value exceeds the reward bound.
                    lemma_int_part_over_cap(s@, p as int);
                }
            }
            return None;
        },
    };
    if p == s.len() {
        return Some(int_raw * 1_000_000_000);
    }
    let frac_part = &s[p + 1..s.len()];
    proof {
        assert(frac_part@ =~= s@.skip(p + 1 as int));
    }
    if frac_part.len() < 1 || frac_part.len() > 9 {
        return None;
    }
    let frac_raw = match parse_digits(frac_part, 999_999_999) {
        Some(v) => v,
        None => {
            proof {
                if all_digits(frac_part@) {
                    lemma_digits_value_nonneg(frac_part@);
                    lemma_digits_value_upper(frac_part@);
                    lemma_pow10_mono(frac_part@.len(), 9);
                    assert(pow10(9) == 1_000_000_000) by {
                        reveal_with_fuel(pow10, 10);
                    }
                }
            }
            return None;
        },
    };
    proof {
        lemma_digits_value_nonneg(frac_part@);
        lemma_digits_value_upper(frac_part@);
        lemma_pow10_mul_bound(frac_part@.len());
    }
    let scaled_frac = frac_raw * pow10_exec(9 - frac_part.len());
    let value = int_raw * 1_000_000_000 + scaled_frac;
    if value > REWARD_MAX {
        return None;
    }
    Some(value)
}

/// A well-formed number whose integer part exceeds the raw cap has a
/// scaled value beyond the reward bound.
proof fn lemma_int_part_over_cap(s: Seq<u8>, p: int)
    requires
        wf_number(s),
        p == first_sep(s, 46),
        digits_value(s.take(p)) > 1_000_000,
    ensures
        number_value(s) > REWARD_MAX,
{
    if p == s.len() {
        assert(s.take(p) =~= s);
        vstd::arithmetic::mul::lemma_mul_inequality(1_000_001, digits_value(s), SCALE as int);
    } else {
        vstd::arithmetic::mul::lemma_mul_inequality(
            1_000_001,
            digits_value(s.take(p)),
            SCALE as int,
        );
        let flen = (9 - (s.len() - p - 1)) as nat;
        lemma_digits_value_nonneg(s.skip(p + 1));
        lemma_pow10_mono(0, flen);
        vstd::arithmetic::mul::lemma_mul_nonnegative(digits_value(s.skip(p + 1)), pow10(flen));
    }
}

/// Powers of ten grow with the exponent.
proof fn lemma_pow10_mono(a: nat, b: nat)
    requires
        a <= b,
    ensures
        pow10(a) <= pow10(b),
        pow10(a) >= 1,
    decreases b,
{
    if a < b {
        lemma_pow10_mono(a, (b - 1) as nat);
    } else if b > 0 {
        lemma_pow10_mono((a - 1) as nat, (b - 1) as nat);
    }
}

/// A fraction of `k` digits, padded to nine, stays below one unit.
proof fn lemma_pow10_mul_bound(k: nat)
    requires
        1 <= k <= 9,
    ensures
        pow10((9 - k) as nat) <= 1_000_000_000,
        (pow10(k) - 1) * pow10((9 - k) as nat) < 1_000_000_000,
        forall|v: int|
            0 <= v < pow10(k) ==> #[trigger] (v * pow10((9 - k) as nat)) < 1_000_000_000,
{
    lemma_pow10_mono((9 - k) as nat, 9);
    assert(pow10(9) == 1_000_000_000) by {
        reveal_with_fuel(pow10, 10);
    }
    assert(pow10(k) * pow10((9 - k) as nat) == pow10(9)) by {
        lemma_pow10_add(k, (9 - k) as nat);
    }
    lemma_pow10_mono(0, (9 - k) as nat);
    vstd::arithmetic::mul::lemma_mul_is_distributive_sub_other_way(
        pow10((9 - k) as nat),
        pow10(k),
        1,
    );
    assert((pow10(k) - 1) * pow10((9 - k) as nat) == pow10(9) - pow10((9 - k) as nat));
    assert forall|v: int| 0 <= v < pow10(k) implies #[trigger] (v * pow10((9 - k) as nat))
        < 1_000_000_000 by {
        vstd::arithmetic::mul::lemma_mul_inequality(v, pow10(k) - 1, pow10((9 - k) as nat));
        vstd::arithmetic::mul::lemma_mul_is_distributive_sub_other_way(
            pow10((9 - k) as nat),
            pow10(k),
            1,
        );
    }
}

proof fn lemma_pow10_add(a: nat, b: nat)
    ensures
        pow10(a) * pow10(b) == pow10((a + b) as nat),
    decreases a,
{
    if a == 0 {
        assert(pow10(0) * pow10(b) == pow10(b));
    } else {
        lemma_pow10_add((a - 1) as nat, b);
        assert(pow10(a) * pow10(b) == 10 * (pow10((a - 1) as nat) * pow10(b))) by {
            vstd::arithmetic::mul::lemma_mul_is_associative(
                10,
                pow10((a - 1) as nat),
                pow10(b),
            );
        }
    }
}

/// The values a comma-separated list of numbers denotes, in order, or
/// nothing when any segment is not an acceptable number.
pub open spec fn parse_list_spec(s: Seq<u8>) -> Option<Seq<int>>
    decreases s.len(),
{
    let c = first_sep(s, 44);
    if c >= s.len() {
        if ok_number(s) {
            Some(seq![number_value(s)])
        } else {
            None
        }
    } else {
        if ok_number(s.take(c as int)) {
            match parse_list_spec(s.skip(c + 1 as int)) {
                Some(rest) => Some(seq![number_value(s.take(c as int))] + rest),
                None => None,
            }
        } else {
            None
        }
    }
}

/// The view of a parsed vector as mathematical integers.
pub open spec fn ints_of(vs: Seq<u64>) -> Seq<int> {
    vs.map_values(|v: u64| v as int)
}

/// Parses a comma-separated list of fixed-point numbers: exactly the
/// lists `parse_list_spec` accepts, with exactly its values.
pub fn parse_values(s: &[u8]) -> (r: Result<Vec<u64>, ParseError>)
    ensures
        r matches Ok(vs) ==> parse_list_spec(s@) == Some(ints_of(vs@)),
        r is Err <==> parse_list_spec(s@) is None,
        r matches Err(e) ==> e == ParseError::BadNumber,
{
    let mut out: Vec<u64> = Vec::new();
    let mut start: usize = 0;
    proof {
        assert(s@.skip(0) =~= s@);
        if parse_list_spec(s@) is Some {
            assert(ints_of(out@) + parse_list_spec(s@)->Some_0 =~= parse_list_spec(
                s@,
            )->Some_0);
        }
    }
    loop
        invariant
            0 <= start <= s@.len(),
            parse_list_spec(s@) == (match parse_list_spec(s@.skip(start as int)) {
                Some(rest) => Some(ints_of(out@) + rest),
                None => None::<Seq<int>>,
            }),
        decreases s@.len() - start,
    {
        let ghost t = s@.skip(start as int);
        let mut c: usize = start;
        while c < s.len() && s[c] != 44
            invariant
                start <= c <= s@.len(),
                forall|j: int| start <= j < c ==> s@[j] != 44,
            decreases s@.len() - c,
        {
            c = c + 1;
        }
        proof {
            assert forall|j: int| 0 <= j < c - start implies t[j] != 44 by {
                assert(t[j] == s@[start + j]);
            }
            lemma_first_sep_at(t, 44, c - start);
        }
        let seg = &s[start..c];
        proof {
            assert(seg@ =~= t.take(c - start));
            if c == s.len() {
                assert(seg@ =~= t);
            }
        }
        match parse_fixed(seg) {
            None => {
                return Err(ParseError::BadNumber);
            },
            Some(v) => {
                out.push(v);
                if c == s.len() {
                    proof {
                        assert(parse_list_spec(t) == Some(seq![number_value(t)]));
                        assert(ints_of(out@) =~= ints_of(out@.drop_last()) + seq![
                            number_value(t),
                        ]);
                    }
                    return Ok(out);
                }
                proof {
                    let t2 = s@.skip(c + 1 as int);
                    assert(t.skip(c - start + 1) =~= t2);
                    assert(parse_list_spec(t) == (match parse_list_spec(t2) {
                        Some(rest) => Some(seq![number_value(t.take(c - start))] + rest),
                        None => None::<Seq<int>>,
                    }));
                    if parse_list_spec(t2) is Some {
                        let rest = parse_list_spec(t2)->Some_0;
                        assert(ints_of(out@) + rest =~= ints_of(out@.drop_last()) + (seq![
                            number_value(t.take(c - start)),
                        ] + rest));
                    }
                }
                start = c + 1;
            },
        }
    }
}

/// Parses the rewards argument: a comma-separated list that must hold
/// exactly three values.
pub fn parse_rewards(s: &[u8]) -> (r: Result<Vec<u64>, ParseError>)
    ensures
        ({
            match parse_list_spec(s@) {
                None => r == Err::<Vec<u64>, ParseError>(ParseError::BadNumber),
                Some(m) => {
                    if m.len() == 3 {
                        r matches Ok(vs) && ints_of(vs@) == m
                    } else {
                        r == Err::<Vec<u64>, ParseError>(
                            ParseError::RewardCount(m.len() as usize),
                        )
                    }
                },
            }
        }),
{
    match parse_values(s) {
        Err(e) => Err(e),
        Ok(vs) => {
            if vs.len() == 3 {
                Ok(vs)
            } else {
                Err(ParseError::RewardCount(vs.len()))
            }
        },
    }
}

/// The flattened probability matrix a semicolon-separated list of rows
/// denotes, or the first error met scanning the rows left to right:
/// a segment that is not a list of acceptable numbers, or a row whose
/// length is not three.
pub open spec fn parse_rows_spec(s: Seq<u8>) -> Result<Seq<int>, ParseError>
    decreases s.len(),
{
    let c = first_sep(s, 59);
    let seg = if c >= s.len() {
        s
    } else {
        s.take(c as int)
    };
    match parse_list_spec(seg) {
        None => Err(ParseError::BadNumber),
        Some(row) => {
            if row.len() != 3 {
                Err(ParseError::RowLength(row.len() as usize))
            } else if c >= s.len() {
                Ok(row)
            } else {
                match parse_rows_spec(s.skip(c + 1 as int)) {
                    Ok(rest) => Ok(row + rest),
                    Err(e) => Err(e),
                }
            }
        },
    }
}

/// Parses the probability argument: rows separated by semicolons, each
/// a comma-separated list of exactly three numbers, flattened row by
/// row; nine values in all.
pub fn parse_probability(s: &[u8]) -> (r: Result<Vec<u64>, ParseError>)
    ensures
        ({
            match parse_rows_spec(s@) {
                Err(e) => r == Err::<Vec<u64>, ParseError>(e),
                Ok(flat) => {
                    if flat.len() == 9 {
                        r matches Ok(vs) && ints_of(vs@) == flat
                    } else {
                        r == Err::<Vec<u64>, ParseError>(
                            ParseError::ProbabilityCount(flat.len() as usize),
                        )
                    }
                },
            }
        }),
{
    let mut out: Vec<u64> = Vec::new();
    let mut start: usize = 0;
    proof {
        assert(s@.skip(0) =~= s@);
        if parse_rows_spec(s@) is Ok {
            assert(ints_of(out@) + parse_rows_spec(s@)->Ok_0 =~= parse_rows_spec(s@)->Ok_0);
        }
    }
    loop
        invariant
            0 <= start <= s@.len(),
            parse_rows_spec(s@) == (match parse_rows_spec(s@.skip(start as int)) {
                Ok(rest) => Ok::<Seq<int>, ParseError>(ints_of(out@) + rest),
                Err(e) => Err::<Seq<int>, ParseError>(e),
            }),
        decreases s@.len() - start,
    {
        let ghost t = s@.skip(start as int);
        let mut c: usize = start;
        while c < s.len() && s[c] != 59
            invariant
                start <= c <= s@.len(),
                forall|j: int| start <= j < c ==> s@[j] != 59,
            decreases s@.len() - c,
        {
            c = c + 1;
        }
        proof {
            assert forall|j: int| 0 <= j < c - start implies t[j] != 59 by {
                assert(t[j] == s@[start + j]);
            }
            lemma_first_sep_at(t, 59, c - start);
        }
        let seg = &s[start..c];
        proof {
            assert(seg@ =~= t.take(c - start));
            if c == s.len() {
                assert(seg@ =~= t);
            }
        }
        let row = match parse_values(seg) {
            Err(_) => {
                return Err(ParseError::BadNumber);
            },
            Ok(row) => row,
        };
        if row.len() != 3 {
            return Err(ParseError::RowLength(row.len()));
        }
        let ghost out_before = out@;
        out.push(row[0]);
        out.push(row[1]);
        out.push(row[2]);
        proof {
            assert(ints_of(out@) =~= ints_of(out_before) + ints_of(row@));
        }
        if c == s.len() {
            proof {
                assert(parse_rows_spec(t) == Ok::<Seq<int>, ParseError>(ints_of(row@)));
                assert(ints_of(out@) =~= ints_of(out_before) + ints_of(row@));
            }
            if out.len() != 9 {
                return Err(ParseError::ProbabilityCount(out.len()));
            }
            return Ok(out);
        }
        proof {
            let t2 = s@.skip(c + 1 as int);
            assert(t.skip(c - start + 1) =~= t2);
            if parse_rows_spec(t2) is Ok {
                let rest = parse_rows_spec(t2)->Ok_0;
                assert(ints_of(out@) + rest =~= ints_of(out_before) + (ints_of(row@) + rest));
            }
        }
        start = c + 1;
    }
}

/// Packs a parsed rewards list into the fixed-size vector the decision
/// system takes; rejects exactly the vectors that do not hold three
/// values within the reward bound.
pub fn validate_rewards(values: &Vec<u64>) -> (r: Option<[u64; 3]>)
    ensures
        r is Some <==> (values@.len() == 3 && forall|i: int|
            0 <= i < 3 ==> #[trigger] values@[i] <= REWARD_MAX),
        r matches Some(p) ==> p@ =~= values@ && crate::model::wf_rewards(p),
{
    if values.len() != 3 {
        return None;
    }
    if values[0] > REWARD_MAX || values[1] > REWARD_MAX || values[2] > REWARD_MAX {
        return None;
    }
    let p: [u64; 3] = [values[0], values[1], values[2]];
    proof {
        assert(p@ =~= values@);
    }
    Some(p)
}

/// Packs a parsed probability list into the fixed-size row-major
/// matrix value iteration takes; rejects exactly the vectors that do
/// not hold nine values with each row summing to exactly one.
pub fn validate_probability(values: &Vec<u64>) -> (r: Option<[u64; 9]>)
    ensures
        r is Some <==> (values@.len() == 9 && values@[0] + values@[1] + values@[2] == SCALE
            && values@[3] + values@[4] + values@[5] == SCALE && values@[6] + values@[7]
            + values@[8] == SCALE),
        r matches Some(p) ==> p@ =~= values@ && crate::model::wf_probs(p),
{
    if values.len() != 9 {
        return None;
    }
    let mut row: usize = 0;
    while row < 3
        invariant
            values@.len() == 9,
            0 <= row <= 3,
            forall|k: int|
                0 <= k < row ==> #[trigger] values@[3 * k] + values@[3 * k + 1] + values@[3 * k
                    + 2] == SCALE,
        decreases 3 - row,
    {
        let sum: u128 = (values[3 * row] as u128) + (values[3 * row + 1] as u128) + (values[3
            * row + 2] as u128);
        if sum != 1_000_000_000 {
            return None;
        }
        row = row + 1;
    }
    proof {
        assert(values@[3 * 0int] + values@[3 * 0int + 1] + values@[3 * 0int + 2] == SCALE);
        assert(values@[3 * 1int] + values@[3 * 1int + 1] + values@[3 * 1int + 2] == SCALE);
        assert(values@[3 * 2int] + values@[3 * 2int + 1] + values@[3 * 2int + 2] == SCALE);
    }
    let p: [u64; 9] = [
        values[0],
        values[1],
        values[2],
        values[3],
        values[4],
        values[5],
        values[6],
        values[7],
        values[8],
    ];
    proof {
        assert(p@ =~= values@);
    }
    Some(p)
}

} // verus!

//! A `strtol`-like scanner of integer literals in a given radix.
use vstd::prelude::*;

verus! {

/// Why [`strtol`] could not read an integer.
#[derive(Debug, Clone, Copy, PartialEq, Eq, Structural)]
pub enum StrtolError {
    /// The radix is larger than 36.
    InvalidRadix,
    /// The input does not start with a digit of the radix.
    NoDigits,
    /// The digits denote a value larger than `i64::MAX`.
    OutOfRange,
}

impl StrtolError {
    /// A human-readable description of the error.
    pub fn message(&self) -> (r: &'static str)
        ensures
            *self == StrtolError::InvalidRadix ==> r@ == "too big radix (> 36)"@,
            *self == StrtolError::NoDigits ==> r@ == "No number is parsed."@,
            *self == StrtolError::OutOfRange ==> r@ == "The number is out of range."@,
    {
        match self {
            StrtolError::InvalidRadix => "too big radix (> 36)",
            StrtolError::NoDigits => "No number is parsed.",
            StrtolError::OutOfRange => "The number is out of range.",
        }
    }
}

/// Value of `c` as a digit (`0-9`, then `a-z` or `A-Z` for 10 to 35);
/// 36 for any other character, which is a digit in no radix.
pub open spec fn digit_value(c: char) -> nat {
    let u = c as u32;
    if 48 <= u <= 57 {
        (u - 48) as nat
    } else if 97 <= u <= 122 {
        (u - 87) as nat
    } else if 65 <= u <= 90 {
        (u - 55) as nat
    } else {
        36
    }
}

/// `c` is a digit in `radix`.
pub open spec fn is_digit_in(c: char, radix: u32) -> bool {
    digit_value(c) < radix
}

/// Length of the longest prefix of `s` made of digits in `radix`.
pub open spec fn digit_run_len(s: Seq<char>, radix: u32) -> nat
    decreases s.len(),
{
    if s.len() > 0 && is_digit_in(s[0], radix) {
        1 + digit_run_len(s.drop_first(), radix)
    } else {
        0
    }
}

/// The number that the digit string `d` denotes in `radix`.
pub open spec fn value_of(d: Seq<char>, radix: u32) -> int
    decreases d.len(),
{
    if d.len() == 0 {
        0
    } else {
        value_of(d.drop_last(), radix) * radix + digit_value(d.last())
    }
}

/// The digit run never reaches past the end, and every character in it is a digit.
pub proof fn lemma_digit_run_len(s: Seq<char>, radix: u32)
    ensures
        digit_run_len(s, radix) <= s.len(),
        forall|j: int| 0 <= j < digit_run_len(s, radix) ==> is_digit_in(#[trigger] s[j], radix),
        digit_run_len(s, radix) < s.len() ==> !is_digit_in(s[digit_run_len(s, radix) as int], radix),
    decreases s.len(),
{
    if s.len() > 0 && is_digit_in(s[0], radix) {
        lemma_digit_run_len(s.drop_first(), radix);
        assert forall|j: int| 0 <= j < digit_run_len(s, radix) implies is_digit_in(
            #[trigger] s[j],
            radix,
        ) by {
            if j > 0 {
                assert(s[j] == s.drop_first()[j - 1]);
            }
        }
    }
}

/// A run of digits is exactly the prefix that `digit_run_len` measures when
/// it is followed by nothing or by a non-digit.
pub proof fn lemma_digit_run_len_of_split(d: Seq<char>, r: Seq<char>, radix: u32)
    requires
        forall|j: int| 0 <= j < d.len() ==> is_digit_in(#[trigger] d[j], radix),
        r.len() == 0 || !is_digit_in(r[0], radix),
    ensures
        digit_run_len(d + r, radix) == d.len(),
    decreases d.len(),
{
    if d.len() == 0 {
        assert(d + r =~= r);
    } else {
        assert((d + r).drop_first() =~= d.drop_first() + r);
        assert forall|j: int| 0 <= j < d.drop_first().len() implies is_digit_in(
            #[trigger] d.drop_first()[j],
            radix,
        ) by {
            assert(d.drop_first()[j] == d[j + 1]);
        }
        lemma_digit_run_len_of_split(d.drop_first(), r, radix);
    }
}

/// The value of a digit string is never negative.
pub proof fn lemma_value_of_nonneg(d: Seq<char>, radix: u32)
    ensures
        value_of(d, radix) >= 0,
    decreases d.len(),
{
    if d.len() > 0 {
        lemma_value_of_nonneg(d.drop_last(), radix);
        let v = value_of(d.drop_last(), radix);
        assert(v * radix >= 0) by (nonlinear_arith)
            requires
                v >= 0,
        ;
    }
}

/// The value of a digit string never drops as digits are appended.
pub proof fn lemma_value_of_prefix_monotone(s: Seq<char>, i: int, k: int, radix: u32)
    requires
        0 <= i <= k <= s.len(),
        radix >= 1,
    ensures
        0 <= value_of(s.take(i), radix) <= value_of(s.take(k), radix),
    decreases k,
{
    lemma_value_of_nonneg(s.take(i), radix);
    if i < k {
        lemma_value_of_prefix_monotone(s, i, k - 1, radix);
        assert(s.take(k).drop_last() =~= s.take(k - 1));
        let v = value_of(s.take(k - 1), radix);
        assert(v * radix >= v) by (nonlinear_arith)
            requires
                v >= 0,
                radix >= 1,
        ;
    }
}

/// What [`strtol`] returns on `s` in `radix`: the value of the longest run
/// of leading digits and the characters after it.
pub open spec fn strtol_spec(s: Seq<char>, radix: u32) -> Result<(int, Seq<char>), StrtolError> {
    let n = digit_run_len(s, radix);
    let v = value_of(s.take(n as int), radix);
    if radix > 36 {
        Err(StrtolError::InvalidRadix)
    } else if n == 0 {
        Err(StrtolError::NoDigits)
    } else if v > i64::MAX {
        Err(StrtolError::OutOfRange)
    } else {
        Ok((v, s.skip(n as int)))
    }
}

/// Splitting the input after a maximal run of digits `d`, the scanner yields
/// the value of `d` and exactly the rest `r`, lookahead character included.
pub proof fn lemma_strtol_split(d: Seq<char>, r: Seq<char>, radix: u32)
    requires
        radix <= 36,
        d.len() > 0,
        forall|j: int| 0 <= j < d.len() ==> is_digit_in(#[trigger] d[j], radix),
        r.len() == 0 || !is_digit_in(r[0], radix),
        value_of(d, radix) <= i64::MAX,
    ensures
        strtol_spec(d + r, radix) == Ok::<(int, Seq<char>), StrtolError>((value_of(d, radix), r)),
{
    lemma_digit_run_len_of_split(d, r, radix);
    assert((d + r).take(d.len() as int) =~= d);
    assert((d + r).skip(d.len() as int) =~= r);
}

/// Input that is empty, or whose first character is no digit, gives `NoDigits`.
pub proof fn lemma_strtol_no_digits(s: Seq<char>, radix: u32)
    requires
        radix <= 36,
        s.len() == 0 || !is_digit_in(s[0], radix),
    ensures
        strtol_spec(s, radix) == Err::<(int, Seq<char>), StrtolError>(StrtolError::NoDigits),
{
}

/// Any radix above 36 is refused, whatever the input.
pub proof fn lemma_strtol_invalid_radix(s: Seq<char>, radix: u32)
    requires
        radix > 36,
    ensures
        strtol_spec(s, radix) == Err::<(int, Seq<char>), StrtolError>(StrtolError::InvalidRadix),
{
}

/// Reads the longest prefix of `s` made of digits in `radix`, returning its
/// value and the unread rest of `s`.
pub fn strtol(s: &String, radix: u32) -> (r: Result<(i64, String), StrtolError>)
    ensures
        match r {
            Ok((v, rest)) => strtol_spec(s@, radix) == Ok::<(int, Seq<char>), StrtolError>(
                (v as int, rest@),
            ),
            Err(e) => strtol_spec(s@, radix) == Err::<(int, Seq<char>), StrtolError>(e),
        },
{
    if radix > 36 {
        return Err(StrtolError::InvalidRadix);
    }
    let text = s.as_str();
    let len = text.unicode_len();
    proof {
        lemma_digit_run_len(s@, radix);
    }
    let ghost n = digit_run_len(s@, radix);
    let mut i: usize = 0;
    let mut value: i64 = 0;
    while i < len && char_digit_value(text.get_char(i)) < radix
        invariant
            radix <= 36,
            len == s@.len(),
            text@ == s@,
            n == digit_run_len(s@, radix),
            n <= s@.len(),
            forall|j: int| 0 <= j < n ==> is_digit_in(#[trigger] s@[j], radix),
            n < s@.len() ==> !is_digit_in(s@[n as int], radix),
            i <= n,
            value == value_of(s@.take(i as int), radix),
        decreases len - i,
    {
        let d = char_digit_value(text.get_char(i));
        proof {
            assert(s@.take(i + 1).drop_last() =~= s@.take(i as int));
            lemma_value_of_prefix_monotone(s@, i as int, i as int, radix);
        }
        match value.checked_mul(radix as i64) {
            Some(m) => match m.checked_add(d as i64) {
                Some(v) => {
                    value = v;
                },
                None => {
                    proof {
                        lemma_value_of_prefix_monotone(s@, i + 1, n as int, radix);
                    }
                    return Err(StrtolError::OutOfRange);
                },
            },
            None => {
                proof {
                    assert(value * radix <= value * radix + d) by (nonlinear_arith)
                        requires
                            d >= 0,
                    ;
                    lemma_value_of_prefix_monotone(s@, i + 1, n as int, radix);
                }
                return Err(StrtolError::OutOfRange);
            },
        }
        i = i + 1;
    }
    if i == 0 {
        return Err(StrtolError::NoDigits);
    }
    let rest = String::from_str(text.substring_char(i, len));
    Ok((value, rest))
}

/// The digit value of `c`, as [`digit_value`] defines it.
fn char_digit_value(c: char) -> (r: u32)
    ensures
        r == digit_value(c),
{
    let u = c as u32;
    if 48 <= u && u <= 57 {
        u - 48
    } else if 97 <= u && u <= 122 {
        u - 87
    } else if 65 <= u && u <= 90 {
        u - 55
    } else {
        36
    }
}

} // verus!

//! Parsing of `LEFT<sep>RIGHT` pairs of decimal integers.

use vstd::prelude::*;
use vstd::string::StrSliceExecFns;

verus! {

/// `c` is one of the ASCII digits `0` to `9`.
pub open spec fn is_digit(c: char) -> bool {
    48 <= c as u32 <= 57
}

/// The value of a digit; zero for any other character.
pub open spec fn digit_value(c: char) -> nat {
    if is_digit(c) {
        (c as u32 - 48) as nat
    } else {
        0
    }
}

pub open spec fn all_digits(s: Seq<char>) -> bool {
    forall|i: int| 0 <= i < s.len() ==> is_digit(#[trigger] s[i])
}

/// The number that a string of digits denotes in base ten.
pub open spec fn decimal(s: Seq<char>) -> nat
    decreases s.len(),
{
    if s.len() == 0 {
        0
    } else {
        decimal(s.drop_last()) * 10 + digit_value(s.last())
    }
}

/// What a string denotes as an integer of the range `min ..= max`: an
/// optional sign (`+`, or `-` where the range has negative numbers), then
/// one or more digits, and nothing else. `None` where the string has another
/// shape or the number lies outside the range.
pub open spec fn integer_spec(s: Seq<char>, min: int, max: int) -> Option<int> {
    if s.len() == 0 {
        None
    } else {
        let negative = s[0] == '-' && min < 0;
        let digits = if s[0] == '+' || negative {
            s.drop_first()
        } else {
            s
        };
        let value = if negative {
            -(decimal(digits) as int)
        } else {
            decimal(digits) as int
        };
        if digits.len() > 0 && all_digits(digits) && min <= value <= max {
            Some(value)
        } else {
            None
        }
    }
}

/// A prefix of a string never denotes more than the whole string.
pub proof fn lemma_decimal_prefix(s: Seq<char>, k: int)
    requires
        0 <= k <= s.len(),
    ensures
        decimal(s.subrange(0, k)) <= decimal(s),
    decreases s.len() - k,
{
    if k == s.len() {
        assert(s.subrange(0, k) =~= s);
    } else {
        lemma_decimal_prefix(s, k + 1);
        assert(s.subrange(0, k + 1).drop_last() =~= s.subrange(0, k));
    }
}

/// Reads `s` as a decimal integer of the range `min ..= max`.
#[verifier::loop_isolation(false)]
pub fn parse_integer(s: &str, min: i128, max: i128) -> (r: Option<i128>)
    requires
        -0x1_0000_0000_0000_0000 <= min <= 0,
        0 <= max <= 0x1_0000_0000_0000_0000,
    ensures
        match r {
            Some(v) => integer_spec(s@, min as int, max as int) == Some(v as int),
            None => integer_spec(s@, min as int, max as int) is None,
        },
{
    let n: usize = s.unicode_len();
    if n == 0 {
        return None;
    }
    let first: char = s.get_char(0);
    let negative: bool = first == '-' && min < 0;
    let start: usize = if first == '+' || negative {
        1
    } else {
        0
    };
    if start == n {
        return None;
    }
    let limit: i128 = if negative {
        -min
    } else {
        max
    };
    let ghost digits = s@.subrange(start as int, n as int);
    proof {
        assert(digits =~= if start == 1 {
            s@.drop_first()
        } else {
            s@
        });
    }
    let mut acc: i128 = 0;
    let mut k: usize = start;
    while k < n
        invariant
            start <= k <= n,
            n == s@.len(),
            digits == s@.subrange(start as int, n as int),
            0 <= acc <= limit <= 0x1_0000_0000_0000_0000,
            acc == decimal(digits.subrange(0, k - start)),
            forall|j: int| 0 <= j < k - start ==> is_digit(#[trigger] digits[j]),
        decreases n - k,
    {
        let c: char = s.get_char(k);
        let code: u32 = c as u32;
        if code < 48 || code > 57 {
            proof {
                assert(!is_digit(digits[k - start]));
            }
            return None;
        }
        let next: i128 = acc * 10 + (code - 48) as i128;
        proof {
            assert(digits.subrange(0, k + 1 - start).drop_last() =~= digits.subrange(
                0,
                k - start,
            ));
            assert(digits.subrange(0, k + 1 - start).last() == c);
            assert(next == decimal(digits.subrange(0, k + 1 - start)));
        }
        if next > limit {
            proof {
                lemma_decimal_prefix(digits, k + 1 - start);
            }
            return None;
        }
        acc = next;
        k += 1;
    }
    proof {
        assert(digits.subrange(0, n - start) =~= digits);
    }
    Some(if negative {
        -acc
    } else {
        acc
    })
}

/// A number type that can stand on either side of a pair.
pub trait Parse: Sized {
    /// What a string denotes as a value of this type.
    spec fn parse_spec(s: Seq<char>) -> Option<Self>;

    /// Reads the whole of `s` as one value.
    fn parse(s: &str) -> (r: Option<Self>)
        ensures
            r == Self::parse_spec(s@),
    ;
}

impl Parse for i32 {
    open spec fn parse_spec(s: Seq<char>) -> Option<i32> {
        match integer_spec(s, i32::MIN as int, i32::MAX as int) {
            Some(v) => Some(v as i32),
            None => None,
        }
    }

    fn parse(s: &str) -> (r: Option<i32>) {
        match parse_integer(s, i32::MIN as i128, i32::MAX as i128) {
            Some(v) => Some(v as i32),
            None => None,
        }
    }
}

impl Parse for usize {
    open spec fn parse_spec(s: Seq<char>) -> Option<usize> {
        match integer_spec(s, 0, usize::MAX as int) {
            Some(v) => Some(v as usize),
            None => None,
        }
    }

    fn parse(s: &str) -> (r: Option<usize>) {
        match parse_integer(s, 0, usize::MAX as i128) {
            Some(v) => Some(v as usize),
            None => None,
        }
    }
}

impl Parse for u32 {
    open spec fn parse_spec(s: Seq<char>) -> Option<u32> {
        match integer_spec(s, 0, u32::MAX as int) {
            Some(v) => Some(v as u32),
            None => None,
        }
    }

    fn parse(s: &str) -> (r: Option<u32>) {
        match parse_integer(s, 0, u32::MAX as i128) {
            Some(v) => Some(v as u32),
            None => None,
        }
    }
}

impl Parse for u64 {
    open spec fn parse_spec(s: Seq<char>) -> Option<u64> {
        match integer_spec(s, 0, u64::MAX as int) {
            Some(v) => Some(v as u64),
            None => None,
        }
    }

    fn parse(s: &str) -> (r: Option<u64>) {
        match parse_integer(s, 0, u64::MAX as i128) {
            Some(v) => Some(v as u64),
            None => None,
        }
    }
}

impl Parse for i64 {
    open spec fn parse_spec(s: Seq<char>) -> Option<i64> {
        match integer_spec(s, i64::MIN as int, i64::MAX as int) {
            Some(v) => Some(v as i64),
            None => None,
        }
    }

    fn parse(s: &str) -> (r: Option<i64>) {
        match parse_integer(s, i64::MIN as i128, i64::MAX as i128) {
            Some(v) => Some(v as i64),
            None => None,
        }
    }
}

/// The two sides of the first `separator` in `s`, if there is one.
pub open spec fn split_spec(s: Seq<char>, separator: char) -> Option<(Seq<char>, Seq<char>)> {
    match s.index_of_first(separator) {
        Some(i) => Some((s.subrange(0, i), s.subrange(i + 1, s.len() as int))),
        None => None,
    }
}

/// The two sides put `s` together again around one `separator`, and the
/// left side holds no separator; there are no sides only where `s` holds
/// none.
pub proof fn lemma_split(s: Seq<char>, separator: char)
    ensures
        match split_spec(s, separator) {
            Some((left, right)) => !left.contains(separator) && s == left.push(separator) + right,
            None => !s.contains(separator),
        },
{
    s.index_of_first_ensures(separator);
    if let Some(i) = s.index_of_first(separator) {
        let left = s.subrange(0, i);
        let right = s.subrange(i + 1, s.len() as int);
        assert(s =~= left.push(separator) + right);
        assert forall|j: int| 0 <= j < left.len() implies left[j] != separator by {
            assert(left[j] == s[j]);
        }
    }
}

/// What `s` denotes as a pair of numbers around the first `separator`.
pub open spec fn parse_pair_spec<T: Parse>(s: Seq<char>, separator: char) -> Option<(T, T)> {
    match split_spec(s, separator) {
        Some((left, right)) => match (T::parse_spec(left), T::parse_spec(right)) {
            (Some(l), Some(r)) => Some((l, r)),
            _ => None,
        },
        None => None,
    }
}

/// Cuts `s` at its first `separator`, which belongs to neither side.
#[verifier::loop_isolation(false)]
pub fn split_pair<'a>(s: &'a str, separator: char) -> (r: Option<(&'a str, &'a str)>)
    ensures
        match r {
            Some((left, right)) => split_spec(s@, separator) == Some((left@, right@)),
            None => split_spec(s@, separator) is None,
        },
{
    let n: usize = s.unicode_len();
    let mut i: usize = 0;
    proof {
        s@.index_of_first_ensures(separator);
    }
    while i < n
        invariant
            i <= n,
            n == s@.len(),
            forall|j: int| 0 <= j < i ==> s@[j] != separator,
        decreases n - i,
    {
        if s.get_char(i) == separator {
            let left: &str = s.substring_char(0, i);
            let right: &str = s.substring_char(i + 1, n);
            proof {
                assert(s@.contains(separator));
            }
            return Some((left, right));
        }
        i += 1;
    }
    proof {
        assert(!s@.contains(separator));
    }
    None
}

/// Reads `s` as two numbers with `separator` between them. Fails where the
/// separator is missing or either side is not a number of the type.
pub fn parse_pair<T: Parse>(s: &str, separator: char) -> (r: Option<(T, T)>)
    ensures
        r == parse_pair_spec::<T>(s@, separator),
{
    match split_pair(s, separator) {
        None => None,
        Some((left, right)) => match (T::parse(left), T::parse(right)) {
            (Some(l), Some(r)) => Some((l, r)),
            _ => None,
        },
    }
}

} // verus!

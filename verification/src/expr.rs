//! Dice-notation expressions and their parser.
//!
//! An expression has the shape `[count]d<sides>`: an optional decimal count,
//! a separator letter (`d` or `D`), and a decimal number of sides. The spec
//! function [`spec_parse`] pins down the parse result for every input text,
//! and [`parse_expression`] is proved to return exactly that.

use vstd::prelude::*;
use vstd::string::StrSliceExecFns;

verus! {

/// Default upper bound on the number of dice in one request.
pub const DEFAULT_MAX_COUNT: u32 = 100;

/// Default upper bound on the number of sides of one die.
pub const DEFAULT_MAX_SIDES: u32 = 100000;

/// Saturation cap used while accumulating a decimal value: one more than the
/// largest value a `u32` can hold, so any capped value exceeds every limit.
const VAL_CAP: u64 = 0x1_0000_0000;

/// Configured resource limits for a roll request.
#[derive(Clone, Copy, Debug, PartialEq, Eq, Structural)]
pub struct Limits {
    /// Largest accepted dice count.
    pub max_count: u32,
    /// Largest accepted side count.
    pub max_sides: u32,
}

impl Default for Limits {
    /// The default limits: at most 100 dice of at most 100000 sides.
    fn default() -> (r: Self)
        ensures
            r == (Limits { max_count: DEFAULT_MAX_COUNT, max_sides: DEFAULT_MAX_SIDES }),
    {
        Limits { max_count: DEFAULT_MAX_COUNT, max_sides: DEFAULT_MAX_SIDES }
    }
}

/// Why an expression text was rejected.
#[derive(Clone, Copy, Debug, PartialEq, Eq, Structural)]
pub enum DiceError {
    /// No separator letter (`d` or `D`) in a non-empty text.
    MalformedExpression,
    /// The text before the separator is non-empty but not a positive decimal.
    InvalidCount,
    /// The text after the separator is missing, non-numeric, or below 2;
    /// also reported for an entirely empty input, whose sides are missing.
    InvalidSides,
    /// The count parses but exceeds the configured `max_count`.
    CountTooLarge,
    /// The side count parses but exceeds the configured `max_sides`.
    SidesTooLarge,
}

/// A parsed roll request: `count` dice of `sides` sides each.
#[derive(Clone, Copy, Debug, PartialEq, Eq, Structural)]
pub struct DiceExpression {
    /// Number of dice to roll; at least 1.
    pub count: u32,
    /// Number of sides per die; at least 2.
    pub sides: u32,
}

impl DiceExpression {
    /// The invariant every parsed expression satisfies.
    pub open spec fn valid(self) -> bool {
        self.count >= 1 && self.sides >= 2
    }
}

/// The separator letter between count and sides, either case.
pub open spec fn is_separator(c: char) -> bool {
    c == 'd' || c == 'D'
}

/// A decimal digit.
pub open spec fn is_digit(c: char) -> bool {
    '0' as u32 <= c as u32 && c as u32 <= '9' as u32
}

/// The numeric value of a decimal digit.
pub open spec fn digit_val(c: char) -> int {
    c as u32 - '0' as u32
}

/// Every character of `s` is a decimal digit.
pub open spec fn all_digits(s: Seq<char>) -> bool {
    forall|i: int| 0 <= i < s.len() ==> is_digit(s[i])
}

/// The value of `s` read as a decimal numeral (0 for the empty sequence).
pub open spec fn digits_val(s: Seq<char>) -> nat
    decreases s.len(),
{
    if s.len() == 0 {
        0
    } else {
        (digits_val(s.drop_last()) * 10 + digit_val(s.last())) as nat
    }
}

/// Index of the first separator in `s`, or `s.len()` if there is none.
pub open spec fn sep_index(s: Seq<char>) -> int
    decreases s.len(),
{
    if s.len() == 0 {
        0
    } else if is_separator(s[0]) {
        0
    } else {
        1 + sep_index(s.skip(1))
    }
}

/// `sep_index` is in range, points at a separator when one exists, and
/// nothing before it is a separator.
pub proof fn lemma_sep_index_bounds(s: Seq<char>)
    ensures
        0 <= sep_index(s) <= s.len(),
        forall|j: int| 0 <= j < sep_index(s) ==> !is_separator(s[j]),
        sep_index(s) < s.len() ==> is_separator(s[sep_index(s)]),
    decreases s.len(),
{
    if s.len() == 0 {
    } else if is_separator(s[0]) {
    } else {
        lemma_sep_index_bounds(s.skip(1));
        assert forall|j: int| 0 <= j < sep_index(s) implies !is_separator(s[j]) by {
            if j > 0 {
                assert(s.skip(1)[j - 1] == s[j]);
            }
        }
        if sep_index(s) < s.len() {
            assert(s.skip(1)[sep_index(s) - 1] == s[sep_index(s)]);
        }
    }
}

/// Any index with no separator before it, and a separator (or the end) at it,
/// is `sep_index`.
pub proof fn lemma_sep_index_unique(s: Seq<char>, i: int)
    requires
        0 <= i <= s.len(),
        forall|j: int| 0 <= j < i ==> !is_separator(s[j]),
        i < s.len() ==> is_separator(s[i]),
    ensures
        sep_index(s) == i,
    decreases s.len(),
{
    if s.len() == 0 {
    } else if is_separator(s[0]) {
        assert(i == 0);
    } else {
        assert(i >= 1);
        assert forall|j: int| 0 <= j < i - 1 implies !is_separator(s.skip(1)[j]) by {
            assert(s.skip(1)[j] == s[j + 1]);
        }
        if i - 1 < s.skip(1).len() {
            assert(s.skip(1)[i - 1] == s[i]);
        }
        lemma_sep_index_unique(s.skip(1), i - 1);
    }
}

/// What parsing an expression text yields, for every input and limit choice.
///
/// The branches follow the grammar: an empty input has its sides missing; a
/// non-empty input without a separator is malformed; then the count segment
/// (before the first separator) must be empty (defaulting to 1) or a positive
/// decimal, the sides segment must be a decimal of at least 2, and finally
/// both values are held against the configured limits.
pub open spec fn spec_parse(s: Seq<char>, limits: Limits) -> Result<DiceExpression, DiceError> {
    if s.len() == 0 {
        Err(DiceError::InvalidSides)
    } else if sep_index(s) == s.len() {
        Err(DiceError::MalformedExpression)
    } else {
        let cseg = s.subrange(0, sep_index(s));
        let sseg = s.subrange(sep_index(s) + 1, s.len() as int);
        if cseg.len() > 0 && !(all_digits(cseg) && digits_val(cseg) >= 1) {
            Err(DiceError::InvalidCount)
        } else if !(sseg.len() > 0 && all_digits(sseg) && digits_val(sseg) >= 2) {
            Err(DiceError::InvalidSides)
        } else {
            let count = if cseg.len() == 0 { 1nat } else { digits_val(cseg) };
            let sides = digits_val(sseg);
            if count > limits.max_count {
                Err(DiceError::CountTooLarge)
            } else if sides > limits.max_sides {
                Err(DiceError::SidesTooLarge)
            } else {
                Ok(DiceExpression { count: count as u32, sides: sides as u32 })
            }
        }
    }
}

/// A successful parse yields a valid expression within the limits.
pub proof fn lemma_parse_ok_valid(s: Seq<char>, limits: Limits)
    requires
        spec_parse(s, limits) is Ok,
    ensures
        spec_parse(s, limits)->Ok_0.valid(),
        spec_parse(s, limits)->Ok_0.count <= limits.max_count,
        spec_parse(s, limits)->Ok_0.sides <= limits.max_sides,
{
}

/// Parsing is deterministic: the result depends only on the text and the
/// limits, so parsing the same expression twice yields the same expression
/// (the dice rolled from it may of course differ).
pub proof fn lemma_parse_idempotent(
    s: Seq<char>,
    limits: Limits,
    r1: Result<DiceExpression, DiceError>,
    r2: Result<DiceExpression, DiceError>,
)
    requires
        r1 == spec_parse(s, limits),
        r2 == spec_parse(s, limits),
    ensures
        r1 == r2,
{
}

/// Index just past the leading run of non-separator characters.
fn find_separator(text: &str) -> (i: usize)
    ensures
        i as int == sep_index(text@),
{
    let n = text.unicode_len();
    let mut i: usize = 0;
    loop
        invariant
            i <= n,
            n == text@.len(),
            forall|j: int| 0 <= j < i ==> !is_separator(text@[j]),
        ensures
            i <= n,
            n == text@.len(),
            forall|j: int| 0 <= j < i ==> !is_separator(text@[j]),
            i < n ==> is_separator(text@[i as int]),
        decreases n - i,
    {
        if i >= n {
            break;
        }
        let c = text.get_char(i);
        if c == 'd' || c == 'D' {
            break;
        }
        i = i + 1;
    }
    proof {
        lemma_sep_index_unique(text@, i as int);
    }
    i
}

/// Reads `text[start..end]` as a decimal numeral. Returns `None` when a
/// non-digit occurs; otherwise the value, saturated at [`VAL_CAP`] so that
/// oversized numerals still compare above every `u32` limit.
fn parse_digits(text: &str, start: usize, end: usize) -> (r: Option<u64>)
    requires
        start <= end <= text@.len(),
    ensures
        ({
            let seg = text@.subrange(start as int, end as int);
            match r {
                Some(v) => {
                    &&& all_digits(seg)
                    &&& digits_val(seg) < VAL_CAP ==> v == digits_val(seg)
                    &&& digits_val(seg) >= VAL_CAP ==> v == VAL_CAP
                },
                None => !all_digits(seg),
            }
        }),
{
    let ghost seg = text@.subrange(start as int, end as int);
    let mut acc: u64 = 0;
    let mut i: usize = start;
    while i < end
        invariant
            start <= i <= end <= text@.len(),
            seg == text@.subrange(start as int, end as int),
            all_digits(text@.subrange(start as int, i as int)),
            digits_val(text@.subrange(start as int, i as int)) < VAL_CAP ==> acc == digits_val(
                text@.subrange(start as int, i as int),
            ),
            digits_val(text@.subrange(start as int, i as int)) >= VAL_CAP ==> acc == VAL_CAP,
            acc <= VAL_CAP,
        decreases end - i,
    {
        let ghost seg0 = text@.subrange(start as int, i as int);
        let c = text.get_char(i);
        if (c as u32) < ('0' as u32) || (c as u32) > ('9' as u32) {
            proof {
                assert(seg[i - start] == text@[i as int]);
                assert(!is_digit(seg[i - start]));
            }
            return None;
        }
        let d: u32 = (c as u32) - ('0' as u32);
        let next: u64 = acc * 10 + (d as u64);
        acc = if next > VAL_CAP {
            VAL_CAP
        } else {
            next
        };
        i = i + 1;
        proof {
            let seg1 = text@.subrange(start as int, i as int);
            assert(seg1.drop_last() =~= seg0);
            assert(seg1.last() == text@[i - 1]);
            assert forall|j: int| 0 <= j < seg1.len() implies is_digit(seg1[j]) by {
                if j < seg0.len() {
                    assert(seg1[j] == seg0[j]);
                } else {
                    assert(seg1[j] == text@[i - 1]);
                }
            }
        }
    }
    proof {
        assert(text@.subrange(start as int, i as int) =~= seg);
    }
    Some(acc)
}

/// Parses an expression text against the given limits.
///
/// The result is exactly what [`spec_parse`] states: success if and only if
/// the text is well-formed dice notation within the limits, and otherwise the
/// specific error that the offending segment earns.
pub fn parse_expression(text: &str, limits: &Limits) -> (r: Result<DiceExpression, DiceError>)
    ensures
        r == spec_parse(text@, *limits),
{
    let n = text.unicode_len();
    if n == 0 {
        return Err(DiceError::InvalidSides);
    }
    let sep = find_separator(text);
    proof {
        lemma_sep_index_bounds(text@);
    }
    if sep == n {
        return Err(DiceError::MalformedExpression);
    }
    let ghost cseg = text@.subrange(0, sep_index(text@));
    let ghost sseg = text@.subrange(sep_index(text@) + 1, text@.len() as int);
    let count: u64 = if sep == 0 {
        1
    } else {
        match parse_digits(text, 0, sep) {
            None => {
                return Err(DiceError::InvalidCount);
            },
            Some(v) => {
                if v == 0 {
                    return Err(DiceError::InvalidCount);
                }
                v
            },
        }
    };
    let sides: u64 = match parse_digits(text, sep + 1, n) {
        None => {
            return Err(DiceError::InvalidSides);
        },
        Some(v) => {
            if v < 2 {
                return Err(DiceError::InvalidSides);
            }
            v
        },
    };
    if count > limits.max_count as u64 {
        return Err(DiceError::CountTooLarge);
    }
    if sides > limits.max_sides as u64 {
        return Err(DiceError::SidesTooLarge);
    }
    Ok(DiceExpression { count: count as u32, sides: sides as u32 })
}

} // verus!

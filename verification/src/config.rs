//! The per-field output configuration language.
//!
//! A field specification names a source of load values, a scale, and a
//! format; the grammar is `head (':' format)?` with
//! `head := sum | sum_t | all_loads | all_loads_t | test_format`,
//! `format := '.' DIGITS | '%' DIGITS | test_format` and
//! `test_format := if_range ':' [LO] '..' [HI] ':' THEN [':' ELSE]
//!               | if_greater ':' THR ':' THEN [':' ELSE]`,
//! the last being a deprecated alias stored in its `if_range` form.
//!
//! Numeric bounds are plain decimal literals: an optional sign, digits
//! and at most one point, with at least one digit. This bound language is
//! deliberately narrower than general floating-point syntax: at most
//! nineteen digits in all (eighteen of them after the point), and no
//! exponent, infinity or not-a-number spellings — none of those values is
//! an exact decimal, which is what a bound is here. A bound is also
//! *compared* as the exact decimal that was written, not as its nearest
//! floating-point neighbour; the two differ only for a value within one
//! unit in the last place of a bound that no float represents exactly.
//!
//! `parse_field_spec` is the grammar's definition; the parser is proved
//! against it, clause by clause.

use vstd::prelude::*;

use crate::numeric::{bits_lt_dec, dec_le_bits, bits_lt_dec_exec, dec_le_bits_exec, Dec};

verus! {

/// Source of load values for a field specification.
#[derive(Clone, Copy, Debug, PartialEq, Eq, Structural)]
pub enum Source {
    /// The sum of all process trees' loads, one field.
    Sum,
    /// Every process tree's load, one field each.
    AllLoads,
}

/// How load values are scaled.
#[derive(Clone, Copy, Debug, PartialEq, Eq, Structural)]
pub enum Scale {
    /// As a fraction of a single core.
    OfCore,
    /// As a fraction of the whole machine.
    OfTotal,
}

/// A condition on a load value.
#[derive(Clone, Copy, Debug, PartialEq, Eq, Structural)]
pub enum Test {
    /// True when the value lies in the half-open range; an absent bound is
    /// not tested.
    Range(Option<Dec>, Option<Dec>),
}

pub open spec fn test_wf(t: Test) -> bool {
    match t {
        Test::Range(lo, hi) => (match lo {
            Some(d) => d.wf(),
            None => true,
        }) && (match hi {
            Some(d) => d.wf(),
            None => true,
        }),
    }
}

/// Both bounds, where present, have at most nineteen digits.
pub open spec fn test_small(t: Test) -> bool {
    match t {
        Test::Range(lo, hi) => (match lo {
            Some(d) => dec_small(d),
            None => true,
        }) && (match hi {
            Some(d) => dec_small(d),
            None => true,
        }),
    }
}

/// What every parsed format satisfies: normalised bounds of bounded size,
/// and a then-string free of colons.
pub open spec fn format_wf(f: Format) -> bool {
    match f {
        Format::IfThenElse { test, then, otherwise } => test_wf(test) && test_small(test)
            && (forall|j: int| 0 <= j < then@.len() ==> #[trigger] then@[j] != ':'),
        _ => true,
    }
}

/// What every parsed field satisfies.
pub open spec fn field_wf(f: Field) -> bool {
    format_wf(f.2)
}

/// What the test means on a float bit pattern: inside the half-open
/// range, an absent bound passing by itself.
pub open spec fn spec_matches(t: Test, v: u32) -> bool {
    match t {
        Test::Range(lo, hi) => (match lo {
            Some(d) => dec_le_bits(d, v),
            None => true,
        }) && (match hi {
            Some(d) => bits_lt_dec(v, d),
            None => true,
        }),
    }
}

impl Test {
    /// Does the load value, given as an IEEE-754 single-precision bit
    /// pattern, satisfy the test? The value is in range exactly when the
    /// low bound is absent or at most the value, and the high bound is
    /// absent or strictly above the value.
    pub fn matches(&self, value: u32) -> (r: bool)
        requires
            test_wf(*self),
        ensures
            r == spec_matches(*self, value),
    {
        match self {
            Test::Range(lo, hi) => {
                let lo_ok = match lo {
                    Some(d) => dec_le_bits_exec(d, value),
                    None => true,
                };
                let hi_ok = match hi {
                    Some(d) => bits_lt_dec_exec(value, d),
                    None => true,
                };
                lo_ok && hi_ok
            },
        }
    }
}

/// Formatting of a single field.
#[derive(Clone, Debug, PartialEq)]
pub enum Format {
    /// Fixed-point with the given number of fractional digits.
    Float(u8),
    /// Value times one hundred, fixed-point.
    Percent(u8),
    /// One string when the test holds, the other otherwise.
    IfThenElse { test: Test, then: String, otherwise: String },
}

impl Default for Format {
    /// Two fractional digits, plain.
    fn default() -> (r: Self)
        ensures
            r == Format::Float(2u8),
    {
        Format::Float(2)
    }
}

/// One field of output: a source, a scale and a format.
#[derive(Clone, Debug, PartialEq)]
pub struct Field(pub Source, pub Scale, pub Format);

/// A parsed field, with the two strings of an if-then-else format as
/// character sequences; what the parser is specified against.
pub enum FormatModel {
    Float(u8),
    Percent(u8),
    Iff(Test, Seq<char>, Seq<char>),
}

pub open spec fn format_matches(m: FormatModel, f: Format) -> bool {
    match f {
        Format::Float(p) => m == FormatModel::Float(p),
        Format::Percent(p) => m == FormatModel::Percent(p),
        Format::IfThenElse { test, then, otherwise } => m == FormatModel::Iff(
            test,
            then@,
            otherwise@,
        ),
    }
}

pub open spec fn is_digit(c: char) -> bool {
    48 <= c as u32 <= 57
}

pub open spec fn all_digits(s: Seq<char>) -> bool {
    forall|i: int| 0 <= i < s.len() ==> is_digit(#[trigger] s[i])
}

/// Numeric value of a digit string.
pub open spec fn digits_val(s: Seq<char>) -> int
    decreases s.len(),
{
    if s.len() == 0 {
        0
    } else {
        digits_val(s.drop_last()) * 10 + (s.last() as u32 - 48)
    }
}

pub open spec fn find_char(s: Seq<char>, c: char) -> Option<int>
    decreases s.len(),
{
    if s.len() == 0 {
        None
    } else if s[0] == c {
        Some(0)
    } else {
        match find_char(s.drop_first(), c) {
            Some(i) => Some(i + 1),
            None => None,
        }
    }
}

/// First index where two consecutive dots start.
pub open spec fn find_dotdot(s: Seq<char>) -> Option<int>
    decreases s.len(),
{
    if s.len() < 2 {
        None
    } else if s[0] == '.' && s[1] == '.' {
        Some(0)
    } else {
        match find_dotdot(s.drop_first()) {
            Some(i) => Some(i + 1),
            None => None,
        }
    }
}

pub proof fn lemma_find_char_at(s: Seq<char>, c: char, i: int)
    requires
        0 <= i < s.len(),
        s[i] == c,
        forall|j: int| 0 <= j < i ==> s[j] != c,
    ensures
        find_char(s, c) == Some(i),
    decreases i,
{
    if i > 0 {
        assert(forall|j: int| 0 <= j < s.drop_first().len() ==> s.drop_first()[j] == s[j + 1]);
        lemma_find_char_at(s.drop_first(), c, i - 1);
    }
}

pub proof fn lemma_find_char_none(s: Seq<char>, c: char)
    requires
        forall|j: int| 0 <= j < s.len() ==> s[j] != c,
    ensures
        find_char(s, c) is None,
    decreases s.len(),
{
    if s.len() > 0 {
        assert(forall|j: int| 0 <= j < s.drop_first().len() ==> s.drop_first()[j] == s[j + 1]);
        lemma_find_char_none(s.drop_first(), c);
    }
}

pub proof fn lemma_find_dotdot_at(s: Seq<char>, i: int)
    requires
        0 <= i,
        i + 1 < s.len(),
        s[i] == '.',
        s[i + 1] == '.',
        forall|j: int| 0 <= j < i ==> !(#[trigger] s[j] == '.' && s[j + 1] == '.'),
    ensures
        find_dotdot(s) == Some(i),
    decreases i,
{
    if i > 0 {
        assert(forall|j: int| 0 <= j < s.drop_first().len() ==> s.drop_first()[j] == s[j + 1]);
        lemma_find_dotdot_at(s.drop_first(), i - 1);
    }
}

pub proof fn lemma_find_dotdot_none(s: Seq<char>)
    requires
        forall|j: int| 0 <= j && j + 1 < s.len() ==> !(#[trigger] s[j] == '.' && s[j + 1] == '.'),
    ensures
        find_dotdot(s) is None,
    decreases s.len(),
{
    if s.len() >= 2 {
        assert(forall|j: int| 0 <= j < s.drop_first().len() ==> s.drop_first()[j] == s[j + 1]);
        lemma_find_dotdot_none(s.drop_first());
    }
}

/// A digit string's value is nonnegative and below ten to its length.
pub proof fn lemma_digits_val_bound(s: Seq<char>)
    requires
        all_digits(s),
    ensures
        0 <= digits_val(s) < crate::numeric::p10(s.len()),
    decreases s.len(),
{
    if s.len() == 0 {
    } else {
        assert(forall|i: int| 0 <= i < s.drop_last().len() ==> s.drop_last()[i] == s[i]);
        lemma_digits_val_bound(s.drop_last());
        assert(is_digit(s[s.len() - 1]));
        assert(crate::numeric::p10(s.len()) == 10 * crate::numeric::p10((s.len() - 1) as nat));
    }
}

/// Strip trailing zero fraction digits; the exact value is unchanged.
pub open spec fn dec_norm(neg: bool, m: int, f: int) -> Dec
    decreases f,
{
    if f > 0 && m % 10 == 0 {
        dec_norm(neg, m / 10, f - 1)
    } else {
        Dec { neg, mant: m as u64, frac: f as u8 }
    }
}

/// The decimal-literal grammar: an optional sign, then digits with at
/// most one point; at least one digit, at most nineteen in all, and at
/// most eighteen of them fractional.
pub open spec fn parse_dec_spec(s: Seq<char>) -> Option<Dec> {
    let neg = s.len() > 0 && s[0] == '-';
    let t = if s.len() > 0 && (s[0] == '-' || s[0] == '+') {
        s.drop_first()
    } else {
        s
    };
    match find_char(t, '.') {
        None => if 1 <= t.len() <= 19 && all_digits(t) {
            Some(dec_norm(neg, digits_val(t), 0))
        } else {
            None
        },
        Some(i) => {
            let ip = t.take(i);
            let fp = t.skip(i + 1);
            if ip.len() + fp.len() >= 1 && all_digits(ip) && all_digits(fp) && fp.len() <= 18
                && ip.len() + fp.len() <= 19 {
                Some(dec_norm(neg, digits_val(ip + fp), fp.len() as int))
            } else {
                None
            }
        },
    }
}

/// An optional leading plus sign, as unsigned-integer parsing accepts.
pub open spec fn strip_plus(s: Seq<char>) -> Seq<char> {
    if s.len() > 0 && s[0] == '+' {
        s.drop_first()
    } else {
        s
    }
}

/// Digit strings accepted as a precision: an optional plus sign, then any
/// number of digits whose value fits in eight bits.
pub open spec fn parse_u8_spec(s: Seq<char>) -> Option<u8> {
    let t = strip_plus(s);
    if t.len() >= 1 && all_digits(t) && digits_val(t) <= 255 {
        Some(digits_val(t) as u8)
    } else {
        None
    }
}

/// Split at the first colon: the head, and what follows the colon if
/// there is one.
pub open spec fn split1(s: Seq<char>) -> (Seq<char>, Option<Seq<char>>) {
    match find_char(s, ':') {
        None => (s, None),
        Some(i) => (s.take(i), Some(s.skip(i + 1))),
    }
}

/// The range form `[LO]..[HI]`: an absent side is unbounded.
pub open spec fn parse_range_spec(s: Seq<char>) -> Option<Test> {
    match find_dotdot(s) {
        None => None,
        Some(i) => {
            let lo = s.take(i);
            let hi = s.skip(i + 2);
            let lod = if lo.len() == 0 {
                Some(None)
            } else {
                match parse_dec_spec(lo) {
                    Some(d) => Some(Some(d)),
                    None => None,
                }
            };
            let hid = if hi.len() == 0 {
                Some(None)
            } else {
                match parse_dec_spec(hi) {
                    Some(d) => Some(Some(d)),
                    None => None,
                }
            };
            match (lod, hid) {
                (Some(l), Some(h)) => Some(Test::Range(l, h)),
                _ => None,
            }
        },
    }
}

/// The arguments of a test format: the test, a then-string, and an
/// optional else-string that keeps any further colons.
pub open spec fn parse_test_format_spec(greater: bool, s: Seq<char>) -> Option<FormatModel> {
    let (t1, r1) = split1(s);
    let test = if greater {
        match parse_dec_spec(t1) {
            Some(d) => Some(Test::Range(Some(d), None)),
            None => None,
        }
    } else {
        parse_range_spec(t1)
    };
    match (test, r1) {
        (Some(t), Some(rest)) => {
            let (t2, r2) = split1(rest);
            Some(FormatModel::Iff(t, t2, match r2 {
                Some(o) => o,
                None => Seq::empty(),
            }))
        },
        _ => None,
    }
}

pub open spec fn head_if_range() -> Seq<char> {
    seq!['i', 'f', '_', 'r', 'a', 'n', 'g', 'e']
}

pub open spec fn head_if_greater() -> Seq<char> {
    seq!['i', 'f', '_', 'g', 'r', 'e', 'a', 't', 'e', 'r']
}

pub open spec fn head_sum() -> Seq<char> {
    seq!['s', 'u', 'm']
}

pub open spec fn head_sum_t() -> Seq<char> {
    seq!['s', 'u', 'm', '_', 't']
}

pub open spec fn head_all_loads() -> Seq<char> {
    seq!['a', 'l', 'l', '_', 'l', 'o', 'a', 'd', 's']
}

pub open spec fn head_all_loads_t() -> Seq<char> {
    seq!['a', 'l', 'l', '_', 'l', 'o', 'a', 'd', 's', '_', 't']
}

/// A format alone: a test format, or a precision introduced by a point
/// or a percent sign. Anything after a further colon of a numeric format
/// is ignored, as the original grammar ignores it.
pub open spec fn parse_format_spec(s: Seq<char>) -> Option<FormatModel> {
    let (h, r) = split1(s);
    if h == head_if_range() {
        match r {
            Some(args) => parse_test_format_spec(false, args),
            None => None,
        }
    } else if h == head_if_greater() {
        match r {
            Some(args) => parse_test_format_spec(true, args),
            None => None,
        }
    } else if h.len() >= 1 && h[0] == '.' {
        match parse_u8_spec(h.drop_first()) {
            Some(p) => Some(FormatModel::Float(p)),
            None => None,
        }
    } else if h.len() >= 1 && h[0] == '%' {
        match parse_u8_spec(h.drop_first()) {
            Some(p) => Some(FormatModel::Percent(p)),
            None => None,
        }
    } else {
        None
    }
}

/// The whole field grammar. A bare test format defaults to the sum of
/// loads per core.
pub open spec fn parse_field_spec(s: Seq<char>) -> Option<(Source, Scale, FormatModel)> {
    let (h, r) = split1(s);
    if h == head_sum() || h == head_sum_t() || h == head_all_loads() || h == head_all_loads_t() {
        let src = if h == head_sum() || h == head_sum_t() {
            Source::Sum
        } else {
            Source::AllLoads
        };
        let sc = if h == head_sum() || h == head_all_loads() {
            Scale::OfCore
        } else {
            Scale::OfTotal
        };
        match r {
            None => Some((src, sc, FormatModel::Float(2))),
            Some(rest) => match parse_format_spec(rest) {
                Some(fm) => Some((src, sc, fm)),
                None => None,
            },
        }
    } else if h == head_if_range() {
        match r {
            Some(args) => match parse_test_format_spec(false, args) {
                Some(fm) => Some((Source::Sum, Scale::OfCore, fm)),
                None => None,
            },
            None => None,
        }
    } else if h == head_if_greater() {
        match r {
            Some(args) => match parse_test_format_spec(true, args) {
                Some(fm) => Some((Source::Sum, Scale::OfCore, fm)),
                None => None,
            },
            None => None,
        }
    } else {
        None
    }
}

/// Every decimal the grammar produces is normalised, and normalising
/// never grows the mantissa.
pub proof fn lemma_dec_norm_wf(neg: bool, m: int, f: int)
    requires
        0 <= m < 0x1_0000_0000_0000_0000,
        0 <= f <= 18,
    ensures
        dec_norm(neg, m, f).wf(),
        dec_norm(neg, m, f).neg == neg,
        dec_norm(neg, m, f).mant <= m,
    decreases f,
{
    if f > 0 && m % 10 == 0 {
        lemma_dec_norm_wf(neg, m / 10, f - 1);
    }
}

/// A bound the grammar can produce: at most nineteen digits.
pub open spec fn dec_small(d: Dec) -> bool {
    d.mant < crate::numeric::p10(19)
}

/// Every test the grammar produces is made of normalised decimals of at
/// most nineteen digits.
pub proof fn lemma_parse_dec_wf(s: Seq<char>)
    ensures
        match parse_dec_spec(s) {
            Some(d) => d.wf() && dec_small(d),
            None => true,
        },
{
    let neg = s.len() > 0 && s[0] == '-';
    let t = if s.len() > 0 && (s[0] == '-' || s[0] == '+') {
        s.drop_first()
    } else {
        s
    };
    reveal_with_fuel(crate::numeric::p10, 21);
    match find_char(t, '.') {
        None => {
            if 1 <= t.len() <= 19 && all_digits(t) {
                lemma_digits_val_bound(t);
                lemma_p10_le(t.len(), 19);
                lemma_dec_norm_wf(neg, digits_val(t), 0);
            }
        },
        Some(i) => {
            lemma_find_char_in_bounds(t, '.');
            let ip = t.take(i);
            let fp = t.skip(i + 1);
            if ip.len() + fp.len() >= 1 && all_digits(ip) && all_digits(fp) && fp.len() <= 18
                && ip.len() + fp.len() <= 19 {
                assert(all_digits(ip + fp)) by {
                    assert(forall|j: int|
                        0 <= j < ip.len() ==> (ip + fp)[j] == ip[j]);
                    assert(forall|j: int|
                        ip.len() <= j < ip.len() + fp.len() ==> (ip + fp)[j] == fp[
                            j - ip.len()]);
                }
                lemma_digits_val_bound(ip + fp);
                lemma_p10_le((ip + fp).len(), 19);
                lemma_dec_norm_wf(neg, digits_val(ip + fp), fp.len() as int);
            }
        },
    }
}

/// Ten to the nineteenth still fits an unsigned sixty-four bit word.
proof fn lemma_p10_19()
    ensures
        crate::numeric::p10(19) == 10_000_000_000_000_000_000,
{
    reveal_with_fuel(crate::numeric::p10, 21);
}

proof fn lemma_p10_le(a: nat, b: nat)
    requires
        a <= b,
    ensures
        crate::numeric::p10(a) <= crate::numeric::p10(b),
        crate::numeric::p10(a) >= 1,
    decreases b,
{
    if a < b {
        lemma_p10_le(a, (b - 1) as nat);
    } else if b > 0 {
        lemma_p10_le((a - 1) as nat, (b - 1) as nat);
    }
}

/// Scan a window of the string for a character.
#[verifier::loop_isolation(false)]
fn scan_char(s: &str, a: usize, b: usize, c: char) -> (r: Option<usize>)
    requires
        a <= b <= s@.len(),
    ensures
        match r {
            Some(i) => a <= i < b && s@[i as int] == c && forall|j: int|
                a <= j < i ==> s@[j] != c,
            None => forall|j: int| a <= j < b ==> s@[j] != c,
        },
{
    let mut i: usize = a;
    while i < b
        invariant
            a <= i <= b <= s@.len(),
            forall|j: int| a <= j < i ==> s@[j] != c,
        decreases b - i,
    {
        if s.get_char(i) == c {
            return Some(i);
        }
        i = i + 1;
    }
    None
}

/// Scan a window for two consecutive dots.
#[verifier::loop_isolation(false)]
fn scan_dotdot(s: &str, a: usize, b: usize) -> (r: Option<usize>)
    requires
        a <= b <= s@.len(),
    ensures
        match r {
            Some(i) => a <= i && i + 1 < b && s@[i as int] == '.' && s@[i + 1] == '.' && forall|
                j: int,
            |
                a <= j < i ==> !(#[trigger] s@[j] == '.' && s@[j + 1] == '.'),
            None => forall|j: int|
                a <= j && j + 1 < b ==> !(#[trigger] s@[j] == '.' && s@[j + 1] == '.'),
        },
{
    if b == a {
        return None;
    }
    let mut i: usize = a;
    while i < b - 1
        invariant
            a <= i <= b <= s@.len(),
            b > a,
            forall|j: int| a <= j < i ==> !(#[trigger] s@[j] == '.' && s@[j + 1] == '.'),
        decreases b - i,
    {
        if s.get_char(i) == '.' && s.get_char(i + 1) == '.' {
            return Some(i);
        }
        i = i + 1;
    }
    None
}

/// Step identity used by the digit-accumulating loops.
proof fn lemma_digits_val_step(t: Seq<char>, k: int)
    requires
        0 <= k < t.len(),
    ensures
        digits_val(t.take(k + 1)) == digits_val(t.take(k)) * 10 + (t[k] as u32 - 48),
{
    assert(t.take(k + 1).drop_last() =~= t.take(k));
    assert(t.take(k + 1).last() == t[k]);
}

/// Parse a digit window as a precision, saturating above eight bits.
#[verifier::loop_isolation(false)]
fn parse_u8_win(s: &str, a: usize, b: usize) -> (r: Option<u8>)
    requires
        a <= b <= s@.len(),
    ensures
        r == parse_u8_spec(s@.subrange(a as int, b as int)),
{
    let ghost w = s@.subrange(a as int, b as int);
    let mut a2: usize = a;
    if b > a && s.get_char(a) == '+' {
        a2 = a + 1;
    }
    proof {
        assert(w.len() > 0 ==> w[0] == s@[a as int]);
        assert(strip_plus(w) =~= s@.subrange(a2 as int, b as int));
    }
    let ghost t = s@.subrange(a2 as int, b as int);
    if b == a2 {
        return None;
    }
    let mut acc: u32 = 0;
    let mut i: usize = a2;
    while i < b
        invariant
            a2 <= i <= b <= s@.len(),
            b > a2,
            t == s@.subrange(a2 as int, b as int),
            forall|j: int| 0 <= j < i - a2 ==> is_digit(#[trigger] t[j]),
            acc == (if digits_val(t.take(i - a2)) <= 255 {
                digits_val(t.take(i - a2))
            } else {
                256int
            }),
        decreases b - i,
    {
        let c = s.get_char(i);
        proof {
            assert(t[i - a2] == s@[i as int]);
        }
        let cv = c as u32;
        if cv < 48 || cv > 57 {
            proof {
                assert(!is_digit(t[i - a2]));
                assert(!all_digits(t));
            }
            return None;
        }
        proof {
            lemma_digits_val_step(t, i - a2);
            assert(forall|j: int|
                0 <= j < i - a2 ==> t.take(i - a2)[j] == t[j]);
            lemma_digits_val_bound_prefix(t, i - a2);
        }
        let raw: u32 = if acc > 255 {
            256
        } else {
            acc * 10 + (cv - 48)
        };
        acc = if raw > 255 {
            256
        } else {
            raw
        };
        i = i + 1;
    }
    proof {
        assert(t.take(b - a2) =~= t);
        assert(all_digits(t));
    }
    if acc <= 255 {
        Some(acc as u8)
    } else {
        None
    }
}

/// Digit values of prefixes stay within bounds.
proof fn lemma_digits_val_bound_prefix(t: Seq<char>, k: int)
    requires
        0 <= k <= t.len(),
        forall|j: int| 0 <= j < k ==> is_digit(#[trigger] t[j]),
    ensures
        0 <= digits_val(t.take(k)),
    decreases k,
{
    if k > 0 {
        lemma_digits_val_bound_prefix(t, k - 1);
        lemma_digits_val_step(t, k - 1);
    }
}

/// The value of a concatenation of digit strings.
pub proof fn lemma_digits_val_concat(x: Seq<char>, y: Seq<char>)
    ensures
        digits_val(x + y) == digits_val(x) * crate::numeric::p10(y.len()) + digits_val(y),
    decreases y.len(),
{
    if y.len() == 0 {
        assert(x + y =~= x);
    } else {
        lemma_digits_val_concat(x, y.drop_last());
        assert((x + y).drop_last() =~= x + y.drop_last());
        assert((x + y).last() == y.last());
        let n = (y.len() - 1) as nat;
        assert(crate::numeric::p10(y.len()) == 10 * crate::numeric::p10(n));
        assert(digits_val(x) * (10 * crate::numeric::p10(n)) == (digits_val(x)
            * crate::numeric::p10(n)) * 10) by (nonlinear_arith);
    }
}

proof fn lemma_p10_adds(a: nat, b: nat)
    ensures
        crate::numeric::p10(a + b) == crate::numeric::p10(a) * crate::numeric::p10(b),
    decreases b,
{
    if b == 0 {
        assert(crate::numeric::p10(a + 0) == crate::numeric::p10(a));
    } else {
        lemma_p10_adds(a, (b - 1) as nat);
        assert(a + b == (a + (b - 1) as nat) + 1);
        assert(crate::numeric::p10(((a + b - 1) as nat) + 1) == 10 * crate::numeric::p10(
            (a + b - 1) as nat,
        ));
        assert(crate::numeric::p10(a) * (10 * crate::numeric::p10((b - 1) as nat)) == 10 * (
        crate::numeric::p10(a) * crate::numeric::p10((b - 1) as nat))) by (nonlinear_arith);
    }
}

/// Ten to a small power.
#[verifier::loop_isolation(false)]
fn pow10_u64(f: usize) -> (r: u64)
    requires
        f <= 19,
    ensures
        r == crate::numeric::p10(f as nat),
{
    let mut acc: u64 = 1;
    let mut i: usize = 0;
    while i < f
        invariant
            i <= f <= 19,
            acc == crate::numeric::p10(i as nat),
        decreases f - i,
    {
        proof {
            lemma_p10_19();
            lemma_p10_le((i + 1) as nat, 19);
        }
        acc = acc * 10;
        i = i + 1;
    }
    acc
}

/// The numeric value of a window of at most nineteen digits.
#[verifier::loop_isolation(false)]
fn digits_value_win(s: &str, a: usize, b: usize) -> (r: Option<u64>)
    requires
        a <= b <= s@.len(),
        b - a <= 19,
    ensures
        match r {
            Some(v) => all_digits(s@.subrange(a as int, b as int)) && v == digits_val(
                s@.subrange(a as int, b as int),
            ),
            None => !all_digits(s@.subrange(a as int, b as int)),
        },
{
    let ghost w = s@.subrange(a as int, b as int);
    let mut acc: u64 = 0;
    let mut i: usize = a;
    while i < b
        invariant
            a <= i <= b,
            forall|j: int| 0 <= j < i - a ==> is_digit(#[trigger] w[j]),
            acc == digits_val(w.take(i - a)),
            0 <= acc < crate::numeric::p10((i - a) as nat),
        decreases b - i,
    {
        let c = s.get_char(i);
        proof {
            assert(w[i - a] == s@[i as int]);
        }
        let cv = c as u32;
        if cv < 48 || cv > 57 {
            proof {
                assert(!is_digit(w[i - a]));
            }
            return None;
        }
        proof {
            lemma_digits_val_step(w, i - a);
            lemma_p10_19();
            lemma_p10_le((i - a + 1) as nat, 19);
        }
        acc = acc * 10 + ((cv - 48) as u64);
        i = i + 1;
    }
    proof {
        assert(w.take(b - a) =~= w);
    }
    Some(acc)
}

/// Parse a window as a decimal literal.
#[verifier::spinoff_prover]
#[verifier::rlimit(100)]
fn parse_dec_win(s: &str, a: usize, b: usize) -> (r: Option<Dec>)
    requires
        a <= b <= s@.len(),
    ensures
        r == parse_dec_spec(s@.subrange(a as int, b as int)),
        match r {
            Some(d) => d.wf() && dec_small(d),
            None => true,
        },
{
    let ghost w = s@.subrange(a as int, b as int);
    proof {
        lemma_parse_dec_wf(w);
    }
    let mut ts: usize = a;
    let mut neg: bool = false;
    if b > a {
        let c0 = s.get_char(a);
        if c0 == '-' {
            neg = true;
            ts = a + 1;
        } else if c0 == '+' {
            ts = a + 1;
        }
    }
    proof {
        assert(w.len() > 0 ==> w[0] == s@[a as int]);
        assert(neg == (w.len() > 0 && w[0] == '-'));
        let t0 = if w.len() > 0 && (w[0] == '-' || w[0] == '+') {
            w.drop_first()
        } else {
            w
        };
        assert(t0 =~= s@.subrange(ts as int, b as int));
    }
    let ghost t = s@.subrange(ts as int, b as int);
    let dot = scan_char(s, ts, b, '.');
    proof {
        assert(forall|j: int| 0 <= j < t.len() ==> t[j] == s@[j + ts]);
        match dot {
            Some(i) => {
                lemma_find_char_at(t, '.', i - ts);
            },
            None => {
                lemma_find_char_none(t, '.');
            },
        }
    }
    match dot {
        None => {
            let len = b - ts;
            if len < 1 || len > 19 {
                return None;
            }
            proof {
                assert(t.take(b - ts) =~= t);
            }
            match digits_value_win(s, ts, b) {
                None => None,
                Some(v) => Some(dec_norm_exec(neg, v, 0)),
            }
        },
        Some(i) => {
            let ip_len = i - ts;
            let fp_len = b - (i + 1);
            if ip_len + fp_len < 1 || fp_len > 18 || ip_len + fp_len > 19 {
                return None;
            }
            proof {
                assert(t.take(i - ts) =~= s@.subrange(ts as int, i as int));
                assert(t.skip(i - ts + 1) =~= s@.subrange(i + 1, b as int));
            }
            let vi = digits_value_win(s, ts, i);
            let vf = digits_value_win(s, i + 1, b);
            match (vi, vf) {
                (Some(x), Some(y)) => {
                    let ghost ip = t.take(i - ts);
                    let ghost fp = t.skip(i - ts + 1);
                    proof {
                        lemma_digits_val_concat(ip, fp);
                        lemma_digits_val_bound(ip);
                        lemma_digits_val_bound(fp);
                        lemma_p10_adds(ip.len(), fp.len());
                        lemma_p10_le((ip.len() + fp.len()) as nat, 19);
                        lemma_p10_19();
                        assert(digits_val(ip) * crate::numeric::p10(fp.len()) + digits_val(fp)
                            < crate::numeric::p10(ip.len()) * crate::numeric::p10(fp.len()))
                            by (nonlinear_arith)
                            requires
                                digits_val(ip) < crate::numeric::p10(ip.len()),
                                0 <= digits_val(ip),
                                0 <= digits_val(fp) < crate::numeric::p10(fp.len()),
                                crate::numeric::p10(fp.len()) >= 1,
                        ;
                    }
                    let m: u64 = x * pow10_u64(fp_len) + y;
                    Some(dec_norm_exec(neg, m, fp_len))
                },
                _ => None,
            }
        },
    }
}

/// Strip trailing zero fraction digits.
fn dec_norm_exec(neg: bool, m0: u64, f0: usize) -> (r: Dec)
    requires
        f0 <= 18,
    ensures
        r == dec_norm(neg, m0 as int, f0 as int),
{
    let mut mant: u64 = m0;
    let mut frac: usize = f0;
    while frac > 0 && mant % 10 == 0
        invariant
            frac <= 18,
            dec_norm(neg, m0 as int, f0 as int) == dec_norm(neg, mant as int, frac as int),
        decreases frac,
    {
        mant = mant / 10;
        frac = frac - 1;
    }
    Dec { neg, mant, frac: frac as u8 }
}

/// Compare a window of the string with a literal.
#[verifier::loop_isolation(false)]
fn window_eq(s: &str, a: usize, b: usize, lit: &str) -> (r: bool)
    requires
        a <= b <= s@.len(),
    ensures
        r == (s@.subrange(a as int, b as int) == lit@),
{
    let ghost w = s@.subrange(a as int, b as int);
    let n = lit.unicode_len();
    if b - a != n {
        proof {
            assert(w.len() != lit@.len());
        }
        return false;
    }
    let mut i: usize = 0;
    while i < n
        invariant
            forall|j: int| 0 <= j < i ==> w[j] == lit@[j],
            i <= n,
        decreases n - i,
    {
        if s.get_char(a + i) != lit.get_char(i) {
            proof {
                assert(w[i as int] != lit@[i as int]);
            }
            return false;
        }
        proof {
            assert(w[i as int] == s@[a + i]);
        }
        i = i + 1;
    }
    proof {
        assert(w =~= lit@);
    }
    true
}

/// Parse a window as a range test `[LO]..[HI]`.
#[verifier::loop_isolation(false)]
fn parse_range_win(s: &str, a: usize, b: usize) -> (r: Option<Test>)
    requires
        a <= b <= s@.len(),
    ensures
        r == parse_range_spec(s@.subrange(a as int, b as int)),
        match r {
            Some(t) => test_wf(t) && test_small(t),
            None => true,
        },
{
    let ghost w = s@.subrange(a as int, b as int);
    let dd = scan_dotdot(s, a, b);
    proof {
        match dd {
            Some(i) => {
                assert(forall|j: int| 0 <= j < w.len() ==> w[j] == s@[j + a]);
                lemma_find_dotdot_at(w, i - a);
            },
            None => {
                assert(forall|j: int| 0 <= j < w.len() ==> w[j] == s@[j + a]);
                lemma_find_dotdot_none(w);
            },
        }
    }
    match dd {
        None => None,
        Some(i) => {
            proof {
                assert(w.take(i - a) =~= s@.subrange(a as int, i as int));
                assert(w.skip(i - a + 2) =~= s@.subrange(i + 2, b as int));
            }
            let lod: Option<Option<Dec>> = if i == a {
                Some(None)
            } else {
                match parse_dec_win(s, a, i) {
                    Some(d) => Some(Some(d)),
                    None => None,
                }
            };
            let hid: Option<Option<Dec>> = if i + 2 == b {
                Some(None)
            } else {
                match parse_dec_win(s, i + 2, b) {
                    Some(d) => Some(Some(d)),
                    None => None,
                }
            };
            match (lod, hid) {
                (Some(l), Some(h)) => Some(Test::Range(l, h)),
                _ => None,
            }
        },
    }
}

/// Parse the arguments of a test format, producing the stored form.
#[verifier::loop_isolation(false)]
fn parse_test_format_win(s: &str, greater: bool, a: usize, b: usize) -> (r: Option<Format>)
    requires
        a <= b <= s@.len(),
        b == s@.len(),
    ensures
        match r {
            Some(f) => format_wf(f) && match parse_test_format_spec(
                greater,
                s@.subrange(a as int, b as int),
            ) {
                Some(m) => format_matches(m, f),
                None => false,
            },
            None => parse_test_format_spec(greater, s@.subrange(a as int, b as int)) is None,
        },
{
    let ghost w = s@.subrange(a as int, b as int);
    let c1 = scan_char(s, a, b, ':');
    proof {
        assert(forall|j: int| 0 <= j < w.len() ==> w[j] == s@[j + a]);
        match c1 {
            Some(i) => {
                lemma_find_char_at(w, ':', i - a);
                assert(w.take(i - a) =~= s@.subrange(a as int, i as int));
                assert(w.skip(i - a + 1) =~= s@.subrange(i + 1, b as int));
            },
            None => {
                lemma_find_char_none(w, ':');
            },
        }
    }
    match c1 {
        None => None,
        Some(p1) => {
            let test: Option<Test> = if greater {
                match parse_dec_win(s, a, p1) {
                    Some(d) => Some(Test::Range(Some(d), None)),
                    None => None,
                }
            } else {
                parse_range_win(s, a, p1)
            };
            match test {
                None => None,
                Some(t) => {
                    let ghost rest = s@.subrange(p1 + 1, b as int);
                    let c2 = scan_char(s, p1 + 1, b, ':');
                    proof {
                        assert(forall|j: int| 0 <= j < rest.len() ==> rest[j] == s@[j + p1 + 1]);
                        match c2 {
                            Some(i) => {
                                lemma_find_char_at(rest, ':', i - p1 - 1);
                                assert(rest.take(i - p1 - 1) =~= s@.subrange(p1 + 1, i as int));
                                assert(rest.skip(i - p1 - 1 + 1) =~= s@.subrange(
                                    i + 1,
                                    b as int,
                                ));
                            },
                            None => {
                                lemma_find_char_none(rest, ':');
                                assert(rest.take(rest.len() as int) =~= rest);
                            },
                        }
                    }
                    let (then, otherwise): (String, String) = match c2 {
                        Some(p2) => (
                            s.substring_char(p1 + 1, p2).to_owned(),
                            s.substring_char(p2 + 1, b).to_owned(),
                        ),
                        None => (s.substring_char(p1 + 1, b).to_owned(), String::new()),
                    };
                    Some(Format::IfThenElse { test: t, then, otherwise })
                },
            }
        },
    }
}

/// Parse a format: a test format, or a precision.
#[verifier::loop_isolation(false)]
fn parse_format_win(s: &str, a: usize, b: usize) -> (r: Option<Format>)
    requires
        a <= b <= s@.len(),
        b == s@.len(),
    ensures
        match r {
            Some(f) => format_wf(f) && match parse_format_spec(s@.subrange(a as int, b as int)) {
                Some(m) => format_matches(m, f),
                None => false,
            },
            None => parse_format_spec(s@.subrange(a as int, b as int)) is None,
        },
{
    let ghost w = s@.subrange(a as int, b as int);
    let c1 = scan_char(s, a, b, ':');
    proof {
        assert(forall|j: int| 0 <= j < w.len() ==> w[j] == s@[j + a]);
        match c1 {
            Some(i) => {
                lemma_find_char_at(w, ':', i - a);
                assert(w.take(i - a) =~= s@.subrange(a as int, i as int));
                assert(w.skip(i - a + 1) =~= s@.subrange(i + 1, b as int));
            },
            None => {
                lemma_find_char_none(w, ':');
            },
        }
    }
    let h_end = match c1 {
        Some(i) => i,
        None => b,
    };
    proof {
        if c1 is None {
            assert(w.take(w.len() as int) =~= w);
            assert(s@.subrange(a as int, h_end as int) =~= w);
        }
        reveal_strlit("if_range");
        reveal_strlit("if_greater");
        assert("if_range"@ =~= head_if_range());
        assert("if_greater"@ =~= head_if_greater());
    }
    if window_eq(s, a, h_end, "if_range") {
        match c1 {
            Some(p) => parse_test_format_win(s, false, p + 1, b),
            None => None,
        }
    } else if window_eq(s, a, h_end, "if_greater") {
        match c1 {
            Some(p) => parse_test_format_win(s, true, p + 1, b),
            None => None,
        }
    } else if h_end > a && s.get_char(a) == '.' {
        proof {
            assert(s@.subrange(a as int, h_end as int).drop_first() =~= s@.subrange(
                a + 1,
                h_end as int,
            ));
        }
        match parse_u8_win(s, a + 1, h_end) {
            Some(p) => Some(Format::Float(p)),
            None => None,
        }
    } else if h_end > a && s.get_char(a) == '%' {
        proof {
            assert(s@.subrange(a as int, h_end as int).drop_first() =~= s@.subrange(
                a + 1,
                h_end as int,
            ));
        }
        match parse_u8_win(s, a + 1, h_end) {
            Some(p) => Some(Format::Percent(p)),
            None => None,
        }
    } else {
        None
    }
}

impl Field {
    /// Parse one field specification.
    ///
    /// The result mirrors `parse_field_spec` on the string's characters:
    /// parsing fails exactly when that grammar rejects the string, and
    /// otherwise every component of the field is the grammar's.
    #[verifier::loop_isolation(false)]
    pub fn from_str(s: &str) -> (r: Result<Field, String>)
        ensures
            match r {
                Ok(f) => field_wf(f) && match parse_field_spec(s@) {
                    Some(m) => f.0 == m.0 && f.1 == m.1 && format_matches(m.2, f.2),
                    None => false,
                },
                Err(_) => parse_field_spec(s@) is None,
            },
    {
        let n = s.unicode_len();
        let ghost w = s@;
        proof {
            assert(s@.subrange(0, n as int) =~= s@);
        }
        let c1 = scan_char(s, 0, n, ':');
        proof {
            match c1 {
                Some(i) => {
                    lemma_find_char_at(w, ':', i as int);
                    assert(w.take(i as int) =~= s@.subrange(0, i as int));
                    assert(w.skip(i + 1) =~= s@.subrange(i + 1, n as int));
                },
                None => {
                    lemma_find_char_none(w, ':');
                    assert(w.take(n as int) =~= s@.subrange(0, n as int));
                },
            }
            reveal_strlit("sum");
            reveal_strlit("sum_t");
            reveal_strlit("all_loads");
            reveal_strlit("all_loads_t");
            reveal_strlit("if_range");
            reveal_strlit("if_greater");
            assert("sum"@ =~= head_sum());
            assert("sum_t"@ =~= head_sum_t());
            assert("all_loads"@ =~= head_all_loads());
            assert("all_loads_t"@ =~= head_all_loads_t());
            assert("if_range"@ =~= head_if_range());
            assert("if_greater"@ =~= head_if_greater());
        }
        let h_end = match c1 {
            Some(i) => i,
            None => n,
        };
        let is_sum = window_eq(s, 0, h_end, "sum");
        let is_sum_t = window_eq(s, 0, h_end, "sum_t");
        let is_all = window_eq(s, 0, h_end, "all_loads");
        let is_all_t = window_eq(s, 0, h_end, "all_loads_t");
        if is_sum || is_sum_t || is_all || is_all_t {
            let src = if is_sum || is_sum_t {
                Source::Sum
            } else {
                Source::AllLoads
            };
            let sc = if is_sum || is_all {
                Scale::OfCore
            } else {
                Scale::OfTotal
            };
            match c1 {
                None => Ok(Field(src, sc, Format::Float(2))),
                Some(p) => match parse_format_win(s, p + 1, n) {
                    Some(f) => Ok(Field(src, sc, f)),
                    None => Err("unrecognized format specifier".to_owned()),
                },
            }
        } else if window_eq(s, 0, h_end, "if_range") {
            match c1 {
                None => Err("missing arguments to if_range".to_owned()),
                Some(p) => match parse_test_format_win(s, false, p + 1, n) {
                    Some(f) => Ok(Field(Source::Sum, Scale::OfCore, f)),
                    None => Err("malformed if_range arguments".to_owned()),
                },
            }
        } else if window_eq(s, 0, h_end, "if_greater") {
            match c1 {
                None => Err("missing arguments to if_greater".to_owned()),
                Some(p) => match parse_test_format_win(s, true, p + 1, n) {
                    Some(f) => Ok(Field(Source::Sum, Scale::OfCore, f)),
                    None => Err("malformed if_greater arguments".to_owned()),
                },
            }
        } else {
            Err("unrecognized field".to_owned())
        }
    }
}

/// Parse a whole-second timeout value.
///
/// Accepted exactly when the string is an optional plus sign and then
/// digits, nonempty, whose value fits an unsigned sixty-four bit count of
/// seconds.
#[verifier::loop_isolation(false)]
pub fn parse_timeout_duration(s: &str) -> (r: Result<u64, String>)
    ensures
        match r {
            Ok(v) => strip_plus(s@).len() >= 1 && all_digits(strip_plus(s@)) && digits_val(
                strip_plus(s@),
            ) == v,
            Err(_) => !(strip_plus(s@).len() >= 1 && all_digits(strip_plus(s@)) && digits_val(
                strip_plus(s@),
            ) <= 0xFFFF_FFFF_FFFF_FFFF),
        },
{
    let n = s.unicode_len();
    let mut a: usize = 0;
    if n > 0 && s.get_char(0) == '+' {
        a = 1;
    }
    let ghost t = strip_plus(s@);
    proof {
        assert(t =~= s@.subrange(a as int, n as int));
    }
    if n == a {
        return Err("empty timeout".to_owned());
    }
    let mut acc: u128 = 0;
    let mut i: usize = a;
    while i < n
        invariant
            a <= i <= n == s@.len(),
            t == s@.subrange(a as int, n as int),
            forall|j: int| 0 <= j < i - a ==> is_digit(#[trigger] t[j]),
            acc == (if digits_val(t.take(i - a)) <= 0xFFFF_FFFF_FFFF_FFFF {
                digits_val(t.take(i - a))
            } else {
                0x1_0000_0000_0000_0000
            }),
        decreases n - i,
    {
        let c = s.get_char(i);
        proof {
            assert(t[i - a] == s@[i as int]);
        }
        let cv = c as u32;
        if cv < 48 || cv > 57 {
            proof {
                assert(!is_digit(t[i - a]));
            }
            return Err("timeout is not a number".to_owned());
        }
        proof {
            lemma_digits_val_step(t, i - a);
            assert(forall|j: int| 0 <= j < i - a ==> t.take(i - a)[j] == t[j]);
            lemma_digits_val_bound_prefix(t, i - a);
        }
        let raw: u128 = if acc > 0xFFFF_FFFF_FFFF_FFFF {
            0x1_0000_0000_0000_0000
        } else {
            acc * 10 + ((cv - 48) as u128)
        };
        acc = if raw > 0xFFFF_FFFF_FFFF_FFFF {
            0x1_0000_0000_0000_0000
        } else {
            raw
        };
        i = i + 1;
    }
    proof {
        assert(t.take(n - a) =~= t);
    }
    if acc <= 0xFFFF_FFFF_FFFF_FFFF {
        Ok(acc as u64)
    } else {
        Err("timeout too large".to_owned())
    }
}

pub open spec fn digit_char(d: int) -> char {
    seq!['0', '1', '2', '3', '4', '5', '6', '7', '8', '9'][d]
}

/// Decimal digits of a nonnegative number, most significant first.
pub open spec fn render_nat(m: int) -> Seq<char>
    decreases m,
{
    if m < 10 {
        seq![digit_char(if m < 0 {
            0
        } else {
            m
        })]
    } else {
        render_nat(m / 10).push(digit_char(m % 10))
    }
}

/// Exactly `k` digits, with leading zeros.
pub open spec fn render_frac(m: int, k: nat) -> Seq<char>
    decreases k,
{
    if k == 0 {
        Seq::empty()
    } else {
        render_frac(m / 10, (k - 1) as nat).push(digit_char(if m < 0 {
            0
        } else {
            m % 10
        }))
    }
}

/// The canonical text of a decimal bound: optional minus sign, the integer
/// digits, and the fraction after a point when there is one.
pub open spec fn render_dec(d: Dec) -> Seq<char> {
    let sign: Seq<char> = if d.neg {
        seq!['-']
    } else {
        Seq::empty()
    };
    let ip = render_nat(d.mant as int / crate::numeric::p10(d.frac as nat));
    if d.frac == 0 {
        sign + ip
    } else {
        sign + ip + seq!['.'] + render_frac(d.mant as int % crate::numeric::p10(d.frac as nat), d.frac as nat)
    }
}

proof fn lemma_digit_char(d: int)
    requires
        0 <= d <= 9,
    ensures
        is_digit(digit_char(d)),
        digit_char(d) as u32 - 48 == d,
        digit_char(d) != '.' && digit_char(d) != ':' && digit_char(d) != '-',
{
}

proof fn lemma_render_nat(m: int)
    requires
        0 <= m,
    ensures
        render_nat(m).len() >= 1,
        all_digits(render_nat(m)),
        digits_val(render_nat(m)) == m,
        forall|j: int|
            0 <= j < render_nat(m).len() ==> #[trigger] render_nat(m)[j] != '.' && render_nat(
                m,
            )[j] != ':',
    decreases m,
{
    if m < 10 {
        lemma_digit_char(m);
        let r = render_nat(m);
        assert(r == seq![digit_char(m)]);
        assert(r.drop_last() =~= Seq::<char>::empty());
        assert(r.last() == digit_char(m));
        assert(digits_val(r) == digits_val(r.drop_last()) * 10 + (r.last() as u32 - 48));
        assert(forall|j: int| 0 <= j < r.len() ==> r[j] == digit_char(m));
    } else {
        lemma_render_nat(m / 10);
        lemma_digit_char(m % 10);
        let r = render_nat(m);
        let r0 = render_nat(m / 10);
        assert(r == r0.push(digit_char(m % 10)));
        assert(forall|j: int| 0 <= j < r0.len() ==> r[j] == r0[j]);
        assert(r[r.len() - 1] == digit_char(m % 10));
        assert(r.drop_last() =~= r0);
        assert(digits_val(r) == digits_val(r0) * 10 + (m % 10));
        assert(m / 10 * 10 + m % 10 == m) by (nonlinear_arith);
    }
}

proof fn lemma_render_nat_len(m: int, k: nat)
    requires
        0 <= m,
        1 <= k,
        m < crate::numeric::p10(k),
    ensures
        render_nat(m).len() <= k,
    decreases m,
{
    if m >= 10 {
        assert(crate::numeric::p10(k) == 10 * crate::numeric::p10((k - 1) as nat));
        assert(m / 10 < crate::numeric::p10((k - 1) as nat)) by (nonlinear_arith)
            requires
                m < 10 * crate::numeric::p10((k - 1) as nat),
                m >= 10,
        ;
        lemma_render_nat_len(m / 10, (k - 1) as nat);
    }
}

proof fn lemma_render_frac(m: int, k: nat)
    requires
        0 <= m < crate::numeric::p10(k),
    ensures
        render_frac(m, k).len() == k,
        all_digits(render_frac(m, k)),
        digits_val(render_frac(m, k)) == m,
        forall|j: int|
            0 <= j < k ==> #[trigger] render_frac(m, k)[j] != '.' && render_frac(m, k)[j] != ':',
    decreases k,
{
    if k > 0 {
        assert(crate::numeric::p10(k) == 10 * crate::numeric::p10((k - 1) as nat));
        assert(m / 10 < crate::numeric::p10((k - 1) as nat)) by (nonlinear_arith)
            requires
                0 <= m < 10 * crate::numeric::p10((k - 1) as nat),
        ;
        lemma_render_frac(m / 10, (k - 1) as nat);
        lemma_digit_char(m % 10);
        let r = render_frac(m, k);
        let r0 = render_frac(m / 10, (k - 1) as nat);
        assert(r == r0.push(digit_char(m % 10)));
        assert(forall|j: int| 0 <= j < r0.len() ==> r[j] == r0[j]);
        assert(r[r.len() - 1] == digit_char(m % 10));
        assert(r.drop_last() =~= r0);
        assert(digits_val(r) == digits_val(r0) * 10 + (m % 10));
        assert(m / 10 * 10 + m % 10 == m) by (nonlinear_arith);
    }
}

/// Round trip of the numeric bounds: the canonical text of a normalised
/// decimal parses back to that very decimal. Every bound the field
/// grammar accepts has at most nineteen digits, which the requirement on
/// the mantissa reflects.
pub proof fn lemma_render_dec_roundtrip(d: Dec)
    requires
        d.wf(),
        d.mant < crate::numeric::p10(19),
    ensures
        parse_dec_spec(render_dec(d)) == Some(d),
{
    let f = d.frac as nat;
    let p = crate::numeric::p10(f);
    lemma_p10_le(f, 18);
    let ipv = d.mant as int / p;
    let fpv = d.mant as int % p;
    assert(0 <= ipv && 0 <= fpv < p) by (nonlinear_arith)
        requires
            p >= 1,
            d.mant >= 0,
            ipv == d.mant as int / p,
            fpv == d.mant as int % p,
    ;
    lemma_render_nat(ipv);
    let s = render_dec(d);
    let ip = render_nat(ipv);
    // The sign, if any, is stripped first.
    let t = if s.len() > 0 && (s[0] == '-' || s[0] == '+') {
        s.drop_first()
    } else {
        s
    };
    assert(crate::numeric::p10(19) == crate::numeric::p10((19 - f) as nat) * p) by {
        lemma_p10_adds((19 - f) as nat, f);
    }
    assert(ipv < crate::numeric::p10((19 - f) as nat)) by (nonlinear_arith)
        requires
            d.mant < crate::numeric::p10(19),
            crate::numeric::p10(19) == crate::numeric::p10((19 - f) as nat) * p,
            p >= 1,
            ipv == d.mant as int / p,
            0 <= d.mant as int,
    ;
    lemma_p10_le((19 - f) as nat, 19);
    lemma_render_nat_len(ipv, (19 - f) as nat);
    if d.frac == 0 {
        assert(s == (if d.neg {
            seq!['-'] + ip
        } else {
            Seq::<char>::empty() + ip
        }));
        assert(t =~= ip);
        assert(ipv == d.mant) by (nonlinear_arith)
            requires
                p == 1,
                ipv == d.mant as int / p,
        ;
        lemma_find_char_none(t, '.');
        assert(dec_norm(d.neg, digits_val(t), 0) == d);
        assert(parse_dec_spec(s) == Some(d));
    } else {
        lemma_render_frac(fpv, f);
        let fp = render_frac(fpv, f);
        let body = ip + seq!['.'] + fp;
        assert(s == (if d.neg {
            seq!['-'] + body
        } else {
            Seq::<char>::empty() + body
        }));
        assert(t =~= body);
        let dotpos = ip.len() as int;
        assert(t[dotpos] == '.');
        assert(forall|j: int| 0 <= j < dotpos ==> t[j] == ip[j]);
        assert(forall|j: int| 0 <= j < dotpos ==> t[j] != '.');
        lemma_find_char_at(t, '.', dotpos);
        assert(t.take(dotpos) =~= ip);
        assert(t.skip(dotpos + 1) =~= fp);
        assert(all_digits(ip) && all_digits(fp));
        assert(ip.len() + fp.len() <= 19);
        let comb = ip + fp;
        lemma_digits_val_concat(ip, fp);
        assert(digits_val(comb) == ipv * p + fpv);
        assert(ipv * p + fpv == d.mant) by (nonlinear_arith)
            requires
                p >= 1,
                ipv == d.mant as int / p,
                fpv == d.mant as int % p,
                0 <= d.mant as int,
        ;
        assert(dec_norm(d.neg, d.mant as int, d.frac as int) == d);
        assert(parse_dec_spec(s) == Some(d));
    }
}

/// The canonical text of a range test: the bounds around two dots.
pub open spec fn render_test(t: Test) -> Seq<char> {
    match t {
        Test::Range(lo, hi) => (match lo {
            Some(d) => render_dec(d),
            None => Seq::empty(),
        }) + seq!['.', '.'] + (match hi {
            Some(d) => render_dec(d),
            None => Seq::empty(),
        }),
    }
}

/// The canonical text of a format; the deprecated alias is never
/// produced.
pub open spec fn render_format(m: FormatModel) -> Seq<char> {
    match m {
        FormatModel::Float(p) => seq!['.'] + render_nat(p as int),
        FormatModel::Percent(p) => seq!['%'] + render_nat(p as int),
        FormatModel::Iff(t, then, otherwise) => head_if_range() + seq![':'] + render_test(t)
            + seq![':'] + then + seq![':'] + otherwise,
    }
}

/// The canonical text of a whole parsed field.
pub open spec fn render_field(src: Source, sc: Scale, m: FormatModel) -> Seq<char> {
    let head: Seq<char> = match (src, sc) {
        (Source::Sum, Scale::OfCore) => head_sum(),
        (Source::Sum, Scale::OfTotal) => head_sum_t(),
        (Source::AllLoads, Scale::OfCore) => head_all_loads(),
        (Source::AllLoads, Scale::OfTotal) => head_all_loads_t(),
    };
    head + seq![':'] + render_format(m)
}

/// What a parse result always satisfies: normalised bounds of at most
/// nineteen digits, and a then-string free of colons.
pub open spec fn format_model_wf(m: FormatModel) -> bool {
    match m {
        FormatModel::Float(p) => true,
        FormatModel::Percent(p) => true,
        FormatModel::Iff(t, then, otherwise) => test_wf(t) && test_small(t) && (forall|j: int|
            0 <= j < then.len() ==> #[trigger] then[j] != ':'),
    }
}

/// A rendered decimal holds no colon, no two adjacent dots, and neither
/// starts nor ends with a dot.
proof fn lemma_render_dec_shape(d: Dec)
    requires
        d.wf(),
        d.mant < crate::numeric::p10(19),
    ensures
        render_dec(d).len() >= 1,
        forall|j: int| 0 <= j < render_dec(d).len() ==> #[trigger] render_dec(d)[j] != ':',
        forall|j: int|
            0 <= j && j + 1 < render_dec(d).len() ==> !(#[trigger] render_dec(d)[j] == '.'
                && render_dec(d)[j + 1] == '.'),
        render_dec(d)[render_dec(d).len() - 1] != '.',
{
    let f = d.frac as nat;
    let p = crate::numeric::p10(f);
    lemma_p10_le(f, 18);
    let ipv = d.mant as int / p;
    let fpv = d.mant as int % p;
    assert(0 <= ipv && 0 <= fpv < p) by (nonlinear_arith)
        requires
            p >= 1,
            d.mant >= 0,
            ipv == d.mant as int / p,
            fpv == d.mant as int % p,
    ;
    lemma_render_nat(ipv);
    let ip = render_nat(ipv);
    let s = render_dec(d);
    assert(forall|j: int| 0 <= j < ip.len() ==> is_digit(#[trigger] ip[j]));
    if d.frac == 0 {
        assert(forall|j: int|
            0 <= j < s.len() ==> s[j] == (if d.neg {
                if j == 0 {
                    '-'
                } else {
                    ip[j - 1]
                }
            } else {
                ip[j]
            }));
        assert forall|j: int| 0 <= j && j + 1 < s.len() implies !(#[trigger] s[j] == '.' && s[j
            + 1] == '.') by {}
    } else {
        lemma_render_frac(fpv, f);
        let fp = render_frac(fpv, f);
        let off: int = if d.neg {
            1
        } else {
            0
        };
        assert(forall|j: int|
            0 <= j < s.len() ==> s[j] == (if j < off {
                '-'
            } else if j - off < ip.len() {
                ip[j - off]
            } else if j - off == ip.len() {
                '.'
            } else {
                fp[j - off - ip.len() - 1]
            }));
        assert(fp.len() == f >= 1);
        assert forall|j: int| 0 <= j && j + 1 < s.len() implies !(#[trigger] s[j] == '.' && s[j
            + 1] == '.') by {
            if s[j] == '.' && s[j + 1] == '.' {
                assert(j == off + ip.len() || is_digit(s[j]) || s[j] == '-');
                assert(j + 1 == off + ip.len() || is_digit(s[j + 1]) || s[j + 1] == '-');
            }
        }
    }
}

/// Round trip of the whole grammar: the canonical text of any parse
/// result parses back to that very result. Together with the parser's
/// contract this says that formatting a parsed field and parsing it again
/// changes nothing, the deprecated alias having been normalised away.
#[verifier::rlimit(100)]
pub proof fn lemma_render_field_roundtrip(src: Source, sc: Scale, m: FormatModel)
    requires
        format_model_wf(m),
    ensures
        parse_field_spec(render_field(src, sc, m)) == Some((src, sc, m)),
{
    let head: Seq<char> = match (src, sc) {
        (Source::Sum, Scale::OfCore) => head_sum(),
        (Source::Sum, Scale::OfTotal) => head_sum_t(),
        (Source::AllLoads, Scale::OfCore) => head_all_loads(),
        (Source::AllLoads, Scale::OfTotal) => head_all_loads_t(),
    };
    let rest = render_format(m);
    let s = render_field(src, sc, m);
    assert(forall|j: int| 0 <= j < head.len() ==> #[trigger] head[j] != ':');
    assert(s[head.len() as int] == ':');
    assert(forall|j: int| 0 <= j < head.len() ==> s[j] == head[j]);
    lemma_find_char_at(s, ':', head.len() as int);
    assert(s.take(head.len() as int) =~= head);
    assert(s.skip(head.len() as int + 1) =~= rest);
    lemma_render_format_roundtrip(m);
    assert(head == head_sum() || head == head_sum_t() || head == head_all_loads() || head
        == head_all_loads_t());
    assert(head != head_if_range() && head != head_if_greater()) by {
        assert(head_if_range()[0] == 'i' && head_if_greater()[0] == 'i');
        assert(head[0] == 's' || head[0] == 'a');
    }
}

/// Round trip of a format alone.
#[verifier::rlimit(100)]
#[verifier::spinoff_prover]
proof fn lemma_render_format_roundtrip(m: FormatModel)
    requires
        format_model_wf(m),
    ensures
        parse_format_spec(render_format(m)) == Some(m),
{
    let s = render_format(m);
    match m {
        FormatModel::Float(p) => {
            lemma_render_nat(p as int);
            let digits = render_nat(p as int);
            assert(forall|j: int|
                0 <= j < s.len() ==> s[j] == (if j == 0 {
                    '.'
                } else {
                    digits[j - 1]
                }));
            lemma_find_char_none(s, ':');
            assert(s.take(s.len() as int) =~= s);
            assert(s.drop_first() =~= digits);
            assert(digits_val(digits) == p <= 255);
            assert(s != head_if_range() && s != head_if_greater()) by {
                assert(s[0] == '.');
                assert(head_if_range()[0] == 'i' && head_if_greater()[0] == 'i');
            }
        },
        FormatModel::Percent(p) => {
            lemma_render_nat(p as int);
            let digits = render_nat(p as int);
            assert(forall|j: int|
                0 <= j < s.len() ==> s[j] == (if j == 0 {
                    '%'
                } else {
                    digits[j - 1]
                }));
            lemma_find_char_none(s, ':');
            assert(s.take(s.len() as int) =~= s);
            assert(s.drop_first() =~= digits);
            assert(digits_val(digits) == p <= 255);
            assert(s != head_if_range() && s != head_if_greater()) by {
                assert(s[0] == '%');
                assert(head_if_range()[0] == 'i' && head_if_greater()[0] == 'i');
            }
        },
        FormatModel::Iff(t, then, otherwise) => {
            let args = render_test(t) + seq![':'] + then + seq![':'] + otherwise;
            assert(forall|j: int| 0 <= j < head_if_range().len() ==> #[trigger] head_if_range()[j]
                != ':');
            assert(s[head_if_range().len() as int] == ':');
            assert(forall|j: int| 0 <= j < head_if_range().len() ==> s[j] == head_if_range()[j]);
            lemma_find_char_at(s, ':', head_if_range().len() as int);
            assert(s.take(head_if_range().len() as int) =~= head_if_range());
            assert(s.skip(head_if_range().len() as int + 1) =~= args);
            lemma_render_test_format_roundtrip(t, then, otherwise);
        },
    }
}

/// Round trip of the arguments of a test format.
#[verifier::rlimit(100)]
#[verifier::spinoff_prover]
proof fn lemma_render_test_format_roundtrip(t: Test, then: Seq<char>, otherwise: Seq<char>)
    requires
        test_wf(t),
        match t {
            Test::Range(lo, hi) => (match lo {
                Some(d) => d.mant < crate::numeric::p10(19),
                None => true,
            }) && (match hi {
                Some(d) => d.mant < crate::numeric::p10(19),
                None => true,
            }),
        },
        forall|j: int| 0 <= j < then.len() ==> #[trigger] then[j] != ':',
    ensures
        parse_test_format_spec(
            false,
            render_test(t) + seq![':'] + then + seq![':'] + otherwise,
        ) == Some(FormatModel::Iff(t, then, otherwise)),
{
    let tt = render_test(t);
    let args = tt + seq![':'] + then + seq![':'] + otherwise;
    let (lo, hi) = match t {
        Test::Range(lo, hi) => (lo, hi),
    };
    let lot: Seq<char> = match lo {
        Some(d) => render_dec(d),
        None => Seq::empty(),
    };
    let hit: Seq<char> = match hi {
        Some(d) => render_dec(d),
        None => Seq::empty(),
    };
    assert(tt == lot + seq!['.', '.'] + hit);
    // The test text holds no colon.
    match lo {
        Some(d) => lemma_render_dec_shape(d),
        None => {},
    }
    match hi {
        Some(d) => lemma_render_dec_shape(d),
        None => {},
    }
    assert(forall|j: int| 0 <= j < lot.len() ==> #[trigger] lot[j] != ':');
    assert(forall|j: int| 0 <= j < hit.len() ==> #[trigger] hit[j] != ':');
    assert(forall|j: int|
        0 <= j < tt.len() ==> tt[j] == (if j < lot.len() {
            lot[j]
        } else if j < lot.len() + 2 {
            '.'
        } else {
            hit[j - lot.len() - 2]
        }));
    assert(forall|j: int| 0 <= j < tt.len() ==> #[trigger] tt[j] != ':');
    assert(args[tt.len() as int] == ':');
    assert(forall|j: int| 0 <= j < tt.len() ==> args[j] == tt[j]);
    lemma_find_char_at(args, ':', tt.len() as int);
    assert(args.take(tt.len() as int) =~= tt);
    let rest2 = then + seq![':'] + otherwise;
    assert(args.skip(tt.len() as int + 1) =~= rest2);
    // The range parses back to the same bounds.
    assert(tt[lot.len() as int] == '.' && tt[lot.len() as int + 1] == '.');
    assert forall|j: int| 0 <= j < lot.len() as int implies !(#[trigger] tt[j] == '.' && tt[j
        + 1] == '.') by {
        match lo {
            Some(d) => {
                if j + 1 < lot.len() {
                    assert(!(lot[j] == '.' && lot[j + 1] == '.'));
                } else {
                    assert(tt[j] == lot[lot.len() - 1]);
                    assert(tt[j] != '.');
                }
            },
            None => {},
        }
    }
    lemma_find_dotdot_at(tt, lot.len() as int);
    assert(tt.take(lot.len() as int) =~= lot);
    assert(tt.skip(lot.len() as int + 2) =~= hit);
    match lo {
        Some(d) => {
            lemma_render_dec_roundtrip(d);
        },
        None => {},
    }
    match hi {
        Some(d) => {
            lemma_render_dec_roundtrip(d);
        },
        None => {},
    }
    assert(parse_range_spec(tt) == Some(t));
    // The then-string is the piece before the next colon.
    assert(rest2[then.len() as int] == ':');
    assert forall|j: int| 0 <= j < then.len() implies #[trigger] rest2[j] != ':' by {
        assert(rest2[j] == then[j]);
        assert(then[j] != ':');
    }
    lemma_find_char_at(rest2, ':', then.len() as int);
    assert(rest2.take(then.len() as int) =~= then);
    assert(rest2.skip(then.len() as int + 1) =~= otherwise);
}

/// Every result of the field grammar is well formed: its bounds are
/// normalised decimals of at most nineteen digits and its then-string
/// holds no colon.
pub proof fn lemma_parse_field_wf(s: Seq<char>)
    ensures
        match parse_field_spec(s) {
            Some(m) => format_model_wf(m.2),
            None => true,
        },
{
    let (h, r) = split1(s);
    match r {
        Some(rest) => {
            lemma_parse_format_wf(rest);
            lemma_parse_test_format_wf(false, rest);
            lemma_parse_test_format_wf(true, rest);
        },
        None => {},
    }
}

/// Every result of the format grammar is well formed.
proof fn lemma_parse_format_wf(s: Seq<char>)
    ensures
        match parse_format_spec(s) {
            Some(m) => format_model_wf(m),
            None => true,
        },
{
    let (h, r) = split1(s);
    match r {
        Some(args) => {
            lemma_parse_test_format_wf(false, args);
            lemma_parse_test_format_wf(true, args);
        },
        None => {},
    }
}

/// Every result of the test-format grammar is well formed.
proof fn lemma_parse_test_format_wf(greater: bool, s: Seq<char>)
    ensures
        match parse_test_format_spec(greater, s) {
            Some(m) => format_model_wf(m),
            None => true,
        },
{
    let (t1, r1) = split1(s);
    lemma_find_char_in_bounds(s, ':');
    if greater {
        lemma_parse_dec_wf(t1);
    } else {
        match find_dotdot(t1) {
            None => {},
            Some(i) => {
                lemma_parse_dec_wf(t1.take(i));
                lemma_parse_dec_wf(t1.skip(i + 2));
            },
        }
    }
    match r1 {
        Some(rest) => {
            let (t2, r2) = split1(rest);
            lemma_find_char_in_bounds(rest, ':');
            assert(forall|j: int| 0 <= j < t2.len() ==> #[trigger] t2[j] != ':') by {
                match find_char(rest, ':') {
                    Some(i) => {
                        assert(forall|j: int| 0 <= j < i ==> rest.take(i)[j] == rest[j]);
                    },
                    None => {
                        assert(forall|j: int| 0 <= j < rest.len() ==> rest.take(
                            rest.len() as int,
                        )[j] == rest[j]);
                        assert(t2 =~= rest);
                    },
                }
            }
        },
        None => {},
    }
}

/// Round trip of the whole grammar, composed: whatever the field grammar
/// accepts, rendered back canonically, parses to the same result — the
/// deprecated alias having been normalised to its range form.
pub proof fn lemma_parse_then_render_roundtrip(s: Seq<char>)
    requires
        parse_field_spec(s) is Some,
    ensures
        ({
            let m = parse_field_spec(s).unwrap();
            parse_field_spec(render_field(m.0, m.1, m.2)) == parse_field_spec(s)
        }),
{
    let m = parse_field_spec(s).unwrap();
    lemma_parse_field_wf(s);
    lemma_render_field_roundtrip(m.0, m.1, m.2);
}

/// The running configuration of a client.
#[derive(Clone, Debug)]
pub struct Config {
    /// The process trees to watch, by root pid.
    pub pids: Vec<i32>,
    /// Wall-clock limit on output, in whole seconds.
    pub timeout_secs: Option<u64>,
    /// The fields to print with each update.
    pub fields: Vec<Field>,
    /// Printed between fields.
    pub separator: String,
}

/// A found index lies inside the sequence.
pub proof fn lemma_find_char_in_bounds(s: Seq<char>, c: char)
    ensures
        match find_char(s, c) {
            Some(i) => 0 <= i < s.len() && s[i] == c && forall|j: int| 0 <= j < i ==> s[j] != c,
            None => forall|j: int| 0 <= j < s.len() ==> s[j] != c,
        },
    decreases s.len(),
{
    if s.len() > 0 && s[0] != c {
        lemma_find_char_in_bounds(s.drop_first(), c);
        let d = s.drop_first();
        assert(forall|j: int| 0 <= j < d.len() ==> d[j] == s[j + 1]);
        match find_char(d, c) {
            Some(i0) => {
                assert(s[i0 + 1] == d[i0]);
                assert forall|j: int| 0 <= j < i0 + 1 implies s[j] != c by {
                    if j > 0 {
                        assert(s[j] == d[j - 1]);
                    }
                }
            },
            None => {
                assert forall|j: int| 0 <= j < s.len() implies s[j] != c by {
                    if j > 0 {
                        assert(s[j] == d[j - 1]);
                    }
                }
            },
        }
    }
}

} // verus!

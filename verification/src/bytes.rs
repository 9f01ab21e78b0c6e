//! Byte quantities.

use crate::error::Error;
use crate::error::Malformed;
use crate::host_port::all_digits;
use crate::host_port::digits_value;
use crate::host_port::is_digit;
use crate::text::is_name;
use crate::text::same_ignoring_case;
use vstd::arithmetic::div_mod::lemma_div_denominator;
use vstd::arithmetic::div_mod::lemma_hoist_over_denominator;
use vstd::prelude::*;
use vstd::string::StrSliceExecFns;

verus! {

/// A count of bytes.
#[derive(Clone, Copy, Debug, PartialEq, Eq, Structural)]
pub struct Bytes(pub u64);

impl Bytes {
    /// The number of bytes counted.
    pub fn count(self) -> (n: u64)
        ensures
            n == self.0,
    {
        self.0
    }

    /// The count as a piece length, which 32 bits must hold.
    pub fn as_piece_length(self) -> (r: Result<u32, Error>)
        ensures
            r == (if self.0 <= u32::MAX {
                Ok::<u32, Error>(self.0 as u32)
            } else {
                Err(Error::PieceLengthTooLarge { bytes: self })
            }),
    {
        if self.0 <= 0xffff_ffff {
            Ok(self.0 as u32)
        } else {
            Err(Error::PieceLengthTooLarge { bytes: self })
        }
    }
}

/// Ten to the power of `n`.
pub open spec fn pow10(n: nat) -> nat
    decreases n,
{
    if n == 0 {
        1
    } else {
        10 * pow10((n - 1) as nat)
    }
}

/// How many of the characters of `text` from `at` on are digits or dots,
/// before the first that is neither.
pub open spec fn number_length(text: Seq<char>, at: int) -> int
    decreases text.len() - at,
{
    if 0 <= at < text.len() && (is_digit(text[at]) || text[at] == '.') {
        1 + number_length(text, at + 1)
    } else {
        0
    }
}

/// The position of the first `c` in `s` from `at` on, or the length of `s`
/// where there is none.
pub open spec fn first_index(s: Seq<char>, c: char, at: int) -> int
    decreases s.len() - at,
{
    if 0 <= at < s.len() && s[at] != c {
        first_index(s, c, at + 1)
    } else if at < 0 || at > s.len() {
        s.len() as int
    } else {
        at
    }
}

/// The number of bytes that the unit `suffix` stands for, whatever the case
/// of its letters: one for none and for `b`; powers of 1000 for `kb`, `mb`,
/// `gb`, `tb`; powers of 1024 for `kib`, `mib`, `gib`, `tib`.
pub open spec fn multiplier(suffix: Seq<char>) -> Option<u64> {
    if suffix.len() == 0 || same_ignoring_case(suffix, "b"@) {
        Some(1)
    } else if same_ignoring_case(suffix, "kb"@) {
        Some(1000)
    } else if same_ignoring_case(suffix, "kib"@) {
        Some(1024)
    } else if same_ignoring_case(suffix, "mb"@) {
        Some(1000000)
    } else if same_ignoring_case(suffix, "mib"@) {
        Some(1048576)
    } else if same_ignoring_case(suffix, "gb"@) {
        Some(1000000000)
    } else if same_ignoring_case(suffix, "gib"@) {
        Some(1073741824)
    } else if same_ignoring_case(suffix, "tb"@) {
        Some(1000000000000)
    } else if same_ignoring_case(suffix, "tib"@) {
        Some(1099511627776)
    } else {
        None
    }
}

/// The whole part of `0.fraction` times `multiple`.
pub open spec fn scaled_fraction(fraction: Seq<char>, multiple: nat) -> nat {
    digits_value(fraction) * multiple / pow10(fraction.len())
}

/// The whole part of the decimal number `whole.fraction` times `multiple`.
pub open spec fn scaled(whole: Seq<char>, fraction: Seq<char>, multiple: nat) -> nat {
    digits_value(whole) * multiple + scaled_fraction(fraction, multiple)
}

/// The byte quantity that `text` stands for: a decimal number, with or
/// without a fraction, and a unit behind it. The quantity is the number
/// times the unit, without what is left of a byte. The number is as much of
/// the start of `text` as is digits and dots: it must hold a digit, and one
/// dot at most.
pub open spec fn bytes_of(text: Seq<char>) -> Result<u64, Error> {
    let n = number_length(text, 0);
    let number = text.subrange(0, n);
    let suffix = text.subrange(n, text.len() as int);
    let dot = first_index(number, '.', 0);
    let whole = number.subrange(0, dot);
    let fraction = if dot < n {
        number.subrange(dot + 1, n)
    } else {
        Seq::empty()
    };
    if whole.len() + fraction.len() == 0 || !all_digits(fraction) {
        Err(Error::CliParse { what: Malformed::ByteNumber })
    } else {
        match multiplier(suffix) {
            None => Err(Error::CliParse { what: Malformed::ByteSuffix }),
            Some(multiple) => if scaled(whole, fraction, multiple as nat) > u64::MAX {
                Err(Error::CliParse { what: Malformed::ByteRange })
            } else {
                Ok(scaled(whole, fraction, multiple as nat) as u64)
            },
        }
    }
}

/// The number that digits stand for is that of the first digit, with as
/// many zeros behind it as digits follow, and the number of the rest.
pub proof fn lemma_digits_value_first(s: Seq<char>)
    requires
        s.len() > 0,
        all_digits(s),
    ensures
        digits_value(s) == (s[0] as u32 - 48) * pow10((s.len() - 1) as nat) + digits_value(
            s.subrange(1, s.len() as int),
        ),
    decreases s.len(),
{
    let rest = s.subrange(1, s.len() as int);
    if s.len() == 1 {
        assert(is_digit(s[0]));
        assert(s.drop_last() =~= Seq::<char>::empty());
        assert(rest =~= Seq::<char>::empty());
        assert(digits_value(Seq::<char>::empty()) == 0);
        assert(pow10(0) == 1);
        let d = (s[0] as u32 - 48) as int;
        assert(s.last() == s[0]);
        assert(digits_value(s) == d);
        assert(d * 1 == d);
        assert(digits_value(rest) == 0);
    } else {
        assert forall|i: int| 0 <= i < s.drop_last().len() implies is_digit(
            #[trigger] s.drop_last()[i],
        ) by {
            assert(s.drop_last()[i] == s[i]);
        }
        assert(is_digit(s[0]));
        assert(is_digit(s[s.len() - 1]));
        lemma_digits_value_first(s.drop_last());
        assert(s.drop_last().subrange(1, s.len() - 1) =~= rest.drop_last());
        assert(rest.last() == s.last());
        let d = (s[0] as u32 - 48) as int;
        let p = pow10((s.len() - 2) as nat) as int;
        let v = digits_value(rest.drop_last()) as int;
        let l = (s.last() as u32 - 48) as int;
        assert(s.drop_last()[0] == s[0]);
        assert(digits_value(s.drop_last()) == d * p + v);
        assert(digits_value(s) == (d * p + v) * 10 + l);
        assert(digits_value(rest) == v * 10 + l);
        assert(pow10((s.len() - 1) as nat) == 10 * p);
        assert((d * p + v) * 10 == d * (10 * p) + v * 10) by (nonlinear_arith);
        assert(digits_value(s) == d * (10 * p) + digits_value(rest));
    }
}

/// The digits `s` stand for a number below ten to the power of their count.
pub proof fn lemma_digits_value_bound(s: Seq<char>)
    requires
        all_digits(s),
    ensures
        digits_value(s) < pow10(s.len()),
    decreases s.len(),
{
    if s.len() > 0 {
        assert(is_digit(s[s.len() - 1]));
        assert forall|i: int| 0 <= i < s.drop_last().len() implies is_digit(
            #[trigger] s.drop_last()[i],
        ) by {
            assert(s.drop_last()[i] == s[i]);
        }
        lemma_digits_value_bound(s.drop_last());
    }
}

/// A fraction with one more digit in front: the whole part of it times
/// `multiple` is a tenth of that digit times `multiple` and the whole part
/// of the rest times `multiple`.
pub proof fn lemma_scaled_fraction_first(s: Seq<char>, multiple: nat)
    requires
        s.len() > 0,
        all_digits(s),
    ensures
        scaled_fraction(s, multiple) == ((s[0] as u32 - 48) * multiple + scaled_fraction(
            s.subrange(1, s.len() as int),
            multiple,
        )) / 10,
        scaled_fraction(s, multiple) < multiple || multiple == 0,
{
    let rest = s.subrange(1, s.len() as int);
    let d = (s[0] as u32 - 48) as int;
    let p = pow10((s.len() - 1) as nat) as int;
    let v = digits_value(rest) as int;
    let m = multiple as int;
    lemma_digits_value_first(s);
    lemma_pow10_positive((s.len() - 1) as nat);
    assert(is_digit(s[0]));
    assert((d * p + v) * m == v * m + (d * m) * p) by (nonlinear_arith);
    assert(v * m >= 0) by (nonlinear_arith)
        requires
            v >= 0,
            m >= 0,
    ;
    assert(d * m >= 0) by (nonlinear_arith)
        requires
            d >= 0,
            m >= 0,
    ;
    lemma_hoist_over_denominator(v * m, d * m, p as nat);
    lemma_div_denominator((d * p + v) * m, p, 10);
    assert(p * 10 == 10 * p);
    lemma_digits_value_bound(s);
    if m > 0 {
        let total = digits_value(s) as int;
        let full = pow10(s.len()) as int;
        assert(total * m < full * m) by (nonlinear_arith)
            requires
                total < full,
                m > 0,
        ;
        assert(full * m == m * full) by (nonlinear_arith);
        vstd::arithmetic::div_mod::lemma_div_by_multiple_is_strongly_ordered(
            total * m,
            m * full,
            m,
            full,
        );
        vstd::arithmetic::div_mod::lemma_div_multiples_vanish(m, full);
    }
}

/// Ten to any power is positive.
pub proof fn lemma_pow10_positive(n: nat)
    ensures
        pow10(n) > 0,
    decreases n,
{
    if n > 0 {
        lemma_pow10_positive((n - 1) as nat);
    }
}

/// The number that the unit `suffix` stands for.
pub fn multiplier_of(suffix: &str) -> (r: Option<u64>)
    ensures
        r == multiplier(suffix@),
{
    if suffix.unicode_len() == 0 || is_name(suffix, "b") {
        Some(1)
    } else if is_name(suffix, "kb") {
        Some(1000)
    } else if is_name(suffix, "kib") {
        Some(1024)
    } else if is_name(suffix, "mb") {
        Some(1000000)
    } else if is_name(suffix, "mib") {
        Some(1048576)
    } else if is_name(suffix, "gb") {
        Some(1000000000)
    } else if is_name(suffix, "gib") {
        Some(1073741824)
    } else if is_name(suffix, "tb") {
        Some(1000000000000)
    } else if is_name(suffix, "tib") {
        Some(1099511627776)
    } else {
        None
    }
}

/// The digit that `c` stands for.
fn digit_of(c: char) -> (d: u8)
    requires
        is_digit(c),
    ensures
        d == c as u32 - 48,
        d <= 9,
{
    (c as u32 - 48) as u8
}

impl Bytes {
    /// Reads a byte quantity, such as `512`, `16kib` or `0.5MiB`.
    pub fn parse(text: &str) -> (r: Result<Bytes, Error>)
        ensures
            r == (match bytes_of(text@) {
                Ok(count) => Ok::<Bytes, Error>(Bytes(count)),
                Err(e) => Err(e),
            }),
    {
        let len = text.unicode_len();
        let mut n: usize = 0;
        let mut dot: usize = 0;
        let mut dots: usize = 0;
        let mut scanning = true;
        while scanning && n < len
            invariant
                n <= len,
                len == text@.len(),
                dots <= n,
                number_length(text@, 0) == n + (if scanning {
                    number_length(text@, n as int)
                } else {
                    0
                }),
                forall|i: int| 0 <= i < n ==> is_digit(#[trigger] text@[i]) || text@[i] == '.',
                dots == 0 ==> forall|i: int| 0 <= i < n ==> text@[i] != '.',
                dots > 0 ==> dot < n && text@[dot as int] == '.' && forall|i: int|
                    0 <= i < dot ==> text@[i] != '.',
                dots == 1 ==> forall|i: int| dot < i < n ==> text@[i] != '.',
                dots > 1 ==> exists|i: int| dot < i < n && text@[i] == '.',
            decreases len - n + (if scanning { 1int } else { 0int }),
        {
            let c = text.get_char(n);
            if c >= '0' && c <= '9' {
                n = n + 1;
            } else if c == '.' {
                if dots == 0 {
                    dot = n;
                }
                dots = dots + 1;
                n = n + 1;
            } else {
                scanning = false;
            }
        }
        assert(number_length(text@, 0) == n) by {
            if scanning {
                assert(number_length(text@, n as int) == 0);
            }
        }
        let ghost number = text@.subrange(0, n as int);
        if dots == 0 {
            dot = n;
        }
        proof {
            lemma_first_index(number, '.', 0, dot as int);
        }
        let ghost whole = number.subrange(0, dot as int);
        let ghost fraction = if dot < n {
            number.subrange(dot + 1, n as int)
        } else {
            Seq::<char>::empty()
        };
        if dots > 1 {
            proof {
                let i = choose|i: int| dot < i < n && text@[i] == '.';
                assert(fraction[i - dot - 1] == '.');
                assert(!is_digit(fraction[i - dot - 1]));
            }
            return Err(Error::CliParse { what: Malformed::ByteNumber });
        }
        if n == dots {
            return Err(Error::CliParse { what: Malformed::ByteNumber });
        }
        assert(all_digits(fraction));
        assert(all_digits(whole));
        let multiple = match multiplier_of(text.substring_char(n, len)) {
            Some(multiple) => multiple,
            None => {
                return Err(Error::CliParse { what: Malformed::ByteSuffix });
            },
        };
        let mut value: u128 = 0;
        let mut in_range = true;
        let mut i: usize = 0;
        assert(whole.take(0) =~= Seq::<char>::empty());
        while i < dot
            invariant
                i <= dot <= n,
                n <= len,
                len == text@.len(),
                whole == text@.subrange(0, dot as int),
                all_digits(whole),
                in_range ==> value == digits_value(whole.take(i as int)) && value <= u64::MAX,
                !in_range ==> digits_value(whole.take(i as int)) > u64::MAX,
            decreases dot - i,
        {
            let c = text.get_char(i);
            assert(whole[i as int] == c);
            assert(is_digit(whole[i as int]));
            assert(whole.take(i + 1).drop_last() =~= whole.take(i as int));
            if in_range {
                value = value * 10 + digit_of(c) as u128;
                if value > 0xffff_ffff_ffff_ffff {
                    in_range = false;
                }
            }
            i += 1;
        }
        assert(whole.take(dot as int) =~= whole);
        let mut part: u64 = 0;
        let mut k: usize = n;
        let first: usize = if dot < n {
            dot + 1
        } else {
            n
        };
        proof {
            assert(k - first == fraction.len());
            assert(fraction.subrange(k - first, fraction.len() as int) =~= Seq::<char>::empty());
            assert(digits_value(Seq::<char>::empty()) == 0);
            assert(pow10(0) == 1);
            assert(0 * (multiple as nat) == 0);
        }
        while k > first
            invariant
                first <= k <= n,
                dot < n ==> first == dot + 1,
                dot >= n ==> first == n,
                dot <= n,
                n <= len,
                len == text@.len(),
                0 < multiple <= 1099511627776,
                fraction == (if dot < n {
                    text@.subrange(dot + 1, n as int)
                } else {
                    Seq::<char>::empty()
                }),
                all_digits(fraction),
                part == scaled_fraction(
                    fraction.subrange(k - first, fraction.len() as int),
                    multiple as nat,
                ),
                part < multiple,
            decreases k,
        {
            k = k - 1;
            let c = text.get_char(k);
            let ghost tail = fraction.subrange(k - first, fraction.len() as int);
            proof {
                assert(tail[0] == c);
                assert(is_digit(fraction[k - first]));
                assert forall|j: int| 0 <= j < tail.len() implies is_digit(#[trigger] tail[j]) by {
                    assert(tail[j] == fraction[k - first + j]);
                }
                assert(tail.subrange(1, tail.len() as int) =~= fraction.subrange(
                    k + 1 - first,
                    fraction.len() as int,
                ));
                lemma_scaled_fraction_first(tail, multiple as nat);
            }
            let digit = digit_of(c) as u64;
            assert(digit * multiple <= 9 * 1099511627776) by (nonlinear_arith)
                requires
                    digit <= 9,
                    multiple <= 1099511627776,
            ;
            part = (digit * multiple + part) / 10;
        }
        proof {
            assert(fraction.subrange(0, fraction.len() as int) =~= fraction);
        }
        if !in_range {
            assert(digits_value(whole) * multiple >= digits_value(whole)) by (nonlinear_arith)
                requires
                    multiple >= 1,
            ;
            return Err(Error::CliParse { what: Malformed::ByteRange });
        }
        assert(value * multiple <= 0xffff_ffff_ffff_ffff * 1099511627776) by (nonlinear_arith)
            requires
                value <= 0xffff_ffff_ffff_ffff,
                multiple <= 1099511627776,
        ;
        let total: u128 = value * (multiple as u128) + part as u128;
        if total > 0xffff_ffff_ffff_ffff {
            return Err(Error::CliParse { what: Malformed::ByteRange });
        }
        Ok(Bytes(total as u64))
    }
}

/// Where no `c` stands in `s` from `at` up to `found`, and `found` is the
/// end of `s` or holds `c`, `found` is the first position of `c` from `at`
/// on.
pub proof fn lemma_first_index(s: Seq<char>, c: char, at: int, found: int)
    requires
        0 <= at <= found <= s.len(),
        forall|i: int| at <= i < found ==> s[i] != c,
        found == s.len() || s[found] == c,
    ensures
        first_index(s, c, at) == found,
    decreases found - at,
{
    if at < found {
        lemma_first_index(s, c, at + 1, found);
    }
}

} // verus!

//! Reading a bencode value back from its canonical encoding.

use crate::bencode::bytes_encoding;
use crate::bencode::decimal;
use crate::bencode::digit;
use crate::bencode::entries_encoding;
use crate::bencode::entries_view;
use crate::bencode::integer_text;
use crate::bencode::items_encoding;
use crate::bencode::keys_ascending;
use crate::bencode::lemma_entries_encoding_concat;
use crate::bencode::lemma_items_encoding_concat;
use crate::bencode::lemma_view_dict;
use crate::bencode::lemma_view_list;
use crate::bencode::Bencode;
use crate::bencode::Value;
use crate::file_path::lemma_views_push;
use crate::file_path::views;
use crate::lex::bytes_lt;
use crate::lex::compare_bytes;
use crate::lex::Rank;
use vstd::prelude::*;

verus! {

/// `b` is an ASCII digit.
pub open spec fn is_digit_byte(b: u8) -> bool {
    48 <= b <= 57
}

/// The number that the digits `s` stand for.
pub open spec fn digits_number(s: Seq<u8>) -> nat
    decreases s.len(),
{
    if s.len() == 0 {
        0
    } else {
        digits_number(s.drop_last()) * 10 + (s.last() - 48) as nat
    }
}

/// `s` is a decimal numeral without leading zeros: digits, at least one,
/// and the first of several is not zero.
pub open spec fn is_numeral(s: Seq<u8>) -> bool {
    &&& s.len() > 0
    &&& forall|i: int| 0 <= i < s.len() ==> is_digit_byte(#[trigger] s[i])
    &&& s.len() > 1 ==> s[0] != 48
}

/// A numeral is the decimal numeral of the number that it stands for, and
/// a numeral of several digits stands for ten at least.
pub proof fn lemma_numeral_is_decimal(s: Seq<u8>)
    requires
        is_numeral(s),
    ensures
        decimal(digits_number(s)) == s,
        s.len() > 1 ==> digits_number(s) >= 10,
        s[0] != 48 ==> digits_number(s) >= 1,
    decreases s.len(),
{
    let front = s.drop_last();
    if s.len() == 1 {
        assert(front =~= Seq::<u8>::empty());
        assert(digits_number(front) == 0);
        assert(decimal(digits_number(s)) =~= s);
    } else {
        assert(is_numeral(front)) by {
            assert forall|i: int| 0 <= i < front.len() implies is_digit_byte(#[trigger] front[i]) by {
                assert(front[i] == s[i]);
            }
            assert(front[0] == s[0]);
        }
        lemma_numeral_is_decimal(front);
        assert(is_digit_byte(s[s.len() - 1]));
        assert(front[0] == s[0]);
        let n = digits_number(s);
        assert(n / 10 == digits_number(front));
        assert(n % 10 == (s.last() - 48) as nat);
        assert(decimal(n) =~= s);
    }
}

/// The decimal numeral of a number is a numeral, and stands for that
/// number.
pub proof fn lemma_decimal_is_numeral(n: nat)
    ensures
        is_numeral(decimal(n)),
        digits_number(decimal(n)) == n,
        n > 0 ==> decimal(n)[0] != 48,
    decreases n,
{
    let s = decimal(n);
    if n < 10 {
        assert(s.drop_last() =~= Seq::<u8>::empty());
        assert(digits_number(Seq::<u8>::empty()) == 0);
    } else {
        lemma_decimal_is_numeral(n / 10);
        let front = decimal(n / 10);
        assert(s.drop_last() =~= front);
        assert(s.last() == digit((n % 10) as int));
        assert(s[0] == front[0]);
        assert forall|i: int| 0 <= i < s.len() implies is_digit_byte(#[trigger] s[i]) by {
            if i < front.len() {
                assert(s[i] == front[i]);
            }
        }
    }
}

/// The part of `bytes` from `from` to `to`, and then the part from `to` to
/// `end`, is the part from `from` to `end`.
pub proof fn lemma_subrange_join(bytes: Seq<u8>, from: int, to: int, end: int)
    requires
        0 <= from <= to <= end <= bytes.len(),
    ensures
        bytes.subrange(from, to) + bytes.subrange(to, end) == bytes.subrange(from, end),
{
    assert(bytes.subrange(from, to) + bytes.subrange(to, end) =~= bytes.subrange(from, end));
}

/// The decimal numeral of `n` stands in `bytes` at `pos`, and no digit
/// follows it.
pub open spec fn numeral_at(bytes: Seq<u8>, pos: int, n: nat) -> bool {
    let end = pos + decimal(n).len();
    &&& 0 <= pos
    &&& end <= bytes.len()
    &&& bytes.subrange(pos, end) == decimal(n)
    &&& (end == bytes.len() || !is_digit_byte(bytes[end]))
}

/// The digits of the start of a numeral stand for no more than the
/// numeral.
pub proof fn lemma_digits_number_grows(s: Seq<u8>, k: int)
    requires
        0 <= k <= s.len(),
        forall|i: int| 0 <= i < s.len() ==> is_digit_byte(#[trigger] s[i]),
    ensures
        digits_number(s.take(k)) <= digits_number(s),
    decreases s.len() - k,
{
    if k == s.len() {
        assert(s.take(k) =~= s);
    } else {
        assert(s.take(k + 1).drop_last() =~= s.take(k));
        assert(is_digit_byte(s[k]));
        assert(s.take(k + 1).last() == s[k]);
        lemma_digits_number_grows(s, k + 1);
    }
}

/// A numeral that stands at `pos` with no digit behind it is the run of
/// digits from `pos` to `end`, where that run is as long as digits go.
pub proof fn lemma_numeral_is_run(bytes: Seq<u8>, pos: int, end: int, n: nat)
    requires
        numeral_at(bytes, pos, n),
        pos <= end <= bytes.len(),
        forall|i: int| pos <= i < end ==> is_digit_byte(#[trigger] bytes[i]),
    ensures
        end <= pos + decimal(n).len(),
        (end == bytes.len() || !is_digit_byte(bytes[end])) ==> end == pos + decimal(n).len(),
{
    lemma_decimal_is_numeral(n);
    let s = decimal(n);
    let e = pos + s.len();
    if e < end {
        assert(is_digit_byte(bytes[e]));
    }
    if (end == bytes.len() || !is_digit_byte(bytes[end])) && end < e {
        assert(bytes.subrange(pos, e)[end - pos] == bytes[end]);
        assert(is_digit_byte(s[end - pos]));
    }
}

/// Reads a decimal numeral without leading zeros at `pos`, as far as digits
/// go: the number that it stands for, and where it ends. Fails where no
/// digit stands at `pos`, where a zero leads other digits, and where the
/// number is more than 64 bits hold.
pub fn parse_numeral(bytes: &[u8], pos: usize) -> (r: Option<(u64, usize)>)
    ensures
        r matches Some((n, end)) ==> {
            &&& pos < end <= bytes@.len()
            &&& bytes@.subrange(pos as int, end as int) == decimal(n as nat)
            &&& (end == bytes@.len() || !is_digit_byte(bytes@[end as int]))
        },
        forall|n: nat| #[trigger]
            numeral_at(bytes@, pos as int, n) && n <= u64::MAX ==> r == Some(
                (n as u64, (pos + decimal(n).len()) as usize),
            ),
{
    if pos >= bytes.len() || !(48 <= bytes[pos] && bytes[pos] <= 57) {
        proof {
            assert forall|n: nat| #[trigger] numeral_at(bytes@, pos as int, n) implies false by {
                lemma_decimal_is_numeral(n);
                let s = decimal(n);
                assert(bytes@.subrange(pos as int, pos + s.len())[0] == bytes@[pos as int]);
                assert(is_digit_byte(s[0]));
            }
        }
        return None;
    }
    let mut value: u64 = 0;
    let mut end: usize = pos;
    assert(bytes@.subrange(pos as int, pos as int) =~= Seq::<u8>::empty());
    while end < bytes.len() && 48 <= bytes[end] && bytes[end] <= 57
        invariant
            pos <= end <= bytes.len(),
            value == digits_number(bytes@.subrange(pos as int, end as int)),
            forall|i: int| pos <= i < end ==> is_digit_byte(#[trigger] bytes@[i]),
        decreases bytes.len() - end,
    {
        let d = (bytes[end] - 48) as u64;
        assert(bytes@.subrange(pos as int, end + 1).drop_last() =~= bytes@.subrange(
            pos as int,
            end as int,
        ));
        if value > (0xffff_ffff_ffff_ffff - d) / 10 {
            proof {
                assert forall|n: nat| #[trigger]
                    numeral_at(bytes@, pos as int, n) && n <= u64::MAX implies false by {
                    lemma_decimal_is_numeral(n);
                    lemma_numeral_is_run(bytes@, pos as int, end + 1, n);
                    let s = decimal(n);
                    lemma_digits_number_grows(s, end + 1 - pos);
                    assert(s.take(end + 1 - pos) =~= bytes@.subrange(pos as int, end + 1));
                }
            }
            return None;
        }
        value = value * 10 + d;
        end = end + 1;
    }
    if end - pos > 1 && bytes[pos] == 48 {
        proof {
            assert forall|n: nat| #[trigger] numeral_at(bytes@, pos as int, n) implies false by {
                lemma_decimal_is_numeral(n);
                lemma_numeral_is_run(bytes@, pos as int, end as int, n);
                let s = decimal(n);
                assert(bytes@.subrange(pos as int, pos + s.len())[0] == bytes@[pos as int]);
            }
        }
        return None;
    }
    proof {
        let s = bytes@.subrange(pos as int, end as int);
        assert(s[0] == bytes@[pos as int]);
        assert forall|i: int| 0 <= i < s.len() implies is_digit_byte(#[trigger] s[i]) by {
            assert(s[i] == bytes@[pos + i]);
        }
        lemma_numeral_is_decimal(s);
        assert forall|n: nat| #[trigger]
            numeral_at(bytes@, pos as int, n) && n <= u64::MAX implies n == value && end == pos
            + decimal(n).len() by {
            lemma_decimal_is_numeral(n);
            lemma_numeral_is_run(bytes@, pos as int, end as int, n);
        }
    }
    Some((value, end))
}

/// The numeral of the integer `n`, which 64 bits hold, stands in `bytes`
/// at `pos`, and an `e` follows it.
pub open spec fn integer_at(bytes: Seq<u8>, pos: int, n: int) -> bool {
    let end = pos + integer_text(n).len();
    &&& i64::MIN <= n <= i64::MAX
    &&& 0 <= pos
    &&& end < bytes.len()
    &&& bytes.subrange(pos, end) == integer_text(n)
    &&& bytes[end] == 101
}

/// The encoding of the byte string `b` stands in `bytes` at `pos`.
pub open spec fn bytes_at(bytes: Seq<u8>, pos: int, b: Seq<u8>) -> bool {
    let end = pos + bytes_encoding(b).len();
    &&& 0 <= pos
    &&& end <= bytes.len()
    &&& bytes.subrange(pos, end) == bytes_encoding(b)
}

/// Where the numeral of an integer stands, a minus sign stands first if the
/// integer is negative, and then, or else, the numeral of its magnitude.
pub proof fn lemma_integer_at(bytes: Seq<u8>, pos: int, n: int)
    requires
        integer_at(bytes, pos, n),
    ensures
        n < 0 ==> bytes[pos] == 45 && numeral_at(bytes, pos + 1, (-n) as nat),
        n >= 0 ==> bytes[pos] != 45 && numeral_at(bytes, pos, n as nat),
        pos < bytes.len(),
{
    let text = integer_text(n);
    let end = pos + text.len();
    if n < 0 {
        let s = decimal((-n) as nat);
        lemma_decimal_is_numeral((-n) as nat);
        assert(bytes.subrange(pos, end)[0] == bytes[pos]);
        assert(text[0] == 45);
        assert(bytes.subrange(pos + 1, end) =~= s) by {
            assert forall|i: int| 0 <= i < s.len() implies bytes.subrange(pos + 1, end)[i] == s[i] by {
                assert(bytes.subrange(pos, end)[i + 1] == text[i + 1]);
            }
        }
    } else {
        lemma_decimal_is_numeral(n as nat);
        assert(bytes.subrange(pos, end)[0] == bytes[pos]);
        assert(is_digit_byte(text[0]));
    }
}

/// Where the encoding of a byte string stands, the numeral of its length
/// stands first, then a colon, then the bytes.
pub proof fn lemma_bytes_at(bytes: Seq<u8>, pos: int, b: Seq<u8>)
    requires
        bytes_at(bytes, pos, b),
    ensures
        numeral_at(bytes, pos, b.len()),
        bytes[pos + decimal(b.len()).len()] == 58,
        bytes.subrange(
            pos + decimal(b.len()).len() + 1,
            pos + decimal(b.len()).len() + 1 + b.len(),
        ) == b,
        bytes_encoding(b).len() == decimal(b.len()).len() + 1 + b.len(),
        b.len() <= bytes.len(),
{
    let s = decimal(b.len());
    let enc = bytes_encoding(b);
    let end = pos + enc.len();
    lemma_decimal_is_numeral(b.len());
    assert(enc.len() == s.len() + 1 + b.len());
    assert(bytes.subrange(pos, pos + s.len()) =~= s) by {
        assert forall|i: int| 0 <= i < s.len() implies bytes.subrange(pos, pos + s.len())[i]
            == s[i] by {
            assert(bytes.subrange(pos, end)[i] == enc[i]);
        }
    }
    assert(bytes.subrange(pos, end)[s.len() as int] == enc[s.len() as int]);
    assert(enc[s.len() as int] == 58);
    let start = pos + s.len() + 1;
    assert(bytes.subrange(start, start + b.len()) =~= b) by {
        assert forall|i: int| 0 <= i < b.len() implies bytes.subrange(start, start + b.len())[i]
            == b[i] by {
            assert(bytes.subrange(pos, end)[s.len() + 1 + i] == enc[s.len() + 1 + i]);
        }
    }
}

/// Reads the integer that stands between the `i` before `pos` and an `e`:
/// the integer, and where the `e` stands. Fails for a numeral with leading
/// zeros, for `-0`, and for an integer that 64 bits do not hold.
pub fn parse_integer(bytes: &[u8], pos: usize) -> (r: Option<(i64, usize)>)
    ensures
        r matches Some((n, end)) ==> {
            &&& pos < end < bytes@.len()
            &&& bytes@.subrange(pos as int, end as int) == integer_text(n as int)
            &&& bytes@[end as int] == 101
        },
        forall|n: int| #[trigger]
            integer_at(bytes@, pos as int, n) ==> r == Some(
                (n as i64, (pos + integer_text(n).len()) as usize),
            ),
{
    proof {
        assert forall|n: int| #[trigger] integer_at(bytes@, pos as int, n) implies pos
            < bytes@.len() && (n < 0 ==> bytes@[pos as int] == 45 && numeral_at(
            bytes@,
            pos + 1,
            (-n) as nat,
        )) && (n >= 0 ==> bytes@[pos as int] != 45 && numeral_at(bytes@, pos as int, n as nat)) by {
            lemma_integer_at(bytes@, pos as int, n);
        }
    }
    if pos >= bytes.len() {
        return None;
    }
    let negative = bytes[pos] == 45;
    let start = if negative {
        pos + 1
    } else {
        pos
    };
    let (magnitude, end) = match parse_numeral(bytes, start) {
        Some(r) => r,
        None => {
            return None;
        },
    };
    if end >= bytes.len() || bytes[end] != 101 {
        return None;
    }
    if negative {
        if magnitude == 0 || magnitude > 0x8000_0000_0000_0000 {
            return None;
        }
        let n: i64 = if magnitude == 0x8000_0000_0000_0000 {
            -0x8000_0000_0000_0000
        } else {
            -(magnitude as i64)
        };
        proof {
            lemma_subrange_join(bytes@, pos as int, start as int, end as int);
            assert(bytes@.subrange(pos as int, start as int) =~= seq![45u8]);
        }
        Some((n, end))
    } else {
        if magnitude > 0x7fff_ffff_ffff_ffff {
            return None;
        }
        Some((magnitude as i64, end))
    }
}

/// Reads the byte string that is encoded at `pos`: the bytes, and where
/// the encoding ends.
pub fn parse_bytes(bytes: &[u8], pos: usize) -> (r: Option<(Vec<u8>, usize)>)
    ensures
        r matches Some((b, end)) ==> {
            &&& pos < end <= bytes@.len()
            &&& bytes@.subrange(pos as int, end as int) == bytes_encoding(b@)
        },
        forall|b: Seq<u8>| #[trigger]
            bytes_at(bytes@, pos as int, b) ==> (r matches Some((v, end)) && v@ == b && end == pos
                + bytes_encoding(b).len()),
{
    let total = bytes.len();
    proof {
        assert(bytes@.len() == total);
        assert forall|b: Seq<u8>| #[trigger] bytes_at(bytes@, pos as int, b) implies numeral_at(
            bytes@,
            pos as int,
            b.len(),
        ) && b.len() <= u64::MAX && bytes@[pos + decimal(b.len()).len()] == 58
            && bytes@.subrange(
            pos + decimal(b.len()).len() + 1,
            pos + decimal(b.len()).len() + 1 + b.len(),
        ) == b && bytes_encoding(b).len() == decimal(b.len()).len() + 1 + b.len() by {
            lemma_bytes_at(bytes@, pos as int, b);
        }
    }
    let (length, colon) = match parse_numeral(bytes, pos) {
        Some(r) => r,
        None => {
            return None;
        },
    };
    if colon >= bytes.len() || bytes[colon] != 58 {
        return None;
    }
    let start = colon + 1;
    if length > (bytes.len() - start) as u64 {
        return None;
    }
    let end = start + length as usize;
    let content = crate::file_path::copy_bytes(vstd::slice::slice_subrange(bytes, start, end));
    proof {
        lemma_subrange_join(bytes@, pos as int, colon as int, start as int);
        lemma_subrange_join(bytes@, pos as int, start as int, end as int);
        assert(bytes@.subrange(colon as int, start as int) =~= seq![58u8]);
    }
    Some((content, end))
}

/// The encoding of items with one more is the encoding of the items and
/// then that of the one.
pub proof fn lemma_items_encoding_push(items: Seq<Bencode>, item: Bencode)
    ensures
        items_encoding(items.push(item)) == items_encoding(items) + item.encoding(),
{
    assert(items.push(item).drop_last() =~= items);
}

/// The encoding of entries with one more is the encoding of the entries
/// and then that of the key and the value of the one.
pub proof fn lemma_entries_encoding_push(
    entries: Seq<(Seq<u8>, Bencode)>,
    key: Seq<u8>,
    value: Bencode,
)
    ensures
        entries_encoding(entries.push((key, value))) == entries_encoding(entries) + bytes_encoding(
            key,
        ) + value.encoding(),
{
    assert(entries.push((key, value)).drop_last() =~= entries);
}

/// The views of entries with one more are the views of the entries and
/// then the view of the one.
pub proof fn lemma_entries_view_push(entries: Seq<(Vec<u8>, Value)>, key: Vec<u8>, value: Value)
    ensures
        entries_view(entries.push((key, value))) == entries_view(entries).push((key@, value@)),
{
    assert(entries_view(entries.push((key, value))) =~= entries_view(entries).push(
        (key@, value@),
    ));
}

/// The canonical value `b` is encoded in `bytes` at `pos`.
pub open spec fn begins_at(bytes: Seq<u8>, pos: int, b: Bencode) -> bool {
    let end = pos + b.encoding().len();
    &&& b.canonical()
    &&& 0 <= pos
    &&& end <= bytes.len()
    &&& bytes.subrange(pos, end) == b.encoding()
}

/// Every item of `items` is canonical.
pub open spec fn items_canonical(items: Seq<Bencode>) -> bool {
    forall|i: int| 0 <= i < items.len() ==> (#[trigger] items[i]).canonical()
}

/// The key of every entry of `entries` comes after the one before, and
/// every value is canonical.
pub open spec fn entries_canonical(entries: Seq<(Seq<u8>, Bencode)>) -> bool {
    &&& keys_ascending(entries)
    &&& forall|i: int| 0 <= i < entries.len() ==> (#[trigger] entries[i]).1.canonical()
}

/// The canonical items `items` are encoded in `bytes` from `start` on, and
/// an `e` follows them.
pub open spec fn items_at(bytes: Seq<u8>, start: int, items: Seq<Bencode>) -> bool {
    let end = start + items_encoding(items).len();
    &&& items_canonical(items)
    &&& 0 <= start
    &&& end < bytes.len()
    &&& bytes.subrange(start, end) == items_encoding(items)
    &&& bytes[end] == 101
}

/// The canonical entries `entries` are encoded in `bytes` from `start` on,
/// and an `e` follows them.
pub open spec fn entries_at(bytes: Seq<u8>, start: int, entries: Seq<(Seq<u8>, Bencode)>) -> bool {
    let end = start + entries_encoding(entries).len();
    &&& entries_canonical(entries)
    &&& 0 <= start
    &&& end < bytes.len()
    &&& bytes.subrange(start, end) == entries_encoding(entries)
    &&& bytes[end] == 101
}

/// An encoding has two bytes at least, and its first tells what is
/// encoded: `i` an integer, a digit a byte string, `l` a list, `d` a
/// dictionary.
pub proof fn lemma_first_byte(b: Bencode)
    ensures
        b.encoding().len() >= 2,
        b is Integer <==> b.encoding()[0] == 105,
        b is Bytes <==> is_digit_byte(b.encoding()[0]),
        b is List <==> b.encoding()[0] == 108,
        b is Dict <==> b.encoding()[0] == 100,
{
    match b {
        Bencode::Integer(n) => {
            if n < 0 {
                lemma_decimal_is_numeral((-n) as nat);
            } else {
                lemma_decimal_is_numeral(n as nat);
            }
        },
        Bencode::Bytes(bytes) => {
            lemma_decimal_is_numeral(bytes.len());
            assert(b.encoding()[0] == decimal(bytes.len())[0]);
        },
        Bencode::List(items) => {},
        Bencode::Dict(entries) => {},
    }
}

/// What stands in `bytes` where a value is encoded: for an integer, `i` and
/// its numeral and `e`; for a byte string, its encoding; for a list, `l`,
/// its items and `e`; for a dictionary, `d`, its entries and `e`.
pub proof fn lemma_begins(bytes: Seq<u8>, pos: int, b: Bencode)
    requires
        begins_at(bytes, pos, b),
    ensures
        pos < bytes.len(),
        bytes[pos] == b.encoding()[0],
        b matches Bencode::Integer(n) ==> integer_at(bytes, pos + 1, n) && b.encoding().len()
            == integer_text(n).len() + 2,
        b matches Bencode::Bytes(s) ==> bytes_at(bytes, pos, s),
        b matches Bencode::List(items) ==> items_at(bytes, pos + 1, items) && b.encoding().len()
            == items_encoding(items).len() + 2,
        b matches Bencode::Dict(entries) ==> entries_at(bytes, pos + 1, entries)
            && b.encoding().len() == entries_encoding(entries).len() + 2,
{
    lemma_first_byte(b);
    let enc = b.encoding();
    let end = pos + enc.len();
    assert(bytes.subrange(pos, end)[0] == bytes[pos]);
    assert(bytes.subrange(pos, end)[enc.len() - 1] == bytes[end - 1]);
    match b {
        Bencode::Integer(n) => {
            let text = integer_text(n);
            assert(bytes.subrange(pos + 1, end - 1) =~= text) by {
                assert forall|i: int| 0 <= i < text.len() implies bytes.subrange(pos + 1, end - 1)[i]
                    == text[i] by {
                    assert(bytes.subrange(pos, end)[i + 1] == enc[i + 1]);
                }
            }
        },
        Bencode::Bytes(s) => {},
        Bencode::List(items) => {
            let inner = items_encoding(items);
            assert(bytes.subrange(pos + 1, end - 1) =~= inner) by {
                assert forall|i: int| 0 <= i < inner.len() implies bytes.subrange(
                    pos + 1,
                    end - 1,
                )[i] == inner[i] by {
                    assert(bytes.subrange(pos, end)[i + 1] == enc[i + 1]);
                }
            }
        },
        Bencode::Dict(entries) => {
            let inner = entries_encoding(entries);
            assert(bytes.subrange(pos + 1, end - 1) =~= inner) by {
                assert forall|i: int| 0 <= i < inner.len() implies bytes.subrange(
                    pos + 1,
                    end - 1,
                )[i] == inner[i] by {
                    assert(bytes.subrange(pos, end)[i + 1] == enc[i + 1]);
                }
            }
        },
    }
}

/// A part of `bytes` that holds `first` and then `second` holds `second`
/// behind `first`.
pub proof fn lemma_subrange_split(
    bytes: Seq<u8>,
    from: int,
    end: int,
    first: Seq<u8>,
    second: Seq<u8>,
)
    requires
        0 <= from <= end <= bytes.len(),
        bytes.subrange(from, end) == first + second,
    ensures
        from + first.len() + second.len() == end,
        bytes.subrange(from, from + first.len()) == first,
        bytes.subrange(from + first.len(), end) == second,
{
    let whole = first + second;
    assert(whole.len() == end - from);
    assert(bytes.subrange(from, from + first.len()) =~= first) by {
        assert forall|i: int| 0 <= i < first.len() implies bytes.subrange(
            from,
            from + first.len(),
        )[i] == first[i] by {
            assert(bytes.subrange(from, end)[i] == whole[i]);
        }
    }
    assert(bytes.subrange(from + first.len(), end) =~= second) by {
        assert forall|i: int| 0 <= i < second.len() implies bytes.subrange(
            from + first.len(),
            end,
        )[i] == second[i] by {
            assert(bytes.subrange(from, end)[first.len() + i] == whole[first.len() + i]);
        }
    }
}

/// Where items are encoded, item `k` is encoded behind the `k` items
/// before it, and does not begin with `e`; behind all the items stands the
/// `e`.
pub proof fn lemma_items_layout(bytes: Seq<u8>, start: int, items: Seq<Bencode>, k: int)
    requires
        items_at(bytes, start, items),
        0 <= k <= items.len(),
    ensures
        start + items_encoding(items.take(k)).len() < bytes.len(),
        k < items.len() ==> begins_at(
            bytes,
            start + items_encoding(items.take(k)).len(),
            items[k],
        ) && bytes[start + items_encoding(items.take(k)).len()] != 101,
        k == items.len() ==> bytes[start + items_encoding(items.take(k)).len()] == 101,
{
    let before = items.take(k);
    let end = start + items_encoding(items).len();
    if k == items.len() {
        assert(before =~= items);
    } else {
        let rest = items.skip(k + 1);
        let item = items[k];
        assert(items =~= before.push(item) + rest);
        lemma_items_encoding_concat(before.push(item), rest);
        lemma_items_encoding_push(before, item);
        let a = items_encoding(before);
        let b = item.encoding();
        let c = items_encoding(rest);
        assert(items_encoding(items) == a + b + c);
        assert(a + b + c =~= a + (b + c));
        lemma_subrange_split(bytes, start, end, a, b + c);
        lemma_subrange_split(bytes, start + a.len(), end, b, c);
        assert(item.canonical());
        lemma_first_byte(item);
        assert(bytes.subrange(start + a.len(), start + a.len() + b.len())[0] == bytes[start
            + a.len()]);
    }
}

/// Where entries are encoded, the key of entry `k` is encoded behind the
/// `k` entries before it, and its value behind the key; the key comes
/// after the key before; behind all the entries stands the `e`.
pub proof fn lemma_entries_layout(
    bytes: Seq<u8>,
    start: int,
    entries: Seq<(Seq<u8>, Bencode)>,
    k: int,
)
    requires
        entries_at(bytes, start, entries),
        0 <= k <= entries.len(),
    ensures
        start + entries_encoding(entries.take(k)).len() < bytes.len(),
        k < entries.len() ==> {
            let at = start + entries_encoding(entries.take(k)).len();
            &&& bytes_at(bytes, at, entries[k].0)
            &&& begins_at(bytes, at + bytes_encoding(entries[k].0).len(), entries[k].1)
            &&& bytes[at] != 101
            &&& k > 0 ==> bytes_lt(entries[k - 1].0, entries[k].0)
        },
        k == entries.len() ==> bytes[start + entries_encoding(entries.take(k)).len()] == 101,
{
    let before = entries.take(k);
    let end = start + entries_encoding(entries).len();
    if k == entries.len() {
        assert(before =~= entries);
    } else {
        let rest = entries.skip(k + 1);
        let key = entries[k].0;
        let value = entries[k].1;
        assert(entries =~= before.push((key, value)) + rest);
        lemma_entries_encoding_concat(before.push((key, value)), rest);
        lemma_entries_encoding_push(before, key, value);
        let a = entries_encoding(before);
        let b = bytes_encoding(key);
        let c = value.encoding();
        let d = entries_encoding(rest);
        assert(entries_encoding(entries) == a + b + c + d);
        assert(a + b + c + d =~= a + (b + (c + d)));
        lemma_subrange_split(bytes, start, end, a, b + (c + d));
        lemma_subrange_split(bytes, start + a.len(), end, b, c + d);
        lemma_subrange_split(bytes, start + a.len() + b.len(), end, c, d);
        assert(value.canonical());
        lemma_decimal_is_numeral(key.len());
        assert(b[0] == decimal(key.len())[0]);
        assert(bytes.subrange(start + a.len(), start + a.len() + b.len())[0] == bytes[start
            + a.len()]);
    }
}

impl Value {
    /// Reads the items that are encoded from `start` up to an `e`: the
    /// items, and where the `e` stands.
    pub fn parse_items(bytes: &[u8], start: usize) -> (r: Option<(Vec<Value>, usize)>)
        ensures
            r matches Some((items, end)) ==> {
                &&& start <= end < bytes@.len()
                &&& items_canonical(views(items@))
                &&& bytes@.subrange(start as int, end as int) == items_encoding(views(items@))
                &&& bytes@[end as int] == 101
            },
            forall|items: Seq<Bencode>| #[trigger]
                items_at(bytes@, start as int, items) ==> (r matches Some((v, end)) && views(v@)
                    == items && end == start + items_encoding(items).len()),
        decreases bytes@.len() - start, 1int,
    {
        let mut items: Vec<Value> = Vec::new();
        let mut at: usize = start;
        if start > bytes.len() {
            return None;
        }
        proof {
            assert(bytes@.subrange(start as int, at as int) =~= Seq::<u8>::empty());
            assert(views(items@) =~= Seq::<Bencode>::empty());
            assert forall|all: Seq<Bencode>| #[trigger]
                items_at(bytes@, start as int, all) implies all.take(0) == views(items@) by {
                assert(all.take(0) =~= Seq::<Bencode>::empty());
            }
        }
        while at < bytes.len() && bytes[at] != 101
            invariant
                start <= at <= bytes.len(),
                bytes@.subrange(start as int, at as int) == items_encoding(views(items@)),
                items_canonical(views(items@)),
                forall|all: Seq<Bencode>| #[trigger]
                    items_at(bytes@, start as int, all) ==> items@.len() <= all.len() && all.take(
                        items@.len() as int,
                    ) == views(items@),
            decreases bytes.len() - at,
        {
            let ghost k = items@.len() as int;
            let ghost before = views(items@);
            proof {
                assert forall|all: Seq<Bencode>| #[trigger]
                    items_at(bytes@, start as int, all) implies k < all.len() && begins_at(
                    bytes@,
                    at as int,
                    all[k],
                ) by {
                    lemma_items_layout(bytes@, start as int, all, k);
                }
            }
            let (item, end) = match Value::parse(bytes, at) {
                Some(r) => r,
                None => {
                    return None;
                },
            };
            proof {
                lemma_views_push(items@, item);
                lemma_items_encoding_push(before, item@);
                lemma_subrange_join(bytes@, start as int, at as int, end as int);
                assert forall|i: int| 0 <= i < before.push(item@).len() implies (
                #[trigger] before.push(item@)[i]).canonical() by {
                    if i < before.len() {
                        assert(before.push(item@)[i] == before[i]);
                    }
                }
                assert forall|all: Seq<Bencode>| #[trigger]
                    items_at(bytes@, start as int, all) implies k + 1 <= all.len() && all.take(
                    k + 1,
                ) == before.push(item@) by {
                    assert(begins_at(bytes@, at as int, all[k]));
                    assert(all.take(k + 1) =~= all.take(k).push(all[k]));
                }
            }
            items.push(item);
            at = end;
        }
        proof {
            assert forall|all: Seq<Bencode>| #[trigger]
                items_at(bytes@, start as int, all) implies at < bytes@.len() && all == views(
                items@,
            ) by {
                let k = items@.len() as int;
                lemma_items_layout(bytes@, start as int, all, k);
                if k < all.len() {
                    assert(bytes@[at as int] != 101);
                }
                assert(all.take(all.len() as int) =~= all);
            }
        }
        if at >= bytes.len() {
            return None;
        }
        Some((items, at))
    }

    /// Reads the entries that are encoded from `start` up to an `e`: the
    /// entries, and where the `e` stands. The keys must ascend.
    pub fn parse_entries(bytes: &[u8], start: usize) -> (r: Option<(Vec<(Vec<u8>, Value)>, usize)>)
        ensures
            r matches Some((entries, end)) ==> {
                &&& start <= end < bytes@.len()
                &&& entries_canonical(entries_view(entries@))
                &&& bytes@.subrange(start as int, end as int) == entries_encoding(
                    entries_view(entries@),
                )
                &&& bytes@[end as int] == 101
            },
            forall|entries: Seq<(Seq<u8>, Bencode)>| #[trigger]
                entries_at(bytes@, start as int, entries) ==> (r matches Some((v, end))
                    && entries_view(v@) == entries && end == start + entries_encoding(
                    entries,
                ).len()),
        decreases bytes@.len() - start, 1int,
    {
        let mut entries: Vec<(Vec<u8>, Value)> = Vec::new();
        let mut at: usize = start;
        if start > bytes.len() {
            return None;
        }
        proof {
            assert(bytes@.subrange(start as int, at as int) =~= Seq::<u8>::empty());
            assert(entries_view(entries@) =~= Seq::<(Seq<u8>, Bencode)>::empty());
            assert forall|all: Seq<(Seq<u8>, Bencode)>| #[trigger]
                entries_at(bytes@, start as int, all) implies all.take(0) == entries_view(
                entries@,
            ) by {
                assert(all.take(0) =~= Seq::<(Seq<u8>, Bencode)>::empty());
            }
        }
        while at < bytes.len() && bytes[at] != 101
            invariant
                start <= at <= bytes.len(),
                bytes@.subrange(start as int, at as int) == entries_encoding(entries_view(entries@)),
                entries_canonical(entries_view(entries@)),
                forall|all: Seq<(Seq<u8>, Bencode)>| #[trigger]
                    entries_at(bytes@, start as int, all) ==> entries@.len() <= all.len()
                        && all.take(entries@.len() as int) == entries_view(entries@),
            decreases bytes.len() - at,
        {
            let ghost k = entries@.len() as int;
            let ghost before = entries_view(entries@);
            proof {
                assert forall|all: Seq<(Seq<u8>, Bencode)>| #[trigger]
                    entries_at(bytes@, start as int, all) implies k < all.len() && bytes_at(
                    bytes@,
                    at as int,
                    all[k].0,
                ) && begins_at(bytes@, at + bytes_encoding(all[k].0).len(), all[k].1) && (k > 0
                    ==> bytes_lt(all[k - 1].0, all[k].0)) && (k > 0 ==> all[k - 1] == before[k
                    - 1]) by {
                    lemma_entries_layout(bytes@, start as int, all, k);
                    if k > 0 {
                        assert(all.take(k)[k - 1] == all[k - 1]);
                    }
                }
            }
            let (key, middle) = match parse_bytes(bytes, at) {
                Some(r) => r,
                None => {
                    return None;
                },
            };
            if entries.len() > 0 {
                assert(before[k - 1].0 == entries@[k - 1].0@);
                match compare_bytes(entries[entries.len() - 1].0.as_slice(), key.as_slice()) {
                    Rank::Less => {},
                    _ => {
                        proof {
                            assert forall|all: Seq<(Seq<u8>, Bencode)>| #[trigger]
                                entries_at(bytes@, start as int, all) implies false by {
                                assert(bytes_at(bytes@, at as int, all[k].0));
                                crate::lex::lemma_bytes_lt_irreflexive(key@);
                            }
                        }
                        return None;
                    },
                }
            }
            proof {
                assert forall|all: Seq<(Seq<u8>, Bencode)>| #[trigger]
                    entries_at(bytes@, start as int, all) implies begins_at(
                    bytes@,
                    middle as int,
                    all[k].1,
                ) && all[k].0 == key@ by {
                    assert(bytes_at(bytes@, at as int, all[k].0));
                }
            }
            let (value, end) = match Value::parse(bytes, middle) {
                Some(r) => r,
                None => {
                    return None;
                },
            };
            proof {
                let ghost after = before.push((key@, value@));
                lemma_entries_view_push(entries@, key, value);
                lemma_entries_encoding_push(before, key@, value@);
                lemma_subrange_join(bytes@, start as int, at as int, middle as int);
                lemma_subrange_join(bytes@, start as int, middle as int, end as int);
                assert forall|i: int| 0 <= i < after.len() implies (#[trigger] after[i]).1.canonical() by {
                    if i < before.len() {
                        assert(after[i] == before[i]);
                    }
                }
                assert forall|i: int| 0 < i < after.len() implies bytes_lt(
                    after[i - 1].0,
                    #[trigger] after[i].0,
                ) by {
                    if i < before.len() {
                        assert(after[i] == before[i]);
                        assert(after[i - 1] == before[i - 1]);
                    } else {
                        assert(after[i - 1] == before[before.len() - 1]);
                    }
                }
                assert forall|all: Seq<(Seq<u8>, Bencode)>| #[trigger]
                    entries_at(bytes@, start as int, all) implies k + 1 <= all.len() && all.take(
                    k + 1,
                ) == after by {
                    assert(begins_at(bytes@, middle as int, all[k].1));
                    assert(all[k] == (key@, value@));
                    assert(all.take(k + 1) =~= all.take(k).push(all[k]));
                }
            }
            entries.push((key, value));
            at = end;
        }
        proof {
            assert forall|all: Seq<(Seq<u8>, Bencode)>| #[trigger]
                entries_at(bytes@, start as int, all) implies at < bytes@.len() && all
                == entries_view(entries@) by {
                let k = entries@.len() as int;
                lemma_entries_layout(bytes@, start as int, all, k);
                if k < all.len() {
                    assert(bytes@[at as int] != 101);
                }
                assert(all.take(all.len() as int) =~= all);
            }
        }
        if at >= bytes.len() {
            return None;
        }
        Some((entries, at))
    }

    /// Reads the value that is encoded at `pos`: the value, and where its
    /// encoding ends. What is read is canonical, and every canonical value
    /// that is encoded there is read.
    pub fn parse(bytes: &[u8], pos: usize) -> (r: Option<(Value, usize)>)
        ensures
            r matches Some((v, end)) ==> {
                &&& pos < end <= bytes@.len()
                &&& v@.canonical()
                &&& bytes@.subrange(pos as int, end as int) == v@.encoding()
            },
            forall|b: Bencode| #[trigger]
                begins_at(bytes@, pos as int, b) ==> (r matches Some((v, end)) && v@ == b && end
                    == pos + b.encoding().len()),
        decreases bytes@.len() - pos, 0int,
    {
        proof {
            assert forall|b: Bencode| #[trigger] begins_at(bytes@, pos as int, b) implies pos
                < bytes@.len() && bytes@[pos as int] == b.encoding()[0] && (b is Integer <==> bytes@[pos as int]
                == 105) && (b is List <==> bytes@[pos as int] == 108) && (b is Dict <==> bytes@[pos as int]
                == 100) && (b matches Bencode::Integer(n) ==> integer_at(bytes@, pos + 1, n)
                && b.encoding().len() == integer_text(n).len() + 2) && (b matches Bencode::Bytes(s)
                ==> bytes_at(bytes@, pos as int, s)) && (b matches Bencode::List(items)
                ==> items_at(bytes@, pos + 1, items) && b.encoding().len() == items_encoding(
                items,
            ).len() + 2) && (b matches Bencode::Dict(entries) ==> entries_at(
                bytes@,
                pos + 1,
                entries,
            ) && b.encoding().len() == entries_encoding(entries).len() + 2) by {
                lemma_begins(bytes@, pos as int, b);
                lemma_first_byte(b);
            }
        }
        if pos >= bytes.len() {
            return None;
        }
        let first = bytes[pos];
        if first == 105 {
            let (n, end) = match parse_integer(bytes, pos + 1) {
                Some(r) => r,
                None => {
                    return None;
                },
            };
            let v = Value::Integer(n);
            proof {
                assert(bytes@.subrange(pos as int, end + 1) =~= seq![105u8] + bytes@.subrange(
                    pos + 1,
                    end as int,
                ) + seq![101u8]);
            }
            Some((v, end + 1))
        } else if first == 108 {
            let (items, end) = match Value::parse_items(bytes, pos + 1) {
                Some(r) => r,
                None => {
                    return None;
                },
            };
            proof {
                lemma_view_list(items);
                assert(bytes@.subrange(pos as int, end + 1) =~= seq![108u8] + bytes@.subrange(
                    pos + 1,
                    end as int,
                ) + seq![101u8]);
            }
            Some((Value::List(items), end + 1))
        } else if first == 100 {
            let (entries, end) = match Value::parse_entries(bytes, pos + 1) {
                Some(r) => r,
                None => {
                    return None;
                },
            };
            proof {
                lemma_view_dict(entries);
                assert(bytes@.subrange(pos as int, end + 1) =~= seq![100u8] + bytes@.subrange(
                    pos + 1,
                    end as int,
                ) + seq![101u8]);
            }
            Some((Value::Dict(entries), end + 1))
        } else {
            match parse_bytes(bytes, pos) {
                Some((b, end)) => Some((Value::Bytes(b), end)),
                None => None,
            }
        }
    }

    /// The value that `bytes` is the canonical encoding of: a canonical
    /// value whose encoding is `bytes`, and the only one.
    pub fn decode(bytes: &[u8]) -> (r: Option<Value>)
        ensures
            r matches Some(v) ==> v@.canonical() && v@.encoding() == bytes@,
            forall|b: Bencode|
                b.canonical() && #[trigger] b.encoding() == bytes@ ==> (r matches Some(v) && v@
                    == b),
    {
        proof {
            assert forall|b: Bencode| b.canonical() && #[trigger] b.encoding()
                == bytes@ implies begins_at(bytes@, 0, b) by {
                assert(bytes@.subrange(0, bytes@.len() as int) =~= bytes@);
            }
        }
        match Value::parse(bytes, 0) {
            Some((v, end)) => {
                if end == bytes.len() {
                    assert(bytes@.subrange(0, end as int) =~= bytes@);
                    Some(v)
                } else {
                    None
                }
            },
            None => None,
        }
    }
}

} // verus!

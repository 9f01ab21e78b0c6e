//! Comparison of argument text with the names that arguments can take.

use vstd::prelude::*;
use vstd::string::StrSliceExecFns;
use vstd::string::StringSliceAdditionalSpecFns;
use vstd::utf8::encode_utf8;

verus! {

/// The bytes of a string of ASCII characters.
pub open spec fn ascii(s: Seq<char>) -> Seq<u8> {
    Seq::new(s.len(), |i: int| s[i] as u8)
}

/// Whether `bytes` is the ASCII string `name`.
pub fn is_literal(bytes: &[u8], name: &str) -> (r: bool)
    requires
        name.is_ascii(),
    ensures
        r == (bytes@ == ascii(name@)),
{
    broadcast use vstd::string::is_ascii_spec_bytes;

    let expected = name.as_bytes();
    assert(expected@ =~= ascii(name@));
    if bytes.len() != expected.len() {
        return false;
    }
    let mut i: usize = 0;
    while i < bytes.len()
        invariant
            i <= bytes.len(),
            bytes.len() == expected.len(),
            expected@ == ascii(name@),
            forall|j: int| 0 <= j < i ==> bytes@[j] == expected@[j],
        decreases bytes.len() - i,
    {
        if bytes[i] != expected[i] {
            assert(bytes@[i as int] != expected@[i as int]);
            return false;
        }
        i += 1;
    }
    assert(bytes@ =~= expected@);
    true
}

/// The byte `b`, or its lower-case form where `b` is an ASCII capital.
pub open spec fn folded(b: u8) -> u8 {
    if 65 <= b <= 90 {
        (b + 32) as u8
    } else {
        b
    }
}

/// The byte strings `a` and `b` are the same but for the case of ASCII
/// letters.
pub open spec fn same_bytes_ignoring_case(a: Seq<u8>, b: Seq<u8>) -> bool {
    &&& a.len() == b.len()
    &&& forall|i: int| 0 <= i < a.len() ==> folded(#[trigger] a[i]) == folded(b[i])
}

/// The strings `a` and `b`, in UTF-8, are the same but for the case of
/// ASCII letters.
pub open spec fn same_ignoring_case(a: Seq<char>, b: Seq<char>) -> bool {
    same_bytes_ignoring_case(encode_utf8(a), encode_utf8(b))
}

/// The byte `b`, or its lower-case form where `b` is an ASCII capital.
pub fn fold_byte(b: u8) -> (r: u8)
    ensures
        r == folded(b),
{
    if 65 <= b && b <= 90 {
        b + 32
    } else {
        b
    }
}

/// Whether `a` is `b` but for the case of ASCII letters.
pub fn is_name_bytes(a: &[u8], b: &[u8]) -> (r: bool)
    ensures
        r == same_bytes_ignoring_case(a@, b@),
{
    if a.len() != b.len() {
        return false;
    }
    let mut i: usize = 0;
    while i < a.len()
        invariant
            i <= a.len(),
            a.len() == b.len(),
            forall|j: int| 0 <= j < i ==> folded(#[trigger] a@[j]) == folded(b@[j]),
        decreases a.len() - i,
    {
        if fold_byte(a[i]) != fold_byte(b[i]) {
            return false;
        }
        i += 1;
    }
    true
}

/// Whether `text` is `name` but for the case of ASCII letters.
pub fn is_name(text: &str, name: &str) -> (r: bool)
    ensures
        r == same_ignoring_case(text@, name@),
{
    is_name_bytes(text.as_bytes(), name.as_bytes())
}

/// `String::from_utf8` of std: the string that `bytes` holds in UTF-8, or
/// nothing where `bytes` is not UTF-8.
#[verifier::external_body]
pub(crate) fn string_from_utf8(bytes: Vec<u8>) -> (r: Option<String>)
    ensures
        r is Some <==> vstd::utf8::valid_utf8(bytes@),
        r matches Some(s) ==> encode_utf8(s@) == bytes@,
{
    match String::from_utf8(bytes) {
        Ok(s) => Some(s),
        Err(_) => None,
    }
}

/// The pieces of `text` between the separators `sep`, where the piece that
/// is being read began at `start` and has been read up to `at`.
pub open spec fn split_from(text: Seq<char>, sep: char, start: int, at: int) -> Seq<Seq<char>>
    decreases text.len() - at,
{
    if at >= text.len() {
        seq![text.subrange(start, text.len() as int)]
    } else if text[at] == sep {
        seq![text.subrange(start, at)] + split_from(text, sep, at + 1, at + 1)
    } else {
        split_from(text, sep, start, at + 1)
    }
}

/// The pieces of `text` between the separators `sep`: one more than there
/// are separators, each possibly empty.
pub open spec fn split(text: Seq<char>, sep: char) -> Seq<Seq<char>> {
    split_from(text, sep, 0, 0)
}

/// The pieces of `text` between the separators `sep`.
pub fn split_text(text: &str, sep: char) -> (pieces: Vec<String>)
    ensures
        crate::file_path::views(pieces@) == split(text@, sep),
{
    let n = text.unicode_len();
    let mut pieces: Vec<String> = Vec::new();
    let mut start: usize = 0;
    let mut at: usize = 0;
    assert(crate::file_path::views(pieces@) =~= Seq::<Seq<char>>::empty());
    while at < n
        invariant
            start <= at <= n,
            n == text@.len(),
            split(text@, sep) == crate::file_path::views(pieces@) + split_from(
                text@,
                sep,
                start as int,
                at as int,
            ),
        decreases n - at,
    {
        if text.get_char(at) == sep {
            let piece = text.substring_char(start, at).to_owned();
            proof {
                crate::file_path::lemma_views_push(pieces@, piece);
            }
            pieces.push(piece);
            start = at + 1;
            assert(split(text@, sep) =~= crate::file_path::views(pieces@) + split_from(
                text@,
                sep,
                start as int,
                start as int,
            ));
        }
        at = at + 1;
    }
    let piece = text.substring_char(start, n).to_owned();
    proof {
        crate::file_path::lemma_views_push(pieces@, piece);
    }
    pieces.push(piece);
    assert(crate::file_path::views(pieces@) =~= split(text@, sep));
    pieces
}

} // verus!

//! The bencode value model and its canonical serialisation.

use crate::file_path::views;
use crate::lex::bytes_lt;
use vstd::prelude::*;

verus! {

/// A bencode value as mathematics sees it.
pub enum Bencode {
    Integer(int),
    Bytes(Seq<u8>),
    List(Seq<Bencode>),
    Dict(Seq<(Seq<u8>, Bencode)>),
}

/// A bencode value held in memory. A dictionary is the list of its entries
/// in the order in which they are written.
#[derive(Debug)]
pub enum Value {
    Integer(i64),
    Bytes(Vec<u8>),
    List(Vec<Value>),
    Dict(Vec<(Vec<u8>, Value)>),
}

/// The ASCII digit for `d`, where `0 <= d <= 9`.
pub open spec fn digit(d: int) -> u8 {
    (48 + d) as u8
}

/// The decimal numeral of `n`, without leading zeros.
pub open spec fn decimal(n: nat) -> Seq<u8>
    decreases n,
{
    if n < 10 {
        seq![digit(n as int)]
    } else {
        decimal(n / 10) + seq![digit((n % 10) as int)]
    }
}

/// The decimal numeral of `n`, with a minus sign where it is negative.
pub open spec fn integer_text(n: int) -> Seq<u8> {
    if n < 0 {
        seq![45u8] + decimal((-n) as nat)
    } else {
        decimal(n as nat)
    }
}

/// The encoding of a byte string: its length, a colon, the bytes.
pub open spec fn bytes_encoding(b: Seq<u8>) -> Seq<u8> {
    decimal(b.len()) + seq![58u8] + b
}

/// The encodings of the items of a list, one after the other.
pub open spec fn items_encoding(items: Seq<Bencode>) -> Seq<u8>
    decreases items,
{
    if items.len() == 0 {
        Seq::empty()
    } else {
        items_encoding(items.drop_last()) + items.last().encoding()
    }
}

/// The encodings of the entries of a dictionary, one after the other, each
/// key before its value.
pub open spec fn entries_encoding(entries: Seq<(Seq<u8>, Bencode)>) -> Seq<u8>
    decreases entries,
{
    if entries.len() == 0 {
        Seq::empty()
    } else {
        entries_encoding(entries.drop_last()) + bytes_encoding(entries.last().0)
            + entries.last().1.encoding()
    }
}

/// The keys of `entries` stand in strictly ascending byte order.
pub open spec fn keys_ascending(entries: Seq<(Seq<u8>, Bencode)>) -> bool {
    forall|i: int| 0 < i < entries.len() ==> bytes_lt(entries[i - 1].0, #[trigger] entries[i].0)
}

impl Bencode {
    /// The bytes that stand for this value.
    pub open spec fn encoding(self) -> Seq<u8>
        decreases self,
    {
        match self {
            Bencode::Integer(n) => seq![105u8] + integer_text(n) + seq![101u8],
            Bencode::Bytes(b) => bytes_encoding(b),
            Bencode::List(items) => seq![108u8] + items_encoding(items) + seq![101u8],
            Bencode::Dict(entries) => seq![100u8] + entries_encoding(entries) + seq![101u8],
        }
    }

    /// Every integer in the value fits in 64 bits, and every dictionary in it
    /// has its keys in strictly ascending byte order, hence no key twice.
    pub open spec fn canonical(self) -> bool
        decreases self,
    {
        match self {
            Bencode::Integer(n) => i64::MIN <= n <= i64::MAX,
            Bencode::Bytes(b) => true,
            Bencode::List(items) => forall|i: int|
                0 <= i < items.len() ==> (#[trigger] items[i]).canonical(),
            Bencode::Dict(entries) => {
                &&& keys_ascending(entries)
                &&& forall|i: int| 0 <= i < entries.len() ==> (#[trigger] entries[i]).1.canonical()
            },
        }
    }
}

/// The entries of `entries`, in order, keys and values by their views.
pub open spec fn entries_view(entries: Seq<(Vec<u8>, Value)>) -> Seq<(Seq<u8>, Bencode)> {
    Seq::new(entries.len(), |i: int| (entries[i].0@, entries[i].1@))
}

impl View for Value {
    type V = Bencode;

    open spec fn view(&self) -> Bencode
        decreases self,
    {
        match self {
            Value::Integer(n) => Bencode::Integer(*n as int),
            Value::Bytes(b) => Bencode::Bytes(b@),
            Value::List(l) => Bencode::List(
                Seq::new(
                    l@.len(),
                    |i: int|
                        if 0 <= i < l@.len() {
                            l@[i]@
                        } else {
                            Bencode::Integer(0)
                        },
                ),
            ),
            Value::Dict(d) => Bencode::Dict(
                Seq::new(
                    d@.len(),
                    |i: int|
                        (
                            d@[i].0@,
                            if 0 <= i < d@.len() {
                                d@[i].1@
                            } else {
                                Bencode::Integer(0)
                            },
                        ),
                ),
            ),
        }
    }
}

/// A list value is seen as the list of its items' views.
pub proof fn lemma_view_list(l: Vec<Value>)
    ensures
        Value::List(l)@ == Bencode::List(views(l@)),
{
    assert(Value::List(l)@->List_0 =~= views(l@));
}

/// A dictionary value is seen as the list of its entries' views.
pub proof fn lemma_view_dict(d: Vec<(Vec<u8>, Value)>)
    ensures
        Value::Dict(d)@ == Bencode::Dict(entries_view(d@)),
{
    let v = Value::Dict(d);
    assert(v@ is Dict);
    let got = v@->Dict_0;
    assert(got.len() == d@.len());
    assert forall|i: int| 0 <= i < got.len() implies got[i] == entries_view(d@)[i] by {}
    assert(got =~= entries_view(d@));
}

/// Appends the decimal numeral of `n` to `out`.
pub fn push_decimal(out: &mut Vec<u8>, n: u64)
    ensures
        final(out)@ == old(out)@ + decimal(n as nat),
    decreases n,
{
    if n >= 10 {
        push_decimal(out, n / 10);
    }
    out.push(48u8 + (n % 10) as u8);
    assert(out@ =~= old(out)@ + decimal(n as nat));
}

/// Appends the decimal numeral of `n` to `out`, with a minus sign where `n`
/// is negative.
pub fn push_integer(out: &mut Vec<u8>, n: i64)
    ensures
        final(out)@ == old(out)@ + integer_text(n as int),
{
    if n < 0 {
        out.push(45u8);
        let magnitude: u64 = (0 - (n as i128)) as u64;
        push_decimal(out, magnitude);
        assert(out@ =~= old(out)@ + (seq![45u8] + decimal((-(n as int)) as nat)));
    } else {
        push_decimal(out, n as u64);
    }
}

/// Appends the encoding of the byte string `b` to `out`.
pub fn push_bytes(out: &mut Vec<u8>, b: &[u8])
    ensures
        final(out)@ == old(out)@ + bytes_encoding(b@),
{
    push_decimal(out, b.len() as u64);
    out.push(58u8);
    let ghost before = out@;
    let mut i: usize = 0;
    while i < b.len()
        invariant
            i <= b.len(),
            out@ == before + b@.take(i as int),
        decreases b.len() - i,
    {
        out.push(b[i]);
        assert(b@.take(i + 1) =~= b@.take(i as int).push(b@[i as int]));
        i += 1;
    }
    assert(b@.take(b.len() as int) =~= b@);
    assert(out@ =~= old(out)@ + bytes_encoding(b@));
}

impl Value {
    /// The bytes that stand for this value.
    pub fn encode(&self) -> (out: Vec<u8>)
        ensures
            out@ == self@.encoding(),
    {
        let mut out: Vec<u8> = Vec::new();
        self.encode_into(&mut out);
        out
    }

    /// Appends the bytes that stand for this value to `out`.
    #[verifier::loop_isolation(false)]
    pub fn encode_into(&self, out: &mut Vec<u8>)
        ensures
            final(out)@ == old(out)@ + self@.encoding(),
        decreases self,
    {
        match self {
            Value::Integer(n) => {
                out.push(105u8);
                push_integer(out, *n);
                out.push(101u8);
                assert(out@ =~= old(out)@ + self@.encoding());
            },
            Value::Bytes(b) => {
                push_bytes(out, b.as_slice());
            },
            Value::List(l) => {
                proof {
                    lemma_view_list(*l);
                }
                out.push(108u8);
                let ghost items = views(l@);
                let mut i: usize = 0;
                while i < l.len()
                    invariant
                        i <= l.len(),
                        items == views(l@),
                        out@ == old(out)@ + seq![108u8] + items_encoding(items.take(i as int)),
                    decreases l.len() - i,
                {
                    l[i].encode_into(out);
                    assert(items.take(i + 1).drop_last() =~= items.take(i as int));
                    i += 1;
                }
                assert(items.take(l.len() as int) =~= items);
                out.push(101u8);
                assert(out@ =~= old(out)@ + self@.encoding());
            },
            Value::Dict(d) => {
                proof {
                    lemma_view_dict(*d);
                }
                out.push(100u8);
                let ghost entries = entries_view(d@);
                let mut i: usize = 0;
                while i < d.len()
                    invariant
                        i <= d.len(),
                        entries == entries_view(d@),
                        out@ == old(out)@ + seq![100u8] + entries_encoding(entries.take(i as int)),
                    decreases d.len() - i,
                {
                    push_bytes(out, d[i].0.as_slice());
                    d[i].1.encode_into(out);
                    assert(entries.take(i + 1).drop_last() =~= entries.take(i as int));
                    i += 1;
                }
                assert(entries.take(d.len() as int) =~= entries);
                out.push(101u8);
                assert(out@ =~= old(out)@ + self@.encoding());
            },
        }
    }
}

/// The encoding of entries after entries is the encoding of the first and
/// then that of the second.
pub proof fn lemma_entries_encoding_concat(
    a: Seq<(Seq<u8>, Bencode)>,
    b: Seq<(Seq<u8>, Bencode)>,
)
    ensures
        entries_encoding(a + b) == entries_encoding(a) + entries_encoding(b),
    decreases b.len(),
{
    if b.len() == 0 {
        assert(a + b =~= a);
        assert(entries_encoding(a + b) =~= entries_encoding(a) + entries_encoding(b));
    } else {
        assert((a + b).drop_last() =~= a + b.drop_last());
        lemma_entries_encoding_concat(a, b.drop_last());
        assert(entries_encoding(a + b) =~= entries_encoding(a) + entries_encoding(b));
    }
}

/// The encoding of items after items is the encoding of the first and then
/// that of the second.
pub proof fn lemma_items_encoding_concat(a: Seq<Bencode>, b: Seq<Bencode>)
    ensures
        items_encoding(a + b) == items_encoding(a) + items_encoding(b),
    decreases b.len(),
{
    if b.len() == 0 {
        assert(a + b =~= a);
        assert(items_encoding(a + b) =~= items_encoding(a) + items_encoding(b));
    } else {
        assert((a + b).drop_last() =~= a + b.drop_last());
        lemma_items_encoding_concat(a, b.drop_last());
        assert(items_encoding(a + b) =~= items_encoding(a) + items_encoding(b));
    }
}

} // verus!

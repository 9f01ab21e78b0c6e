//! Reading a metainfo document back from its bencode value.
//!
//! Each function here reads what its counterpart among the writing
//! functions wrote, and nothing else.

use crate::bencode::entries_view;
use crate::bencode::lemma_view_dict;
use crate::bencode::lemma_view_list;
use crate::bencode::Bencode;
use crate::bencode::Value;
use crate::bytes::Bytes;
use crate::file_path::copy_bytes;
use crate::file_path::lemma_views_push;
use crate::file_path::views;
use crate::file_path::FilePath;
use crate::lex::bytes_lt;
use crate::lex::lemma_bytes_lt_irreflexive;
use crate::lex::lemma_bytes_lt_transitive;
use crate::metainfo::digest_view;
use crate::metainfo::optional_text;
use crate::metainfo::tiers_view;
use crate::metainfo::FileInfo;
use crate::metainfo::FileInfoView;
use crate::metainfo::HostPort;
use crate::metainfo::HostPortView;
use crate::metainfo::Info;
use crate::metainfo::InfoView;
use crate::metainfo::Metainfo;
use crate::metainfo::MetainfoView;
use crate::metainfo::Mode;
use crate::metainfo::ModeView;
use crate::metainfo::PieceList;
use crate::text::ascii;
use crate::text::is_literal;
use crate::text::string_from_utf8;
use crate::wire::digest_value;
use crate::wire::field;
use crate::wire::file_items;
use crate::wire::hex;
use crate::wire::hex_digit;
use crate::wire::node_items;
use crate::wire::nodes_value;
use crate::wire::number;
use crate::wire::number_value;
use crate::wire::optional;
use crate::wire::path_items;
use crate::wire::private_value;
use crate::wire::text;
use crate::wire::text_items;
use crate::wire::text_value;
use crate::wire::tier_items;
use crate::wire::tiers_value;
use vstd::prelude::*;

verus! {

/// The string that the byte string `v` holds in UTF-8.
pub fn text_from(v: &Value) -> (r: Option<String>)
    ensures
        r matches Some(s) ==> v@ == text(s@),
        forall|s: Seq<char>| #[trigger] text(s) == v@ ==> (r matches Some(x) && x@ == s),
{
    match v {
        Value::Bytes(b) => {
            let r = string_from_utf8(copy_bytes(b.as_slice()));
            proof {
                assert forall|s: Seq<char>| #[trigger] text(s) == v@ implies (r matches Some(x)
                    && x@ == s) by {
                    vstd::utf8::encode_utf8_valid_utf8(s);
                    vstd::utf8::encode_utf8_decode_utf8(s);
                    vstd::utf8::encode_utf8_decode_utf8(r->Some_0@);
                }
            }
            r
        },
        _ => None,
    }
}

/// The number that the integer `v` is, if it is not negative.
pub fn number_from(v: &Value) -> (r: Option<u64>)
    ensures
        r matches Some(n) ==> v@ == number(n),
        forall|n: u64| #[trigger] number(n) == v@ ==> r == Some(n),
{
    match v {
        Value::Integer(n) => {
            if *n >= 0 {
                Some(*n as u64)
            } else {
                None
            }
        },
        _ => None,
    }
}

/// The number that the lower-case hexadecimal digit `d` stands for.
fn hex_value_of(d: u8) -> (r: Option<u8>)
    ensures
        r matches Some(n) ==> n < 16 && hex_digit(n as int) == d,
        forall|n: int| 0 <= n < 16 && #[trigger] hex_digit(n) == d ==> r == Some(n as u8),
{
    if 48 <= d && d <= 57 {
        Some(d - 48)
    } else if 97 <= d && d <= 102 {
        Some(d - 87)
    } else {
        None
    }
}

/// The digest that the byte string `v` holds in hexadecimal.
pub fn digest_from(v: &Value) -> (r: Option<[u8; 16]>)
    ensures
        r matches Some(d) ==> v@ == Bencode::Bytes(hex(d@)),
        forall|d: Seq<u8>|
            d.len() == 16 && #[trigger] hex(d) == v@->Bytes_0 && v@ is Bytes ==> (r matches Some(x)
                && x@ == d),
{
    match v {
        Value::Bytes(b) => {
            if b.len() != 32 {
                proof {
                    assert forall|d: Seq<u8>| d.len() == 16 && #[trigger] hex(d) == b@ implies false by {
                        assert(hex(d).len() == 32);
                    }
                }
                return None;
            }
            let mut digest: [u8; 16] = [0u8; 16];
            let mut i: usize = 0;
            while i < 16
                invariant
                    i <= 16,
                    b.len() == 32,
                    v@ == Bencode::Bytes(b@),
                    forall|j: int| 0 <= j < 2 * i ==> b@[j] == #[trigger] hex(digest@)[j],
                    forall|d: Seq<u8>, j: int|
                        d.len() == 16 && #[trigger] hex(d) == b@ && 0 <= j < i ==> #[trigger] d[j]
                            == digest@[j],
                decreases 16 - i,
            {
                proof {
                    assert forall|d: Seq<u8>| d.len() == 16 && #[trigger] hex(d) == b@ implies b@[2
                        * i] == hex_digit(d[i as int] as int / 16) && b@[2 * i + 1] == hex_digit(
                        d[i as int] as int % 16,
                    ) by {
                        assert(hex(d)[2 * i] == hex_digit(d[i as int] as int / 16));
                        assert(hex(d)[2 * i + 1] == hex_digit(d[i as int] as int % 16));
                    }
                }
                let high = match hex_value_of(b[2 * i]) {
                    Some(n) => n,
                    None => {
                        proof {
                            assert forall|d: Seq<u8>| d.len() == 16 && #[trigger] hex(d)
                                == b@ implies false by {
                                assert(b@[2 * i] == hex_digit(d[i as int] as int / 16));
                            }
                        }
                        return None;
                    },
                };
                let low = match hex_value_of(b[2 * i + 1]) {
                    Some(n) => n,
                    None => {
                        proof {
                            assert forall|d: Seq<u8>| d.len() == 16 && #[trigger] hex(d)
                                == b@ implies false by {
                                assert(b@[2 * i + 1] == hex_digit(d[i as int] as int % 16));
                            }
                        }
                        return None;
                    },
                };
                proof {
                    assert forall|d: Seq<u8>| d.len() == 16 && #[trigger] hex(d) == b@ implies d[i as int]
                        == high * 16 + low by {
                        assert(b@[2 * i] == hex_digit(d[i as int] as int / 16));
                        assert(b@[2 * i + 1] == hex_digit(d[i as int] as int % 16));
                    }
                }
                let ghost before = digest@;
                digest[i] = high * 16 + low;
                proof {
                    assert forall|j: int| 0 <= j < 2 * (i + 1) implies b@[j] == #[trigger] hex(
                        digest@,
                    )[j] by {
                        if j < 2 * i {
                            assert(digest@[j / 2] == before[j / 2]);
                            assert(b@[j] == hex(before)[j]);
                        }
                    }
                    assert forall|d: Seq<u8>, j: int|
                        d.len() == 16 && #[trigger] hex(d) == b@ && 0 <= j < i + 1 implies #[trigger] d[j]
                        == digest@[j] by {
                        if j < i {
                            assert(digest@[j] == before[j]);
                        } else {
                            assert(d[i as int] == high * 16 + low);
                        }
                    }
                }
                i += 1;
            }
            proof {
                assert(b@ =~= hex(digest@));
                assert forall|d: Seq<u8>| d.len() == 16 && #[trigger] hex(d) == b@ implies digest@
                    == d by {
                    assert forall|j: int| 0 <= j < 16 implies digest@[j] == d[j] by {
                        assert(d[j] == digest@[j]);
                    }
                    assert(digest@ =~= d);
                }
            }
            Some(digest)
        },
        _ => None,
    }
}

/// The path whose components the list `v` holds.
pub fn path_from(v: &Value) -> (r: Option<FilePath>)
    ensures
        r matches Some(path) ==> v@ == Bencode::List(path_items(path@)),
        forall|p: Seq<Seq<u8>>| #[trigger]
            path_items(p) == v@->List_0 && v@ is List ==> (r matches Some(x) && x@ == p),
{
    match v {
        Value::List(items) => {
            proof {
                lemma_view_list(*items);
            }
            let mut components: Vec<Vec<u8>> = Vec::new();
            let mut i: usize = 0;
            while i < items.len()
                invariant
                    i <= items.len(),
                    v@ == Bencode::List(views(items@)),
                    components.len() == i,
                    path_items(views(components@)) == views(items@).take(i as int),
                    forall|p: Seq<Seq<u8>>| #[trigger]
                        path_items(p) == views(items@) ==> p.take(i as int) == views(components@),
                decreases items.len() - i,
            {
                let ghost before = views(components@);
                match &items[i] {
                    Value::Bytes(b) => {
                        let c = copy_bytes(b.as_slice());
                        proof {
                            lemma_views_push(components@, c);
                            assert(views(items@)[i as int] == Bencode::Bytes(c@));
                        }
                        components.push(c);
                    },
                    _ => {
                        proof {
                            assert forall|p: Seq<Seq<u8>>| #[trigger]
                                path_items(p) == views(items@) implies false by {
                                assert(path_items(p).len() == p.len());
                                assert(path_items(p)[i as int] == views(items@)[i as int]);
                            }
                        }
                        return None;
                    },
                }
                proof {
                    let ghost got = path_items(views(components@));
                    let ghost want = views(items@).take(i + 1);
                    assert forall|k: int| 0 <= k < i + 1 implies got[k] == want[k] by {
                        if k < i {
                            assert(path_items(before)[k] == views(items@).take(i as int)[k]);
                        }
                    }
                    assert(got =~= want);
                    assert forall|p: Seq<Seq<u8>>| #[trigger]
                        path_items(p) == views(items@) implies p.take(i + 1) == views(
                        components@,
                    ) by {
                        assert(path_items(p).len() == p.len());
                        assert(path_items(p)[i as int] == views(items@)[i as int]);
                        assert(p.take(i + 1) =~= p.take(i as int).push(p[i as int]));
                    }
                }
                i += 1;
            }
            proof {
                assert(views(items@).take(items.len() as int) =~= views(items@));
                assert forall|p: Seq<Seq<u8>>| #[trigger]
                    path_items(p) == views(items@) implies p == views(components@) by {
                    assert(path_items(p).len() == p.len());
                    assert(p.take(p.len() as int) =~= p);
                }
            }
            Some(FilePath { components })
        },
        _ => None,
    }
}

/// The strings that the list `v` holds.
pub fn strings_from(v: &Value) -> (r: Option<Vec<String>>)
    ensures
        r matches Some(strings) ==> v@ == Bencode::List(text_items(views(strings@))),
        forall|s: Seq<Seq<char>>| #[trigger]
            text_items(s) == v@->List_0 && v@ is List ==> (r matches Some(x) && views(x@) == s),
{
    match v {
        Value::List(items) => {
            proof {
                lemma_view_list(*items);
            }
            let mut strings: Vec<String> = Vec::new();
            let mut i: usize = 0;
            while i < items.len()
                invariant
                    i <= items.len(),
                    v@ == Bencode::List(views(items@)),
                    strings.len() == i,
                    text_items(views(strings@)) == views(items@).take(i as int),
                    forall|s: Seq<Seq<char>>| #[trigger]
                        text_items(s) == views(items@) ==> s.take(i as int) == views(strings@),
                decreases items.len() - i,
            {
                let ghost before = views(strings@);
                proof {
                    assert forall|s: Seq<Seq<char>>| #[trigger]
                        text_items(s) == views(items@) implies s.len() == items@.len() && text(
                        s[i as int],
                    ) == items[i as int]@ by {
                        assert(text_items(s).len() == s.len());
                        assert(text_items(s)[i as int] == views(items@)[i as int]);
                    }
                }
                match text_from(&items[i]) {
                    Some(x) => {
                        proof {
                            lemma_views_push(strings@, x);
                            assert(views(items@)[i as int] == text(x@));
                        }
                        strings.push(x);
                    },
                    None => {
                        proof {
                            assert forall|s: Seq<Seq<char>>| #[trigger]
                                text_items(s) == views(items@) implies false by {
                                assert(text(s[i as int]) == items[i as int]@);
                            }
                        }
                        return None;
                    },
                }
                proof {
                    let ghost got = text_items(views(strings@));
                    let ghost want = views(items@).take(i + 1);
                    assert forall|k: int| 0 <= k < i + 1 implies got[k] == want[k] by {
                        if k < i {
                            assert(text_items(before)[k] == views(items@).take(i as int)[k]);
                        }
                    }
                    assert(got =~= want);
                    assert forall|s: Seq<Seq<char>>| #[trigger]
                        text_items(s) == views(items@) implies s.take(i + 1) == views(strings@) by {
                        assert(text(s[i as int]) == items[i as int]@);
                        assert(s.take(i + 1) =~= s.take(i as int).push(s[i as int]));
                    }
                }
                i += 1;
            }
            proof {
                assert(views(items@).take(items.len() as int) =~= views(items@));
                assert forall|s: Seq<Seq<char>>| #[trigger]
                    text_items(s) == views(items@) implies s == views(strings@) by {
                    assert(text_items(s).len() == s.len());
                    assert(s.take(s.len() as int) =~= s);
                }
            }
            Some(strings)
        },
        _ => None,
    }
}

/// The announce tiers that the list `v` holds.
pub fn tiers_from(v: &Value) -> (r: Option<Vec<Vec<String>>>)
    ensures
        r matches Some(tiers) ==> v@ == Bencode::List(tier_items(tiers_view(tiers@))),
        forall|t: Seq<Seq<Seq<char>>>| #[trigger]
            tier_items(t) == v@->List_0 && v@ is List ==> (r matches Some(x) && tiers_view(x@)
                == t),
{
    match v {
        Value::List(items) => {
            proof {
                lemma_view_list(*items);
            }
            let mut tiers: Vec<Vec<String>> = Vec::new();
            let mut i: usize = 0;
            while i < items.len()
                invariant
                    i <= items.len(),
                    v@ == Bencode::List(views(items@)),
                    tiers.len() == i,
                    tier_items(tiers_view(tiers@)) == views(items@).take(i as int),
                    forall|t: Seq<Seq<Seq<char>>>| #[trigger]
                        tier_items(t) == views(items@) ==> t.take(i as int) == tiers_view(tiers@),
                decreases items.len() - i,
            {
                proof {
                    assert forall|t: Seq<Seq<Seq<char>>>| #[trigger]
                        tier_items(t) == views(items@) implies t.len() == items@.len()
                        && Bencode::List(text_items(t[i as int])) == items[i as int]@ by {
                        assert(tier_items(t).len() == t.len());
                        assert(tier_items(t)[i as int] == views(items@)[i as int]);
                    }
                }
                match strings_from(&items[i]) {
                    Some(tier) => {
                        let ghost before = tiers@;
                        tiers.push(tier);
                        proof {
                            let ghost got = tier_items(tiers_view(tiers@));
                            let ghost want = views(items@).take(i + 1);
                            assert forall|k: int| 0 <= k < i + 1 implies got[k] == want[k] by {
                                if k < i {
                                    assert(tiers@[k] == before[k]);
                                    assert(tier_items(tiers_view(before))[k] == views(items@).take(
                                        i as int,
                                    )[k]);
                                }
                            }
                            assert(got =~= want);
                            assert forall|t: Seq<Seq<Seq<char>>>| #[trigger]
                                tier_items(t) == views(items@) implies t.take(i + 1) == tiers_view(
                                tiers@,
                            ) by {
                                assert(Bencode::List(text_items(t[i as int])) == items[i as int]@);
                                assert(text_items(t[i as int]) == items[i as int]@->List_0);
                                assert(views(tiers@[i as int]@) == t[i as int]);
                                let ghost now = tiers_view(tiers@);
                                assert forall|k: int| 0 <= k < i + 1 implies t.take(i + 1)[k]
                                    == now[k] by {
                                    if k < i {
                                        assert(tiers@[k] == before[k]);
                                        assert(t.take(i as int)[k] == tiers_view(before)[k]);
                                    }
                                }
                                assert(t.take(i + 1) =~= now);
                            }
                        }
                    },
                    None => {
                        proof {
                            assert forall|t: Seq<Seq<Seq<char>>>| #[trigger]
                                tier_items(t) == views(items@) implies false by {
                                assert(Bencode::List(text_items(t[i as int])) == items[i as int]@);
                                assert(text_items(t[i as int]) == items[i as int]@->List_0);
                            }
                        }
                        return None;
                    },
                }
                i += 1;
            }
            proof {
                assert(views(items@).take(items.len() as int) =~= views(items@));
                assert forall|t: Seq<Seq<Seq<char>>>| #[trigger]
                    tier_items(t) == views(items@) implies t == tiers_view(tiers@) by {
                    assert(tier_items(t).len() == t.len());
                    assert(t.take(t.len() as int) =~= t);
                }
            }
            Some(tiers)
        },
        _ => None,
    }
}

impl HostPort {
    /// The node that the list `v` holds: a host and a port.
    pub fn from_value(v: &Value) -> (r: Option<HostPort>)
        ensures
            r matches Some(node) ==> v@ == node@.bencode(),
            forall|n: HostPortView| #[trigger] n.bencode() == v@ ==> (r matches Some(x) && x@ == n),
    {
        match v {
            Value::List(items) => {
                proof {
                    lemma_view_list(*items);
                    assert forall|n: HostPortView| #[trigger] n.bencode() == v@ implies items.len()
                        == 2 && items[0]@ == text(n.host) && items[1]@ == number(n.port as u64) by {
                        let pair = seq![text(n.host), Bencode::Integer(n.port as int)];
                        assert(views(items@) == pair);
                        assert(pair[0] == views(items@)[0]);
                        assert(pair[1] == views(items@)[1]);
                    }
                }
                if items.len() != 2 {
                    return None;
                }
                let host = match text_from(&items[0]) {
                    Some(host) => host,
                    None => {
                        return None;
                    },
                };
                let port = match number_from(&items[1]) {
                    Some(port) => port,
                    None => {
                        return None;
                    },
                };
                if port > 65535 {
                    return None;
                }
                let node = HostPort { host, port: port as u16 };
                assert(views(items@) =~= seq![text(node@.host), Bencode::Integer(node.port as int)]);
                Some(node)
            },
            _ => None,
        }
    }
}

/// The nodes that the list `v` holds.
pub fn nodes_from(v: &Value) -> (r: Option<Vec<HostPort>>)
    ensures
        r matches Some(nodes) ==> v@ == Bencode::List(node_items(views(nodes@))),
        forall|n: Seq<HostPortView>| #[trigger]
            node_items(n) == v@->List_0 && v@ is List ==> (r matches Some(x) && views(x@) == n),
{
    match v {
        Value::List(items) => {
            proof {
                lemma_view_list(*items);
            }
            let mut nodes: Vec<HostPort> = Vec::new();
            let mut i: usize = 0;
            while i < items.len()
                invariant
                    i <= items.len(),
                    v@ == Bencode::List(views(items@)),
                    nodes.len() == i,
                    node_items(views(nodes@)) == views(items@).take(i as int),
                    forall|n: Seq<HostPortView>| #[trigger]
                        node_items(n) == views(items@) ==> n.take(i as int) == views(nodes@),
                decreases items.len() - i,
            {
                let ghost before = views(nodes@);
                proof {
                    assert forall|n: Seq<HostPortView>| #[trigger]
                        node_items(n) == views(items@) implies n.len() == items@.len()
                        && n[i as int].bencode() == items[i as int]@ by {
                        assert(node_items(n).len() == n.len());
                        assert(node_items(n)[i as int] == views(items@)[i as int]);
                    }
                }
                match HostPort::from_value(&items[i]) {
                    Some(node) => {
                        proof {
                            lemma_views_push(nodes@, node);
                            assert(views(items@)[i as int] == node@.bencode());
                        }
                        nodes.push(node);
                    },
                    None => {
                        proof {
                            assert forall|n: Seq<HostPortView>| #[trigger]
                                node_items(n) == views(items@) implies false by {
                                assert(n[i as int].bencode() == items[i as int]@);
                            }
                        }
                        return None;
                    },
                }
                proof {
                    let ghost got = node_items(views(nodes@));
                    let ghost want = views(items@).take(i + 1);
                    assert forall|k: int| 0 <= k < i + 1 implies got[k] == want[k] by {
                        if k < i {
                            assert(node_items(before)[k] == views(items@).take(i as int)[k]);
                        }
                    }
                    assert(got =~= want);
                    assert forall|n: Seq<HostPortView>| #[trigger]
                        node_items(n) == views(items@) implies n.take(i + 1) == views(nodes@) by {
                        assert(n[i as int].bencode() == items[i as int]@);
                        assert(n.take(i + 1) =~= n.take(i as int).push(n[i as int]));
                    }
                }
                i += 1;
            }
            proof {
                assert(views(items@).take(items.len() as int) =~= views(items@));
                assert forall|n: Seq<HostPortView>| #[trigger]
                    node_items(n) == views(items@) implies n == views(nodes@) by {
                    assert(node_items(n).len() == n.len());
                    assert(n.take(n.len() as int) =~= n);
                }
            }
            Some(nodes)
        },
        _ => None,
    }
}

/// The key of every entry of `entries` comes after `bound`.
pub open spec fn all_keys_after(entries: Seq<(Seq<u8>, Bencode)>, bound: Seq<u8>) -> bool {
    forall|i: int| 0 <= i < entries.len() ==> bytes_lt(bound, (#[trigger] entries[i]).0)
}

/// `entries` is the entry with the key `key`, where there is a value for
/// it, and then `rest`, whose keys all come after `key`.
pub open spec fn field_then(
    entries: Seq<(Seq<u8>, Bencode)>,
    key: Seq<char>,
    value: Option<Bencode>,
    rest: Seq<(Seq<u8>, Bencode)>,
) -> bool {
    entries == optional(key, value) + rest && all_keys_after(rest, ascii(key))
}

/// The view of a value that may be there.
pub open spec fn view_of(value: Option<&Value>) -> Option<Bencode> {
    match value {
        Some(v) => Some(v@),
        None => None,
    }
}

/// Entries whose keys come after `key`, behind an entry with the key
/// `key`, have keys that come after any key before `key`.
pub proof fn lemma_keys_after(
    rest: Seq<(Seq<u8>, Bencode)>,
    key: Seq<char>,
    value: Option<Bencode>,
    prev: Seq<u8>,
)
    requires
        all_keys_after(rest, ascii(key)),
        bytes_lt(prev, ascii(key)),
    ensures
        all_keys_after(optional(key, value) + rest, prev),
{
    let all = optional(key, value) + rest;
    assert forall|i: int| 0 <= i < all.len() implies bytes_lt(prev, (#[trigger] all[i]).0) by {
        let first = optional(key, value);
        if i < first.len() {
            assert(all[i] == first[i]);
        } else {
            assert(all[i] == rest[i - first.len()]);
            lemma_bytes_lt_transitive(prev, ascii(key), rest[i - first.len()].0);
        }
    }
}

/// The value of the entry at `at`, if its key is `name`, and where to read
/// on.
pub fn entry_at<'a>(entries: &'a Vec<(Vec<u8>, Value)>, at: usize, name: &str) -> (r: (
    Option<&'a Value>,
    usize,
))
    requires
        name.is_ascii(),
        at <= entries@.len(),
    ensures
        at <= r.1 <= entries@.len(),
        entries_view(entries@).take(r.1 as int) == entries_view(entries@).take(at as int)
            + optional(name@, view_of(r.0)),
        forall|value: Option<Bencode>, rest: Seq<(Seq<u8>, Bencode)>| #[trigger]
            field_then(entries_view(entries@).skip(at as int), name@, value, rest) ==> view_of(r.0)
                == value && entries_view(entries@).skip(r.1 as int) == rest,
{
    let ghost all = entries_view(entries@);
    if at < entries.len() && is_literal(entries[at].0.as_slice(), name) {
        proof {
            assert(all.take(at + 1) =~= all.take(at as int) + optional(
                name@,
                Some(entries[at as int].1@),
            ));
            assert forall|value: Option<Bencode>, rest: Seq<(Seq<u8>, Bencode)>| #[trigger]
                field_then(all.skip(at as int), name@, value, rest) implies Some(
                entries[at as int].1@,
            ) == value && all.skip(at + 1) == rest by {
                let sk = all.skip(at as int);
                assert(sk[0] == all[at as int]);
                if value is None {
                    assert(sk[0] == rest[0]);
                    lemma_bytes_lt_irreflexive(ascii(name@));
                } else {
                    let head = optional(name@, value);
                    assert(head.len() == 1);
                    assert(sk == head + rest);
                    assert(sk[0] == head[0]);
                    assert(sk.len() == all.len() - at);
                    assert((head + rest).len() == 1 + rest.len());
                    assert(all.skip(at + 1).len() == rest.len());
                    assert(all.skip(at + 1) =~= rest) by {
                        assert forall|i: int| 0 <= i < rest.len() implies all.skip(at + 1)[i]
                            == rest[i] by {
                            assert(all.skip(at + 1)[i] == sk[i + 1]);
                            assert((head + rest)[i + 1] == rest[i]);
                        }
                    }
                }
            }
        }
        (Some(&entries[at].1), at + 1)
    } else {
        proof {
            assert(all.take(at as int) + optional(name@, None) =~= all.take(at as int));
            assert forall|value: Option<Bencode>, rest: Seq<(Seq<u8>, Bencode)>| #[trigger]
                field_then(all.skip(at as int), name@, value, rest) implies value is None
                && all.skip(at as int) == rest by {
                let sk = all.skip(at as int);
                if value is Some {
                    let head = optional(name@, value);
                    assert(head.len() == 1);
                    assert(sk == head + rest);
                    assert(sk.len() == 1 + rest.len());
                    assert(at < all.len());
                    assert(sk[0] == head[0]);
                    assert(sk[0] == all[at as int]);
                    assert(all[at as int].0 == entries[at as int].0@);
                } else {
                    assert(optional(name@, value) + rest =~= rest);
                }
            }
        }
        (None, at)
    }
}

impl FileInfoView {
    /// A digest has sixteen bytes.
    pub open spec fn readable(self) -> bool {
        self.md5sum matches Some(d) ==> d.len() == 16
    }
}

/// Every file of `files` is readable.
pub open spec fn files_readable(files: Seq<FileInfoView>) -> bool {
    forall|i: int| 0 <= i < files.len() ==> (#[trigger] files[i]).readable()
}

impl ModeView {
    /// Every digest has sixteen bytes.
    pub open spec fn readable(self) -> bool {
        match self {
            ModeView::Single { length, md5sum } => md5sum matches Some(d) ==> d.len() == 16,
            ModeView::Multiple { files } => files_readable(files),
        }
    }
}

impl InfoView {
    /// Every digest has sixteen bytes, the pieces are whole SHA-1 digests,
    /// and the private flag is set or absent.
    pub open spec fn readable(self) -> bool {
        &&& self.mode.readable()
        &&& self.pieces.len() % 20 == 0
        &&& self.private != Some(false)
    }
}

impl MetainfoView {
    /// The document is one that reading gives back: every digest in it has
    /// sixteen bytes, the pieces are whole SHA-1 digests, and the private
    /// flag is set or absent.
    pub open spec fn readable(self) -> bool {
        self.info.readable()
    }
}

/// The digest that the value `e` holds in hexadecimal, where there is a
/// value.
fn optional_digest(e: Option<&Value>) -> (r: Option<Option<[u8; 16]>>)
    ensures
        r matches Some(d) ==> view_of(e) == digest_value(digest_view(d)),
        forall|d: Option<Seq<u8>>|
            #[trigger] digest_value(d) == view_of(e) && (d matches Some(x) ==> x.len() == 16) ==> (
            r matches Some(x) && digest_view(x) == d),
{
    match e {
        Some(v) => {
            proof {
                assert forall|d: Option<Seq<u8>>|
                    #[trigger] digest_value(d) == view_of(e) && (d matches Some(x) ==> x.len()
                        == 16) implies d is Some && hex(d->Some_0) == v@->Bytes_0 && v@ is Bytes by {}
            }
            match digest_from(v) {
                Some(d) => Some(Some(d)),
                None => None,
            }
        },
        None => Some(None),
    }
}

/// The string that the value `e` holds, where there is a value.
fn optional_string(e: Option<&Value>) -> (r: Option<Option<String>>)
    ensures
        r matches Some(s) ==> view_of(e) == text_value(optional_text(s)),
        forall|s: Option<Seq<char>>| #[trigger]
            text_value(s) == view_of(e) ==> (r matches Some(x) && optional_text(x) == s),
{
    match e {
        Some(v) => {
            proof {
                assert forall|s: Option<Seq<char>>| #[trigger]
                    text_value(s) == view_of(e) implies s is Some && text(s->Some_0) == v@ by {}
            }
            match text_from(v) {
                Some(s) => Some(Some(s)),
                None => None,
            }
        },
        None => Some(None),
    }
}

/// The string that the value `e` holds.
fn required_string(e: Option<&Value>) -> (r: Option<String>)
    ensures
        r matches Some(s) ==> view_of(e) == Some(text(s@)),
        forall|s: Seq<char>| Some(#[trigger] text(s)) == view_of(e) ==> (r matches Some(x) && x@
            == s),
{
    match e {
        Some(v) => text_from(v),
        None => None,
    }
}

/// The number that the value `e` holds.
fn required_number(e: Option<&Value>) -> (r: Option<u64>)
    ensures
        r matches Some(n) ==> view_of(e) == Some(number(n)),
        forall|n: u64| Some(#[trigger] number(n)) == view_of(e) ==> r == Some(n),
{
    match e {
        Some(v) => number_from(v),
        None => None,
    }
}

/// The keys of a file dictionary all come after those before them.
proof fn lemma_file_tails(f: FileInfoView)
    ensures
        all_keys_after(Seq::empty(), ascii("path"@)),
        all_keys_after(field("path"@, Bencode::List(path_items(f.path))), ascii("md5sum"@)),
        all_keys_after(
            optional("md5sum"@, digest_value(f.md5sum)) + field(
                "path"@,
                Bencode::List(path_items(f.path)),
            ),
            ascii("length"@),
        ),
{
    crate::wire::lemma_file_keys_ascend();
    let none = Seq::<(Seq<u8>, Bencode)>::empty();
    let path = Some(Bencode::List(path_items(f.path)));
    lemma_keys_after(none, "path"@, path, ascii("md5sum"@));
    assert(optional("path"@, path) + none =~= field("path"@, Bencode::List(path_items(f.path))));
    lemma_keys_after(
        field("path"@, Bencode::List(path_items(f.path))),
        "md5sum"@,
        digest_value(f.md5sum),
        ascii("length"@),
    );
}

impl FileInfo {
    /// The file that the dictionary `v` stands for: the one whose
    /// dictionary `v` is, if there is one.
    pub fn from_value(v: &Value) -> (r: Option<FileInfo>)
        ensures
            r matches Some(file) ==> v@ == file@.bencode(),
            forall|f: FileInfoView| #[trigger]
                f.bencode() == v@ && f.readable() ==> (r matches Some(x) && x@ == f),
    {
        let entries = match v {
            Value::Dict(entries) => entries,
            _ => {
                return None;
            },
        };
        proof {
            lemma_view_dict(*entries);
            reveal_strlit("length");
            reveal_strlit("md5sum");
            reveal_strlit("path");
        }
        let ghost all = entries_view(entries@);
        let (e1, at1) = entry_at(entries, 0, "length");
        let (e2, at2) = entry_at(entries, at1, "md5sum");
        let (e3, at3) = entry_at(entries, at2, "path");
        let length = required_number(e1);
        let md5sum = optional_digest(e2);
        let path = match e3 {
            Some(v) => path_from(v),
            None => None,
        };
        proof {
            assert(all.take(0) =~= Seq::empty());
            assert(all.skip(0) =~= all);
            assert forall|f: FileInfoView| #[trigger] f.bencode() == v@ && f.readable() implies length
                == Some(f.length) && (md5sum matches Some(d) && digest_view(d) == f.md5sum) && (
            path matches Some(p) && p@ == f.path) && at3 == entries@.len() by {
                lemma_file_tails(f);
                let t3 = field("path"@, Bencode::List(path_items(f.path)));
                let t2 = optional("md5sum"@, digest_value(f.md5sum)) + t3;
                assert(all =~= optional("length"@, Some(number(f.length))) + t2);
                assert(field_then(all.skip(0), "length"@, Some(number(f.length)), t2));
                assert(field_then(all.skip(at1 as int), "md5sum"@, digest_value(f.md5sum), t3));
                assert(t3 =~= optional("path"@, Some(Bencode::List(path_items(f.path))))
                    + Seq::empty());
                assert(field_then(
                    all.skip(at2 as int),
                    "path"@,
                    Some(Bencode::List(path_items(f.path))),
                    Seq::empty(),
                ));
                assert(all.skip(at3 as int).len() == 0);
                assert(path_items(f.path) == e3->Some_0@->List_0);
            }
        }
        if at3 != entries.len() {
            return None;
        }
        assert(all.take(at3 as int) =~= all);
        let length = match length {
            Some(n) => n,
            None => {
                return None;
            },
        };
        let md5sum = match md5sum {
            Some(d) => d,
            None => {
                return None;
            },
        };
        let path = match path {
            Some(p) => p,
            None => {
                return None;
            },
        };
        let file = FileInfo { path, length: Bytes(length), md5sum };
        assert(all =~= file@.bencode()->Dict_0);
        Some(file)
    }
}

/// The files that the list `v` holds.
pub fn files_from(v: &Value) -> (r: Option<Vec<FileInfo>>)
    ensures
        r matches Some(files) ==> v@ == Bencode::List(file_items(views(files@))),
        forall|f: Seq<FileInfoView>| #[trigger]
            file_items(f) == v@->List_0 && v@ is List && files_readable(f) ==> (r matches Some(x)
                && views(x@) == f),
{
    match v {
        Value::List(items) => {
            proof {
                lemma_view_list(*items);
            }
            let mut files: Vec<FileInfo> = Vec::new();
            let mut i: usize = 0;
            while i < items.len()
                invariant
                    i <= items.len(),
                    v@ == Bencode::List(views(items@)),
                    files.len() == i,
                    file_items(views(files@)) == views(items@).take(i as int),
                    forall|f: Seq<FileInfoView>| #[trigger]
                        file_items(f) == views(items@) && files_readable(f) ==> f.take(i as int)
                            == views(files@),
                decreases items.len() - i,
            {
                let ghost before = views(files@);
                proof {
                    assert forall|f: Seq<FileInfoView>| #[trigger]
                        file_items(f) == views(items@) && files_readable(f) implies f.len()
                        == items@.len() && f[i as int].bencode() == items[i as int]@
                        && f[i as int].readable() by {
                        assert(file_items(f).len() == f.len());
                        assert(file_items(f)[i as int] == views(items@)[i as int]);
                    }
                }
                match FileInfo::from_value(&items[i]) {
                    Some(file) => {
                        proof {
                            lemma_views_push(files@, file);
                            assert(views(items@)[i as int] == file@.bencode());
                        }
                        files.push(file);
                    },
                    None => {
                        proof {
                            assert forall|f: Seq<FileInfoView>| #[trigger]
                                file_items(f) == views(items@) && files_readable(f) implies false by {
                                assert(f[i as int].bencode() == items[i as int]@);
                            }
                        }
                        return None;
                    },
                }
                proof {
                    let ghost got = file_items(views(files@));
                    let ghost want = views(items@).take(i + 1);
                    assert forall|k: int| 0 <= k < i + 1 implies got[k] == want[k] by {
                        if k < i {
                            assert(file_items(before)[k] == views(items@).take(i as int)[k]);
                        }
                    }
                    assert(got =~= want);
                    assert forall|f: Seq<FileInfoView>| #[trigger]
                        file_items(f) == views(items@) && files_readable(f) implies f.take(i + 1)
                        == views(files@) by {
                        assert(f[i as int].bencode() == items[i as int]@);
                        assert(f.take(i + 1) =~= f.take(i as int).push(f[i as int]));
                    }
                }
                i += 1;
            }
            proof {
                assert(views(items@).take(items.len() as int) =~= views(items@));
                assert forall|f: Seq<FileInfoView>| #[trigger]
                    file_items(f) == views(items@) && files_readable(f) implies f == views(
                    files@,
                ) by {
                    assert(file_items(f).len() == f.len());
                    assert(f.take(f.len() as int) =~= f);
                }
            }
            Some(files)
        },
        _ => None,
    }
}

/// Entries, then more, then yet more, are the same whichever two are
/// joined first.
pub proof fn lemma_join_either_way(
    a: Seq<(Seq<u8>, Bencode)>,
    b: Seq<(Seq<u8>, Bencode)>,
    c: Seq<(Seq<u8>, Bencode)>,
)
    ensures
        (a + b) + c == a + (b + c),
{
    assert((a + b) + c =~= a + (b + c));
}

/// Eight runs of entries joined from the left are the same joined from
/// the right.
pub proof fn lemma_join_eight(
    s1: Seq<(Seq<u8>, Bencode)>,
    s2: Seq<(Seq<u8>, Bencode)>,
    s3: Seq<(Seq<u8>, Bencode)>,
    s4: Seq<(Seq<u8>, Bencode)>,
    s5: Seq<(Seq<u8>, Bencode)>,
    s6: Seq<(Seq<u8>, Bencode)>,
    s7: Seq<(Seq<u8>, Bencode)>,
    s8: Seq<(Seq<u8>, Bencode)>,
)
    ensures
        s1 + s2 + s3 + s4 + s5 + s6 + s7 + s8 == s1 + (s2 + (s3 + (s4 + (s5 + (s6 + (s7 + (s8
            + Seq::empty()))))))),
{
    let r8 = s8 + Seq::empty();
    assert(r8 =~= s8);
    let r7 = s7 + r8;
    let r6 = s6 + r7;
    let r5 = s5 + r6;
    let r4 = s4 + r5;
    let r3 = s3 + r4;
    let r2 = s2 + r3;
    lemma_join_either_way(s1 + s2 + s3 + s4 + s5 + s6, s7, r8);
    lemma_join_either_way(s1 + s2 + s3 + s4 + s5, s6, r7);
    lemma_join_either_way(s1 + s2 + s3 + s4, s5, r6);
    lemma_join_either_way(s1 + s2 + s3, s4, r5);
    lemma_join_either_way(s1 + s2, s3, r4);
    lemma_join_either_way(s1, s2, r3);
}

impl InfoView {
    /// The key of entry `k` of the info dictionary, of all the entries that
    /// it can have, counted from one.
    pub open spec fn key(k: int) -> Seq<char> {
        if k == 1 {
            "files"@
        } else if k == 2 {
            "length"@
        } else if k == 3 {
            "md5sum"@
        } else if k == 4 {
            "name"@
        } else if k == 5 {
            "piece length"@
        } else if k == 6 {
            "pieces"@
        } else if k == 7 {
            "private"@
        } else {
            "source"@
        }
    }

    /// The value of entry `k` of the info dictionary, where it has that
    /// entry.
    pub open spec fn value(self, k: int) -> Option<Bencode> {
        if k == 1 {
            match self.mode {
                ModeView::Multiple { files } => Some(Bencode::List(file_items(files))),
                _ => None,
            }
        } else if k == 2 {
            match self.mode {
                ModeView::Single { length, md5sum } => Some(number(length)),
                _ => None,
            }
        } else if k == 3 {
            match self.mode {
                ModeView::Single { length, md5sum } => digest_value(md5sum),
                _ => None,
            }
        } else if k == 4 {
            Some(text(self.name))
        } else if k == 5 {
            Some(number(self.piece_length))
        } else if k == 6 {
            Some(Bencode::Bytes(self.pieces))
        } else if k == 7 {
            private_value(self.private)
        } else {
            text_value(self.source)
        }
    }

    /// The entries of the info dictionary from entry `k` on.
    pub open spec fn tail(self, k: int) -> Seq<(Seq<u8>, Bencode)>
        decreases 9 - k,
    {
        if k < 1 || k > 8 {
            Seq::empty()
        } else {
            optional(Self::key(k), self.value(k)) + self.tail(k + 1)
        }
    }

    /// The info dictionary is its entries from the first on, and behind
    /// each entry only later keys follow.
    pub proof fn lemma_layout(self)
        ensures
            self.bencode() == Bencode::Dict(self.tail(1)),
            forall|k: int| 1 <= k <= 8 ==> all_keys_after(#[trigger] self.tail(k + 1), ascii(Self::key(k))),
    {
        crate::wire::lemma_info_keys_ascend();
        assert(self.tail(9) =~= Seq::empty());
        assert(self.tail(8) == optional(Self::key(8), self.value(8)) + self.tail(9));
        assert(self.tail(7) == optional(Self::key(7), self.value(7)) + self.tail(8));
        assert(self.tail(6) == optional(Self::key(6), self.value(6)) + self.tail(7));
        assert(self.tail(5) == optional(Self::key(5), self.value(5)) + self.tail(6));
        assert(self.tail(4) == optional(Self::key(4), self.value(4)) + self.tail(5));
        assert(self.tail(3) == optional(Self::key(3), self.value(3)) + self.tail(4));
        assert(self.tail(2) == optional(Self::key(2), self.value(2)) + self.tail(3));
        assert(self.tail(1) == optional(Self::key(1), self.value(1)) + self.tail(2));
        lemma_join_eight(
            optional(Self::key(1), self.value(1)),
            optional(Self::key(2), self.value(2)),
            optional(Self::key(3), self.value(3)),
            optional(Self::key(4), self.value(4)),
            optional(Self::key(5), self.value(5)),
            optional(Self::key(6), self.value(6)),
            optional(Self::key(7), self.value(7)),
            optional(Self::key(8), self.value(8)),
        );
        assert(self.mode.fields() =~= optional(Self::key(1), self.value(1)) + optional(
            Self::key(2),
            self.value(2),
        ) + optional(Self::key(3), self.value(3)));
        lemma_keys_after(self.tail(9), Self::key(8), self.value(8), ascii(Self::key(7)));
        lemma_keys_after(self.tail(8), Self::key(7), self.value(7), ascii(Self::key(6)));
        lemma_keys_after(self.tail(7), Self::key(6), self.value(6), ascii(Self::key(5)));
        lemma_keys_after(self.tail(6), Self::key(5), self.value(5), ascii(Self::key(4)));
        lemma_keys_after(self.tail(5), Self::key(4), self.value(4), ascii(Self::key(3)));
        lemma_keys_after(self.tail(4), Self::key(3), self.value(3), ascii(Self::key(2)));
        lemma_keys_after(self.tail(3), Self::key(2), self.value(2), ascii(Self::key(1)));
    }
}

impl MetainfoView {
    /// The key of entry `k` of the metainfo dictionary, of all the entries
    /// that it can have, counted from one.
    pub open spec fn key(k: int) -> Seq<char> {
        if k == 1 {
            "announce"@
        } else if k == 2 {
            "announce-list"@
        } else if k == 3 {
            "comment"@
        } else if k == 4 {
            "created by"@
        } else if k == 5 {
            "creation date"@
        } else if k == 6 {
            "encoding"@
        } else if k == 7 {
            "info"@
        } else {
            "nodes"@
        }
    }

    /// The value of entry `k` of the metainfo dictionary, where it has that
    /// entry.
    pub open spec fn value(self, k: int) -> Option<Bencode> {
        if k == 1 {
            text_value(self.announce)
        } else if k == 2 {
            tiers_value(self.announce_list)
        } else if k == 3 {
            text_value(self.comment)
        } else if k == 4 {
            text_value(self.created_by)
        } else if k == 5 {
            number_value(self.creation_date)
        } else if k == 6 {
            text_value(self.encoding)
        } else if k == 7 {
            Some(self.info.bencode())
        } else {
            nodes_value(self.nodes)
        }
    }

    /// The entries of the metainfo dictionary from entry `k` on.
    pub open spec fn tail(self, k: int) -> Seq<(Seq<u8>, Bencode)>
        decreases 9 - k,
    {
        if k < 1 || k > 8 {
            Seq::empty()
        } else {
            optional(Self::key(k), self.value(k)) + self.tail(k + 1)
        }
    }

    /// The metainfo dictionary is its entries from the first on, and
    /// behind each entry only later keys follow.
    pub proof fn lemma_layout(self)
        ensures
            self.bencode() == Bencode::Dict(self.tail(1)),
            forall|k: int| 1 <= k <= 8 ==> all_keys_after(#[trigger] self.tail(k + 1), ascii(Self::key(k))),
    {
        crate::wire::lemma_metainfo_keys_ascend();
        assert(self.tail(9) =~= Seq::empty());
        assert(self.tail(8) == optional(Self::key(8), self.value(8)) + self.tail(9));
        assert(self.tail(7) == optional(Self::key(7), self.value(7)) + self.tail(8));
        assert(self.tail(6) == optional(Self::key(6), self.value(6)) + self.tail(7));
        assert(self.tail(5) == optional(Self::key(5), self.value(5)) + self.tail(6));
        assert(self.tail(4) == optional(Self::key(4), self.value(4)) + self.tail(5));
        assert(self.tail(3) == optional(Self::key(3), self.value(3)) + self.tail(4));
        assert(self.tail(2) == optional(Self::key(2), self.value(2)) + self.tail(3));
        assert(self.tail(1) == optional(Self::key(1), self.value(1)) + self.tail(2));
        lemma_join_eight(
            optional(Self::key(1), self.value(1)),
            optional(Self::key(2), self.value(2)),
            optional(Self::key(3), self.value(3)),
            optional(Self::key(4), self.value(4)),
            optional(Self::key(5), self.value(5)),
            optional(Self::key(6), self.value(6)),
            optional(Self::key(7), self.value(7)),
            optional(Self::key(8), self.value(8)),
        );
        lemma_keys_after(self.tail(9), Self::key(8), self.value(8), ascii(Self::key(7)));
        lemma_keys_after(self.tail(8), Self::key(7), self.value(7), ascii(Self::key(6)));
        lemma_keys_after(self.tail(7), Self::key(6), self.value(6), ascii(Self::key(5)));
        lemma_keys_after(self.tail(6), Self::key(5), self.value(5), ascii(Self::key(4)));
        lemma_keys_after(self.tail(5), Self::key(4), self.value(4), ascii(Self::key(3)));
        lemma_keys_after(self.tail(4), Self::key(3), self.value(3), ascii(Self::key(2)));
        lemma_keys_after(self.tail(3), Self::key(2), self.value(2), ascii(Self::key(1)));
    }
}

/// The mode that the entries `files`, `length` and `md5sum` of an info
/// dictionary stand for.
fn mode_from(files: Option<&Value>, length: Option<&Value>, md5sum: Option<&Value>) -> (r: Option<
    Mode,
>)
    ensures
        r matches Some(mode) ==> mode@.fields() == optional("files"@, view_of(files)) + optional(
            "length"@,
            view_of(length),
        ) + optional("md5sum"@, view_of(md5sum)),
        forall|i: InfoView|
            #![trigger i.value(1)]
            i.value(1) == view_of(files) && i.value(2) == view_of(length) && i.value(3) == view_of(
                md5sum,
            ) && i.mode.readable() ==> (r matches Some(x) && x@ == i.mode),
{
    match files {
        Some(v) => {
            if length.is_some() || md5sum.is_some() {
                return None;
            }
            match files_from(v) {
                Some(files) => {
                    let mode = Mode::Multiple { files };
                    assert(mode@.fields() =~= optional("files"@, Some(v@)) + optional(
                        "length"@,
                        None,
                    ) + optional("md5sum"@, None));
                    Some(mode)
                },
                None => None,
            }
        },
        None => {
            let length = match required_number(length) {
                Some(n) => n,
                None => {
                    return None;
                },
            };
            let md5sum = match optional_digest(md5sum) {
                Some(d) => d,
                None => {
                    return None;
                },
            };
            let mode = Mode::Single { length: Bytes(length), md5sum };
            assert(mode@.fields() =~= optional("files"@, None) + optional(
                "length"@,
                Some(number(length)),
            ) + optional("md5sum"@, digest_value(digest_view(md5sum))));
            Some(mode)
        },
    }
}

/// The byte string `b`.
pub open spec fn byte_string(b: Seq<u8>) -> Bencode {
    Bencode::Bytes(b)
}

/// The pieces that the value `e` holds.
fn required_pieces(e: Option<&Value>) -> (r: Option<PieceList>)
    ensures
        r matches Some(p) ==> view_of(e) == Some(Bencode::Bytes(p@)) && p.wf(),
        forall|b: Seq<u8>|
            Some(#[trigger] byte_string(b)) == view_of(e) && b.len() % 20 == 0 ==> (
            r matches Some(x) && x@ == b),
{
    match e {
        Some(v) => match v {
            Value::Bytes(b) => PieceList::from_bytes(copy_bytes(b.as_slice())),
            _ => None,
        },
        None => None,
    }
}

/// The private flag that the value `e` holds, where there is a value.
fn optional_flag(e: Option<&Value>) -> (r: Option<Option<bool>>)
    ensures
        r matches Some(flag) ==> view_of(e) == private_value(flag) && flag != Some(false),
        forall|flag: Option<bool>|
            #[trigger] private_value(flag) == view_of(e) && flag != Some(false) ==> r == Some(flag),
{
    proof {
        assert forall|flag: Option<bool>|
            #[trigger] private_value(flag) == view_of(e) && flag != Some(false) implies (
        flag is None <==> e is None) && (flag == Some(true) ==> e->Some_0@ == Bencode::Integer(
            1,
        )) by {
            if flag is None {
                assert(private_value(flag) is None);
                assert(view_of(e) is None);
                assert(e is None);
            } else {
                assert(flag == Some(true));
                assert(private_value(flag) == Some(Bencode::Integer(1)));
                assert(view_of(e) is Some);
                assert(e is Some);
                assert(view_of(e) == Some(e->Some_0@));
            }
        }
    }
    match e {
        Some(v) => match v {
            Value::Integer(n) => {
                if *n == 1 {
                    Some(Some(true))
                } else {
                    None
                }
            },
            _ => None,
        },
        None => Some(None),
    }
}

impl Info {
    /// The info that the dictionary `v` stands for: the one whose
    /// dictionary `v` is, if there is one.
    pub fn from_value(v: &Value) -> (r: Option<Info>)
        ensures
            r matches Some(info) ==> v@ == info@.bencode() && info@.readable(),
            forall|i: InfoView| #[trigger]
                i.bencode() == v@ && i.readable() ==> (r matches Some(x) && x@ == i),
    {
        let entries = match v {
            Value::Dict(entries) => entries,
            _ => {
                return None;
            },
        };
        proof {
            lemma_view_dict(*entries);
            reveal_strlit("files");
            reveal_strlit("length");
            reveal_strlit("md5sum");
            reveal_strlit("name");
            reveal_strlit("piece length");
            reveal_strlit("pieces");
            reveal_strlit("private");
            reveal_strlit("source");
        }
        let ghost all = entries_view(entries@);
        let (e1, at1) = entry_at(entries, 0, "files");
        let (e2, at2) = entry_at(entries, at1, "length");
        let (e3, at3) = entry_at(entries, at2, "md5sum");
        let (e4, at4) = entry_at(entries, at3, "name");
        let (e5, at5) = entry_at(entries, at4, "piece length");
        let (e6, at6) = entry_at(entries, at5, "pieces");
        let (e7, at7) = entry_at(entries, at6, "private");
        let (e8, at8) = entry_at(entries, at7, "source");
        let mode = mode_from(e1, e2, e3);
        let name = required_string(e4);
        let piece_length = required_number(e5);
        let pieces = required_pieces(e6);
        let private = optional_flag(e7);
        let source = optional_string(e8);
        proof {
            assert(all.take(0) =~= Seq::empty());
            assert(all.skip(0) =~= all);
            assert forall|i: InfoView| #[trigger] i.bencode() == v@ && i.readable() implies (
            mode matches Some(x) && x@ == i.mode) && (name matches Some(x) && x@ == i.name)
                && piece_length == Some(i.piece_length) && (pieces matches Some(x) && x@
                == i.pieces) && private == Some(i.private) && (source matches Some(x)
                && optional_text(x) == i.source) && at8 == entries@.len() by {
                i.lemma_layout();
                assert(field_then(all.skip(0), InfoView::key(1), i.value(1), i.tail(2)));
                assert(field_then(all.skip(at1 as int), InfoView::key(2), i.value(2), i.tail(3)));
                assert(field_then(all.skip(at2 as int), InfoView::key(3), i.value(3), i.tail(4)));
                assert(field_then(all.skip(at3 as int), InfoView::key(4), i.value(4), i.tail(5)));
                assert(field_then(all.skip(at4 as int), InfoView::key(5), i.value(5), i.tail(6)));
                assert(field_then(all.skip(at5 as int), InfoView::key(6), i.value(6), i.tail(7)));
                assert(field_then(all.skip(at6 as int), InfoView::key(7), i.value(7), i.tail(8)));
                assert(field_then(all.skip(at7 as int), InfoView::key(8), i.value(8), i.tail(9)));
                assert(all.skip(at8 as int).len() == 0);
                assert(Some(byte_string(i.pieces)) == view_of(e6));
                assert(Some(text(i.name)) == view_of(e4));
                assert(Some(number(i.piece_length)) == view_of(e5));
            }
        }
        if at8 != entries.len() {
            return None;
        }
        assert(all.take(at8 as int) =~= all);
        let mode = match mode {
            Some(x) => x,
            None => {
                return None;
            },
        };
        let name = match name {
            Some(x) => x,
            None => {
                return None;
            },
        };
        let piece_length = match piece_length {
            Some(x) => x,
            None => {
                return None;
            },
        };
        let pieces = match pieces {
            Some(x) => x,
            None => {
                return None;
            },
        };
        let private = match private {
            Some(x) => x,
            None => {
                return None;
            },
        };
        let source = match source {
            Some(x) => x,
            None => {
                return None;
            },
        };
        let info = Info { name, piece_length: Bytes(piece_length), pieces, mode, private, source };
        assert(all =~= info@.bencode()->Dict_0);
        Some(info)
    }
}

impl Metainfo {
    /// The document that the dictionary `v` stands for: the one whose
    /// dictionary `v` is, if there is one.
    pub fn from_value(v: &Value) -> (r: Option<Metainfo>)
        ensures
            r matches Some(metainfo) ==> v@ == metainfo@.bencode() && metainfo@.readable(),
            forall|m: MetainfoView| #[trigger]
                m.bencode() == v@ && m.readable() ==> (r matches Some(x) && x@ == m),
    {
        let entries = match v {
            Value::Dict(entries) => entries,
            _ => {
                return None;
            },
        };
        proof {
            lemma_view_dict(*entries);
            reveal_strlit("announce");
            reveal_strlit("announce-list");
            reveal_strlit("comment");
            reveal_strlit("created by");
            reveal_strlit("creation date");
            reveal_strlit("encoding");
            reveal_strlit("info");
            reveal_strlit("nodes");
        }
        let ghost all = entries_view(entries@);
        let (e1, at1) = entry_at(entries, 0, "announce");
        let (e2, at2) = entry_at(entries, at1, "announce-list");
        let (e3, at3) = entry_at(entries, at2, "comment");
        let (e4, at4) = entry_at(entries, at3, "created by");
        let (e5, at5) = entry_at(entries, at4, "creation date");
        let (e6, at6) = entry_at(entries, at5, "encoding");
        let (e7, at7) = entry_at(entries, at6, "info");
        let (e8, at8) = entry_at(entries, at7, "nodes");
        let announce = optional_string(e1);
        let announce_list = match e2 {
            Some(v) => match tiers_from(v) {
                Some(tiers) => Some(Some(tiers)),
                None => None,
            },
            None => Some(None),
        };
        let comment = optional_string(e3);
        let created_by = optional_string(e4);
        let creation_date = match e5 {
            Some(v) => match number_from(v) {
                Some(n) => Some(Some(n)),
                None => None,
            },
            None => Some(None),
        };
        let encoding = optional_string(e6);
        let info = match e7 {
            Some(v) => Info::from_value(v),
            None => None,
        };
        let nodes = match e8 {
            Some(v) => match nodes_from(v) {
                Some(nodes) => Some(Some(nodes)),
                None => None,
            },
            None => Some(None),
        };
        proof {
            assert(all.take(0) =~= Seq::empty());
            assert(all.skip(0) =~= all);
            assert forall|m: MetainfoView| #[trigger] m.bencode() == v@ && m.readable() implies (
            announce matches Some(x) && optional_text(x) == m.announce) && (
            announce_list matches Some(x) && (match x {
                Some(t) => Some(tiers_view(t@)),
                None => None,
            }) == m.announce_list) && (comment matches Some(x) && optional_text(x) == m.comment)
                && (created_by matches Some(x) && optional_text(x) == m.created_by)
                && creation_date == Some(m.creation_date) && (encoding matches Some(x)
                && optional_text(x) == m.encoding) && (info matches Some(x) && x@ == m.info) && (
            nodes matches Some(x) && (match x {
                Some(n) => Some(views(n@)),
                None => None,
            }) == m.nodes) && at8 == entries@.len() by {
                m.lemma_layout();
                assert(field_then(all.skip(0), MetainfoView::key(1), m.value(1), m.tail(2)));
                assert(field_then(all.skip(at1 as int), MetainfoView::key(2), m.value(2), m.tail(3)));
                assert(field_then(all.skip(at2 as int), MetainfoView::key(3), m.value(3), m.tail(4)));
                assert(field_then(all.skip(at3 as int), MetainfoView::key(4), m.value(4), m.tail(5)));
                assert(field_then(all.skip(at4 as int), MetainfoView::key(5), m.value(5), m.tail(6)));
                assert(field_then(all.skip(at5 as int), MetainfoView::key(6), m.value(6), m.tail(7)));
                assert(field_then(all.skip(at6 as int), MetainfoView::key(7), m.value(7), m.tail(8)));
                assert(field_then(all.skip(at7 as int), MetainfoView::key(8), m.value(8), m.tail(9)));
                assert(all.skip(at8 as int).len() == 0);
                if m.announce_list is Some {
                    assert(tier_items(m.announce_list->Some_0) == e2->Some_0@->List_0);
                }
                if m.creation_date is Some {
                    assert(number(m.creation_date->Some_0) == e5->Some_0@);
                }
                if m.nodes is Some {
                    assert(node_items(m.nodes->Some_0) == e8->Some_0@->List_0);
                }
                assert(m.info.bencode() == e7->Some_0@);
            }
        }
        if at8 != entries.len() {
            return None;
        }
        assert(all.take(at8 as int) =~= all);
        let announce = match announce {
            Some(x) => x,
            None => {
                return None;
            },
        };
        let announce_list = match announce_list {
            Some(x) => x,
            None => {
                return None;
            },
        };
        let comment = match comment {
            Some(x) => x,
            None => {
                return None;
            },
        };
        let created_by = match created_by {
            Some(x) => x,
            None => {
                return None;
            },
        };
        let creation_date = match creation_date {
            Some(x) => x,
            None => {
                return None;
            },
        };
        let encoding = match encoding {
            Some(x) => x,
            None => {
                return None;
            },
        };
        let info = match info {
            Some(x) => x,
            None => {
                return None;
            },
        };
        let nodes = match nodes {
            Some(x) => x,
            None => {
                return None;
            },
        };
        let metainfo = Metainfo {
            announce,
            announce_list,
            nodes,
            comment,
            created_by,
            creation_date,
            encoding,
            info,
        };
        assert(all =~= metainfo@.bencode()->Dict_0);
        Some(metainfo)
    }

    /// The document that `bytes` is the serialisation of. To serialise a
    /// document that can be read back, and to read the bytes, gives the
    /// document.
    pub fn deserialize(bytes: &[u8]) -> (r: Option<Metainfo>)
        ensures
            r matches Some(metainfo) ==> metainfo@.serialization() == bytes@
                && metainfo@.bencode().canonical() && metainfo@.readable(),
            forall|m: MetainfoView| #[trigger]
                m.serialization() == bytes@ && m.readable() && m.encodable() ==> (r matches Some(x)
                    && x@ == m),
    {
        proof {
            assert forall|m: MetainfoView| #[trigger]
                m.serialization() == bytes@ && m.readable() && m.encodable() implies m.bencode().canonical()
                && m.bencode().encoding() == bytes@ by {
                m.lemma_bencode_canonical();
            }
        }
        match Value::decode(bytes) {
            Some(v) => Metainfo::from_value(&v),
            None => None,
        }
    }
}

} // verus!

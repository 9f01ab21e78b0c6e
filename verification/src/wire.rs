//! How a metainfo document is laid out as a bencode value.

use crate::bencode::bytes_encoding;
use crate::bencode::entries_encoding;
use crate::bencode::entries_view;
use crate::bencode::keys_ascending;
use crate::bencode::lemma_entries_encoding_concat;
use crate::bencode::lemma_view_dict;
use crate::bencode::lemma_view_list;
use crate::bencode::Bencode;
use crate::bencode::Value;
use crate::digest::sha1_digest;
use crate::digest::sha1_finish;
use crate::digest::sha1_new;
use crate::digest::sha1_update;
use crate::digest::SHA1_INPUT_LIMIT;
use crate::error::Error;
use crate::file_path::copy_bytes;
use crate::file_path::lemma_views_push;
use crate::file_path::views;
use crate::file_path::FilePath;
use crate::lex::bytes_le;
use crate::lex::bytes_lt;
use crate::lex::bytes_lt_at;
use crate::lex::lemma_bytes_le_lt;
use crate::metainfo::digest_view;
use crate::text::ascii;
use crate::metainfo::optional_text;
use crate::metainfo::tiers_view;
use crate::metainfo::FileInfo;
use crate::metainfo::FileInfoView;
use crate::metainfo::HostPort;
use crate::metainfo::HostPortView;
use crate::metainfo::Info;
use crate::metainfo::InfoView;
use crate::metainfo::Metainfo;
use crate::metainfo::MetainfoView;
use crate::metainfo::Mode;
use crate::metainfo::ModeView;
use vstd::prelude::*;
use vstd::slice::slice_to_vec;
use vstd::string::StringSliceAdditionalSpecFns;
use vstd::utf8::encode_utf8;

verus! {

/// The byte string that holds `s` in UTF-8.
pub open spec fn text(s: Seq<char>) -> Bencode {
    Bencode::Bytes(encode_utf8(s))
}

/// The integer `n`.
pub open spec fn number(n: u64) -> Bencode {
    Bencode::Integer(n as int)
}

/// The one entry with the key `key` and the value `value`.
pub open spec fn field(key: Seq<char>, value: Bencode) -> Seq<(Seq<u8>, Bencode)> {
    seq![(ascii(key), value)]
}

/// The entry with the key `key`, where there is a value for it.
pub open spec fn optional(key: Seq<char>, value: Option<Bencode>) -> Seq<(Seq<u8>, Bencode)> {
    match value {
        Some(v) => field(key, v),
        None => Seq::empty(),
    }
}

/// The lower-case hexadecimal digit for `n`, where `0 <= n < 16`.
pub open spec fn hex_digit(n: int) -> u8 {
    if n < 10 {
        (48 + n) as u8
    } else {
        (87 + n) as u8
    }
}

/// `bytes` in lower-case hexadecimal, two digits for each byte.
pub open spec fn hex(bytes: Seq<u8>) -> Seq<u8> {
    Seq::new(
        2 * bytes.len(),
        |i: int|
            if i % 2 == 0 {
                hex_digit(bytes[i / 2] as int / 16)
            } else {
                hex_digit(bytes[i / 2] as int % 16)
            },
    )
}

/// The value that stands for an MD5 digest, where there is one.
pub open spec fn digest_value(md5sum: Option<Seq<u8>>) -> Option<Bencode> {
    match md5sum {
        Some(d) => Some(Bencode::Bytes(hex(d))),
        None => None,
    }
}

/// The value that stands for a string, where there is one.
pub open spec fn text_value(s: Option<Seq<char>>) -> Option<Bencode> {
    match s {
        Some(s) => Some(text(s)),
        None => None,
    }
}

/// The value that stands for a number, where there is one.
pub open spec fn number_value(n: Option<u64>) -> Option<Bencode> {
    match n {
        Some(n) => Some(number(n)),
        None => None,
    }
}

/// The value that stands for the private flag: 1 where it is set.
pub open spec fn private_value(private: Option<bool>) -> Option<Bencode> {
    if private == Some(true) {
        Some(Bencode::Integer(1))
    } else {
        None
    }
}

/// The components of a path as byte strings.
pub open spec fn path_items(path: Seq<Seq<u8>>) -> Seq<Bencode> {
    Seq::new(path.len(), |i: int| Bencode::Bytes(path[i]))
}

/// The strings of `strings` as byte strings.
pub open spec fn text_items(strings: Seq<Seq<char>>) -> Seq<Bencode> {
    Seq::new(strings.len(), |i: int| text(strings[i]))
}

/// The announce tiers as lists of byte strings.
pub open spec fn tier_items(tiers: Seq<Seq<Seq<char>>>) -> Seq<Bencode> {
    Seq::new(tiers.len(), |i: int| Bencode::List(text_items(tiers[i])))
}

/// The files of a torrent as dictionaries.
pub open spec fn file_items(files: Seq<FileInfoView>) -> Seq<Bencode> {
    Seq::new(files.len(), |i: int| files[i].bencode())
}

/// The nodes as two-item lists of host and port.
pub open spec fn node_items(nodes: Seq<HostPortView>) -> Seq<Bencode> {
    Seq::new(nodes.len(), |i: int| nodes[i].bencode())
}

/// The list of announce tiers, where there is one.
pub open spec fn tiers_value(tiers: Option<Seq<Seq<Seq<char>>>>) -> Option<Bencode> {
    match tiers {
        Some(t) => Some(Bencode::List(tier_items(t))),
        None => None,
    }
}

/// The list of nodes, where there is one.
pub open spec fn nodes_value(nodes: Option<Seq<HostPortView>>) -> Option<Bencode> {
    match nodes {
        Some(n) => Some(Bencode::List(node_items(n))),
        None => None,
    }
}

/// Every file of `files` has a length that a bencode integer holds.
pub open spec fn files_encodable(files: Seq<FileInfoView>) -> bool {
    forall|i: int| 0 <= i < files.len() ==> (#[trigger] files[i]).encodable()
}

impl HostPortView {
    /// The list of the host and the port.
    pub open spec fn bencode(self) -> Bencode {
        Bencode::List(seq![text(self.host), Bencode::Integer(self.port as int)])
    }
}

impl FileInfoView {
    /// The length is one that a bencode integer holds.
    pub open spec fn encodable(self) -> bool {
        self.length <= i64::MAX
    }

    /// The dictionary with the keys `length`, `md5sum` where there is a
    /// digest, and `path`.
    pub open spec fn bencode(self) -> Bencode {
        Bencode::Dict(
            field("length"@, number(self.length)) + optional("md5sum"@, digest_value(self.md5sum))
                + field("path"@, Bencode::List(path_items(self.path))),
        )
    }
}

impl ModeView {
    /// Each length is one that a bencode integer holds.
    pub open spec fn encodable(self) -> bool {
        match self {
            ModeView::Single { length, md5sum } => length <= i64::MAX,
            ModeView::Multiple { files } => files_encodable(files),
        }
    }

    /// The entries that the mode adds to the info dictionary: `length` and,
    /// where there is a digest, `md5sum` for a single file; `files` for a
    /// directory.
    pub open spec fn fields(self) -> Seq<(Seq<u8>, Bencode)> {
        match self {
            ModeView::Single { length, md5sum } => field("length"@, number(length)) + optional(
                "md5sum"@,
                digest_value(md5sum),
            ),
            ModeView::Multiple { files } => field("files"@, Bencode::List(file_items(files))),
        }
    }
}

impl InfoView {
    /// Each length is one that a bencode integer holds.
    pub open spec fn encodable(self) -> bool {
        self.piece_length <= i64::MAX && self.mode.encodable()
    }

    /// The info dictionary.
    pub open spec fn bencode(self) -> Bencode {
        Bencode::Dict(
            self.mode.fields() + field("name"@, text(self.name)) + field(
                "piece length"@,
                number(self.piece_length),
            ) + field("pieces"@, Bencode::Bytes(self.pieces)) + optional(
                "private"@,
                private_value(self.private),
            ) + optional("source"@, text_value(self.source)),
        )
    }
}

impl MetainfoView {
    /// Each length, and the date, is one that a bencode integer holds.
    pub open spec fn encodable(self) -> bool {
        &&& self.info.encodable()
        &&& self.creation_date matches Some(date) ==> date <= i64::MAX
    }

    /// The metainfo dictionary. A key whose field is absent is left out.
    pub open spec fn bencode(self) -> Bencode {
        Bencode::Dict(
            optional("announce"@, text_value(self.announce)) + optional(
                "announce-list"@,
                tiers_value(self.announce_list),
            ) + optional("comment"@, text_value(self.comment)) + optional(
                "created by"@,
                text_value(self.created_by),
            ) + optional("creation date"@, number_value(self.creation_date)) + optional(
                "encoding"@,
                text_value(self.encoding),
            ) + field("info"@, self.info.bencode()) + optional("nodes"@, nodes_value(self.nodes)),
        )
    }

    /// The serialised document.
    pub open spec fn serialization(self) -> Seq<u8> {
        self.bencode().encoding()
    }

    /// The entries of the metainfo dictionary that come before `info`.
    pub open spec fn leading(self) -> Seq<(Seq<u8>, Bencode)> {
        optional("announce"@, text_value(self.announce)) + optional(
            "announce-list"@,
            tiers_value(self.announce_list),
        ) + optional("comment"@, text_value(self.comment)) + optional(
            "created by"@,
            text_value(self.created_by),
        ) + optional("creation date"@, number_value(self.creation_date)) + optional(
            "encoding"@,
            text_value(self.encoding),
        )
    }

    /// Where in the serialised document the info dictionary begins.
    pub open spec fn info_start(self) -> int {
        (1 + entries_encoding(self.leading()).len() + bytes_encoding(ascii("info"@)).len()) as int
    }

    /// Where in the serialised document the info dictionary ends.
    pub open spec fn info_end(self) -> int {
        self.info_start() + self.info.bencode().encoding().len()
    }

    /// The info-hash of the torrent: the SHA-1 digest of the serialised info
    /// dictionary.
    pub open spec fn infohash(self) -> Seq<u8> {
        sha1_digest(self.info.bencode().encoding())
    }

    /// The serialised document holds the serialised info dictionary, from
    /// `info_start` to `info_end`: the info-hash is the SHA-1 digest of
    /// that range of the document.
    pub proof fn lemma_info_range(self)
        ensures
            0 <= self.info_start() <= self.info_end() <= self.serialization().len(),
            self.serialization().subrange(self.info_start(), self.info_end())
                == self.info.bencode().encoding(),
            self.infohash() == sha1_digest(
                self.serialization().subrange(self.info_start(), self.info_end()),
            ),
    {
        let info = field("info"@, self.info.bencode());
        let nodes = optional("nodes"@, nodes_value(self.nodes));
        let entries = self.leading() + info + nodes;
        assert(entries =~= self.bencode()->Dict_0);
        lemma_entries_encoding_concat(self.leading() + info, nodes);
        lemma_entries_encoding_concat(self.leading(), info);
        assert(info.drop_last() =~= Seq::empty());
        assert(entries_encoding(Seq::<(Seq<u8>, Bencode)>::empty()) =~= Seq::<u8>::empty());
        assert(info.last() == (ascii("info"@), self.info.bencode()));
        assert(entries_encoding(info) =~= bytes_encoding(ascii("info"@))
            + self.info.bencode().encoding());
        assert(self.serialization().subrange(self.info_start(), self.info_end())
            =~= self.info.bencode().encoding());
    }
}

/// The last key of `entries`, if there is one, is `bound` or comes before it.
pub open spec fn last_key_le(entries: Seq<(Seq<u8>, Bencode)>, bound: Seq<u8>) -> bool {
    entries.len() == 0 || bytes_le(entries.last().0, bound)
}

/// Every value of `entries` is canonical.
pub open spec fn values_canonical(entries: Seq<(Seq<u8>, Bencode)>) -> bool {
    forall|i: int| 0 <= i < entries.len() ==> (#[trigger] entries[i]).1.canonical()
}

/// Entries in ascending key order stay so when an entry with a later key is
/// added, or none.
pub proof fn lemma_extend(
    entries: Seq<(Seq<u8>, Bencode)>,
    key: Seq<char>,
    value: Option<Bencode>,
    bound: Seq<u8>,
)
    requires
        keys_ascending(entries),
        values_canonical(entries),
        last_key_le(entries, bound),
        bytes_lt(bound, ascii(key)),
        value matches Some(v) ==> v.canonical(),
    ensures
        keys_ascending(entries + optional(key, value)),
        values_canonical(entries + optional(key, value)),
        last_key_le(entries + optional(key, value), ascii(key)),
{
    let extended = entries + optional(key, value);
    match value {
        Some(v) => {
            if entries.len() > 0 {
                lemma_bytes_le_lt(entries.last().0, bound, ascii(key));
            }
            assert forall|i: int| 0 < i < extended.len() implies bytes_lt(
                extended[i - 1].0,
                #[trigger] extended[i].0,
            ) by {
                if i < entries.len() {
                    assert(extended[i] == entries[i]);
                    assert(extended[i - 1] == entries[i - 1]);
                }
            }
            assert forall|i: int| 0 <= i < extended.len() implies (#[trigger] extended[i]).1.canonical() by {
                if i < entries.len() {
                    assert(extended[i] == entries[i]);
                }
            }
        },
        None => {
            assert(extended =~= entries);
            if entries.len() > 0 {
                lemma_bytes_le_lt(entries.last().0, bound, ascii(key));
            }
        },
    }
}

/// The keys of a file dictionary, in the order in which they are written,
/// ascend.
pub proof fn lemma_file_keys_ascend()
    ensures
        bytes_lt(Seq::empty(), ascii("length"@)),
        bytes_lt(ascii("length"@), ascii("md5sum"@)),
        bytes_lt(ascii("md5sum"@), ascii("path"@)),
{
    reveal_strlit("length");
    reveal_strlit("md5sum");
    reveal_strlit("path");
    assert(bytes_lt_at(Seq::empty(), ascii("length"@), 0));
    assert(bytes_lt_at(ascii("length"@), ascii("md5sum"@), 0));
    assert(bytes_lt_at(ascii("md5sum"@), ascii("path"@), 0));
}

/// The keys of the info dictionary, in the order in which they are written,
/// ascend.
pub proof fn lemma_info_keys_ascend()
    ensures
        bytes_lt(Seq::empty(), ascii("files"@)),
        bytes_lt(ascii("files"@), ascii("length"@)),
        bytes_lt(ascii("length"@), ascii("md5sum"@)),
        bytes_lt(ascii("md5sum"@), ascii("name"@)),
        bytes_lt(ascii("name"@), ascii("piece length"@)),
        bytes_lt(ascii("piece length"@), ascii("pieces"@)),
        bytes_lt(ascii("pieces"@), ascii("private"@)),
        bytes_lt(ascii("private"@), ascii("source"@)),
{
    reveal_strlit("files");
    reveal_strlit("length");
    reveal_strlit("md5sum");
    reveal_strlit("name");
    reveal_strlit("piece length");
    reveal_strlit("pieces");
    reveal_strlit("private");
    reveal_strlit("source");
    assert(bytes_lt_at(Seq::empty(), ascii("files"@), 0));
    assert(bytes_lt_at(ascii("files"@), ascii("length"@), 0));
    assert(bytes_lt_at(ascii("length"@), ascii("md5sum"@), 0));
    assert(bytes_lt_at(ascii("md5sum"@), ascii("name"@), 0));
    assert(bytes_lt_at(ascii("name"@), ascii("piece length"@), 0));
    assert(bytes_lt_at(ascii("piece length"@), ascii("pieces"@), 5));
    assert(bytes_lt_at(ascii("pieces"@), ascii("private"@), 1));
    assert(bytes_lt_at(ascii("private"@), ascii("source"@), 0));
}

/// The keys of the metainfo dictionary, in the order in which they are
/// written, ascend.
pub proof fn lemma_metainfo_keys_ascend()
    ensures
        bytes_lt(Seq::empty(), ascii("announce"@)),
        bytes_lt(ascii("announce"@), ascii("announce-list"@)),
        bytes_lt(ascii("announce-list"@), ascii("comment"@)),
        bytes_lt(ascii("comment"@), ascii("created by"@)),
        bytes_lt(ascii("created by"@), ascii("creation date"@)),
        bytes_lt(ascii("creation date"@), ascii("encoding"@)),
        bytes_lt(ascii("encoding"@), ascii("info"@)),
        bytes_lt(ascii("info"@), ascii("nodes"@)),
{
    reveal_strlit("announce");
    reveal_strlit("announce-list");
    reveal_strlit("comment");
    reveal_strlit("created by");
    reveal_strlit("creation date");
    reveal_strlit("encoding");
    reveal_strlit("info");
    reveal_strlit("nodes");
    assert(bytes_lt_at(Seq::empty(), ascii("announce"@), 0));
    assert(bytes_lt_at(ascii("announce"@), ascii("announce-list"@), 8));
    assert(bytes_lt_at(ascii("announce-list"@), ascii("comment"@), 0));
    assert(bytes_lt_at(ascii("comment"@), ascii("created by"@), 1));
    assert(bytes_lt_at(ascii("created by"@), ascii("creation date"@), 5));
    assert(bytes_lt_at(ascii("creation date"@), ascii("encoding"@), 0));
    assert(bytes_lt_at(ascii("encoding"@), ascii("info"@), 0));
    assert(bytes_lt_at(ascii("info"@), ascii("nodes"@), 0));
}

impl FileInfoView {
    /// The dictionary of a file whose length a bencode integer holds is
    /// canonical.
    pub proof fn lemma_bencode_canonical(self)
        requires
            self.encodable(),
        ensures
            self.bencode().canonical(),
    {
        lemma_file_keys_ascend();
        let none = Seq::<(Seq<u8>, Bencode)>::empty();
        let e0 = none + optional("length"@, Some(number(self.length)));
        lemma_extend(none, "length"@, Some(number(self.length)), Seq::empty());
        let e1 = e0 + optional("md5sum"@, digest_value(self.md5sum));
        lemma_extend(e0, "md5sum"@, digest_value(self.md5sum), ascii("length"@));
        let path = Bencode::List(path_items(self.path));
        assert forall|i: int| 0 <= i < self.path.len() implies (#[trigger] path_items(
            self.path,
        )[i]).canonical() by {}
        let e2 = e1 + optional("path"@, Some(path));
        lemma_extend(e1, "path"@, Some(path), ascii("md5sum"@));
        assert(e2 =~= self.bencode()->Dict_0);
    }
}

impl InfoView {
    /// The info dictionary is canonical where each length in it is one that
    /// a bencode integer holds.
    pub proof fn lemma_bencode_canonical(self)
        requires
            self.encodable(),
        ensures
            self.bencode().canonical(),
    {
        lemma_info_keys_ascend();
        let none = Seq::<(Seq<u8>, Bencode)>::empty();
        let e2 = match self.mode {
            ModeView::Single { length, md5sum } => {
                let e0 = none + optional("files"@, None);
                lemma_extend(none, "files"@, None, Seq::empty());
                let e1 = e0 + optional("length"@, Some(number(length)));
                lemma_extend(e0, "length"@, Some(number(length)), ascii("files"@));
                lemma_extend(e1, "md5sum"@, digest_value(md5sum), ascii("length"@));
                e1 + optional("md5sum"@, digest_value(md5sum))
            },
            ModeView::Multiple { files } => {
                let list = Bencode::List(file_items(files));
                assert forall|i: int| 0 <= i < files.len() implies (#[trigger] file_items(
                    files,
                )[i]).canonical() by {
                    files[i].lemma_bencode_canonical();
                }
                let e0 = none + optional("files"@, Some(list));
                lemma_extend(none, "files"@, Some(list), Seq::empty());
                let e1 = e0 + optional("length"@, None);
                lemma_extend(e0, "length"@, None, ascii("files"@));
                lemma_extend(e1, "md5sum"@, None, ascii("length"@));
                e1 + optional("md5sum"@, None)
            },
        };
        assert(e2 =~= self.mode.fields());
        let e3 = e2 + optional("name"@, Some(text(self.name)));
        lemma_extend(e2, "name"@, Some(text(self.name)), ascii("md5sum"@));
        let e4 = e3 + optional("piece length"@, Some(number(self.piece_length)));
        lemma_extend(e3, "piece length"@, Some(number(self.piece_length)), ascii("name"@));
        let e5 = e4 + optional("pieces"@, Some(Bencode::Bytes(self.pieces)));
        lemma_extend(e4, "pieces"@, Some(Bencode::Bytes(self.pieces)), ascii("piece length"@));
        let e6 = e5 + optional("private"@, private_value(self.private));
        lemma_extend(e5, "private"@, private_value(self.private), ascii("pieces"@));
        let e7 = e6 + optional("source"@, text_value(self.source));
        lemma_extend(e6, "source"@, text_value(self.source), ascii("private"@));
        assert(e7 =~= self.bencode()->Dict_0);
    }
}

impl MetainfoView {
    /// Every dictionary of the document has its keys in strictly ascending
    /// byte order, and every integer in it fits in 64 bits, where each
    /// length and the date is one that a bencode integer holds.
    pub proof fn lemma_bencode_canonical(self)
        requires
            self.encodable(),
        ensures
            self.bencode().canonical(),
    {
        lemma_metainfo_keys_ascend();
        self.info.lemma_bencode_canonical();
        if let Some(tiers) = self.announce_list {
            assert forall|i: int| 0 <= i < tiers.len() implies (#[trigger] tier_items(
                tiers,
            )[i]).canonical() by {
                assert forall|j: int| 0 <= j < tiers[i].len() implies (#[trigger] text_items(
                    tiers[i],
                )[j]).canonical() by {}
            }
        }
        if let Some(nodes) = self.nodes {
            assert forall|i: int| 0 <= i < nodes.len() implies (#[trigger] node_items(
                nodes,
            )[i]).canonical() by {
                let pair = seq![text(nodes[i].host), Bencode::Integer(nodes[i].port as int)];
                assert(pair[0].canonical());
                assert(pair[1].canonical());
            }
        }
        let none = Seq::<(Seq<u8>, Bencode)>::empty();
        let e0 = none + optional("announce"@, text_value(self.announce));
        lemma_extend(none, "announce"@, text_value(self.announce), Seq::empty());
        let e1 = e0 + optional("announce-list"@, tiers_value(self.announce_list));
        lemma_extend(e0, "announce-list"@, tiers_value(self.announce_list), ascii("announce"@));
        let e2 = e1 + optional("comment"@, text_value(self.comment));
        lemma_extend(e1, "comment"@, text_value(self.comment), ascii("announce-list"@));
        let e3 = e2 + optional("created by"@, text_value(self.created_by));
        lemma_extend(e2, "created by"@, text_value(self.created_by), ascii("comment"@));
        let e4 = e3 + optional("creation date"@, number_value(self.creation_date));
        lemma_extend(e3, "creation date"@, number_value(self.creation_date), ascii("created by"@));
        let e5 = e4 + optional("encoding"@, text_value(self.encoding));
        lemma_extend(e4, "encoding"@, text_value(self.encoding), ascii("creation date"@));
        let e6 = e5 + optional("info"@, Some(self.info.bencode()));
        lemma_extend(e5, "info"@, Some(self.info.bencode()), ascii("encoding"@));
        let e7 = e6 + optional("nodes"@, nodes_value(self.nodes));
        lemma_extend(e6, "nodes"@, nodes_value(self.nodes), ascii("info"@));
        assert(e7 =~= self.bencode()->Dict_0);
    }
}

/// The view of an optional value.
pub open spec fn optional_view(value: Option<Value>) -> Option<Bencode> {
    match value {
        Some(v) => Some(v@),
        None => None,
    }
}

/// Adds the entry with the key `name` and the value `value`.
fn put(entries: &mut Vec<(Vec<u8>, Value)>, name: &str, value: Value)
    requires
        name.is_ascii(),
    ensures
        entries_view(final(entries)@) == entries_view(old(entries)@) + field(name@, value@),
{
    broadcast use vstd::string::is_ascii_spec_bytes;

    let key = slice_to_vec(name.as_bytes());
    assert(key@ =~= ascii(name@));
    entries.push((key, value));
    assert(entries_view(entries@) =~= entries_view(old(entries)@) + field(name@, value@));
}

/// Adds the entry with the key `name`, where there is a value for it.
fn put_optional(entries: &mut Vec<(Vec<u8>, Value)>, name: &str, value: Option<Value>)
    requires
        name.is_ascii(),
    ensures
        entries_view(final(entries)@) == entries_view(old(entries)@) + optional(
            name@,
            optional_view(value),
        ),
{
    match value {
        Some(v) => {
            put(entries, name, v);
        },
        None => {
            assert(entries_view(entries@) =~= entries_view(old(entries)@) + optional(
                name@,
                optional_view(value),
            ));
        },
    }
}

/// The dictionary with the given entries.
fn dict(entries: Vec<(Vec<u8>, Value)>) -> (v: Value)
    ensures
        v@ == Bencode::Dict(entries_view(entries@)),
{
    proof {
        lemma_view_dict(entries);
    }
    Value::Dict(entries)
}

/// The list with the given items.
fn list(items: Vec<Value>) -> (v: Value)
    ensures
        v@ == Bencode::List(views(items@)),
{
    proof {
        lemma_view_list(items);
    }
    Value::List(items)
}

/// The byte string that holds `s` in UTF-8.
fn text_of(s: &String) -> (v: Value)
    ensures
        v@ == text(s@),
{
    Value::Bytes(slice_to_vec(s.as_str().as_bytes()))
}

/// The byte string that holds `s` in UTF-8, where there is a string.
fn optional_text_of(s: &Option<String>) -> (v: Option<Value>)
    ensures
        optional_view(v) == text_value(optional_text(*s)),
{
    match s {
        Some(s) => Some(text_of(s)),
        None => None,
    }
}

/// The lower-case hexadecimal digit for `n`.
fn hex_digit_of(n: u8) -> (d: u8)
    requires
        n < 16,
    ensures
        d == hex_digit(n as int),
{
    if n < 10 {
        48 + n
    } else {
        87 + n
    }
}

/// The byte string that holds `digest` in hexadecimal.
fn digest_of(digest: &[u8; 16]) -> (v: Value)
    ensures
        v@ == Bencode::Bytes(hex(digest@)),
{
    let mut out: Vec<u8> = Vec::new();
    let mut i: usize = 0;
    while i < 16
        invariant
            i <= 16,
            out@ == hex(digest@).take(2 * i),
        decreases 16 - i,
    {
        let b = digest[i];
        out.push(hex_digit_of(b / 16));
        out.push(hex_digit_of(b % 16));
        assert(out@ =~= hex(digest@).take(2 * (i + 1)));
        i += 1;
    }
    assert(hex(digest@).take(32) =~= hex(digest@));
    Value::Bytes(out)
}

/// The byte string that holds `digest` in hexadecimal, where there is one.
fn optional_digest_of(digest: &Option<[u8; 16]>) -> (v: Option<Value>)
    ensures
        optional_view(v) == digest_value(digest_view(*digest)),
{
    match digest {
        Some(d) => Some(digest_of(d)),
        None => None,
    }
}

/// The list of the components of `path`.
fn path_of(path: &FilePath) -> (v: Value)
    ensures
        v@ == Bencode::List(path_items(path@)),
{
    let mut items: Vec<Value> = Vec::new();
    let mut i: usize = 0;
    while i < path.len()
        invariant
            i <= path@.len(),
            views(items@) == path_items(path@).take(i as int),
        decreases path@.len() - i,
    {
        let c = copy_bytes(path.component(i).as_slice());
        let item = Value::Bytes(c);
        proof {
            lemma_views_push(items@, item);
        }
        items.push(item);
        assert(views(items@) =~= path_items(path@).take(i + 1));
        i += 1;
    }
    assert(path_items(path@).take(path@.len() as int) =~= path_items(path@));
    list(items)
}

/// The list of the strings of `strings`.
fn strings_of(strings: &Vec<String>) -> (v: Value)
    ensures
        v@ == Bencode::List(text_items(views(strings@))),
{
    let mut items: Vec<Value> = Vec::new();
    let mut i: usize = 0;
    while i < strings.len()
        invariant
            i <= strings.len(),
            views(items@) == text_items(views(strings@)).take(i as int),
        decreases strings.len() - i,
    {
        let item = text_of(&strings[i]);
        proof {
            lemma_views_push(items@, item);
        }
        items.push(item);
        assert(views(items@) =~= text_items(views(strings@)).take(i + 1));
        i += 1;
    }
    assert(text_items(views(strings@)).take(strings.len() as int) =~= text_items(
        views(strings@),
    ));
    list(items)
}

/// The list of the tiers of `tiers`.
fn tiers_of(tiers: &Vec<Vec<String>>) -> (v: Value)
    ensures
        v@ == Bencode::List(tier_items(tiers_view(tiers@))),
{
    let mut items: Vec<Value> = Vec::new();
    let mut i: usize = 0;
    while i < tiers.len()
        invariant
            i <= tiers.len(),
            views(items@) == tier_items(tiers_view(tiers@)).take(i as int),
        decreases tiers.len() - i,
    {
        let item = strings_of(&tiers[i]);
        proof {
            lemma_views_push(items@, item);
        }
        items.push(item);
        assert(views(items@) =~= tier_items(tiers_view(tiers@)).take(i + 1));
        i += 1;
    }
    assert(tier_items(tiers_view(tiers@)).take(tiers.len() as int) =~= tier_items(
        tiers_view(tiers@),
    ));
    list(items)
}

impl HostPort {
    /// The list of the host and the port.
    pub fn to_value(&self) -> (v: Value)
        ensures
            v@ == self@.bencode(),
    {
        let mut items: Vec<Value> = Vec::new();
        items.push(text_of(&self.host));
        items.push(Value::Integer(self.port as i64));
        assert(views(items@) =~= seq![text(self@.host), Bencode::Integer(self.port as int)]);
        list(items)
    }
}

/// The list of the nodes of `nodes`.
fn nodes_of(nodes: &Vec<HostPort>) -> (v: Value)
    ensures
        v@ == Bencode::List(node_items(views(nodes@))),
{
    let mut items: Vec<Value> = Vec::new();
    let mut i: usize = 0;
    while i < nodes.len()
        invariant
            i <= nodes.len(),
            views(items@) == node_items(views(nodes@)).take(i as int),
        decreases nodes.len() - i,
    {
        let item = nodes[i].to_value();
        proof {
            lemma_views_push(items@, item);
        }
        items.push(item);
        assert(views(items@) =~= node_items(views(nodes@)).take(i + 1));
        i += 1;
    }
    assert(node_items(views(nodes@)).take(nodes.len() as int) =~= node_items(views(nodes@)));
    list(items)
}

/// The integer `n`, if a bencode integer holds it.
fn number_of(n: u64) -> (r: Result<Value, Error>)
    ensures
        r is Ok <==> n <= i64::MAX,
        r matches Ok(v) ==> v@ == number(n),
        r matches Err(e) ==> e == Error::IntegerRange,
{
    if n > 0x7fff_ffff_ffff_ffff {
        Err(Error::IntegerRange)
    } else {
        Ok(Value::Integer(n as i64))
    }
}

impl FileInfo {
    /// The dictionary that stands for this file, unless its length exceeds
    /// what a bencode integer holds.
    pub fn to_value(&self) -> (r: Result<Value, Error>)
        ensures
            r is Ok <==> self@.encodable(),
            r matches Ok(v) ==> v@ == self@.bencode(),
            r matches Err(e) ==> e == Error::IntegerRange,
    {
        let length = match number_of(self.length.0) {
            Ok(v) => v,
            Err(e) => {
                return Err(e);
            },
        };
        proof {
            reveal_strlit("length");
            reveal_strlit("md5sum");
            reveal_strlit("path");
        }
        let mut entries: Vec<(Vec<u8>, Value)> = Vec::new();
        assert(entries_view(entries@) =~= Seq::empty());
        put(&mut entries, "length", length);
        put_optional(&mut entries, "md5sum", optional_digest_of(&self.md5sum));
        put(&mut entries, "path", path_of(&self.path));
        assert(entries_view(entries@) =~= self@.bencode()->Dict_0);
        Ok(dict(entries))
    }
}

/// The list of the files of `files`, unless a length among them exceeds what
/// a bencode integer holds.
fn files_of(files: &Vec<FileInfo>) -> (r: Result<Value, Error>)
    ensures
        r is Ok <==> files_encodable(views(files@)),
        r matches Ok(v) ==> v@ == Bencode::List(file_items(views(files@))),
        r matches Err(e) ==> e == Error::IntegerRange,
{
    let mut items: Vec<Value> = Vec::new();
    let mut i: usize = 0;
    while i < files.len()
        invariant
            i <= files.len(),
            views(items@) == file_items(views(files@)).take(i as int),
            forall|j: int| 0 <= j < i ==> (#[trigger] views(files@)[j]).encodable(),
        decreases files.len() - i,
    {
        match files[i].to_value() {
            Ok(v) => {
                proof {
                    lemma_views_push(items@, v);
                }
                items.push(v);
            },
            Err(e) => {
                assert(!views(files@)[i as int].encodable());
                return Err(e);
            },
        }
        assert(views(items@) =~= file_items(views(files@)).take(i + 1));
        i += 1;
    }
    assert(file_items(views(files@)).take(files.len() as int) =~= file_items(views(files@)));
    Ok(list(items))
}

impl Info {
    /// The info dictionary, unless a length in it exceeds what a bencode
    /// integer holds.
    pub fn to_value(&self) -> (r: Result<Value, Error>)
        ensures
            r is Ok <==> self@.encodable(),
            r matches Ok(v) ==> v@ == self@.bencode(),
            r matches Err(e) ==> e == Error::IntegerRange,
    {
        proof {
            reveal_strlit("files");
            reveal_strlit("length");
            reveal_strlit("md5sum");
            reveal_strlit("name");
            reveal_strlit("piece length");
            reveal_strlit("pieces");
            reveal_strlit("private");
            reveal_strlit("source");
        }
        let mut entries: Vec<(Vec<u8>, Value)> = Vec::new();
        assert(entries_view(entries@) =~= Seq::empty());
        match &self.mode {
            Mode::Single { length, md5sum } => {
                let length = match number_of(length.0) {
                    Ok(v) => v,
                    Err(e) => {
                        return Err(e);
                    },
                };
                put(&mut entries, "length", length);
                put_optional(&mut entries, "md5sum", optional_digest_of(md5sum));
            },
            Mode::Multiple { files } => {
                let files = match files_of(files) {
                    Ok(v) => v,
                    Err(e) => {
                        return Err(e);
                    },
                };
                put(&mut entries, "files", files);
            },
        }
        assert(entries_view(entries@) =~= self@.mode.fields());
        let piece_length = match number_of(self.piece_length.0) {
            Ok(v) => v,
            Err(e) => {
                return Err(e);
            },
        };
        put(&mut entries, "name", text_of(&self.name));
        put(&mut entries, "piece length", piece_length);
        put(&mut entries, "pieces", Value::Bytes(copy_bytes(self.pieces.bytes.as_slice())));
        let private = match self.private {
            Some(true) => Some(Value::Integer(1)),
            _ => None,
        };
        put_optional(&mut entries, "private", private);
        put_optional(&mut entries, "source", optional_text_of(&self.source));
        Ok(dict(entries))
    }
}

impl Info {
    /// The info-hash of the torrent: the SHA-1 digest of the serialised info
    /// dictionary. Fails with `IntegerRange` where a length exceeds what a
    /// bencode integer holds, or the dictionary is longer than SHA-1 is
    /// defined for.
    pub fn infohash(&self) -> (r: Result<[u8; 20], Error>)
        ensures
            r is Ok <==> self@.encodable() && self@.bencode().encoding().len() < SHA1_INPUT_LIMIT,
            r matches Ok(digest) ==> digest@ == sha1_digest(self@.bencode().encoding()),
            r matches Err(e) ==> e == Error::IntegerRange,
    {
        let bytes = match self.to_value() {
            Ok(v) => v.encode(),
            Err(e) => {
                return Err(e);
            },
        };
        if bytes.len() as u64 >= SHA1_INPUT_LIMIT {
            return Err(Error::IntegerRange);
        }
        let mut state = sha1_new();
        sha1_update(&mut state, bytes.as_slice());
        assert(Seq::<u8>::empty() + bytes@ =~= bytes@);
        Ok(sha1_finish(&state))
    }
}

impl Metainfo {
    /// The entries of the metainfo dictionary that come before `info`,
    /// unless the date exceeds what a bencode integer holds.
    fn leading_entries(&self) -> (r: Result<Vec<(Vec<u8>, Value)>, Error>)
        ensures
            r is Ok <==> (self@.creation_date matches Some(date) ==> date <= i64::MAX),
            r matches Ok(entries) ==> entries_view(entries@) == self@.leading(),
            r matches Err(e) ==> e == Error::IntegerRange,
    {
        proof {
            reveal_strlit("announce");
            reveal_strlit("announce-list");
            reveal_strlit("comment");
            reveal_strlit("created by");
            reveal_strlit("creation date");
            reveal_strlit("encoding");
        }
        let creation_date = match self.creation_date {
            Some(date) => match number_of(date) {
                Ok(v) => Some(v),
                Err(e) => {
                    return Err(e);
                },
            },
            None => None,
        };
        let announce_list = match &self.announce_list {
            Some(tiers) => Some(tiers_of(tiers)),
            None => None,
        };
        let mut entries: Vec<(Vec<u8>, Value)> = Vec::new();
        assert(entries_view(entries@) =~= Seq::empty());
        put_optional(&mut entries, "announce", optional_text_of(&self.announce));
        put_optional(&mut entries, "announce-list", announce_list);
        put_optional(&mut entries, "comment", optional_text_of(&self.comment));
        put_optional(&mut entries, "created by", optional_text_of(&self.created_by));
        put_optional(&mut entries, "creation date", creation_date);
        put_optional(&mut entries, "encoding", optional_text_of(&self.encoding));
        assert(entries_view(entries@) =~= self@.leading());
        Ok(entries)
    }

    /// The metainfo dictionary, unless a length or the date exceeds what a
    /// bencode integer holds. Every dictionary in it has its keys in
    /// strictly ascending byte order.
    pub fn to_value(&self) -> (r: Result<Value, Error>)
        ensures
            r is Ok <==> self@.encodable(),
            r matches Ok(v) ==> v@ == self@.bencode() && v@.canonical(),
            r matches Err(e) ==> e == Error::IntegerRange,
    {
        proof {
            reveal_strlit("info");
            reveal_strlit("nodes");
        }
        let info = match self.info.to_value() {
            Ok(v) => v,
            Err(e) => {
                return Err(e);
            },
        };
        let mut entries = match self.leading_entries() {
            Ok(entries) => entries,
            Err(e) => {
                return Err(e);
            },
        };
        let nodes = match &self.nodes {
            Some(nodes) => Some(nodes_of(nodes)),
            None => None,
        };
        put(&mut entries, "info", info);
        put_optional(&mut entries, "nodes", nodes);
        proof {
            assert(entries_view(entries@) =~= self@.bencode()->Dict_0);
            self@.lemma_bencode_canonical();
        }
        Ok(dict(entries))
    }

    /// The serialised document, unless a length or the date exceeds what a
    /// bencode integer holds.
    pub fn serialize(&self) -> (r: Result<Vec<u8>, Error>)
        ensures
            r is Ok <==> self@.encodable(),
            r matches Ok(bytes) ==> bytes@ == self@.serialization(),
            r matches Err(e) ==> e == Error::IntegerRange,
    {
        match self.to_value() {
            Ok(v) => Ok(v.encode()),
            Err(e) => Err(e),
        }
    }

    /// The info-hash of the torrent.
    pub fn infohash(&self) -> (r: Result<[u8; 20], Error>)
        ensures
            r is Ok <==> self@.info.encodable() && self@.info.bencode().encoding().len()
                < SHA1_INPUT_LIMIT,
            r matches Ok(digest) ==> digest@ == self@.infohash(),
            r matches Err(e) ==> e == Error::IntegerRange,
    {
        self.info.infohash()
    }

    /// Where in the serialised document the info dictionary begins, and
    /// where it ends.
    pub fn info_range(&self) -> (r: Result<(usize, usize), Error>)
        ensures
            r is Ok <==> self@.encodable(),
            r matches Ok(range) ==> range.0 == self@.info_start() && range.1 == self@.info_end(),
            r matches Err(e) ==> e == Error::IntegerRange,
    {
        let bytes = match self.serialize() {
            Ok(bytes) => bytes,
            Err(e) => {
                return Err(e);
            },
        };
        let leading = match self.leading_entries() {
            Ok(entries) => dict(entries).encode(),
            Err(e) => {
                return Err(e);
            },
        };
        let info = match self.info.to_value() {
            Ok(v) => v.encode(),
            Err(e) => {
                return Err(e);
            },
        };
        proof {
            reveal_strlit("info");
            self@.lemma_info_range();
            assert(ascii("info"@).len() == 4);
            assert(crate::bencode::decimal(4) =~= seq![52u8]);
            assert(bytes_encoding(ascii("info"@)).len() == 6);
            assert(leading@.len() == entries_encoding(self@.leading()).len() + 2);
            assert(leading@.len() + 5 == self@.info_start());
            assert(self@.info_end() <= bytes@.len());
            assert(info@.len() == self@.info_end() - self@.info_start());
        }
        let total = bytes.len();
        assert(leading.len() + 5 + info.len() <= total);
        let start = leading.len() + 5;
        let end = start + info.len();
        Ok((start, end))
    }
}

} // verus!

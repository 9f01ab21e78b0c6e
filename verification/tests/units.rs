use torrent_create::bencode::Value;
use torrent_create::bytes::Bytes;
use torrent_create::create::Create;
use torrent_create::create::Destination;
use torrent_create::create::OutputTarget;
use torrent_create::error::Error;
use torrent_create::error::Malformed;
use torrent_create::file_order::sort;
use torrent_create::file_order::FileOrder;
use torrent_create::file_path::is_valid_component;
use torrent_create::file_path::FilePath;
use torrent_create::files::FileEntry;
use torrent_create::files::Files;
use torrent_create::hasher::Hasher;
use torrent_create::host_port::split_host_port;
use torrent_create::host_port::PortText;
use torrent_create::lex::compare_bytes;
use torrent_create::lex::Rank;
use torrent_create::lint::Lint;
use torrent_create::lint::Linter;
use torrent_create::magnet::without_repeats;
use torrent_create::magnet::MagnetLink;
use torrent_create::metainfo::FileInfo;
use torrent_create::metainfo::HostPort;
use torrent_create::metainfo::Info;
use torrent_create::metainfo::Metainfo;
use torrent_create::metainfo::Mode;
use torrent_create::metainfo::PieceList;
use torrent_create::piece_length_picker::from_content_size;
use torrent_create::piece_length_picker::is_power_of_two;
use torrent_create::text::is_name;
use torrent_create::text::split_text;
use torrent_create::walker::decide;
use torrent_create::walker::DirEntry;
use torrent_create::walker::EntryKind;
use torrent_create::walker::Root;
use torrent_create::walker::Verdict;
use torrent_create::walker::Walker;

fn malformed(what: Malformed) -> Error {
    Error::CliParse { what }
}

fn path(components: &[&str]) -> FilePath {
    FilePath::from_components(components.iter().map(|c| c.as_bytes().to_vec()).collect()).unwrap()
}

fn entry(components: &[&str], length: u64) -> FileEntry {
    FileEntry { path: path(components), length: Bytes(length) }
}

fn listed(name: &str, kind: EntryKind, length: u64) -> DirEntry {
    DirEntry {
        name: name.as_bytes().to_vec(),
        symlink: false,
        kind,
        hidden: false,
        length,
        identity: name.as_bytes().to_vec(),
    }
}

fn directory() -> Root {
    Root { symlink: false, kind: EntryKind::Directory, length: 0, identity: b"/root".to_vec() }
}

fn options() -> Create {
    Create {
        announce: None,
        allowed_lints: Vec::new(),
        announce_tiers: Vec::new(),
        comment: None,
        dht_nodes: Vec::new(),
        dry_run: false,
        follow_symlinks: false,
        force: false,
        globs: Vec::new(),
        include_hidden: false,
        include_junk: false,
        print_magnet_link: false,
        md5sum: false,
        name: None,
        no_created_by: false,
        no_creation_date: false,
        open: false,
        order: None,
        output: None,
        peers: Vec::new(),
        piece_length: None,
        private: false,
        show: false,
        source: None,
    }
}

fn small() -> Metainfo {
    Metainfo {
        announce: Some("http://t/".to_string()),
        announce_list: None,
        nodes: None,
        comment: None,
        created_by: None,
        creation_date: None,
        encoding: None,
        info: Info {
            name: "n".to_string(),
            piece_length: Bytes(4),
            pieces: PieceList::new(),
            mode: Mode::Single { length: Bytes(0), md5sum: None },
            private: None,
            source: None,
        },
    }
}

fn full() -> Metainfo {
    let mut pieces = PieceList::new();
    pieces.push(&[7u8; 20]);
    Metainfo {
        announce: Some("udp://a/".to_string()),
        announce_list: Some(vec![vec!["udp://a".to_string(), "udp://b".to_string()], vec![]]),
        nodes: Some(vec![HostPort { host: "x.org".to_string(), port: 65535 }]),
        comment: Some("ça va".to_string()),
        created_by: Some("me".to_string()),
        creation_date: Some(12),
        encoding: Some("UTF-8".to_string()),
        info: Info {
            name: "dir".to_string(),
            piece_length: Bytes(16384),
            pieces,
            mode: Mode::Multiple {
                files: vec![
                    FileInfo { path: path(&["a", "b"]), length: Bytes(3), md5sum: Some([0xab; 16]) },
                    FileInfo { path: path(&["c"]), length: Bytes(0), md5sum: None },
                ],
            },
            private: Some(true),
            source: Some("src".to_string()),
        },
    }
}

#[test]
fn bytes_parse_plain_and_units() {
    assert_eq!(Bytes::parse("512"), Ok(Bytes(512)));
    assert_eq!(Bytes::parse("0"), Ok(Bytes(0)));
    assert_eq!(Bytes::parse("1b"), Ok(Bytes(1)));
    assert_eq!(Bytes::parse("1B"), Ok(Bytes(1)));
    assert_eq!(Bytes::parse("1kb"), Ok(Bytes(1000)));
    assert_eq!(Bytes::parse("16kib"), Ok(Bytes(16384)));
    assert_eq!(Bytes::parse("64KiB"), Ok(Bytes(65536)));
    assert_eq!(Bytes::parse("2mb"), Ok(Bytes(2_000_000)));
    assert_eq!(Bytes::parse("2MIB"), Ok(Bytes(2 * 1_048_576)));
    assert_eq!(Bytes::parse("3gb"), Ok(Bytes(3_000_000_000)));
    assert_eq!(Bytes::parse("3GiB"), Ok(Bytes(3 * 1_073_741_824)));
    assert_eq!(Bytes::parse("4tb"), Ok(Bytes(4_000_000_000_000)));
    assert_eq!(Bytes::parse("4tib"), Ok(Bytes(4 * 1_099_511_627_776)));
}

#[test]
fn bytes_parse_fractions_are_exact() {
    assert_eq!(Bytes::parse("0.5MiB"), Ok(Bytes(524_288)));
    assert_eq!(Bytes::parse("1.5kb"), Ok(Bytes(1500)));
    assert_eq!(Bytes::parse(".5kib"), Ok(Bytes(512)));
    assert_eq!(Bytes::parse("1."), Ok(Bytes(1)));
    assert_eq!(Bytes::parse("1.9"), Ok(Bytes(1)));
    assert_eq!(Bytes::parse("0.0009765625kib"), Ok(Bytes(1)));
    assert_eq!(Bytes::parse("0.00097656249999999999999999999999kib"), Ok(Bytes(0)));
    assert_eq!(Bytes::parse("0.1kb"), Ok(Bytes(100)));
    assert_eq!(Bytes::parse("0.0001kb"), Ok(Bytes(0)));
    assert_eq!(Bytes::parse("000000000000000000000000000001.000000000000000000000000kb"), Ok(Bytes(1000)));
}

#[test]
fn bytes_parse_failures() {
    assert_eq!(Bytes::parse(""), Err(malformed(Malformed::ByteNumber)));
    assert_eq!(Bytes::parse("."), Err(malformed(Malformed::ByteNumber)));
    assert_eq!(Bytes::parse("kib"), Err(malformed(Malformed::ByteNumber)));
    assert_eq!(Bytes::parse("1.2.3"), Err(malformed(Malformed::ByteNumber)));
    assert_eq!(Bytes::parse("1..kib"), Err(malformed(Malformed::ByteNumber)));
    assert_eq!(Bytes::parse("1xb"), Err(malformed(Malformed::ByteSuffix)));
    assert_eq!(Bytes::parse("1 kib"), Err(malformed(Malformed::ByteSuffix)));
    assert_eq!(Bytes::parse("1kib2"), Err(malformed(Malformed::ByteSuffix)));
    assert_eq!(Bytes::parse("-1"), Err(malformed(Malformed::ByteNumber)));
    assert_eq!(Bytes::parse("18446744073709551615"), Ok(Bytes(u64::MAX)));
    assert_eq!(Bytes::parse("18446744073709551616"), Err(malformed(Malformed::ByteRange)));
    assert_eq!(Bytes::parse("16777216tib"), Err(malformed(Malformed::ByteRange)));
    assert_eq!(Bytes::parse("16777215.999999999999tib"), Ok(Bytes(18446744073709551614)));
}

#[test]
fn bytes_as_piece_length() {
    assert_eq!(Bytes(0).count(), 0);
    assert_eq!(Bytes(4294967295).as_piece_length(), Ok(4294967295));
    assert_eq!(
        Bytes(4294967296).as_piece_length(),
        Err(Error::PieceLengthTooLarge { bytes: Bytes(4294967296) })
    );
}

#[test]
fn lint_names() {
    assert_eq!(Lint::parse("uneven-piece-length"), Ok(Lint::UnevenPieceLength));
    assert_eq!(Lint::parse("SMALL-piece-LENGTH"), Ok(Lint::SmallPieceLength));
    assert_eq!(Lint::parse("private-trackerLESS"), Ok(Lint::PrivateTrackerless));
    assert_eq!(Lint::parse("private_trackerless"), Err(malformed(Malformed::Lint)));
    assert_eq!(Lint::parse(""), Err(malformed(Malformed::Lint)));
    assert_eq!(Lint::UnevenPieceLength.name(), "uneven-piece-length");
    assert_eq!(Lint::SmallPieceLength.name(), "small-piece-length");
    assert_eq!(Lint::PrivateTrackerless.name(), "private-trackerless");
}

#[test]
fn linter_denies_until_allowed() {
    let mut linter = Linter::new();
    assert!(linter.is_denied(Lint::SmallPieceLength));
    assert!(!linter.is_allowed(Lint::SmallPieceLength));
    linter.allow(Lint::SmallPieceLength);
    assert!(linter.is_allowed(Lint::SmallPieceLength));
    assert!(linter.is_denied(Lint::UnevenPieceLength));
    assert!(linter.is_denied(Lint::PrivateTrackerless));
}

#[test]
fn linter_piece_length_gate() {
    let mut linter = Linter::new();
    assert_eq!(linter.check_piece_length(Bytes(0)), Err(Error::PieceLengthZero));
    assert_eq!(linter.check_piece_length(Bytes(16384)), Ok(()));
    assert_eq!(linter.check_piece_length(Bytes(16383)), Err(Error::PieceLengthUneven { bytes: Bytes(16383) }));
    assert_eq!(linter.check_piece_length(Bytes(8192)), Err(Error::PieceLengthSmall));
    assert_eq!(linter.check_piece_length(Bytes(17 * 1024)), Err(Error::PieceLengthUneven { bytes: Bytes(17408) }));
    linter.allow(Lint::UnevenPieceLength);
    assert_eq!(linter.check_piece_length(Bytes(17 * 1024)), Ok(()));
    assert_eq!(linter.check_piece_length(Bytes(3)), Err(Error::PieceLengthSmall));
    linter.allow(Lint::SmallPieceLength);
    assert_eq!(linter.check_piece_length(Bytes(3)), Ok(()));
    assert_eq!(linter.check_piece_length(Bytes(0)), Err(Error::PieceLengthZero));
}

#[test]
fn linter_trackerless_gate() {
    let mut linter = Linter::new();
    assert_eq!(linter.check_trackerless(true, false), Err(Error::PrivateTrackerless));
    assert_eq!(linter.check_trackerless(true, true), Ok(()));
    assert_eq!(linter.check_trackerless(false, false), Ok(()));
    linter.allow(Lint::PrivateTrackerless);
    assert_eq!(linter.check_trackerless(true, false), Ok(()));
}

#[test]
fn error_lint_and_message() {
    assert_eq!(Error::PieceLengthSmall.lint(), Some(Lint::SmallPieceLength));
    assert_eq!(Error::PieceLengthUneven { bytes: Bytes(3) }.lint(), Some(Lint::UnevenPieceLength));
    assert_eq!(Error::PrivateTrackerless.lint(), Some(Lint::PrivateTrackerless));
    assert_eq!(Error::PieceLengthZero.lint(), None);
    assert_eq!(Error::PieceLengthZero.message(), "Piece length cannot be zero");
    for error in [Error::Filesystem, Error::SymlinkRoot, Error::OutputExists, Error::Verify, malformed(Malformed::Port)] {
        assert!(!error.message().is_empty());
        assert!(!error.message().contains('\n'));
    }
    assert!(Error::PieceLengthSmall.message().contains("small-piece-length"));
}

#[test]
fn picker_bounds() {
    assert_eq!(from_content_size(Bytes(0)), Bytes(16 * 1024));
    assert_eq!(from_content_size(Bytes(1)), Bytes(16 * 1024));
    assert_eq!(from_content_size(Bytes(2049 * 16384 - 1)), Bytes(16 * 1024));
    assert_eq!(from_content_size(Bytes(2049 * 16384)), Bytes(32 * 1024));
    assert_eq!(from_content_size(Bytes(2049 * 32768 - 1)), Bytes(32 * 1024));
    assert_eq!(from_content_size(Bytes(2049 * 32768)), Bytes(64 * 1024));
    assert_eq!(from_content_size(Bytes(2049 * 8 * 1024 * 1024)), Bytes(16 * 1024 * 1024));
    assert_eq!(from_content_size(Bytes(u64::MAX)), Bytes(16 * 1024 * 1024));
}

#[test]
fn powers_of_two() {
    assert!(!is_power_of_two(0));
    assert!(is_power_of_two(1));
    assert!(is_power_of_two(2));
    assert!(!is_power_of_two(3));
    assert!(is_power_of_two(1 << 63));
    assert!(!is_power_of_two(u64::MAX));
    assert!(!is_power_of_two(17 * 1024));
}

#[test]
fn bencode_encodes_each_kind() {
    assert_eq!(Value::Integer(0).encode(), b"i0e".to_vec());
    assert_eq!(Value::Integer(-1).encode(), b"i-1e".to_vec());
    assert_eq!(Value::Integer(i64::MAX).encode(), b"i9223372036854775807e".to_vec());
    assert_eq!(Value::Integer(i64::MIN).encode(), b"i-9223372036854775808e".to_vec());
    assert_eq!(Value::Bytes(vec![]).encode(), b"0:".to_vec());
    assert_eq!(Value::Bytes(b"0123456789".to_vec()).encode(), b"10:0123456789".to_vec());
    assert_eq!(Value::List(vec![]).encode(), b"le".to_vec());
    assert_eq!(
        Value::List(vec![Value::Integer(1), Value::Bytes(b"a".to_vec())]).encode(),
        b"li1e1:ae".to_vec()
    );
    assert_eq!(Value::Dict(vec![]).encode(), b"de".to_vec());
    assert_eq!(
        Value::Dict(vec![
            (b"a".to_vec(), Value::List(vec![])),
            (b"b".to_vec(), Value::Dict(vec![(b"".to_vec(), Value::Integer(2))])),
        ])
        .encode(),
        b"d1:ale1:bd0:i2eee".to_vec()
    );
}

#[test]
fn bencode_decodes_what_it_encodes() {
    for text in [
        "i0e",
        "i-1e",
        "i9223372036854775807e",
        "i-9223372036854775808e",
        "0:",
        "3:abc",
        "le",
        "de",
        "li1e1:ae",
        "d1:ale1:bd0:i2eee",
        "lllleeee",
        "d1:ad1:bd1:cleeee",
    ] {
        let value = Value::decode(text.as_bytes()).unwrap();
        assert_eq!(value.encode(), text.as_bytes());
    }
}

#[test]
fn bencode_rejects_what_is_not_canonical() {
    for text in [
        "",
        "i",
        "ie",
        "i-e",
        "i-0e",
        "i00e",
        "i03e",
        "i+3e",
        "i 3e",
        "i3",
        "i9223372036854775808e",
        "i-9223372036854775809e",
        "i99999999999999999999999999e",
        "1:",
        "2:a",
        "01:a",
        "-1:a",
        "1a",
        ":a",
        "l",
        "li1e",
        "d",
        "d1:a",
        "d1:ai1e",
        "di1ei2ee",
        "d1:bi1e1:ai2ee",
        "d1:ai1e1:ai2ee",
        "d2:aai1e1:ai2ee",
        "i0ei0e",
        "lee",
        "x",
        "e",
    ] {
        assert!(Value::decode(text.as_bytes()).is_none(), "{}", text);
    }
}

fn to_bendy(value: &Value) -> bendy::value::Value<'static> {
    match value {
        Value::Integer(n) => bendy::value::Value::Integer(*n),
        Value::Bytes(b) => bendy::value::Value::Bytes(b.clone().into()),
        Value::List(items) => bendy::value::Value::List(items.iter().map(to_bendy).collect()),
        Value::Dict(entries) => bendy::value::Value::Dict(
            entries.iter().map(|(key, value)| (key.clone().into(), to_bendy(value))).collect(),
        ),
    }
}

#[test]
fn bencode_agrees_with_bendy() {
    let value = full().to_value().unwrap();
    let ours = value.encode();
    let theirs = bendy::encoding::ToBencode::to_bencode(&to_bendy(&value)).unwrap();
    assert_eq!(ours, theirs);
    let back = <bendy::value::Value as bendy::decoding::FromBencode>::from_bencode(&ours).unwrap();
    assert_eq!(back, to_bendy(&value));
}

#[test]
fn bytes_compare_in_byte_order() {
    assert_eq!(compare_bytes(b"", b""), Rank::Equal);
    assert_eq!(compare_bytes(b"", b"a"), Rank::Less);
    assert_eq!(compare_bytes(b"a", b""), Rank::Greater);
    assert_eq!(compare_bytes(b"ab", b"b"), Rank::Less);
    assert_eq!(compare_bytes(b"announce", b"announce-list"), Rank::Less);
    assert_eq!(compare_bytes(b"created by", b"creation date"), Rank::Less);
    assert_eq!(compare_bytes(b"piece length", b"pieces"), Rank::Less);
    assert_eq!(compare_bytes(&[0xff], &[0x7f, 0xff]), Rank::Greater);
}

#[test]
fn path_components() {
    assert!(is_valid_component(b"a"));
    assert!(is_valid_component(b"..."));
    assert!(is_valid_component(b".a"));
    assert!(!is_valid_component(b""));
    assert!(!is_valid_component(b"."));
    assert!(!is_valid_component(b".."));
    assert!(!is_valid_component(b"a/b"));
    assert!(!is_valid_component(b"a\\b"));
    assert!(!is_valid_component(b"a\0"));
    assert_eq!(FilePath::from_components(vec![]), Err(Error::PathComponent));
    assert_eq!(FilePath::from_components(vec![b"a".to_vec(), b"..".to_vec()]), Err(Error::PathComponent));
    assert_eq!(FilePath::empty().len(), 0);
    let p = path(&["a", "b"]);
    assert_eq!(p.len(), 2);
    assert_eq!(p.component(1), &b"b".to_vec());
    assert_eq!(p.duplicate(), p);
}

#[test]
fn paths_compare_by_component() {
    assert_eq!(path(&["a"]).compare(&path(&["a"])), Rank::Equal);
    assert_eq!(path(&["a"]).compare(&path(&["a", "b"])), Rank::Less);
    assert_eq!(path(&["a", "b"]).compare(&path(&["a"])), Rank::Greater);
    assert_eq!(path(&["a", "z"]).compare(&path(&["ab"])), Rank::Less);
    assert_eq!(path(&["a-b"]).compare(&path(&["a", "b"])), Rank::Greater);
    assert_eq!(path(&["d", "e"]).compare(&path(&["c"])), Rank::Greater);
}

fn names(entries: &[FileEntry]) -> Vec<String> {
    entries
        .iter()
        .map(|e| {
            e.path.components.iter().map(|c| String::from_utf8(c.clone()).unwrap()).collect::<Vec<_>>().join("/")
        })
        .collect()
}

#[test]
fn file_orders() {
    assert_eq!(FileOrder::parse("alphabetical-asc"), Ok(FileOrder::AlphabeticalAsc));
    assert_eq!(FileOrder::parse("Alphabetical-Desc"), Ok(FileOrder::AlphabeticalDesc));
    assert_eq!(FileOrder::parse("SIZE-ASC"), Ok(FileOrder::SizeAsc));
    assert_eq!(FileOrder::parse("size-desc"), Ok(FileOrder::SizeDesc));
    assert_eq!(FileOrder::parse("size"), Err(malformed(Malformed::FileOrder)));
    assert_eq!(FileOrder::SizeDesc.name(), "size-desc");
    let entries = vec![entry(&["c"], 3), entry(&["d", "e"], 1), entry(&["b"], 1), entry(&["a"], 2)];
    assert_eq!(names(&sort(&entries, FileOrder::AlphabeticalAsc).unwrap()), ["a", "b", "c", "d/e"]);
    assert_eq!(names(&sort(&entries, FileOrder::AlphabeticalDesc).unwrap()), ["d/e", "c", "b", "a"]);
    assert_eq!(names(&sort(&entries, FileOrder::SizeAsc).unwrap()), ["b", "d/e", "a", "c"]);
    assert_eq!(names(&sort(&entries, FileOrder::SizeDesc).unwrap()), ["c", "a", "b", "d/e"]);
    assert_eq!(FileOrder::SizeAsc.rank(&entries[1], &entries[2]), Rank::Greater);
    assert_eq!(FileOrder::SizeDesc.rank(&entries[0], &entries[3]), Rank::Less);
}

#[test]
fn sort_refuses_a_path_that_stands_twice() {
    let entries = vec![entry(&["a"], 3), entry(&["b"], 1), entry(&["a"], 7)];
    for order in [FileOrder::AlphabeticalAsc, FileOrder::AlphabeticalDesc, FileOrder::SizeAsc, FileOrder::SizeDesc] {
        assert_eq!(sort(&entries, order), Err(Error::PathComponent));
    }
    assert_eq!(sort(&Vec::new(), FileOrder::SizeAsc), Ok(Vec::new()));
}

#[test]
fn host_and_port() {
    let node = HostPort::parse("router.example.com:1337").unwrap();
    assert_eq!(node, HostPort { host: "router.example.com".to_string(), port: 1337 });
    assert_eq!(HostPort::parse("EXAMPLE.com:1").unwrap().host, "example.com");
    assert_eq!(HostPort::parse("203.0.113.0:2290").unwrap().host, "203.0.113.0");
    assert_eq!(HostPort::parse("[2001:db8::1]:8832").unwrap(), HostPort { host: "[2001:db8::1]".to_string(), port: 8832 });
    assert_eq!(HostPort::parse("a:00080").unwrap().port, 80);
    assert_eq!(HostPort::parse("a:65535").unwrap().port, 65535);
    assert_eq!(HostPort::parse("a:65536"), Err(malformed(Malformed::Port)));
    assert_eq!(HostPort::parse("a:99999999999999999999"), Err(malformed(Malformed::Port)));
    assert_eq!(HostPort::parse("blah"), Err(malformed(Malformed::PortMissing)));
    assert_eq!(HostPort::parse("a:"), Err(malformed(Malformed::PortMissing)));
    assert_eq!(HostPort::parse("a:b"), Err(malformed(Malformed::PortMissing)));
    assert_eq!(HostPort::parse("a:+1"), Err(malformed(Malformed::PortMissing)));
    assert_eq!(HostPort::parse(""), Err(malformed(Malformed::PortMissing)));
    assert_eq!(HostPort::parse(":80"), Err(malformed(Malformed::Host)));
    assert_eq!(HostPort::parse("[::1:80"), Err(malformed(Malformed::Host)));
    assert_eq!(HostPort::parse(":99999"), Err(malformed(Malformed::Host)));
}

#[test]
fn host_and_port_parts() {
    let parts = split_host_port("a:b:70000").unwrap();
    assert_eq!(parts.host, "a:b");
    assert_eq!(parts.port, PortText::TooLarge);
    let parts = split_host_port("é:7").unwrap();
    assert_eq!(parts.host, "é");
    assert_eq!(parts.port, PortText::InRange(7));
    assert!(split_host_port("a").is_none());
    assert_eq!(
        HostPort::from_parts(Some("h".to_string()), PortText::InRange(1)),
        Ok(HostPort { host: "h".to_string(), port: 1 })
    );
    assert_eq!(HostPort::from_parts(None, PortText::TooLarge), Err(malformed(Malformed::Host)));
    assert_eq!(HostPort::from_parts(Some("h".to_string()), PortText::TooLarge), Err(malformed(Malformed::Port)));
}

#[test]
fn text_helpers() {
    assert_eq!(split_text("", ','), [""]);
    assert_eq!(split_text(",", ','), ["", ""]);
    assert_eq!(split_text("a,b,,c", ','), ["a", "b", "", "c"]);
    assert_eq!(split_text("é,ü", ','), ["é", "ü"]);
    assert!(is_name("KiB", "kib"));
    assert!(!is_name("kibi", "kib"));
    assert!(!is_name("K\u{212a}", "kk"));
}

#[test]
fn globs_decide_in_order() {
    assert!(decide(&vec![]));
    assert!(!decide(&vec![(true, false)]));
    assert!(decide(&vec![(true, true)]));
    assert!(decide(&vec![(false, false)]));
    assert!(!decide(&vec![(false, true)]));
    assert!(decide(&vec![(false, true), (true, true), (false, false)]));
    assert!(!decide(&vec![(false, true), (true, true), (false, true)]));
    assert!(!decide(&vec![(false, true), (true, false), (false, false)]));
}

#[test]
fn walker_classifies_entries() {
    let walker = Walker::new();
    assert_eq!(walker.classify(&listed("a", EntryKind::File, 1)), Verdict::Include);
    assert_eq!(walker.classify(&listed("a", EntryKind::Directory, 0)), Verdict::Descend);
    assert_eq!(walker.classify(&listed("a", EntryKind::Other, 0)), Verdict::Skip);
    assert_eq!(walker.classify(&listed(".a", EntryKind::File, 1)), Verdict::Skip);
    assert_eq!(walker.classify(&listed("Thumbs.db", EntryKind::File, 1)), Verdict::Skip);
    assert_eq!(walker.classify(&listed("Desktop.ini", EntryKind::Directory, 1)), Verdict::Skip);
    assert_eq!(walker.classify(&listed("thumbs.db", EntryKind::File, 1)), Verdict::Include);
    let mut link = listed("a", EntryKind::File, 1);
    link.symlink = true;
    assert_eq!(walker.classify(&link), Verdict::Skip);
    let mut marked = listed("a", EntryKind::File, 1);
    marked.hidden = true;
    assert_eq!(walker.classify(&marked), Verdict::Skip);
    let walker = Walker::new().include_hidden(true).include_junk(true).follow_symlinks(true);
    assert_eq!(walker.classify(&link), Verdict::Include);
    assert_eq!(walker.classify(&marked), Verdict::Include);
    assert_eq!(walker.classify(&listed(".a", EntryKind::Directory, 1)), Verdict::Descend);
    assert_eq!(walker.classify(&listed("Thumbs.db", EntryKind::File, 1)), Verdict::Include);
}

#[test]
fn walker_walks_depth_first_and_sorts() {
    let mut walker = Walker::new().file_order(FileOrder::SizeDesc);
    walker.begin(&directory()).unwrap();
    assert_eq!(walker.next_directory(), Some(vec![]));
    walker
        .feed(&vec![
            listed("z", EntryKind::File, 1),
            listed("d", EntryKind::Directory, 0),
            listed("e", EntryKind::Directory, 0),
            listed("s", EntryKind::Other, 9),
        ])
        .unwrap();
    assert_eq!(walker.next_directory(), Some(vec![b"e".to_vec()]));
    walker.feed(&vec![listed("x", EntryKind::File, 5)]).unwrap();
    assert_eq!(walker.next_directory(), Some(vec![b"d".to_vec()]));
    walker.feed(&vec![listed("y", EntryKind::File, 5), listed("deep", EntryKind::Directory, 0)]).unwrap();
    assert_eq!(walker.next_directory(), Some(vec![b"d".to_vec(), b"deep".to_vec()]));
    walker.feed(&vec![]).unwrap();
    assert_eq!(walker.next_directory(), None);
    walker.feed(&vec![listed("late", EntryKind::File, 1)]).unwrap();
    let files = walker.files().unwrap();
    assert!(!files.single);
    assert_eq!(files.total_size(), Bytes(11));
    assert_eq!(files.len(), 3);
    assert_eq!(names(&files.entries), ["d/y", "e/x", "z"]);
}

#[test]
fn walker_roots() {
    let mut walker = Walker::new();
    let file = Root { symlink: false, kind: EntryKind::File, length: 7, identity: vec![] };
    walker.begin(&file).unwrap();
    assert_eq!(walker.next_directory(), None);
    assert_eq!(walker.files().unwrap(), Files::file(Bytes(7)));

    let mut walker = Walker::new();
    let other = Root { symlink: false, kind: EntryKind::Other, length: 7, identity: vec![] };
    walker.begin(&other).unwrap();
    assert_eq!(walker.next_directory(), None);
    let files = walker.files().unwrap();
    assert!(!files.single);
    assert_eq!(files.len(), 0);

    let mut walker = Walker::new();
    let link = Root { symlink: true, kind: EntryKind::File, length: 7, identity: vec![] };
    assert_eq!(walker.begin(&link), Err(Error::SymlinkRoot));
    let mut walker = Walker::new().follow_symlinks(true);
    walker.begin(&link).unwrap();
    assert_eq!(walker.files().unwrap(), Files::file(Bytes(7)));
}

#[test]
fn walker_failures() {
    assert!(matches!(Walker::new().globs(&vec!["[".to_string()]), Err(Error::GlobParse)));
    assert!(matches!(Walker::new().globs(&vec!["a".to_string(), "!{a".to_string()]), Err(Error::GlobParse)));
    assert!(Walker::new().globs(&vec!["!".to_string(), "".to_string(), "**/*.rs".to_string()]).is_ok());

    let mut walker = Walker::new();
    walker.begin(&directory()).unwrap();
    assert_eq!(walker.feed(&vec![listed("a\\b", EntryKind::File, 1)]), Err(Error::PathComponent));

    let mut walker = Walker::new();
    walker.begin(&directory()).unwrap();
    assert_eq!(
        walker.feed(&vec![listed("a", EntryKind::File, u64::MAX), listed("b", EntryKind::File, 1)]),
        Err(Error::IntegerRange)
    );

    let mut walker = Walker::new();
    walker.begin(&directory()).unwrap();
    walker.feed(&vec![listed("a", EntryKind::File, 1), listed("a", EntryKind::File, 2)]).unwrap();
    assert_eq!(walker.files(), Err(Error::PathComponent));
}

#[test]
fn walker_finds_symlink_cycles() {
    let mut looped = listed("loop", EntryKind::Directory, 0);
    looped.symlink = true;
    looped.identity = b"/root".to_vec();

    let mut walker = Walker::new();
    walker.begin(&directory()).unwrap();
    walker.feed(&vec![looped.duplicate_for_test()]).unwrap();
    assert_eq!(walker.next_directory(), None);

    let mut walker = Walker::new().follow_symlinks(true);
    walker.begin(&directory()).unwrap();
    assert_eq!(walker.feed(&vec![looped.duplicate_for_test()]), Err(Error::SymlinkCycle));

    let mut walker = Walker::new().follow_symlinks(true);
    walker.begin(&directory()).unwrap();
    let mut inner = listed("d", EntryKind::Directory, 0);
    inner.identity = b"/root/d".to_vec();
    walker.feed(&vec![inner]).unwrap();
    let mut back = listed("up", EntryKind::Directory, 0);
    back.symlink = true;
    back.identity = b"/root/d".to_vec();
    assert_eq!(walker.feed(&vec![back]), Err(Error::SymlinkCycle));

    let mut walker = Walker::new().follow_symlinks(true);
    walker.begin(&directory()).unwrap();
    let mut first = listed("d", EntryKind::Directory, 0);
    first.identity = b"/root/d".to_vec();
    let mut second = listed("e", EntryKind::Directory, 0);
    second.symlink = true;
    second.identity = b"/root/d".to_vec();
    walker.feed(&vec![first, second]).unwrap();
}

trait DuplicateForTest {
    fn duplicate_for_test(&self) -> DirEntry;
}

impl DuplicateForTest for DirEntry {
    fn duplicate_for_test(&self) -> DirEntry {
        DirEntry {
            name: self.name.clone(),
            symlink: self.symlink,
            kind: self.kind,
            hidden: self.hidden,
            length: self.length,
            identity: self.identity.clone(),
        }
    }
}

#[test]
fn walker_matches_globs_against_the_whole_path() {
    let mut walker = Walker::new().globs(&vec!["d/*.txt".to_string()]).unwrap();
    walker.begin(&directory()).unwrap();
    walker.feed(&vec![listed("a.txt", EntryKind::File, 1), listed("d", EntryKind::Directory, 0)]).unwrap();
    walker.feed(&vec![listed("b.txt", EntryKind::File, 1), listed("b.bin", EntryKind::File, 1)]).unwrap();
    assert_eq!(names(&walker.files().unwrap().entries), ["d/b.txt"]);
}

fn sha1(data: &[u8]) -> [u8; 20] {
    sha1::Sha1::from(data).digest().bytes()
}

#[test]
fn digests_are_those_of_the_crates() {
    let files = Files::file(Bytes(3));
    let (mode, pieces) = Hasher::hash(&files, true, 16384, &vec![b"abc".to_vec()]).unwrap();
    assert_eq!(
        pieces.get(0).to_vec(),
        [
            0xa9, 0x99, 0x3e, 0x36, 0x47, 0x06, 0x81, 0x6a, 0xba, 0x3e, 0x25, 0x71, 0x78, 0x50, 0xc2, 0x6c, 0x9c,
            0xd0, 0xd8, 0x9d
        ]
    );
    assert_eq!(
        mode,
        Mode::Single {
            length: Bytes(3),
            md5sum: Some([
                0x90, 0x01, 0x50, 0x98, 0x3c, 0xd2, 0x4f, 0xb0, 0xd6, 0x96, 0x3f, 0x7d, 0x28, 0xe1, 0x7f, 0x72
            ])
        }
    );
}

#[test]
fn hasher_cuts_pieces_across_files() {
    let files = Files {
        single: false,
        entries: vec![entry(&["a"], 3), entry(&["b"], 0), entry(&["c"], 6)],
        total_size: Bytes(9),
    };
    let contents = vec![b"abc".to_vec(), b"".to_vec(), b"defghi".to_vec()];
    let (mode, pieces) = Hasher::hash(&files, false, 4, &contents).unwrap();
    assert_eq!(pieces.count(), 3);
    assert_eq!(pieces.get(0), sha1(b"abcd"));
    assert_eq!(pieces.get(1), sha1(b"efgh"));
    assert_eq!(pieces.get(2), sha1(b"i"));
    assert_eq!(
        mode,
        Mode::Multiple {
            files: vec![
                FileInfo { path: path(&["a"]), length: Bytes(3), md5sum: None },
                FileInfo { path: path(&["b"]), length: Bytes(0), md5sum: None },
                FileInfo { path: path(&["c"]), length: Bytes(6), md5sum: None },
            ]
        }
    );
    let (_, pieces) = Hasher::hash(&files, false, 3, &contents).unwrap();
    assert_eq!(pieces.count(), 3);
    assert_eq!(pieces.get(2), sha1(b"ghi"));
    let (_, pieces) = Hasher::hash(&files, false, 9, &contents).unwrap();
    assert_eq!(pieces.count(), 1);
    let (_, pieces) = Hasher::hash(&files, false, 10, &contents).unwrap();
    assert_eq!(pieces.count(), 1);
    assert_eq!(pieces.get(0), sha1(b"abcdefghi"));
    let (_, pieces) = Hasher::hash(&files, false, 1, &contents).unwrap();
    assert_eq!(pieces.count(), 9);
}

#[test]
fn hasher_failures() {
    let files = Files::file(Bytes(3));
    assert_eq!(Hasher::hash(&files, false, 0, &vec![b"abc".to_vec()]), Err(Error::PieceLengthZero));
    assert_eq!(Hasher::hash(&files, false, 4, &vec![b"ab".to_vec()]), Err(Error::Filesystem));
    assert_eq!(Hasher::hash(&files, false, 4, &vec![]), Err(Error::Filesystem));
    assert_eq!(Hasher::hash(&files, false, 0, &vec![]), Err(Error::PieceLengthZero));
    assert!(matches!(Hasher::new(true, 0), Err(Error::PieceLengthZero)));
}

#[test]
fn hasher_streams_in_any_chunks() {
    let data: Vec<u8> = (0..100u8).collect();
    for chunk in [1, 2, 7, 16, 33, 100] {
        let mut hasher = Hasher::new(true, 16).unwrap();
        for part in data.chunks(chunk) {
            hasher.update(part);
        }
        hasher.finish_file(FilePath::empty());
        let (mode, pieces) = hasher.finish(true);
        assert_eq!(pieces.count(), 7);
        for i in 0..6 {
            assert_eq!(pieces.get(i), sha1(&data[16 * i..16 * i + 16]));
        }
        assert_eq!(pieces.get(6), sha1(&data[96..]));
        assert_eq!(mode, Mode::Single { length: Bytes(100), md5sum: Some(md5::compute(&data).0) });
    }
}

#[test]
fn piece_lists() {
    assert!(PieceList::from_bytes(vec![0; 19]).is_none());
    assert!(PieceList::from_bytes(vec![0; 21]).is_none());
    let list = PieceList::from_bytes((0..40u8).collect()).unwrap();
    assert_eq!(list.count(), 2);
    assert_eq!(list.get(1).to_vec(), (20..40u8).collect::<Vec<u8>>());
    assert_eq!(PieceList::new().count(), 0);
}

#[test]
fn metainfo_serializes_keys_in_order() {
    assert_eq!(
        String::from_utf8(small().serialize().unwrap()).unwrap(),
        "d8:announce9:http://t/4:infod6:lengthi0e4:name1:n12:piece lengthi4e6:pieces0:ee"
    );
    let text = String::from_utf8_lossy(&full().serialize().unwrap()).into_owned();
    assert_eq!(
        text,
        "d8:announce8:udp://a/13:announce-listll7:udp://a7:udp://belee7:comment6:ça va10:created by2:me\
         13:creation datei12e8:encoding5:UTF-84:infod5:filesld6:lengthi3e6:md5sum32:abababababababababababababababab\
         4:pathl1:a1:beed6:lengthi0e4:pathl1:ceee4:name3:dir12:piece lengthi16384e6:pieces20:\u{7}\u{7}\u{7}\u{7}\
         \u{7}\u{7}\u{7}\u{7}\u{7}\u{7}\u{7}\u{7}\u{7}\u{7}\u{7}\u{7}\u{7}\u{7}\u{7}\u{7}7:privatei1e6:source3:srce\
         5:nodesll5:x.orgi65535eeee"
    );
}

#[test]
fn metainfo_reads_back_what_it_wrote() {
    for metainfo in [small(), full()] {
        let bytes = metainfo.serialize().unwrap();
        assert_eq!(Metainfo::deserialize(&bytes), Some(metainfo));
    }
    let mut with_md5 = small();
    with_md5.info.mode = Mode::Single { length: Bytes(9), md5sum: Some([0x0f; 16]) };
    assert_eq!(Metainfo::deserialize(&with_md5.serialize().unwrap()), Some(with_md5));
}

#[test]
fn metainfo_read_back_is_strict() {
    for text in [
        "de",
        "le",
        "d4:infod6:lengthi0e4:name1:n12:piece lengthi4e6:pieces0:e5:extrai1ee",
        "d4:infod6:lengthi0e4:name1:n12:piece lengthi4e6:pieces1:xee",
        "d4:infod6:lengthi0e4:name1:n12:piece lengthi4e6:pieces0:7:privatei0eee",
        "d4:infod6:lengthi0e4:name1:n12:piece lengthi4e6:pieces0:7:privatei2eee",
        "d4:infod6:lengthi-1e4:name1:n12:piece lengthi4e6:pieces0:ee",
        "d4:infod5:filesle6:lengthi0e4:name1:n12:piece lengthi4e6:pieces0:ee",
        "d4:infod4:name1:n12:piece lengthi4e6:pieces0:ee",
        "d4:infod6:lengthi0e6:md5sum2:ab4:name1:n12:piece lengthi4e6:pieces0:ee",
        "d4:infod6:lengthi0e6:md5sum32:ABABABABABABABABABABABABABABABAB4:name1:n12:piece lengthi4e6:pieces0:ee",
        "d4:infod6:lengthi0e4:name1:\u{0}12:piece lengthi4e6:pieces0:e5:nodesll1:ai65536eeee",
        "d4:infod6:lengthi0e4:name1:n12:piece lengthi4e6:pieces0:e5:nodesll1:aeee",
        "d8:announcei1e4:infod6:lengthi0e4:name1:n12:piece lengthi4e6:pieces0:ee",
    ] {
        assert!(Metainfo::deserialize(text.as_bytes()).is_none(), "{}", text);
    }
    assert!(Metainfo::deserialize(b"d4:infod6:lengthi0e4:name1:\xff12:piece lengthi4e6:pieces0:ee").is_none());
    let read = Metainfo::deserialize(b"d4:infod6:lengthi0e4:name1:n12:piece lengthi4e6:pieces0:ee").unwrap();
    assert_eq!(read.announce, None);
    assert_eq!(read.info.name, "n");
}

#[test]
fn metainfo_integers_must_fit() {
    let mut metainfo = small();
    metainfo.creation_date = Some(i64::MAX as u64);
    assert!(metainfo.serialize().is_ok());
    metainfo.creation_date = Some(i64::MAX as u64 + 1);
    assert_eq!(metainfo.serialize(), Err(Error::IntegerRange));
    assert_eq!(metainfo.info_range(), Err(Error::IntegerRange));
    assert!(metainfo.infohash().is_ok());
    let mut metainfo = small();
    metainfo.info.piece_length = Bytes(u64::MAX);
    assert_eq!(metainfo.serialize(), Err(Error::IntegerRange));
    assert_eq!(metainfo.infohash(), Err(Error::IntegerRange));
    let mut metainfo = full();
    if let Mode::Multiple { files } = &mut metainfo.info.mode {
        files[1].length = Bytes(1 << 63);
    }
    assert_eq!(metainfo.to_value().err(), Some(Error::IntegerRange));
}

#[test]
fn infohash_is_the_digest_of_the_info_range() {
    for metainfo in [small(), full()] {
        let bytes = metainfo.serialize().unwrap();
        let (start, end) = metainfo.info_range().unwrap();
        assert_eq!(&bytes[start - 6..start], b"4:info");
        assert_eq!(bytes[start], b'd');
        assert_eq!(bytes[start..end].to_vec(), metainfo.info.to_value().unwrap().encode());
        assert_eq!(metainfo.infohash().unwrap(), sha1(&bytes[start..end]));
        assert_eq!(metainfo.info.infohash().unwrap(), metainfo.infohash().unwrap());
    }
    assert_eq!(small().info_range().unwrap(), (28, 78));
}

#[test]
fn magnet_links() {
    let mut link = MagnetLink::with_infohash([0xab; 20]);
    assert_eq!(link.to_url().unwrap(), "magnet:?xt=urn:btih:abababababababababababababababababababab");
    link.name = Some("a b".to_string());
    link.trackers = vec!["http://t/x?y=1".to_string()];
    link.add_peer(HostPort { host: "[::1]".to_string(), port: 0 });
    link.add_peer(HostPort { host: "h".to_string(), port: 65535 });
    assert_eq!(
        String::from_utf8(link.query()).unwrap(),
        "xt=urn:btih:abababababababababababababababababababab&dn=a b&tr=http://t/x?y=1&x.pe=[::1]:0&x.pe=h:65535"
    );
    assert_eq!(
        link.to_url().unwrap(),
        "magnet:?xt=urn:btih:abababababababababababababababababababab&dn=a%20b&tr=http://t/x?y=1&x.pe=[::1]:0&x.pe=h:65535"
    );
}

#[test]
fn magnet_link_of_a_metainfo() {
    let mut metainfo = full();
    metainfo.announce = Some("http://a/".to_string());
    metainfo.announce_list = Some(vec![
        vec!["http://a".to_string(), "HTTP://B".to_string()],
        vec!["http://b/".to_string(), "udp://c".to_string(), "http://a".to_string()],
    ]);
    assert_eq!(
        MagnetLink::tracker_texts(&metainfo),
        ["http://a/", "http://a", "HTTP://B", "http://b/", "udp://c", "http://a"]
    );
    let link = MagnetLink::from_metainfo(&metainfo).unwrap();
    assert_eq!(link.infohash, metainfo.infohash().unwrap());
    assert_eq!(link.name.as_deref(), Some("dir"));
    assert_eq!(link.trackers, ["http://a/", "http://b/", "udp://c"]);
    assert!(link.peers.is_empty());
    metainfo.announce_list = Some(vec![vec!["nonsense".to_string()]]);
    assert_eq!(MagnetLink::from_metainfo(&metainfo), Err(Error::AnnounceUrlParse));
    metainfo.info.piece_length = Bytes(u64::MAX);
    assert_eq!(MagnetLink::from_metainfo(&metainfo), Err(Error::IntegerRange));
    assert_eq!(
        without_repeats(&vec!["a".to_string(), "b".to_string(), "a".to_string(), "a".to_string(), "c".to_string()]),
        ["a", "b", "c"]
    );
}

#[test]
fn output_targets() {
    assert_eq!(OutputTarget::parse("-"), OutputTarget::Stdout);
    assert_eq!(OutputTarget::parse("--"), OutputTarget::File("--".to_string()));
    assert_eq!(OutputTarget::parse(""), OutputTarget::File("".to_string()));
    assert_eq!(OutputTarget::parse("x.torrent"), OutputTarget::File("x.torrent".to_string()));
}

#[test]
fn create_plans_or_fails_in_order() {
    let mut create = options();
    create.announce = Some("bar".to_string());
    create.announce_tiers = vec!["http://a,b".to_string()];
    create.private = true;
    create.globs = vec!["[".to_string()];
    assert!(matches!(create.prepare(), Err(Error::CliParse { what: Malformed::Announce })));
    create.announce = None;
    assert!(matches!(create.prepare(), Err(Error::AnnounceUrlParse)));
    create.announce_tiers = vec!["http://a,udp://b:1/x".to_string()];
    assert!(matches!(create.prepare(), Err(Error::PrivateTrackerless)));
    create.allowed_lints = vec![Lint::PrivateTrackerless];
    assert!(matches!(create.prepare(), Err(Error::GlobParse)));
    create.globs = vec!["!*.tmp".to_string()];
    let plan = create.prepare().unwrap();
    assert_eq!(plan.announce, None);
    assert_eq!(plan.announce_list, Some(vec![vec!["http://a".to_string(), "udp://b:1/x".to_string()]]));
    assert!(plan.linter.is_allowed(Lint::PrivateTrackerless));
    assert!(plan.linter.is_denied(Lint::SmallPieceLength));
    assert_eq!(Create::tier("http://a,,http://b"), Err(Error::AnnounceUrlParse));
    assert_eq!(Create::tier(""), Err(Error::AnnounceUrlParse));
}

#[test]
fn create_settles_or_fails_in_order() {
    let mut create = options();
    let linter = Linter::new();
    create.piece_length = Some(Bytes(0));
    assert!(matches!(create.settle(&linter, Bytes(1), None), Err(Error::PieceLengthZero)));
    create.piece_length = Some(Bytes(3 << 14));
    assert!(matches!(create.settle(&linter, Bytes(1), None), Err(Error::PieceLengthUneven { .. })));
    create.piece_length = Some(Bytes(1 << 13));
    assert!(matches!(create.settle(&linter, Bytes(1), None), Err(Error::PieceLengthSmall)));
    create.piece_length = None;
    assert!(matches!(create.settle(&linter, Bytes(1), None), Err(Error::FilenameExtract)));
    assert!(matches!(create.settle(&linter, Bytes(1), Some(b"\xff")), Err(Error::FilenameDecode)));
    create.name = Some("given".to_string());
    assert!(matches!(create.settle(&linter, Bytes(1), None), Err(Error::FilenameExtract)));
    let settled = create.settle(&linter, Bytes(2049 * 16384), Some(b"\xff")).unwrap();
    assert_eq!(settled.name, "given");
    assert_eq!(settled.piece_length, Bytes(32768));
    assert_eq!(settled.destination, Destination::BesideInput("given.torrent".to_string()));
    create.name = None;
    create.output = Some(OutputTarget::File("out/x".to_string()));
    let settled = create.settle(&linter, Bytes(0), Some("é".as_bytes())).unwrap();
    assert_eq!(settled.name, "é");
    assert_eq!(settled.destination, Destination::File("out/x".to_string()));
    create.output = Some(OutputTarget::Stdout);
    assert_eq!(create.settle(&linter, Bytes(0), Some(b"f")).unwrap().destination, Destination::Stdout);
}

#[test]
fn create_small_decisions() {
    let mut create = options();
    assert_eq!(create.check_output(false), Ok(()));
    assert_eq!(create.check_output(true), Err(Error::OutputExists));
    create.force = true;
    assert_eq!(create.check_output(true), Ok(()));
    assert_eq!(create.creation_date(5), Some(5));
    create.no_creation_date = true;
    assert_eq!(create.creation_date(5), None);
    assert!(matches!(create.hasher(Bytes(0)), Err(Error::PieceLengthZero)));
    assert!(matches!(create.hasher(Bytes(1 << 32)), Err(Error::PieceLengthTooLarge { .. })));
    assert!(create.hasher(Bytes((1 << 32) - 1)).is_ok());
    create.allowed_lints = vec![Lint::SmallPieceLength, Lint::SmallPieceLength];
    let linter = create.linter();
    assert!(linter.is_allowed(Lint::SmallPieceLength));
    assert!(linter.is_denied(Lint::UnevenPieceLength));
}

fn assemble(create: &Create, now: u64) -> Metainfo {
    create.metainfo(
        Some("http://a/".to_string()),
        None,
        "n".to_string(),
        Bytes(16384),
        Mode::Single { length: Bytes(0), md5sum: None },
        PieceList::new(),
        now,
    )
}

#[test]
fn runs_differ_in_the_creation_date_alone() {
    let mut create = options();
    create.comment = Some("c".to_string());
    create.source = Some("s".to_string());
    create.private = true;
    create.dht_nodes = vec![HostPort { host: "h".to_string(), port: 1 }];
    let first = assemble(&create, 1);
    let mut second = assemble(&create, 2);
    assert_ne!(first, second);
    assert_eq!(second.creation_date, Some(2));
    second.creation_date = Some(1);
    assert_eq!(first, second);
    assert_eq!(first.encoding.as_deref(), Some("UTF-8"));
    assert_eq!(first.info.private, Some(true));
    assert_eq!(first.info.source.as_deref(), Some("s"));
    assert_eq!(first.nodes, Some(vec![HostPort { host: "h".to_string(), port: 1 }]));
    create.no_creation_date = true;
    create.no_created_by = true;
    assert_eq!(assemble(&create, 1), assemble(&create, 2));
    assert_eq!(assemble(&create, 1).serialize(), assemble(&create, 2).serialize());
    assert_eq!(assemble(&create, 1).created_by, None);
}

#[test]
fn no_order_is_alphabetical_ascending() {
    let listing = vec![listed("b", EntryKind::File, 1), listed("a", EntryKind::File, 2), listed("c", EntryKind::File, 0)];
    let mut results = Vec::new();
    for order in [None, Some(FileOrder::AlphabeticalAsc)] {
        let mut create = options();
        create.order = order;
        let mut walker = create.walker().unwrap();
        walker.begin(&directory()).unwrap();
        walker.feed(&listing).unwrap();
        results.push(walker.files().unwrap());
    }
    assert_eq!(results[0], results[1]);
    assert_eq!(names(&results[0].entries), ["a", "b", "c"]);
}

#[test]
fn piece_count_is_the_ceiling() {
    for (total, piece_length, count) in [(0usize, 4u32, 0usize), (1, 4, 1), (4, 4, 1), (5, 4, 2), (8, 4, 2), (9, 4, 3), (3, 1, 3)] {
        let files = Files::file(Bytes(total as u64));
        let (_, pieces) = Hasher::hash(&files, false, piece_length, &vec![vec![1u8; total]]).unwrap();
        assert_eq!(pieces.count(), count);
        assert_eq!(pieces.bytes.len(), 20 * count);
    }
}

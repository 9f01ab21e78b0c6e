use torrent_create::bytes::Bytes;
use torrent_create::create::Create;
use torrent_create::create_step;
use torrent_create::create_step::CreateStep;
use torrent_create::create::Destination;
use torrent_create::create::OutputTarget;
use torrent_create::error::Error;
use torrent_create::error::Malformed;
use torrent_create::file_order::FileOrder;
use torrent_create::file_path::FilePath;
use torrent_create::hasher::Hasher;
use torrent_create::lint::Lint;
use torrent_create::magnet::MagnetLink;
use torrent_create::metainfo::FileInfo;
use torrent_create::metainfo::HostPort;
use torrent_create::metainfo::Metainfo;
use torrent_create::metainfo::Mode;
use torrent_create::metainfo::PieceList;
use torrent_create::walker::DirEntry;
use torrent_create::walker::EntryKind;
use torrent_create::walker::Root;

/// A node of a file system that lives in memory.
#[derive(Clone, Debug)]
enum Node {
    File { content: Vec<u8>, hidden: bool },
    Dir { entries: Vec<(String, Node)>, hidden: bool },
    Link { target: String },
}

fn file(content: &str) -> Node {
    Node::File { content: content.as_bytes().to_vec(), hidden: false }
}

fn dir(entries: Vec<(&str, Node)>) -> Node {
    Node::Dir {
        entries: entries.into_iter().map(|(name, node)| (name.to_string(), node)).collect(),
        hidden: false,
    }
}

fn link(target: &str) -> Node {
    Node::Link { target: target.to_string() }
}

fn hidden(node: Node) -> Node {
    match node {
        Node::File { content, .. } => Node::File { content, hidden: true },
        Node::Dir { entries, .. } => Node::Dir { entries, hidden: true },
        other => other,
    }
}

/// The components of `path`, taken from the directory `cwd`, without `.` and `..`.
fn clean(cwd: &[String], path: &str) -> Vec<String> {
    let mut out: Vec<String> = if path.starts_with('/') { Vec::new() } else { cwd.to_vec() };
    for part in path.split('/') {
        if part.is_empty() || part == "." {
            continue;
        }
        if part == ".." {
            out.pop();
        } else {
            out.push(part.to_string());
        }
    }
    out
}

/// The node at `path`, links left as they are.
fn get<'a>(root: &'a Node, path: &[String]) -> Option<&'a Node> {
    let mut node = root;
    for part in path {
        match node {
            Node::Dir { entries, .. } => {
                node = &entries.iter().find(|(name, _)| name == part)?.1;
            }
            _ => return None,
        }
    }
    Some(node)
}

/// The node that `path` leads to, and where it lies, every link followed.
fn resolve<'a>(root: &'a Node, path: &[String], depth: usize) -> Option<(Vec<String>, &'a Node)> {
    if depth > 40 {
        return None;
    }
    let mut at: Vec<String> = Vec::new();
    let mut node = root;
    for part in path {
        match node {
            Node::Dir { entries, .. } => {
                let next = &entries.iter().find(|(name, _)| name == part)?.1;
                at.push(part.clone());
                node = next;
                if let Node::Link { target } = next {
                    let parent = &at[..at.len() - 1];
                    let (real, found) = resolve(root, &clean(parent, target), depth + 1)?;
                    at = real;
                    node = found;
                }
            }
            _ => return None,
        }
    }
    Some((at, node))
}

fn put(root: &mut Node, path: &[String], content: Vec<u8>) {
    match root {
        Node::Dir { entries, .. } => {
            if path.len() == 1 {
                entries.retain(|(name, _)| name != &path[0]);
                entries.push((path[0].clone(), Node::File { content, hidden: false }));
            } else {
                let next = &mut entries.iter_mut().find(|(name, _)| name == &path[0]).unwrap().1;
                put(next, &path[1..], content);
            }
        }
        _ => panic!("no directory to write into"),
    }
}

fn kind_of(node: Option<&Node>) -> EntryKind {
    match node {
        Some(Node::File { .. }) => EntryKind::File,
        Some(Node::Dir { .. }) => EntryKind::Directory,
        _ => EntryKind::Other,
    }
}

fn length_of(node: Option<&Node>) -> u64 {
    match node {
        Some(Node::File { content, .. }) => content.len() as u64,
        _ => 0,
    }
}

fn is_hidden(node: &Node) -> bool {
    match node {
        Node::File { hidden, .. } => *hidden,
        Node::Dir { hidden, .. } => *hidden,
        Node::Link { .. } => false,
    }
}

fn identity(path: &[String]) -> Vec<u8> {
    format!("/{}", path.join("/")).into_bytes()
}

fn strings(parts: &[Vec<u8>]) -> Vec<String> {
    parts.iter().map(|part| String::from_utf8(part.clone()).unwrap()).collect()
}

fn copy_node(node: &HostPort) -> HostPort {
    HostPort { host: node.host.clone(), port: node.port }
}

fn defaults() -> Create {
    Create {
        announce: None,
        allowed_lints: Vec::new(),
        announce_tiers: Vec::new(),
        comment: None,
        dht_nodes: Vec::new(),
        dry_run: false,
        follow_symlinks: false,
        force: false,
        globs: Vec::new(),
        include_hidden: false,
        include_junk: false,
        print_magnet_link: false,
        md5sum: false,
        name: None,
        no_created_by: false,
        no_creation_date: false,
        open: false,
        order: None,
        output: None,
        peers: Vec::new(),
        piece_length: None,
        private: false,
        show: false,
        source: None,
    }
}

/// Reads the arguments of `torrent create` into options and the input path.
fn parse_args(args: &[String]) -> Result<(Create, String), Error> {
    let mut create = defaults();
    let mut input: Option<String> = None;
    let mut i = 0;
    while i < args.len() && (args[i] == "torrent" || args[i] == "create") {
        i += 1;
    }
    while i < args.len() {
        let flag = args[i].as_str();
        i += 1;
        let takes_value = matches!(
            flag,
            "--input" | "-i" | "--announce" | "-a" | "--announce-tier" | "-t" | "--comment" | "-c"
                | "--node" | "--glob" | "-g" | "--name" | "-N" | "--order" | "--output" | "-o"
                | "--peer" | "--piece-length" | "-p" | "--source" | "-s" | "--allow" | "-A"
        );
        let value = if takes_value {
            let value = args.get(i).cloned().expect("an argument lacks its value");
            i += 1;
            value
        } else {
            String::new()
        };
        match flag {
            "--input" | "-i" => input = Some(value),
            "--announce" | "-a" => create.announce = Some(value),
            "--announce-tier" | "-t" => create.announce_tiers.push(value),
            "--comment" | "-c" => create.comment = Some(value),
            "--node" => create.dht_nodes.push(HostPort::parse(&value)?),
            "--dry-run" | "-n" => create.dry_run = true,
            "--follow-symlinks" | "-F" => create.follow_symlinks = true,
            "--force" | "-f" => create.force = true,
            "--glob" | "-g" => create.globs.push(value),
            "--include-hidden" | "-h" => create.include_hidden = true,
            "--include-junk" | "-j" => create.include_junk = true,
            "--link" => create.print_magnet_link = true,
            "--md5" | "-M" => create.md5sum = true,
            "--name" | "-N" => create.name = Some(value),
            "--no-created-by" => create.no_created_by = true,
            "--no-creation-date" => create.no_creation_date = true,
            "--open" | "-O" => create.open = true,
            "--order" => create.order = Some(FileOrder::parse(&value)?),
            "--output" | "-o" => create.output = Some(OutputTarget::parse(&value)),
            "--peer" => create.peers.push(HostPort::parse(&value)?),
            "--piece-length" | "-p" => create.piece_length = Some(Bytes::parse(&value)?),
            "--private" | "-P" => create.private = true,
            "--show" | "-S" => create.show = true,
            "--source" | "-s" => create.source = Some(value),
            "--allow" | "-A" => create.allowed_lints.push(Lint::parse(&value)?),
            other => panic!("unknown argument {}", other),
        }
    }
    Ok((create, input.expect("no input was given")))
}

/// The arguments, the file system and what was written to standard output.
struct Env {
    args: Vec<String>,
    cwd: Vec<String>,
    root: Node,
    out: Vec<u8>,
    err: String,
    now: u64,
}

fn env(args: &[&str], tree: Node) -> Env {
    Env {
        args: args.iter().map(|arg| arg.to_string()).collect(),
        cwd: Vec::new(),
        root: tree,
        out: Vec::new(),
        err: String::new(),
        now: 1_600_000_000,
    }
}

fn env_in(args: &[&str], cwd: &str, tree: Node) -> Env {
    let mut env = env(args, tree);
    env.cwd = clean(&[], cwd);
    env
}

impl Env {
    fn announce(&mut self, text: String) {
        self.err.push_str(&text);
        self.err.push('\n');
    }

    fn out(&self) -> String {
        String::from_utf8(self.out.clone()).unwrap()
    }

    fn read(&self, path: &str) -> Option<Vec<u8>> {
        match get(&self.root, &clean(&self.cwd, path)) {
            Some(Node::File { content, .. }) => Some(content.clone()),
            _ => None,
        }
    }

    fn load_metainfo(&self, path: &str) -> Metainfo {
        Metainfo::deserialize(&self.read(path).expect("no such file")).expect("no metainfo")
    }

    fn list(&self, at: &[String]) -> Result<Vec<DirEntry>, Error> {
        let (real, node) = resolve(&self.root, at, 0).ok_or(Error::Filesystem)?;
        let entries = match node {
            Node::Dir { entries, .. } => entries,
            _ => return Err(Error::Filesystem),
        };
        let mut listed = Vec::new();
        for (name, node) in entries {
            let mut path = real.clone();
            path.push(name.clone());
            let target = resolve(&self.root, &path, 0);
            let symlink = matches!(node, Node::Link { .. });
            listed.push(DirEntry {
                name: name.clone().into_bytes(),
                symlink,
                kind: kind_of(target.as_ref().map(|found| found.1)),
                hidden: is_hidden(node),
                length: length_of(target.as_ref().map(|found| found.1)),
                identity: identity(target.as_ref().map(|found| found.0.as_slice()).unwrap_or(&path)),
            });
        }
        Ok(listed)
    }

    fn run(&mut self) -> Result<(), Error> {
        let (create, input) = parse_args(&self.args)?;
        let input = clean(&self.cwd, &input);
        let plan = create.prepare()?;
        self.announce(CreateStep::Searching.text());
        let found = get(&self.root, &input).ok_or(Error::Filesystem)?;
        let target = resolve(&self.root, &input, 0);
        let root = Root {
            symlink: matches!(found, Node::Link { .. }),
            kind: kind_of(target.as_ref().map(|found| found.1)),
            length: length_of(target.as_ref().map(|found| found.1)),
            identity: identity(target.as_ref().map(|found| found.0.as_slice()).unwrap_or(&input)),
        };
        let mut walker = plan.walker;
        walker.begin(&root)?;
        while let Some(directory) = walker.next_directory() {
            let mut at = input.clone();
            at.extend(strings(&directory));
            let entries = self.list(&at)?;
            walker.feed(&entries)?;
        }
        let files = walker.files()?;
        let filename = input.last().map(|name| name.as_bytes());
        let settled = create.settle(&plan.linter, files.total_size(), filename)?;
        let destination = match &settled.destination {
            Destination::Stdout => None,
            Destination::File(path) => Some(clean(&self.cwd, path)),
            Destination::BesideInput(name) => {
                let mut path = input[..input.len() - 1].to_vec();
                path.push(name.clone());
                Some(path)
            }
        };
        if let Some(path) = &destination {
            create.check_output(get(&self.root, path).is_some())?;
        }
        self.announce(CreateStep::Hashing.text());
        let mut hasher = create.hasher(settled.piece_length)?;
        let mut contents = Vec::new();
        for entry in &files.entries {
            let mut at = input.clone();
            at.extend(strings(&entry.path.components));
            let content = match resolve(&self.root, &at, 0) {
                Some((_, Node::File { content, .. })) => content.clone(),
                _ => return Err(Error::Filesystem),
            };
            if content.len() as u64 != entry.length.0 {
                return Err(Error::Filesystem);
            }
            for chunk in content.chunks(3) {
                hasher.update(chunk);
            }
            hasher.finish_file(entry.path.duplicate());
            contents.push(content);
        }
        let (mode, pieces) = hasher.finish(files.single);
        let at_once =
            Hasher::hash(&files, create.md5sum, settled.piece_length.0 as u32, &contents).unwrap();
        assert_eq!(at_once.0, mode);
        assert_eq!(at_once.1, pieces);
        let output = destination.as_ref().map(|path| format!("/{}", path.join("/")));
        self.announce(CreateStep::Writing { output }.text());
        let metainfo = create.metainfo(
            plan.announce,
            plan.announce_list,
            settled.name,
            settled.piece_length,
            mode,
            pieces,
            self.now,
        );
        let bytes = metainfo.serialize()?;
        if !create.dry_run {
            match &destination {
                Some(path) => put(&mut self.root, path, bytes.clone()),
                None => self.out.extend(bytes.iter()),
            }
        }
        self.announce(create_step::done());
        let deserialized = Metainfo::deserialize(&bytes).expect("the torrent cannot be read back");
        assert_eq!(deserialized, metainfo);
        let (start, end) = metainfo.info_range()?;
        assert_eq!(
            sha1::Sha1::from(&bytes[start..end]).digest().bytes(),
            metainfo.infohash()?
        );
        if let Some(link) = create.link(&metainfo)? {
            let mut by_hand = MagnetLink::from_metainfo(&metainfo)?;
            for peer in &create.peers {
                by_hand.add_peer(copy_node(peer));
            }
            assert_eq!(link, by_hand);
            let url = link.to_url().expect("the link is no URL");
            self.out.extend(url.as_bytes());
            self.out.push(b'\n');
        }
        Ok(())
    }
}

fn pieces_of(pieces: &[&str]) -> PieceList {
    let mut list = PieceList::new();
    for piece in pieces {
        list.push(&sha1::Sha1::from(piece).digest().bytes());
    }
    list
}

fn md5_of(data: &str) -> [u8; 16] {
    md5::compute(data).0
}

fn md5_hex(hex: &str) -> [u8; 16] {
    let mut digest = [0u8; 16];
    for (i, byte) in digest.iter_mut().enumerate() {
        *byte = u8::from_str_radix(&hex[2 * i..2 * i + 2], 16).unwrap();
    }
    digest
}

fn hex_of(bytes: &[u8]) -> String {
    bytes.iter().map(|byte| format!("{:02x}", byte)).collect()
}

fn path_of(components: &[&str]) -> FilePath {
    FilePath::from_components(components.iter().map(|c| c.as_bytes().to_vec()).collect()).unwrap()
}

fn file_paths(metainfo: &Metainfo) -> Vec<String> {
    match &metainfo.info.mode {
        Mode::Single { .. } => vec![metainfo.info.name.clone()],
        Mode::Multiple { files } => {
            files.iter().map(|file| strings(&file.path.components).join("/")).collect()
        }
    }
}

fn file_count(metainfo: &Metainfo) -> usize {
    match &metainfo.info.mode {
        Mode::Single { .. } => 1,
        Mode::Multiple { files } => files.len(),
    }
}

fn is_multiple(metainfo: &Metainfo) -> bool {
    matches!(metainfo.info.mode, Mode::Multiple { .. })
}

const CREATED_BY_DEFAULT: &str = "torrent_create 0.1.0";

#[test]
fn require_input_present() {
    let mut env = env(
        &["torrent", "create", "--input", "foo", "--announce", "http://bar"],
        dir(vec![]),
    );
    assert!(matches!(env.run(), Err(Error::Filesystem { .. })));
}

#[test]
fn torrent_file_is_bencode_dict() {
    let mut env = env(
        &["torrent", "create", "--input", "foo", "--announce", "https://bar"],
        dir(vec![("foo", file(""))]),
    );
    env.run().unwrap();
    let bytes = env.read("foo.torrent").unwrap();
    let value = torrent_create::bencode::Value::decode(&bytes).unwrap();
    assert!(matches!(value, torrent_create::bencode::Value::Dict(_)));
    let other = <bendy::value::Value as bendy::decoding::FromBencode>::from_bencode(&bytes).unwrap();
    assert!(matches!(other, bendy::value::Value::Dict(_)));
}

#[test]
fn created_date_default() {
    let mut env = env(
        &["torrent", "create", "--input", "foo", "--announce", "http://bar"],
        dir(vec![("foo", file(""))]),
    );
    let now = env.now;
    env.run().unwrap();
    let metainfo = env.load_metainfo("foo.torrent");
    assert!(metainfo.creation_date.unwrap() < now + 10);
    assert!(metainfo.creation_date.unwrap() > now - 10);
}

#[test]
fn create_progress_messages() {
    let mut env = env(
        &["torrent", "create", "--input", "foo", "--announce", "http://bar"],
        dir(vec![("foo", file(""))]),
    );
    let want = format!(
        "[1/3] \u{1F9FF} Searching for files…\n[2/3] \u{1F9EE} Hashing pieces…\n[3/3] \u{1F4BE} \
         Writing metainfo to `{}`…\n\u{2728}\u{2728} Done! \u{2728}\u{2728}\n",
        "/foo.torrent"
    );
    env.run().unwrap();
    assert_eq!(env.err, want);
}

#[test]
fn progress_messages_for_standard_output() {
    let mut env = env(
        &["torrent", "create", "--input", "foo", "--output", "-"],
        dir(vec![("foo", file(""))]),
    );
    env.run().unwrap();
    assert_eq!(
        env.err,
        "[1/3] \u{1F9FF} Searching for files…\n[2/3] \u{1F9EE} Hashing pieces…\n[3/3] \u{1F4BE} \
         Writing metainfo to standard output…\n\u{2728}\u{2728} Done! \u{2728}\u{2728}\n"
    );
}

#[test]
fn output() {
    let mut env = env(
        &["torrent", "create", "--input", "foo", "--announce", "http://bar", "--no-creation-date"],
        dir(vec![("foo", dir(vec![("a", file("abc")), ("x", file("xyz")), ("h", file("hij"))]))]),
    );
    env.run().unwrap();
    assert_eq!(env.out(), "");
}

#[test]
fn show() {
    let mut env = env(
        &[
            "torrent",
            "create",
            "--input",
            "foo",
            "--announce",
            "http://bar",
            "--no-creation-date",
            "--show",
        ],
        dir(vec![("foo", dir(vec![("a", file("abc")), ("x", file("xyz")), ("h", file("hij"))]))]),
    );
    env.run().unwrap();
    let metainfo = env.load_metainfo("foo.torrent");
    assert_eq!(metainfo.info.name, "foo");
    assert_eq!(metainfo.created_by.as_deref(), Some(CREATED_BY_DEFAULT));
    assert_eq!(hex_of(&metainfo.infohash().unwrap()), "d3432a4b9d18baa413095a70f1e417021ceaca5b");
    assert_eq!(env.read("foo.torrent").unwrap().len(), 212 + CREATED_BY_DEFAULT.len());
    assert_eq!(metainfo.info.private, None);
    assert_eq!(metainfo.announce.as_deref(), Some("http://bar/"));
    assert_eq!(metainfo.info.piece_length, Bytes(16 * 1024));
    assert_eq!(metainfo.info.pieces.count(), 1);
    assert_eq!(file_paths(&metainfo), &["a", "h", "x"]);
}

#[test]
fn write_to_stdout() {
    let mut env = env(
        &["torrent", "create", "--input", "foo", "--announce", "http://bar", "--output", "-"],
        dir(vec![("foo", file(""))]),
    );
    env.run().unwrap();
    let bytes = env.out.clone();
    Metainfo::deserialize(&bytes).unwrap();
    assert_eq!(env.read("foo.torrent"), None);
}

#[test]
fn force_default() {
    let mut env = env(
        &["torrent", "create", "--input", "foo", "--announce", "http://bar"],
        dir(vec![("foo", file("")), ("foo.torrent", file("foo"))]),
    );
    assert!(matches!(env.run().unwrap_err(), Error::OutputExists));
    assert_eq!(env.read("foo.torrent"), Some(b"foo".to_vec()));
}

#[test]
fn skip_hidden() {
    let mut env = env(
        &["torrent", "create", "--input", "foo", "--announce", "http://bar"],
        dir(vec![("foo", dir(vec![(".hidden", file("abc")), ("hidden", hidden(file("abc")))]))]),
    );
    env.run().unwrap();
    let metainfo = env.load_metainfo("foo.torrent");
    assert!(matches!(&metainfo.info.mode, Mode::Multiple { files } if files.len() == 0));
    assert_eq!(metainfo.info.pieces, PieceList::new());
}

#[test]
fn include_hidden() {
    let mut env = env(
        &["torrent", "create", "--input", "foo", "--announce", "http://bar", "--include-hidden"],
        dir(vec![("foo", dir(vec![(".hidden", file("abc")), ("hidden", hidden(file("abc")))]))]),
    );
    env.run().unwrap();
    let metainfo = env.load_metainfo("foo.torrent");
    assert!(matches!(&metainfo.info.mode, Mode::Multiple { files } if files.len() == 2));
    assert_eq!(metainfo.info.pieces, pieces_of(&["abcabc"]));
}

fn symlinks() -> Node {
    dir(vec![
        ("dir-src", dir(vec![("baz", file("baz"))])),
        ("bar", file("bar")),
        ("foo", dir(vec![("bar", link("../bar")), ("dir", link("../dir-src"))])),
    ])
}

#[test]
fn skip_symlinks() {
    let mut env = env(
        &["torrent", "create", "--input", "foo", "--announce", "http://bar", "--md5"],
        symlinks(),
    );
    env.run().unwrap();
    let metainfo = env.load_metainfo("foo.torrent");
    assert!(matches!(&metainfo.info.mode, Mode::Multiple { files } if files.is_empty()));
    assert_eq!(metainfo.info.pieces, PieceList::new());
}

#[test]
fn follow_symlinks() {
    let mut env = env(
        &["torrent", "create", "--input", "foo", "--announce", "http://bar", "--follow-symlinks", "--md5"],
        symlinks(),
    );
    env.run().unwrap();
    let metainfo = env.load_metainfo("foo.torrent");
    let mut pieces = PieceList::new();
    pieces.push(&sha1::Sha1::from("barbaz").digest().bytes());
    assert_eq!(metainfo.info.pieces, pieces);
    match metainfo.info.mode {
        Mode::Multiple { files } => {
            assert_eq!(
                files,
                &[
                    FileInfo {
                        length: Bytes(3),
                        md5sum: Some(md5_hex("37b51d194a7513e45b56f6524f2d51f2")),
                        path: path_of(&["bar"]),
                    },
                    FileInfo {
                        length: Bytes(3),
                        md5sum: Some(md5_hex("73feffa4b7f6bb68e44cf984c85f6e88")),
                        path: path_of(&["dir", "baz"]),
                    },
                ]
            );
        }
        _ => panic!("Expected multi-file torrent"),
    }
}

#[test]
fn symlink_root() {
    let mut env = env(
        &["torrent", "create", "--input", "foo", "--announce", "http://bar", "--md5"],
        dir(vec![("foo", link("bar"))]),
    );
    assert!(matches!(env.run().unwrap_err(), Error::SymlinkRoot));
}

#[test]
fn skip_hidden_attribute_dir_contents() {
    let mut env = env(
        &["torrent", "create", "--input", "foo", "--announce", "http://bar", "--md5"],
        dir(vec![("foo", dir(vec![("bar", hidden(dir(vec![("baz", file("baz"))])))]))]),
    );
    env.run().unwrap();
    let metainfo = env.load_metainfo("foo.torrent");
    assert!(matches!(&metainfo.info.mode, Mode::Multiple { files } if files.is_empty()));
    assert_eq!(metainfo.info.pieces, PieceList::new());
}

#[test]
fn dry_run_skips_torrent_file_creation() {
    let mut env = env(
        &["torrent", "create", "--input", "foo", "--dry-run"],
        dir(vec![("foo", file(""))]),
    );
    assert!(matches!(env.run(), Ok(())));
    assert_eq!(env.read("foo.torrent"), None);
}

#[test]
fn announce_is_optional() {
  let mut env = env(&["torrent", "create", "--input", "foo"], dir(vec![("foo", file(""))]));

  assert!(matches!(env.run(), Ok(())));
}

#[test]
fn input_dot() {
  let mut env = env_in(&["torrent", "create", "--input", ".", "--announce", "https://bar"], "dir", dir(vec![("dir", dir(vec![("foo", file(""))]))]));
  env.run().unwrap();
  let metainfo = env.load_metainfo("../dir.torrent");
  assert_eq!(metainfo.info.name, "dir");
  assert!(matches!(&metainfo.info.mode, Mode::Multiple{files} if files.len() == 1));
}

#[test]
fn input_dot_dot() {
  let mut env = env_in(&["torrent", "create", "--input", "..", "--announce", "https://bar"], "a/b", dir(vec![("a", dir(vec![("b", dir(vec![("foo", file(""))]))]))]));
  env.run().unwrap();
  let metainfo = env.load_metainfo("../../a.torrent");
  assert_eq!(metainfo.info.name, "a");
  assert!(matches!(&metainfo.info.mode, Mode::Multiple{files} if files.len() == 1));
}

#[test]
fn privacy_defaults_to_false() {
  let mut env = env(&["torrent", "create", "--input", "foo", "--announce", "https://bar"], dir(vec![("foo", file(""))]));
  env.run().unwrap();
  let metainfo = env.load_metainfo("foo.torrent");
  assert_eq!(metainfo.info.private, None);
}

#[test]
fn privacy_flag_sets_privacy() {
  let mut env = env(&["torrent", "create", "--input", "foo", "--announce", "https://bar", "--private"], dir(vec![("foo", file(""))]));
  env.run().unwrap();
  let metainfo = env.load_metainfo("foo.torrent");
  assert_eq!(metainfo.info.private, Some(true));
}

#[test]
fn tracker_flag_must_be_url() {
  let mut env = env(&["torrent", "create", "--input", "foo", "--announce", "bar"], dir(vec![("foo", file(""))]));
  assert!(matches!(env.run(), Err(Error::CliParse { .. })));
}

#[test]
fn announce_single() {
  let mut env = env(&["torrent", "create", "--input", "foo", "--announce", "http://bar"], dir(vec![("foo", file(""))]));
  env.run().unwrap();
  let metainfo = env.load_metainfo("foo.torrent");
  assert_eq!(metainfo.announce, Some("http://bar/".into()));
  assert!(metainfo.announce_list.is_none());
}

#[test]
fn announce_udp() {
  let mut env = env(&["torrent", "create", "--input", "foo", "--announce", "udp://tracker.opentrackr.org:1337/announce"], dir(vec![("foo", file(""))]));
  env.run().unwrap();
  let metainfo = env.load_metainfo("foo.torrent");
  assert_eq!(
    metainfo.announce.as_deref(),
    Some("udp://tracker.opentrackr.org:1337/announce")
  );
  assert!(metainfo.announce_list.is_none());
}

#[test]
fn announce_wss_tracker() {
  let mut env = env(&["torrent", "create", "--input", "foo", "--announce", "wss://tracker.btorrent.xyz"], dir(vec![("foo", file(""))]));
  env.run().unwrap();
  let metainfo = env.load_metainfo("foo.torrent");
  assert_eq!(
    metainfo.announce.as_deref(),
    Some("wss://tracker.btorrent.xyz/")
  );
  assert!(metainfo.announce_list.is_none());
}

#[test]
fn announce_single_tier() {
  let mut env = env(&["torrent", "create", "--input", "foo", "--announce", "http://bar", "--announce-tier", "http://bar,http://baz"], dir(vec![("foo", file(""))]));
  env.run().unwrap();
  let metainfo = env.load_metainfo("foo.torrent");
  assert_eq!(metainfo.announce.as_deref(), Some("http://bar/"));
  assert_eq!(
    metainfo.announce_list,
    Some(vec![vec!["http://bar".into(), "http://baz".into()]]),
  );
}

#[test]
fn announce_multiple_tiers() {
  let mut env = env(&["torrent", "create", "--input", "foo", "--announce", "http://bar", "--announce-tier", "http://bar,http://baz", "--announce-tier", "http://abc,http://xyz"], dir(vec![("foo", file(""))]));
  env.run().unwrap();
  let metainfo = env.load_metainfo("foo.torrent");
  assert_eq!(metainfo.announce.as_deref(), Some("http://bar/"));
  assert_eq!(
    metainfo.announce_list,
    Some(vec![
      vec!["http://bar".into(), "http://baz".into()],
      vec!["http://abc".into(), "http://xyz".into()],
    ])
  );
}

#[test]
fn comment_default() {
  let mut env = env(&["torrent", "create", "--input", "foo", "--announce", "http://bar"], dir(vec![("foo", file(""))]));
  env.run().unwrap();
  let metainfo = env.load_metainfo("foo.torrent");
  assert_eq!(metainfo.comment, None);
}

#[test]
fn comment_set() {
  let mut env = env(&["torrent", "create", "--input", "foo", "--announce", "http://bar", "--comment", "Hello, world!"], dir(vec![("foo", file(""))]));
  env.run().unwrap();
  let metainfo = env.load_metainfo("foo.torrent");
  assert_eq!(metainfo.comment.unwrap(), "Hello, world!");
}

#[test]
fn piece_length_default() {
  let mut env = env(&["torrent", "create", "--input", "foo", "--announce", "http://bar"], dir(vec![("foo", file(""))]));
  env.run().unwrap();
  let metainfo = env.load_metainfo("foo.torrent");
  assert_eq!(metainfo.info.piece_length, Bytes(16 * 2u64.pow(10)));
}

#[test]
fn piece_length_override() {
  let mut env = env(&["torrent", "create", "--input", "foo", "--announce", "http://bar", "--piece-length", "64KiB"], dir(vec![("foo", file(""))]));
  env.run().unwrap();
  let metainfo = env.load_metainfo("foo.torrent");
  assert_eq!(metainfo.info.piece_length, Bytes(64 * 1024));
}

#[test]
fn si_piece_size() {
  let mut env = env(&["torrent", "create", "--input", "foo", "--announce", "http://bar", "--piece-length", "0.5MiB"], dir(vec![("foo", file(""))]));
  env.run().unwrap();
  let metainfo = env.load_metainfo("foo.torrent");
  assert_eq!(metainfo.info.piece_length, Bytes(512 * 1024));
}

#[test]
fn name() {
  let mut env = env(&["torrent", "create", "--input", "foo", "--announce", "http://bar", "--piece-length", "16KiB"], dir(vec![("foo", file(""))]));
  env.run().unwrap();
  let metainfo = env.load_metainfo("foo.torrent");
  assert_eq!(metainfo.info.name, "foo");
}

#[test]
fn name_subdir() {
  let mut env = env(&["torrent", "create", "--input", "foo/bar", "--announce", "http://bar", "--piece-length", "32KiB"], dir(vec![("foo", dir(vec![("bar", file(""))]))]));
  env.run().unwrap();
  let metainfo = env.load_metainfo("foo/bar.torrent");
  assert_eq!(metainfo.info.name, "bar");
}

#[test]
fn destination_override() {
  let mut env = env(&["torrent", "create", "--input", "foo", "--output", "x.torrent", "--announce", "http://bar"], dir(vec![("foo", file(""))]));
  env.run().unwrap();
  env.load_metainfo("x.torrent");
}

#[test]
fn created_by_default() {
  let mut env = env(&["torrent", "create", "--input", "foo", "--announce", "http://bar"], dir(vec![("foo", file(""))]));
  env.run().unwrap();
  let metainfo = env.load_metainfo("foo.torrent");
  assert_eq!(metainfo.created_by.unwrap(), CREATED_BY_DEFAULT);
}

#[test]
fn created_by_unset() {
  let mut env = env(&["torrent", "create", "--input", "foo", "--announce", "http://bar", "--no-created-by"], dir(vec![("foo", file(""))]));
  env.run().unwrap();
  let metainfo = env.load_metainfo("foo.torrent");
  assert_eq!(metainfo.created_by, None);
}

#[test]
fn encoding() {
  let mut env = env(&["torrent", "create", "--input", "foo", "--announce", "http://bar"], dir(vec![("foo", file(""))]));
  env.run().unwrap();
  let metainfo = env.load_metainfo("foo.torrent");
  assert_eq!(metainfo.encoding, Some("UTF-8".into()));
}

#[test]
fn created_date_unset() {
  let mut env = env(&["torrent", "create", "--input", "foo", "--announce", "http://bar", "--no-creation-date"], dir(vec![("foo", file(""))]));
  env.run().unwrap();
  let metainfo = env.load_metainfo("foo.torrent");
  assert_eq!(metainfo.creation_date, None);
}

#[test]
fn uneven_last_piece() {
  let mut env = env(&["torrent", "create", "--input", "foo", "--announce", "http://bar", "--allow", "small-piece-length", "--piece-length", "4"], dir(vec![("foo", file("123"))]));
  env.run().unwrap();
  let metainfo = env.load_metainfo("foo.torrent");
  assert_eq!(metainfo.info.pieces, pieces_of(&["123"]));
  assert_eq!(
    metainfo.info.mode,
    Mode::Single {
      length: Bytes(3),
      md5sum: None,
    }
  )
}

#[test]
fn even_last_piece() {
  let mut env = env(&["torrent", "create", "--input", "foo", "--announce", "http://bar", "--allow", "small-piece-length", "--piece-length", "4"], dir(vec![("foo", file("1234"))]));
  env.run().unwrap();
  let metainfo = env.load_metainfo("foo.torrent");
  assert_eq!(metainfo.info.pieces, pieces_of(&["1234"]));
  assert_eq!(
    metainfo.info.mode,
    Mode::Single {
      length: Bytes(4),
      md5sum: None,
    }
  )
}

#[test]
fn multi_piece_file() {
  let mut env = env(&["torrent", "create", "--input", "foo", "--announce", "http://bar", "--allow", "small-piece-length", "--piece-length", "2"], dir(vec![("foo", file("1234"))]));
  env.run().unwrap();
  let metainfo = env.load_metainfo("foo.torrent");
  assert_eq!(metainfo.info.pieces, pieces_of(&["12", "34"]));
  assert_eq!(
    metainfo.info.mode,
    Mode::Single {
      length: Bytes(4),
      md5sum: None,
    }
  )
}

#[test]
fn multi_file_piece() {
  let mut env = env(&["torrent", "create", "--input", "dir", "--announce", "http://bar", "--allow", "small-piece-length", "--piece-length", "8", "--md5"], dir(vec![("dir", dir(vec![("foo", file("1234")), ("bar", file("5678"))]))]));
  env.run().unwrap();
  let metainfo = env.load_metainfo("dir.torrent");
  assert_eq!(metainfo.info.pieces, pieces_of(&["56781234"]));
  assert_eq!(
    metainfo.info.mode,
    Mode::Multiple {
      files: vec![
        FileInfo {
          path: path_of(&["bar"]),
          length: Bytes(4),
          md5sum: Some(md5_of("5678")),
        },
        FileInfo {
          path: path_of(&["foo"]),
          length: Bytes(4),
          md5sum: Some(md5_of("1234")),
        },
      ],
    }
  )
}

#[test]
fn single_small() {
  let mut env = env(&["torrent", "create", "--input", "foo", "--announce", "http://bar"], dir(vec![("foo", file("bar"))]));
  env.run().unwrap();
  let metainfo = env.load_metainfo("foo.torrent");
  assert_eq!(metainfo.info.pieces, pieces_of(&["bar"]));
  assert_eq!(
    metainfo.info.mode,
    Mode::Single {
      length: Bytes(3),
      md5sum: None,
    }
  )
}

#[test]
fn single_one_byte_piece() {
  let mut env = env(&["torrent", "create", "--input", "foo", "--announce", "http://bar", "--piece-length", "1", "--allow", "small-piece-length"], dir(vec![("foo", file("bar"))]));
  env.run().unwrap();
  let metainfo = env.load_metainfo("foo.torrent");
  assert_eq!(
    metainfo.info.pieces,
    pieces_of(&["b", "a", "r"])
  );
  assert_eq!(
    metainfo.info.mode,
    Mode::Single {
      length: Bytes(3),
      md5sum: None,
    }
  )
}

#[test]
fn single_empty() {
  let mut env = env(&["torrent", "create", "--input", "foo", "--announce", "http://bar"], dir(vec![("foo", file(""))]));
  env.run().unwrap();
  let metainfo = env.load_metainfo("foo.torrent");
  assert_eq!(metainfo.info.pieces.count(), 0);
  assert_eq!(
    metainfo.info.mode,
    Mode::Single {
      length: Bytes(0),
      md5sum: None,
    }
  )
}

#[test]
fn multiple_no_files() {
  let mut env = env(&["torrent", "create", "--input", "foo", "--announce", "http://bar"], dir(vec![("foo", dir(vec![]))]));
  env.run().unwrap();
  let metainfo = env.load_metainfo("foo.torrent");
  assert_eq!(metainfo.info.pieces.count(), 0);
  assert_eq!(metainfo.info.mode, Mode::Multiple { files: Vec::new() })
}

#[test]
fn multiple_one_file_md5() {
  let mut env = env(&["torrent", "create", "--input", "foo", "--announce", "http://bar", "--md5"], dir(vec![("foo", dir(vec![("bar", file("bar"))]))]));
  env.run().unwrap();
  let metainfo = env.load_metainfo("foo.torrent");
  assert_eq!(metainfo.info.pieces, pieces_of(&["bar"]));
  match metainfo.info.mode {
    Mode::Multiple { files } => {
      assert_eq!(
        files,
        &[FileInfo {
          length: Bytes(3),
          md5sum: Some(md5_hex("37b51d194a7513e45b56f6524f2d51f2")),
          path: path_of(&["bar"]),
        },]
      );
    }
    _ => panic!("Expected multi-file torrent"),
  }
}

#[test]
fn multiple_one_file_md5_off() {
  let mut env = env(&["torrent", "create", "--input", "foo", "--announce", "http://bar"], dir(vec![("foo", dir(vec![("bar", file("bar"))]))]));
  env.run().unwrap();
  let metainfo = env.load_metainfo("foo.torrent");
  assert_eq!(metainfo.info.pieces, pieces_of(&["bar"]));
  match metainfo.info.mode {
    Mode::Multiple { files } => {
      assert_eq!(
        files,
        &[FileInfo {
          length: Bytes(3),
          md5sum: None,
          path: path_of(&["bar"]),
        },]
      );
    }
    _ => panic!("Expected multi-file torrent"),
  }
}

#[test]
fn multiple_three_files() {
  let mut env = env(&["torrent", "create", "--input", "foo", "--announce", "http://bar", "--md5"], dir(vec![("foo", dir(vec![("a", file("abc")), ("x", file("xyz")), ("h", file("hij"))]))]));
  env.run().unwrap();
  let metainfo = env.load_metainfo("foo.torrent");
  assert_eq!(metainfo.info.pieces, pieces_of(&["abchijxyz"]));
  match metainfo.info.mode {
    Mode::Multiple { files } => {
      assert_eq!(
        files,
        &[
          FileInfo {
            length: Bytes(3),
            md5sum: Some(md5_hex("900150983cd24fb0d6963f7d28e17f72")),
            path: path_of(&["a"]),
          },
          FileInfo {
            length: Bytes(3),
            md5sum: Some(md5_hex("857c4402ad934005eae4638a93812bf7")),
            path: path_of(&["h"]),
          },
          FileInfo {
            length: Bytes(3),
            md5sum: Some(md5_hex("d16fb36f0911f878998c136191af705e")),
            path: path_of(&["x"]),
          },
        ]
      );
    }
    _ => panic!("Expected multi-file torrent"),
  }
}

#[test]
fn uneven_piece_length() {
  let mut env = env(&["torrent", "create", "--input", "foo", "--announce", "http://bar", "--piece-length", "17KiB"], dir(vec![("foo", dir(vec![]))]));
  assert!(matches!(
    env.run(),
    Err(Error::PieceLengthUneven { bytes }) if bytes.0 == 17 * 1024
  ));
}

#[test]
fn uneven_piece_length_allow() {
  let mut env = env(&["torrent", "create", "--input", "foo", "--announce", "http://bar", "--piece-length", "17KiB", "--allow", "uneven-piece-length"], dir(vec![("foo", dir(vec![]))]));
  env.run().unwrap();
  env.load_metainfo("foo.torrent");
}

#[test]
fn zero_piece_length() {
  let mut env = env(&["torrent", "create", "--input", "foo", "--announce", "http://bar", "--piece-length", "0"], dir(vec![("foo", dir(vec![]))]));
  assert!(matches!(env.run(), Err(Error::PieceLengthZero)));
}

#[test]
fn small_piece_length() {
  let mut env = env(&["torrent", "create", "--input", "foo", "--announce", "http://bar", "--piece-length", "8KiB"], dir(vec![("foo", file(""))]));
  assert!(matches!(env.run(), Err(Error::PieceLengthSmall)));
}

#[test]
fn small_piece_length_allow() {
  let mut env = env(&["torrent", "create", "--input", "foo", "--announce", "http://bar", "--piece-length", "8KiB", "--allow", "small-piece-length"], dir(vec![("foo", dir(vec![]))]));
  env.run().unwrap();
  env.load_metainfo("foo.torrent");
}

#[test]
fn force_true() {
  let mut env = env(&["torrent", "create", "--input", "foo", "--announce", "http://bar", "--force"], dir(vec![("foo", file("")), ("foo.torrent", file("foo"))]));
  env.run().unwrap();
  env.load_metainfo("foo.torrent");
}

#[test]
fn exclude_junk() {
  let mut env = env(&["torrent", "create", "--input", "foo", "--announce", "http://bar"], dir(vec![("foo", dir(vec![("Thumbs.db", file("abc")), ("Desktop.ini", file("abc"))]))]));
  env.run().unwrap();
  let metainfo = env.load_metainfo("foo.torrent");
  assert!(matches!(
    &metainfo.info.mode,
    Mode::Multiple { files } if files.is_empty()
  ));
  assert_eq!(metainfo.info.pieces, PieceList::new());
}

#[test]
fn include_junk() {
  let mut env = env(&["torrent", "create", "--input", "foo", "--announce", "http://bar", "--include-junk"], dir(vec![("foo", dir(vec![("Thumbs.db", file("abc")), ("Desktop.ini", file("abc"))]))]));
  env.run().unwrap();
  let metainfo = env.load_metainfo("foo.torrent");
  assert!(matches!(
    &metainfo.info.mode,
    Mode::Multiple { files } if files.len() == 2
  ));
  assert_eq!(metainfo.info.pieces, pieces_of(&["abcabc"]));
}

#[test]
fn skip_dot_dir_contents() {
  let mut env = env(&["torrent", "create", "--input", "foo", "--announce", "http://bar", "--md5"], dir(vec![("foo", dir(vec![(".bar", dir(vec![("baz", file("baz"))]))]))]));
  env.run().unwrap();
  let metainfo = env.load_metainfo("foo.torrent");
  assert!(matches!(
    &metainfo.info.mode,
    Mode::Multiple { files } if files.is_empty()
  ));
  assert_eq!(metainfo.info.pieces, PieceList::new());
}

#[test]
fn glob_exclude() {
  let mut env = env(&["torrent", "create", "--input", "foo", "--announce", "http://bar", "--glob", "!a"], dir(vec![("foo", dir(vec![("a", file("a")), ("b", file("b")), ("c", file("c"))]))]));
  env.run().unwrap();
  let metainfo = env.load_metainfo("foo.torrent");
  assert!(matches!(
    &metainfo.info.mode,
    Mode::Multiple { files } if files.len() == 2
  ));
  let mut pieces = PieceList::new();
  pieces.push(&sha1::Sha1::from("bc").digest().bytes());
  assert_eq!(metainfo.info.pieces, pieces);
}

#[test]
fn glob_exclude_nomatch() {
  let mut env = env(&["torrent", "create", "--input", "foo", "--announce", "http://bar", "--glob", "!x"], dir(vec![("foo", dir(vec![("a", file("a")), ("b", file("b")), ("c", file("c"))]))]));

  env.run().unwrap();
  let metainfo = env.load_metainfo("foo.torrent");
  assert!(matches!(
    &metainfo.info.mode,
    Mode::Multiple { files } if files.len() == 3
  ));
  let mut pieces = PieceList::new();
  pieces.push(&sha1::Sha1::from("abc").digest().bytes());
  assert_eq!(metainfo.info.pieces, pieces);
}

#[test]
fn glob_include() {
  let mut env = env(&["torrent", "create", "--input", "foo", "--announce", "http://bar", "--glob", "[bc]"], dir(vec![("foo", dir(vec![("a", file("a")), ("b", file("b")), ("c", file("c"))]))]));
  env.run().unwrap();
  let metainfo = env.load_metainfo("foo.torrent");
  assert!(matches!(
    &metainfo.info.mode,
    Mode::Multiple { files } if files.len() == 2
  ));
  let mut pieces = PieceList::new();
  pieces.push(&sha1::Sha1::from("bc").digest().bytes());
  assert_eq!(metainfo.info.pieces, pieces);
}

#[test]
fn glob_include_nomatch() {
  let mut env = env(&["torrent", "create", "--input", "foo", "--announce", "http://bar", "--glob", "x"], dir(vec![("foo", dir(vec![("a", file("a")), ("b", file("b")), ("c", file("c"))]))]));
  env.run().unwrap();
  let metainfo = env.load_metainfo("foo.torrent");
  assert!(matches!(
    &metainfo.info.mode,
    Mode::Multiple { files } if files.is_empty()
  ));
  assert_eq!(metainfo.info.pieces, PieceList::new());
}

#[test]
fn glob_precedence() {
  let mut env = env(&["torrent", "create", "--input", "foo", "--announce", "http://bar", "--glob", "!*", "--glob", "[ab]", "--glob", "!b"], dir(vec![("foo", dir(vec![("a", file("a")), ("b", file("b")), ("c", file("c"))]))]));
  env.run().unwrap();
  let metainfo = env.load_metainfo("foo.torrent");
  assert!(matches!(
    &metainfo.info.mode,
    Mode::Multiple { files } if files.len() == 1
  ));
  assert_eq!(metainfo.info.pieces, pieces_of(&["a"]));
}

#[test]
fn nodes_default() {
  let mut env = env(&["torrent", "create", "--input", "foo", "--announce", "http://bar"], dir(vec![("foo", file(""))]));
  env.run().unwrap();
  let metainfo = env.load_metainfo("foo.torrent");
  assert!(metainfo.nodes.is_none());
}

#[test]
fn nodes_invalid() {
  let mut env = env(&["torrent", "create", "--input", "foo", "--announce", "http://bar", "--node", "blah"], dir(vec![("foo", file(""))]));
  assert!(matches!(env.run(), Err(Error::CliParse { .. })));
}

#[test]
fn nodes_valid() {
  let mut env = env(&["torrent", "create", "--input", "foo", "--announce", "http://bar", "--node", "router.example.com:1337", "--node", "203.0.113.0:2290", "--node", "[2001:db8:4275:7920:6269:7463:6f69:6e21]:8832"], dir(vec![("foo", file(""))]));
  env.run().unwrap();
  let metainfo = env.load_metainfo("foo.torrent");
  assert_eq!(
    metainfo.nodes,
    Some(vec![
      HostPort::parse("router.example.com:1337").unwrap(),
      HostPort::parse("203.0.113.0:2290").unwrap(),
      HostPort::parse("[2001:db8:4275:7920:6269:7463:6f69:6e21]:8832").unwrap(),
    ]),
  );
}

#[test]
fn private_requires_announce() {
  let mut env = env(&["torrent", "create", "--input", "foo", "--private"], dir(vec![("foo", file(""))]));

  assert!(matches!(
    env.run(),
    Err(error @ Error::PrivateTrackerless)
    if error.lint() == Some(Lint::PrivateTrackerless)
  ));
}

#[test]
fn private_trackerless_announce() {
  let mut env = env(&["torrent", "create", "--input", "foo", "--private", "--allow", "private-trackerLESS"], dir(vec![("foo", file(""))]));

  assert!(matches!(env.run(), Ok(())));
}

#[test]
fn no_print_magnet_link() {
  let mut env = env(&["torrent", "create", "--input", "foo"], dir(vec![("foo", file(""))]));

  assert!(matches!(env.run(), Ok(())));
  assert_eq!(env.out(), "");
}

#[test]
fn print_magnet_link() {
  let mut env = env(&["torrent", "create", "--input", "foo", "--link"], dir(vec![("foo", file(""))]));

  assert!(matches!(env.run(), Ok(())));
  assert_eq!(
    env.out(),
    "magnet:?xt=urn:btih:516735f4b80f2b5487eed5f226075bdcde33a54e&dn=foo\n"
  );
}

#[test]
fn print_magnet_link_with_announce() {
  let mut env = env(&["torrent", "create", "--input", "foo", "--link", "--announce", "http://foo.com/announce"], dir(vec![("foo", file(""))]));

  assert!(matches!(env.run(), Ok(())));
  assert_eq!(
    env.out(),
    "magnet:\
    ?xt=urn:btih:516735f4b80f2b5487eed5f226075bdcde33a54e\
    &dn=foo\
    &tr=http://foo.com/announce\n"
  );
}

#[test]
fn link_with_peers() {
  let mut env = env(&["torrent", "create", "--input", "foo", "--peer", "foo:1337", "--peer", "bar:666", "--link"], dir(vec![("foo", file(""))]));

  assert!(matches!(env.run(), Ok(())));
  assert_eq!(
    env.out(),
    "magnet:?xt=urn:btih:516735f4b80f2b5487eed5f226075bdcde33a54e&dn=foo&x.pe=foo:1337&x.pe=bar:\
     666\n"
  );
}

#[test]
fn file_ordering_by_default() {
  let mut env = env(&["torrent", "create", "--input", "foo"], dir(vec![("foo", dir(vec![("a", file("aa")), ("b", file("b")), ("c", file("ccc")), ("d", dir(vec![("e", file("eeee"))]))]))]));

  assert!(matches!(env.run(), Ok(())));

  let torrent = env.load_metainfo("foo.torrent");
  assert_eq!(file_paths(&torrent), &["a", "b", "c", "d/e"]);
}

#[test]
fn file_ordering_by_alpha_asc() {
  let mut env = env(&["torrent", "create", "--input", "foo", "--order", "alphabetical-asc"], dir(vec![("foo", dir(vec![("a", file("aa")), ("b", file("b")), ("c", file("ccc")), ("d", dir(vec![("e", file("eeee"))]))]))]));

  assert!(matches!(env.run(), Ok(())));

  let torrent = env.load_metainfo("foo.torrent");
  assert_eq!(file_paths(&torrent), &["a", "b", "c", "d/e"]);
}

#[test]
fn file_ordering_by_alpha_desc() {
  let mut env = env(&["torrent", "create", "--input", "foo", "--order", "alphabetical-desc"], dir(vec![("foo", dir(vec![("a", file("aa")), ("b", file("b")), ("c", file("ccc")), ("d", dir(vec![("a", file("aaaa"))]))]))]));

  assert!(matches!(env.run(), Ok(())));

  let torrent = env.load_metainfo("foo.torrent");
  assert_eq!(file_paths(&torrent), &["d/a", "c", "b", "a"]);
}

#[test]
fn file_ordering_by_size_asc() {
  let mut env = env(&["torrent", "create", "--input", "foo", "--order", "size-asc"], dir(vec![("foo", dir(vec![("a", file("aa")), ("b", file("b")), ("c", file("ccc")), ("d", dir(vec![("e", file("e"))]))]))]));

  assert!(matches!(env.run(), Ok(())));

  let torrent = env.load_metainfo("foo.torrent");
  assert_eq!(file_paths(&torrent), &["b", "d/e", "a", "c"]);
}

#[test]
fn file_ordering_by_size_desc() {
  let mut env = env(&["torrent", "create", "--input", "foo", "--order", "size-desc"], dir(vec![("foo", dir(vec![("a", file("aa")), ("b", file("b")), ("c", file("ccc")), ("d", dir(vec![("e", file("e"))]))]))]));

  assert!(matches!(env.run(), Ok(())));

  let torrent = env.load_metainfo("foo.torrent");
  assert_eq!(file_paths(&torrent), &["c", "a", "b", "d/e"]);
}

#[test]
fn scenario_single_empty_file() {
    let mut env = env(
        &["torrent", "create", "--input", "foo", "--announce", "http://bar"],
        dir(vec![("foo", file(""))]),
    );
    env.run().unwrap();
    assert!(env.read("foo.torrent").is_some());
    let metainfo = env.load_metainfo("foo.torrent");
    assert_eq!(metainfo.info.name, "foo");
    assert_eq!(metainfo.info.mode, Mode::Single { length: Bytes(0), md5sum: None });
    assert_eq!(metainfo.info.pieces.count(), 0);
    assert_eq!(metainfo.info.piece_length, Bytes(16 * 1024));
    assert_eq!(metainfo.announce.as_deref(), Some("http://bar/"));
    assert_eq!(metainfo.announce_list, None);
    assert_eq!(metainfo.creation_date, Some(env.now));
    assert_eq!(hex_of(&metainfo.infohash().unwrap()), "516735f4b80f2b5487eed5f226075bdcde33a54e");
}

#[test]
fn scenario_info_hash_is_stable_across_runs() {
    let args = [
        "torrent",
        "create",
        "--input",
        "dir",
        "--piece-length",
        "8",
        "--allow",
        "small-piece-length",
        "--md5",
    ];
    let tree = dir(vec![("dir", dir(vec![("foo", file("1234")), ("bar", file("5678"))]))]);
    let mut first = env(&args, tree.clone());
    first.run().unwrap();
    let mut second = env(&args, tree);
    second.now = first.now + 1000;
    second.run().unwrap();
    let a = first.load_metainfo("dir.torrent");
    let b = second.load_metainfo("dir.torrent");
    assert_eq!(file_paths(&a), &["bar", "foo"]);
    assert_eq!(a.info.pieces, pieces_of(&["56781234"]));
    assert_eq!(a.info, b.info);
    assert_eq!(a.infohash().unwrap(), b.infohash().unwrap());
    assert_ne!(a.creation_date, b.creation_date);
    assert_ne!(first.read("dir.torrent"), second.read("dir.torrent"));
    assert!(is_multiple(&a));
    assert_eq!(file_count(&a), 2);
}

#[test]
fn scenario_no_order_gives_the_same_bytes() {
    let tree = dir(vec![(
        "foo",
        dir(vec![("b", file("b")), ("a", file("aa")), ("d", dir(vec![("e", file("eeee"))])), ("c", file("ccc"))]),
    )]);
    let mut plain = env(&["torrent", "create", "--input", "foo"], tree.clone());
    plain.run().unwrap();
    let mut ordered = env(&["torrent", "create", "--input", "foo", "--order", "alphabetical-asc"], tree);
    ordered.run().unwrap();
    assert_eq!(plain.read("foo.torrent"), ordered.read("foo.torrent"));
}

#[test]
fn scenario_written_dictionaries_have_ascending_keys() {
    fn ascending(value: &torrent_create::bencode::Value) -> bool {
        match value {
            torrent_create::bencode::Value::List(items) => items.iter().all(ascending),
            torrent_create::bencode::Value::Dict(entries) => {
                entries.windows(2).all(|pair| pair[0].0 < pair[1].0) && entries.iter().all(|entry| ascending(&entry.1))
            }
            _ => true,
        }
    }
    let mut env = env(
        &[
            "torrent",
            "create",
            "--input",
            "foo",
            "--announce",
            "http://bar",
            "--announce-tier",
            "http://bar,http://baz",
            "--comment",
            "c",
            "--node",
            "a.b:1",
            "--private",
            "--source",
            "s",
            "--md5",
        ],
        dir(vec![("foo", dir(vec![("a", file("abc")), ("b", dir(vec![("c", file("c"))]))]))]),
    );
    env.run().unwrap();
    let bytes = env.read("foo.torrent").unwrap();
    let value = torrent_create::bencode::Value::decode(&bytes).unwrap();
    assert!(ascending(&value));
    match &value {
        torrent_create::bencode::Value::Dict(entries) => {
            let keys: Vec<&[u8]> = entries.iter().map(|entry| entry.0.as_slice()).collect();
            let expected: Vec<&[u8]> = vec![
                b"announce",
                b"announce-list",
                b"comment",
                b"created by",
                b"creation date",
                b"encoding",
                b"info",
                b"nodes",
            ];
            assert_eq!(keys, expected);
        }
        _ => panic!("expected a dictionary"),
    }
}

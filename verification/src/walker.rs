//! The content walker: which entries of a directory tree go into a torrent.
//!
//! The walker does not touch the file system. Its caller lists each
//! directory that the walker asks for and hands the entries over; the walker
//! decides what becomes of each.

use crate::bytes::Bytes;
use crate::error::Error;
use crate::file_order::distinct_paths;
use crate::file_order::is_permutation;
use crate::file_order::sort;
use crate::file_order::sorted;
use crate::file_order::FileOrder;
use crate::file_path::copy_bytes;
use crate::file_path::lemma_views_push;
use crate::file_path::valid_components;
use crate::file_path::views;
use crate::file_path::FilePath;
use crate::files::total_length;
use crate::files::FileEntry;
use crate::files::FileEntryView;
use crate::files::Files;
use crate::files::FilesView;
use crate::glob::glob_compile;
use crate::glob::glob_is_match;
use crate::glob::glob_matches;
use crate::glob::glob_source;
use crate::glob::glob_valid;
use crate::text::ascii;
use crate::text::is_literal;
use vstd::prelude::*;
use vstd::string::StrSliceExecFns;

verus! {

/// What an entry of a directory is, once a symbolic link has been resolved.
#[derive(Clone, Copy, Debug, PartialEq, Eq, Structural)]
pub enum EntryKind {
    File,
    Directory,
    Other,
}

/// An entry of a directory, as the file system reports it.
#[derive(Debug, PartialEq, Eq)]
pub struct DirEntry {
    /// The name of the entry within its directory.
    pub name: Vec<u8>,
    /// Whether the entry is a symbolic link.
    pub symlink: bool,
    /// What the entry is; for a symbolic link, what it leads to.
    pub kind: EntryKind,
    /// Whether the platform marks the entry as hidden.
    pub hidden: bool,
    /// The length of the entry in bytes.
    pub length: u64,
    /// What identifies the entry on the file system, however it is reached.
    pub identity: Vec<u8>,
}

/// What a `DirEntry` holds.
pub struct DirEntryView {
    pub name: Seq<u8>,
    pub symlink: bool,
    pub kind: EntryKind,
    pub hidden: bool,
    pub length: u64,
    pub identity: Seq<u8>,
}

impl View for DirEntry {
    type V = DirEntryView;

    open spec fn view(&self) -> DirEntryView {
        DirEntryView {
            name: self.name@,
            symlink: self.symlink,
            kind: self.kind,
            hidden: self.hidden,
            length: self.length,
            identity: self.identity@,
        }
    }
}

/// The root of the content, as the file system reports it.
#[derive(Debug, PartialEq, Eq)]
pub struct Root {
    /// Whether the root is a symbolic link.
    pub symlink: bool,
    /// What the root is; for a symbolic link, what it leads to.
    pub kind: EntryKind,
    /// The length of the root in bytes.
    pub length: u64,
    /// What identifies the root on the file system, however it is reached.
    pub identity: Vec<u8>,
}

/// What a `Root` holds.
pub struct RootView {
    pub symlink: bool,
    pub kind: EntryKind,
    pub length: u64,
    pub identity: Seq<u8>,
}

impl View for Root {
    type V = RootView;

    open spec fn view(&self) -> RootView {
        RootView {
            symlink: self.symlink,
            kind: self.kind,
            length: self.length,
            identity: self.identity@,
        }
    }
}

/// A glob, and whether a file that it matches is taken or left.
pub struct Pattern {
    set: globset::GlobSet,
    takes: bool,
}

/// What a `Pattern` holds.
pub struct PatternView {
    pub source: Seq<char>,
    pub takes: bool,
}

impl View for Pattern {
    type V = PatternView;

    closed spec fn view(&self) -> PatternView {
        PatternView { source: glob_source(self.set), takes: self.takes }
    }
}

/// A directory that is still to be listed.
pub struct Pending {
    path: Vec<Vec<u8>>,
    ancestors: Vec<Vec<u8>>,
}

/// What a `Pending` holds: the path of the directory below the root, and
/// the identities of the root, of the directories on that path and of the
/// directory itself.
pub struct PendingView {
    pub path: Seq<Seq<u8>>,
    pub ancestors: Seq<Seq<u8>>,
}

impl View for Pending {
    type V = PendingView;

    closed spec fn view(&self) -> PendingView {
        PendingView { path: views(self.path@), ancestors: views(self.ancestors@) }
    }
}

/// What becomes of an entry.
#[derive(Clone, Copy, Debug, PartialEq, Eq, Structural)]
pub enum Verdict {
    /// The entry is left out, and so is all that lies below it.
    Skip,
    /// The entry is a directory that will be listed.
    Descend,
    /// The entry is a file of the torrent.
    Include,
}

/// The components of `path`, with a slash between each two.
pub open spec fn joined(path: Seq<Seq<u8>>) -> Seq<u8>
    decreases path.len(),
{
    if path.len() == 0 {
        Seq::empty()
    } else if path.len() == 1 {
        path[0]
    } else {
        joined(path.drop_last()) + seq![47u8] + path.last()
    }
}

/// Whether a file is taken, by the first `n` of the patterns, of each of
/// which `marks` says whether it takes what it matches, and whether it
/// matches the file: as the last of them that matches says; where none
/// matches, the file is taken unless some pattern among all of them takes
/// what it matches.
pub open spec fn decided(marks: Seq<(bool, bool)>, n: int) -> bool
    decreases n,
{
    if n <= 0 {
        !exists|i: int| 0 <= i < marks.len() && (#[trigger] marks[i]).0
    } else if marks[n - 1].1 {
        marks[n - 1].0
    } else {
        decided(marks, n - 1)
    }
}

/// For each pattern, whether it takes what it matches, and whether it
/// matches `path`.
pub open spec fn marks_of(patterns: Seq<PatternView>, path: Seq<u8>) -> Seq<(bool, bool)> {
    Seq::new(
        patterns.len(),
        |i: int| (patterns[i].takes, glob_matches(patterns[i].source, path)),
    )
}

/// Whether a file at `path` is taken.
pub open spec fn selected(patterns: Seq<PatternView>, path: Seq<u8>) -> bool {
    decided(marks_of(patterns, path), patterns.len() as int)
}

/// Whether a file is taken, where `marks` says of each pattern, in order,
/// whether it takes what it matches and whether it matches the file.
pub fn decide(marks: &Vec<(bool, bool)>) -> (taken: bool)
    ensures
        taken == decided(marks@, marks@.len() as int),
{
    let mut inclusion = false;
    let mut k: usize = 0;
    while k < marks.len()
        invariant
            k <= marks.len(),
            inclusion == exists|j: int| 0 <= j < k && (#[trigger] marks@[j]).0,
        decreases marks.len() - k,
    {
        if marks[k].0 {
            inclusion = true;
        }
        k += 1;
    }
    let mut taken = !inclusion;
    let mut i: usize = 0;
    while i < marks.len()
        invariant
            i <= marks.len(),
            taken == decided(marks@, i as int),
        decreases marks.len() - i,
    {
        if marks[i].1 {
            taken = marks[i].0;
        }
        i += 1;
    }
    taken
}

/// The name begins with a dot, or the platform marks the entry as hidden.
pub open spec fn is_hidden(entry: DirEntryView) -> bool {
    entry.hidden || (entry.name.len() > 0 && entry.name[0] == 46)
}

/// The name is one that operating systems give to files of their own.
pub open spec fn is_junk(name: Seq<u8>) -> bool {
    name == ascii("Thumbs.db"@) || name == ascii("Desktop.ini"@)
}

/// The glob that `text` stands for: `text` without a leading `!`.
pub open spec fn glob_text(text: Seq<char>) -> Seq<char> {
    if glob_excludes(text) {
        text.subrange(1, text.len() as int)
    } else {
        text
    }
}

/// `text` begins with `!`: what its glob matches is left out.
pub open spec fn glob_excludes(text: Seq<char>) -> bool {
    text.len() > 0 && text[0] == '!'
}

/// Every one of `globs` stands for a glob that compiles.
pub open spec fn globs_valid(globs: Seq<Seq<char>>) -> bool {
    forall|i: int| 0 <= i < globs.len() ==> glob_valid(glob_text(#[trigger] globs[i]))
}

/// The patterns that `globs` stand for.
pub open spec fn patterns_of(globs: Seq<Seq<char>>) -> Seq<PatternView> {
    Seq::new(
        globs.len(),
        |i: int| PatternView { source: glob_text(globs[i]), takes: !glob_excludes(globs[i]) },
    )
}

/// The state of a walk, as its contracts speak of it.
pub struct WalkerView {
    pub include_hidden: bool,
    pub include_junk: bool,
    pub follow_symlinks: bool,
    pub file_order: FileOrder,
    pub patterns: Seq<PatternView>,
    /// The length of the root, where the root is a file.
    pub root_file: Option<u64>,
    /// The directories that are still to be listed; the last is next.
    pub pending: Seq<PendingView>,
    /// The files found so far.
    pub found: Seq<FileEntryView>,
    /// The sum of the lengths of the files found so far.
    pub total: u64,
}

impl WalkerView {
    /// The total is the sum of the lengths of the files found.
    pub open spec fn wf(self) -> bool {
        self.total == total_length(self.found)
    }

    /// What becomes of `entry`, which lies in the directory at `dir`. The
    /// first of these decides: a symbolic link is skipped unless links are
    /// followed; a hidden entry is skipped unless hidden entries are
    /// included; a junk entry is skipped unless junk is included; a
    /// directory is listed; a file is taken if the globs select its path;
    /// anything else is skipped.
    pub open spec fn verdict(self, dir: Seq<Seq<u8>>, entry: DirEntryView) -> Verdict {
        match self.class(entry) {
            Verdict::Include => if selected(self.patterns, joined(dir.push(entry.name))) {
                Verdict::Include
            } else {
                Verdict::Skip
            },
            class => class,
        }
    }

    /// What becomes of `entry` before the globs are asked.
    pub open spec fn class(self, entry: DirEntryView) -> Verdict {
        if entry.symlink && !self.follow_symlinks {
            Verdict::Skip
        } else if is_hidden(entry) && !self.include_hidden {
            Verdict::Skip
        } else if is_junk(entry.name) && !self.include_junk {
            Verdict::Skip
        } else {
            match entry.kind {
                EntryKind::Directory => Verdict::Descend,
                EntryKind::File => Verdict::Include,
                EntryKind::Other => Verdict::Skip,
            }
        }
    }

    /// The state after `entry`, which lies in the directory `dir`, has been
    /// dealt with. A directory that is one of its own ancestors, met while
    /// links are followed, is a `SymlinkCycle`. A file whose path has an
    /// invalid component is a `PathComponent`, and one whose length brings
    /// the total over 64 bits an `IntegerRange`.
    pub open spec fn take(self, dir: PendingView, entry: DirEntryView) -> Result<WalkerView, Error> {
        match self.verdict(dir.path, entry) {
            Verdict::Skip => Ok(self),
            Verdict::Descend => if self.follow_symlinks && dir.ancestors.contains(entry.identity) {
                Err(Error::SymlinkCycle)
            } else {
                Ok(
                    WalkerView {
                        pending: self.pending.push(
                            PendingView {
                                path: dir.path.push(entry.name),
                                ancestors: dir.ancestors.push(entry.identity),
                            },
                        ),
                        ..self
                    },
                )
            },
            Verdict::Include => if !valid_components(dir.path.push(entry.name)) {
                Err(Error::PathComponent)
            } else if self.total + entry.length > u64::MAX {
                Err(Error::IntegerRange)
            } else {
                Ok(
                    WalkerView {
                        found: self.found.push(
                            FileEntryView { path: dir.path.push(entry.name), length: entry.length },
                        ),
                        total: (self.total + entry.length) as u64,
                        ..self
                    },
                )
            },
        }
    }

    /// The state after the entries `entries` of the directory `dir` have
    /// been dealt with, in order, or the first failure among them.
    pub open spec fn take_all(self, dir: PendingView, entries: Seq<DirEntryView>) -> Result<
        WalkerView,
        Error,
    >
        decreases entries.len(),
    {
        if entries.len() == 0 {
            Ok(self)
        } else {
            match self.take_all(dir, entries.drop_last()) {
                Ok(w) => w.take(dir, entries.last()),
                Err(e) => Err(e),
            }
        }
    }

    /// The state after the directory that is next has been listed as
    /// `entries`. Where no directory is pending, nothing changes.
    pub open spec fn listed(self, entries: Seq<DirEntryView>) -> Result<WalkerView, Error> {
        if self.pending.len() == 0 {
            Ok(self)
        } else {
            WalkerView { pending: self.pending.drop_last(), ..self }.take_all(
                self.pending.last(),
                entries,
            )
        }
    }

    /// The state at the start of a walk from `root`: a root that is a
    /// symbolic link is a `SymlinkRoot` unless links are followed; a file is
    /// the whole content; a directory is the first to be listed.
    pub open spec fn started(self, root: RootView) -> Result<WalkerView, Error> {
        if root.symlink && !self.follow_symlinks {
            Err(Error::SymlinkRoot)
        } else {
            Ok(
                WalkerView {
                    root_file: if root.kind == EntryKind::File {
                        Some(root.length)
                    } else {
                        None
                    },
                    pending: if root.kind == EntryKind::Directory {
                        seq![PendingView { path: Seq::empty(), ancestors: seq![root.identity] }]
                    } else {
                        Seq::empty()
                    },
                    found: Seq::empty(),
                    total: 0,
                    ..self
                },
            )
        }
    }
}

/// Once an entry has failed, the entries after it change nothing.
pub proof fn lemma_failure_stays(
    w: WalkerView,
    dir: PendingView,
    entries: Seq<DirEntryView>,
    n: int,
)
    requires
        0 <= n <= entries.len(),
        w.take_all(dir, entries.take(n)) is Err,
    ensures
        w.take_all(dir, entries) == w.take_all(dir, entries.take(n)),
    decreases entries.len() - n,
{
    if n == entries.len() {
        assert(entries.take(n) =~= entries);
    } else {
        assert(entries.take(n + 1).drop_last() =~= entries.take(n));
        lemma_failure_stays(w, dir, entries, n + 1);
    }
}

/// The walk keeps the total equal to the sum of the lengths found.
pub proof fn lemma_take_keeps_wf(w: WalkerView, dir: PendingView, entry: DirEntryView)
    requires
        w.wf(),
    ensures
        w.take(dir, entry) matches Ok(next) ==> next.wf(),
{
    if let Ok(next) = w.take(dir, entry) {
        if next.found != w.found {
            assert(next.found.drop_last() =~= w.found);
        }
    }
}

/// The walk of a directory tree.
pub struct Walker {
    include_hidden: bool,
    include_junk: bool,
    follow_symlinks: bool,
    file_order: FileOrder,
    patterns: Vec<Pattern>,
    root_file: Option<u64>,
    pending: Vec<Pending>,
    found: Vec<FileEntry>,
    total: u64,
}

impl View for Walker {
    type V = WalkerView;

    closed spec fn view(&self) -> WalkerView {
        WalkerView {
            include_hidden: self.include_hidden,
            include_junk: self.include_junk,
            follow_symlinks: self.follow_symlinks,
            file_order: self.file_order,
            patterns: views(self.patterns@),
            root_file: self.root_file,
            pending: views(self.pending@),
            found: views(self.found@),
            total: self.total,
        }
    }
}

/// `text` without a leading `!`, and whether it has one.
fn split_glob(text: &str) -> (r: (bool, &str))
    ensures
        r.0 == glob_excludes(text@),
        r.1@ == glob_text(text@),
{
    let n = text.unicode_len();
    if n > 0 && text.get_char(0) == '!' {
        (true, text.substring_char(1, n))
    } else {
        (false, text)
    }
}

/// The components of `dir` and then `name`, with a slash between each two.
fn join(dir: &Vec<Vec<u8>>, name: &[u8]) -> (r: Vec<u8>)
    ensures
        r@ == joined(views(dir@).push(name@)),
{
    let mut out: Vec<u8> = Vec::new();
    let ghost path = views(dir@).push(name@);
    let mut i: usize = 0;
    assert(path.take(0) =~= Seq::<Seq<u8>>::empty());
    while i < dir.len()
        invariant
            i <= dir.len(),
            path == views(dir@).push(name@),
            out@ == joined(path.take(i as int)) + (if i > 0 {
                seq![47u8]
            } else {
                Seq::<u8>::empty()
            }),
        decreases dir.len() - i,
    {
        let ghost before = out@;
        let part = &dir[i];
        let mut k: usize = 0;
        while k < part.len()
            invariant
                k <= part.len(),
                out@ == before + part@.take(k as int),
            decreases part.len() - k,
        {
            out.push(part[k]);
            assert(out@ =~= before + part@.take(k + 1));
            k += 1;
        }
        assert(part@.take(part.len() as int) =~= part@);
        out.push(47u8);
        proof {
            assert(path.take(i + 1).drop_last() =~= path.take(i as int));
            assert(path.take(i + 1).last() == part@);
            if i == 0 {
                assert(out@ =~= joined(path.take(1)) + seq![47u8]);
            } else {
                assert(out@ =~= joined(path.take(i + 1)) + seq![47u8]);
            }
        }
        i += 1;
    }
    let ghost before = out@;
    let mut k: usize = 0;
    while k < name.len()
        invariant
            k <= name.len(),
            out@ == before + name@.take(k as int),
        decreases name.len() - k,
    {
        out.push(name[k]);
        assert(out@ =~= before + name@.take(k + 1));
        k += 1;
    }
    proof {
        assert(name@.take(name.len() as int) =~= name@);
        assert(path.drop_last() =~= views(dir@));
        assert(path.take(dir.len() as int) =~= views(dir@));
        if dir.len() == 0 {
            assert(out@ =~= name@);
        } else {
            assert(out@ =~= joined(path.drop_last()) + seq![47u8] + name@);
        }
    }
    out
}

/// A copy of `items`.
fn copy_all(items: &Vec<Vec<u8>>) -> (copy: Vec<Vec<u8>>)
    ensures
        views(copy@) == views(items@),
{
    let mut copy: Vec<Vec<u8>> = Vec::new();
    let mut i: usize = 0;
    while i < items.len()
        invariant
            i <= items.len(),
            views(copy@) == views(items@).take(i as int),
        decreases items.len() - i,
    {
        let item = copy_bytes(items[i].as_slice());
        proof {
            lemma_views_push(copy@, item);
        }
        copy.push(item);
        assert(views(copy@) =~= views(items@).take(i + 1));
        i += 1;
    }
    assert(views(items@).take(items.len() as int) =~= views(items@));
    copy
}

/// Whether `identity` is among `ancestors`.
fn is_ancestor(ancestors: &Vec<Vec<u8>>, identity: &[u8]) -> (r: bool)
    ensures
        r == views(ancestors@).contains(identity@),
{
    let mut i: usize = 0;
    while i < ancestors.len()
        invariant
            i <= ancestors.len(),
            forall|j: int| 0 <= j < i ==> views(ancestors@)[j] != identity@,
        decreases ancestors.len() - i,
    {
        if crate::lex::compare_bytes(ancestors[i].as_slice(), identity) == crate::lex::Rank::Equal {
            assert(views(ancestors@)[i as int] == identity@);
            return true;
        }
        i += 1;
    }
    false
}

impl Walker {
    /// A walker that skips hidden entries, junk and symbolic links, takes
    /// every other file, and lists the files by path, ascending.
    pub fn new() -> (walker: Walker)
        ensures
            walker@ == (WalkerView {
                include_hidden: false,
                include_junk: false,
                follow_symlinks: false,
                file_order: FileOrder::AlphabeticalAsc,
                patterns: Seq::empty(),
                root_file: None,
                pending: Seq::empty(),
                found: Seq::empty(),
                total: 0,
            }),
            walker@.wf(),
    {
        let walker = Walker {
            include_hidden: false,
            include_junk: false,
            follow_symlinks: false,
            file_order: FileOrder::AlphabeticalAsc,
            patterns: Vec::new(),
            root_file: None,
            pending: Vec::new(),
            found: Vec::new(),
            total: 0,
        };
        assert(walker@.patterns =~= Seq::empty());
        assert(walker@.pending =~= Seq::empty());
        assert(walker@.found =~= Seq::empty());
        walker
    }

    /// Sets whether hidden entries are included.
    pub fn include_hidden(self, include_hidden: bool) -> (walker: Walker)
        ensures
            walker@ == (WalkerView { include_hidden, ..self@ }),
    {
        Walker { include_hidden, ..self }
    }

    /// Sets whether junk entries are included.
    pub fn include_junk(self, include_junk: bool) -> (walker: Walker)
        ensures
            walker@ == (WalkerView { include_junk, ..self@ }),
    {
        Walker { include_junk, ..self }
    }

    /// Sets whether symbolic links are followed.
    pub fn follow_symlinks(self, follow_symlinks: bool) -> (walker: Walker)
        ensures
            walker@ == (WalkerView { follow_symlinks, ..self@ }),
    {
        Walker { follow_symlinks, ..self }
    }

    /// Sets the order in which the files are listed.
    pub fn file_order(self, file_order: FileOrder) -> (walker: Walker)
        ensures
            walker@ == (WalkerView { file_order, ..self@ }),
    {
        Walker { file_order, ..self }
    }

    /// Adds the globs `globs`, in order, after those that the walker has.
    /// One that begins with `!` leaves out what the rest of it matches; any
    /// other takes what it matches. Fails with `GlobParse` where one of them
    /// does not compile.
    pub fn globs(self, globs: &Vec<String>) -> (r: Result<Walker, Error>)
        ensures
            r is Ok <==> globs_valid(views(globs@)),
            r matches Ok(walker) ==> walker@ == (WalkerView {
                patterns: self@.patterns + patterns_of(views(globs@)),
                ..self@
            }),
            r matches Err(e) ==> e == Error::GlobParse,
    {
        let mut walker = self;
        let ghost texts = views(globs@);
        let mut i: usize = 0;
        assert(walker@.patterns =~= self@.patterns + patterns_of(texts).take(0));
        while i < globs.len()
            invariant
                i <= globs.len(),
                texts == views(globs@),
                forall|j: int| 0 <= j < i ==> glob_valid(glob_text(#[trigger] texts[j])),
                walker@ == (WalkerView {
                    patterns: self@.patterns + patterns_of(texts).take(i as int),
                    ..self@
                }),
            decreases globs.len() - i,
        {
            let (exclude, text) = split_glob(globs[i].as_str());
            assert(globs[i as int]@ == texts[i as int]);
            match glob_compile(text) {
                Some(set) => {
                    let pattern = Pattern { set, takes: !exclude };
                    proof {
                        lemma_views_push(walker.patterns@, pattern);
                    }
                    walker.patterns.push(pattern);
                    assert(walker@.patterns =~= self@.patterns + patterns_of(texts).take(i + 1));
                },
                None => {
                    return Err(Error::GlobParse);
                },
            }
            i += 1;
        }
        assert(patterns_of(texts).take(globs.len() as int) =~= patterns_of(texts));
        Ok(walker)
    }

    /// Whether a file at `name` in the directory `dir` is taken by the
    /// globs.
    fn is_selected(&self, dir: &Vec<Vec<u8>>, name: &[u8]) -> (r: bool)
        ensures
            r == selected(self@.patterns, joined(views(dir@).push(name@))),
    {
        let path = join(dir, name);
        let ghost patterns = self@.patterns;
        let mut marks: Vec<(bool, bool)> = Vec::new();
        let mut i: usize = 0;
        while i < self.patterns.len()
            invariant
                i <= self.patterns.len(),
                patterns == views(self.patterns@),
                marks@ == marks_of(patterns, path@).take(i as int),
            decreases self.patterns.len() - i,
        {
            assert(patterns[i as int] == self.patterns[i as int]@);
            let matched = glob_is_match(&self.patterns[i].set, path.as_slice());
            marks.push((self.patterns[i].takes, matched));
            assert(marks@ =~= marks_of(patterns, path@).take(i + 1));
            i += 1;
        }
        assert(marks_of(patterns, path@).take(self.patterns.len() as int) =~= marks_of(
            patterns,
            path@,
        ));
        decide(&marks)
    }

    /// What becomes of `entry` before the globs are asked: a symbolic link
    /// is skipped unless links are followed; a hidden entry is skipped
    /// unless hidden entries are included; a junk entry is skipped unless
    /// junk is included; a directory is listed; a file is taken; anything
    /// else is skipped.
    pub fn classify(&self, entry: &DirEntry) -> (r: Verdict)
        ensures
            r == self@.class(entry@),
    {
        proof {
            reveal_strlit("Thumbs.db");
            reveal_strlit("Desktop.ini");
        }
        if entry.symlink && !self.follow_symlinks {
            return Verdict::Skip;
        }
        let hidden = entry.hidden || (entry.name.len() > 0 && entry.name[0] == 46);
        if hidden && !self.include_hidden {
            return Verdict::Skip;
        }
        let junk = is_literal(entry.name.as_slice(), "Thumbs.db") || is_literal(
            entry.name.as_slice(),
            "Desktop.ini",
        );
        if junk && !self.include_junk {
            return Verdict::Skip;
        }
        match entry.kind {
            EntryKind::Directory => Verdict::Descend,
            EntryKind::File => Verdict::Include,
            EntryKind::Other => Verdict::Skip,
        }
    }

    /// What becomes of `entry`, which lies in the directory at `dir`.
    fn judge(&self, dir: &Vec<Vec<u8>>, entry: &DirEntry) -> (r: Verdict)
        ensures
            r == self@.verdict(views(dir@), entry@),
    {
        match self.classify(entry) {
            Verdict::Include => {
                if self.is_selected(dir, entry.name.as_slice()) {
                    Verdict::Include
                } else {
                    Verdict::Skip
                }
            },
            class => class,
        }
    }

    /// Starts the walk at `root`.
    pub fn begin(&mut self, root: &Root) -> (r: Result<(), Error>)
        ensures
            match old(self)@.started(root@) {
                Ok(w) => r is Ok && final(self)@ == w && w.wf(),
                Err(e) => r == Err::<(), Error>(e),
            },
    {
        if root.symlink && !self.follow_symlinks {
            return Err(Error::SymlinkRoot);
        }
        self.found = Vec::new();
        self.total = 0;
        self.pending = Vec::new();
        self.root_file = None;
        match root.kind {
            EntryKind::File => {
                self.root_file = Some(root.length);
            },
            EntryKind::Directory => {
                let mut ancestors: Vec<Vec<u8>> = Vec::new();
                ancestors.push(copy_bytes(root.identity.as_slice()));
                let first = Pending { path: Vec::new(), ancestors };
                assert(first@.path =~= Seq::empty());
                assert(first@.ancestors =~= seq![root@.identity]);
                self.pending.push(first);
            },
            EntryKind::Other => {},
        }
        proof {
            let w = old(self)@.started(root@)->Ok_0;
            assert(self@.pending =~= w.pending);
            assert(self@.found =~= w.found);
        }
        Ok(())
    }

    /// The path of the directory that is to be listed next, or nothing when
    /// the walk is over.
    pub fn next_directory(&self) -> (r: Option<Vec<Vec<u8>>>)
        ensures
            r is Some <==> self@.pending.len() > 0,
            r matches Some(path) ==> views(path@) == self@.pending.last().path,
    {
        if self.pending.len() == 0 {
            None
        } else {
            Some(copy_all(&self.pending[self.pending.len() - 1].path))
        }
    }

    /// Takes the entries of the directory that is next. After a failure the
    /// walk cannot go on.
    pub fn feed(&mut self, entries: &Vec<DirEntry>) -> (r: Result<(), Error>)
        requires
            old(self)@.wf(),
        ensures
            match old(self)@.listed(views(entries@)) {
                Ok(w) => r is Ok && final(self)@ == w && w.wf(),
                Err(e) => r == Err::<(), Error>(e),
            },
    {
        let dir = match self.pending.pop() {
            Some(dir) => dir,
            None => {
                return Ok(());
            },
        };
        let ghost start = self@;
        let ghost all = views(entries@);
        proof {
            assert(start.pending =~= old(self)@.pending.drop_last());
            assert(start == (WalkerView { pending: old(self)@.pending.drop_last(), ..old(self)@ }));
            assert(dir@ == old(self)@.pending.last());
            assert(all.take(0) =~= Seq::<DirEntryView>::empty());
        }
        let mut i: usize = 0;
        while i < entries.len()
            invariant
                i <= entries.len(),
                all == views(entries@),
                old(self)@.listed(all) == start.take_all(dir@, all),
                start.take_all(dir@, all.take(i as int)) == Ok::<WalkerView, Error>(self@),
                self@.wf(),
            decreases entries.len() - i,
        {
            let entry = &entries[i];
            let ghost before = self@;
            proof {
                assert(all.take(i + 1).drop_last() =~= all.take(i as int));
                assert(all.take(i + 1).last() == entry@);
                lemma_take_keeps_wf(before, dir@, entry@);
                if before.take(dir@, entry@) is Err {
                    lemma_failure_stays(start, dir@, all, i + 1);
                }
            }
            match self.judge(&dir.path, entry) {
                Verdict::Skip => {},
                Verdict::Descend => {
                    if self.follow_symlinks && is_ancestor(&dir.ancestors, entry.identity.as_slice()) {
                        return Err(Error::SymlinkCycle);
                    }
                    let mut path = copy_all(&dir.path);
                    let name = copy_bytes(entry.name.as_slice());
                    proof {
                        lemma_views_push(path@, name);
                    }
                    path.push(name);
                    let mut ancestors = copy_all(&dir.ancestors);
                    let identity = copy_bytes(entry.identity.as_slice());
                    proof {
                        lemma_views_push(ancestors@, identity);
                    }
                    ancestors.push(identity);
                    let next = Pending { path, ancestors };
                    proof {
                        lemma_views_push(self.pending@, next);
                    }
                    self.pending.push(next);
                },
                Verdict::Include => {
                    let mut components = copy_all(&dir.path);
                    let name = copy_bytes(entry.name.as_slice());
                    proof {
                        lemma_views_push(components@, name);
                    }
                    components.push(name);
                    let path = match FilePath::from_components(components) {
                        Ok(path) => path,
                        Err(e) => {
                            return Err(e);
                        },
                    };
                    if entry.length > u64::MAX - self.total {
                        return Err(Error::IntegerRange);
                    }
                    let file = FileEntry { path, length: Bytes(entry.length) };
                    proof {
                        lemma_views_push(self.found@, file);
                    }
                    self.found.push(file);
                    self.total = self.total + entry.length;
                },
            }
            assert(self@ == before.take(dir@, entry@)->Ok_0);
            i += 1;
        }
        assert(all.take(entries.len() as int) =~= all);
        Ok(())
    }

    /// Ends the walk: the files found, in the order asked for. Where the
    /// root is a file, it is the one entry. Fails with `PathComponent` where
    /// two files found have the same path.
    pub fn files(self) -> (r: Result<Files, Error>)
        requires
            self@.wf(),
        ensures
            self@.root_file matches Some(length) ==> (r matches Ok(files) && files@ == (FilesView {
                single: true,
                entries: seq![FileEntryView { path: Seq::empty(), length }],
                total_size: length,
            })),
            self@.root_file is None ==> (r is Ok <==> distinct_paths(self@.found)),
            r matches Ok(files) ==> files@.wf(),
            r matches Ok(files) ==> self@.root_file is None ==> {
                &&& !files@.single
                &&& sorted(self@.file_order, files@.entries)
                &&& is_permutation(files@.entries, self@.found)
                &&& distinct_paths(files@.entries)
                &&& files@.total_size == self@.total
            },
            r matches Err(e) ==> e == Error::PathComponent,
    {
        match self.root_file {
            Some(length) => Ok(Files::file(Bytes(length))),
            None => {
                match sort(&self.found, self.file_order) {
                    Ok(entries) => Ok(
                        Files { single: false, entries, total_size: Bytes(self.total) },
                    ),
                    Err(e) => Err(e),
                }
            },
        }
    }
}

} // verus!

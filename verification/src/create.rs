//! The decisions of creating a torrent, from the options given to the
//! metainfo document.
//!
//! Creating a torrent reads the file system and the clock between these
//! decisions. The caller does that, and proceeds in this order: `prepare`;
//! the walk, with the walker of the plan; `settle`; `check_output`;
//! `hasher`, and the hashing; `metainfo`; and the serialisation.

use crate::bytes::Bytes;
use crate::error::Error;
use crate::error::Malformed;
use crate::file_order::FileOrder;
use crate::file_path::lemma_views_push;
use crate::file_path::views;
use crate::hasher::Hasher;
use crate::lint::Lint;
use crate::lint::Linter;
use crate::magnet::all_urls;
use crate::magnet::distinct;
use crate::magnet::has_infohash;
use crate::magnet::normal_forms;
use crate::magnet::tracker_texts;
use crate::magnet::MagnetLink;
use crate::magnet::MagnetLinkView;
use crate::metainfo::optional_text;
use crate::metainfo::tiers_view;
use crate::metainfo::HostPort;
use crate::metainfo::Info;
use crate::metainfo::InfoView;
use crate::metainfo::Metainfo;
use crate::metainfo::MetainfoView;
use crate::metainfo::Mode;
use crate::metainfo::ModeView;
use crate::metainfo::PieceList;
use crate::piece_length_picker::from_content_size;
use crate::piece_length_picker::picked;
use crate::text::split;
use crate::text::split_text;
use crate::text::string_from_utf8;
use crate::urls::url_normal_form;
use crate::urls::url_parse;
use crate::walker::globs_valid;
use crate::walker::patterns_of;
use crate::walker::Walker;
use crate::walker::WalkerView;
use vstd::prelude::*;
use vstd::string::StringExecFns;
use vstd::utf8::decode_utf8;
use vstd::utf8::valid_utf8;

verus! {

/// Where the torrent is written.
#[derive(Debug, PartialEq, Eq)]
pub enum OutputTarget {
    /// To the file at this path.
    File(String),
    /// To standard output.
    Stdout,
}

/// Where the torrent is written, once the name of the torrent is known.
#[derive(Debug, PartialEq, Eq)]
pub enum Destination {
    /// To standard output.
    Stdout,
    /// To the file at this path.
    File(String),
    /// To the file of this name in the directory that holds the input.
    BesideInput(String),
}

/// What a `Destination` holds.
pub enum DestinationView {
    Stdout,
    File(Seq<char>),
    BesideInput(Seq<char>),
}

impl View for Destination {
    type V = DestinationView;

    open spec fn view(&self) -> DestinationView {
        match self {
            Destination::Stdout => DestinationView::Stdout,
            Destination::File(path) => DestinationView::File(path@),
            Destination::BesideInput(name) => DestinationView::BesideInput(name@),
        }
    }
}

impl OutputTarget {
    /// The target that `text` stands for: standard output for `-`, else the
    /// file at that path.
    pub fn parse(text: &str) -> (target: OutputTarget)
        ensures
            text@ == "-"@ ==> target is Stdout,
            text@ != "-"@ ==> (target matches OutputTarget::File(path) && path@ == text@),
    {
        proof {
            reveal_strlit("-");
        }
        let n = text.unicode_len();
        if n == 1 && text.get_char(0) == '-' {
            assert(text@ =~= "-"@);
            OutputTarget::Stdout
        } else {
            OutputTarget::File(text.to_owned())
        }
    }
}

/// The options of creating a torrent.
#[derive(Debug)]
pub struct Create {
    /// The primary announce URL, as given.
    pub announce: Option<String>,
    /// The lints that are allowed.
    pub allowed_lints: Vec<Lint>,
    /// The announce tiers, each a list of URLs with commas between them.
    pub announce_tiers: Vec<String>,
    pub comment: Option<String>,
    pub dht_nodes: Vec<HostPort>,
    pub dry_run: bool,
    pub follow_symlinks: bool,
    pub force: bool,
    pub globs: Vec<String>,
    pub include_hidden: bool,
    pub include_junk: bool,
    pub print_magnet_link: bool,
    pub md5sum: bool,
    pub name: Option<String>,
    pub no_created_by: bool,
    pub no_creation_date: bool,
    pub open: bool,
    pub order: Option<FileOrder>,
    pub output: Option<OutputTarget>,
    pub peers: Vec<HostPort>,
    pub piece_length: Option<Bytes>,
    pub private: bool,
    pub show: bool,
    pub source: Option<String>,
}

/// What is decided before the content is looked at.
pub struct Plan {
    pub linter: Linter,
    /// The primary announce URL, serialised.
    pub announce: Option<String>,
    /// The announce tiers, as given; nothing where none was given.
    pub announce_list: Option<Vec<Vec<String>>>,
    pub walker: Walker,
}

/// What is decided once the content has been walked.
pub struct Settled {
    pub piece_length: Bytes,
    pub name: String,
    pub destination: Destination,
}

/// The string that names the tool and its version in `created by`.
pub open spec fn created_by_default() -> Seq<char> {
    "torrent_create 0.1.0"@
}

/// The linter that allows the lints of `lints`, and no other.
pub open spec fn linter_of(lints: Seq<Lint>) -> Linter {
    Linter {
        uneven_piece_length: lints.contains(Lint::UnevenPieceLength),
        small_piece_length: lints.contains(Lint::SmallPieceLength),
        private_trackerless: lints.contains(Lint::PrivateTrackerless),
    }
}

/// Every entry of the announce tier `text` is a URL.
pub open spec fn tier_valid(text: Seq<char>) -> bool {
    forall|j: int|
        0 <= j < split(text, ',').len() ==> url_normal_form(#[trigger] split(text, ',')[j]) is Some
}

/// Every entry of every announce tier is a URL.
pub open spec fn tiers_valid(texts: Seq<Seq<char>>) -> bool {
    forall|i: int| 0 <= i < texts.len() ==> tier_valid(#[trigger] texts[i])
}

/// The announce tiers: each text, parted at its commas.
pub open spec fn tiers_of(texts: Seq<Seq<char>>) -> Seq<Seq<Seq<char>>> {
    Seq::new(texts.len(), |i: int| split(texts[i], ','))
}

/// The announce list: the tiers, or nothing where there is none.
pub open spec fn announce_list_of(texts: Seq<Seq<char>>) -> Option<Seq<Seq<Seq<char>>>> {
    if texts.len() == 0 {
        None
    } else {
        Some(tiers_of(texts))
    }
}

/// The serialised announce URL, where one was given.
pub open spec fn announce_of(announce: Option<Seq<char>>) -> Option<Seq<char>> {
    match announce {
        Some(text) => url_normal_form(text),
        None => None,
    }
}

impl Create {
    /// The walker that these options ask for, before a walk.
    pub open spec fn walker_view(&self) -> WalkerView {
        WalkerView {
            include_hidden: self.include_hidden,
            include_junk: self.include_junk,
            follow_symlinks: self.follow_symlinks,
            file_order: match self.order {
                Some(order) => order,
                None => FileOrder::AlphabeticalAsc,
            },
            patterns: patterns_of(views(self.globs@)),
            root_file: None,
            pending: Seq::empty(),
            found: Seq::empty(),
            total: 0,
        }
    }

    /// Why no torrent can be planned: the first of an announce URL that is
    /// none, an announce tier with an entry that is no URL, a private
    /// torrent without announce URL where that is denied, and a glob that
    /// does not compile.
    pub open spec fn plan_fault(&self) -> Option<Error> {
        if self.announce matches Some(text) && url_normal_form(text@) is None {
            Some(Error::CliParse { what: Malformed::Announce })
        } else if !tiers_valid(views(self.announce_tiers@)) {
            Some(Error::AnnounceUrlParse)
        } else if linter_of(self.allowed_lints@).trackerless_fault(
            self.private,
            self.announce is Some,
        ) {
            Some(Error::PrivateTrackerless)
        } else if !globs_valid(views(self.globs@)) {
            Some(Error::GlobParse)
        } else {
            None
        }
    }

    /// The piece length of the torrent: the one given, else the one picked
    /// for the size of the content.
    pub open spec fn piece_length_for(&self, total_size: u64) -> u64 {
        match self.piece_length {
            Some(bytes) => bytes.0,
            None => picked(total_size as nat) as u64,
        }
    }

    /// Why the torrent cannot be settled: the first of a fault of the piece
    /// length, an input without a file name, and a file name that is not
    /// UTF-8 where no name was given.
    pub open spec fn settle_fault(
        &self,
        linter: Linter,
        total_size: u64,
        filename: Option<Seq<u8>>,
    ) -> Option<Error> {
        if linter.piece_length_fault(self.piece_length_for(total_size)) is Some {
            linter.piece_length_fault(self.piece_length_for(total_size))
        } else if filename is None {
            Some(Error::FilenameExtract)
        } else if self.name is None && !valid_utf8(filename->Some_0) {
            Some(Error::FilenameDecode)
        } else {
            None
        }
    }

    /// The name of the torrent: the one given, else the file name of the
    /// input.
    pub open spec fn name_for(&self, filename: Seq<u8>) -> Seq<char> {
        match self.name {
            Some(name) => name@,
            None => decode_utf8(filename),
        }
    }

    /// Where the torrent named `name` is written: where the options say,
    /// else to `name` with `.torrent` behind it, beside the input.
    pub open spec fn destination_for(&self, name: Seq<char>) -> DestinationView {
        match self.output {
            Some(OutputTarget::Stdout) => DestinationView::Stdout,
            Some(OutputTarget::File(path)) => DestinationView::File(path@),
            None => DestinationView::BesideInput(name + ".torrent"@),
        }
    }

    /// The document of the torrent, made at the time `now`.
    pub open spec fn metainfo_view(
        &self,
        announce: Option<Seq<char>>,
        announce_list: Option<Seq<Seq<Seq<char>>>>,
        name: Seq<char>,
        piece_length: u64,
        mode: ModeView,
        pieces: Seq<u8>,
        now: u64,
    ) -> MetainfoView {
        MetainfoView {
            announce,
            announce_list,
            nodes: if self.dht_nodes@.len() == 0 {
                None
            } else {
                Some(views(self.dht_nodes@))
            },
            comment: optional_text(self.comment),
            created_by: if self.no_created_by {
                None
            } else {
                Some(created_by_default())
            },
            creation_date: if self.no_creation_date {
                None
            } else {
                Some(now)
            },
            encoding: Some("UTF-8"@),
            info: InfoView {
                name,
                piece_length,
                pieces,
                mode,
                private: if self.private {
                    Some(true)
                } else {
                    None
                },
                source: optional_text(self.source),
            },
        }
    }

    /// The linter that allows the lints that the options allow.
    pub fn linter(&self) -> (linter: Linter)
        ensures
            linter == linter_of(self.allowed_lints@),
    {
        let mut linter = Linter::new();
        let mut i: usize = 0;
        assert(linter == linter_of(self.allowed_lints@.take(0))) by {
            assert(self.allowed_lints@.take(0) =~= Seq::<Lint>::empty());
            assert(!linter.allows(Lint::UnevenPieceLength));
            assert(!linter.allows(Lint::SmallPieceLength));
            assert(!linter.allows(Lint::PrivateTrackerless));
        }
        while i < self.allowed_lints.len()
            invariant
                i <= self.allowed_lints.len(),
                linter == linter_of(self.allowed_lints@.take(i as int)),
            decreases self.allowed_lints.len() - i,
        {
            let ghost before = self.allowed_lints@.take(i as int);
            let ghost after = self.allowed_lints@.take(i + 1);
            let lint = self.allowed_lints[i];
            let ghost was = linter;
            linter.allow(lint);
            proof {
                assert(after =~= before.push(lint));
                assert forall|other: Lint| after.contains(other) == (before.contains(other)
                    || other == lint) by {
                    if before.contains(other) {
                        let k = choose|k: int| 0 <= k < before.len() && before[k] == other;
                        assert(after[k] == other);
                    }
                    if other == lint {
                        assert(after[i as int] == other);
                    }
                }
                assert(linter.allows(Lint::UnevenPieceLength) == (was.allows(
                    Lint::UnevenPieceLength,
                ) || Lint::UnevenPieceLength == lint));
                assert(linter.allows(Lint::SmallPieceLength) == (was.allows(Lint::SmallPieceLength)
                    || Lint::SmallPieceLength == lint));
                assert(linter.allows(Lint::PrivateTrackerless) == (was.allows(
                    Lint::PrivateTrackerless,
                ) || Lint::PrivateTrackerless == lint));
            }
            i += 1;
        }
        assert(self.allowed_lints@.take(self.allowed_lints.len() as int) =~= self.allowed_lints@);
        linter
    }

    /// The entries of the announce tier `text`, if each is a URL.
    pub fn tier(text: &str) -> (r: Result<Vec<String>, Error>)
        ensures
            r is Ok <==> tier_valid(text@),
            r matches Ok(entries) ==> views(entries@) == split(text@, ','),
            r matches Err(e) ==> e == Error::AnnounceUrlParse,
    {
        let entries = split_text(text, ',');
        let mut j: usize = 0;
        while j < entries.len()
            invariant
                j <= entries.len(),
                views(entries@) == split(text@, ','),
                forall|k: int| 0 <= k < j ==> url_normal_form(#[trigger] split(text@, ',')[k]) is Some,
            decreases entries.len() - j,
        {
            assert(views(entries@)[j as int] == entries[j as int]@);
            match url_parse(entries[j].as_str()) {
                Ok(_) => {},
                Err(_) => {
                    return Err(Error::AnnounceUrlParse);
                },
            }
            j += 1;
        }
        Ok(entries)
    }

    /// The announce list, if every entry of every tier is a URL.
    pub fn announce_list(&self) -> (r: Result<Option<Vec<Vec<String>>>, Error>)
        ensures
            r is Ok <==> tiers_valid(views(self.announce_tiers@)),
            r matches Ok(list) ==> (match list {
                Some(tiers) => Some(tiers_view(tiers@)),
                None => None,
            }) == announce_list_of(views(self.announce_tiers@)),
            r matches Err(e) ==> e == Error::AnnounceUrlParse,
    {
        let ghost texts = views(self.announce_tiers@);
        let mut tiers: Vec<Vec<String>> = Vec::new();
        let mut i: usize = 0;
        assert(tiers_view(tiers@) =~= tiers_of(texts).take(0));
        while i < self.announce_tiers.len()
            invariant
                i <= self.announce_tiers.len(),
                texts == views(self.announce_tiers@),
                tiers.len() == i,
                tiers_view(tiers@) == tiers_of(texts).take(i as int),
                forall|k: int| 0 <= k < i ==> tier_valid(#[trigger] texts[k]),
            decreases self.announce_tiers.len() - i,
        {
            assert(texts[i as int] == self.announce_tiers[i as int]@);
            match Create::tier(self.announce_tiers[i].as_str()) {
                Ok(entries) => {
                    let ghost before = tiers@;
                    tiers.push(entries);
                    assert(tiers_view(tiers@) =~= tiers_of(texts).take(i + 1)) by {
                        assert(tiers_view(tiers@).len() == i + 1);
                        assert forall|k: int| 0 <= k < i + 1 implies tiers_view(tiers@)[k]
                            == tiers_of(texts).take(i + 1)[k] by {
                            if k < i {
                                assert(tiers@[k] == before[k]);
                                assert(tiers_view(before)[k] == tiers_of(texts).take(i as int)[k]);
                            }
                        }
                    }
                },
                Err(e) => {
                    return Err(e);
                },
            }
            i += 1;
        }
        assert(tiers_of(texts).take(self.announce_tiers.len() as int) =~= tiers_of(texts));
        if tiers.len() == 0 {
            Ok(None)
        } else {
            Ok(Some(tiers))
        }
    }

    /// The walker that the options ask for.
    pub fn walker(&self) -> (r: Result<Walker, Error>)
        ensures
            r is Ok <==> globs_valid(views(self.globs@)),
            r matches Ok(walker) ==> (walker@ == self.walker_view() && walker@.wf()),
            r matches Err(e) ==> e == Error::GlobParse,
    {
        let order = match self.order {
            Some(order) => order,
            None => FileOrder::AlphabeticalAsc,
        };
        let walker = Walker::new().include_junk(self.include_junk).include_hidden(
            self.include_hidden,
        ).follow_symlinks(self.follow_symlinks).file_order(order);
        match walker.globs(&self.globs) {
            Ok(walker) => {
                assert(walker@.patterns =~= self.walker_view().patterns);
                assert(walker@.found =~= Seq::empty());
                Ok(walker)
            },
            Err(e) => Err(e),
        }
    }

    /// What is decided before the content is looked at.
    pub fn prepare(&self) -> (r: Result<Plan, Error>)
        ensures
            r is Ok <==> self.plan_fault() is None,
            r matches Err(e) ==> self.plan_fault() == Some(e),
            r matches Ok(plan) ==> {
                &&& plan.linter == linter_of(self.allowed_lints@)
                &&& optional_text(plan.announce) == announce_of(optional_text(self.announce))
                &&& (match plan.announce_list {
                    Some(tiers) => Some(tiers_view(tiers@)),
                    None => None,
                }) == announce_list_of(views(self.announce_tiers@))
                &&& plan.walker@ == self.walker_view()
                &&& plan.walker@.wf()
            },
    {
        let linter = self.linter();
        let announce = match &self.announce {
            Some(text) => match url_parse(text.as_str()) {
                Ok(url) => Some(url),
                Err(_) => {
                    return Err(Error::CliParse { what: Malformed::Announce });
                },
            },
            None => None,
        };
        let announce_list = match self.announce_list() {
            Ok(list) => list,
            Err(e) => {
                return Err(e);
            },
        };
        match linter.check_trackerless(self.private, self.announce.is_some()) {
            Ok(()) => {},
            Err(e) => {
                return Err(e);
            },
        }
        let walker = match self.walker() {
            Ok(walker) => walker,
            Err(e) => {
                return Err(e);
            },
        };
        Ok(Plan { linter, announce, announce_list, walker })
    }

    /// What is decided once the content has been walked and its size is
    /// known: the piece length, the name, and where the torrent goes.
    /// `filename` is the last component of the input path, where it has one.
    pub fn settle(&self, linter: &Linter, total_size: Bytes, filename: Option<&[u8]>) -> (r: Result<
        Settled,
        Error,
    >)
        ensures
            r is Ok <==> self.settle_fault(
                *linter,
                total_size.0,
                match filename {
                    Some(f) => Some(f@),
                    None => None,
                },
            ) is None,
            r matches Err(e) ==> self.settle_fault(
                *linter,
                total_size.0,
                match filename {
                    Some(f) => Some(f@),
                    None => None,
                },
            ) == Some(e),
            r matches Ok(settled) ==> {
                &&& settled.piece_length.0 == self.piece_length_for(total_size.0)
                &&& settled.name@ == self.name_for(filename->Some_0@)
                &&& settled.destination@ == self.destination_for(settled.name@)
            },
    {
        broadcast use vstd::utf8::encode_utf8_decode_utf8;

        let piece_length = match self.piece_length {
            Some(bytes) => bytes,
            None => {
                proof {
                    crate::piece_length_picker::lemma_picked(total_size.0 as nat);
                }
                from_content_size(total_size)
            },
        };
        match linter.check_piece_length(piece_length) {
            Ok(()) => {},
            Err(e) => {
                return Err(e);
            },
        }
        let filename = match filename {
            Some(filename) => filename,
            None => {
                return Err(Error::FilenameExtract);
            },
        };
        let name = match &self.name {
            Some(name) => name.clone(),
            None => match string_from_utf8(crate::file_path::copy_bytes(filename)) {
                Some(name) => name,
                None => {
                    return Err(Error::FilenameDecode);
                },
            },
        };
        let destination = match &self.output {
            Some(OutputTarget::Stdout) => Destination::Stdout,
            Some(OutputTarget::File(path)) => Destination::File(path.clone()),
            None => Destination::BesideInput(name.clone().concat(".torrent")),
        };
        Ok(Settled { piece_length, name, destination })
    }

    /// Lets the torrent be written to a file unless the file exists and may
    /// not be overwritten.
    pub fn check_output(&self, exists: bool) -> (r: Result<(), Error>)
        ensures
            r == (if exists && !self.force {
                Err::<(), Error>(Error::OutputExists)
            } else {
                Ok(())
            }),
    {
        if exists && !self.force {
            Err(Error::OutputExists)
        } else {
            Ok(())
        }
    }

    /// The time of creation that goes into the torrent, where one does, at
    /// the time `now` in seconds since 1970.
    pub fn creation_date(&self, now: u64) -> (date: Option<u64>)
        ensures
            date == (if self.no_creation_date {
                None
            } else {
                Some(now)
            }),
    {
        if self.no_creation_date {
            None
        } else {
            Some(now)
        }
    }

    /// The hasher for pieces of `piece_length` bytes, which must not be
    /// zero and which 32 bits must hold.
    pub fn hasher(&self, piece_length: Bytes) -> (r: Result<Hasher, Error>)
        ensures
            r is Ok <==> 0 < piece_length.0 <= u32::MAX,
            r matches Err(e) ==> e == (if piece_length.0 > u32::MAX {
                Error::PieceLengthTooLarge { bytes: piece_length }
            } else {
                Error::PieceLengthZero
            }),
            r matches Ok(hasher) ==> {
                &&& hasher.wf()
                &&& hasher.content() == Seq::<u8>::empty()
                &&& hasher.current() == Seq::<u8>::empty()
                &&& hasher.infos() == Seq::<crate::metainfo::FileInfoView>::empty()
                &&& hasher.piece_length() == piece_length.0
                &&& hasher.md5sum() == self.md5sum
            },
    {
        match piece_length.as_piece_length() {
            Ok(length) => Hasher::new(self.md5sum, length),
            Err(e) => Err(e),
        }
    }

    /// The magnet link that is printed, where one is asked for: that of
    /// `metainfo`, with the peers of the options.
    pub fn link(&self, metainfo: &Metainfo) -> (r: Result<Option<MagnetLink>, Error>)
        ensures
            !self.print_magnet_link ==> r matches Ok(None),
            self.print_magnet_link ==> (r is Ok <==> has_infohash(metainfo@) && all_urls(
                tracker_texts(metainfo@.announce, metainfo@.announce_list),
            )),
            r matches Ok(Some(link)) ==> link@ == (MagnetLinkView {
                infohash: metainfo@.infohash(),
                name: Some(metainfo@.info.name),
                trackers: distinct(
                    normal_forms(tracker_texts(metainfo@.announce, metainfo@.announce_list)),
                ),
                peers: views(self.peers@),
            }),
            self.print_magnet_link ==> !(r matches Ok(None)),
            r matches Err(e) ==> e == (if has_infohash(metainfo@) {
                Error::AnnounceUrlParse
            } else {
                Error::IntegerRange
            }),
    {
        if !self.print_magnet_link {
            return Ok(None);
        }
        let mut link = match MagnetLink::from_metainfo(metainfo) {
            Ok(link) => link,
            Err(e) => {
                return Err(e);
            },
        };
        let ghost start = link@;
        let mut i: usize = 0;
        assert(views(self.peers@).take(0) =~= Seq::empty());
        while i < self.peers.len()
            invariant
                i <= self.peers.len(),
                link@ == (MagnetLinkView { peers: views(self.peers@).take(i as int), ..start }),
            decreases self.peers.len() - i,
        {
            let peer = HostPort { host: self.peers[i].host.clone(), port: self.peers[i].port };
            link.add_peer(peer);
            assert(views(self.peers@).take(i + 1) =~= views(self.peers@).take(i as int).push(
                self.peers[i as int]@,
            ));
            i += 1;
        }
        assert(views(self.peers@).take(self.peers.len() as int) =~= views(self.peers@));
        Ok(Some(link))
    }

    /// The document of the torrent, made at the time `now` in seconds since
    /// 1970.
    pub fn metainfo(
        &self,
        announce: Option<String>,
        announce_list: Option<Vec<Vec<String>>>,
        name: String,
        piece_length: Bytes,
        mode: Mode,
        pieces: PieceList,
        now: u64,
    ) -> (metainfo: Metainfo)
        ensures
            metainfo@ == self.metainfo_view(
                optional_text(announce),
                match announce_list {
                    Some(tiers) => Some(tiers_view(tiers@)),
                    None => None,
                },
                name@,
                piece_length.0,
                mode@,
                pieces@,
                now,
            ),
    {
        let nodes = if self.dht_nodes.len() == 0 {
            None
        } else {
            let mut nodes: Vec<HostPort> = Vec::new();
            let mut i: usize = 0;
            while i < self.dht_nodes.len()
                invariant
                    i <= self.dht_nodes.len(),
                    views(nodes@) == views(self.dht_nodes@).take(i as int),
                decreases self.dht_nodes.len() - i,
            {
                let node = HostPort {
                    host: self.dht_nodes[i].host.clone(),
                    port: self.dht_nodes[i].port,
                };
                proof {
                    lemma_views_push(nodes@, node);
                }
                nodes.push(node);
                assert(views(nodes@) =~= views(self.dht_nodes@).take(i + 1));
                i += 1;
            }
            assert(views(self.dht_nodes@).take(self.dht_nodes.len() as int) =~= views(
                self.dht_nodes@,
            ));
            Some(nodes)
        };
        let comment = match &self.comment {
            Some(text) => Some(text.clone()),
            None => None,
        };
        let source = match &self.source {
            Some(text) => Some(text.clone()),
            None => None,
        };
        let created_by = if self.no_created_by {
            None
        } else {
            Some("torrent_create 0.1.0".to_owned())
        };
        let private = if self.private {
            Some(true)
        } else {
            None
        };
        Metainfo {
            announce,
            announce_list,
            nodes,
            comment,
            created_by,
            creation_date: self.creation_date(now),
            encoding: Some("UTF-8".to_owned()),
            info: Info { name, piece_length, pieces, mode, private, source },
        }
    }
}

/// To ask for the files by path, ascending, is to ask for no order: every
/// decision that goes into the torrent is the same.
pub proof fn lemma_default_order(with: Create, without: Create)
    requires
        with.order == Some(FileOrder::AlphabeticalAsc),
        without == (Create { order: None, ..with }),
    ensures
        with.walker_view() == without.walker_view(),
        with.plan_fault() == without.plan_fault(),
        forall|linter: Linter, total_size: u64, filename: Option<Seq<u8>>|
            with.settle_fault(linter, total_size, filename) == without.settle_fault(
                linter,
                total_size,
                filename,
            ),
        forall|total_size: u64|
            with.piece_length_for(total_size) == without.piece_length_for(total_size),
        forall|filename: Seq<u8>| with.name_for(filename) == without.name_for(filename),
        forall|name: Seq<char>| with.destination_for(name) == without.destination_for(name),
        forall|
            announce: Option<Seq<char>>,
            announce_list: Option<Seq<Seq<Seq<char>>>>,
            name: Seq<char>,
            piece_length: u64,
            mode: ModeView,
            pieces: Seq<u8>,
            now: u64,
        |
            with.metainfo_view(announce, announce_list, name, piece_length, mode, pieces, now)
                == without.metainfo_view(
                announce,
                announce_list,
                name,
                piece_length,
                mode,
                pieces,
                now,
            ),
{
}

/// Two documents made from the same options and content at different times
/// differ in the creation date at most, and in nothing where the creation
/// date is left out.
pub proof fn lemma_runs_differ_in_date(
    create: Create,
    announce: Option<Seq<char>>,
    announce_list: Option<Seq<Seq<Seq<char>>>>,
    name: Seq<char>,
    piece_length: u64,
    mode: ModeView,
    pieces: Seq<u8>,
    first: u64,
    second: u64,
)
    ensures
        create.metainfo_view(announce, announce_list, name, piece_length, mode, pieces, first)
            == (MetainfoView {
            creation_date: create.metainfo_view(
                announce,
                announce_list,
                name,
                piece_length,
                mode,
                pieces,
                first,
            ).creation_date,
            ..create.metainfo_view(
                announce,
                announce_list,
                name,
                piece_length,
                mode,
                pieces,
                second,
            )
        }),
        create.no_creation_date ==> create.metainfo_view(
            announce,
            announce_list,
            name,
            piece_length,
            mode,
            pieces,
            first,
        ) == create.metainfo_view(announce, announce_list, name, piece_length, mode, pieces, second),
{
}

/// The document made from whole SHA-1 digests, and from digests of sixteen
/// bytes for the files, is one that reading gives back once it has been
/// serialised.
pub proof fn lemma_created_can_be_read_back(
    create: Create,
    announce: Option<Seq<char>>,
    announce_list: Option<Seq<Seq<Seq<char>>>>,
    name: Seq<char>,
    piece_length: u64,
    mode: ModeView,
    pieces: Seq<u8>,
    now: u64,
)
    requires
        pieces.len() % 20 == 0,
        mode.readable(),
    ensures
        create.metainfo_view(announce, announce_list, name, piece_length, mode, pieces, now).readable(),
{
}

/// A torrent that can be planned and is private has an announce URL, or
/// the lint `private-trackerless` is allowed.
pub proof fn lemma_private_has_tracker(create: Create)
    requires
        create.plan_fault() is None,
        create.private,
    ensures
        create.announce is Some || linter_of(create.allowed_lints@).allows(
            Lint::PrivateTrackerless,
        ),
{
}

/// A piece length that passes the linter is not zero; it is a power of two
/// unless `uneven-piece-length` is allowed, and at least 16 KiB unless
/// `small-piece-length` is allowed.
pub proof fn lemma_piece_length_passed(linter: Linter, piece_length: u64)
    requires
        linter.piece_length_fault(piece_length) is None,
    ensures
        piece_length > 0,
        linter.allows(Lint::UnevenPieceLength) || crate::piece_length_picker::power_of_two(
            piece_length as nat,
        ),
        linter.allows(Lint::SmallPieceLength) || piece_length >= 16384,
{
}

} // verus!

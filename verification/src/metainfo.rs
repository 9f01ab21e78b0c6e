//! The metainfo document and the bencode value that stands for it.

use crate::bytes::Bytes;
use crate::file_path::views;
use crate::file_path::FilePath;
use vstd::prelude::*;

verus! {

/// The length of a SHA-1 digest in bytes.
pub const SHA1_LENGTH: usize = 20;

/// A file of a torrent with several files.
#[derive(Debug, PartialEq, Eq)]
pub struct FileInfo {
    pub path: FilePath,
    pub length: Bytes,
    pub md5sum: Option<[u8; 16]>,
}

/// What a `FileInfo` holds.
pub struct FileInfoView {
    pub path: Seq<Seq<u8>>,
    pub length: u64,
    pub md5sum: Option<Seq<u8>>,
}

/// The bytes of an optional digest.
pub open spec fn digest_view(md5sum: Option<[u8; 16]>) -> Option<Seq<u8>> {
    match md5sum {
        Some(d) => Some(d@),
        None => None,
    }
}

impl View for FileInfo {
    type V = FileInfoView;

    open spec fn view(&self) -> FileInfoView {
        FileInfoView {
            path: self.path@,
            length: self.length.0,
            md5sum: digest_view(self.md5sum),
        }
    }
}

/// Whether a torrent holds one file or a directory of files.
#[derive(Debug, PartialEq, Eq)]
pub enum Mode {
    Single { length: Bytes, md5sum: Option<[u8; 16]> },
    Multiple { files: Vec<FileInfo> },
}

/// What a `Mode` holds.
pub enum ModeView {
    Single { length: u64, md5sum: Option<Seq<u8>> },
    Multiple { files: Seq<FileInfoView> },
}

impl View for Mode {
    type V = ModeView;

    open spec fn view(&self) -> ModeView {
        match self {
            Mode::Single { length, md5sum } => ModeView::Single {
                length: length.0,
                md5sum: digest_view(*md5sum),
            },
            Mode::Multiple { files } => ModeView::Multiple { files: views(files@) },
        }
    }
}

/// The SHA-1 digests of the pieces of a torrent, one after the other.
#[derive(Debug, PartialEq, Eq)]
pub struct PieceList {
    pub bytes: Vec<u8>,
}

impl View for PieceList {
    type V = Seq<u8>;

    open spec fn view(&self) -> Seq<u8> {
        self.bytes@
    }
}

impl PieceList {
    /// The list holds whole digests only.
    pub open spec fn wf(&self) -> bool {
        self@.len() % 20 == 0
    }

    /// The number of digests that `bytes` holds.
    pub open spec fn spec_count(bytes: Seq<u8>) -> nat {
        bytes.len() / 20
    }

    /// The list without digests.
    pub fn new() -> (list: PieceList)
        ensures
            list@ == Seq::<u8>::empty(),
            list.wf(),
    {
        PieceList { bytes: Vec::new() }
    }

    /// The list that holds the digests that `bytes` is made of, if it is
    /// made of whole digests.
    pub fn from_bytes(bytes: Vec<u8>) -> (r: Option<PieceList>)
        ensures
            r is Some <==> bytes@.len() % 20 == 0,
            r matches Some(list) ==> list@ == bytes@ && list.wf(),
    {
        if bytes.len() % SHA1_LENGTH == 0 {
            Some(PieceList { bytes })
        } else {
            None
        }
    }

    /// The number of digests.
    pub fn count(&self) -> (n: usize)
        ensures
            n == Self::spec_count(self@),
    {
        self.bytes.len() / SHA1_LENGTH
    }

    /// Adds a digest at the end.
    pub fn push(&mut self, digest: &[u8; 20])
        requires
            old(self).wf(),
        ensures
            final(self)@ == old(self)@ + digest@,
            final(self).wf(),
    {
        let mut i: usize = 0;
        while i < 20
            invariant
                i <= 20,
                self@ == old(self)@ + digest@.take(i as int),
            decreases 20 - i,
        {
            self.bytes.push(digest[i]);
            assert(self@ =~= old(self)@ + digest@.take(i + 1));
            i += 1;
        }
        assert(digest@.take(20) =~= digest@);
    }

    /// The digest at position `i`.
    pub fn get(&self, i: usize) -> (digest: [u8; 20])
        requires
            i < Self::spec_count(self@),
        ensures
            digest@ == self@.subrange(20 * i, 20 * i + 20),
    {
        let mut digest: [u8; 20] = [0u8; 20];
        let mut k: usize = 0;
        assert(20 * i + 20 <= self.bytes.len());
        while k < 20
            invariant
                k <= 20,
                20 * i + 20 <= self.bytes.len(),
                forall|j: int| 0 <= j < k ==> digest@[j] == self@[20 * i + j],
            decreases 20 - k,
        {
            digest[k] = self.bytes[20 * i + k];
            k += 1;
        }
        assert(digest@ =~= self@.subrange(20 * i, 20 * i + 20));
        digest
    }
}

/// A DHT node: a host and a port.
#[derive(Debug, PartialEq, Eq)]
pub struct HostPort {
    pub host: String,
    pub port: u16,
}

/// What a `HostPort` holds.
pub struct HostPortView {
    pub host: Seq<char>,
    pub port: u16,
}

impl View for HostPort {
    type V = HostPortView;

    open spec fn view(&self) -> HostPortView {
        HostPortView { host: self.host@, port: self.port }
    }
}

/// The part of the metainfo that identifies the torrent.
#[derive(Debug, PartialEq, Eq)]
pub struct Info {
    pub name: String,
    pub piece_length: Bytes,
    pub pieces: PieceList,
    pub mode: Mode,
    pub private: Option<bool>,
    pub source: Option<String>,
}

/// What an `Info` holds.
pub struct InfoView {
    pub name: Seq<char>,
    pub piece_length: u64,
    pub pieces: Seq<u8>,
    pub mode: ModeView,
    pub private: Option<bool>,
    pub source: Option<Seq<char>>,
}

/// What an optional string holds.
pub open spec fn optional_text(text: Option<String>) -> Option<Seq<char>> {
    match text {
        Some(s) => Some(s@),
        None => None,
    }
}

impl View for Info {
    type V = InfoView;

    open spec fn view(&self) -> InfoView {
        InfoView {
            name: self.name@,
            piece_length: self.piece_length.0,
            pieces: self.pieces@,
            mode: self.mode@,
            private: self.private,
            source: optional_text(self.source),
        }
    }
}

/// The document that describes a torrent.
#[derive(Debug, PartialEq, Eq)]
pub struct Metainfo {
    pub announce: Option<String>,
    pub announce_list: Option<Vec<Vec<String>>>,
    pub nodes: Option<Vec<HostPort>>,
    pub comment: Option<String>,
    pub created_by: Option<String>,
    pub creation_date: Option<u64>,
    pub encoding: Option<String>,
    pub info: Info,
}

/// What a `Metainfo` holds.
pub struct MetainfoView {
    pub announce: Option<Seq<char>>,
    pub announce_list: Option<Seq<Seq<Seq<char>>>>,
    pub nodes: Option<Seq<HostPortView>>,
    pub comment: Option<Seq<char>>,
    pub created_by: Option<Seq<char>>,
    pub creation_date: Option<u64>,
    pub encoding: Option<Seq<char>>,
    pub info: InfoView,
}

/// What a list of announce tiers holds.
pub open spec fn tiers_view(tiers: Seq<Vec<String>>) -> Seq<Seq<Seq<char>>> {
    Seq::new(tiers.len(), |i: int| views(tiers[i]@))
}

impl View for Metainfo {
    type V = MetainfoView;

    open spec fn view(&self) -> MetainfoView {
        MetainfoView {
            announce: optional_text(self.announce),
            announce_list: match self.announce_list {
                Some(tiers) => Some(tiers_view(tiers@)),
                None => None,
            },
            nodes: match self.nodes {
                Some(nodes) => Some(views(nodes@)),
                None => None,
            },
            comment: optional_text(self.comment),
            created_by: optional_text(self.created_by),
            creation_date: self.creation_date,
            encoding: optional_text(self.encoding),
            info: self.info@,
        }
    }
}

} // verus!

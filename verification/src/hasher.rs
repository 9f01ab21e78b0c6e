//! The piece hasher: file contents in, piece digests and file digests out.

use crate::bytes::Bytes;
use crate::error::Error;
use crate::files::FileEntryView;
use crate::files::Files;
use crate::digest::md5_compute;
use crate::digest::md5_consume;
use crate::digest::md5_digest;
use crate::digest::md5_input;
use crate::digest::md5_new;
use crate::digest::sha1_digest;
use crate::digest::sha1_finish;
use crate::digest::sha1_input;
use crate::digest::sha1_new;
use crate::digest::sha1_reset;
use crate::digest::sha1_update;
use crate::file_path::lemma_views_push;
use crate::file_path::views;
use crate::file_path::FilePath;
use crate::metainfo::FileInfo;
use crate::metainfo::FileInfoView;
use crate::metainfo::Mode;
use crate::metainfo::ModeView;
use crate::metainfo::PieceList;
use vstd::arithmetic::div_mod::lemma_fundamental_div_mod_converse;
use vstd::prelude::*;
use vstd::slice::slice_subrange;

verus! {

/// The number of pieces of `piece_length` bytes that `length` bytes make,
/// the last of which may be short.
pub open spec fn piece_count(length: nat, piece_length: nat) -> nat {
    if piece_length == 0 {
        0
    } else {
        ((length + piece_length - 1) / (piece_length as int)) as nat
    }
}

/// Piece `i` of `content`: `piece_length` bytes from `i * piece_length` on,
/// or what is left of `content` there.
pub open spec fn piece(content: Seq<u8>, piece_length: nat, i: int) -> Seq<u8> {
    let start = i * piece_length;
    if start + piece_length <= content.len() {
        content.subrange(start, start + piece_length)
    } else {
        content.subrange(start, content.len() as int)
    }
}

/// The SHA-1 digests of the pieces of `content`, one after the other.
pub open spec fn piece_digests(content: Seq<u8>, piece_length: nat) -> Seq<u8> {
    Seq::new(
        20 * piece_count(content.len(), piece_length),
        |j: int| sha1_digest(piece(content, piece_length, j / 20))[j % 20],
    )
}

/// The contents of `contents`, one after the other.
pub open spec fn concat(contents: Seq<Seq<u8>>) -> Seq<u8>
    decreases contents.len(),
{
    if contents.len() == 0 {
        Seq::empty()
    } else {
        concat(contents.drop_last()) + contents.last()
    }
}

/// What the hasher records of a file at `path` with the content `content`.
pub open spec fn file_info(path: Seq<Seq<u8>>, content: Seq<u8>, md5sum: bool) -> FileInfoView {
    FileInfoView {
        path,
        length: content.len() as u64,
        md5sum: if md5sum {
            Some(md5_digest(content))
        } else {
            None
        },
    }
}

/// What the hasher records of the files `entries` with the contents
/// `contents`.
pub open spec fn file_infos(
    entries: Seq<FileEntryView>,
    contents: Seq<Seq<u8>>,
    md5sum: bool,
) -> Seq<FileInfoView> {
    Seq::new(contents.len(), |i: int| file_info(entries[i].path, contents[i], md5sum))
}

/// There is one content for each entry, of the length that the entry
/// gives.
pub open spec fn contents_match(entries: Seq<FileEntryView>, contents: Seq<Seq<u8>>) -> bool {
    &&& contents.len() == entries.len()
    &&& forall|i: int| 0 <= i < contents.len() ==> (#[trigger] contents[i]).len() == entries[i].length
}

/// The mode of a torrent of `length` bytes in all whose files are recorded
/// as `infos`.
pub open spec fn mode_of(single: bool, length: nat, infos: Seq<FileInfoView>) -> ModeView {
    if single {
        ModeView::Single {
            length: length as u64,
            md5sum: if infos.len() > 0 {
                infos[0].md5sum
            } else {
                None
            },
        }
    } else {
        ModeView::Multiple { files: infos }
    }
}

/// `full` whole pieces and `rest` more bytes, where `0 < rest <=
/// piece_length`, make `full + 1` pieces; `full` whole pieces make `full`.
pub proof fn lemma_piece_count(full: nat, rest: nat, piece_length: nat)
    requires
        piece_length > 0,
        0 < rest <= piece_length,
    ensures
        piece_count(full * piece_length + rest, piece_length) == full + 1,
        piece_count(full * piece_length, piece_length) == full,
{
    let p = piece_length as int;
    let f = full as int;
    assert((f + 1) * p == f * p + p) by (nonlinear_arith);
    lemma_fundamental_div_mod_converse(f * p + rest + p - 1, p, f + 1, rest - 1);
    if f == 0 {
        assert(0 * p == 0);
        lemma_fundamental_div_mod_converse(p - 1, p, 0, p - 1);
    } else {
        assert((f - 1) * p == f * p - p) by (nonlinear_arith);
        lemma_fundamental_div_mod_converse(f * p + p - 1, p, f, p - 1);
    }
}

/// The pieces of any content cover it: all but the last are whole, and the
/// last is not empty.
pub proof fn lemma_pieces_cover(length: nat, piece_length: nat)
    requires
        piece_length > 0,
    ensures
        piece_count(length, piece_length) * piece_length >= length,
        length > 0 ==> length > (piece_count(length, piece_length) - 1) * piece_length,
        length == 0 ==> piece_count(length, piece_length) == 0,
{
    let p = piece_length as int;
    let x = length + p - 1;
    let q = x / p;
    vstd::arithmetic::div_mod::lemma_fundamental_div_mod(x, p);
    vstd::arithmetic::div_mod::lemma_mod_bound(x, p);
    assert(x == p * q + x % p);
    assert(p * q == q * p) by (nonlinear_arith);
    assert((q - 1) * p == q * p - p) by (nonlinear_arith);
    if length == 0 {
        lemma_fundamental_div_mod_converse(p - 1, p, 0, p - 1);
    } else {
        assert(q >= 0) by (nonlinear_arith)
            requires
                x >= 0,
                p > 0,
                q == x / p,
        ;
    }
}

/// The digests of content that ends in a piece of its own are the digests
/// of what comes before that piece, and the digest of that piece.
pub proof fn lemma_piece_digests_append(
    content: Seq<u8>,
    full: nat,
    piece_length: nat,
    digest: Seq<u8>,
)
    requires
        piece_length > 0,
        full * piece_length < content.len() <= full * piece_length + piece_length,
        digest.len() == 20,
        digest == sha1_digest(content.skip((full * piece_length) as int)),
    ensures
        piece_digests(content, piece_length) == piece_digests(
            content.take((full * piece_length) as int),
            piece_length,
        ) + digest,
{
    let start = (full * piece_length) as int;
    let before = content.take(start);
    let rest = (content.len() - start) as nat;
    lemma_piece_count(full, rest, piece_length);
    let whole = piece_digests(content, piece_length);
    let parts = piece_digests(before, piece_length) + digest;
    assert(whole.len() == parts.len());
    assert forall|j: int| 0 <= j < whole.len() implies whole[j] == parts[j] by {
        let i = j / 20;
        if j < 20 * full {
            assert(i < full);
            assert(i * piece_length + piece_length <= start) by (nonlinear_arith)
                requires
                    0 <= i < full,
                    start == full * piece_length,
            ;
            assert(i * piece_length >= 0) by (nonlinear_arith)
                requires
                    0 <= i,
            ;
            assert(piece(content, piece_length, i) =~= piece(before, piece_length, i));
        } else {
            assert(i == full);
            assert(piece(content, piece_length, i) =~= content.skip(start));
            assert(parts[j] == digest[j - 20 * full]);
        }
    }
    assert(whole =~= parts);
}

/// The state of hashing the files of a torrent, one after the other.
pub struct Hasher {
    md5sum: bool,
    piece_length: usize,
    pieces: PieceList,
    sha1: sha1::Sha1,
    hashed: usize,
    length: u64,
    files: Vec<FileInfo>,
    md5: Option<md5::Context>,
    file_length: u64,
    fed: Ghost<Seq<u8>>,
    current: Ghost<Seq<u8>>,
    full: Ghost<nat>,
}

impl Hasher {
    /// All the bytes that the hasher has been given.
    pub closed spec fn content(&self) -> Seq<u8> {
        self.fed@
    }

    /// The bytes that the hasher has been given of the file that is not
    /// finished yet.
    pub closed spec fn current(&self) -> Seq<u8> {
        self.current@
    }

    /// What the hasher has recorded of the files that are finished.
    pub closed spec fn infos(&self) -> Seq<FileInfoView> {
        views(self.files@)
    }

    /// The length of a piece.
    pub closed spec fn piece_length(&self) -> nat {
        self.piece_length as nat
    }

    /// Whether the hasher computes the MD5 digest of each file.
    pub closed spec fn md5sum(&self) -> bool {
        self.md5sum
    }

    /// The digests hold the whole pieces of the content, and the running
    /// SHA-1 state what follows them.
    pub closed spec fn pieces_wf(&self) -> bool {
        let start = self.full@ * self.piece_length;
        &&& 0 < self.piece_length <= u32::MAX
        &&& start + self.hashed == self.fed@.len()
        &&& self.hashed < self.piece_length
        &&& self.pieces.wf()
        &&& self.pieces@ == piece_digests(self.fed@.take(start as int), self.piece_length as nat)
        &&& sha1_input(self.sha1) == self.fed@.skip(start as int)
    }

    /// The state is consistent.
    pub closed spec fn wf(&self) -> bool {
        &&& self.pieces_wf()
        &&& self.length == self.fed@.len()
        &&& self.file_length == self.current@.len()
        &&& self.file_length <= self.length
        &&& self.md5sum ==> self.md5 is Some && md5_input(self.md5->Some_0) == self.current@
        &&& !self.md5sum ==> self.md5 is None
    }

    /// A hasher that has been given nothing, for pieces of `piece_length`
    /// bytes, which must not be zero.
    pub fn new(md5sum: bool, piece_length: u32) -> (r: Result<Hasher, Error>)
        ensures
            r is Ok <==> piece_length > 0,
            r matches Err(e) ==> e == Error::PieceLengthZero,
            r matches Ok(hasher) ==> {
                &&& hasher.wf()
                &&& hasher.content() == Seq::<u8>::empty()
                &&& hasher.current() == Seq::<u8>::empty()
                &&& hasher.infos() == Seq::<FileInfoView>::empty()
                &&& hasher.piece_length() == piece_length
                &&& hasher.md5sum() == md5sum
            },
    {
        if piece_length == 0 {
            return Err(Error::PieceLengthZero);
        }
        let md5 = if md5sum {
            Some(md5_new())
        } else {
            None
        };
        let hasher = Hasher {
            md5sum,
            piece_length: piece_length as usize,
            pieces: PieceList::new(),
            sha1: sha1_new(),
            hashed: 0,
            length: 0,
            files: Vec::new(),
            md5,
            file_length: 0,
            fed: Ghost(Seq::empty()),
            current: Ghost(Seq::empty()),
            full: Ghost(0),
        };
        proof {
            assert(0 * piece_length == 0);
            lemma_piece_count(0, 1, piece_length as nat);
            assert(hasher.fed@.take(0) =~= Seq::<u8>::empty());
            assert(hasher.fed@.skip(0) =~= Seq::<u8>::empty());
            assert(hasher.pieces@ =~= piece_digests(Seq::empty(), piece_length as nat));
            assert(hasher.infos() =~= Seq::<FileInfoView>::empty());
        }
        Ok(hasher)
    }

    /// Takes the next bytes of the current file.
    pub fn update(&mut self, chunk: &[u8])
        requires
            old(self).wf(),
            old(self).content().len() + chunk@.len() <= u64::MAX,
        ensures
            final(self).wf(),
            final(self).content() == old(self).content() + chunk@,
            final(self).current() == old(self).current() + chunk@,
            final(self).infos() == old(self).infos(),
            final(self).piece_length() == old(self).piece_length(),
            final(self).md5sum() == old(self).md5sum(),
    {
        let mut offset: usize = 0;
        assert(self.fed@ =~= old(self).fed@ + chunk@.take(0));
        while offset < chunk.len()
            invariant
                offset <= chunk.len(),
                self.pieces_wf(),
                self.fed@ == old(self).fed@ + chunk@.take(offset as int),
                self.md5sum == old(self).md5sum,
                self.piece_length == old(self).piece_length,
                self.files == old(self).files,
                self.md5 == old(self).md5,
                self.file_length == old(self).file_length,
                self.length == old(self).length,
                self.current == old(self).current,
            decreases chunk.len() - offset,
        {
            let room = self.piece_length - self.hashed;
            let left = chunk.len() - offset;
            let n = if left < room {
                left
            } else {
                room
            };
            let part = slice_subrange(chunk, offset, offset + n);
            let ghost before = self.fed@;
            let ghost start = (self.full@ * self.piece_length) as int;
            sha1_update(&mut self.sha1, part);
            self.hashed = self.hashed + n;
            self.fed = Ghost(before + part@);
            offset = offset + n;
            assert(self.fed@ =~= old(self).fed@ + chunk@.take(offset as int));
            assert(self.fed@.take(start) =~= before.take(start));
            assert(self.fed@.skip(start) =~= before.skip(start) + part@);
            if self.hashed == self.piece_length {
                let digest = sha1_finish(&self.sha1);
                proof {
                    lemma_piece_digests_append(
                        self.fed@,
                        self.full@,
                        self.piece_length as nat,
                        digest@,
                    );
                    assert((self.full@ + 1) * self.piece_length == start + self.piece_length)
                        by (nonlinear_arith)
                        requires
                            start == self.full@ * self.piece_length,
                    ;
                    assert(self.fed@.take(self.fed@.len() as int) =~= self.fed@);
                    assert(self.fed@.skip(self.fed@.len() as int) =~= Seq::<u8>::empty());
                }
                self.pieces.push(&digest);
                sha1_reset(&mut self.sha1);
                self.hashed = 0;
                self.full = Ghost(self.full@ + 1);
            }
        }
        assert(chunk@.take(chunk@.len() as int) =~= chunk@);
        let context = self.md5.take();
        match context {
            Some(mut state) => {
                md5_consume(&mut state, chunk);
                self.md5 = Some(state);
            },
            None => {},
        }
        self.file_length = self.file_length + chunk.len() as u64;
        self.length = self.length + chunk.len() as u64;
        self.current = Ghost(self.current@ + chunk@);
    }

    /// Ends the current file, which lies at `path`, and records its length
    /// and, where asked for, its MD5 digest. The next bytes belong to the
    /// next file.
    pub fn finish_file(&mut self, path: FilePath)
        requires
            old(self).wf(),
        ensures
            final(self).wf(),
            final(self).content() == old(self).content(),
            final(self).current() == Seq::<u8>::empty(),
            final(self).infos() == old(self).infos().push(
                file_info(path@, old(self).current(), old(self).md5sum()),
            ),
            final(self).piece_length() == old(self).piece_length(),
            final(self).md5sum() == old(self).md5sum(),
    {
        let context = self.md5.take();
        let md5sum = match context {
            Some(state) => Some(md5_compute(state)),
            None => None,
        };
        if self.md5sum {
            self.md5 = Some(md5_new());
        }
        let info = FileInfo { path, length: Bytes(self.file_length), md5sum };
        proof {
            lemma_views_push(self.files@, info);
        }
        self.files.push(info);
        self.file_length = 0;
        self.current = Ghost(Seq::empty());
    }

    /// Ends hashing: the mode of the torrent and the digests of its pieces.
    /// The last piece is hashed as it is, however short. A torrent of one
    /// file takes its length from all the bytes given and its digest from
    /// the first file recorded.
    pub fn finish(self, single: bool) -> (r: (Mode, PieceList))
        requires
            self.wf(),
        ensures
            r.0@ == mode_of(single, self.content().len(), self.infos()),
            r.1@ == piece_digests(self.content(), self.piece_length()),
            r.1.wf(),
            PieceList::spec_count(r.1@) == piece_count(self.content().len(), self.piece_length()),
    {
        let ghost fed = self.fed@;
        let ghost full = self.full@;
        let ghost infos = self.infos();
        let ghost start = (full * self.piece_length) as int;
        let piece_length = self.piece_length;
        let mut pieces = self.pieces;
        if self.hashed > 0 {
            let digest = sha1_finish(&self.sha1);
            proof {
                lemma_piece_digests_append(fed, full, piece_length as nat, digest@);
            }
            pieces.push(&digest);
        } else {
            assert(fed.take(start) =~= fed);
        }
        let mode = if single {
            let md5sum = if self.files.len() > 0 {
                self.files[0].md5sum
            } else {
                None
            };
            Mode::Single { length: Bytes(self.length), md5sum }
        } else {
            Mode::Multiple { files: self.files }
        };
        (mode, pieces)
    }

    /// Hashes the files of `files`, whose contents are `contents`, in order.
    ///
    /// Fails with `PieceLengthZero` for a piece length of zero, else with
    /// `Filesystem` unless there is one content for each file, of the length
    /// listed, else with `IntegerRange` where the contents together are
    /// longer than 64 bits count.
    pub fn hash(files: &Files, md5sum: bool, piece_length: u32, contents: &Vec<Vec<u8>>) -> (r:
        Result<(Mode, PieceList), Error>)
        ensures
            r is Ok <==> piece_length > 0 && contents_match(files@.entries, views(contents@))
                && concat(views(contents@)).len() <= u64::MAX,
            r matches Err(e) ==> e == (if piece_length == 0 {
                Error::PieceLengthZero
            } else if !contents_match(files@.entries, views(contents@)) {
                Error::Filesystem
            } else {
                Error::IntegerRange
            }),
            r matches Ok((mode, pieces)) ==> {
                &&& pieces.wf()
                &&& pieces@ == piece_digests(concat(views(contents@)), piece_length as nat)
                &&& PieceList::spec_count(pieces@) == piece_count(
                    concat(views(contents@)).len(),
                    piece_length as nat,
                )
                &&& mode@ == mode_of(
                    files@.single,
                    concat(views(contents@)).len(),
                    file_infos(files@.entries, views(contents@), md5sum),
                )
            },
    {
        let mut hasher = match Hasher::new(md5sum, piece_length) {
            Ok(hasher) => hasher,
            Err(e) => {
                return Err(e);
            },
        };
        if contents.len() != files.entries.len() {
            return Err(Error::Filesystem);
        }
        let ghost all = views(contents@);
        let ghost entries = files@.entries;
        let mut k: usize = 0;
        while k < contents.len()
            invariant
                k <= contents.len(),
                piece_length > 0,
                all == views(contents@),
                entries == files@.entries,
                contents.len() == files.entries.len(),
                forall|i: int| 0 <= i < k ==> (#[trigger] all[i]).len() == entries[i].length,
            decreases contents.len() - k,
        {
            if contents[k].len() as u64 != files.entries[k].length.0 {
                assert(all[k as int].len() != entries[k as int].length);
                return Err(Error::Filesystem);
            }
            k += 1;
        }
        let mut i: usize = 0;
        assert(all.take(0) =~= Seq::<Seq<u8>>::empty());
        assert(hasher.infos() =~= file_infos(entries, all, md5sum).take(0));
        while i < contents.len()
            invariant
                i <= contents.len(),
                piece_length > 0,
                all == views(contents@),
                entries == files@.entries,
                contents.len() == files.entries.len(),
                contents_match(entries, all),
                hasher.wf(),
                hasher.content() == concat(all.take(i as int)),
                hasher.current() == Seq::<u8>::empty(),
                hasher.infos() == file_infos(entries, all, md5sum).take(i as int),
                hasher.piece_length() == piece_length,
                hasher.md5sum() == md5sum,
            decreases contents.len() - i,
        {
            let ghost before = hasher.content();
            proof {
                lemma_concat_take(all, i as int);
                assert(all.take(i + 1).drop_last() =~= all.take(i as int));
            }
            if contents[i].len() as u64 > u64::MAX - hasher.length {
                proof {
                    lemma_concat_grows(all, i + 1);
                }
                return Err(Error::IntegerRange);
            }
            hasher.update(contents[i].as_slice());
            assert(hasher.current() =~= all[i as int]);
            hasher.finish_file(files.entries[i].path.duplicate());
            assert(hasher.infos() =~= file_infos(entries, all, md5sum).take(i + 1));
            i += 1;
        }
        assert(all.take(contents.len() as int) =~= all);
        assert(file_infos(entries, all, md5sum).take(contents.len() as int) =~= file_infos(
            entries,
            all,
            md5sum,
        ));
        Ok(hasher.finish(files.single))
    }
}

/// The first `n + 1` contents, one after the other, are the first `n` and
/// then content `n`.
pub proof fn lemma_concat_take(contents: Seq<Seq<u8>>, n: int)
    requires
        0 <= n < contents.len(),
    ensures
        concat(contents.take(n + 1)) == concat(contents.take(n)) + contents[n],
{
    assert(contents.take(n + 1).drop_last() =~= contents.take(n));
}

/// All the contents together are no shorter than the first `n` of them.
pub proof fn lemma_concat_grows(contents: Seq<Seq<u8>>, n: int)
    requires
        0 <= n <= contents.len(),
    ensures
        concat(contents.take(n)).len() <= concat(contents).len(),
    decreases contents.len() - n,
{
    if n == contents.len() {
        assert(contents.take(n) =~= contents);
    } else {
        lemma_concat_take(contents, n);
        lemma_concat_grows(contents, n + 1);
    }
}

} // verus!

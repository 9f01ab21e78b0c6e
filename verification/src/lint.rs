//! Lints: checks for conditions that are permitted but rarely wanted.

use crate::bytes::Bytes;
use crate::error::Error;
use crate::error::Malformed;
use crate::piece_length_picker::is_power_of_two;
use crate::piece_length_picker::power_of_two;
use crate::text::is_name;
use crate::text::same_ignoring_case;
use vstd::prelude::*;

verus! {

/// The piece length below which `small-piece-length` fires: 16 KiB.
pub const SMALL_PIECE_LENGTH: u64 = 16384;

/// A condition that a lint checks for.
#[derive(Clone, Copy, Debug, PartialEq, Eq, Structural)]
pub enum Lint {
    /// The piece length is not a power of two.
    UnevenPieceLength,
    /// The piece length is below 16 KiB.
    SmallPieceLength,
    /// The torrent is private and has no announce URL.
    PrivateTrackerless,
}

impl Lint {
    /// The name of the lint.
    pub open spec fn spec_name(self) -> Seq<char> {
        match self {
            Lint::UnevenPieceLength => "uneven-piece-length"@,
            Lint::SmallPieceLength => "small-piece-length"@,
            Lint::PrivateTrackerless => "private-trackerless"@,
        }
    }

    /// The lint that `text` names, whatever the case of its letters.
    pub open spec fn named(text: Seq<char>) -> Option<Lint> {
        if same_ignoring_case(text, Lint::UnevenPieceLength.spec_name()) {
            Some(Lint::UnevenPieceLength)
        } else if same_ignoring_case(text, Lint::SmallPieceLength.spec_name()) {
            Some(Lint::SmallPieceLength)
        } else if same_ignoring_case(text, Lint::PrivateTrackerless.spec_name()) {
            Some(Lint::PrivateTrackerless)
        } else {
            None
        }
    }

    /// The name of the lint.
    pub fn name(self) -> (name: &'static str)
        ensures
            name@ == self.spec_name(),
    {
        match self {
            Lint::UnevenPieceLength => "uneven-piece-length",
            Lint::SmallPieceLength => "small-piece-length",
            Lint::PrivateTrackerless => "private-trackerless",
        }
    }

    /// The lint that `text` names, whatever the case of its letters.
    pub fn parse(text: &str) -> (r: Result<Lint, Error>)
        ensures
            r == (match Lint::named(text@) {
                Some(lint) => Ok::<Lint, Error>(lint),
                None => Err(Error::CliParse { what: Malformed::Lint }),
            }),
    {
        if is_name(text, "uneven-piece-length") {
            Ok(Lint::UnevenPieceLength)
        } else if is_name(text, "small-piece-length") {
            Ok(Lint::SmallPieceLength)
        } else if is_name(text, "private-trackerless") {
            Ok(Lint::PrivateTrackerless)
        } else {
            Err(Error::CliParse { what: Malformed::Lint })
        }
    }
}

/// The lints that are allowed. A lint that is not allowed is denied.
#[derive(Clone, Copy, Debug, PartialEq, Eq, Structural)]
pub struct Linter {
    pub uneven_piece_length: bool,
    pub small_piece_length: bool,
    pub private_trackerless: bool,
}

impl Linter {
    /// Whether `lint` is allowed.
    pub open spec fn allows(self, lint: Lint) -> bool {
        match lint {
            Lint::UnevenPieceLength => self.uneven_piece_length,
            Lint::SmallPieceLength => self.small_piece_length,
            Lint::PrivateTrackerless => self.private_trackerless,
        }
    }

    /// What a torrent of this piece length fails with: `PieceLengthZero`
    /// for zero, else `PieceLengthUneven` where the length is no power of
    /// two and that is denied, else `PieceLengthSmall` where it is below
    /// 16 KiB and that is denied.
    pub open spec fn piece_length_fault(self, piece_length: u64) -> Option<Error> {
        if piece_length == 0 {
            Some(Error::PieceLengthZero)
        } else if !self.allows(Lint::UnevenPieceLength) && !power_of_two(piece_length as nat) {
            Some(Error::PieceLengthUneven { bytes: Bytes(piece_length) })
        } else if !self.allows(Lint::SmallPieceLength) && piece_length < 16384 {
            Some(Error::PieceLengthSmall)
        } else {
            None
        }
    }

    /// A private torrent without an announce URL is denied.
    pub open spec fn trackerless_fault(self, private: bool, has_announce: bool) -> bool {
        !self.allows(Lint::PrivateTrackerless) && private && !has_announce
    }

    /// The linter that denies every lint.
    pub fn new() -> (linter: Linter)
        ensures
            forall|lint: Lint| !linter.allows(lint),
    {
        Linter { uneven_piece_length: false, small_piece_length: false, private_trackerless: false }
    }

    /// Allows `lint`, and leaves the others as they are.
    pub fn allow(&mut self, lint: Lint)
        ensures
            forall|other: Lint| final(self).allows(other) == (old(self).allows(other) || other == lint),
    {
        match lint {
            Lint::UnevenPieceLength => {
                self.uneven_piece_length = true;
            },
            Lint::SmallPieceLength => {
                self.small_piece_length = true;
            },
            Lint::PrivateTrackerless => {
                self.private_trackerless = true;
            },
        }
    }

    /// Whether `lint` is allowed.
    pub fn is_allowed(&self, lint: Lint) -> (r: bool)
        ensures
            r == self.allows(lint),
    {
        match lint {
            Lint::UnevenPieceLength => self.uneven_piece_length,
            Lint::SmallPieceLength => self.small_piece_length,
            Lint::PrivateTrackerless => self.private_trackerless,
        }
    }

    /// Whether `lint` is denied.
    pub fn is_denied(&self, lint: Lint) -> (r: bool)
        ensures
            r == !self.allows(lint),
    {
        !self.is_allowed(lint)
    }

    /// Lets a piece length pass unless it is zero or a denied lint fires.
    pub fn check_piece_length(&self, piece_length: Bytes) -> (r: Result<(), Error>)
        ensures
            r == (match self.piece_length_fault(piece_length.0) {
                Some(e) => Err::<(), Error>(e),
                None => Ok(()),
            }),
    {
        if piece_length.0 == 0 {
            return Err(Error::PieceLengthZero);
        }
        if self.is_denied(Lint::UnevenPieceLength) && !is_power_of_two(piece_length.0) {
            return Err(Error::PieceLengthUneven { bytes: piece_length });
        }
        if self.is_denied(Lint::SmallPieceLength) && piece_length.0 < SMALL_PIECE_LENGTH {
            return Err(Error::PieceLengthSmall);
        }
        Ok(())
    }

    /// Lets a torrent pass unless it is private, has no announce URL, and
    /// that is denied.
    pub fn check_trackerless(&self, private: bool, has_announce: bool) -> (r: Result<(), Error>)
        ensures
            r == (if self.trackerless_fault(private, has_announce) {
                Err::<(), Error>(Error::PrivateTrackerless)
            } else {
                Ok(())
            }),
    {
        if self.is_denied(Lint::PrivateTrackerless) && private && !has_announce {
            Err(Error::PrivateTrackerless)
        } else {
            Ok(())
        }
    }
}

} // verus!

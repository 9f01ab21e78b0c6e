//! The ways in which creating a torrent can fail.

use crate::bytes::Bytes;
use crate::lint::Lint;
use vstd::prelude::*;

verus! {

/// What was wrong with an argument that could not be read.
#[derive(Clone, Copy, Debug, PartialEq, Eq, Structural)]
pub enum Malformed {
    /// The number of a byte quantity is not a decimal numeral.
    ByteNumber,
    /// The number of a byte quantity, times its unit, does not fit in 64 bits.
    ByteRange,
    /// The unit of a byte quantity is not known.
    ByteSuffix,
    /// A host and port lacks the colon and port.
    PortMissing,
    /// The port of a host and port is not a number below 65536.
    Port,
    /// The host of a host and port is neither a domain, an IPv4 address nor a
    /// bracketed IPv6 address.
    Host,
    /// A lint name is not known.
    Lint,
    /// A file order name is not known.
    FileOrder,
    /// The primary announce URL is not a URL.
    Announce,
}

/// Why no torrent was created.
#[derive(Clone, Copy, Debug, PartialEq, Eq, Structural)]
pub enum Error {
    /// An argument is malformed.
    CliParse { what: Malformed },
    /// An operation on the file system failed.
    Filesystem,
    /// The input is a symbolic link and links are not followed.
    SymlinkRoot,
    /// Following symbolic links led deeper than any directory tree goes.
    SymlinkCycle,
    /// The input path has no final component to name the torrent after.
    FilenameExtract,
    /// The final component of the input path is not UTF-8.
    FilenameDecode,
    /// An entry of an announce tier is not a URL.
    AnnounceUrlParse,
    /// A glob is not well formed.
    GlobParse,
    /// A name in the content is empty, is `.` or `..`, or holds a separator
    /// or a NUL byte; or a directory listed the same name twice.
    PathComponent,
    /// The piece length is zero.
    PieceLengthZero,
    /// The piece length is not a power of two, and that lint is denied.
    PieceLengthUneven { bytes: Bytes },
    /// The piece length is below 16 KiB, and that lint is denied.
    PieceLengthSmall,
    /// The piece length is more than 32 bits count.
    PieceLengthTooLarge { bytes: Bytes },
    /// The torrent is private and has no announce URL, and that lint is
    /// denied.
    PrivateTrackerless,
    /// The destination exists and may not be overwritten.
    OutputExists,
    /// Writing to standard output failed.
    Stdout,
    /// The torrent did not match the content it was created from.
    Verify,
    /// A length or a date exceeds what a bencode integer holds, or the
    /// lengths of the files together what 64 bits count.
    IntegerRange,
}

impl Error {
    /// The lint that fired, where the failure is that of a lint.
    pub open spec fn spec_lint(self) -> Option<Lint> {
        match self {
            Error::PieceLengthUneven { bytes } => Some(Lint::UnevenPieceLength),
            Error::PieceLengthSmall => Some(Lint::SmallPieceLength),
            Error::PrivateTrackerless => Some(Lint::PrivateTrackerless),
            _ => None,
        }
    }

    /// The lint that fired, where the failure is that of a lint.
    pub fn lint(&self) -> (lint: Option<Lint>)
        ensures
            lint == self.spec_lint(),
    {
        match self {
            Error::PieceLengthUneven { bytes } => Some(Lint::UnevenPieceLength),
            Error::PieceLengthSmall => Some(Lint::SmallPieceLength),
            Error::PrivateTrackerless => Some(Lint::PrivateTrackerless),
            _ => None,
        }
    }
}

impl Error {
    /// The message for the failure, in one line.
    pub open spec fn spec_message(self) -> Seq<char> {
        match self {
            Error::CliParse { what: Malformed::ByteNumber } => "The number of a byte quantity is not a decimal number"@,
            Error::CliParse { what: Malformed::ByteRange } => "A byte quantity is more than 64 bits count"@,
            Error::CliParse { what: Malformed::ByteSuffix } => "The unit of a byte quantity is not known"@,
            Error::CliParse { what: Malformed::PortMissing } => "A host and port lacks its port"@,
            Error::CliParse { what: Malformed::Port } => "The port of a host and port is no number below 65536"@,
            Error::CliParse { what: Malformed::Host } => "The host of a host and port is no domain or address"@,
            Error::CliParse { what: Malformed::Lint } => "Unknown lint"@,
            Error::CliParse { what: Malformed::FileOrder } => "Unknown file order"@,
            Error::CliParse { what: Malformed::Announce } => "The announce URL is no URL"@,
            Error::Filesystem => "I/O error"@,
            Error::SymlinkRoot => "Attempted to create a torrent from a symbolic link, which are followed only with `--follow-symlinks`"@,
            Error::SymlinkCycle => "Symbolic links lead a directory back into itself"@,
            Error::FilenameExtract => "Failed to find the file name of the input"@,
            Error::FilenameDecode => "The file name of the input is not valid unicode"@,
            Error::AnnounceUrlParse => "Failed to parse an announce URL"@,
            Error::GlobParse => "Failed to parse a glob"@,
            Error::PathComponent => "A path has an invalid component, or stands twice"@,
            Error::PieceLengthZero => "Piece length cannot be zero"@,
            Error::PieceLengthUneven { bytes } => "Piece length is not an even power of two; allow with `--allow uneven-piece-length`"@,
            Error::PieceLengthSmall => "Piece length is less than 16 KiB; allow with `--allow small-piece-length`"@,
            Error::PieceLengthTooLarge { bytes } => "Piece length is more than 32 bits count"@,
            Error::PrivateTrackerless => "Private torrents must have a tracker; allow with `--allow private-trackerless`"@,
            Error::OutputExists => "The output exists; overwrite it with `--force`"@,
            Error::Stdout => "Failed to write to standard output"@,
            Error::Verify => "The torrent does not match its content"@,
            Error::IntegerRange => "A length or a date is too large"@,
        }
    }

    /// The message for the failure, in one line.
    pub fn message(&self) -> (text: String)
        ensures
            text@ == self.spec_message(),
    {
        let text = match self {
            Error::CliParse { what: Malformed::ByteNumber } => "The number of a byte quantity is not a decimal number",
            Error::CliParse { what: Malformed::ByteRange } => "A byte quantity is more than 64 bits count",
            Error::CliParse { what: Malformed::ByteSuffix } => "The unit of a byte quantity is not known",
            Error::CliParse { what: Malformed::PortMissing } => "A host and port lacks its port",
            Error::CliParse { what: Malformed::Port } => "The port of a host and port is no number below 65536",
            Error::CliParse { what: Malformed::Host } => "The host of a host and port is no domain or address",
            Error::CliParse { what: Malformed::Lint } => "Unknown lint",
            Error::CliParse { what: Malformed::FileOrder } => "Unknown file order",
            Error::CliParse { what: Malformed::Announce } => "The announce URL is no URL",
            Error::Filesystem => "I/O error",
            Error::SymlinkRoot => "Attempted to create a torrent from a symbolic link, which are followed only with `--follow-symlinks`",
            Error::SymlinkCycle => "Symbolic links lead a directory back into itself",
            Error::FilenameExtract => "Failed to find the file name of the input",
            Error::FilenameDecode => "The file name of the input is not valid unicode",
            Error::AnnounceUrlParse => "Failed to parse an announce URL",
            Error::GlobParse => "Failed to parse a glob",
            Error::PathComponent => "A path has an invalid component, or stands twice",
            Error::PieceLengthZero => "Piece length cannot be zero",
            Error::PieceLengthUneven { bytes } => "Piece length is not an even power of two; allow with `--allow uneven-piece-length`",
            Error::PieceLengthSmall => "Piece length is less than 16 KiB; allow with `--allow small-piece-length`",
            Error::PieceLengthTooLarge { bytes } => "Piece length is more than 32 bits count",
            Error::PrivateTrackerless => "Private torrents must have a tracker; allow with `--allow private-trackerless`",
            Error::OutputExists => "The output exists; overwrite it with `--force`",
            Error::Stdout => "Failed to write to standard output",
            Error::Verify => "The torrent does not match its content",
            Error::IntegerRange => "A length or a date is too large",
        };
        text.to_owned()
    }
}

} // verus!

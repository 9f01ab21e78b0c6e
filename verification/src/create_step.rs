//! The steps of creating a torrent, as they are announced.

use vstd::prelude::*;
use vstd::string::StringExecFns;

verus! {

/// A step of creating a torrent.
#[derive(Debug, PartialEq, Eq)]
pub enum CreateStep {
    /// The content is looked for.
    Searching,
    /// The content is hashed.
    Hashing,
    /// The torrent is written to the file at this path, or to standard
    /// output.
    Writing { output: Option<String> },
}

/// What is announced when the torrent has been created.
pub open spec fn done_text() -> Seq<char> {
    "\u{2728}\u{2728} Done! \u{2728}\u{2728}"@
}

/// What is announced when the torrent has been created.
pub fn done() -> (text: String)
    ensures
        text@ == done_text(),
{
    "\u{2728}\u{2728} Done! \u{2728}\u{2728}".to_owned()
}

impl CreateStep {
    /// What is announced at the step: its number of three, its sign, and
    /// what is done.
    pub open spec fn spec_text(self) -> Seq<char> {
        match self {
            CreateStep::Searching => "[1/3] \u{1F9FF} Searching for files\u{2026}"@,
            CreateStep::Hashing => "[2/3] \u{1F9EE} Hashing pieces\u{2026}"@,
            CreateStep::Writing { output: Some(path) } => "[3/3] \u{1F4BE} Writing metainfo to `"@
                + path@ + "`\u{2026}"@,
            CreateStep::Writing { output: None } =>
                "[3/3] \u{1F4BE} Writing metainfo to standard output\u{2026}"@,
        }
    }

    /// What is announced at the step.
    pub fn text(&self) -> (text: String)
        ensures
            text@ == self.spec_text(),
    {
        match self {
            CreateStep::Searching => "[1/3] \u{1F9FF} Searching for files\u{2026}".to_owned(),
            CreateStep::Hashing => "[2/3] \u{1F9EE} Hashing pieces\u{2026}".to_owned(),
            CreateStep::Writing { output: Some(path) } => {
                "[3/3] \u{1F4BE} Writing metainfo to `".to_owned().concat(path.as_str()).concat(
                    "`\u{2026}",
                )
            },
            CreateStep::Writing { output: None } => {
                "[3/3] \u{1F4BE} Writing metainfo to standard output\u{2026}".to_owned()
            },
        }
    }
}

} // verus!

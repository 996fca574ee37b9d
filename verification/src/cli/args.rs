//! The arguments of the command line, parsed, and what they ask of the
//! engine.

use std::path::PathBuf;
use vstd::prelude::*;
use crate::engine::model::FileKind;
use crate::engine::searcher::SearchMode;
use crate::engine::text::bytes_eq;

verus! {

/// A path of the file system. The library carries paths through and never
/// looks into them.
#[verifier::external_type_specification]
#[verifier::external_body]
pub struct ExPathBuf(PathBuf);

/// The copy of a path, `Clone::clone` of `PathBuf`. Nothing is claimed of
/// it: a path is opaque to the library.
pub assume_specification[ <PathBuf as Clone>::clone ](path: &PathBuf) -> PathBuf;

/// The arguments of a run.
pub struct Args {
    pub command: Option<Commands>,
    /// Output as JSON.
    pub json: bool,
    /// Suppress non-error output.
    pub quiet: bool,
    /// Disable colored output.
    pub no_color: bool,
    /// Enable verbose output.
    pub verbose: bool,
    /// Enable debug output with backtraces.
    pub debug: bool,
}

/// The command of a run.
#[derive(Clone)]
pub enum Commands {
    /// Index a directory.
    Index { path: PathBuf, name: Option<String> },
    /// Search indexed content.
    Search {
        query: String,
        repo: Option<String>,
        file_type: Option<String>,
        limit: usize,
        group_by_repo: bool,
        semantic: bool,
        hybrid: bool,
        lexical: bool,
    },
    /// Update an existing index.
    Update { path: Option<PathBuf>, all: bool },
    /// List all indexed repositories.
    List {},
    /// Remove a repository from the index.
    Remove { path: PathBuf, force: bool },
    /// Show or edit configuration.
    Config { key: Option<String>, value: Option<String>, reset: bool },
    /// Start the server for AI tool integration.
    Mcp {},
    /// Watch for file changes and re-index automatically.
    Watch { all: bool, path: Option<PathBuf> },
    /// Rebuild embeddings for semantic search.
    RebuildEmbeddings { repo: Option<String> },
}

/// What a run shows where no command is given: the interactive
/// interface.
#[derive(Clone, Copy, PartialEq, Eq, Structural, Debug)]
pub enum Entry {
    Interactive,
    Command,
}

impl Args {
    /// Whether the run is interactive: no command is given.
    pub fn entry(&self) -> (e: Entry)
        ensures
            e == if self.command is None {
                Entry::Interactive
            } else {
                Entry::Command
            },
    {
        match &self.command {
            None => Entry::Interactive,
            Some(_) => Entry::Command,
        }
    }

    /// Whether anything but errors is printed: not in a quiet run.
    pub fn reports(&self) -> (r: bool)
        ensures
            r == !self.quiet,
    {
        !self.quiet
    }
}

impl Commands {
    /// The search mode that a command asks for: none for a command that
    /// is no search; for a search the mode of its flags, or an inner
    /// `None` where more than one mode flag is set.
    pub open spec fn mode(&self) -> Option<Option<SearchMode>> {
        match self {
            Commands::Search { lexical, semantic, hybrid, .. } => Some(
                SearchMode::selected(*lexical, *semantic, *hybrid),
            ),
            _ => None,
        }
    }

    /// The search mode that the command asks for.
    pub fn search_mode(&self) -> (r: Option<Option<SearchMode>>)
        ensures
            r == self.mode(),
    {
        match self {
            Commands::Search { lexical, semantic, hybrid, .. } => Some(
                SearchMode::from_flags(*lexical, *semantic, *hybrid),
            ),
            _ => None,
        }
    }
}

/// The file kind that a name of the `--type` filter stands for.
pub open spec fn kind_named(name: Seq<u8>) -> Option<FileKind> {
    if name == seq![0x63u8, 0x6f, 0x64, 0x65] {
        Some(FileKind::Code)
    } else if name == seq![0x6du8, 0x61, 0x72, 0x6b, 0x64, 0x6f, 0x77, 0x6e] {
        Some(FileKind::Markdown)
    } else if name == seq![0x63u8, 0x6f, 0x6e, 0x66, 0x69, 0x67] {
        Some(FileKind::Config)
    } else {
        None
    }
}

/// Reads the name of a file kind: `code`, `markdown` or `config`.
pub fn parse_kind(name: &[u8]) -> (r: Option<FileKind>)
    ensures
        r == kind_named(name@),
{
    let code = vec![0x63u8, 0x6f, 0x64, 0x65];
    let markdown = vec![0x6du8, 0x61, 0x72, 0x6b, 0x64, 0x6f, 0x77, 0x6e];
    let config = vec![0x63u8, 0x6f, 0x6e, 0x66, 0x69, 0x67];
    assert(code@ =~= seq![0x63u8, 0x6f, 0x64, 0x65]);
    assert(markdown@ =~= seq![0x6du8, 0x61, 0x72, 0x6b, 0x64, 0x6f, 0x77, 0x6e]);
    assert(config@ =~= seq![0x63u8, 0x6f, 0x6e, 0x66, 0x69, 0x67]);
    if bytes_eq(name, code.as_slice()) {
        Some(FileKind::Code)
    } else if bytes_eq(name, markdown.as_slice()) {
        Some(FileKind::Markdown)
    } else if bytes_eq(name, config.as_slice()) {
        Some(FileKind::Config)
    } else {
        None
    }
}

} // verus!

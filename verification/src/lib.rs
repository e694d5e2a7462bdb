//! Keeps an editor's code-snippet definition file in sync with tagged
//! regions embedded in ordinary source files: tagged blocks are scanned out
//! of a source file, merged into one generated region of a per-language JSON
//! artifact, and a per-file name index tracks which snippet names each source
//! file owns so that renames and deletions propagate across runs.

use vstd::prelude::*;

pub mod argparser;
pub mod chars;
pub mod daemon_macos;
pub mod daemon_windows;
pub mod file;
pub mod lang;
pub mod laws;
pub mod debounce;
pub mod index;
pub mod json;
pub mod merge;
pub mod scanner;
pub mod snippet;

verus! {

/// What the orchestration layer is configured with: where artifacts go,
/// and which directories and files are watched.
#[derive(Debug, Clone)]
pub struct Config {
    pub snippets_dir: String,
    pub dirs: Vec<String>,
    pub files: Vec<String>,
}

/// Returns true when `inner` occurs as a contiguous subsequence of `text`
/// starting at index `at`.
pub open spec fn occurs_at(text: Seq<char>, inner: Seq<char>, at: int) -> bool {
    &&& 0 <= at
    &&& at + inner.len() <= text.len()
    &&& text.subrange(at, at + inner.len() as int) == inner
}

/// Returns true when `inner` occurs somewhere in `text`.
pub open spec fn contains_seq(text: Seq<char>, inner: Seq<char>) -> bool {
    exists|at: int| occurs_at(text, inner, at)
}

} // verus!

//! Query HTML files by CSS selector, and find the CSS rules that no HTML
//! file uses.

pub mod check_css;
pub mod css;
pub mod engine;
pub mod error;
pub mod paths;
pub mod progress;
pub mod prune_laws;
pub mod scan;
pub mod text;

pub use engine::{LolHtmlEngine, SelectorEngine};
pub use error::{Error, Result};

use std::path::PathBuf;
use vstd::prelude::*;

verus! {

/// The number of elements that the selector matched in one HTML file.
#[derive(Debug)]
pub struct FileResult {
    pub path: PathBuf,
    pub matches: usize,
}

impl Clone for FileResult {
    fn clone(&self) -> (r: Self)
        ensures
            r == *self,
    {
        FileResult { path: paths::clone_path(&self.path), matches: self.matches }
    }
}

impl FileResult {
    /// Whether the file is listed: always, or only when it has a match if
    /// files without matches are left out.
    pub fn is_shown(&self, no_zeros: bool) -> (r: bool)
        ensures
            r == (!no_zeros || self.matches != 0),
    {
        !(no_zeros && self.matches == 0)
    }
}

} // verus!

//! What a query of HTML files by a selector computes once the files are read.

use std::path::PathBuf;
use vstd::prelude::*;
use crate::check_css::CssFileResult;
use crate::engine::SelectorEngine;
use crate::error::Result;
use crate::FileResult;

verus! {

/// The count of `selector`'s matches in the HTML document `html` read from
/// `path`, by `engine`.
pub fn count_matches_in_html<E: SelectorEngine + ?Sized>(
    engine: &E,
    path: PathBuf,
    selector: &str,
    html: &[u8],
) -> (r: Result<FileResult>)
    ensures
        r matches Ok(fr) ==> fr.path == path,
        exists|c: Result<usize>|
            call_ensures(E::count_matches, (engine, selector, html), c) && match c {
                Ok(n) => r matches Ok(fr) && fr.path == path && fr.matches == n,
                Err(e) => r matches Err(e2) && e2 == e,
            },
{
    file_result_from_count(path, engine.count_matches(selector, html))
}

/// The result for the file at `path` from an engine's count of its matches:
/// the count with the path, or the engine's error as it is.
pub fn file_result_from_count(path: PathBuf, count: Result<usize>) -> (r: Result<FileResult>)
    ensures
        match count {
            Ok(n) => r matches Ok(fr) && fr.path == path && fr.matches == n,
            Err(e) => r matches Err(e2) && e2 == e,
        },
{
    match count {
        Ok(matches) => Ok(FileResult { path, matches }),
        Err(e) => Err(e),
    }
}

/// The exit code of a query: 0 when some file has a match, else 1.
pub fn query_exit_code(results: &Vec<FileResult>) -> (code: i32)
    ensures
        code == if exists|i: int| 0 <= i < results@.len() && (#[trigger] results@[i]).matches > 0 {
            0i32
        } else {
            1i32
        },
{
    let mut i: usize = 0;
    while i < results.len()
        invariant
            i <= results@.len(),
            forall|j: int| 0 <= j < i ==> (#[trigger] results@[j]).matches == 0,
        decreases results@.len() - i,
    {
        if results[i].matches > 0 {
            return 0;
        }
        i = i + 1;
    }
    1
}

/// The exit code of a CSS check: 1 when some selector is unused, else 0.
pub fn check_exit_code(results: &Vec<CssFileResult>) -> (code: i32)
    ensures
        code == if exists|f: int, k: int|
            0 <= f < results@.len() && 0 <= k < results@[f].selectors@.len()
                && !(#[trigger] results@[f].selectors@[k]).used {
            1i32
        } else {
            0i32
        },
{
    let mut f: usize = 0;
    while f < results.len()
        invariant
            f <= results@.len(),
            forall|g: int, k: int|
                0 <= g < f && 0 <= k < results@[g].selectors@.len()
                    ==> (#[trigger] results@[g].selectors@[k]).used,
        decreases results@.len() - f,
    {
        let sels = &results[f].selectors;
        let mut k: usize = 0;
        while k < sels.len()
            invariant
                k <= sels@.len(),
                f < results@.len(),
                sels == &results@[f as int].selectors,
                forall|j: int| 0 <= j < k ==> (#[trigger] sels@[j]).used,
            decreases sels@.len() - k,
        {
            if !sels[k].used {
                assert(!results@[f as int].selectors@[k as int].used);
                return 1;
            }
            k = k + 1;
        }
        f = f + 1;
    }
    0
}

} // verus!

//! Counting the elements of an HTML document that a CSS selector matches,
//! with lol_html's selector engine.

use std::borrow::Cow;
use std::cell::RefCell;
use lol_html::html_content::Element;
use lol_html::{ElementContentHandlers, HtmlRewriter, Selector, Settings};
use vstd::prelude::*;
use crate::error::{Error, Result};

verus! {

/// What lol_html makes of a selector (`<lol_html::Selector as FromStr>`):
/// `Ok` when it accepts it, else the text of the `SelectorError`.
pub uninterp spec fn selector_parse_outcome(selector: Seq<char>) -> std::result::Result<(), Seq<char>>;

/// What an `HtmlRewriter` with one element handler per selector reports on
/// `html`: the index of the selector of each element match, in the order the
/// handlers ran, or the text of the `RewritingError` that `write` or `end`
/// returned.
pub uninterp spec fn element_matches(selectors: Seq<Seq<char>>, html: Seq<u8>) -> std::result::Result<Seq<usize>, Seq<char>>;

/// Parses `selector` with `<lol_html::Selector as FromStr>::from_str`; the
/// contract ties the outcome to `selector_parse_outcome` and claims nothing
/// more of which selectors lol_html accepts.
#[verifier::external_body]
pub(crate) fn parse_selector(selector: &str) -> (r: std::result::Result<(), String>)
    ensures
        match r {
            Ok(()) => selector_parse_outcome(selector@) == Ok::<(), Seq<char>>(()),
            Err(m) => selector_parse_outcome(selector@) == Err::<(), Seq<char>>(m@),
        },
{
    match selector.parse::<Selector>() {
        Ok(_) => Ok(()),
        Err(e) => Err(e.to_string()),
    }
}

/// Runs `lol_html::HtmlRewriter` (default `Settings::new()`) over `html`,
/// with one element handler per selector that records the selector's index
/// each time lol_html calls it; `write` then `end`. The contract ties the
/// outcome to `element_matches` and claims nothing more of lol_html's
/// matching.
#[verifier::external_body]
pub(crate) fn run_element_handlers(selectors: &Vec<String>, html: &[u8]) -> (r: std::result::Result<Vec<usize>, String>)
    requires
        forall|i: int| 0 <= i < selectors@.len() ==> selector_parse_outcome(#[trigger] selectors@[i]@) is Ok,
    ensures
        match r {
            Ok(v) => element_matches(selectors.deep_view(), html@) == Ok::<Seq<usize>, Seq<char>>(v@),
            Err(m) => element_matches(selectors.deep_view(), html@) == Err::<Seq<usize>, Seq<char>>(m@),
        },
{
    let hits = RefCell::new(Vec::new());
    let hits_ref = &hits;
    let handlers = selectors.iter().enumerate().map(|(i, s)| (
        Cow::Owned(s.parse::<Selector>().unwrap()),
        ElementContentHandlers::default().element(move |_: &mut Element| {
            hits_ref.borrow_mut().push(i);
            Ok(())
        }),
    )).collect();
    let settings = Settings { element_content_handlers: handlers, ..Settings::new() };
    let mut rewriter = HtmlRewriter::new(settings, |_: &[u8]| {});
    rewriter.write(html).map_err(|e| e.to_string())?;
    rewriter.end().map_err(|e| e.to_string())?;
    Ok(hits.into_inner())
}

/// A way to count the elements of an HTML document that a CSS selector
/// matches.
pub trait SelectorEngine: Send + Sync {
    fn count_matches(&self, selector: &str, html: &[u8]) -> Result<usize>;
}

/// The selector engine of lol_html, the one that `hq` uses.
pub struct LolHtmlEngine;

/// `r` is what counting `selector`'s matches in `html` with lol_html gives:
/// the selector's parse error, else the rewriter's error, else the number of
/// element matches it reported; errors come as `Error::Selector`.
pub open spec fn lol_count(r: Result<usize>, selector: Seq<char>, html: Seq<u8>) -> bool {
    match selector_parse_outcome(selector) {
        Err(m) => r matches Err(Error::Selector(s)) && s@ == m,
        Ok(_) => match element_matches(seq![selector], html) {
            Err(m) => r matches Err(Error::Selector(s)) && s@ == m,
            Ok(hits) => r matches Ok(n) && n == hits.len(),
        },
    }
}

/// Checks that lol_html accepts `selector`, before any document is read:
/// `Ok`, or lol_html's parse error as `Error::Selector`.
pub fn check_selector(selector: &str) -> (r: Result<()>)
    ensures
        match selector_parse_outcome(selector@) {
            Ok(_) => r is Ok,
            Err(m) => r matches Err(Error::Selector(s)) && s@ == m,
        },
{
    match parse_selector(selector) {
        Ok(()) => Ok(()),
        Err(m) => Err(Error::Selector(m)),
    }
}

/// The count that a run of the element handlers gives: the number of
/// matches it reported, or its error as `Error::Selector`.
pub fn count_from_matches(outcome: std::result::Result<Vec<usize>, String>) -> (r: Result<usize>)
    ensures
        match outcome {
            Ok(v) => r matches Ok(n) && n == v@.len(),
            Err(m) => r matches Err(Error::Selector(s)) && s@ == m@,
        },
{
    match outcome {
        Ok(v) => Ok(v.len()),
        Err(m) => Err(Error::Selector(m)),
    }
}

impl SelectorEngine for LolHtmlEngine {
    /// Counts the elements of `html` that `selector` matches; an error when
    /// lol_html refuses the selector or fails on the document.
    fn count_matches(&self, selector: &str, html: &[u8]) -> (r: Result<usize>)
        ensures
            lol_count(r, selector@, html@),
    {
        match check_selector(selector) {
            Err(e) => {
                return Err(e);
            },
            Ok(()) => {},
        }
        let mut selectors: Vec<String> = Vec::new();
        selectors.push(selector.to_owned());
        assert(selectors.deep_view() =~= seq![selector@]);
        count_from_matches(run_element_handlers(&selectors, html))
    }
}

/// Counting with lol_html runs it over the whole document given: a refused
/// selector is an error; otherwise the count is the number of matches that
/// lol_html's run with that one selector over all of `html` reports, or an
/// error when that run fails.
pub proof fn law_count_covers_the_whole_document(
    engine: &LolHtmlEngine,
    selector: &str,
    html: &[u8],
    r: Result<usize>,
)
    requires
        call_ensures(LolHtmlEngine::count_matches, (engine, selector, html), r),
    ensures
        selector_parse_outcome(selector@) is Err ==> r is Err,
        selector_parse_outcome(selector@) is Ok ==> match element_matches(seq![selector@], html@) {
            Ok(hits) => r == Ok::<usize, Error>(hits.len() as usize) && hits.len() <= usize::MAX,
            Err(_) => r is Err,
        },
{
}

} // verus!

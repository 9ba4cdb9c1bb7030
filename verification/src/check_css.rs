//! Which style rules of a set of stylesheets some HTML document uses, and
//! the stylesheets without the unused ones.

use std::path::PathBuf;
use vstd::prelude::*;
use crate::css::{copy_rule, prune_accepts, prune_css, prune_fits, pruned_text, CssRule};
use crate::engine::{element_matches, parse_selector, run_element_handlers, selector_parse_outcome};
use crate::paths::clone_path;
use crate::progress::Progress;

verus! {

/// A selector of a stylesheet and whether some HTML document uses it.
#[derive(Debug)]
pub struct SelectorResult {
    pub selector: String,
    pub used: bool,
}

impl Clone for SelectorResult {
    fn clone(&self) -> (r: Self)
        ensures
            r == *self,
    {
        SelectorResult { selector: self.selector.clone(), used: self.used }
    }
}

/// The selectors of one stylesheet, in the order of its rules.
#[derive(Debug)]
pub struct CssFileResult {
    pub path: PathBuf,
    pub selectors: Vec<SelectorResult>,
}

impl Clone for CssFileResult {
    fn clone(&self) -> (r: Self)
        ensures
            r.path == self.path,
            r.selectors@ == self.selectors@,
    {
        let mut selectors: Vec<SelectorResult> = Vec::new();
        let mut k: usize = 0;
        while k < self.selectors.len()
            invariant
                k <= self.selectors@.len(),
                selectors@ == self.selectors@.take(k as int),
            decreases self.selectors@.len() - k,
        {
            selectors.push(self.selectors[k].clone());
            assert(selectors@ =~= self.selectors@.take(k + 1));
            k = k + 1;
        }
        assert(self.selectors@.take(k as int) =~= self.selectors@);
        CssFileResult { path: clone_path(&self.path), selectors }
    }
}

/// A stylesheet without its unused rules.
#[derive(Debug)]
pub struct PrunedFile {
    pub path: PathBuf,
    pub content: String,
}

impl Clone for PrunedFile {
    fn clone(&self) -> (r: Self)
        ensures
            r == *self,
    {
        PrunedFile { path: clone_path(&self.path), content: self.content.clone() }
    }
}

/// A style rule under test: its selector, whether lol_html accepts the
/// selector, and whether a document has used it yet.
pub struct SelectorEntry {
    pub selector: String,
    pub compiles: bool,
    pub rule: CssRule,
    pub used: bool,
}

/// A stylesheet of the table, whose rules are the entries
/// `start..end`.
pub struct CssFileEntry {
    pub path: PathBuf,
    pub start: usize,
    pub end: usize,
}

/// The style rules of a set of stylesheets, each marked used once an HTML
/// document has an element that its selector matches.
pub struct SelectorTable {
    css_files: Vec<CssFileEntry>,
    entries: Vec<SelectorEntry>,
}

/// The stylesheets' ranges follow one another from the first entry to the
/// last.
pub open spec fn files_partition(files: Seq<CssFileEntry>, n: int) -> bool {
    &&& forall|f: int| 0 <= f < files.len() ==> #[trigger] files[f].start <= files[f].end
    &&& files.len() == 0 ==> n == 0
    &&& files.len() > 0 ==> files[0].start == 0 && files.last().end == n
    &&& forall|f: int| 0 <= f < files.len() - 1 ==> #[trigger] files[f].end == files[f + 1].start
}

/// An entry's selector is its rule's, `compiles` says whether lol_html
/// accepts it, only accepted selectors are ever used, and the rule's span
/// is not reversed.
pub open spec fn entry_ok(e: SelectorEntry) -> bool {
    &&& e.selector == e.rule.selector
    &&& e.compiles == (selector_parse_outcome(e.selector@) is Ok)
    &&& e.used ==> e.compiles
    &&& e.rule.start <= e.rule.end
}

/// The well-formedness of a table: ranges that partition the entries, and
/// entries as `entry_ok` says.
pub open spec fn table_ok(files: Seq<CssFileEntry>, entries: Seq<SelectorEntry>) -> bool {
    &&& files_partition(files, entries.len() as int)
    &&& forall|i: int| 0 <= i < entries.len() ==> entry_ok(#[trigger] entries[i])
}

/// The files and entries after adding the stylesheet at `path` with rules
/// `rules`: a new range right after the last entry, holding a fresh entry
/// for each rule.
pub open spec fn add_stylesheet(
    files: Seq<CssFileEntry>,
    entries: Seq<SelectorEntry>,
    path: PathBuf,
    rules: Seq<CssRule>,
) -> (Seq<CssFileEntry>, Seq<SelectorEntry>) {
    (
        files.push(
            CssFileEntry {
                path,
                start: entries.len() as usize,
                end: (entries.len() + rules.len()) as usize,
            },
        ),
        entries + rules.map_values(|r: CssRule| new_entry(r)),
    )
}

/// The files and entries of a table to which the stylesheets at `paths`,
/// with the rules `rules[k]` each, were added in order.
pub open spec fn added_stylesheets(paths: Seq<PathBuf>, rules: Seq<Seq<CssRule>>) -> (
    Seq<CssFileEntry>,
    Seq<SelectorEntry>,
)
    decreases paths.len(),
{
    if paths.len() == 0 || rules.len() == 0 {
        (seq![], seq![])
    } else {
        let (f, e) = added_stylesheets(paths.drop_last(), rules.drop_last());
        add_stylesheet(f, e, paths.last(), rules.last())
    }
}

/// The number of rules of all the stylesheets.
pub open spec fn rule_count(rules: Seq<Seq<CssRule>>) -> int
    decreases rules.len(),
{
    if rules.len() == 0 {
        0
    } else {
        rule_count(rules.drop_last()) + rules.last().len()
    }
}

/// The entry for a newly read rule: not used yet.
pub open spec fn new_entry(r: CssRule) -> SelectorEntry {
    SelectorEntry {
        selector: r.selector,
        compiles: selector_parse_outcome(r.selector@) is Ok,
        rule: r,
        used: false,
    }
}

/// The total length of the rules' spans.
pub open spec fn span_total(rules: Seq<CssRule>) -> int
    decreases rules.len(),
{
    if rules.len() == 0 {
        0
    } else {
        span_total(rules.drop_last()) + (rules.last().end - rules.last().start)
    }
}

/// The indices of the entries not used yet whose selectors lol_html
/// accepts, in increasing order.
pub open spec fn unsettled_indices(entries: Seq<SelectorEntry>) -> Seq<usize>
    decreases entries.len(),
{
    if entries.len() == 0 {
        seq![]
    } else {
        let rest = unsettled_indices(entries.drop_last());
        if !entries.last().used && entries.last().compiles {
            rest.push((entries.len() - 1) as usize)
        } else {
            rest
        }
    }
}

/// The selectors of the entries at `idxs`.
pub open spec fn selectors_at(entries: Seq<SelectorEntry>, idxs: Seq<usize>) -> Seq<Seq<char>> {
    idxs.map_values(|i: usize| entries[i as int].selector@)
}

/// The entries after marking used those at `idxs[k]` with `matched[k]`.
pub open spec fn marked(
    entries: Seq<SelectorEntry>,
    idxs: Seq<usize>,
    matched: Seq<bool>,
    after: Seq<SelectorEntry>,
) -> bool {
    &&& after.len() == entries.len()
    &&& forall|i: int|
        0 <= i < entries.len() ==> {
            &&& (#[trigger] after[i]).selector == entries[i].selector
            &&& after[i].compiles == entries[i].compiles
            &&& after[i].rule == entries[i].rule
            &&& after[i].used == (entries[i].used || exists|k: int|
                0 <= k < idxs.len() && idxs[k] == i && matched[k])
        }
}

/// Testing `html` reports entry `i` matched: `i` is among the entries not
/// yet used whose selectors lol_html accepts, and the run of those
/// selectors over `html` reported a match for it.
pub open spec fn reported_in(entries: Seq<SelectorEntry>, html: Seq<u8>, i: int) -> bool {
    let u = unsettled_indices(entries);
    match element_matches(selectors_at(entries, u), html) {
        Ok(hits) => exists|k: int| 0 <= k < u.len() && u[k] == i && hits.contains(k as usize),
        Err(_) => false,
    }
}

/// The entries after testing the document `html`: those it reports matched
/// become used.
pub open spec fn after_document(entries: Seq<SelectorEntry>, html: Seq<u8>) -> Seq<SelectorEntry> {
    Seq::new(
        entries.len(),
        |i: int|
            SelectorEntry {
                selector: entries[i].selector,
                compiles: entries[i].compiles,
                rule: entries[i].rule,
                used: entries[i].used || reported_in(entries, html, i),
            },
    )
}

/// The entries after testing the documents `docs` in order.
pub open spec fn after_documents(entries: Seq<SelectorEntry>, docs: Seq<Seq<u8>>) -> Seq<SelectorEntry>
    decreases docs.len(),
{
    if docs.len() == 0 {
        entries
    } else {
        after_document(after_documents(entries, docs.drop_last()), docs.last())
    }
}

/// The rules of `entries` not used, in order.
pub open spec fn unused_rules(entries: Seq<SelectorEntry>) -> Seq<CssRule>
    decreases entries.len(),
{
    if entries.len() == 0 {
        seq![]
    } else {
        let rest = unused_rules(entries.drop_last());
        if !entries.last().used {
            rest.push(entries.last().rule)
        } else {
            rest
        }
    }
}

/// The entries of stylesheet `f`.
pub open spec fn file_entries(files: Seq<CssFileEntry>, entries: Seq<SelectorEntry>, f: int) -> Seq<SelectorEntry> {
    entries.subrange(files[f].start as int, files[f].end as int)
}

/// The spans of a prefix of the rules add up to no more than all of them.
proof fn lemma_span_total_prefix(rules: Seq<CssRule>, k: int)
    requires
        0 <= k <= rules.len(),
        forall|j: int| 0 <= j < rules.len() ==> (#[trigger] rules[j]).start <= rules[j].end,
    ensures
        0 <= span_total(rules.take(k)) <= span_total(rules),
    decreases rules.len(),
{
    if k == rules.len() {
        assert(rules.take(k) =~= rules);
        lemma_span_total_nonneg(rules);
    } else {
        assert(rules.drop_last().take(k) =~= rules.take(k));
        lemma_span_total_prefix(rules.drop_last(), k);
    }
}

proof fn lemma_span_total_nonneg(rules: Seq<CssRule>)
    requires
        forall|j: int| 0 <= j < rules.len() ==> (#[trigger] rules[j]).start <= rules[j].end,
    ensures
        span_total(rules) >= 0,
    decreases rules.len(),
{
    if rules.len() > 0 {
        lemma_span_total_nonneg(rules.drop_last());
    }
}

/// A stylesheet's range ends within the entries.
proof fn lemma_file_end_bound(files: Seq<CssFileEntry>, n: int, f: int)
    requires
        files_partition(files, n),
        0 <= f < files.len(),
    ensures
        files[f].start <= files[f].end <= n,
    decreases files.len() - f,
{
    if f < files.len() - 1 {
        lemma_file_end_bound(files, n, f + 1);
    }
}

/// For each of the first `n` indices, whether `hits` holds it.
fn flags_of_hits(hits: &Vec<usize>, n: usize) -> (m: Vec<bool>)
    ensures
        m@.len() == n,
        forall|k: int| 0 <= k < n ==> (#[trigger] m@[k] <==> hits@.contains(k as usize)),
{
    let mut m: Vec<bool> = Vec::new();
    let mut k: usize = 0;
    while k < n
        invariant
            k <= n,
            m@.len() == k,
            forall|j: int| 0 <= j < k ==> !(#[trigger] m@[j]),
        decreases n - k,
    {
        m.push(false);
        k = k + 1;
    }
    let mut h: usize = 0;
    while h < hits.len()
        invariant
            h <= hits@.len(),
            m@.len() == n,
            forall|j: int|
                0 <= j < n ==> (#[trigger] m@[j] <==> hits@.take(h as int).contains(j as usize)),
        decreases hits@.len() - h,
    {
        let x = hits[h];
        if x < n {
            m.set(x, true);
        }
        proof {
            assert forall|j: int| 0 <= j < n implies (#[trigger] m@[j] <==> hits@.take(h + 1).contains(
                j as usize,
            )) by {
                assert(hits@.take(h + 1) =~= hits@.take(h as int).push(x));
                if hits@.take(h as int).contains(j as usize) {
                    let w = choose|w: int| 0 <= w < h && hits@.take(h as int)[w] == j as usize;
                    assert(hits@.take(h + 1)[w] == j as usize);
                }
                if j as usize == x {
                    assert(hits@.take(h + 1)[h as int] == x);
                }
            }
        }
        h = h + 1;
    }
    assert(hits@.take(hits@.len() as int) =~= hits@);
    m
}

impl SelectorTable {
    #[verifier::type_invariant]
    spec fn well_formed(self) -> bool {
        table_ok(self.css_files@, self.entries@)
    }

    /// The stylesheets, in the order they were added.
    pub closed spec fn files(self) -> Seq<CssFileEntry> {
        self.css_files@
    }

    /// The rules of all stylesheets, stylesheet after stylesheet.
    pub closed spec fn entries(self) -> Seq<SelectorEntry> {
        self.entries@
    }

    /// A table without stylesheets.
    pub fn new() -> (t: Self)
        ensures
            t.files().len() == 0,
            t.entries().len() == 0,
            table_ok(t.files(), t.entries()),
    {
        SelectorTable { css_files: Vec::new(), entries: Vec::new() }
    }

    /// Adds a stylesheet read from `path` with its style rules `rules`, in
    /// order, none of them used yet; counts it in `progress`.
    pub fn add_css_file(&mut self, path: PathBuf, rules: Vec<CssRule>, progress: Option<&Progress>)
        requires
            forall|k: int| 0 <= k < rules@.len() ==> (#[trigger] rules@[k]).start <= rules@[k].end,
            span_total(rules@) <= u64::MAX,
            old(self).entries().len() + rules@.len() <= usize::MAX,
        ensures
            final(self).files() == old(self).files().push(
                CssFileEntry {
                    path,
                    start: old(self).entries().len() as usize,
                    end: (old(self).entries().len() + rules@.len()) as usize,
                },
            ),
            final(self).entries() == old(self).entries() + rules@.map_values(
                |r: CssRule| new_entry(r),
            ),
            table_ok(final(self).files(), final(self).entries()),
            (final(self).files(), final(self).entries()) == add_stylesheet(
                old(self).files(),
                old(self).entries(),
                path,
                rules@,
            ),
    {
        proof {
            use_type_invariant(&*self);
        }
        let mut tmp = SelectorTable::new();
        std::mem::swap(&mut tmp, self);
        let SelectorTable { mut css_files, mut entries } = tmp;
        let ghost old_entries = entries@;
        let start = entries.len();
        let mut rule_bytes: u64 = 0;
        let mut k: usize = 0;
        while k < rules.len()
            invariant
                k <= rules@.len(),
                forall|j: int| 0 <= j < rules@.len() ==> (#[trigger] rules@[j]).start <= rules@[j].end,
                span_total(rules@) <= u64::MAX,
                old_entries.len() + rules@.len() <= usize::MAX,
                start == old_entries.len(),
                rule_bytes == span_total(rules@.take(k as int)),
                entries@ == old_entries + rules@.take(k as int).map_values(|r: CssRule| new_entry(r)),
                files_partition(css_files@, old_entries.len() as int),
                forall|i: int| 0 <= i < old_entries.len() ==> entry_ok(#[trigger] old_entries[i]),
            decreases rules@.len() - k,
        {
            let rule = copy_rule(&rules[k]);
            proof {
                assert(rules@.take(k + 1).drop_last() =~= rules@.take(k as int));
                lemma_span_total_prefix(rules@, k + 1);
            }
            rule_bytes = rule_bytes + (rule.end - rule.start) as u64;
            let compiles = parse_selector(rule.selector.as_str()).is_ok();
            let selector = rule.selector.clone();
            entries.push(SelectorEntry { selector, compiles, rule, used: false });
            assert(entries@ =~= old_entries + rules@.take(k + 1).map_values(|r: CssRule| new_entry(r)));
            k = k + 1;
        }
        assert(rules@.take(rules@.len() as int) =~= rules@);
        let end = entries.len();
        css_files.push(CssFileEntry { path, start, end });
        if let Some(p) = progress {
            p.record_css_file(rules.len() as u64, rule_bytes);
        }
        proof {
            assert forall|i: int| 0 <= i < entries@.len() implies entry_ok(#[trigger] entries@[i]) by {
                if i >= old_entries.len() {
                    assert(entries@[i] == new_entry(rules@[i - old_entries.len()]));
                }
            }
        }
        *self = SelectorTable { css_files, entries };
    }

    /// The entries not used yet whose selectors lol_html accepts: those that
    /// an HTML document can still show used.
    pub fn unsettled(&self) -> (v: Vec<usize>)
        ensures
            v@ == unsettled_indices(self.entries()),
            forall|k: int|
                0 <= k < v@.len() ==> (#[trigger] v@[k]) < self.entries().len()
                    && self.entries()[v@[k] as int].compiles && !self.entries()[v@[k] as int].used,
    {
        let mut v: Vec<usize> = Vec::new();
        let mut i: usize = 0;
        while i < self.entries.len()
            invariant
                i <= self.entries@.len(),
                v@ == unsettled_indices(self.entries@.take(i as int)),
                forall|k: int|
                    0 <= k < v@.len() ==> (#[trigger] v@[k]) < i
                        && self.entries@[v@[k] as int].compiles && !self.entries@[v@[k] as int].used,
            decreases self.entries@.len() - i,
        {
            assert(self.entries@.take(i + 1).drop_last() =~= self.entries@.take(i as int));
            if !self.entries[i].used && self.entries[i].compiles {
                v.push(i);
            }
            i = i + 1;
        }
        assert(self.entries@.take(self.entries@.len() as int) =~= self.entries@);
        v
    }

    /// Runs lol_html once over `html` with the selectors of the entries at
    /// `idxs`; for each of them, whether it matched an element. `None` when
    /// lol_html fails on the document.
    pub fn match_entries(&self, idxs: &Vec<usize>, html: &[u8]) -> (r: Option<Vec<bool>>)
        requires
            forall|k: int|
                0 <= k < idxs@.len() ==> (#[trigger] idxs@[k]) < self.entries().len()
                    && self.entries()[idxs@[k] as int].compiles,
        ensures
            match element_matches(selectors_at(self.entries(), idxs@), html@) {
                Ok(hits) => r matches Some(m) && m@.len() == idxs@.len() && forall|k: int|
                    0 <= k < idxs@.len() ==> (#[trigger] m@[k] <==> hits.contains(k as usize)),
                Err(_) => r is None,
            },
    {
        proof {
            use_type_invariant(self);
        }
        let mut selectors: Vec<String> = Vec::new();
        let mut k: usize = 0;
        while k < idxs.len()
            invariant
                k <= idxs@.len(),
                table_ok(self.css_files@, self.entries@),
                forall|j: int|
                    0 <= j < idxs@.len() ==> (#[trigger] idxs@[j]) < self.entries@.len()
                        && self.entries@[idxs@[j] as int].compiles,
                selectors@.len() == k,
                forall|j: int|
                    0 <= j < k ==> (#[trigger] selectors@[j])@ == self.entries@[idxs@[j] as int].selector@,
            decreases idxs@.len() - k,
        {
            let i = idxs[k];
            assert(entry_ok(self.entries@[i as int]));
            selectors.push(self.entries[i].selector.clone());
            k = k + 1;
        }
        assert(selectors.deep_view() =~= selectors_at(self.entries@, idxs@));
        assert forall|j: int| 0 <= j < selectors@.len() implies selector_parse_outcome(
            #[trigger] selectors@[j]@,
        ) is Ok by {
            assert(entry_ok(self.entries@[idxs@[j] as int]));
        }
        match run_element_handlers(&selectors, html) {
            Err(_) => None,
            Ok(hits) => Some(flags_of_hits(&hits, idxs.len())),
        }
    }

    /// Marks used the entries at `idxs[k]` for which `matched[k]` holds, and
    /// counts in `progress` each one that was not used before.
    pub fn mark_matched(&mut self, idxs: &Vec<usize>, matched: &Vec<bool>, progress: Option<&Progress>)
        requires
            matched@.len() == idxs@.len(),
            forall|k: int|
                0 <= k < idxs@.len() ==> (#[trigger] idxs@[k]) < old(self).entries().len()
                    && old(self).entries()[idxs@[k] as int].compiles,
        ensures
            final(self).files() == old(self).files(),
            marked(old(self).entries(), idxs@, matched@, final(self).entries()),
            table_ok(final(self).files(), final(self).entries()),
    {
        proof {
            use_type_invariant(&*self);
        }
        let mut tmp = SelectorTable::new();
        std::mem::swap(&mut tmp, self);
        let SelectorTable { css_files, mut entries } = tmp;
        let ghost old_entries = entries@;
        let mut k: usize = 0;
        while k < idxs.len()
            invariant
                k <= idxs@.len(),
                matched@.len() == idxs@.len(),
                forall|j: int|
                    0 <= j < idxs@.len() ==> (#[trigger] idxs@[j]) < old_entries.len()
                        && old_entries[idxs@[j] as int].compiles,
                table_ok(css_files@, entries@),
                marked(old_entries, idxs@.take(k as int), matched@.take(k as int), entries@),
            decreases idxs@.len() - k,
        {
            let i = idxs[k];
            let ghost before = entries@;
            if matched[k] && !entries[i].used {
                let e = &entries[i];
                let span = (e.rule.end - e.rule.start) as u64;
                let marked_entry = SelectorEntry {
                    selector: e.selector.clone(),
                    compiles: e.compiles,
                    rule: copy_rule(&e.rule),
                    used: true,
                };
                let ghost new_e = marked_entry;
                entries.set(i, marked_entry);
                assert(entries@ =~= before.update(i as int, new_e));
                if let Some(p) = progress {
                    p.record_selector_used(span);
                }
            }
            proof {
                let t = idxs@.take(k + 1);
                let m = matched@.take(k + 1);
                assert forall|x: int| 0 <= x < old_entries.len() implies
                    (#[trigger] entries@[x]).used == (old_entries[x].used || exists|j: int|
                        0 <= j < t.len() && t[j] == x && m[j]) by {
                    if x == i && matched@[k as int] {
                        assert(t[k as int] == x && m[k as int]);
                    }
                    if exists|j: int| 0 <= j < t.len() && t[j] == x && m[j] {
                        let j = choose|j: int| 0 <= j < t.len() && t[j] == x && m[j];
                        if j < k {
                            assert(idxs@.take(k as int)[j] == x && matched@.take(k as int)[j]);
                        }
                    }
                    if exists|j: int| 0 <= j < k && idxs@.take(k as int)[j] == x && matched@.take(k as int)[j] {
                        let j = choose|j: int| 0 <= j < k && idxs@.take(k as int)[j] == x && matched@.take(k as int)[j];
                        assert(t[j] == x && m[j]);
                    }
                }
                assert forall|x: int| 0 <= x < entries@.len() implies entry_ok(#[trigger] entries@[x]) by {
                    assert(entry_ok(before[x]));
                    if x == i {
                        assert(old_entries[i as int].compiles);
                    }
                }
            }
            k = k + 1;
        }
        assert(idxs@.take(idxs@.len() as int) =~= idxs@);
        assert(matched@.take(matched@.len() as int) =~= matched@);
        *self = SelectorTable { css_files, entries };
    }

    /// Tests the selectors not yet used against one HTML document and marks
    /// used those that match an element of it; leaves the table as it was
    /// when there is nothing left to test or lol_html fails on the document.
    pub fn test_html_file(&mut self, html: &[u8], progress: Option<&Progress>)
        ensures
            final(self).files() == old(self).files(),
            final(self).entries() == after_document(old(self).entries(), html@),
            table_ok(final(self).files(), final(self).entries()),
    {
        proof {
            use_type_invariant(&*self);
        }
        let unsettled = self.unsettled();
        if unsettled.len() == 0 {
            assert(self.entries() =~= after_document(self.entries(), html@));
            return;
        }
        let matched = match self.match_entries(&unsettled, html) {
            None => {
                assert(self.entries() =~= after_document(self.entries(), html@));
                return;
            },
            Some(m) => m,
        };
        let ghost u = unsettled@;
        let ghost before = self.entries();
        self.mark_matched(&unsettled, &matched, progress);
        proof {
            assert(self.entries() =~= after_document(before, html@));
        }
    }

    /// The number of rules of all stylesheets.
    pub fn entry_count(&self) -> (n: usize)
        ensures
            n == self.entries().len(),
    {
        self.entries.len()
    }

    /// The number of stylesheets.
    pub fn file_count(&self) -> (n: usize)
        ensures
            n == self.files().len(),
    {
        self.css_files.len()
    }

    /// The path of stylesheet `f`.
    pub fn file_path(&self, f: usize) -> (p: &PathBuf)
        requires
            f < self.files().len(),
        ensures
            *p == self.files()[f as int].path,
    {
        &self.css_files[f].path
    }

    /// For each stylesheet, its path and each of its selectors in order,
    /// with whether it is used.
    pub fn to_results(&self) -> (r: Vec<CssFileResult>)
        ensures
            r@.len() == self.files().len(),
            forall|f: int|
                0 <= f < r@.len() ==> {
                    let file = self.files()[f];
                    &&& (#[trigger] r@[f]).path == file.path
                    &&& r@[f].selectors@.len() == file.end - file.start
                    &&& forall|k: int|
                        0 <= k < r@[f].selectors@.len() ==> {
                            let e = self.entries()[file.start + k];
                            &&& (#[trigger] r@[f].selectors@[k]).selector@ == e.selector@
                            &&& r@[f].selectors@[k].used == e.used
                        }
                },
    {
        proof {
            use_type_invariant(self);
        }
        let mut r: Vec<CssFileResult> = Vec::new();
        let mut f: usize = 0;
        while f < self.css_files.len()
            invariant
                f <= self.css_files@.len(),
                table_ok(self.css_files@, self.entries@),
                r@.len() == f,
                forall|g: int|
                    0 <= g < f ==> {
                        let file = self.css_files@[g];
                        &&& (#[trigger] r@[g]).path == file.path
                        &&& r@[g].selectors@.len() == file.end - file.start
                        &&& forall|k: int|
                            0 <= k < r@[g].selectors@.len() ==> {
                                let e = self.entries@[file.start + k];
                                &&& (#[trigger] r@[g].selectors@[k]).selector@ == e.selector@
                                &&& r@[g].selectors@[k].used == e.used
                            }
                    },
            decreases self.css_files@.len() - f,
        {
            let file = &self.css_files[f];
            assert(file.end <= self.entries@.len()) by {
                let fs = self.css_files@;
                assert forall|g: int| f <= g < fs.len() implies #[trigger] fs[g].end <= self.entries@.len() by {
                    lemma_file_end_bound(fs, self.entries@.len() as int, g);
                }
            }
            let mut selectors: Vec<SelectorResult> = Vec::new();
            let mut i: usize = file.start;
            while i < file.end
                invariant
                    file.start <= i <= file.end <= self.entries@.len(),
                    selectors@.len() == i - file.start,
                    forall|k: int|
                        0 <= k < selectors@.len() ==> {
                            let e = self.entries@[file.start + k];
                            &&& (#[trigger] selectors@[k]).selector@ == e.selector@
                            &&& selectors@[k].used == e.used
                        },
                decreases file.end - i,
            {
                let e = &self.entries[i];
                selectors.push(SelectorResult { selector: e.selector.clone(), used: e.used });
                i = i + 1;
            }
            r.push(CssFileResult { path: clone_path(&file.path), selectors });
            f = f + 1;
        }
        r
    }

    /// The rules of stylesheet `f` not used, in order.
    pub fn unused_rules_of(&self, f: usize) -> (v: Vec<CssRule>)
        requires
            f < self.files().len(),
        ensures
            v@ == unused_rules(file_entries(self.files(), self.entries(), f as int)),
    {
        proof {
            use_type_invariant(self);
            lemma_file_end_bound(self.css_files@, self.entries@.len() as int, f as int);
        }
        let file = &self.css_files[f];
        let mut v: Vec<CssRule> = Vec::new();
        let mut i: usize = file.start;
        while i < file.end
            invariant
                file.start <= i <= file.end <= self.entries@.len(),
                v@ == unused_rules(self.entries@.subrange(file.start as int, i as int)),
            decreases file.end - i,
        {
            assert(self.entries@.subrange(file.start as int, i + 1).drop_last() =~= self.entries@.subrange(
                file.start as int,
                i as int,
            ));
            if !self.entries[i].used {
                v.push(copy_rule(&self.entries[i].rule));
            }
            i = i + 1;
        }
        v
    }

    /// Whether `into_pruned` can cut each stylesheet's text (as read again)
    /// at its unused rules: one text per stylesheet, and `prune_fits` for
    /// each.
    pub fn pruning_fits(&self, css_texts: &Vec<String>) -> (ok: bool)
        ensures
            ok == (css_texts@.len() == self.files().len() && forall|f: int|
                0 <= f < self.files().len() ==> prune_fits(
                    (#[trigger] css_texts@[f])@,
                    unused_rules(file_entries(self.files(), self.entries(), f)),
                )),
    {
        if css_texts.len() != self.css_files.len() {
            return false;
        }
        let mut f: usize = 0;
        while f < self.css_files.len()
            invariant
                f <= self.css_files@.len(),
                css_texts@.len() == self.css_files@.len(),
                forall|g: int|
                    0 <= g < f ==> prune_fits(
                        (#[trigger] css_texts@[g])@,
                        unused_rules(file_entries(self.css_files@, self.entries@, g)),
                    ),
            decreases self.css_files@.len() - f,
        {
            let unused = self.unused_rules_of(f);
            if !prune_accepts(css_texts[f].as_str(), unused.as_slice()) {
                return false;
            }
            f = f + 1;
        }
        true
    }

    /// Each stylesheet without its unused rules, from `css_texts[f]`, its
    /// text as read again; in the order of the stylesheets.
    pub fn into_pruned(self, css_texts: Vec<String>) -> (r: Vec<PrunedFile>)
        requires
            css_texts@.len() == self.files().len(),
            forall|f: int|
                0 <= f < self.files().len() ==> prune_fits(
                    (#[trigger] css_texts@[f])@,
                    unused_rules(file_entries(self.files(), self.entries(), f)),
                ),
        ensures
            r@.len() == self.files().len(),
            forall|f: int|
                0 <= f < r@.len() ==> (#[trigger] r@[f]).path == self.files()[f].path
                    && r@[f].content@ == pruned_text(
                    css_texts@[f]@,
                    unused_rules(file_entries(self.files(), self.entries(), f)),
                ),
    {
        let mut r: Vec<PrunedFile> = Vec::new();
        let mut f: usize = 0;
        while f < self.css_files.len()
            invariant
                f <= self.css_files@.len(),
                css_texts@.len() == self.css_files@.len(),
                forall|g: int|
                    0 <= g < self.css_files@.len() ==> prune_fits(
                        (#[trigger] css_texts@[g])@,
                        unused_rules(file_entries(self.css_files@, self.entries@, g)),
                    ),
                r@.len() == f,
                forall|g: int|
                    0 <= g < f ==> (#[trigger] r@[g]).path == self.css_files@[g].path
                        && r@[g].content@ == pruned_text(
                        css_texts@[g]@,
                        unused_rules(file_entries(self.css_files@, self.entries@, g)),
                    ),
            decreases self.css_files@.len() - f,
        {
            let unused = self.unused_rules_of(f);
            assert(prune_fits(css_texts@[f as int]@, unused@));
            let content = prune_css(css_texts[f].as_str(), unused.as_slice());
            r.push(PrunedFile { path: clone_path(&self.css_files[f].path), content });
            f = f + 1;
        }
        r
    }
}

/// Only selectors that lol_html accepts are ever marked used.
pub proof fn law_used_selectors_compile(files: Seq<CssFileEntry>, entries: Seq<SelectorEntry>)
    requires
        table_ok(files, entries),
    ensures
        forall|i: int|
            0 <= i < entries.len() && (#[trigger] entries[i]).used ==> selector_parse_outcome(
                entries[i].selector@,
            ) is Ok,
{
    assert forall|i: int| 0 <= i < entries.len() && (#[trigger] entries[i]).used implies selector_parse_outcome(
        entries[i].selector@,
    ) is Ok by {
        assert(entry_ok(entries[i]));
    }
}

/// Marking never takes back a use, and marks nothing that was not matched.
pub proof fn law_marking_only_adds(
    entries: Seq<SelectorEntry>,
    idxs: Seq<usize>,
    matched: Seq<bool>,
    after: Seq<SelectorEntry>,
)
    requires
        marked(entries, idxs, matched, after),
    ensures
        forall|i: int| 0 <= i < entries.len() && (#[trigger] entries[i]).used ==> after[i].used,
        forall|i: int|
            0 <= i < entries.len() && (#[trigger] after[i]).used && !entries[i].used ==> exists|k: int|
                0 <= k < idxs.len() && idxs[k] == i && matched[k],
{
    assert forall|i: int| 0 <= i < entries.len() && (#[trigger] entries[i]).used implies after[i].used by {
        assert(after[i].used == (entries[i].used || exists|k: int|
            0 <= k < idxs.len() && idxs[k] == i && matched[k]));
    }
}

proof fn lemma_unused_rules_members(entries: Seq<SelectorEntry>, r: CssRule)
    ensures
        unused_rules(entries).contains(r) <==> exists|i: int|
            0 <= i < entries.len() && !(#[trigger] entries[i]).used && entries[i].rule == r,
    decreases entries.len(),
{
    if entries.len() > 0 {
        let d = entries.drop_last();
        lemma_unused_rules_members(d, r);
        let rest = unused_rules(d);
        if exists|i: int| 0 <= i < d.len() && !(#[trigger] d[i]).used && d[i].rule == r {
            let i = choose|i: int| 0 <= i < d.len() && !(#[trigger] d[i]).used && d[i].rule == r;
            assert(entries[i] == d[i]);
        }
        if exists|i: int| 0 <= i < entries.len() && !(#[trigger] entries[i]).used && entries[i].rule == r {
            let i = choose|i: int| 0 <= i < entries.len() && !(#[trigger] entries[i]).used && entries[i].rule == r;
            if i < d.len() {
                assert(d[i] == entries[i]);
            }
        }
        if !entries.last().used {
            if rest.push(entries.last().rule).contains(r) && !rest.contains(r) {
                let k = choose|k: int| 0 <= k < rest.len() + 1 && rest.push(entries.last().rule)[k] == r;
                assert(k == rest.len());
            }
            if rest.contains(r) {
                let k = choose|k: int| 0 <= k < rest.len() && rest[k] == r;
                assert(rest.push(entries.last().rule)[k] == r);
            }
            if entries.last().rule == r {
                assert(rest.push(entries.last().rule)[rest.len() as int] == r);
            }
        }
    }
}

/// The rules that pruning removes from a stylesheet are exactly the rules
/// of its unused selectors.
pub proof fn law_pruning_removes_the_unused(entries: Seq<SelectorEntry>)
    ensures
        forall|r: CssRule|
            #[trigger] unused_rules(entries).contains(r) <==> exists|i: int|
                0 <= i < entries.len() && !(#[trigger] entries[i]).used && entries[i].rule == r,
{
    assert forall|r: CssRule| #[trigger] unused_rules(entries).contains(r) <==> exists|i: int|
        0 <= i < entries.len() && !(#[trigger] entries[i]).used && entries[i].rule == r by {
        lemma_unused_rules_members(entries, r);
    }
}

proof fn lemma_all_used_no_unused_rules(entries: Seq<SelectorEntry>)
    requires
        forall|i: int| 0 <= i < entries.len() ==> (#[trigger] entries[i]).used,
    ensures
        unused_rules(entries).len() == 0,
    decreases entries.len(),
{
    if entries.len() > 0 {
        let d = entries.drop_last();
        assert forall|i: int| 0 <= i < d.len() implies (#[trigger] d[i]).used by {
            assert(d[i] == entries[i]);
        }
        lemma_all_used_no_unused_rules(d);
        assert(entries.last() == entries[entries.len() - 1]);
    }
}

/// A stylesheet whose selectors are all used comes out of pruning
/// unchanged.
pub proof fn law_fully_used_stylesheet_unchanged(
    files: Seq<CssFileEntry>,
    entries: Seq<SelectorEntry>,
    f: int,
    css: Seq<char>,
)
    requires
        0 <= f < files.len(),
        forall|i: int|
            0 <= i < file_entries(files, entries, f).len() ==> (#[trigger] file_entries(
                files,
                entries,
                f,
            )[i]).used,
    ensures
        pruned_text(css, unused_rules(file_entries(files, entries, f))) == css,
{
    lemma_all_used_no_unused_rules(file_entries(files, entries, f));
}

/// After testing a sequence of documents, a selector is used exactly when
/// it was used before or some document of the sequence reported it matched
/// while it was still unused; nothing else about the entries changes.
pub proof fn law_used_iff_reported(entries: Seq<SelectorEntry>, docs: Seq<Seq<u8>>)
    ensures
        after_documents(entries, docs).len() == entries.len(),
        forall|i: int|
            0 <= i < entries.len() ==> {
                let e = #[trigger] after_documents(entries, docs)[i];
                &&& e.selector == entries[i].selector
                &&& e.compiles == entries[i].compiles
                &&& e.rule == entries[i].rule
                &&& e.used == (entries[i].used || exists|k: int|
                    0 <= k < docs.len() && reported_in(
                        after_documents(entries, docs.take(k)),
                        docs[k],
                        i,
                    ))
            },
    decreases docs.len(),
{
    if docs.len() > 0 {
        let prev = docs.drop_last();
        law_used_iff_reported(entries, prev);
        let mid = after_documents(entries, prev);
        assert(docs.take(docs.len() - 1) =~= prev);
        assert forall|k: int| 0 <= k < prev.len() implies #[trigger] docs.take(k) == prev.take(k) by {
            assert(docs.take(k) =~= prev.take(k));
        }
        assert forall|i: int| 0 <= i < entries.len() implies {
            let e = #[trigger] after_documents(entries, docs)[i];
            &&& e.selector == entries[i].selector
            &&& e.compiles == entries[i].compiles
            &&& e.rule == entries[i].rule
            &&& e.used == (entries[i].used || exists|k: int|
                0 <= k < docs.len() && reported_in(after_documents(entries, docs.take(k)), docs[k], i))
        } by {
            let now = exists|k: int|
                0 <= k < docs.len() && reported_in(after_documents(entries, docs.take(k)), docs[k], i);
            let before = exists|k: int|
                0 <= k < prev.len() && reported_in(after_documents(entries, prev.take(k)), prev[k], i);
            if before {
                let k = choose|k: int|
                    0 <= k < prev.len() && reported_in(after_documents(entries, prev.take(k)), prev[k], i);
                assert(docs.take(k) == prev.take(k));
                assert(docs[k] == prev[k]);
            }
            if reported_in(mid, docs.last(), i) {
                let k = docs.len() - 1;
                assert(docs.take(k) =~= prev);
                assert(reported_in(after_documents(entries, docs.take(k)), docs[k], i));
            }
            if now {
                let k = choose|k: int|
                    0 <= k < docs.len() && reported_in(after_documents(entries, docs.take(k)), docs[k], i);
                if k < prev.len() {
                    assert(docs.take(k) == prev.take(k));
                    assert(docs[k] == prev[k]);
                } else {
                    assert(docs.take(k) =~= prev);
                }
            }
        }
    }
}

proof fn lemma_rule_count_prefix(rules: Seq<Seq<CssRule>>, k: int)
    requires
        0 <= k <= rules.len(),
    ensures
        0 <= rule_count(rules.take(k)) <= rule_count(rules),
    decreases rules.len(),
{
    if k == rules.len() {
        assert(rules.take(k) =~= rules);
        if rules.len() > 0 {
            lemma_rule_count_prefix(rules.drop_last(), 0);
        }
    } else {
        assert(rules.drop_last().take(k) =~= rules.take(k));
        lemma_rule_count_prefix(rules.drop_last(), k);
    }
}

/// Adding a sequence of stylesheets to an empty table gives one range per
/// stylesheet, in order and with its path; the ranges follow one another
/// from the first entry to the last; the entries of range `k` are fresh
/// entries for the rules of stylesheet `k`, in order: not used, with
/// `compiles` telling whether lol_html accepts the selector.
pub proof fn law_added_stylesheets(paths: Seq<PathBuf>, rules: Seq<Seq<CssRule>>)
    requires
        paths.len() == rules.len(),
        rule_count(rules) <= usize::MAX,
    ensures
        ({
            let (fs, es) = added_stylesheets(paths, rules);
            &&& fs.len() == paths.len()
            &&& es.len() == rule_count(rules)
            &&& files_partition(fs, es.len() as int)
            &&& forall|k: int|
                0 <= k < fs.len() ==> {
                    &&& (#[trigger] fs[k]).path == paths[k]
                    &&& fs[k].start == rule_count(rules.take(k))
                    &&& fs[k].end == rule_count(rules.take(k + 1))
                    &&& es.subrange(fs[k].start as int, fs[k].end as int) == rules[k].map_values(
                        |r: CssRule| new_entry(r),
                    )
                }
            &&& forall|i: int|
                0 <= i < es.len() ==> {
                    &&& !(#[trigger] es[i]).used
                    &&& es[i].selector == es[i].rule.selector
                    &&& es[i].compiles == (selector_parse_outcome(es[i].selector@) is Ok)
                }
        }),
    decreases paths.len(),
{
    if paths.len() > 0 {
        let pp = paths.drop_last();
        let rr = rules.drop_last();
        lemma_rule_count_prefix(rules, rules.len() - 1);
        assert(rules.take(rules.len() - 1) =~= rr);
        law_added_stylesheets(pp, rr);
        let (f, e) = added_stylesheets(pp, rr);
        let (fs, es) = added_stylesheets(paths, rules);
        let last = rules.last();
        let fresh = last.map_values(|r: CssRule| new_entry(r));
        assert(es == e + fresh);
        assert(fs == f.push(
            CssFileEntry {
                path: paths.last(),
                start: e.len() as usize,
                end: (e.len() + last.len()) as usize,
            },
        ));
        assert(rules.take(rules.len() as int) =~= rules);
        assert forall|k: int| 0 <= k < fs.len() implies {
            &&& (#[trigger] fs[k]).path == paths[k]
            &&& fs[k].start == rule_count(rules.take(k))
            &&& fs[k].end == rule_count(rules.take(k + 1))
            &&& es.subrange(fs[k].start as int, fs[k].end as int) == rules[k].map_values(
                |r: CssRule| new_entry(r),
            )
        } by {
            if k < f.len() {
                assert(fs[k] == f[k]);
                assert(rules.take(k) =~= rr.take(k));
                assert(rules.take(k + 1) =~= rr.take(k + 1));
                assert(pp[k] == paths[k]);
                assert(rr[k] == rules[k]);
                lemma_rule_count_prefix(rr, k + 1);
                assert(es.subrange(fs[k].start as int, fs[k].end as int) =~= e.subrange(
                    f[k].start as int,
                    f[k].end as int,
                ));
            } else {
                assert(k == rules.len() - 1);
                assert(es.subrange(fs[k].start as int, fs[k].end as int) =~= fresh);
            }
        }
        assert forall|i: int| 0 <= i < es.len() implies {
            &&& !(#[trigger] es[i]).used
            &&& es[i].selector == es[i].rule.selector
            &&& es[i].compiles == (selector_parse_outcome(es[i].selector@) is Ok)
        } by {
            if i < e.len() {
                assert(es[i] == e[i]);
            } else {
                assert(es[i] == new_entry(last[i - e.len()]));
            }
        }
        assert forall|g: int| 0 <= g < fs.len() - 1 implies #[trigger] fs[g].end == fs[g + 1].start by {
            if g + 1 < f.len() {
                assert(fs[g] == f[g] && fs[g + 1] == f[g + 1]);
            } else {
                assert(fs[g] == f[g]);
                if f.len() > 0 {
                    assert(f.last() == f[g]);
                }
            }
        }
        assert forall|g: int| 0 <= g < fs.len() implies #[trigger] fs[g].start <= fs[g].end by {
            if g < f.len() {
                assert(fs[g] == f[g]);
            }
        }
    }
}

/// The entries still to test are exactly those not used yet whose selector
/// lol_html accepts, each named once, in order: a used entry never keeps
/// another from being tested.
pub proof fn law_unsettled_are_unused_and_compiling(entries: Seq<SelectorEntry>)
    requires
        entries.len() <= usize::MAX,
    ensures
        forall|i: int|
            0 <= i < entries.len() ==> (unsettled_indices(entries).contains(i as usize) <==> (
            !(#[trigger] entries[i]).used && entries[i].compiles)),
        forall|k: int|
            0 <= k < unsettled_indices(entries).len() ==> (#[trigger] unsettled_indices(entries)[k])
                < entries.len(),
        forall|k: int, l: int|
            0 <= k < l < unsettled_indices(entries).len() ==> (#[trigger] unsettled_indices(
                entries,
            )[k]) < #[trigger] unsettled_indices(entries)[l],
    decreases entries.len(),
{
    if entries.len() > 0 {
        let prev = entries.drop_last();
        law_unsettled_are_unused_and_compiling(prev);
        let u = unsettled_indices(prev);
        let n = (entries.len() - 1) as usize;
        assert forall|i: int| 0 <= i < entries.len() implies (unsettled_indices(entries).contains(
            i as usize,
        ) <==> (!(#[trigger] entries[i]).used && entries[i].compiles)) by {
            if i < entries.len() - 1 {
                assert(entries[i] == prev[i]);
                if u.push(n).contains(i as usize) {
                    let k = choose|k: int| 0 <= k < u.push(n).len() && u.push(n)[k] == i as usize;
                    if k < u.len() {
                        assert(u[k] == i as usize);
                    }
                }
                if u.contains(i as usize) {
                    let k = choose|k: int| 0 <= k < u.len() && u[k] == i as usize;
                    assert(u.push(n)[k] == i as usize);
                }
            } else {
                if u.contains(i as usize) {
                    let k = choose|k: int| 0 <= k < u.len() && u[k] == i as usize;
                }
                if !entries[i].used && entries[i].compiles {
                    assert(u.push(n)[u.len() as int] == i as usize);
                }
            }
        }
    }
}

/// A rule is among the unused rules of `entries` exactly when an entry not
/// used holds it.
proof fn lemma_unused_rules_contains(entries: Seq<SelectorEntry>, r: CssRule)
    ensures
        unused_rules(entries).contains(r) <==> exists|i: int|
            0 <= i < entries.len() && !(#[trigger] entries[i]).used && entries[i].rule == r,
    decreases entries.len(),
{
    if entries.len() > 0 {
        let prev = entries.drop_last();
        lemma_unused_rules_contains(prev, r);
        let u = unused_rules(prev);
        if exists|i: int| 0 <= i < entries.len() && !(#[trigger] entries[i]).used && entries[i].rule == r {
            let i = choose|i: int| 0 <= i < entries.len() && !(#[trigger] entries[i]).used && entries[i].rule == r;
            if i < entries.len() - 1 {
                assert(prev[i] == entries[i]);
                let k = choose|k: int| 0 <= k < u.len() && u[k] == r;
                assert(u.push(entries.last().rule)[k] == r);
            } else {
                assert(u.push(entries.last().rule)[u.len() as int] == r);
            }
        }
        if unused_rules(entries).contains(r) {
            let k = choose|k: int| 0 <= k < unused_rules(entries).len() && unused_rules(entries)[k] == r;
            if !entries.last().used && k == u.len() {
                assert(!entries[entries.len() - 1].used && entries[entries.len() - 1].rule == r);
            } else {
                assert(u[k] == r);
                let i = choose|i: int| 0 <= i < prev.len() && !(#[trigger] prev[i]).used && prev[i].rule == r;
                assert(entries[i] == prev[i]);
            }
        }
    }
}

/// The rules pruned from stylesheet `f` are exactly the unused rules of its
/// own range of entries: its entries are those from its start to its end.
pub proof fn law_file_prunes_only_its_own_rules(
    files: Seq<CssFileEntry>,
    entries: Seq<SelectorEntry>,
    f: int,
    r: CssRule,
)
    requires
        table_ok(files, entries),
        0 <= f < files.len(),
    ensures
        file_entries(files, entries, f).len() == files[f].end - files[f].start,
        forall|k: int|
            0 <= k < file_entries(files, entries, f).len() ==> #[trigger] file_entries(
                files,
                entries,
                f,
            )[k] == entries[files[f].start + k],
        unused_rules(file_entries(files, entries, f)).contains(r) <==> exists|i: int|
            files[f].start <= i < files[f].end && !(#[trigger] entries[i]).used && entries[i].rule
                == r,
{
    lemma_file_end_bound(files, entries.len() as int, f);
    let fe = file_entries(files, entries, f);
    let st = files[f].start as int;
    lemma_unused_rules_contains(fe, r);
    if exists|i: int| st <= i < files[f].end && !(#[trigger] entries[i]).used && entries[i].rule == r {
        let i = choose|i: int| st <= i < files[f].end && !(#[trigger] entries[i]).used && entries[i].rule == r;
        assert(fe[i - st] == entries[i]);
    }
    if exists|j: int| 0 <= j < fe.len() && !(#[trigger] fe[j]).used && fe[j].rule == r {
        let j = choose|j: int| 0 <= j < fe.len() && !(#[trigger] fe[j]).used && fe[j].rule == r;
        assert(fe[j] == entries[st + j]);
    }
}

} // verus!

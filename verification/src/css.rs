//! Style rules of a stylesheet and the removal of unused ones.

use cssparser::{
    AtRuleParser, CowRcStr, ParseError, Parser, ParserInput, ParserState, QualifiedRuleParser,
    StyleSheetParser,
};
use vstd::prelude::*;
use vstd::utf8::*;
use vstd::string::*;
use crate::error::{Error, Result};
use crate::text::{
    chars_of, is_blank, is_blank_line, lines_of, split_lines, string_from_chars, trim, trim_chars,
    views,
};

verus! {

/// A style rule of a stylesheet: its selector text and the byte span
/// `start..end` of the whole rule (selector and declaration block) in the
/// stylesheet's text.
#[derive(Debug)]
pub struct CssRule {
    pub selector: String,
    pub start: usize,
    pub end: usize,
}

impl Clone for CssRule {
    fn clone(&self) -> (c: Self)
        ensures
            c == *self,
    {
        copy_rule(self)
    }
}

/// A copy of `r` with the same selector text and span.
pub fn copy_rule(r: &CssRule) -> (c: CssRule)
    ensures
        c == *r,
{
    CssRule { selector: r.selector.clone(), start: r.start, end: r.end }
}

/// The byte span of a rule.
pub open spec fn span_of(r: CssRule) -> (int, int) {
    (r.start as int, r.end as int)
}

/// The byte spans of `rules`, in the same order.
pub open spec fn spans_of(rules: Seq<CssRule>) -> Seq<(int, int)> {
    rules.map_values(|r: CssRule| span_of(r))
}

/// Inserts `x` after every span of `sorted` whose start is at most `x`'s.
pub open spec fn insert_span(sorted: Seq<(int, int)>, x: (int, int)) -> Seq<(int, int)>
    decreases sorted.len(),
{
    if sorted.len() == 0 {
        seq![x]
    } else if sorted.last().0 <= x.0 {
        sorted.push(x)
    } else {
        insert_span(sorted.drop_last(), x).push(sorted.last())
    }
}

/// The spans ordered by start; spans with equal starts keep their order
/// (a stable sort).
pub open spec fn sort_spans(s: Seq<(int, int)>) -> Seq<(int, int)>
    decreases s.len(),
{
    if s.len() == 0 {
        seq![]
    } else {
        insert_span(sort_spans(s.drop_last()), s.last())
    }
}

pub open spec fn sorted_by_start(s: Seq<(int, int)>) -> bool {
    forall|i: int, j: int| 0 <= i < j < s.len() ==> s[i].0 <= s[j].0
}

/// Inserting at the position `p` that separates the starts not above
/// `x.0` from those above it.
proof fn lemma_insert_span_at(sorted: Seq<(int, int)>, x: (int, int), p: int)
    requires
        0 <= p <= sorted.len(),
        forall|i: int| 0 <= i < p ==> sorted[i].0 <= x.0,
        forall|i: int| p <= i < sorted.len() ==> sorted[i].0 > x.0,
    ensures
        insert_span(sorted, x) == sorted.insert(p, x),
    decreases sorted.len(),
{
    if sorted.len() == 0 {
        assert(sorted.insert(p, x) =~= seq![x]);
    } else if sorted.last().0 <= x.0 {
        assert(p == sorted.len());
        assert(sorted.insert(p, x) =~= sorted.push(x));
    } else {
        let d = sorted.drop_last();
        lemma_insert_span_at(d, x, p);
        assert(d.insert(p, x).push(sorted.last()) =~= sorted.insert(p, x));
    }
}

/// Sorts the spans of `rules` by start, stably.
fn sorted_spans(rules: &[CssRule]) -> (v: Vec<(usize, usize)>)
    ensures
        v@.map_values(|p: (usize, usize)| (p.0 as int, p.1 as int)) == sort_spans(spans_of(rules@)),
{
    let mut v: Vec<(usize, usize)> = Vec::new();
    let mut i: usize = 0;
    while i < rules.len()
        invariant
            i <= rules@.len(),
            v@.map_values(|p: (usize, usize)| (p.0 as int, p.1 as int)) == sort_spans(
                spans_of(rules@.take(i as int)),
            ),
            sorted_by_start(v@.map_values(|p: (usize, usize)| (p.0 as int, p.1 as int))),
        decreases rules@.len() - i,
    {
        let x = (rules[i].start, rules[i].end);
        let mut p: usize = v.len();
        while p > 0 && v[p - 1].0 > x.0
            invariant
                p <= v@.len(),
                forall|k: int| p <= k < v@.len() ==> v@[k].0 > x.0,
            decreases p,
        {
            p = p - 1;
        }
        let ghost old_view = v@.map_values(|q: (usize, usize)| (q.0 as int, q.1 as int));
        let ghost xs = (x.0 as int, x.1 as int);
        proof {
            assert forall|k: int| 0 <= k < p implies old_view[k].0 <= xs.0 by {
                if p > 0 {
                    assert(old_view[p - 1].0 <= xs.0);
                }
            }
            lemma_insert_span_at(old_view, xs, p as int);
            assert(spans_of(rules@.take(i + 1)).drop_last() =~= spans_of(rules@.take(i as int)));
            assert(spans_of(rules@.take(i + 1)).last() == xs);
        }
        v.insert(p, x);
        assert(v@.map_values(|q: (usize, usize)| (q.0 as int, q.1 as int)) =~= old_view.insert(
            p as int,
            xs,
        ));
        i = i + 1;
    }
    assert(rules@.take(rules@.len() as int) =~= rules@);
    v
}

/// The text of `b` outside the spans, which are taken in order from byte
/// `pos` on: the bytes from `pos` to a span's start are kept when that start
/// lies beyond `pos`, and reading goes on from the span's end.
pub open spec fn kept_text(b: Seq<u8>, spans: Seq<(int, int)>, pos: int) -> Seq<char>
    decreases spans.len(),
{
    if spans.len() == 0 {
        if pos < b.len() {
            decode_utf8(b.subrange(pos, b.len() as int))
        } else {
            seq![]
        }
    } else {
        let s = spans[0].0;
        let e = spans[0].1;
        (if s > pos {
            decode_utf8(b.subrange(pos, s))
        } else {
            seq![]
        }) + kept_text(b, spans.drop_first(), e)
    }
}

/// Every cut that `kept_text` makes in `b` falls on a character boundary
/// (and so within `b`).
pub open spec fn cuts_fit(b: Seq<u8>, spans: Seq<(int, int)>, pos: int) -> bool
    decreases spans.len(),
{
    if spans.len() == 0 {
        pos < b.len() ==> is_char_boundary(b, pos)
    } else {
        let s = spans[0].0;
        let e = spans[0].1;
        &&& s > pos ==> is_char_boundary(b, pos) && is_char_boundary(b, s)
        &&& cuts_fit(b, spans.drop_first(), e)
    }
}

/// A boundary of `b` before `to` is a boundary of `b`'s first `to` bytes.
pub(crate) proof fn lemma_boundary_of_prefix(b: Seq<u8>, from: int, to: int)
    requires
        valid_utf8(b),
        0 <= from <= to,
        is_char_boundary(b, from),
        is_char_boundary(b, to),
    ensures
        valid_utf8(b.subrange(0, to)),
        is_char_boundary(b.subrange(0, to), from),
{
    valid_utf8_split(b, to);
    let h = b.subrange(0, to);
    if from == to {
        is_char_boundary_start_end_of_seq(h);
    } else if from > 0 {
        is_char_boundary_iff_not_is_continuation_byte(b, from);
        is_char_boundary_iff_not_is_continuation_byte(h, from);
    }
}

/// The part of `s` between the byte offsets `from` and `to`, as `&s[from..to]`
/// gives it.
fn byte_slice(s: &str, from: usize, to: usize) -> (r: &str)
    requires
        from <= to,
        is_char_boundary(s.spec_bytes(), from as int),
        is_char_boundary(s.spec_bytes(), to as int),
    ensures
        r@ == decode_utf8(s.spec_bytes().subrange(from as int, to as int)),
{
    let ghost b = s.spec_bytes();
    proof {
        encode_utf8_valid_utf8(s@);
        lemma_boundary_of_prefix(b, from as int, to as int);
    }
    let (head, _) = s.split_at(to);
    let (_, mid) = head.split_at(from);
    proof {
        assert(mid.spec_bytes() =~= b.subrange(from as int, to as int));
        encode_utf8_decode_utf8(mid@);
    }
    mid
}

/// The text of `css` outside the spans, sorted by start; the spans are cut
/// out as `prune_css` does before it tidies the lines.
fn splice_out(css: &str, spans: &Vec<(usize, usize)>) -> (r: String)
    requires
        cuts_fit(
            css.spec_bytes(),
            spans@.map_values(|p: (usize, usize)| (p.0 as int, p.1 as int)),
            0,
        ),
    ensures
        r@ == kept_text(
            css.spec_bytes(),
            spans@.map_values(|p: (usize, usize)| (p.0 as int, p.1 as int)),
            0,
        ),
{
    let ghost b = css.spec_bytes();
    let ghost sp = spans@.map_values(|p: (usize, usize)| (p.0 as int, p.1 as int));
    let mut result = String::new();
    let mut pos: usize = 0;
    let mut k: usize = 0;
    assert(sp.skip(0) =~= sp);
    assert(result@ + kept_text(b, sp, 0) =~= kept_text(b, sp, 0));
    while k < spans.len()
        invariant
            k <= spans@.len(),
            b == css.spec_bytes(),
            sp == spans@.map_values(|p: (usize, usize)| (p.0 as int, p.1 as int)),
            cuts_fit(b, sp.skip(k as int), pos as int),
            result@ + kept_text(b, sp.skip(k as int), pos as int) == kept_text(b, sp, 0),
        decreases spans@.len() - k,
    {
        let (start, end) = spans[k];
        proof {
            assert(sp.skip(k as int).drop_first() =~= sp.skip(k + 1));
            assert(sp.skip(k as int)[0] == (start as int, end as int));
        }
        let ghost before = result@;
        if start > pos {
            let piece = byte_slice(css, pos, start);
            result.append(piece);
        }
        assert(result@ + kept_text(b, sp.skip(k + 1), end as int) =~= before + kept_text(
            b,
            sp.skip(k as int),
            pos as int,
        ));
        pos = end;
        k = k + 1;
    }
    proof {
        encode_utf8_valid_utf8(css@);
        is_char_boundary_start_end_of_seq(b);
        assert(sp.skip(k as int).len() == 0);
    }
    let ghost before = result@;
    let n = css.as_bytes().len();
    if pos < n {
        let piece = byte_slice(css, pos, n);
        result.append(piece);
    }
    assert(result@ =~= before + kept_text(b, sp.skip(k as int), pos as int));
    result
}

/// Joins the lines again with single newlines, keeping one newline for a run
/// of blank lines: a blank line adds a `'\n'` only when it starts a run, and
/// a non-blank line adds a `'\n'` (when the text is not empty) and itself.
/// The second component is the length of the current run of blank lines.
pub open spec fn collapse(lines: Seq<Seq<char>>) -> (Seq<char>, nat)
    decreases lines.len(),
{
    if lines.len() == 0 {
        (seq![], 0)
    } else {
        let (text, run) = collapse(lines.drop_last());
        let line = lines.last();
        if is_blank(line) {
            (
                if run + 1 <= 1 {
                    text.push('\n')
                } else {
                    text
                },
                run + 1,
            )
        } else {
            (
                (if text.len() > 0 {
                    text.push('\n')
                } else {
                    text
                }) + line,
                0,
            )
        }
    }
}

pub open spec fn ends_with_newline(s: Seq<char>) -> bool {
    s.len() > 0 && s.last() == '\n'
}

/// Ends the tidied text with a newline when it or the input stylesheet ends
/// with one.
pub open spec fn finish(cleaned: Seq<char>, css: Seq<char>) -> Seq<char> {
    if !ends_with_newline(cleaned) && ends_with_newline(css) {
        cleaned.push('\n')
    } else {
        cleaned
    }
}

/// The spans of `rules` sorted by start, as `prune_css` visits them.
pub open spec fn prune_spans(rules: Seq<CssRule>) -> Seq<(int, int)> {
    sort_spans(spans_of(rules))
}

/// The text of `css` outside the spans of `rules`.
pub open spec fn outside_rules(css: Seq<char>, rules: Seq<CssRule>) -> Seq<char> {
    kept_text(encode_utf8(css), prune_spans(rules), 0)
}

/// The stylesheet `css` with the rules `rules` removed: unchanged when there
/// is no rule to remove; otherwise the text outside the rules, with its
/// lines joined again, runs of blank lines reduced to one newline, and a
/// final newline kept.
pub open spec fn pruned_text(css: Seq<char>, rules: Seq<CssRule>) -> Seq<char> {
    if rules.len() == 0 {
        css
    } else {
        finish(collapse(lines_of(outside_rules(css, rules))).0, css)
    }
}

/// `prune_css` can cut `css` at the spans of `rules`: each cut falls on a
/// character boundary of its UTF-8 text (slicing a `str` elsewhere panics).
pub open spec fn prune_fits(css: Seq<char>, rules: Seq<CssRule>) -> bool {
    rules.len() > 0 ==> cuts_fit(encode_utf8(css), prune_spans(rules), 0)
}

/// Appends the characters of `src` to `dst`.
fn extend_chars(dst: &mut Vec<char>, src: &Vec<char>)
    ensures
        final(dst)@ == old(dst)@ + src@,
{
    let mut i: usize = 0;
    while i < src.len()
        invariant
            i <= src@.len(),
            dst@ == old(dst)@ + src@.take(i as int),
        decreases src@.len() - i,
    {
        dst.push(src[i]);
        assert(src@.take(i + 1) =~= src@.take(i as int).push(src@[i as int]));
        i = i + 1;
    }
    assert(src@.take(src@.len() as int) =~= src@);
}

/// Joins the lines as `collapse` says.
fn collapse_lines(lines: &Vec<Vec<char>>) -> (r: Vec<char>)
    ensures
        r@ == collapse(views(lines@)).0,
{
    let mut cleaned: Vec<char> = Vec::new();
    let mut blank_run: usize = 0;
    let mut k: usize = 0;
    while k < lines.len()
        invariant
            k <= lines@.len(),
            blank_run <= k,
            (cleaned@, blank_run as nat) == collapse(views(lines@).take(k as int)),
        decreases lines@.len() - k,
    {
        assert(views(lines@).take(k + 1).drop_last() =~= views(lines@).take(k as int));
        assert(views(lines@).take(k + 1).last() == lines@[k as int]@);
        if is_blank_line(&lines[k]) {
            blank_run = blank_run + 1;
            if blank_run <= 1 {
                cleaned.push('\n');
            }
        } else {
            blank_run = 0;
            if cleaned.len() > 0 {
                cleaned.push('\n');
            }
            extend_chars(&mut cleaned, &lines[k]);
        }
        k = k + 1;
    }
    assert(views(lines@).take(lines@.len() as int) =~= views(lines@));
    cleaned
}

/// Removes the rules `unused_rules` from the stylesheet `css`, keeping all
/// other text (at-rules among it), and tidies the blank lines that the
/// removal leaves.
pub fn prune_css(css: &str, unused_rules: &[CssRule]) -> (r: String)
    requires
        prune_fits(css@, unused_rules@),
    ensures
        r@ == pruned_text(css@, unused_rules@),
{
    if unused_rules.len() == 0 {
        return css.to_owned();
    }
    let spans = sorted_spans(unused_rules);
    let result = splice_out(css, &spans);
    let lines = split_lines(&chars_of(result.as_str()));
    let mut cleaned = collapse_lines(&lines);
    let css_chars = chars_of(css);
    let cleaned_ends = cleaned.len() > 0 && cleaned[cleaned.len() - 1] == '\n';
    let css_ends = css_chars.len() > 0 && css_chars[css_chars.len() - 1] == '\n';
    if cleaned_ends || css_ends {
        if !cleaned_ends {
            cleaned.push('\n');
        }
    }
    string_from_chars(&cleaned)
}

/// A style rule as the stylesheet parser reports it: the text of its
/// prelude (the selector, untrimmed), the byte offset where the rule starts,
/// and the byte offset of the `}` that closes its block.
pub struct RawRule {
    pub prelude: String,
    pub start: usize,
    pub block_end: usize,
}

/// One top-level item of a stylesheet, as the stylesheet parser reports it.
pub enum ParsedItem {
    /// A style rule (selector and declaration block).
    Style(RawRule),
    /// An at-rule (`@media`, `@import`, ...), which is skipped.
    AtRule,
    /// A parse error, with its description.
    Invalid(String),
}

/// The rules that the stylesheet's items give, as (selector, start, end):
/// each style rule with its prelude trimmed and its span running through the
/// closing `}`; at-rules are skipped; the first parse error ends it all.
pub open spec fn parsed_rules(items: Seq<ParsedItem>) -> std::result::Result<Seq<(Seq<char>, int, int)>, Seq<char>>
    decreases items.len(),
{
    if items.len() == 0 {
        Ok(seq![])
    } else {
        match items[0] {
            ParsedItem::Invalid(m) => Err(m@),
            ParsedItem::AtRule => parsed_rules(items.drop_first()),
            ParsedItem::Style(r) => match parsed_rules(items.drop_first()) {
                Ok(rest) => Ok(
                    seq![(trim(r.prelude@), r.start as int, r.block_end + 1)] + rest,
                ),
                Err(m) => Err(m),
            },
        }
    }
}

/// A style rule's item starts at or before the end of its block, which is
/// at most `n`.
pub open spec fn style_within(item: ParsedItem, n: int) -> bool {
    item matches ParsedItem::Style(raw) ==> raw.start <= raw.block_end <= n
}

/// When both items are style rules, the first one's block ends before the
/// second one starts.
pub open spec fn style_before(a: ParsedItem, b: ParsedItem) -> bool {
    a matches ParsedItem::Style(x) ==> (b matches ParsedItem::Style(y) ==> x.block_end < y.start)
}

/// The item is a style rule that starts at byte `s`.
pub open spec fn style_starts_at(item: ParsedItem, s: int) -> bool {
    item matches ParsedItem::Style(raw) && raw.start == s
}

/// Rules read from items that lie within `n` bytes, one after another, are
/// nonempty spans ending at most one byte past `n` (past it only when the
/// last block is not closed), in order and without overlap; each starts
/// where a style item starts.
proof fn lemma_parsed_rules_spans(items: Seq<ParsedItem>, n: int)
    requires
        forall|k: int| 0 <= k < items.len() ==> style_within(#[trigger] items[k], n),
        forall|k: int, j: int|
            0 <= k < j < items.len() ==> style_before(#[trigger] items[k], #[trigger] items[j]),
    ensures
        parsed_rules(items) matches Ok(rs) ==> {
            &&& forall|i: int| 0 <= i < rs.len() ==> (#[trigger] rs[i]).1 < rs[i].2 <= n + 1
            &&& forall|i: int, j: int| 0 <= i < j < rs.len() ==> (#[trigger] rs[i]).2 <= (#[trigger] rs[j]).1
            &&& forall|i: int| 0 <= i < rs.len() ==> exists|k: int|
                0 <= k < items.len() && style_starts_at(#[trigger] items[k], (#[trigger] rs[i]).1)
        },
    decreases items.len(),
{
    if items.len() > 0 {
        let tail = items.drop_first();
        assert forall|k: int| 0 <= k < tail.len() implies style_within(#[trigger] tail[k], n) by {
            assert(tail[k] == items[k + 1]);
        }
        assert forall|k: int, j: int| 0 <= k < j < tail.len() implies style_before(
            #[trigger] tail[k],
            #[trigger] tail[j],
        ) by {
            assert(tail[k] == items[k + 1] && tail[j] == items[j + 1]);
        }
        lemma_parsed_rules_spans(tail, n);
        match parsed_rules(items) {
            Ok(rs) => {
                match items[0] {
                    ParsedItem::Style(raw) => {
                        let rest = rs.drop_first();
                        assert(parsed_rules(tail) == Ok::<Seq<(Seq<char>, int, int)>, Seq<char>>(rest)) by {
                            match parsed_rules(tail) {
                                Ok(t) => {
                                    assert(rs == seq![(trim(raw.prelude@), raw.start as int, raw.block_end + 1)] + t);
                                    assert(rest =~= t);
                                },
                                Err(_) => {},
                            }
                        }
                        assert(style_within(items[0], n));
                        assert forall|i: int| 0 <= i < rs.len() implies (#[trigger] rs[i]).1 < rs[i].2 <= n + 1 by {
                            if i > 0 {
                                assert(rs[i] == rest[i - 1]);
                            }
                        }
                        assert forall|i: int| 0 <= i < rs.len() implies exists|k: int|
                            0 <= k < items.len() && style_starts_at(#[trigger] items[k], (#[trigger] rs[i]).1) by {
                            if i == 0 {
                                assert(style_starts_at(items[0], rs[0].1));
                            } else {
                                assert(rs[i] == rest[i - 1]);
                                let k = choose|k: int| 0 <= k < tail.len() && style_starts_at(#[trigger] tail[k], rest[i - 1].1);
                                assert(tail[k] == items[k + 1]);
                                assert(style_starts_at(items[k + 1], rs[i].1));
                            }
                        }
                        assert forall|i: int, j: int| 0 <= i < j < rs.len() implies (#[trigger] rs[i]).2 <= (#[trigger] rs[j]).1 by {
                            assert(rs[j] == rest[j - 1]);
                            if i > 0 {
                                assert(rs[i] == rest[i - 1]);
                            } else {
                                let k = choose|k: int| 0 <= k < tail.len() && style_starts_at(#[trigger] tail[k], rest[j - 1].1);
                                assert(tail[k] == items[k + 1]);
                                assert(style_before(items[0], items[k + 1]));
                            }
                        }
                    },
                    ParsedItem::AtRule => {
                        assert forall|i: int| 0 <= i < rs.len() implies exists|k: int|
                            0 <= k < items.len() && style_starts_at(#[trigger] items[k], (#[trigger] rs[i]).1) by {
                            let k = choose|k: int| 0 <= k < tail.len() && style_starts_at(#[trigger] tail[k], rs[i].1);
                            assert(tail[k] == items[k + 1]);
                        }
                    },
                    ParsedItem::Invalid(_) => {},
                }
            },
            Err(_) => {},
        }
    }
}

/// `acc` put in front of the rules of `rest`, or `rest`'s error.
pub open spec fn prepend_rules(
    acc: Seq<(Seq<char>, int, int)>,
    rest: std::result::Result<Seq<(Seq<char>, int, int)>, Seq<char>>,
) -> std::result::Result<Seq<(Seq<char>, int, int)>, Seq<char>> {
    match rest {
        Ok(rs) => Ok(acc + rs),
        Err(m) => Err(m),
    }
}

/// A rule as (selector, start, end).
pub open spec fn rule_view(r: CssRule) -> (Seq<char>, int, int) {
    (r.selector@, r.start as int, r.end as int)
}

/// The style rules of a stylesheet from the items its parser reported, in
/// order; at-rules are skipped, and a parse error gives `Error::CssParse`.
pub fn rules_from_parsed(items: Vec<ParsedItem>) -> (r: Result<Vec<CssRule>>)
    requires
        forall|k: int|
            0 <= k < items@.len() ==> (#[trigger] items@[k] matches ParsedItem::Style(raw)
                ==> raw.block_end < usize::MAX),
    ensures
        match parsed_rules(items@) {
            Ok(rs) => r matches Ok(v) && v@.map_values(|c: CssRule| rule_view(c)) == rs,
            Err(m) => r matches Err(Error::CssParse(s)) && s@ == m,
        },
{
    let mut rules: Vec<CssRule> = Vec::new();
    let mut k: usize = 0;
    assert(items@.skip(0) =~= items@);
    assert(prepend_rules(seq![], parsed_rules(items@)) =~= parsed_rules(items@)) by {
        match parsed_rules(items@) {
            Ok(rs) => {
                assert(Seq::<(Seq<char>, int, int)>::empty() + rs =~= rs);
            },
            Err(_) => {},
        }
    }
    while k < items.len()
        invariant
            k <= items@.len(),
            forall|j: int|
                0 <= j < items@.len() ==> (#[trigger] items@[j] matches ParsedItem::Style(raw)
                    ==> raw.block_end < usize::MAX),
            prepend_rules(rules@.map_values(|c: CssRule| rule_view(c)), parsed_rules(items@.skip(k as int)))
                == parsed_rules(items@),
        decreases items@.len() - k,
    {
        let ghost acc = rules@.map_values(|c: CssRule| rule_view(c));
        let ghost rest = items@.skip(k as int);
        assert(rest.drop_first() =~= items@.skip(k + 1));
        assert(rest[0] == items@[k as int]);
        match &items[k] {
            ParsedItem::Invalid(m) => {
                return Err(Error::CssParse(m.clone()));
            },
            ParsedItem::AtRule => {},
            ParsedItem::Style(raw) => {
                let selector = string_from_chars(&trim_chars(&chars_of(raw.prelude.as_str())));
                rules.push(CssRule { selector, start: raw.start, end: raw.block_end + 1 });
                proof {
                    let item = (trim(raw.prelude@), raw.start as int, raw.block_end + 1);
                    assert(rules@.map_values(|c: CssRule| rule_view(c)) =~= acc.push(item));
                    match parsed_rules(items@.skip(k + 1)) {
                        Ok(rs) => {
                            assert(acc + (seq![item] + rs) =~= acc.push(item) + rs);
                        },
                        Err(_) => {},
                    }
                }
            },
        }
        k = k + 1;
    }
    assert(items@.skip(k as int) =~= Seq::<ParsedItem>::empty());
    assert(rules@.map_values(|c: CssRule| rule_view(c)) + Seq::<(Seq<char>, int, int)>::empty()
        =~= rules@.map_values(|c: CssRule| rule_view(c)));
    Ok(rules)
}

/// Whether `prune_css` can cut `css` at the spans of `unused_rules`, that is
/// whether its requirement `prune_fits` holds.
pub fn prune_accepts(css: &str, unused_rules: &[CssRule]) -> (r: bool)
    ensures
        r == prune_fits(css@, unused_rules@),
{
    if unused_rules.len() == 0 {
        return true;
    }
    let spans = sorted_spans(unused_rules);
    let ghost b = css.spec_bytes();
    let ghost sp = spans@.map_values(|p: (usize, usize)| (p.0 as int, p.1 as int));
    let mut pos: usize = 0;
    let mut k: usize = 0;
    assert(sp.skip(0) =~= sp);
    while k < spans.len()
        invariant
            k <= spans@.len(),
            b == css.spec_bytes(),
            sp == spans@.map_values(|p: (usize, usize)| (p.0 as int, p.1 as int)),
            cuts_fit(b, sp, 0) == cuts_fit(b, sp.skip(k as int), pos as int),
            sp == prune_spans(unused_rules@),
            unused_rules@.len() > 0,
        decreases spans@.len() - k,
    {
        let (start, end) = spans[k];
        proof {
            assert(sp.skip(k as int).drop_first() =~= sp.skip(k + 1));
            assert(sp.skip(k as int)[0] == (start as int, end as int));
        }
        if start > pos {
            if !css.is_char_boundary(pos) || !css.is_char_boundary(start) {
                assert(sp.skip(k as int).len() > 0);
                assert(!cuts_fit(b, sp.skip(k as int), pos as int));
                return false;
            }
        }
        pos = end;
        k = k + 1;
    }
    assert(sp.skip(k as int).len() == 0);
    let n = css.as_bytes().len();
    if pos < n {
        css.is_char_boundary(pos)
    } else {
        true
    }
}

/// `cssparser::Parser`, handed to the rule parser's methods.
#[verifier::external_type_specification]
#[verifier::external_body]
pub struct ExCssParser<'i, 't>(Parser<'i, 't>);

/// `cssparser::ParserState`, the position where a rule starts.
#[verifier::external_type_specification]
#[verifier::external_body]
pub struct ExCssParserState(ParserState);

/// `cssparser::CowRcStr`, the name of an at-rule.
#[verifier::external_type_specification]
#[verifier::external_body]
pub struct ExCssCowRcStr<'i>(CowRcStr<'i>);

/// `cssparser::ParseError`, what the rule parser's methods may fail with.
#[verifier::external_type_specification]
#[verifier::external_body]
#[verifier::reject_recursive_types(T)]
pub struct ExCssParseError<'i, T>(ParseError<'i, T>);

/// What cssparser's `StyleSheetParser` reports of the top-level items of the
/// stylesheet `css`, driving `RuleExtractor`: a function of the text alone.
pub uninterp spec fn stylesheet_items(css: Seq<char>) -> Seq<ParsedItem>;

/// The rule parser that cssparser's `StyleSheetParser` drives: it reports a
/// style rule's prelude and span, and skips at-rules.
pub(crate) struct RuleExtractor;

impl<'i> QualifiedRuleParser<'i> for RuleExtractor {
    type Prelude = String;
    type QualifiedRule = Option<RawRule>;
    type Error = ();

    /// Consumes the prelude with `Parser::next_including_whitespace_and_comments`
    /// and returns its text, `Parser::slice_from` the prelude's start.
    #[verifier::external_body]
    fn parse_prelude<'t>(
        &mut self,
        input: &mut Parser<'i, 't>,
    ) -> std::result::Result<Self::Prelude, ParseError<'i, Self::Error>> {
        let start = input.position();
        while input.next_including_whitespace_and_comments().is_ok() {}
        Ok(input.slice_from(start).to_string())
    }

    /// Consumes the block and reports the rule: its prelude, the byte offset
    /// of its start, and the byte offset where the block's contents end.
    #[verifier::external_body]
    fn parse_block<'t>(
        &mut self,
        prelude: Self::Prelude,
        start: &ParserState,
        input: &mut Parser<'i, 't>,
    ) -> std::result::Result<Self::QualifiedRule, ParseError<'i, Self::Error>> {
        while input.next_including_whitespace_and_comments().is_ok() {}
        let block_end = input.position().byte_index();
        Ok(Some(RawRule { prelude, start: start.position().byte_index(), block_end }))
    }
}

impl<'i> AtRuleParser<'i> for RuleExtractor {
    type Prelude = ();
    type AtRule = Option<RawRule>;
    type Error = ();

    /// Consumes an at-rule's prelude with
    /// `Parser::next_including_whitespace_and_comments`.
    #[verifier::external_body]
    fn parse_prelude<'t>(
        &mut self,
        _name: CowRcStr<'i>,
        input: &mut Parser<'i, 't>,
    ) -> std::result::Result<Self::Prelude, ParseError<'i, Self::Error>> {
        while input.next_including_whitespace_and_comments().is_ok() {}
        Ok(())
    }

    /// An at-rule without a block is skipped.
    #[verifier::external_body]
    fn rule_without_block(
        &mut self,
        _prelude: Self::Prelude,
        _start: &ParserState,
    ) -> std::result::Result<Self::AtRule, ()> {
        Ok(None)
    }

    /// Consumes an at-rule's block with
    /// `Parser::next_including_whitespace_and_comments`; the at-rule is skipped.
    #[verifier::external_body]
    fn parse_block<'t>(
        &mut self,
        _prelude: Self::Prelude,
        _start: &ParserState,
        input: &mut Parser<'i, 't>,
    ) -> std::result::Result<Self::AtRule, ParseError<'i, Self::Error>> {
        while input.next_including_whitespace_and_comments().is_ok() {}
        Ok(None)
    }
}

/// Runs cssparser's `StyleSheetParser` over `css` with `RuleExtractor` and
/// converts each item it yields: a style rule, an at-rule, or the `Debug`
/// text of a parse error. The contract names the outcome `stylesheet_items`,
/// and claims what the parser's positions give: a style rule starts at or
/// before the offset where its block's contents end (its `}`, or the end of
/// the text for a block left open), that offset is at most the text's byte
/// length (and so below `usize::MAX`), and a later style rule starts after
/// that offset, since the tokenizer only moves forward and consumes the `}`
/// before the next rule.
#[verifier::external_body]
pub(crate) fn parse_stylesheet(css: &str) -> (items: Vec<ParsedItem>)
    ensures
        items@ == stylesheet_items(css@),
        forall|k: int|
            0 <= k < items@.len() ==> (#[trigger] items@[k] matches ParsedItem::Style(raw)
                ==> raw.block_end < usize::MAX),
        forall|k: int|
            0 <= k < items@.len() ==> style_within(#[trigger] items@[k], css.spec_bytes().len() as int),
        forall|k: int, j: int|
            0 <= k < j < items@.len() ==> style_before(#[trigger] items@[k], #[trigger] items@[j]),
{
    let mut input = ParserInput::new(css);
    let mut parser = Parser::new(&mut input);
    let mut rule_parser = RuleExtractor;
    StyleSheetParser::new(&mut parser, &mut rule_parser).map(|item| match item {
        Ok(Some(rule)) => ParsedItem::Style(rule),
        Ok(None) => ParsedItem::AtRule,
        Err((err, _)) => ParsedItem::Invalid(format!("{err:?}")),
    }).collect()
}

/// The style rules of the stylesheet `css`, in order: at-rules are
/// skipped, each selector is trimmed, each span runs through the rule's
/// closing `}`; the first parse error gives `Error::CssParse`. The spans are
/// nonempty, in order and without overlap, and end within the text, or one
/// byte past it for a last block left open.
pub fn extract_rules(css: &str) -> (r: Result<Vec<CssRule>>)
    ensures
        match parsed_rules(stylesheet_items(css@)) {
            Ok(rs) => r matches Ok(v) && v@.map_values(|c: CssRule| rule_view(c)) == rs,
            Err(m) => r matches Err(Error::CssParse(s)) && s@ == m,
        },
        r matches Ok(v) ==> {
            &&& forall|i: int|
                0 <= i < v@.len() ==> (#[trigger] v@[i]).start < v@[i].end <= css.spec_bytes().len() + 1
            &&& forall|i: int, j: int| 0 <= i < j < v@.len() ==> (#[trigger] v@[i]).end <= (#[trigger] v@[j]).start
        },
{
    let items = parse_stylesheet(css);
    proof {
        lemma_parsed_rules_spans(items@, css.spec_bytes().len() as int);
    }
    let r = rules_from_parsed(items);
    proof {
        if let Ok(v) = &r {
            let rs = v@.map_values(|c: CssRule| rule_view(c));
            assert forall|i: int| 0 <= i < v@.len() implies (#[trigger] v@[i]).start < v@[i].end
                <= css.spec_bytes().len() + 1 by {
                assert(rs[i] == rule_view(v@[i]));
            }
            assert forall|i: int, j: int| 0 <= i < j < v@.len() implies (#[trigger] v@[i]).end
                <= (#[trigger] v@[j]).start by {
                assert(rs[i] == rule_view(v@[i]));
                assert(rs[j] == rule_view(v@[j]));
            }
        }
    }
    r
}

} // verus!

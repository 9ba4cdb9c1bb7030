//! Laws of `prune_css`, stated over the spec functions of its contract.

use vstd::prelude::*;
use vstd::utf8::*;
use vstd::relations::{sorted_by, total_ordering};
use crate::css::{
    lemma_boundary_of_prefix,
    collapse, cuts_fit, ends_with_newline, finish, insert_span, kept_text, outside_rules,
    prune_fits, prune_spans, pruned_text, sort_spans, sorted_by_start, spans_of, CssRule,
};
use crate::text::{is_blank, is_white_space, line_split, lines_of, strip_cr};

verus! {

/// `s` holds no `'\n'`.
pub open spec fn no_newline(s: Seq<char>) -> bool {
    forall|i: int| 0 <= i < s.len() ==> s[i] != '\n'
}

/// `s` holds no three newlines in a row.
pub open spec fn no_triple_newline(s: Seq<char>) -> bool {
    forall|i: int|
        0 <= i && i + 2 < s.len() ==> !(#[trigger] s[i] == '\n' && s[i + 1] == '\n' && s[i + 2]
            == '\n')
}

/// The pieces of `s` between newlines, the last one included even when empty.
pub open spec fn segments(s: Seq<char>) -> Seq<Seq<char>> {
    line_split(s).0.push(line_split(s).1)
}

/// The lines that are not blank.
pub open spec fn non_blank(lines: Seq<Seq<char>>) -> Seq<Seq<char>> {
    lines.filter(|l: Seq<char>| !is_blank(l))
}

proof fn lemma_line_split_no_newline(s: Seq<char>)
    ensures
        no_newline(line_split(s).1),
        forall|k: int|
            0 <= k < line_split(s).0.len() ==> no_newline(#[trigger] line_split(s).0[k]),
    decreases s.len(),
{
    if s.len() > 0 {
        lemma_line_split_no_newline(s.drop_last());
    }
}

/// No line of a text holds a newline.
pub proof fn lemma_lines_no_newline(s: Seq<char>)
    ensures
        forall|k: int| 0 <= k < lines_of(s).len() ==> no_newline(#[trigger] lines_of(s)[k]),
{
    lemma_line_split_no_newline(s);
    let (done, cur) = line_split(s);
    assert forall|k: int| 0 <= k < lines_of(s).len() implies no_newline(
        #[trigger] lines_of(s)[k],
    ) by {
        if k < done.len() {
            assert(lines_of(s)[k] == strip_cr(done[k]));
            assert(no_newline(done[k]));
        } else {
            assert(lines_of(s)[k] == cur);
        }
    }
}

/// Splitting `x + y` where `y` holds no newline continues the last piece of `x`.
proof fn lemma_line_split_append(x: Seq<char>, y: Seq<char>)
    requires
        no_newline(y),
    ensures
        line_split(x + y) == (line_split(x).0, line_split(x).1 + y),
    decreases y.len(),
{
    if y.len() == 0 {
        assert(x + y =~= x);
        assert(line_split(x).1 + y =~= line_split(x).1);
    } else {
        lemma_line_split_append(x, y.drop_last());
        assert((x + y).drop_last() =~= x + y.drop_last());
        assert((line_split(x).1 + y.drop_last()).push(y.last()) =~= line_split(x).1 + y);
    }
}

proof fn lemma_filter_push(s: Seq<Seq<char>>, a: Seq<char>)
    ensures
        non_blank(s.push(a)) == if is_blank(a) {
            non_blank(s)
        } else {
            non_blank(s).push(a)
        },
{
    reveal(Seq::filter);
    assert(s.push(a).drop_last() =~= s);
}

/// What `collapse` keeps track of, for lines without newlines: no three
/// newlines in a row; the text ends with a single newline exactly while a
/// run of blank lines goes on; and its non-blank pieces are the non-blank
/// lines.
proof fn lemma_collapse_shape(lines: Seq<Seq<char>>)
    requires
        forall|k: int| 0 <= k < lines.len() ==> no_newline(#[trigger] lines[k]),
    ensures
        no_triple_newline(collapse(lines).0),
        collapse(lines).1 == 0 ==> !ends_with_newline(collapse(lines).0),
        collapse(lines).1 > 0 ==> ends_with_newline(collapse(lines).0) && (collapse(lines).0.len()
            < 2 || collapse(lines).0[collapse(lines).0.len() - 2] != '\n'),
        non_blank(segments(collapse(lines).0)) == non_blank(lines),
    decreases lines.len(),
{
    if lines.len() == 0 {
        let e = Seq::<Seq<char>>::empty();
        assert(segments(Seq::<char>::empty()) =~= e.push(Seq::<char>::empty()));
        lemma_filter_push(e, Seq::<char>::empty());
        reveal(Seq::filter);
    } else {
        let prev = lines.drop_last();
        assert forall|k: int| 0 <= k < prev.len() implies no_newline(#[trigger] prev[k]) by {
            assert(prev[k] == lines[k]);
        }
        lemma_collapse_shape(prev);
        let (c, run) = collapse(prev);
        let line = lines.last();
        assert(no_newline(line)) by {
            assert(line == lines[lines.len() - 1]);
        }
        assert(lines =~= prev.push(line));
        lemma_filter_push(prev, line);
        if is_blank(line) {
            if run == 0 {
                let c2 = c.push('\n');
                assert(no_triple_newline(c2)) by {
                    assert forall|i: int| 0 <= i && i + 2 < c2.len() implies !(#[trigger] c2[i]
                        == '\n' && c2[i + 1] == '\n' && c2[i + 2] == '\n') by {
                        if i + 2 < c.len() {
                            assert(c2[i] == c[i] && c2[i + 1] == c[i + 1] && c2[i + 2] == c[i + 2]);
                        } else {
                            assert(c2[i + 1] == c[c.len() - 1]);
                        }
                    }
                }
                assert(c2.drop_last() =~= c);
                assert(segments(c2) =~= segments(c).push(Seq::<char>::empty()));
                lemma_filter_push(segments(c), Seq::<char>::empty());
            }
        } else {
            assert(line.len() > 0);
            let head = if c.len() > 0 {
                c.push('\n')
            } else {
                c
            };
            let c2 = head + line;
            assert(collapse(lines).0 == c2);
            assert(c2.last() == line.last());
            assert(no_triple_newline(c2)) by {
                assert forall|i: int| 0 <= i && i + 2 < c2.len() implies !(#[trigger] c2[i] == '\n'
                    && c2[i + 1] == '\n' && c2[i + 2] == '\n') by {
                    if i + 2 < c.len() {
                        assert(c2[i] == c[i] && c2[i + 1] == c[i + 1] && c2[i + 2] == c[i + 2]);
                    } else if i + 2 >= head.len() {
                        assert(c2[i + 2] == line[i + 2 - head.len()]);
                    } else {
                        assert(c.len() > 0);
                        assert(i + 2 == c.len());
                        assert(c2[i] == c[c.len() - 2]);
                        assert(c2[i + 1] == c[c.len() - 1]);
                    }
                }
            }
            lemma_line_split_append(head, line);
            if c.len() > 0 {
                assert(head.drop_last() =~= c);
                assert(line_split(head).1 + line =~= line);
                assert(segments(c2) =~= segments(c).push(line));
            } else {
                assert(head =~= Seq::<char>::empty());
                assert(c2 =~= line);
                assert(line_split(Seq::<char>::empty()) == (
                    Seq::<Seq<char>>::empty(),
                    Seq::<char>::empty(),
                ));
                assert(segments(c2) =~= seq![line]);
                assert(segments(c) =~= seq![Seq::<char>::empty()]);
                lemma_filter_push(Seq::<Seq<char>>::empty(), Seq::<char>::empty());
                lemma_filter_push(Seq::<Seq<char>>::empty(), line);
                assert(Seq::<Seq<char>>::empty().push(Seq::<char>::empty()) =~= seq![
                    Seq::<char>::empty(),
                ]);
                assert(Seq::<Seq<char>>::empty().push(line) =~= seq![line]);
                reveal(Seq::filter);
            }
            lemma_filter_push(segments(c), line);
        }
    }
}

/// Removing no rule gives the stylesheet back unchanged.
pub proof fn law_prune_nothing_is_identity(css: Seq<char>)
    ensures
        pruned_text(css, Seq::<CssRule>::empty()) == css,
{
}

/// Once a rule is removed, the result holds no three newlines in a row: runs
/// of blank lines shrink to a single empty line.
pub proof fn law_prune_no_triple_newline(css: Seq<char>, rules: Seq<CssRule>)
    requires
        rules.len() > 0,
    ensures
        no_triple_newline(pruned_text(css, rules)),
{
    let lines = lines_of(outside_rules(css, rules));
    lemma_lines_no_newline(outside_rules(css, rules));
    lemma_collapse_shape(lines);
    let c = collapse(lines).0;
    let r = finish(c, css);
    assert forall|i: int| 0 <= i && i + 2 < r.len() implies !(#[trigger] r[i] == '\n' && r[i + 1]
        == '\n' && r[i + 2] == '\n') by {
        if i + 2 < c.len() {
            assert(r[i] == c[i] && r[i + 1] == c[i + 1] && r[i + 2] == c[i + 2]);
        } else {
            assert(r[i + 1] == c[c.len() - 1]);
        }
    }
}

/// Removing rules keeps every non-blank line of the text outside them,
/// unchanged and in order, and brings in no other non-blank line: the
/// non-blank pieces between the newlines of the result are exactly the
/// non-blank lines of the text outside the removed rules.
pub proof fn law_prune_keeps_non_blank_lines(css: Seq<char>, rules: Seq<CssRule>)
    requires
        rules.len() > 0,
    ensures
        non_blank(segments(pruned_text(css, rules))) == non_blank(
            lines_of(outside_rules(css, rules)),
        ),
{
    let lines = lines_of(outside_rules(css, rules));
    lemma_lines_no_newline(outside_rules(css, rules));
    lemma_collapse_shape(lines);
    let c = collapse(lines).0;
    if !ends_with_newline(c) && ends_with_newline(css) {
        assert(c.push('\n').drop_last() =~= c);
        assert(segments(c.push('\n')) =~= segments(c).push(Seq::<char>::empty()));
        lemma_filter_push(segments(c), Seq::<char>::empty());
    }
}

/// A stylesheet that ends with a newline still ends with one once rules are
/// removed from it.
pub proof fn law_prune_keeps_final_newline(css: Seq<char>, rules: Seq<CssRule>)
    requires
        ends_with_newline(css),
    ensures
        ends_with_newline(pruned_text(css, rules)),
{
}

/// `s` holds no `x`.
pub open spec fn no_char(s: Seq<char>, x: char) -> bool {
    forall|i: int| 0 <= i < s.len() ==> s[i] != x
}

proof fn lemma_line_split_no_char(s: Seq<char>, x: char)
    requires
        no_char(s, x),
    ensures
        no_char(line_split(s).1, x),
        forall|k: int| 0 <= k < line_split(s).0.len() ==> no_char(#[trigger] line_split(s).0[k], x),
    decreases s.len(),
{
    if s.len() > 0 {
        lemma_line_split_no_char(s.drop_last(), x);
    }
}

/// No line of a text without `'\r'` holds one, and its lines are its pieces
/// between newlines, less a last empty one.
proof fn lemma_lines_without_cr(s: Seq<char>)
    requires
        no_char(s, '\r'),
    ensures
        forall|k: int| 0 <= k < lines_of(s).len() ==> no_char(#[trigger] lines_of(s)[k], '\r'),
        lines_of(s) == if line_split(s).1.len() > 0 {
            segments(s)
        } else {
            line_split(s).0
        },
{
    lemma_line_split_no_char(s, '\r');
    let (done, cur) = line_split(s);
    assert(done.map_values(|l: Seq<char>| strip_cr(l)) =~= done) by {
        assert forall|k: int| 0 <= k < done.len() implies strip_cr(done[k]) == done[k] by {
            assert(no_char(done[k], '\r'));
            if done[k].len() > 0 {
                assert(done[k].last() == done[k][done[k].len() - 1]);
            }
        }
    }
    if cur.len() > 0 {
        assert(lines_of(s) =~= segments(s));
    } else {
        assert(lines_of(s) =~= done);
    }
}

proof fn lemma_collapse_no_char(lines: Seq<Seq<char>>, x: char)
    requires
        x != '\n',
        forall|k: int| 0 <= k < lines.len() ==> no_char(#[trigger] lines[k], x),
    ensures
        no_char(collapse(lines).0, x),
    decreases lines.len(),
{
    if lines.len() > 0 {
        let prev = lines.drop_last();
        assert forall|k: int| 0 <= k < prev.len() implies no_char(#[trigger] prev[k], x) by {
            assert(prev[k] == lines[k]);
        }
        lemma_collapse_no_char(prev, x);
        assert(no_char(lines.last(), x)) by {
            assert(lines.last() == lines[lines.len() - 1]);
        }
    }
}

/// Joining again the pieces between the newlines of what `collapse` made
/// makes the same text, and ends in a run of blank lines exactly when the
/// first joining did.
proof fn lemma_collapse_reproduces(lines: Seq<Seq<char>>)
    requires
        forall|k: int| 0 <= k < lines.len() ==> no_newline(#[trigger] lines[k]),
    ensures
        lines.len() > 0 <==> collapse(lines).0.len() > 0,
        lines.len() > 0 ==> collapse(segments(collapse(lines).0)).0 == collapse(lines).0,
        lines.len() > 0 ==> (collapse(segments(collapse(lines).0)).1 > 0 <==> collapse(lines).1
            > 0),
    decreases lines.len(),
{
    if lines.len() > 0 {
        let prev = lines.drop_last();
        assert forall|k: int| 0 <= k < prev.len() implies no_newline(#[trigger] prev[k]) by {
            assert(prev[k] == lines[k]);
        }
        lemma_collapse_reproduces(prev);
        lemma_collapse_shape(prev);
        let (c, run) = collapse(prev);
        let line = lines.last();
        assert(no_newline(line)) by {
            assert(line == lines[lines.len() - 1]);
        }
        let e = Seq::<char>::empty();
        let ee = Seq::<Seq<char>>::empty();
        if is_blank(line) {
            if run == 0 {
                let c2 = c.push('\n');
                assert(c2.drop_last() =~= c);
                assert(segments(c2) =~= segments(c).push(e));
                assert(is_blank(e));
                if c.len() == 0 {
                    assert(prev.len() == 0);
                    assert(line_split(e) == (ee, e));
                    assert(segments(e) =~= seq![e]);
                    assert(seq![e].drop_last() =~= ee);
                    assert(seq![e].push(e).drop_last() =~= seq![e]);
                    assert(segments(c2) =~= seq![e].push(e));
                    assert(collapse(ee) == (e, 0nat));
                    assert(collapse(seq![e]) == (c2, 1nat));
                    assert(collapse(seq![e].push(e)) == (c2, 2nat));
                } else {
                    assert(segments(c2).drop_last() =~= segments(c));
                    assert(segments(c2).last() == e);
                    assert(collapse(segments(c2)).0 == c2);
                }
            } else {
                assert(ends_with_newline(c));
                assert(prev.len() > 0);
                assert(collapse(lines).0 == c);
            }
        } else {
            assert(line.len() > 0);
            if c.len() == 0 {
                assert(prev.len() == 0);
                lemma_line_split_append(e, line);
                assert(e + line =~= line);
                assert(line_split(e) == (ee, e));
                assert(e + line =~= line);
                assert(segments(line) =~= seq![line]);
                assert(seq![line].drop_last() =~= ee);
                assert(collapse(lines).0 =~= line);
                assert(collapse(ee) == (e, 0nat));
                assert(e + line =~= line);
                assert(collapse(seq![line]) == (line, 0nat));
            } else {
                let head = c.push('\n');
                lemma_line_split_append(head, line);
                assert(head.drop_last() =~= c);
                assert(line_split(head).1 + line =~= line);
                assert(segments(head + line) =~= segments(c).push(line));
                assert(segments(head + line).drop_last() =~= segments(c));
                assert(segments(head + line).last() == line);
                assert(collapse(lines).0 == head + line);
                assert(collapse(segments(head + line)).0 == head + line);
            }
        }
    }
}

proof fn lemma_single_empty_span(z: Seq<CssRule>)
    requires
        z.len() == 1,
        z[0].start == 0,
        z[0].end == 0,
    ensures
        prune_spans(z) == seq![(0int, 0int)],
{
    let s = spans_of(z);
    let none = Seq::<(int, int)>::empty();
    assert(s =~= seq![(0int, 0int)]);
    assert(s.drop_last() =~= none);
    assert(sort_spans(none) == none);
    assert(insert_span(none, (0int, 0int)) == seq![(0int, 0int)]);
    assert(sort_spans(s) == insert_span(sort_spans(s.drop_last()), s.last()));
}

/// Pruning an already pruned text again, with a single empty span, removes
/// nothing and changes nothing, when the text outside the first removed
/// rules holds no `'\r'` (a `'\r'` there can be dropped by the second line
/// splitting).
proof fn lemma_prune_again_changes_nothing(css: Seq<char>, rules: Seq<CssRule>, z: Seq<CssRule>)
    requires
        rules.len() > 0,
        no_char(outside_rules(css, rules), '\r'),
        z.len() == 1,
        z[0].start == 0,
        z[0].end == 0,
    ensures
        prune_fits(pruned_text(css, rules), z),
        pruned_text(pruned_text(css, rules), z) == pruned_text(css, rules),
{
    let k = outside_rules(css, rules);
    let lines = lines_of(k);
    lemma_lines_no_newline(k);
    lemma_lines_without_cr(k);
    lemma_collapse_no_char(lines, '\r');
    lemma_collapse_shape(lines);
    lemma_collapse_reproduces(lines);
    let (c, run) = collapse(lines);
    let r0 = finish(c, css);
    assert(r0 == pruned_text(css, rules));
    assert(no_char(r0, '\r')) by {
        if r0 != c {
            assert forall|i: int| 0 <= i < r0.len() implies r0[i] != '\r' by {
                if i < c.len() {
                    assert(r0[i] == c[i]);
                }
            }
        }
    }
    // The second pruning cuts nothing out of `r0`.
    let b = encode_utf8(r0);
    encode_utf8_valid_utf8(r0);
    encode_utf8_decode_utf8(r0);
    lemma_single_empty_span(z);
    let sp = seq![(0int, 0int)];
    let none = Seq::<(int, int)>::empty();
    assert(sp.drop_first() =~= none);
    assert(kept_text(b, sp, 0) == Seq::<char>::empty() + kept_text(b, none, 0));
    is_char_boundary_start_end_of_seq(b);
    if b.len() > 0 {
        assert(b.subrange(0, b.len() as int) =~= b);
        assert(kept_text(b, none, 0) == decode_utf8(b));
    } else {
        assert(kept_text(b, none, 0) == Seq::<char>::empty());
        assert(decode_utf8(b) == Seq::<char>::empty());
    }
    assert(Seq::<char>::empty() + kept_text(b, none, 0) =~= kept_text(b, none, 0));
    assert(kept_text(b, sp, 0) == r0);
    assert(cuts_fit(b, none, 0));
    assert(cuts_fit(b, sp, 0));
    assert(outside_rules(r0, z) == r0);
    assert(pruned_text(r0, z) == finish(collapse(lines_of(r0)).0, r0));
    let e = Seq::<char>::empty();
    let ee = Seq::<Seq<char>>::empty();
    lemma_lines_without_cr(r0);
    if lines.len() == 0 {
        if r0.len() == 0 {
            assert(lines_of(r0) =~= ee);
        } else {
            assert(r0 =~= seq!['\n']);
            assert(r0.drop_last() =~= e);
            assert(line_split(r0) == (seq![e], e));
            assert(lines_of(r0) =~= seq![e]);
            assert(seq![e].drop_last() =~= ee);
            assert(is_blank(e));
            assert(collapse(seq![e]).0 =~= seq!['\n']);
        }
    } else {
        let segs = segments(c);
        lemma_line_split_no_newline(c);
        lemma_line_split_no_char(c, '\r');
        if run > 0 {
            assert(r0 == c);
            assert(c.drop_last().push('\n') =~= c);
            assert(line_split(c).1 == e);
            assert(lines_of(c) == line_split(c).0);
            assert(segs.drop_last() =~= line_split(c).0);
            assert(segs.last() == e);
            assert(is_blank(e));
            let done = line_split(c).0;
            assert forall|j: int| 0 <= j < done.len() implies no_newline(#[trigger] done[j]) by {}
            lemma_collapse_shape(done);
        } else {
            assert(!ends_with_newline(c));
            assert(c.drop_last().push(c.last()) =~= c);
            assert(line_split(c).1.len() > 0);
            if r0 == c {
                assert(lines_of(r0) == segs);
            } else {
                assert(r0 == c.push('\n'));
                assert(r0.drop_last() =~= c);
                assert(line_split(r0) == (segs, e));
                assert(lines_of(r0) == segs);
            }
        }
    }
}

/// Inserting a span keeps a start-sorted sequence sorted and adds the span
/// to what it holds.
proof fn lemma_insert_span_sorted(sorted: Seq<(int, int)>, x: (int, int))
    requires
        sorted_by_start(sorted),
    ensures
        sorted_by_start(insert_span(sorted, x)),
        insert_span(sorted, x).to_multiset() == sorted.to_multiset().insert(x),
    decreases sorted.len(),
{
    broadcast use vstd::seq_lib::group_to_multiset_ensures;
    broadcast use vstd::multiset::group_multiset_axioms;

    if sorted.len() == 0 {
        assert(seq![x] =~= sorted.push(x));
    } else if sorted.last().0 <= x.0 {
    } else {
        let d = sorted.drop_last();
        let last = sorted.last();
        lemma_insert_span_sorted(d, x);
        let t = insert_span(d, x);
        assert(sorted =~= d.push(last));
        assert forall|i: int| 0 <= i < t.len() implies t[i].0 <= last.0 by {
            assert(t.to_multiset().count(t[i]) > 0);
            if t[i] != x {
                assert(d.to_multiset().count(t[i]) > 0);
                assert(d.contains(t[i]));
                let k = choose|k: int| 0 <= k < d.len() && d[k] == t[i];
                assert(sorted[k] == d[k]);
            }
        }
        assert(t.push(last).to_multiset() =~= t.to_multiset().insert(last));
    }
}

/// `sort_spans` gives a start-sorted sequence that holds what its input holds.
proof fn lemma_sort_spans_sorted(s: Seq<(int, int)>)
    ensures
        sorted_by_start(sort_spans(s)),
        sort_spans(s).to_multiset() == s.to_multiset(),
    decreases s.len(),
{
    broadcast use vstd::seq_lib::group_to_multiset_ensures;

    if s.len() > 0 {
        lemma_sort_spans_sorted(s.drop_last());
        lemma_insert_span_sorted(sort_spans(s.drop_last()), s.last());
        assert(s =~= s.drop_last().push(s.last()));
    }
}

/// No two spans of `s` start at the same byte.
pub open spec fn distinct_starts(s: Seq<(int, int)>) -> bool {
    forall|i: int, j: int| 0 <= i < j < s.len() ==> s[i].0 != s[j].0
}

/// The order of spans by start, then by end.
pub open spec fn span_leq(a: (int, int), b: (int, int)) -> bool {
    a.0 < b.0 || (a.0 == b.0 && a.1 <= b.1)
}

/// A start-sorted arrangement of spans with distinct starts is sorted by
/// `span_leq`.
proof fn lemma_sorted_by_span_leq(t: Seq<(int, int)>, s: Seq<(int, int)>)
    requires
        sorted_by_start(t),
        t.to_multiset() == s.to_multiset(),
        distinct_starts(s),
    ensures
        sorted_by(t, |a: (int, int), b: (int, int)| span_leq(a, b)),
{
    broadcast use vstd::seq_lib::group_to_multiset_ensures;

    assert(s.no_duplicates());
    s.lemma_multiset_has_no_duplicates();
    t.lemma_multiset_has_no_duplicates_conv();
    assert forall|i: int, j: int| 0 <= i < j < t.len() implies span_leq(t[i], t[j]) by {
        if t[i].0 == t[j].0 {
            assert(t.to_multiset().count(t[i]) > 0);
            assert(t.to_multiset().count(t[j]) > 0);
            assert(s.contains(t[i]));
            assert(s.contains(t[j]));
            let a = choose|a: int| 0 <= a < s.len() && s[a] == t[i];
            let b = choose|b: int| 0 <= b < s.len() && s[b] == t[j];
            assert(a != b);
            if a < b {
                assert(s[a].0 != s[b].0);
            } else {
                assert(s[b].0 != s[a].0);
            }
        }
    }
}

/// Nonempty spans that do not overlap start at distinct bytes.
pub open spec fn disjoint_nonempty(rules: Seq<CssRule>) -> bool {
    &&& forall|i: int| 0 <= i < rules.len() ==> #[trigger] rules[i].start < rules[i].end
    &&& forall|i: int, j: int|
        0 <= i < j < rules.len() ==> #[trigger] rules[i].end <= #[trigger] rules[j].start
            || rules[j].end <= rules[i].start
}

/// Pruning depends only on which spans are removed: rules given in another
/// order, with any selector text, whose spans are the same nonempty,
/// non-overlapping spans, give the same text, and fit the stylesheet alike.
pub proof fn law_prune_ignores_rule_order_and_selectors(
    css: Seq<char>,
    rules: Seq<CssRule>,
    others: Seq<CssRule>,
)
    requires
        disjoint_nonempty(rules),
        spans_of(others).to_multiset() == spans_of(rules).to_multiset(),
    ensures
        prune_spans(others) == prune_spans(rules),
        prune_fits(css, others) == prune_fits(css, rules),
        pruned_text(css, others) == pruned_text(css, rules),
{
    broadcast use vstd::seq_lib::group_to_multiset_ensures;

    let s = spans_of(rules);
    let o = spans_of(others);
    assert(o.len() == s.len()) by {
        vstd::seq_lib::to_multiset_len(s);
        vstd::seq_lib::to_multiset_len(o);
    }
    assert forall|i: int, j: int| 0 <= i < j < s.len() implies s[i].0 != s[j].0 by {
        assert(rules[i].start < rules[i].end);
        assert(rules[j].start < rules[j].end);
        assert(rules[i].end <= rules[j].start || rules[j].end <= rules[i].start);
    }
    lemma_sort_spans_sorted(s);
    lemma_sort_spans_sorted(o);
    let leq = |a: (int, int), b: (int, int)| span_leq(a, b);
    lemma_sorted_by_span_leq(sort_spans(s), s);
    lemma_sorted_by_span_leq(sort_spans(o), s);
    assert(total_ordering(leq));
    vstd::seq_lib::lemma_sorted_unique(sort_spans(o), sort_spans(s), leq);
}

/// A `'\r'` in a text gives a byte 13 in its UTF-8 encoding.
proof fn lemma_encoding_shows_cr(s: Seq<char>, i: int)
    requires
        0 <= i < s.len(),
        s[i] == '\r',
    ensures
        exists|j: int| 0 <= j < encode_utf8(s).len() && encode_utf8(s)[j] == 13u8,
    decreases s.len(),
{
    let h = encode_scalar(s[0] as u32);
    let t = encode_utf8(s.drop_first());
    assert(encode_utf8(s) == h + t);
    if i == 0 {
        let v = s[0] as u32;
        assert(v == 13u32);
        assert((v & 0x7Fu32) as u8 == 13u8) by (bit_vector)
            requires
                v == 13u32,
        ;
        assert((h + t)[0] == 13u8);
    } else {
        assert(s.drop_first()[i - 1] == '\r');
        lemma_encoding_shows_cr(s.drop_first(), i - 1);
        let j = choose|j: int| 0 <= j < t.len() && t[j] == 13u8;
        assert((h + t)[h.len() + j] == 13u8);
    }
}

/// The UTF-8 encoding of a text without `'\r'` holds no byte 13.
proof fn lemma_encoding_without_cr(s: Seq<char>)
    requires
        no_char(s, '\r'),
    ensures
        forall|j: int| 0 <= j < encode_utf8(s).len() ==> encode_utf8(s)[j] != 13u8,
    decreases s.len(),
{
    if s.len() > 0 {
        let c = s[0];
        let v = c as u32;
        char_is_scalar(c);
        let h = encode_scalar(v);
        let rest = s.drop_first();
        assert(no_char(rest, '\r')) by {
            assert forall|i: int| 0 <= i < rest.len() implies rest[i] != '\r' by {
                assert(rest[i] == s[i + 1]);
            }
        }
        lemma_encoding_without_cr(rest);
        let t = encode_utf8(rest);
        assert(v != 13u32) by {
            char_u32_cast(c, v);
            char_u32_cast('\r', 13u32);
        }
        assert(forall|j: int| 0 <= j < h.len() ==> h[j] != 13u8) by {
            if has_width_1_encoding(v) {
                assert((v & 0x7Fu32) as u8 != 13u8) by (bit_vector)
                    requires
                        v <= 0x7Fu32,
                        v != 13u32,
                ;
            } else {
                assert((0xC0u8 | ((v >> 6u32) & 0x1Fu32) as u8) != 13u8) by (bit_vector);
                assert((0xE0u8 | ((v >> 12u32) & 0x0Fu32) as u8) != 13u8) by (bit_vector);
                assert((0xF0u8 | ((v >> 18u32) & 0x7u32) as u8) != 13u8) by (bit_vector);
                assert((0x80u8 | (v & 0x3Fu32) as u8) != 13u8) by (bit_vector);
                assert((0x80u8 | ((v >> 6u32) & 0x3Fu32) as u8) != 13u8) by (bit_vector);
                assert((0x80u8 | ((v >> 12u32) & 0x3Fu32) as u8) != 13u8) by (bit_vector);
            }
        }
        assert(encode_utf8(s) == h + t);
        assert forall|j: int| 0 <= j < encode_utf8(s).len() implies encode_utf8(s)[j] != 13u8 by {
            if j >= h.len() {
                assert((h + t)[j] == t[j - h.len()]);
            }
        }
    }
}

/// Valid UTF-8 without a byte 13 decodes to a text without `'\r'`.
proof fn lemma_decoding_without_cr(x: Seq<u8>)
    requires
        valid_utf8(x),
        forall|j: int| 0 <= j < x.len() ==> x[j] != 13u8,
    ensures
        no_char(decode_utf8(x), '\r'),
{
    let d = decode_utf8(x);
    decode_utf8_encode_utf8(x);
    if !no_char(d, '\r') {
        let i = choose|i: int| 0 <= i < d.len() && d[i] == '\r';
        lemma_encoding_shows_cr(d, i);
    }
}

/// The text outside the spans of valid UTF-8 without a byte 13 holds no
/// `'\r'`, when the cuts fall on character boundaries.
proof fn lemma_kept_text_without_cr(b: Seq<u8>, spans: Seq<(int, int)>, pos: int)
    requires
        valid_utf8(b),
        forall|j: int| 0 <= j < b.len() ==> b[j] != 13u8,
        cuts_fit(b, spans, pos),
    ensures
        no_char(kept_text(b, spans, pos), '\r'),
    decreases spans.len(),
{
    if spans.len() == 0 {
        if pos < b.len() {
            valid_utf8_split(b, pos);
            lemma_decoding_without_cr(b.subrange(pos, b.len() as int));
        }
    } else {
        let s = spans[0].0;
        let e = spans[0].1;
        lemma_kept_text_without_cr(b, spans.drop_first(), e);
        let rest = kept_text(b, spans.drop_first(), e);
        let head = if s > pos {
            decode_utf8(b.subrange(pos, s))
        } else {
            Seq::<char>::empty()
        };
        if s > pos {
            assert(pos >= 0);
            lemma_boundary_of_prefix(b, pos, s);
            let pre = b.subrange(0, s);
            valid_utf8_split(pre, pos);
            assert(pre.subrange(pos, pre.len() as int) =~= b.subrange(pos, s));
            lemma_decoding_without_cr(b.subrange(pos, s));
        }
        assert(kept_text(b, spans, pos) == head + rest);
        assert forall|i: int| 0 <= i < (head + rest).len() implies (head + rest)[i] != '\r' by {
            if i >= head.len() {
                assert((head + rest)[i] == rest[i - head.len()]);
            }
        }
    }
}

/// Pruning an already pruned stylesheet again, with a single empty span,
/// removes nothing and changes nothing, for a stylesheet without `'\r'`
/// whose rules `prune_css` can cut out (a `'\r'` can be dropped by the
/// second line splitting).
pub proof fn law_prune_again_changes_nothing(css: Seq<char>, rules: Seq<CssRule>, z: Seq<CssRule>)
    requires
        rules.len() > 0,
        prune_fits(css, rules),
        no_char(css, '\r'),
        z.len() == 1,
        z[0].start == 0,
        z[0].end == 0,
    ensures
        prune_fits(pruned_text(css, rules), z),
        pruned_text(pruned_text(css, rules), z) == pruned_text(css, rules),
{
    let b = encode_utf8(css);
    encode_utf8_valid_utf8(css);
    lemma_encoding_without_cr(css);
    lemma_kept_text_without_cr(b, prune_spans(rules), 0);
    lemma_prune_again_changes_nothing(css, rules, z);
}

/// Removing rules keeps every line of the text outside them that holds a
/// character other than white space, wherever that character stands: it is
/// a piece between newlines of the result.
pub proof fn law_prune_keeps_lines_with_text(css: Seq<char>, rules: Seq<CssRule>, line: Seq<char>)
    requires
        rules.len() > 0,
        lines_of(outside_rules(css, rules)).contains(line),
        exists|i: int| 0 <= i < line.len() && !is_white_space(#[trigger] line[i]),
    ensures
        segments(pruned_text(css, rules)).contains(line),
{
    law_prune_keeps_non_blank_lines(css, rules);
    let lines = lines_of(outside_rules(css, rules));
    let segs = segments(pruned_text(css, rules));
    let k = choose|k: int| 0 <= k < lines.len() && lines[k] == line;
    assert(!is_blank(line));
    reveal(Seq::filter);
    lines.lemma_filter_contains(|l: Seq<char>| !is_blank(l), k);
    assert(non_blank(segs).contains(line));
    segs.lemma_filter_contains_rev(|l: Seq<char>| !is_blank(l), line);
}

/// Each piece between the newlines of what `collapse` makes is empty or
/// holds a character other than white space.
proof fn lemma_collapse_pieces(lines: Seq<Seq<char>>)
    requires
        forall|k: int| 0 <= k < lines.len() ==> no_newline(#[trigger] lines[k]),
    ensures
        forall|k: int|
            0 <= k < segments(collapse(lines).0).len() ==> (#[trigger] segments(collapse(lines).0)[k]).len()
                == 0 || !is_blank(segments(collapse(lines).0)[k]),
    decreases lines.len(),
{
    let e = Seq::<char>::empty();
    let ee = Seq::<Seq<char>>::empty();
    if lines.len() == 0 {
        assert(line_split(e) == (ee, e));
        assert(segments(e) =~= seq![e]);
    } else {
        let prev = lines.drop_last();
        assert forall|k: int| 0 <= k < prev.len() implies no_newline(#[trigger] prev[k]) by {
            assert(prev[k] == lines[k]);
        }
        lemma_collapse_pieces(prev);
        lemma_collapse_reproduces(prev);
        let (c, run) = collapse(prev);
        let line = lines.last();
        assert(no_newline(line)) by {
            assert(line == lines[lines.len() - 1]);
        }
        let c2 = collapse(lines).0;
        if is_blank(line) {
            if run == 0 {
                assert(c2 == c.push('\n'));
                assert(c.push('\n').drop_last() =~= c);
                assert(segments(c2) =~= segments(c).push(e));
            }
        } else if c.len() == 0 {
            lemma_line_split_append(e, line);
            assert(e + line =~= line);
            assert(line_split(e) == (ee, e));
            assert(segments(line) =~= seq![line]);
            assert(c2 =~= line);
        } else {
            let head = c.push('\n');
            lemma_line_split_append(head, line);
            assert(head.drop_last() =~= c);
            assert(line_split(head).1 + line =~= line);
            assert(segments(head + line) =~= segments(c).push(line));
            assert(c2 == head + line);
        }
    }
}

/// The result of removing rules holds no line of white space only: each
/// piece between its newlines is empty or holds a character other than
/// white space.
pub proof fn law_prune_leaves_no_white_space_line(css: Seq<char>, rules: Seq<CssRule>)
    requires
        rules.len() > 0,
    ensures
        forall|k: int|
            0 <= k < segments(pruned_text(css, rules)).len() ==> (#[trigger] segments(
                pruned_text(css, rules),
            )[k]).len() == 0 || exists|i: int|
                0 <= i < segments(pruned_text(css, rules))[k].len() && !is_white_space(
                    segments(pruned_text(css, rules))[k][i],
                ),
{
    let lines = lines_of(outside_rules(css, rules));
    lemma_lines_no_newline(outside_rules(css, rules));
    lemma_collapse_pieces(lines);
    let c = collapse(lines).0;
    let p = pruned_text(css, rules);
    if p != c {
        assert(p == c.push('\n'));
        assert(c.push('\n').drop_last() =~= c);
        assert(segments(p) =~= segments(c).push(Seq::<char>::empty()));
    }
    assert forall|k: int| 0 <= k < segments(p).len() && (#[trigger] segments(p)[k]).len() != 0
        implies exists|i: int| 0 <= i < segments(p)[k].len() && !is_white_space(segments(p)[k][i]) by {
        assert(!is_blank(segments(p)[k]));
    }
}

} // verus!

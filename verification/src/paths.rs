//! File paths: which files are HTML or CSS files.

use std::path::PathBuf;
use vstd::prelude::*;
use crate::text::chars_of;

verus! {

/// `std::path::PathBuf`, carried through as an opaque value.
#[verifier::external_type_specification]
#[verifier::external_body]
pub struct ExPathBuf(PathBuf);

/// Calls `<PathBuf as Clone>::clone`, which gives an equal path.
#[verifier::external_body]
pub(crate) fn clone_path(p: &PathBuf) -> (r: PathBuf)
    ensures
        r == *p,
{
    p.clone()
}

/// The index of the last `'.'` of `name`.
pub open spec fn last_dot(name: Seq<char>) -> Option<int>
    decreases name.len(),
{
    if name.len() == 0 {
        None
    } else if name.last() == '.' {
        Some(name.len() - 1)
    } else {
        last_dot(name.drop_last())
    }
}

/// The extension of a file named `name`, as `Path::extension` documents
/// it: none when the name is `..`, has no `'.'`, or starts with its only
/// `'.'`; otherwise what follows the last `'.'`.
pub open spec fn extension_of(name: Seq<char>) -> Option<Seq<char>> {
    if name == seq!['.', '.'] {
        None
    } else {
        match last_dot(name) {
            None => None,
            Some(k) => if k == 0 {
                None
            } else {
                Some(name.skip(k + 1))
            },
        }
    }
}

/// The code of `c`, with ASCII upper-case letters made lower-case.
pub open spec fn ascii_lower(c: char) -> u32 {
    let u = c as u32;
    if 65 <= u <= 90 {
        (u + 32) as u32
    } else {
        u
    }
}

/// `a` and `b` are equal but for the case of ASCII letters, as
/// `eq_ignore_ascii_case` compares.
pub open spec fn eq_ignore_ascii_case(a: Seq<char>, b: Seq<char>) -> bool {
    a.len() == b.len() && forall|i: int| 0 <= i < a.len() ==> ascii_lower(#[trigger] a[i])
        == ascii_lower(b[i])
}

/// A file named `name` is an HTML file: its extension is `html` or `htm`,
/// in any case.
pub open spec fn is_html_name(name: Seq<char>) -> bool {
    extension_of(name) matches Some(e) && (eq_ignore_ascii_case(e, seq!['h', 't', 'm', 'l'])
        || eq_ignore_ascii_case(e, seq!['h', 't', 'm']))
}

/// A file named `name` is a stylesheet: its extension is `css`, in any case.
pub open spec fn is_css_name(name: Seq<char>) -> bool {
    extension_of(name) matches Some(e) && eq_ignore_ascii_case(e, seq!['c', 's', 's'])
}

fn lower_code(c: char) -> (r: u32)
    ensures
        r == ascii_lower(c),
{
    let u = c as u32;
    if 65 <= u && u <= 90 {
        u + 32
    } else {
        u
    }
}

/// Whether `a[from..]` equals `b` but for the case of ASCII letters.
fn tail_eq_ignore_ascii_case(a: &Vec<char>, from: usize, b: &Vec<char>) -> (r: bool)
    requires
        from <= a@.len(),
    ensures
        r == eq_ignore_ascii_case(a@.skip(from as int), b@),
{
    let ghost t = a@.skip(from as int);
    if a.len() - from != b.len() {
        return false;
    }
    let mut i: usize = 0;
    while i < b.len()
        invariant
            i <= b@.len(),
            t == a@.skip(from as int),
            t.len() == b@.len(),
            from + b@.len() == a@.len(),
            a@.len() <= usize::MAX,
            forall|j: int| 0 <= j < i ==> ascii_lower(#[trigger] t[j]) == ascii_lower(b@[j]),
        decreases b@.len() - i,
    {
        if lower_code(a[from + i]) != lower_code(b[i]) {
            assert(t[i as int] == a@[from + i]);
            return false;
        }
        assert(t[i as int] == a@[from + i]);
        i = i + 1;
    }
    true
}

/// The position just after the last `'.'` of `name`, when the extension
/// exists.
fn extension_start(name: &Vec<char>) -> (r: Option<usize>)
    ensures
        match extension_of(name@) {
            None => r is None,
            Some(e) => r matches Some(k) && k <= name@.len() && name@.skip(k as int) == e,
        },
{
    if name.len() == 2 && name[0] == '.' && name[1] == '.' {
        assert(name@ =~= seq!['.', '.']);
        return None;
    }
    assert(name@ != seq!['.', '.']) by {
        if name@ == seq!['.', '.'] {
            assert(name@.len() == 2 && name@[0] == '.' && name@[1] == '.');
        }
    }
    let mut j: usize = name.len();
    assert(name@.take(j as int) =~= name@);
    while j > 0 && name[j - 1] != '.'
        invariant
            j <= name@.len(),
            last_dot(name@) == last_dot(name@.take(j as int)),
        decreases j,
    {
        assert(name@.take(j as int).drop_last() =~= name@.take(j - 1));
        j = j - 1;
    }
    if j == 0 {
        assert(name@.take(0) =~= Seq::<char>::empty());
        return None;
    }
    assert(last_dot(name@.take(j as int)) == Some(j - 1));
    if j == 1 {
        return None;
    }
    Some(j)
}

/// Whether a file named `name` (a path's last component) is an HTML file.
pub fn is_html_file_name(name: &str) -> (r: bool)
    ensures
        r == is_html_name(name@),
{
    let v = chars_of(name);
    match extension_start(&v) {
        None => false,
        Some(k) => {
            let html = vec!['h', 't', 'm', 'l'];
            let htm = vec!['h', 't', 'm'];
            assert(html@ =~= seq!['h', 't', 'm', 'l']);
            assert(htm@ =~= seq!['h', 't', 'm']);
            tail_eq_ignore_ascii_case(&v, k, &html) || tail_eq_ignore_ascii_case(&v, k, &htm)
        },
    }
}

/// Whether a file named `name` (a path's last component) is a stylesheet.
pub fn is_css_file_name(name: &str) -> (r: bool)
    ensures
        r == is_css_name(name@),
{
    let v = chars_of(name);
    match extension_start(&v) {
        None => false,
        Some(k) => {
            let css = vec!['c', 's', 's'];
            assert(css@ =~= seq!['c', 's', 's']);
            tail_eq_ignore_ascii_case(&v, k, &css)
        },
    }
}

/// `last_dot` finds the last `'.'`: one stands there and none after it.
proof fn lemma_last_dot(name: Seq<char>)
    ensures
        match last_dot(name) {
            None => forall|j: int| 0 <= j < name.len() ==> name[j] != '.',
            Some(k) => 0 <= k < name.len() && name[k] == '.' && forall|j: int|
                k < j < name.len() ==> name[j] != '.',
        },
    decreases name.len(),
{
    if name.len() > 0 && name.last() != '.' {
        lemma_last_dot(name.drop_last());
        assert forall|j: int| 0 <= j < name.len() - 1 implies name[j] == name.drop_last()[j] by {}
    }
}

/// `.css` after any nonempty stem makes a stylesheet's name, and `.html` or
/// `.htm` an HTML file's name, whatever the stem holds (dots included).
pub proof fn law_names_by_extension(stem: Seq<char>)
    requires
        stem.len() > 0,
    ensures
        is_css_name(stem + seq!['.', 'c', 's', 's']),
        is_css_name(stem + seq!['.', 'C', 'S', 'S']),
        is_html_name(stem + seq!['.', 'h', 't', 'm', 'l']),
        is_html_name(stem + seq!['.', 'h', 't', 'm']),
{
    let exts = seq![seq!['c', 's', 's'], seq!['C', 'S', 'S'], seq!['h', 't', 'm', 'l'], seq!['h', 't', 'm']];
    assert forall|x: int| 0 <= x < exts.len() implies {
        let name = stem + seq!['.'] + #[trigger] exts[x];
        &&& last_dot(name) == Some(stem.len() as int)
        &&& extension_of(name) == Some(exts[x])
    } by {
        let e = exts[x];
        let name = stem + seq!['.'] + e;
        lemma_last_dot(name);
        assert(name[stem.len() as int] == '.');
        assert forall|j: int| stem.len() < j < name.len() implies name[j] != '.' by {
            assert(name[j] == e[j - stem.len() - 1]);
        }
        match last_dot(name) {
            None => {},
            Some(k) => {
                if k < stem.len() {
                    assert(name[stem.len() as int] != '.');
                }
            },
        }
        assert(name != seq!['.', '.']) by {
            assert(name.len() != 2);
        }
        assert(name.skip(stem.len() + 1int) =~= e);
    }
    assert(stem + seq!['.', 'c', 's', 's'] =~= stem + seq!['.'] + exts[0]);
    assert(stem + seq!['.', 'C', 'S', 'S'] =~= stem + seq!['.'] + exts[1]);
    assert(stem + seq!['.', 'h', 't', 'm', 'l'] =~= stem + seq!['.'] + exts[2]);
    assert(stem + seq!['.', 'h', 't', 'm'] =~= stem + seq!['.'] + exts[3]);
    assert(ascii_lower('C') == ascii_lower('c'));
    assert(ascii_lower('S') == ascii_lower('s'));
}

/// A stylesheet's name is a nonempty stem, a `'.'`, and `css` in any case:
/// the name ends in those four characters.
pub proof fn law_css_name_ends_in_css(name: Seq<char>)
    requires
        is_css_name(name),
    ensures
        name.len() >= 5,
        name[name.len() - 4] == '.',
        eq_ignore_ascii_case(name.subrange(name.len() - 3, name.len() as int), seq!['c', 's', 's']),
{
    lemma_last_dot(name);
    let k = last_dot(name)->0;
    assert(name.skip(k + 1) =~= name.subrange(name.len() - 3, name.len() as int));
}

/// An HTML file's name is a nonempty stem, a `'.'`, and `html` or `htm` in
/// any case: the name ends in those characters.
pub proof fn law_html_name_ends_in_html(name: Seq<char>)
    requires
        is_html_name(name),
    ensures
        ({
            let n = name.len() as int;
            ||| n >= 6 && name[n - 5] == '.' && eq_ignore_ascii_case(
                name.subrange(n - 4, n),
                seq!['h', 't', 'm', 'l'],
            )
            ||| n >= 5 && name[n - 4] == '.' && eq_ignore_ascii_case(
                name.subrange(n - 3, n),
                seq!['h', 't', 'm'],
            )
        }),
{
    lemma_last_dot(name);
    let k = last_dot(name)->0;
    let e = name.skip(k + 1);
    if e.len() == 4 {
        assert(e =~= name.subrange(name.len() - 4, name.len() as int));
    } else {
        assert(e =~= name.subrange(name.len() - 3, name.len() as int));
    }
}

} // verus!

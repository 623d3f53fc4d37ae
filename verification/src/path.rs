//! Paths as text.
//!
//! A path is a string of names separated by `/`. Repeated separators and a
//! separator at the end mean nothing, nor does the name `.` anywhere but at
//! the very start of a relative path. What is left are the path's components;
//! every function here is stated over them and hands back a slice of the text
//! it was given, never a rewritten path.

use vstd::prelude::*;

verus! {

/// Whether `path` starts at the root of the file system.
pub open spec fn has_root(path: Seq<char>) -> bool {
    path.len() > 0 && path[0] == '/'
}

/// How many characters other than the separator follow each other from `from` on.
pub open spec fn run(path: Seq<char>, from: int) -> nat
    decreases path.len() - from,
{
    if 0 <= from < path.len() && path[from] != '/' {
        1 + run(path, from + 1)
    } else {
        0
    }
}

/// Whether the name at `start..end` is a component: every name is, but for
/// a `.` that does not open the path.
pub open spec fn is_component(path: Seq<char>, start: int, end: int) -> bool {
    start == 0 || !(end - start == 1 && path[start] == '.')
}

/// The components that begin at or after `from`, each as the pair of its first
/// index and the index behind its last, in the order of the text.
pub open spec fn components_from(path: Seq<char>, from: int) -> Seq<(int, int)>
    decreases path.len() - from,
{
    if from < 0 || from >= path.len() {
        Seq::empty()
    } else if path[from] == '/' {
        components_from(path, from + 1)
    } else {
        let end = from + 1 + run(path, from + 1);
        proof {
            lemma_run(path, from + 1);
        }
        let rest = components_from(path, end);
        if is_component(path, from, end) {
            seq![(from, end)] + rest
        } else {
            rest
        }
    }
}

/// The components of `path`, as index pairs into it.
pub open spec fn components(path: Seq<char>) -> Seq<(int, int)> {
    components_from(path, 0)
}

/// The components of `path`, as text.
pub open spec fn names(path: Seq<char>) -> Seq<Seq<char>> {
    Seq::new(
        components(path).len(),
        |i: int| path.subrange(components(path)[i].0, components(path)[i].1),
    )
}

/// The name `..`, which stands for the directory above.
pub open spec fn dot_dot() -> Seq<char> {
    seq!['.', '.']
}

/// The name `.`, which stands for the directory itself.
pub open spec fn dot() -> Seq<char> {
    seq!['.']
}

/// The base name of `path`: its last component, unless the path has none or
/// ends in `.` or `..`.
pub open spec fn base_name(path: Seq<char>) -> Option<Seq<char>> {
    let all = names(path);
    if all.len() == 0 || all.last() == dot_dot() || all.last() == dot() {
        None
    } else {
        Some(all.last())
    }
}

/// The path without its last component: the text up to the end of the
/// component before the last, or the bare root where there is none. A path
/// without components has no parent.
pub open spec fn parent(path: Seq<char>) -> Option<Seq<char>> {
    let all = components(path);
    if all.len() == 0 {
        None
    } else if all.len() == 1 {
        Some(path.subrange(0, if has_root(path) { 1int } else { 0int }))
    } else {
        Some(path.subrange(0, all[all.len() - 2].1))
    }
}

/// Whether `path` names `dir` or something below it: both start at the root or
/// neither does, and the components of `dir`, of which there is at least one,
/// open those of `path`.
pub open spec fn lies_under(path: Seq<char>, dir: Seq<char>) -> bool {
    &&& has_root(path) == has_root(dir)
    &&& names(dir).len() >= 1
    &&& names(dir).is_prefix_of(names(path))
}

/// For a path under `dir`: the text of `path` from the component that names
/// `dir` itself to the end of its last component. This is `path` relative to
/// the directory that holds `dir`.
pub open spec fn tail_from(path: Seq<char>, dir: Seq<char>) -> Seq<char> {
    let all = components(path);
    path.subrange(all[names(dir).len() - 1].0, all.last().1)
}

/// `rest` appended to `base` as a path: a separator comes between the two
/// unless `base` is empty or ends in one, and a `rest` that starts at the root
/// replaces `base`.
pub open spec fn join(base: Seq<char>, rest: Seq<char>) -> Seq<char> {
    if has_root(rest) {
        rest
    } else if base.len() > 0 && base.last() != '/' {
        base + seq!['/'] + rest
    } else {
        base + rest
    }
}

/// Where the copy of `path`, a path under `dir`, stands in the mirror kept
/// at `backup_dir`: the mirror holds one subtree per directory, under the
/// directory's own name.
pub open spec fn mirror_of(backup_dir: Seq<char>, path: Seq<char>, dir: Seq<char>) -> Seq<char> {
    join(backup_dir, tail_from(path, dir))
}

/// The index pairs of `spans` as mathematical integers.
pub open spec fn spans_view(spans: Seq<(usize, usize)>) -> Seq<(int, int)> {
    spans.map_values(|span: (usize, usize)| (span.0 as int, span.1 as int))
}

/// A run ends at the end of the text or at a separator, and holds none.
pub proof fn lemma_run(path: Seq<char>, from: int)
    requires
        0 <= from <= path.len(),
    ensures
        from + run(path, from) <= path.len(),
        from + run(path, from) < path.len() ==> path[from + run(path, from)] == '/',
        forall|k: int| from <= k < from + run(path, from) ==> path[k] != '/',
    decreases path.len() - from,
{
    if from < path.len() && path[from] != '/' {
        lemma_run(path, from + 1);
    }
}

/// Components lie inside the text behind `from`, one after the other with at
/// least a separator between them; each is a whole name.
pub proof fn lemma_components_from(path: Seq<char>, from: int)
    requires
        0 <= from <= path.len(),
    ensures
        forall|i: int|
            0 <= i < components_from(path, from).len() ==> {
                let span = #[trigger] components_from(path, from)[i];
                &&& from <= span.0 < span.1 <= path.len()
                &&& span.1 == span.0 + run(path, span.0)
                &&& is_component(path, span.0, span.1)
                &&& forall|k: int| span.0 <= k < span.1 ==> path[k] != '/'
            },
        forall|i: int, j: int|
            0 <= i < j < components_from(path, from).len() ==> (#[trigger] components_from(
                path,
                from,
            )[i]).1 < (#[trigger] components_from(path, from)[j]).0,
    decreases path.len() - from,
{
    let all = components_from(path, from);
    if from >= path.len() {
        assert(all.len() == 0);
    } else if path[from] == '/' {
        lemma_components_from(path, from + 1);
        assert(all == components_from(path, from + 1));
    } else {
        let end = from + run(path, from);
        lemma_run(path, from);
        lemma_components_from(path, end);
        let rest = components_from(path, end);
        if is_component(path, from, end) {
            assert(all == seq![(from, end)] + rest);
            assert forall|i: int| 0 <= i < all.len() implies {
                let span = #[trigger] all[i];
                &&& from <= span.0 < span.1 <= path.len()
                &&& span.1 == span.0 + run(path, span.0)
                &&& is_component(path, span.0, span.1)
                &&& forall|k: int| span.0 <= k < span.1 ==> path[k] != '/'
            } by {
                if i > 0 {
                    assert(all[i] == rest[i - 1]);
                }
            }
            assert forall|i: int, j: int| 0 <= i < j < all.len() implies (#[trigger] all[i]).1 < (
            #[trigger] all[j]).0 by {
                assert(all[j] == rest[j - 1]);
                if i > 0 {
                    assert(all[i] == rest[i - 1]);
                } else {
                    // a component behind `end` starts behind the separator at `end`
                    assert(rest[j - 1].0 >= end);
                    assert(path[rest[j - 1].0] != '/');
                }
            }
        } else {
            assert(all == rest);
        }
    }
}

/// The characters of `text`, one by one.
pub fn chars_of(text: &str) -> (chars: Vec<char>)
    ensures
        chars@ == text@,
{
    let mut chars: Vec<char> = Vec::new();
    for c in it: text.chars()
        invariant
            chars@ == it.seq().take(it.index()),
            it.seq() == text@,
    {
        chars.push(c);
    }
    chars
}

/// Finds the components of a path given by its characters.
pub fn scan(chars: &Vec<char>) -> (spans: Vec<(usize, usize)>)
    ensures
        spans_view(spans@) == components(chars@),
{
    let n = chars.len();
    let mut spans: Vec<(usize, usize)> = Vec::new();
    let mut at: usize = 0;
    while at < n
        invariant
            n == chars@.len(),
            at <= n,
            components(chars@) == spans_view(spans@) + components_from(chars@, at as int),
        decreases n - at,
    {
        if chars[at] == '/' {
            at += 1;
        } else {
            let start = at;
            let mut end: usize = at + 1;
            while end < n && chars[end] != '/'
                invariant
                    n == chars@.len(),
                    start < end <= n,
                    run(chars@, start as int) == (end - start) + run(chars@, end as int),
                decreases n - end,
            {
                end += 1;
            }
            let ghost before = spans@;
            let ghost rest = components_from(chars@, end as int);
            if start == 0 || !(end - start == 1 && chars[start] == '.') {
                spans.push((start, end));
                assert(spans_view(spans@) == spans_view(before) + seq![(start as int, end as int)]);
                assert(components_from(chars@, start as int) == seq![(start as int, end as int)]
                    + rest);
                assert(spans_view(before) + (seq![(start as int, end as int)] + rest)
                    == spans_view(spans@) + rest);
            } else {
                assert(components_from(chars@, start as int) == rest);
            }
            at = end;
        }
    }
    assert(components_from(chars@, n as int) == Seq::<(int, int)>::empty());
    assert(spans_view(spans@) + Seq::<(int, int)>::empty() == spans_view(spans@));
    spans
}

/// Whether the characters of `a` at `a_span` are those of `b` at `b_span`.
fn same_text(a: &Vec<char>, a_span: (usize, usize), b: &Vec<char>, b_span: (usize, usize)) -> (same:
    bool)
    requires
        a_span.0 <= a_span.1 <= a@.len(),
        b_span.0 <= b_span.1 <= b@.len(),
    ensures
        same == (a@.subrange(a_span.0 as int, a_span.1 as int) == b@.subrange(
            b_span.0 as int,
            b_span.1 as int,
        )),
{
    let ghost left = a@.subrange(a_span.0 as int, a_span.1 as int);
    let ghost right = b@.subrange(b_span.0 as int, b_span.1 as int);
    let len = a_span.1 - a_span.0;
    if b_span.1 - b_span.0 != len {
        assert(left.len() != right.len());
        return false;
    }
    let mut k: usize = 0;
    while k < len
        invariant
            k <= len,
            len == a_span.1 - a_span.0,
            len == b_span.1 - b_span.0,
            a_span.1 <= a@.len(),
            b_span.1 <= b@.len(),
            left == a@.subrange(a_span.0 as int, a_span.1 as int),
            right == b@.subrange(b_span.0 as int, b_span.1 as int),
            forall|j: int| 0 <= j < k ==> left[j] == right[j],
        decreases len - k,
    {
        if a[a_span.0 + k] != b[b_span.0 + k] {
            assert(left[k as int] != right[k as int]);
            return false;
        }
        k += 1;
    }
    assert(left =~= right);
    true
}

/// The base name of `path`, if it has one.
pub fn file_name(path: &str) -> (name: Option<&str>)
    ensures
        name is Some <==> base_name(path@) is Some,
        name matches Some(text) ==> base_name(path@) == Some(text@),
{
    let chars = chars_of(path);
    let spans = scan(&chars);
    proof {
        lemma_components_from(path@, 0);
    }
    let count = spans.len();
    if count == 0 {
        return None;
    }
    let (start, end) = spans[count - 1];
    assert(spans_view(spans@)[count - 1] == (start as int, end as int));
    let ghost last = path@.subrange(start as int, end as int);
    assert(names(path@).last() == last);
    if end - start == 1 && chars[start] == '.' {
        assert(last =~= dot());
        None
    } else if end - start == 2 && chars[start] == '.' && chars[start + 1] == '.' {
        assert(last =~= dot_dot());
        None
    } else {
        assert(last != dot()) by {
            if last == dot() {
                assert(last.len() == 1 && last[0] == '.');
            }
        }
        assert(last != dot_dot()) by {
            if last == dot_dot() {
                assert(last.len() == 2 && last[0] == '.' && last[1] == '.');
            }
        }
        Some(path.substring_char(start, end))
    }
}

/// The path without its last component, if it has one.
pub fn parent_dir(path: &str) -> (dir: Option<&str>)
    ensures
        dir is Some <==> parent(path@) is Some,
        dir matches Some(text) ==> parent(path@) == Some(text@),
{
    let chars = chars_of(path);
    let spans = scan(&chars);
    proof {
        lemma_components_from(path@, 0);
    }
    let count = spans.len();
    if count == 0 {
        None
    } else if count == 1 {
        assert(spans_view(spans@)[0] == (spans@[0].0 as int, spans@[0].1 as int));
        let end: usize = if chars[0] == '/' {
            1
        } else {
            0
        };
        Some(path.substring_char(0, end))
    } else {
        let end = spans[count - 2].1;
        assert(spans_view(spans@)[count - 2] == (spans@[count - 2].0 as int, end as int));
        Some(path.substring_char(0, end))
    }
}

/// Whether the path with characters `path` lies under the one with
/// characters `dir`, from the components of the two.
fn under_parts(
    path: &Vec<char>,
    path_spans: &Vec<(usize, usize)>,
    dir: &Vec<char>,
    dir_spans: &Vec<(usize, usize)>,
) -> (under: bool)
    requires
        spans_view(path_spans@) == components(path@),
        spans_view(dir_spans@) == components(dir@),
    ensures
        under == lies_under(path@, dir@),
{
    proof {
        lemma_components_from(path@, 0);
        lemma_components_from(dir@, 0);
    }
    let path_rooted = path.len() > 0 && path[0] == '/';
    let dir_rooted = dir.len() > 0 && dir[0] == '/';
    let count = dir_spans.len();
    if path_rooted != dir_rooted || count == 0 || count > path_spans.len() {
        return false;
    }
    let mut i: usize = 0;
    while i < count
        invariant
            i <= count,
            count == dir_spans@.len(),
            count <= path_spans@.len(),
            spans_view(path_spans@) == components(path@),
            spans_view(dir_spans@) == components(dir@),
            forall|k: int|
                0 <= k < components(path@).len() ==> 0 <= (#[trigger] components(path@)[k]).0
                    < components(path@)[k].1 <= path@.len(),
            forall|k: int|
                0 <= k < components(dir@).len() ==> 0 <= (#[trigger] components(dir@)[k]).0
                    < components(dir@)[k].1 <= dir@.len(),
            forall|k: int| 0 <= k < i ==> names(path@)[k] == names(dir@)[k],
        decreases count - i,
    {
        assert(spans_view(path_spans@)[i as int] == (
            path_spans@[i as int].0 as int,
            path_spans@[i as int].1 as int,
        ));
        assert(spans_view(dir_spans@)[i as int] == (
            dir_spans@[i as int].0 as int,
            dir_spans@[i as int].1 as int,
        ));
        if !same_text(path, path_spans[i], dir, dir_spans[i]) {
            assert(names(path@)[i as int] != names(dir@)[i as int]);
            assert(names(path@).subrange(0, count as int)[i as int] == names(path@)[i as int]);
            return false;
        }
        i += 1;
    }
    assert(names(dir@) =~= names(path@).subrange(0, count as int));
    true
}

/// Whether `path` names `dir` or something below it.
pub fn is_under(path: &str, dir: &str) -> (under: bool)
    ensures
        under == lies_under(path@, dir@),
{
    let path_chars = chars_of(path);
    let path_spans = scan(&path_chars);
    let dir_chars = chars_of(dir);
    let dir_spans = scan(&dir_chars);
    under_parts(&path_chars, &path_spans, &dir_chars, &dir_spans)
}

/// `rest` appended to `base` as a path.
pub fn join_paths(base: &str, rest: &str) -> (joined: String)
    ensures
        joined@ == join(base@, rest@),
{
    let base_chars = chars_of(base);
    let rest_chars = chars_of(rest);
    if rest_chars.len() > 0 && rest_chars[0] == '/' {
        String::from_str(rest)
    } else if base_chars.len() > 0 && base_chars[base_chars.len() - 1] != '/' {
        let mut joined = String::from_str(base);
        proof {
            reveal_strlit("/");
        }
        joined.append("/");
        joined.append(rest);
        assert("/"@ =~= seq!['/']);
        joined
    } else {
        let mut joined = String::from_str(base);
        joined.append(rest);
        joined
    }
}

/// Where the copy of `path` stands in the mirror kept at `backup_dir`, if
/// `path` lies under `dir`.
pub fn mirror_path(backup_dir: &str, path: &str, dir: &str) -> (mirror: Option<String>)
    ensures
        mirror is Some <==> lies_under(path@, dir@),
        mirror matches Some(text) ==> text@ == mirror_of(backup_dir@, path@, dir@),
{
    let path_chars = chars_of(path);
    let path_spans = scan(&path_chars);
    let dir_chars = chars_of(dir);
    let dir_spans = scan(&dir_chars);
    if !under_parts(&path_chars, &path_spans, &dir_chars, &dir_spans) {
        return None;
    }
    proof {
        lemma_components_from(path@, 0);
    }
    let first = dir_spans.len() - 1;
    let last = path_spans.len() - 1;
    assert(spans_view(path_spans@)[first as int] == (
        path_spans@[first as int].0 as int,
        path_spans@[first as int].1 as int,
    ));
    assert(spans_view(path_spans@)[last as int] == (
        path_spans@[last as int].0 as int,
        path_spans@[last as int].1 as int,
    ));
    let tail = path.substring_char(path_spans[first].0, path_spans[last].1);
    Some(join_paths(backup_dir, tail))
}

} // verus!

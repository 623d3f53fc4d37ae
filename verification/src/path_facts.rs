//! Facts about the components of paths: what cutting, shifting and joining
//! does to them.

use crate::path::{
    components, components_from, has_root, is_component, join, lemma_components_from, lemma_run,
    names, parent, run,
};
use vstd::prelude::*;

verus! {

/// `spans` moved `by` places to the right.
pub open spec fn shifted(spans: Seq<(int, int)>, by: int) -> Seq<(int, int)> {
    spans.map_values(|span: (int, int)| (span.0 + by, span.1 + by))
}

/// Whether `path` opens with the name `.`.
pub open spec fn opens_with_dot(path: Seq<char>) -> bool {
    run(path, 0) == 1 && path[0] == '.'
}

/// A stretch without separator that ends at a separator or at the end of the
/// text is a run.
pub proof fn lemma_run_is(path: Seq<char>, from: int, len: nat)
    requires
        0 <= from,
        from + len <= path.len(),
        forall|k: int| from <= k < from + len ==> path[k] != '/',
        from + len == path.len() || path[from + len] == '/',
    ensures
        run(path, from) == len,
    decreases len,
{
    if len > 0 {
        lemma_run_is(path, from + 1, (len - 1) as nat);
    }
}

/// The components behind `from` are those that end before `cut` and those
/// that start behind it, where `cut` is the end of the text or a separator. The
/// first are the components of the text before `cut`.
pub proof fn lemma_split_at(path: Seq<char>, cut: int, from: int)
    requires
        0 <= from <= cut <= path.len(),
        cut == path.len() || path[cut] == '/',
    ensures
        components_from(path, from) == components_from(path.subrange(0, cut), from)
            + components_from(path, cut),
    decreases cut - from,
{
    let head = path.subrange(0, cut);
    if from == cut {
        assert(components_from(head, from) =~= Seq::<(int, int)>::empty());
        assert(components_from(head, from) + components_from(path, cut) =~= components_from(
            path,
            cut,
        ));
    } else if path[from] == '/' {
        assert(head[from] == '/');
        lemma_split_at(path, cut, from + 1);
    } else {
        lemma_run(path, from);
        let len = run(path, from);
        let end = from + len;
        assert(end <= cut) by {
            if end > cut {
                assert(path[cut] != '/');
            }
        }
        assert(head[from] == path[from]);
        lemma_run_is(head, from, len);
        lemma_split_at(path, cut, end);
        assert(is_component(head, from, end) == is_component(path, from, end));
        let rest = components_from(path, end);
        let head_rest = components_from(head, end);
        let behind = components_from(path, cut);
        assert(rest == head_rest + behind);
        if is_component(path, from, end) {
            assert(seq![(from, end)] + (head_rest + behind) =~= (seq![(from, end)] + head_rest)
                + behind);
        }
    }
}

/// The components of a text without its first `skip` characters are those of
/// the whole text from `skip` on, but for a `.` right at the cut, which is a
/// component only where it opens the text.
pub proof fn lemma_shift(path: Seq<char>, skip: int, from: int)
    requires
        0 <= skip <= path.len(),
        0 <= from <= path.len() - skip,
        from > 0 || skip == 0 || !opens_with_dot(path.skip(skip)),
    ensures
        shifted(components_from(path.skip(skip), from), skip) == components_from(
            path,
            skip + from,
        ),
    decreases path.len() - skip - from,
{
    let tail = path.skip(skip);
    if from == tail.len() {
        assert(shifted(components_from(tail, from), skip) =~= Seq::<(int, int)>::empty());
    } else if tail[from] == '/' {
        lemma_shift(path, skip, from + 1);
    } else {
        lemma_run(path, skip + from);
        let len = run(path, skip + from);
        assert forall|k: int| from <= k < from + len implies tail[k] != '/' by {
            assert(tail[k] == path[skip + k]);
        }
        lemma_run_is(tail, from, len);
        let end = from + len;
        lemma_shift(path, skip, end);
        assert(is_component(tail, from, end) == is_component(path, skip + from, skip + end));
        if is_component(tail, from, end) {
            assert(shifted(seq![(from, end)] + components_from(tail, end), skip) =~= seq![
                (skip + from, skip + end),
            ] + shifted(components_from(tail, end), skip));
        }
    }
}

/// From the start of one of its components on, a text holds that component
/// and those behind it; from its end on, those behind it.
pub proof fn lemma_components_behind(path: Seq<char>, from: int, k: int)
    requires
        0 <= from <= path.len(),
        0 <= k < components_from(path, from).len(),
    ensures
        components_from(path, components_from(path, from)[k].0) == components_from(
            path,
            from,
        ).skip(k),
        components_from(path, components_from(path, from)[k].1) == components_from(
            path,
            from,
        ).skip(k + 1),
    decreases path.len() - from,
{
    let all = components_from(path, from);
    if path[from] == '/' {
        lemma_components_behind(path, from + 1, k);
    } else {
        lemma_run(path, from);
        let end = from + run(path, from);
        let rest = components_from(path, end);
        if is_component(path, from, end) {
            assert(all == seq![(from, end)] + rest);
            if k == 0 {
                assert(all.skip(0) =~= all);
                assert(all.skip(1) =~= rest);
            } else {
                lemma_components_behind(path, end, k - 1);
                assert(all[k] == rest[k - 1]);
                assert(all.skip(k) =~= rest.skip(k - 1));
                assert(all.skip(k + 1) =~= rest.skip(k));
            }
        } else {
            lemma_components_behind(path, end, k);
        }
    }
}

/// Cutting a text at the end of one of its components leaves the components up
/// to that one.
pub proof fn lemma_components_of_head(path: Seq<char>, k: int)
    requires
        0 <= k < components(path).len(),
    ensures
        components(path.subrange(0, components(path)[k].1)) == components(path).take(k + 1),
{
    let all = components(path);
    let cut = all[k].1;
    lemma_components_from(path, 0);
    lemma_run(path, all[k].0);
    lemma_split_at(path, cut, 0);
    lemma_components_behind(path, 0, k);
    let head = components(path.subrange(0, cut));
    assert(all == head + all.skip(k + 1));
    assert(head.len() == k + 1);
    assert forall|i: int| 0 <= i < head.len() implies head[i] == all.take(k + 1)[i] by {
        assert((head + all.skip(k + 1))[i] == head[i]);
    }
    assert(head =~= all.take(k + 1));
}

/// A component spans at least one character inside the text.
pub proof fn lemma_component_bounds(path: Seq<char>, k: int)
    requires
        0 <= k < components(path).len(),
    ensures
        0 <= components(path)[k].0 < components(path)[k].1 <= path.len(),
        components(path)[k].1 == components(path)[k].0 + run(path, components(path)[k].0),
        is_component(path, components(path)[k].0, components(path)[k].1),
        path[components(path)[k].0] != '/',
{
    lemma_components_from(path, 0);
}

/// Components stand in the order of the text, apart from each other.
pub proof fn lemma_component_order(path: Seq<char>, i: int, j: int)
    requires
        0 <= i < j < components(path).len(),
    ensures
        components(path)[i].1 < components(path)[j].0,
{
    lemma_components_from(path, 0);
}

/// The components of a text that was cut at the end of one of its components
/// and opens at the start of another are those from the one to the other.
pub proof fn lemma_components_of_slice(path: Seq<char>, first: int, last: int)
    requires
        0 <= first <= last < components(path).len(),
    ensures
        0 <= components(path)[first].0 < components(path)[last].1 <= path.len(),
        shifted(
            components(path.subrange(components(path)[first].0, components(path)[last].1)),
            components(path)[first].0,
        ) == components(path).subrange(first, last + 1),
{
    let all = components(path);
    let start = all[first].0;
    let cut = all[last].1;
    lemma_component_bounds(path, first);
    lemma_component_bounds(path, last);
    if first < last {
        lemma_component_order(path, first, last);
    }
    let head = path.subrange(0, cut);
    let slice = path.subrange(start, cut);
    assert(slice =~= head.skip(start));
    lemma_components_of_head(path, last);
    assert(components(head)[first] == all[first]);
    // a `.` is a component only at the start of the text
    if start > 0 {
        let len = (all[first].1 - start) as nat;
        assert(run(slice, 0) == len) by {
            lemma_run(path, start);
            assert forall|k: int| 0 <= k < len implies slice[k] != '/' by {
                assert(slice[k] == path[start + k]);
            }
            if first < last {
                assert(slice[len as int] == path[start + len]);
            }
            lemma_run_is(slice, 0, len);
        }
        assert(slice[0] == path[start]);
    }
    lemma_shift(head, start, 0);
    lemma_components_behind(head, 0, first);
    assert(components(head).skip(first) =~= all.subrange(first, last + 1));
}

/// The names of a text that was cut at the end of one of its components and
/// opens at the start of another are the names from the one to the other.
pub proof fn lemma_names_of_slice(path: Seq<char>, first: int, last: int)
    requires
        0 <= first <= last < components(path).len(),
    ensures
        0 <= components(path)[first].0 < components(path)[last].1 <= path.len(),
        names(path.subrange(components(path)[first].0, components(path)[last].1)) == names(
            path,
        ).subrange(first, last + 1),
        !has_root(path.subrange(components(path)[first].0, components(path)[last].1)),
{
    let all = components(path);
    let start = all[first].0;
    let cut = all[last].1;
    let slice = path.subrange(start, cut);
    let inner = components(slice);
    lemma_components_of_slice(path, first, last);
    lemma_component_bounds(path, first);
    assert(slice[0] == path[start]);
    assert(shifted(inner, start).len() == inner.len());
    assert(all.subrange(first, last + 1).len() == last + 1 - first);
    assert forall|i: int| 0 <= i < inner.len() implies #[trigger] names(slice)[i] == names(
        path,
    ).subrange(first, last + 1)[i] by {
        assert(shifted(inner, start)[i] == (inner[i].0 + start, inner[i].1 + start));
        assert(all.subrange(first, last + 1)[i] == all[first + i]);
        lemma_component_bounds(slice, i);
        assert(slice.subrange(inner[i].0, inner[i].1) =~= path.subrange(
            all[first + i].0,
            all[first + i].1,
        ));
    }
    assert(names(slice) =~= names(path).subrange(first, last + 1));
}

/// A separator at the end of a text adds no component.
pub proof fn lemma_trailing_separator(path: Seq<char>)
    ensures
        components(path + seq!['/']) == components(path),
{
    let longer = path + seq!['/'];
    let cut = path.len() as int;
    lemma_split_at(longer, cut, 0);
    assert(longer.subrange(0, cut) =~= path);
    assert(components_from(longer, cut + 1) =~= Seq::<(int, int)>::empty());
    assert(components_from(longer, cut) =~= Seq::<(int, int)>::empty());
    assert(components(path) + Seq::<(int, int)>::empty() =~= components(path));
}

/// Behind a text that ends in a separator, another text keeps its components.
pub proof fn lemma_components_of_concat(head: Seq<char>, tail: Seq<char>)
    requires
        head.len() > 0,
        head.last() == '/',
        !opens_with_dot(tail),
    ensures
        components(head + tail) == components(head) + shifted(components(tail), head.len() as int),
{
    let whole = head + tail;
    let cut = head.len() - 1;
    lemma_split_at(whole, cut, 0);
    lemma_split_at(head, cut, 0);
    assert(whole.subrange(0, cut) =~= head.subrange(0, cut));
    assert(components_from(head, cut + 1) =~= Seq::<(int, int)>::empty());
    assert(components_from(head, cut) =~= Seq::<(int, int)>::empty());
    assert(components(head) =~= components(head.subrange(0, cut)));
    assert(whole.skip(cut + 1) =~= tail);
    lemma_shift(whole, cut + 1, 0);
    assert(components_from(whole, cut) == components_from(whole, cut + 1));
}

/// Joining keeps the names of both paths, in order, where the second path
/// neither starts at the root nor opens with `.`.
pub proof fn lemma_names_of_join(base: Seq<char>, rest: Seq<char>)
    requires
        !has_root(rest),
        base.len() == 0 || !opens_with_dot(rest),
    ensures
        names(join(base, rest)) == names(base) + names(rest),
        base.len() > 0 ==> has_root(join(base, rest)) == has_root(base),
        base.len() == 0 ==> join(base, rest) == rest,
{
    if base.len() == 0 {
        assert(join(base, rest) =~= rest);
        assert(components_from(base, 0) =~= Seq::<(int, int)>::empty());
        assert(names(base) + names(rest) =~= names(rest));
    } else {
        let head = if base.last() == '/' {
            base
        } else {
            base + seq!['/']
        };
        let whole = head + rest;
        assert(join(base, rest) =~= whole);
        assert(whole[0] == base[0]);
        if base.last() != '/' {
            lemma_trailing_separator(base);
        }
        lemma_components_of_concat(head, rest);
        let offset = head.len() as int;
        let front = components(base);
        let back = components(rest);
        assert(components(whole) == front + shifted(back, offset));
        assert(shifted(back, offset).len() == back.len());
        assert forall|i: int| 0 <= i < components(whole).len() implies #[trigger] names(whole)[i]
            == (names(base) + names(rest))[i] by {
            if i < front.len() {
                lemma_component_bounds(base, i);
                assert(components(whole)[i] == front[i]);
                assert(whole.subrange(front[i].0, front[i].1) =~= base.subrange(
                    front[i].0,
                    front[i].1,
                ));
            } else {
                let j = i - front.len();
                lemma_component_bounds(rest, j);
                assert(components(whole)[i] == shifted(back, offset)[j]);
                assert(whole.subrange(back[j].0 + offset, back[j].1 + offset) =~= rest.subrange(
                    back[j].0,
                    back[j].1,
                ));
            }
        }
        assert(names(whole) =~= names(base) + names(rest));
    }
}

/// A text without separator is one name.
pub proof fn lemma_single_name(name: Seq<char>)
    requires
        name.len() > 0,
        forall|k: int| 0 <= k < name.len() ==> name[k] != '/',
    ensures
        names(name) == seq![name],
        !has_root(name),
        opens_with_dot(name) <==> name == seq!['.'],
{
    lemma_run_is(name, 0, name.len());
    assert(components_from(name, name.len() as int) =~= Seq::<(int, int)>::empty());
    assert(components(name) =~= seq![(0int, name.len() as int)]);
    assert(name.subrange(0, name.len() as int) =~= name);
    assert(names(name) =~= seq![name]);
    if opens_with_dot(name) {
        assert(name =~= seq!['.']);
    }
}

/// A name of a path is not empty and holds no separator; only the first name
/// of a path can be `.`.
pub proof fn lemma_name_is_plain(path: Seq<char>, k: int)
    requires
        0 <= k < names(path).len(),
    ensures
        names(path)[k].len() > 0,
        forall|i: int| 0 <= i < names(path)[k].len() ==> names(path)[k][i] != '/',
        names(path)[k] == seq!['.'] ==> k == 0 && !has_root(path),
{
    lemma_components_from(path, 0);
    let span = components(path)[k];
    if names(path)[k] == seq!['.'] {
        assert(names(path)[k].len() == 1);
        assert(names(path)[k][0] == '.');
        assert(span.0 == 0);
        if k > 0 {
            lemma_component_order(path, 0, k);
        }
    }
}

/// The parent of a path has all its names but the last, and starts at the
/// root if the path does.
pub proof fn lemma_names_of_parent(path: Seq<char>)
    requires
        names(path).len() >= 1,
    ensures
        parent(path) is Some,
        names(parent(path)->0) == names(path).drop_last(),
        has_root(parent(path)->0) == has_root(path),
{
    let all = components(path);
    let above = parent(path)->0;
    if all.len() == 1 {
        if has_root(path) {
            assert(above.len() == 1 && above[0] == '/');
            assert(components_from(above, 1) =~= Seq::<(int, int)>::empty());
        }
        assert(components(above) =~= Seq::<(int, int)>::empty());
        assert(names(above) =~= names(path).drop_last());
    } else {
        let k = all.len() - 2;
        lemma_components_of_head(path, k);
        lemma_component_bounds(path, k);
        assert(above[0] == path[0]);
        assert forall|i: int| 0 <= i < components(above).len() implies #[trigger] names(above)[i]
            == names(path).drop_last()[i] by {
            lemma_component_bounds(path, i);
            lemma_component_bounds(above, i);
            assert(components(above)[i] == all[i]);
            assert(above.subrange(all[i].0, all[i].1) =~= path.subrange(all[i].0, all[i].1));
        }
        assert(names(above) =~= names(path).drop_last());
    }
}

} // verus!

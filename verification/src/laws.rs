//! What holds of the guard's answers whatever the event, the baseline and the
//! configuration.

use crate::action::ActionView;
use crate::allowlist::{
    lemma_match_exempts, pattern_compiles, pattern_matches, screen_from, PatternError,
};
use crate::guard::{baseline_for, fingerprint_matters, in_scope, outcome_of, Baselines, ConfigView};
use crate::path::{
    base_name, components, dot, has_root, join, lies_under, mirror_of, names, parent, tail_from,
};
use crate::path_facts::{
    lemma_name_is_plain, lemma_names_of_join, lemma_names_of_parent, lemma_names_of_slice,
    lemma_single_name, opens_with_dot,
};
use crate::reactor::{ChangeEventView, HandleError};
use vstd::prelude::*;

verus! {

/// The root of the mirror of `dir`: the directory under `backup_dir` that
/// carries the name of `dir`.
pub open spec fn subtree_of(backup_dir: Seq<char>, dir: Seq<char>) -> Seq<char> {
    join(backup_dir, names(dir).last())
}

/// Where a copy of `item` into the directory `into` lands: under the name of
/// `item`.
pub open spec fn landing(item: Seq<char>, into: Seq<char>) -> Seq<char> {
    join(into, names(item).last())
}

/// Whether `action` keeps to the path of an event in the watch of `dir`: it
/// deletes that path and no other, keeps it aside in the backup directory, or
/// restores from the mirror of `dir` a copy that lands on that very path.
pub open spec fn keeps_to(
    action: ActionView,
    backup_dir: Seq<char>,
    path: Seq<char>,
    dir: Seq<char>,
) -> bool {
    match action {
        ActionView::Delete { paths } => paths == seq![path],
        ActionView::Quarantine { path: kept, into } => kept == path && into == backup_dir,
        ActionView::Restore { backup, into } => {
            &&& lies_under(backup, subtree_of(backup_dir, dir))
            &&& names(landing(backup, into)) == names(path)
            &&& has_root(landing(backup, into)) == has_root(path)
        },
        ActionView::CreateDir { .. } => false,
        ActionView::Mirror { .. } => false,
    }
}

/// A path that opens with `.` has `.` as its first name.
proof fn lemma_opening_dot_is_a_name(path: Seq<char>)
    requires
        opens_with_dot(path),
    ensures
        names(path).len() >= 1,
        names(path)[0] == dot(),
{
    assert(components(path)[0] == (0int, 1int));
    assert(path.subrange(0, 1) =~= dot());
}

/// The mirror of a path has the names of the backup directory, then the
/// name of the protected directory, then the names of the path below it.
pub proof fn lemma_mirror_names(backup_dir: Seq<char>, path: Seq<char>, dir: Seq<char>)
    requires
        lies_under(path, dir),
        has_root(path),
    ensures
        names(mirror_of(backup_dir, path, dir)) == names(backup_dir) + names(path).skip(
            names(dir).len() - 1,
        ),
        has_root(mirror_of(backup_dir, path, dir)) == has_root(backup_dir),
{
    let first = names(dir).len() - 1;
    let last = names(path).len() - 1;
    let tail = tail_from(path, dir);
    lemma_names_of_slice(path, first, last);
    assert(names(path).subrange(first, last + 1) =~= names(path).skip(first));
    if opens_with_dot(tail) {
        lemma_opening_dot_is_a_name(tail);
        assert(names(path).skip(first)[0] == names(path)[first]);
        lemma_name_is_plain(path, first);
    }
    lemma_names_of_join(backup_dir, tail);
}

/// The root of a directory's mirror has the names of the backup directory,
/// then the name of the directory.
pub proof fn lemma_subtree_names(backup_dir: Seq<char>, dir: Seq<char>)
    requires
        has_root(dir),
        names(dir).len() >= 1,
    ensures
        names(subtree_of(backup_dir, dir)) == names(backup_dir).push(names(dir).last()),
        has_root(subtree_of(backup_dir, dir)) == has_root(backup_dir),
{
    let name = names(dir).last();
    lemma_name_is_plain(dir, names(dir).len() - 1);
    lemma_single_name(name);
    lemma_names_of_join(backup_dir, name);
    assert(names(backup_dir) + seq![name] =~= names(backup_dir).push(name));
}

/// The mirror of a path under a protected directory lies in that directory's
/// own subtree of the backup directory.
pub proof fn lemma_mirror_in_own_subtree(backup_dir: Seq<char>, path: Seq<char>, dir: Seq<char>)
    requires
        lies_under(path, dir),
        has_root(path),
    ensures
        lies_under(mirror_of(backup_dir, path, dir), subtree_of(backup_dir, dir)),
{
    let first = names(dir).len() - 1;
    lemma_mirror_names(backup_dir, path, dir);
    lemma_subtree_names(backup_dir, dir);
    let mirror = names(mirror_of(backup_dir, path, dir));
    let root = names(subtree_of(backup_dir, dir));
    assert(names(dir).subrange(0, names(dir).len() as int)[first] == names(path)[first]);
    assert(names(path).skip(first)[0] == names(path)[first]);
    assert(root =~= mirror.subrange(0, root.len() as int));
}

/// The mirror of a path under one protected directory lies in no other
/// directory's subtree of the backup directory, where the two directories
/// differ in their names.
pub proof fn lemma_mirror_outside_other_subtree(
    backup_dir: Seq<char>,
    path: Seq<char>,
    dir: Seq<char>,
    other: Seq<char>,
)
    requires
        lies_under(path, dir),
        has_root(path),
        has_root(other),
        names(other).len() >= 1,
        names(other).last() != names(dir).last(),
    ensures
        !lies_under(mirror_of(backup_dir, path, dir), subtree_of(backup_dir, other)),
{
    let first = names(dir).len() - 1;
    lemma_mirror_names(backup_dir, path, dir);
    lemma_subtree_names(backup_dir, other);
    let mirror = names(mirror_of(backup_dir, path, dir));
    let root = names(subtree_of(backup_dir, other));
    let at = names(backup_dir).len() as int;
    assert(names(dir).subrange(0, names(dir).len() as int)[first] == names(path)[first]);
    assert(mirror[at] == names(path).skip(first)[0]);
    assert(root[at] == names(other).last());
    if root.is_prefix_of(mirror) {
        assert(mirror.subrange(0, root.len() as int)[at] == mirror[at]);
    }
}

/// What is kept aside of one protected directory lands in no other
/// directory's subtree of the backup directory, unless it carries that
/// directory's name.
pub proof fn lemma_quarantine_outside_other_subtree(
    backup_dir: Seq<char>,
    path: Seq<char>,
    other: Seq<char>,
)
    requires
        base_name(path) is Some,
        has_root(other),
        names(other).len() >= 1,
        base_name(path) != Some(names(other).last()),
    ensures
        !lies_under(landing(path, backup_dir), subtree_of(backup_dir, other)),
{
    let name = names(path).last();
    lemma_name_is_plain(path, names(path).len() - 1);
    lemma_single_name(name);
    lemma_names_of_join(backup_dir, name);
    lemma_subtree_names(backup_dir, other);
    let kept = names(landing(path, backup_dir));
    let root = names(subtree_of(backup_dir, other));
    let at = names(backup_dir).len() as int;
    assert(kept[at] == name);
    assert(root[at] == names(other).last());
    if root.is_prefix_of(kept) {
        assert(kept.subrange(0, root.len() as int)[at] == kept[at]);
    }
}

/// A copy of a path's mirror into the path's parent lands on the path.
pub proof fn lemma_restore_lands_on_path(backup_dir: Seq<char>, path: Seq<char>, dir: Seq<char>)
    requires
        lies_under(path, dir),
        has_root(path),
    ensures
        parent(path) is Some,
        names(landing(mirror_of(backup_dir, path, dir), parent(path)->0)) == names(path),
        has_root(landing(mirror_of(backup_dir, path, dir), parent(path)->0)),
{
    let first = names(dir).len() - 1;
    let mirror = mirror_of(backup_dir, path, dir);
    lemma_mirror_names(backup_dir, path, dir);
    let name = names(mirror).last();
    assert(name == names(path).last()) by {
        assert(names(path).skip(first).last() == names(path).last());
    }
    lemma_names_of_parent(path);
    let home = parent(path)->0;
    lemma_name_is_plain(path, names(path).len() - 1);
    lemma_single_name(name);
    lemma_names_of_join(home, name);
    assert(names(path).drop_last() + seq![name] =~= names(path));
    assert(home.len() > 0);
}

/// Allowlist precedence: an event whose base name matches a pattern of the
/// allowlist leads to no action, whatever happened and whatever the
/// baselines hold. Where the patterns up to the match are regular
/// expressions and the event is in scope, the answer is the empty plan.
pub proof fn lemma_allowlist_precedence(
    config: ConfigView,
    baselines: Baselines,
    event: ChangeEventView,
    dir: Seq<char>,
    current: Option<Seq<char>>,
    i: int,
)
    requires
        base_name(event.path) is Some,
        0 <= i < config.white_names.len(),
        pattern_matches(config.white_names[i], base_name(event.path)->0),
    ensures
        outcome_of(config, baselines, event, dir, current) matches Ok(plan) ==> plan.len() == 0,
        in_scope(event.path, dir) && (forall|j: int|
            0 <= j <= i ==> pattern_compiles(#[trigger] config.white_names[j])) ==> outcome_of(
            config,
            baselines,
            event,
            dir,
            current,
        ) == Ok::<Seq<ActionView>, HandleError>(seq![]),
{
    let name = base_name(event.path)->0;
    lemma_match_exempts(config.white_names, name, i, 0);
    if forall|j: int| 0 <= j <= i ==> pattern_compiles(#[trigger] config.white_names[j]) {
        lemma_first_match_exempts(config.white_names, name, i, 0);
    }
}

/// Where the patterns up to one that matches are all regular expressions,
/// the name is exempt.
proof fn lemma_first_match_exempts(patterns: Seq<Seq<char>>, name: Seq<char>, i: int, from: int)
    requires
        0 <= from <= i < patterns.len(),
        pattern_matches(patterns[i], name),
        forall|j: int| 0 <= j <= i ==> pattern_compiles(#[trigger] patterns[j]),
    ensures
        screen_from(patterns, name, from) == Ok::<bool, PatternError>(true),
    decreases i - from,
{
    if from < i {
        lemma_first_match_exempts(patterns, name, i, from + 1);
    }
}

/// An event whose path lies under none of the protected directories is
/// refused in the watch of every one of them, before the allowlist or a
/// baseline is looked at.
pub proof fn lemma_out_of_scope_is_refused(
    config: ConfigView,
    baselines: Baselines,
    event: ChangeEventView,
    current: Option<Seq<char>>,
)
    requires
        forall|k: int|
            0 <= k < config.protected_dirs.len() ==> !lies_under(
                event.path,
                #[trigger] config.protected_dirs[k],
            ),
    ensures
        forall|k: int|
            0 <= k < config.protected_dirs.len() ==> outcome_of(
                config,
                baselines,
                event,
                #[trigger] config.protected_dirs[k],
                current,
            ) == Err::<Seq<ActionView>, HandleError>(HandleError::OutOfScope),
{
}

/// The answer to an event in the watch of a directory depends on the
/// baseline of that directory alone.
pub proof fn lemma_other_baselines_do_not_matter(
    config: ConfigView,
    first: Baselines,
    second: Baselines,
    event: ChangeEventView,
    dir: Seq<char>,
    current: Option<Seq<char>>,
)
    requires
        baseline_for(first, dir) == baseline_for(second, dir),
    ensures
        outcome_of(config, first, event, dir, current) == outcome_of(
            config,
            second,
            event,
            dir,
            current,
        ),
{
}

/// The current fingerprint of a path counts only for a modification of a
/// path that the baseline knows.
pub proof fn lemma_fingerprint_counts_when_needed(
    config: ConfigView,
    baselines: Baselines,
    event: ChangeEventView,
    dir: Seq<char>,
    first: Option<Seq<char>>,
    second: Option<Seq<char>>,
)
    requires
        !fingerprint_matters(baselines, event, dir),
    ensures
        outcome_of(config, baselines, event, dir, first) == outcome_of(
            config,
            baselines,
            event,
            dir,
            second,
        ),
{
}

/// Every action that answers an event keeps to the event's path: the
/// answer touches the protected tree at that path alone, and reads the
/// backup directory in the subtree of the event's own directory alone.
pub proof fn lemma_answer_keeps_to_its_directory(
    config: ConfigView,
    baselines: Baselines,
    event: ChangeEventView,
    dir: Seq<char>,
    current: Option<Seq<char>>,
)
    requires
        has_root(event.path),
    ensures
        outcome_of(config, baselines, event, dir, current) matches Ok(plan) ==> forall|k: int|
            0 <= k < plan.len() ==> keeps_to(
                #[trigger] plan[k],
                config.backup_dir,
                event.path,
                dir,
            ),
{
    if in_scope(event.path, dir) {
        lemma_mirror_in_own_subtree(config.backup_dir, event.path, dir);
        lemma_restore_lands_on_path(config.backup_dir, event.path, dir);
    }
}

} // verus!

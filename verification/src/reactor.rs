//! The reaction to one change event: what to do about a path that was
//! created, modified or removed, given the baseline of its directory.

use crate::action::{plan_view, texts, Action, ActionView};
use crate::allowlist::PatternError;
use crate::snapshot::{text_of, Snapshot};
use vstd::prelude::*;

verus! {

/// What happened to a path.
#[derive(Debug, Clone, Copy, PartialEq, Eq)]
pub enum EventKind {
    Create,
    Modify,
    Remove,
    /// Anything else: an access, a change of metadata, a rename.
    Other,
}

/// A notification from the file system.
#[derive(Debug, PartialEq, Eq)]
pub struct ChangeEvent {
    pub kind: EventKind,
    pub path: String,
}

/// A [`ChangeEvent`] as plain values.
pub ghost struct ChangeEventView {
    pub kind: EventKind,
    pub path: Seq<char>,
}

impl View for ChangeEvent {
    type V = ChangeEventView;

    open spec fn view(&self) -> ChangeEventView {
        ChangeEventView { kind: self.kind, path: self.path@ }
    }
}

/// Why an event was not answered.
#[derive(Debug, Clone, Copy, PartialEq, Eq)]
pub enum HandleError {
    /// The event's path does not lie under the protected directory, or has no
    /// base name.
    OutOfScope,
    /// An allowlist pattern is no regular expression.
    Pattern(PatternError),
    /// No baseline is on record for the protected directory.
    Unwatched,
}

/// The outcome of handling an event, with the actions as plain values.
pub open spec fn outcome_view(outcome: Result<Vec<Action>, HandleError>) -> Result<
    Seq<ActionView>,
    HandleError,
> {
    match outcome {
        Ok(plan) => Ok(plan_view(plan@)),
        Err(error) => Err(error),
    }
}

/// The baseline behind an optional snapshot.
pub open spec fn known_view(known: Option<&Snapshot>) -> Option<Map<Seq<char>, Option<Seq<char>>>> {
    match known {
        Some(snapshot) => Some(snapshot@),
        None => None,
    }
}

/// The answer to a change that the allowlist does not exempt.
///
/// `known` is the baseline, `current` the fingerprint of the path as it is
/// now, `home` the directory that holds the path and `mirror` the path's copy
/// under `backup_dir`.
///
/// - A created path that the baseline does not know is deleted.
/// - A modified path that the baseline knows with another fingerprint than
///   the current one is first kept aside in `backup_dir`, then restored from
///   its mirror.
/// - A removed path that the baseline knows is restored from its mirror.
/// - Nothing else calls for action.
pub open spec fn response(
    event: ChangeEventView,
    known: Map<Seq<char>, Option<Seq<char>>>,
    current: Option<Seq<char>>,
    home: Seq<char>,
    mirror: Seq<char>,
    backup_dir: Seq<char>,
) -> Seq<ActionView> {
    let on_file = known.contains_key(event.path);
    match event.kind {
        EventKind::Create => if on_file {
            seq![]
        } else {
            seq![ActionView::Delete { paths: seq![event.path] }]
        },
        EventKind::Modify => if on_file && known[event.path] != current {
            seq![
                ActionView::Quarantine { path: event.path, into: backup_dir },
                ActionView::Restore { backup: mirror, into: home },
            ]
        } else {
            seq![]
        },
        EventKind::Remove => if on_file {
            seq![ActionView::Restore { backup: mirror, into: home }]
        } else {
            seq![]
        },
        EventKind::Other => seq![],
    }
}

/// The outcome for an event once the allowlist has given its `verdict` on the
/// path's base name: an invalid pattern fails the event, an exempt name is
/// left alone whatever happened to it, and any other event is answered from
/// the baseline of its directory, which must be on record.
pub open spec fn reaction(
    verdict: Result<bool, PatternError>,
    known: Option<Map<Seq<char>, Option<Seq<char>>>>,
    event: ChangeEventView,
    current: Option<Seq<char>>,
    home: Seq<char>,
    mirror: Seq<char>,
    backup_dir: Seq<char>,
) -> Result<Seq<ActionView>, HandleError> {
    match verdict {
        Err(error) => Err(HandleError::Pattern(error)),
        Ok(true) => Ok(seq![]),
        Ok(false) => match known {
            None => Err(HandleError::Unwatched),
            Some(baseline) => Ok(response(event, baseline, current, home, mirror, backup_dir)),
        },
    }
}

/// Whether two optional fingerprints are the same.
pub fn same_fingerprint(first: &Option<String>, second: &Option<String>) -> (same: bool)
    ensures
        same == (text_of(*first) == text_of(*second)),
{
    match (first, second) {
        (Some(a), Some(b)) => *a == *b,
        (None, None) => true,
        _ => false,
    }
}

/// A copy of `backup` into `into`.
fn restore(backup: &str, into: &str) -> (action: Action)
    ensures
        action@ == (ActionView::Restore { backup: backup@, into: into@ }),
{
    Action::Restore { backup: String::from_str(backup), into: String::from_str(into) }
}

/// Answers a change that the allowlist does not exempt.
pub fn respond(
    event: &ChangeEvent,
    known: &Snapshot,
    current: &Option<String>,
    home: &str,
    mirror: &str,
    backup_dir: &str,
) -> (plan: Vec<Action>)
    ensures
        plan_view(plan@) == response(
            event@,
            known@,
            text_of(*current),
            home@,
            mirror@,
            backup_dir@,
        ),
{
    let mut plan: Vec<Action> = Vec::new();
    let path = event.path.as_str();
    let recorded = known.get(path);
    match event.kind {
        EventKind::Create => {
            if recorded.is_none() {
                let mut paths: Vec<String> = Vec::new();
                paths.push(String::from_str(path));
                assert(texts(paths@) =~= seq![event.path@]);
                plan.push(Action::Delete { paths });
            }
        },
        EventKind::Modify => {
            if let Some(fingerprint) = recorded {
                if !same_fingerprint(fingerprint, current) {
                    plan.push(
                        Action::Quarantine {
                            path: String::from_str(path),
                            into: String::from_str(backup_dir),
                        },
                    );
                    plan.push(restore(mirror, home));
                }
            }
        },
        EventKind::Remove => {
            if recorded.is_some() {
                plan.push(restore(mirror, home));
            }
        },
        EventKind::Other => {},
    }
    assert(plan_view(plan@) =~= response(
        event@,
        known@,
        text_of(*current),
        home@,
        mirror@,
        backup_dir@,
    ));
    plan
}

/// Settles an event on which the allowlist has given its `verdict`.
pub fn react(
    verdict: Result<bool, PatternError>,
    known: Option<&Snapshot>,
    event: &ChangeEvent,
    current: &Option<String>,
    home: &str,
    mirror: &str,
    backup_dir: &str,
) -> (outcome: Result<Vec<Action>, HandleError>)
    ensures
        outcome_view(outcome) == reaction(
            verdict,
            known_view(known),
            event@,
            text_of(*current),
            home@,
            mirror@,
            backup_dir@,
        ),
{
    match verdict {
        Err(error) => Err(HandleError::Pattern(error)),
        Ok(true) => {
            let plan: Vec<Action> = Vec::new();
            assert(plan_view(plan@) =~= Seq::<ActionView>::empty());
            Ok(plan)
        },
        Ok(false) => match known {
            None => Err(HandleError::Unwatched),
            Some(snapshot) => Ok(respond(event, snapshot, current, home, mirror, backup_dir)),
        },
    }
}

} // verus!

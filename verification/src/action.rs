//! What the guard asks of the file system.

use vstd::prelude::*;

verus! {

/// One step for the caller to carry out. Every copy overwrites what it finds.
#[derive(Debug, PartialEq, Eq)]
pub enum Action {
    /// Create the directory `path` and those above it.
    CreateDir { path: String },
    /// Copy the tree `dir` into the directory `into`, where it keeps its name.
    Mirror { dir: String, into: String },
    /// Remove `paths` and what is below them.
    Delete { paths: Vec<String> },
    /// Keep what stands at `path` by copying it into the directory `into`.
    Quarantine { path: String, into: String },
    /// Copy the mirrored `backup` into the directory `into`.
    Restore { backup: String, into: String },
}

/// An [`Action`] as plain values.
pub ghost enum ActionView {
    CreateDir { path: Seq<char> },
    Mirror { dir: Seq<char>, into: Seq<char> },
    Delete { paths: Seq<Seq<char>> },
    Quarantine { path: Seq<char>, into: Seq<char> },
    Restore { backup: Seq<char>, into: Seq<char> },
}

/// The text of each string of `strings`.
pub open spec fn texts(strings: Seq<String>) -> Seq<Seq<char>> {
    strings.map_values(|text: String| text@)
}

impl View for Action {
    type V = ActionView;

    open spec fn view(&self) -> ActionView {
        match *self {
            Action::CreateDir { path } => ActionView::CreateDir { path: path@ },
            Action::Mirror { dir, into } => ActionView::Mirror { dir: dir@, into: into@ },
            Action::Delete { paths } => ActionView::Delete { paths: texts(paths@) },
            Action::Quarantine { path, into } => ActionView::Quarantine {
                path: path@,
                into: into@,
            },
            Action::Restore { backup, into } => ActionView::Restore {
                backup: backup@,
                into: into@,
            },
        }
    }
}

/// The actions of `plan` as plain values, in order.
pub open spec fn plan_view(plan: Seq<Action>) -> Seq<ActionView> {
    plan.map_values(|action: Action| action@)
}

} // verus!

//! The guard: its configuration, the baselines of the directories it
//! protects, and its answer to every change event.

use crate::action::{plan_view, texts, Action, ActionView};
use crate::allowlist::{is_exempt, screen};
use crate::fingerprint::{fingerprint, fingerprint_of};
use crate::path::{base_name, file_name, lies_under, mirror_of, mirror_path, parent, parent_dir};
use crate::reactor::{
    outcome_view, react, reaction, ChangeEvent, ChangeEventView, EventKind, HandleError,
};
use crate::snapshot::{baseline, text_of, walk_view, Snapshot, WalkEntry};
use vstd::hash_map::StringHashMap;
use vstd::prelude::*;

verus! {

/// What to protect, where to keep the mirror, and which files to leave alone.
pub struct Config {
    /// The directories to protect.
    pub protected_dirs: Vec<String>,
    /// The directory that holds the mirror of every protected directory.
    pub backup_dir: String,
    /// The allowlist: regular expressions for base names that are exempt.
    pub white_names: Vec<String>,
}

/// A [`Config`] as plain values.
pub ghost struct ConfigView {
    pub protected_dirs: Seq<Seq<char>>,
    pub backup_dir: Seq<char>,
    pub white_names: Seq<Seq<char>>,
}

impl View for Config {
    type V = ConfigView;

    open spec fn view(&self) -> ConfigView {
        ConfigView {
            protected_dirs: texts(self.protected_dirs@),
            backup_dir: self.backup_dir@,
            white_names: texts(self.white_names@),
        }
    }
}

/// The baselines on record, by protected directory.
pub type Baselines = Map<Seq<char>, Map<Seq<char>, Option<Seq<char>>>>;

/// The guard.
pub struct FileGirl {
    pub config: Config,
    pub file_hash_map: StringHashMap<Snapshot>,
}

/// Whether an event at `path` belongs to the watch of `dir`: the path lies
/// under the directory and has a base name.
pub open spec fn in_scope(path: Seq<char>, dir: Seq<char>) -> bool {
    lies_under(path, dir) && base_name(path) is Some
}

/// The baseline on record for `dir`, if there is one.
pub open spec fn baseline_for(baselines: Baselines, dir: Seq<char>) -> Option<
    Map<Seq<char>, Option<Seq<char>>>,
> {
    if baselines.contains_key(dir) {
        Some(baselines[dir])
    } else {
        None
    }
}

/// The outcome of an event in the watch of `dir`, where `current` is the
/// fingerprint of the event's path as it is now.
///
/// An event out of scope is refused before anything else is looked at. For
/// one in scope the allowlist is asked about the path's base name, and what
/// it says is settled against the baseline of `dir`, with the path's parent
/// as the place to restore into and its mirror under the backup directory as
/// the copy to restore from.
pub open spec fn outcome_of(
    config: ConfigView,
    baselines: Baselines,
    event: ChangeEventView,
    dir: Seq<char>,
    current: Option<Seq<char>>,
) -> Result<Seq<ActionView>, HandleError> {
    if !in_scope(event.path, dir) {
        Err(HandleError::OutOfScope)
    } else {
        reaction(
            screen(config.white_names, base_name(event.path)->0),
            baseline_for(baselines, dir),
            event,
            current,
            parent(event.path)->0,
            mirror_of(config.backup_dir, event.path, dir),
            config.backup_dir,
        )
    }
}

/// Whether the outcome of an event depends on the current fingerprint of its
/// path: it does for a modification of a path that the baseline of `dir` knows.
pub open spec fn fingerprint_matters(
    baselines: Baselines,
    event: ChangeEventView,
    dir: Seq<char>,
) -> bool {
    &&& event.kind is Modify
    &&& baselines.contains_key(dir)
    &&& baselines[dir].contains_key(event.path)
}

/// What it takes to put `dir` under guard: the backup directory is created
/// unless it exists, and the tree is copied into it.
pub open spec fn setup_plan(backup_dir: Seq<char>, dir: Seq<char>, backup_dir_exists: bool) -> Seq<
    ActionView,
> {
    let copy = seq![ActionView::Mirror { dir: dir, into: backup_dir }];
    if backup_dir_exists {
        copy
    } else {
        seq![ActionView::CreateDir { path: backup_dir }] + copy
    }
}

impl FileGirl {
    /// The baselines on record, by protected directory.
    pub open spec fn baselines(&self) -> Baselines {
        self.file_hash_map@.map_values(|snapshot: Snapshot| snapshot@)
    }

    /// A guard with the given configuration and no baseline on record.
    pub fn new(config: Config) -> (girl: FileGirl)
        ensures
            girl.config == config,
            girl.baselines() == Map::<Seq<char>, Map<Seq<char>, Option<Seq<char>>>>::empty(),
    {
        let girl = FileGirl { config, file_hash_map: StringHashMap::new() };
        assert(girl.baselines() =~= Map::<Seq<char>, Map<Seq<char>, Option<Seq<char>>>>::empty());
        girl
    }

    /// The fingerprint of a path from what a read of it gave: the digest of
    /// the bytes, or nothing where the path could not be read as a file.
    pub fn calc_hash(read: &Option<Vec<u8>>) -> (hash: Option<String>)
        ensures
            text_of(hash) == fingerprint_of(
                match *read {
                    Some(bytes) => Some(bytes@),
                    None => None,
                },
            ),
    {
        match read {
            Some(bytes) => Some(fingerprint(bytes.as_slice())),
            None => None,
        }
    }

    /// The baseline that a walk of a directory yields.
    pub fn make_file_hash_map(walk: &Vec<WalkEntry>) -> (snapshot: Snapshot)
        ensures
            snapshot@ == baseline(walk_view(walk@)),
    {
        let mut snapshot = Snapshot::new();
        let mut i: usize = 0;
        while i < walk.len()
            invariant
                i <= walk@.len(),
                snapshot@ == baseline(walk_view(walk@).take(i as int)),
            decreases walk@.len() - i,
        {
            snapshot.record(&walk[i]);
            proof {
                let seen = walk_view(walk@).take(i + 1);
                assert(seen.drop_last() =~= walk_view(walk@).take(i as int));
                assert(seen.last() == walk@[i as int]@);
            }
            i += 1;
        }
        assert(walk_view(walk@).take(walk@.len() as int) =~= walk_view(walk@));
        snapshot
    }

    /// Puts `snapshot` on record as the baseline of `dir`, in place of an
    /// earlier one.
    pub fn enroll(&mut self, dir: &str, snapshot: Snapshot)
        ensures
            final(self).config == old(self).config,
            final(self).baselines() == old(self).baselines().insert(dir@, snapshot@),
    {
        self.file_hash_map.insert(String::from_str(dir), snapshot);
        assert(self.baselines() =~= old(self).baselines().insert(dir@, snapshot@));
    }

    /// Takes `dir` under guard: puts the baseline that `walk` yields on record
    /// for it and says how to mirror it. `backup_dir_exists` tells whether the
    /// backup directory is there already.
    pub fn guard(&mut self, dir: &str, walk: &Vec<WalkEntry>, backup_dir_exists: bool) -> (plan:
        Vec<Action>)
        ensures
            final(self).config == old(self).config,
            final(self).baselines() == old(self).baselines().insert(
                dir@,
                baseline(walk_view(walk@)),
            ),
            plan_view(plan@) == setup_plan(old(self).config.backup_dir@, dir@, backup_dir_exists),
    {
        let snapshot = FileGirl::make_file_hash_map(walk);
        self.enroll(dir, snapshot);
        let mut plan: Vec<Action> = Vec::new();
        if !backup_dir_exists {
            plan.push(Action::CreateDir { path: self.config.backup_dir.clone() });
        }
        plan.push(
            Action::Mirror { dir: String::from_str(dir), into: self.config.backup_dir.clone() },
        );
        assert(plan_view(plan@) =~= setup_plan(
            old(self).config.backup_dir@,
            dir@,
            backup_dir_exists,
        ));
        plan
    }

    /// Whether the answer to `event` in the watch of `protected_dir` depends on
    /// the current fingerprint of the event's path.
    pub fn needs_fingerprint(&self, event: &ChangeEvent, protected_dir: &str) -> (needed: bool)
        ensures
            needed == fingerprint_matters(self.baselines(), event@, protected_dir@),
    {
        match event.kind {
            EventKind::Modify => match self.file_hash_map.get(protected_dir) {
                Some(snapshot) => snapshot.contains(event.path.as_str()),
                None => false,
            },
            _ => false,
        }
    }

    /// Answers `event`, which the watch of `protected_dir` delivered, with the
    /// actions to carry out in order. `current` is the fingerprint of the
    /// event's path as it is now; it is looked at only where
    /// [`FileGirl::needs_fingerprint`] holds.
    pub fn handle(
        &self,
        event: &ChangeEvent,
        protected_dir: &str,
        current: &Option<String>,
    ) -> (outcome: Result<Vec<Action>, HandleError>)
        ensures
            outcome_view(outcome) == outcome_of(
                self.config@,
                self.baselines(),
                event@,
                protected_dir@,
                text_of(*current),
            ),
    {
        let path = event.path.as_str();
        let backup_dir = self.config.backup_dir.as_str();
        let mirror = match mirror_path(backup_dir, path, protected_dir) {
            Some(mirror) => mirror,
            None => {
                return Err(HandleError::OutOfScope);
            },
        };
        let name = match file_name(path) {
            Some(name) => name,
            None => {
                return Err(HandleError::OutOfScope);
            },
        };
        let home = match parent_dir(path) {
            Some(home) => home,
            None => {
                return Err(HandleError::OutOfScope);
            },
        };
        let verdict = is_exempt(&self.config.white_names, name);
        let known = self.file_hash_map.get(protected_dir);
        react(verdict, known, event, current, home, mirror.as_str(), backup_dir)
    }
}

} // verus!

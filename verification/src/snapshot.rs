//! The baseline of a protected directory: what a walk of the tree found, as a
//! map from path to fingerprint.

use crate::fingerprint::{fingerprint, md5_hex};
use vstd::hash_map::StringHashMap;
use vstd::prelude::*;

verus! {

/// The text of an optional string.
pub open spec fn text_of(value: Option<String>) -> Option<Seq<char>> {
    match value {
        Some(text) => Some(text@),
        None => None,
    }
}

/// One entry of a directory walk, with what a read of it gave.
pub struct WalkEntry {
    /// The entry's path.
    pub path: String,
    /// Whether the entry is a regular file.
    pub is_file: bool,
    /// The bytes of a file that could be read. Of no account for other entries.
    pub content: Option<Vec<u8>>,
}

/// A [`WalkEntry`] as plain values.
pub ghost struct WalkEntryView {
    pub path: Seq<char>,
    pub is_file: bool,
    pub content: Option<Seq<u8>>,
}

impl View for WalkEntry {
    type V = WalkEntryView;

    open spec fn view(&self) -> WalkEntryView {
        WalkEntryView {
            path: self.path@,
            is_file: self.is_file,
            content: match self.content {
                Some(bytes) => Some(bytes@),
                None => None,
            },
        }
    }
}

/// The entries of a walk as plain values.
pub open spec fn walk_view(walk: Seq<WalkEntry>) -> Seq<WalkEntryView> {
    walk.map_values(|entry: WalkEntry| entry@)
}

/// What an entry puts on record: nothing for a file that could not be read,
/// the digest of its bytes for any other file, and the directory mark, an
/// entry without a fingerprint, for everything else.
pub open spec fn recorded(entry: WalkEntryView) -> Option<Option<Seq<char>>> {
    if entry.is_file {
        match entry.content {
            Some(bytes) => Some(Some(md5_hex(bytes))),
            None => None,
        }
    } else {
        Some(None)
    }
}

/// The baseline `known` after `entry` was seen.
pub open spec fn with_entry(
    known: Map<Seq<char>, Option<Seq<char>>>,
    entry: WalkEntryView,
) -> Map<Seq<char>, Option<Seq<char>>> {
    match recorded(entry) {
        Some(value) => known.insert(entry.path, value),
        None => known,
    }
}

/// The baseline that a walk yields: its entries put on record one after the
/// other, a later entry replacing an earlier one of the same path.
pub open spec fn baseline(walk: Seq<WalkEntryView>) -> Map<Seq<char>, Option<Seq<char>>>
    decreases walk.len(),
{
    if walk.len() == 0 {
        Map::empty()
    } else {
        with_entry(baseline(walk.drop_last()), walk.last())
    }
}

/// Whether no two entries of `walk` share a path.
pub open spec fn distinct_paths(walk: Seq<WalkEntryView>) -> bool {
    forall|i: int, j: int|
        0 <= i < j < walk.len() ==> (#[trigger] walk[i]).path != (#[trigger] walk[j]).path
}

/// Whether every file of `walk` could be read.
pub open spec fn all_readable(walk: Seq<WalkEntryView>) -> bool {
    forall|i: int| 0 <= i < walk.len() ==> recorded(#[trigger] walk[i]) is Some
}

/// Whether some entry of `walk` puts `path` on record.
pub open spec fn on_record(walk: Seq<WalkEntryView>, path: Seq<char>) -> bool {
    exists|i: int|
        0 <= i < walk.len() && (#[trigger] walk[i]).path == path && recorded(walk[i]) is Some
}

/// Whether `later` puts on record the path that `earlier` names.
pub open spec fn overrides(later: WalkEntryView, earlier: WalkEntryView) -> bool {
    later.path == earlier.path && recorded(later) is Some
}

/// Whether entry `i` of `walk` puts its path on record and no later entry
/// does so again.
pub open spec fn has_last_word(walk: Seq<WalkEntryView>, i: int) -> bool {
    &&& 0 <= i < walk.len()
    &&& recorded(walk[i]) is Some
    &&& forall|j: int| i < j < walk.len() ==> !overrides(#[trigger] walk[j], walk[i])
}

/// The baseline of one protected directory.
pub struct Snapshot {
    entries: StringHashMap<Option<String>>,
}

impl View for Snapshot {
    type V = Map<Seq<char>, Option<Seq<char>>>;

    closed spec fn view(&self) -> Map<Seq<char>, Option<Seq<char>>> {
        self.entries@.map_values(|value: Option<String>| text_of(value))
    }
}

impl Snapshot {
    /// A baseline without entries.
    pub fn new() -> (snapshot: Snapshot)
        ensures
            snapshot@ == Map::<Seq<char>, Option<Seq<char>>>::empty(),
    {
        let snapshot = Snapshot { entries: StringHashMap::new() };
        assert(snapshot@ =~= Map::<Seq<char>, Option<Seq<char>>>::empty());
        snapshot
    }

    /// Puts `path` on record with `fingerprint`, in place of what was on
    /// record for it.
    pub fn insert(&mut self, path: String, fingerprint: Option<String>)
        ensures
            final(self)@ == old(self)@.insert(path@, text_of(fingerprint)),
    {
        self.entries.insert(path, fingerprint);
        assert(self@ =~= old(self)@.insert(path@, text_of(fingerprint)));
    }

    /// What is on record for `path`.
    pub fn get(&self, path: &str) -> (found: Option<&Option<String>>)
        ensures
            found is Some <==> self@.contains_key(path@),
            found matches Some(value) ==> text_of(*value) == self@[path@],
    {
        self.entries.get(path)
    }

    /// Whether `path` is on record.
    pub fn contains(&self, path: &str) -> (found: bool)
        ensures
            found == self@.contains_key(path@),
    {
        self.entries.contains_key(path)
    }

    /// The number of entries.
    pub fn len(&self) -> (count: usize)
        ensures
            count == self@.len(),
    {
        assert(self@.dom() =~= self.entries@.dom());
        self.entries.len()
    }

    /// Puts one entry of a walk on record.
    pub fn record(&mut self, entry: &WalkEntry)
        ensures
            final(self)@ == with_entry(old(self)@, entry@),
    {
        if entry.is_file {
            match &entry.content {
                Some(bytes) => {
                    let digest = fingerprint(bytes.as_slice());
                    self.insert(entry.path.clone(), Some(digest));
                },
                None => {},
            }
        } else {
            self.insert(entry.path.clone(), None);
        }
    }
}

/// A path is in the baseline exactly if some entry of the walk puts it on
/// record.
pub proof fn lemma_baseline_domain(walk: Seq<WalkEntryView>, path: Seq<char>)
    ensures
        baseline(walk).contains_key(path) <==> on_record(walk, path),
    decreases walk.len(),
{
    if walk.len() > 0 {
        let before = walk.drop_last();
        let last = walk.len() - 1;
        lemma_baseline_domain(before, path);
        if baseline(walk).contains_key(path) {
            if recorded(walk[last]) is Some && walk[last].path == path {
            } else {
                assert(baseline(before).contains_key(path));
                let i = choose|i: int|
                    0 <= i < before.len() && (#[trigger] before[i]).path == path && recorded(
                        before[i],
                    ) is Some;
                assert(walk[i] == before[i]);
            }
            assert(on_record(walk, path));
        }
        if on_record(walk, path) {
            let i = choose|i: int|
                0 <= i < walk.len() && (#[trigger] walk[i]).path == path && recorded(walk[i])
                    is Some;
            if i < last {
                assert(before[i] == walk[i]);
                assert(on_record(before, path));
            }
        }
    }
}

/// The baseline holds for a path what the last entry that puts the path on
/// record says.
pub proof fn lemma_baseline_value(walk: Seq<WalkEntryView>, i: int)
    requires
        has_last_word(walk, i),
    ensures
        baseline(walk).contains_key(walk[i].path),
        baseline(walk)[walk[i].path] == recorded(walk[i])->0,
    decreases walk.len(),
{
    let before = walk.drop_last();
    let last = walk.len() - 1;
    if i < last {
        assert(before[i] == walk[i]);
        assert forall|j: int| i < j < before.len() implies !overrides(before[j], before[i]) by {
            assert(before[j] == walk[j]);
        }
        lemma_baseline_value(before, i);
        assert(!overrides(walk[last], walk[i]));
    }
}

/// Where no two entries of a walk share a path, each entry that puts its path
/// on record has the last word on it.
pub proof fn lemma_distinct_paths_have_last_word(walk: Seq<WalkEntryView>, i: int)
    requires
        distinct_paths(walk),
        0 <= i < walk.len(),
        recorded(walk[i]) is Some,
    ensures
        has_last_word(walk, i),
{
}

/// A walk that met every object once and could read every file yields a
/// baseline with exactly one entry per object and no other: the digest of its
/// bytes for a file, the directory mark for anything else.
pub proof fn lemma_one_entry_per_object(walk: Seq<WalkEntryView>)
    requires
        distinct_paths(walk),
        all_readable(walk),
    ensures
        forall|path: Seq<char>|
            baseline(walk).contains_key(path) <==> exists|i: int|
                0 <= i < walk.len() && (#[trigger] walk[i]).path == path,
        forall|i: int|
            0 <= i < walk.len() ==> baseline(walk)[(#[trigger] walk[i]).path] == if walk[i].is_file
            {
                Some(md5_hex(walk[i].content->0))
            } else {
                None
            },
        baseline(walk).dom().finite(),
        baseline(walk).len() == walk.len(),
    decreases walk.len(),
{
    assert forall|path: Seq<char>|
        baseline(walk).contains_key(path) <==> exists|i: int|
            0 <= i < walk.len() && (#[trigger] walk[i]).path == path by {
        lemma_baseline_domain(walk, path);
        if exists|i: int| 0 <= i < walk.len() && (#[trigger] walk[i]).path == path {
            let i = choose|i: int| 0 <= i < walk.len() && (#[trigger] walk[i]).path == path;
            assert(recorded(walk[i]) is Some);
        }
    }
    assert forall|i: int| 0 <= i < walk.len() implies baseline(walk)[(#[trigger] walk[i]).path]
        == if walk[i].is_file {
        Some(md5_hex(walk[i].content->0))
    } else {
        None
    } by {
        lemma_distinct_paths_have_last_word(walk, i);
        lemma_baseline_value(walk, i);
    }
    if walk.len() > 0 {
        let before = walk.drop_last();
        let entry = walk.last();
        assert forall|i: int| 0 <= i < before.len() implies recorded(#[trigger] before[i])
            is Some by {
            assert(before[i] == walk[i]);
        }
        assert forall|i: int, j: int| 0 <= i < j < before.len() implies (#[trigger] before[i]).path
            != (#[trigger] before[j]).path by {
            assert(before[i] == walk[i] && before[j] == walk[j]);
        }
        lemma_one_entry_per_object(before);
        assert(recorded(walk[walk.len() - 1]) is Some);
        assert(!baseline(before).contains_key(entry.path)) by {
            lemma_baseline_domain(before, entry.path);
            if on_record(before, entry.path) {
                let i = choose|i: int|
                    0 <= i < before.len() && (#[trigger] before[i]).path == entry.path
                        && recorded(before[i]) is Some;
                assert(before[i] == walk[i]);
                assert(walk[walk.len() - 1] == entry);
            }
        }
        assert(baseline(walk).dom() =~= baseline(before).dom().insert(entry.path));
    }
}

/// The order in which a walk meets the objects of a tree does not matter: two
/// walks that met every object once and hold the same entries yield the same
/// baseline.
pub proof fn lemma_baseline_ignores_order(first: Seq<WalkEntryView>, second: Seq<WalkEntryView>)
    requires
        distinct_paths(first),
        distinct_paths(second),
        first.to_set() == second.to_set(),
    ensures
        baseline(first) == baseline(second),
{
    lemma_baseline_covers(first, second);
    lemma_baseline_covers(second, first);
    assert(baseline(first) =~= baseline(second));
}

/// What the baseline of `first` holds, that of `second` holds too, where
/// every entry of `first` is one of `second` and neither walk met an object
/// twice.
proof fn lemma_baseline_covers(first: Seq<WalkEntryView>, second: Seq<WalkEntryView>)
    requires
        distinct_paths(first),
        distinct_paths(second),
        first.to_set().subset_of(second.to_set()),
    ensures
        forall|path: Seq<char>| #[trigger]
            baseline(first).contains_key(path) ==> baseline(second).contains_key(path)
                && baseline(second)[path] == baseline(first)[path],
{
    assert forall|path: Seq<char>| #[trigger]
        baseline(first).contains_key(path) implies baseline(second).contains_key(path)
        && baseline(second)[path] == baseline(first)[path] by {
        lemma_baseline_domain(first, path);
        let i = choose|i: int|
            0 <= i < first.len() && (#[trigger] first[i]).path == path && recorded(first[i])
                is Some;
        assert(first.contains(first[i]));
        assert(first.to_set().contains(first[i]));
        assert(second.to_set().contains(first[i]));
        assert(second.contains(first[i]));
        let j = choose|j: int| 0 <= j < second.len() && second[j] == first[i];
        lemma_distinct_paths_have_last_word(first, i);
        lemma_distinct_paths_have_last_word(second, j);
        lemma_baseline_value(first, i);
        lemma_baseline_value(second, j);
    }
}

} // verus!

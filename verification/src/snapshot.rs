use crate::text::same_text;
use vstd::prelude::*;

verus! {

/// The text of one manager configuration file as it was when a snapshot
/// was taken.
#[derive(Debug)]
pub struct ConfFile {
    pub content: String,
    pub path: String,
    /// When the content was first recorded.
    pub epoch: i64,
}

pub struct ConfFileView {
    pub content: Seq<char>,
    pub path: Seq<char>,
    pub epoch: int,
}

impl View for ConfFile {
    type V = ConfFileView;

    open spec fn view(&self) -> ConfFileView {
        ConfFileView { content: self.content@, path: self.path@, epoch: self.epoch as int }
    }
}

impl Clone for ConfFile {
    fn clone(&self) -> (copy: Self)
        ensures
            copy@ == self@,
    {
        ConfFile { content: self.content.clone(), path: self.path.clone(), epoch: self.epoch }
    }
}

/// Two recorded files are the same file if content and path agree; when
/// they were recorded does not count.
pub open spec fn same_file(a: ConfFileView, b: ConfFileView) -> bool {
    a.content == b.content && a.path == b.path
}

/// One manager's file in a snapshot, under the manager's identifier.
#[derive(Debug)]
pub struct SnapshotEntry {
    pub key: String,
    pub file: ConfFile,
}

pub struct EntryView {
    pub key: Seq<char>,
    pub file: ConfFileView,
}

impl View for SnapshotEntry {
    type V = EntryView;

    open spec fn view(&self) -> EntryView {
        EntryView { key: self.key@, file: self.file@ }
    }
}

/// The entries as their views, in order.
pub open spec fn entries_view(entries: Seq<SnapshotEntry>) -> Seq<EntryView> {
    Seq::new(entries.len(), |i: int| entries[i]@)
}

/// No two entries share a key.
pub open spec fn distinct_keys(entries: Seq<EntryView>) -> bool {
    forall|i: int, j: int|
        0 <= i < j < entries.len() ==> (#[trigger] entries[i]).key != (#[trigger] entries[j]).key
}

/// Some entry is under `key`.
pub open spec fn has_key(entries: Seq<EntryView>, key: Seq<char>) -> bool {
    exists|i: int| 0 <= i < entries.len() && (#[trigger] entries[i]).key == key
}

/// The place of an entry with the given key, where there is one.
pub open spec fn place_of(entries: Seq<EntryView>, key: Seq<char>) -> int {
    choose|i: int| 0 <= i < entries.len() && (#[trigger] entries[i]).key == key
}

/// The file recorded under `key`.
pub open spec fn lookup(entries: Seq<EntryView>, key: Seq<char>) -> Option<ConfFileView> {
    if has_key(entries, key) {
        Some(entries[place_of(entries, key)].file)
    } else {
        None
    }
}

/// The entries with `file` recorded under `key`: in the place of the entry
/// that had the key, or at the end where none had it.
pub open spec fn put(entries: Seq<EntryView>, key: Seq<char>, file: ConfFileView) -> Seq<
    EntryView,
> {
    if has_key(entries, key) {
        entries.update(place_of(entries, key), EntryView { key, file })
    } else {
        entries.push(EntryView { key, file })
    }
}

/// Two snapshots are equal if they hold the same keys and, under each key,
/// the same file.
pub open spec fn same_snapshot(a: Seq<EntryView>, b: Seq<EntryView>) -> bool {
    forall|key: Seq<char>|
        match (#[trigger] lookup(a, key), lookup(b, key)) {
            (Some(x), Some(y)) => same_file(x, y),
            (None, None) => true,
            _ => false,
        }
}

/// With distinct keys, the file under the key of an entry is that entry's.
pub proof fn lemma_lookup_entry(entries: Seq<EntryView>, i: int)
    requires
        distinct_keys(entries),
        0 <= i < entries.len(),
    ensures
        has_key(entries, entries[i].key),
        lookup(entries, entries[i].key) == Some(entries[i].file),
{
    let key = entries[i].key;
    assert(has_key(entries, key));
    let j = place_of(entries, key);
    if i < j {
        assert(entries[i].key != entries[j].key);
    } else if j < i {
        assert(entries[j].key != entries[i].key);
    }
}

/// After `put`, the new file is under its key and every other key holds
/// what it held.
pub proof fn lemma_lookup_put(
    entries: Seq<EntryView>,
    key: Seq<char>,
    file: ConfFileView,
    other: Seq<char>,
)
    requires
        distinct_keys(entries),
    ensures
        distinct_keys(put(entries, key, file)),
        lookup(put(entries, key, file), other) == if other == key {
            Some(file)
        } else {
            lookup(entries, other)
        },
{
    let after = put(entries, key, file);
    let at = if has_key(entries, key) {
        place_of(entries, key)
    } else {
        entries.len() as int
    };
    assert(after.len() > at && after[at] == (EntryView { key, file }));
    assert forall|i: int| 0 <= i < after.len() && i != at implies #[trigger] after[i]
        == entries[i] && entries[i].key != key by {
        if has_key(entries, key) {
            if i < at {
                assert(entries[i].key != entries[at].key);
            } else {
                assert(entries[at].key != entries[i].key);
            }
        }
    }
    assert(distinct_keys(after)) by {
        assert forall|i: int, j: int| 0 <= i < j < after.len() implies (#[trigger] after[i]).key != (
        #[trigger] after[j]).key by {
            if i != at && j != at {
                assert(entries[i].key != entries[j].key);
            }
        }
    }
    if other == key {
        lemma_lookup_entry(after, at);
    } else if has_key(entries, other) {
        let i = place_of(entries, other);
        assert(after[i] == entries[i]);
        lemma_lookup_entry(entries, i);
        lemma_lookup_entry(after, i);
    } else if has_key(after, other) {
        let i = place_of(after, other);
        assert(after[i] == entries[i]);
    }
}

/// Snapshot equality is reflexive.
pub proof fn lemma_same_snapshot_reflexive(a: Seq<EntryView>)
    ensures
        same_snapshot(a, a),
{
}

/// Snapshot equality is symmetric.
pub proof fn lemma_same_snapshot_symmetric(a: Seq<EntryView>, b: Seq<EntryView>)
    requires
        same_snapshot(a, b),
    ensures
        same_snapshot(b, a),
{
    assert forall|key: Seq<char>|
        match (#[trigger] lookup(b, key), lookup(a, key)) {
            (Some(x), Some(y)) => same_file(x, y),
            (None, None) => true,
            _ => false,
        } by {
        let _ = lookup(a, key);
    }
}

/// Snapshot equality is transitive.
pub proof fn lemma_same_snapshot_transitive(
    a: Seq<EntryView>,
    b: Seq<EntryView>,
    c: Seq<EntryView>,
)
    requires
        same_snapshot(a, b),
        same_snapshot(b, c),
    ensures
        same_snapshot(a, c),
{
    assert forall|key: Seq<char>|
        match (#[trigger] lookup(a, key), lookup(c, key)) {
            (Some(x), Some(y)) => same_file(x, y),
            (None, None) => true,
            _ => false,
        } by {
        let _ = lookup(b, key);
    }
}

/// The configuration files of all managers at one moment, by manager.
#[derive(Debug)]
pub struct Snapshot {
    entries: Vec<SnapshotEntry>,
}

impl View for Snapshot {
    type V = Seq<EntryView>;

    closed spec fn view(&self) -> Seq<EntryView> {
        entries_view(self.entries@)
    }
}

impl Clone for Snapshot {
    fn clone(&self) -> (copy: Self)
        ensures
            copy@ == self@,
    {
        let mut entries: Vec<SnapshotEntry> = Vec::new();
        let mut i: usize = 0;
        while i < self.entries.len()
            invariant
                i <= self.entries.len(),
                entries.len() == i,
                forall|j: int| 0 <= j < i ==> (#[trigger] entries@[j])@ == self.entries@[j]@,
            decreases self.entries.len() - i,
        {
            let entry = &self.entries[i];
            entries.push(SnapshotEntry { key: entry.key.clone(), file: entry.file.clone() });
            i += 1;
        }
        let copy = Snapshot { entries };
        assert(copy@ =~= self@);
        copy
    }
}

impl Snapshot {
    /// Every key occurs once.
    pub open spec fn wf(&self) -> bool {
        distinct_keys(self@)
    }

    /// A snapshot without files.
    pub fn new() -> (snapshot: Self)
        ensures
            snapshot@ == Seq::<EntryView>::empty(),
            snapshot.wf(),
    {
        let snapshot = Snapshot { entries: Vec::new() };
        assert(snapshot@ =~= Seq::<EntryView>::empty());
        snapshot
    }

    /// How many managers have a file in the snapshot.
    pub fn len(&self) -> (n: usize)
        ensures
            n == self@.len(),
    {
        self.entries.len()
    }

    /// The entries in the order in which their keys were first recorded.
    pub fn entries(&self) -> (entries: &Vec<SnapshotEntry>)
        ensures
            entries_view(entries@) == self@,
    {
        &self.entries
    }

    /// The place of the entry under `key`.
    fn find(&self, key: &str) -> (at: Option<usize>)
        ensures
            at is Some == has_key(self@, key@),
            at matches Some(i) ==> i < self@.len() && self@[i as int].key == key@,
    {
        let mut i: usize = 0;
        while i < self.entries.len()
            invariant
                i <= self.entries.len(),
                forall|j: int| 0 <= j < i ==> (#[trigger] self@[j]).key != key@,
            decreases self.entries.len() - i,
        {
            if same_text(self.entries[i].key.as_str(), key) {
                assert(self@[i as int].key == key@);
                return Some(i);
            }
            i += 1;
        }
        None
    }

    /// The file recorded under `key`.
    pub fn get(&self, key: &str) -> (file: Option<&ConfFile>)
        requires
            self.wf(),
        ensures
            file is Some == lookup(self@, key@) is Some,
            file matches Some(f) ==> lookup(self@, key@) == Some(f@),
    {
        match self.find(key) {
            Some(i) => {
                assert(self@[i as int] == self.entries@[i as int]@);
                Some(&self.entries[i].file)
            },
            None => None,
        }
    }

    /// Whether both snapshots hold the same keys and, under each key, a file
    /// with the same content and path.
    pub fn same_as(&self, other: &Snapshot) -> (same: bool)
        requires
            self.wf(),
            other.wf(),
        ensures
            same == same_snapshot(self@, other@),
    {
        let mut i: usize = 0;
        while i < self.entries.len()
            invariant
                i <= self.entries.len(),
                self.wf(),
                other.wf(),
                forall|j: int|
                    0 <= j < i ==> match lookup(other@, (#[trigger] self@[j]).key) {
                        Some(f) => same_file(self@[j].file, f),
                        None => false,
                    },
            decreases self.entries.len() - i,
        {
            let entry = &self.entries[i];
            assert(self@[i as int] == entry@);
            proof {
                lemma_lookup_entry(self@, i as int);
            }
            let matches = match other.get(entry.key.as_str()) {
                Some(f) => same_text(f.content.as_str(), entry.file.content.as_str()) && same_text(
                    f.path.as_str(),
                    entry.file.path.as_str(),
                ),
                None => false,
            };
            if !matches {
                return false;
            }
            i += 1;
        }
        let mut k: usize = 0;
        while k < other.entries.len()
            invariant
                k <= other.entries.len(),
                self.wf(),
                other.wf(),
                forall|j: int| 0 <= j < k ==> has_key(self@, (#[trigger] other@[j]).key),
            decreases other.entries.len() - k,
        {
            let entry = &other.entries[k];
            assert(other@[k as int] == entry@);
            proof {
                lemma_lookup_entry(other@, k as int);
            }
            if self.find(entry.key.as_str()).is_none() {
                proof {
                    assert(lookup(self@, entry.key@) is None);
                    assert(lookup(other@, entry.key@) is Some);
                }
                return false;
            }
            k += 1;
        }
        proof {
            assert forall|key: Seq<char>|
                match (#[trigger] lookup(self@, key), lookup(other@, key)) {
                    (Some(x), Some(y)) => same_file(x, y),
                    (None, None) => true,
                    _ => false,
                } by {
                if has_key(self@, key) {
                    let j = place_of(self@, key);
                    lemma_lookup_entry(self@, j);
                } else if has_key(other@, key) {
                    let j = place_of(other@, key);
                    assert(has_key(self@, other@[j].key));
                }
            }
        }
        true
    }

    /// Records `file` under `key`, in place of what was recorded there.
    pub fn insert(&mut self, key: String, file: ConfFile)
        requires
            old(self).wf(),
        ensures
            final(self).wf(),
            final(self)@ == put(old(self)@, key@, file@),
    {
        match self.find(key.as_str()) {
            Some(i) => {
                self.entries.set(i, SnapshotEntry { key, file });
                assert(self@ =~= put(old(self)@, key@, file@));
            },
            None => {
                self.entries.push(SnapshotEntry { key, file });
                assert(self@ =~= put(old(self)@, key@, file@));
            },
        }
    }
}

} // verus!

use crate::error::{Error, GEN_ERROR};
use crate::globals::ERR_NO_CHANGES_TO_COMMIT;
use crate::snapshot::{
    has_key, lemma_lookup_put, lookup, put, same_file, same_snapshot, ConfFile, ConfFileView,
    EntryView, Snapshot,
};
use crate::text::same_text;
use crate::util::{epoch_time_secs, manager_id, manager_key};
use vstd::prelude::*;

verus! {

/// A manager configuration file as it is on disk: where, and what it says.
#[derive(Debug)]
pub struct DiskFile {
    pub path: String,
    pub content: String,
}

pub struct FileView {
    pub path: Seq<char>,
    pub content: Seq<char>,
}

impl View for DiskFile {
    type V = FileView;

    open spec fn view(&self) -> FileView {
        FileView { path: self.path@, content: self.content@ }
    }
}

/// The files as their views, in order.
pub open spec fn files_view(files: Seq<DiskFile>) -> Seq<FileView> {
    Seq::new(files.len(), |i: int| files[i]@)
}

/// A point in the history of the configuration: every manager's file, when
/// it was taken, the message given with it, and whether its changes have
/// been carried out on the system.
#[derive(Debug)]
pub struct Generation {
    pub snapshot: Snapshot,
    pub epoch: i64,
    pub message: String,
    pub applied: bool,
}

pub struct GenerationView {
    pub snapshot: Seq<EntryView>,
    pub epoch: int,
    pub message: Seq<char>,
    pub applied: bool,
}

impl View for Generation {
    type V = GenerationView;

    open spec fn view(&self) -> GenerationView {
        GenerationView {
            snapshot: self.snapshot@,
            epoch: self.epoch as int,
            message: self.message@,
            applied: self.applied,
        }
    }
}

impl Clone for Generation {
    fn clone(&self) -> (copy: Self)
        ensures
            copy@ == self@,
    {
        Generation {
            snapshot: self.snapshot.clone(),
            epoch: self.epoch,
            message: self.message.clone(),
            applied: self.applied,
        }
    }
}

/// What a snapshot taken at `now` records for `file`: the record of the
/// previous snapshot where the content has not changed since, so that the
/// time of the last change is kept; else a record of its own.
pub open spec fn capture_one(file: FileView, prev: Seq<EntryView>, now: int) -> ConfFileView {
    match lookup(prev, manager_id(file.path)) {
        Some(before) => if before.content == file.content {
            before
        } else {
            ConfFileView { content: file.content, path: file.path, epoch: now }
        },
        None => ConfFileView { content: file.content, path: file.path, epoch: now },
    }
}

/// The snapshot of `files` taken at `now` after the snapshot `prev`. Of two
/// files of one manager the later one stays.
pub open spec fn captured(files: Seq<FileView>, prev: Seq<EntryView>, now: int) -> Seq<EntryView>
    decreases files.len(),
{
    if files.len() == 0 {
        Seq::empty()
    } else {
        put(
            captured(files.drop_last(), prev, now),
            manager_id(files.last().path),
            capture_one(files.last(), prev, now),
        )
    }
}

/// The generation that follows `prev` when the disk holds `files`, or `None`
/// where the disk holds what `prev` recorded.
pub open spec fn created(
    message: Seq<char>,
    prev: GenerationView,
    files: Seq<FileView>,
    now: int,
) -> Option<GenerationView> {
    let snapshot = captured(files, prev.snapshot, now);
    if same_snapshot(snapshot, prev.snapshot) {
        None
    } else {
        Some(GenerationView { snapshot, epoch: now, message, applied: false })
    }
}

/// The first generation of a history, taken at `now` of `files`.
pub open spec fn first_generation(message: Seq<char>, files: Seq<FileView>, now: int)
    -> GenerationView {
    GenerationView {
        snapshot: captured(files, Seq::empty(), now),
        epoch: now,
        message,
        applied: false,
    }
}

/// What restoring a snapshot writes: each entry's content at its path.
pub open spec fn restored(snapshot: Seq<EntryView>) -> Seq<FileView> {
    Seq::new(
        snapshot.len(),
        |i: int| FileView { path: snapshot[i].file.path, content: snapshot[i].file.content },
    )
}

/// The failure of a commit that would record nothing new.
pub open spec fn is_no_changes(err: Error) -> bool {
    err.msg@ == ERR_NO_CHANGES_TO_COMMIT@ && err.code == GEN_ERROR
}

/// `captured` keeps the keys distinct.
pub proof fn lemma_captured_distinct(files: Seq<FileView>, prev: Seq<EntryView>, now: int)
    ensures
        crate::snapshot::distinct_keys(captured(files, prev, now)),
    decreases files.len(),
{
    if files.len() > 0 {
        lemma_captured_distinct(files.drop_last(), prev, now);
        lemma_lookup_put(
            captured(files.drop_last(), prev, now),
            manager_id(files.last().path),
            capture_one(files.last(), prev, now),
            manager_id(files.last().path),
        );
    }
}

/// The last of `files` that belongs to the manager `key`.
pub open spec fn last_for(files: Seq<FileView>, key: Seq<char>) -> Option<FileView>
    decreases files.len(),
{
    if files.len() == 0 {
        None
    } else if manager_id(files.last().path) == key {
        Some(files.last())
    } else {
        last_for(files.drop_last(), key)
    }
}

/// A snapshot records, for each manager, the last of its files, and
/// nothing for a manager without a file.
pub proof fn lemma_lookup_captured(
    files: Seq<FileView>,
    prev: Seq<EntryView>,
    now: int,
    key: Seq<char>,
)
    ensures
        lookup(captured(files, prev, now), key) == match last_for(files, key) {
            Some(file) => Some(capture_one(file, prev, now)),
            None => None,
        },
        last_for(files, key) matches Some(file) ==> manager_id(file.path) == key,
    decreases files.len(),
{
    if files.len() > 0 {
        let shorter = files.drop_last();
        lemma_lookup_captured(shorter, prev, now, key);
        lemma_captured_distinct(shorter, prev, now);
        lemma_lookup_put(
            captured(shorter, prev, now),
            manager_id(files.last().path),
            capture_one(files.last(), prev, now),
            key,
        );
    } else {
        assert(!has_key(Seq::<EntryView>::empty(), key));
    }
}

/// Whether the disk holds what `prev` recorded does not depend on the
/// moment of asking, nor on the message.
pub proof fn lemma_unchanged_whenever(
    message: Seq<char>,
    other_message: Seq<char>,
    prev: GenerationView,
    files: Seq<FileView>,
    now: int,
    later: int,
)
    ensures
        created(message, prev, files, now) is None <==> created(other_message, prev, files, later)
            is None,
{
    let one = captured(files, prev.snapshot, now);
    let two = captured(files, prev.snapshot, later);
    assert forall|key: Seq<char>|
        match (#[trigger] lookup(one, key), lookup(two, key)) {
            (Some(x), Some(y)) => same_file(x, y),
            (None, None) => true,
            _ => false,
        } by {
        lemma_lookup_captured(files, prev.snapshot, now, key);
        lemma_lookup_captured(files, prev.snapshot, later, key);
    }
    assert(same_snapshot(one, two));
    crate::snapshot::lemma_same_snapshot_symmetric(one, two);
    if same_snapshot(one, prev.snapshot) {
        crate::snapshot::lemma_same_snapshot_transitive(two, one, prev.snapshot);
    }
    if same_snapshot(two, prev.snapshot) {
        crate::snapshot::lemma_same_snapshot_transitive(one, two, prev.snapshot);
    }
}

/// Takes the snapshot of `files` at `now` after the snapshot `prev`.
fn capture(files: &Vec<DiskFile>, prev: &Snapshot, now: i64) -> (snapshot: Snapshot)
    requires
        prev.wf(),
    ensures
        snapshot.wf(),
        snapshot@ == captured(files_view(files@), prev@, now as int),
{
    let mut snapshot = Snapshot::new();
    let mut i: usize = 0;
    while i < files.len()
        invariant
            i <= files.len(),
            prev.wf(),
            snapshot.wf(),
            snapshot@ == captured(files_view(files@).take(i as int), prev@, now as int),
        decreases files.len() - i,
    {
        proof {
            let next = files_view(files@).take(i + 1);
            assert(next.drop_last() == files_view(files@).take(i as int));
            assert(next.last() == files@[i as int]@);
        }
        let file = &files[i];
        let key = manager_key(file.path.as_str());
        let fresh = match prev.get(key.as_str()) {
            Some(before) => if same_text(before.content.as_str(), file.content.as_str()) {
                before.clone()
            } else {
                ConfFile { content: file.content.clone(), path: file.path.clone(), epoch: now }
            },
            None => ConfFile { content: file.content.clone(), path: file.path.clone(), epoch: now },
        };
        snapshot.insert(key, fresh);
        i += 1;
    }
    proof {
        assert(files_view(files@).take(files.len() as int) == files_view(files@));
    }
    snapshot
}

impl ConfFile {
    /// The record of a file at `file` that holds `content`, first seen at `epoch`.
    pub fn new(file: &str, content: String, epoch: i64) -> (conf: Self)
        ensures
            conf@ == (ConfFileView { content: content@, path: file@, epoch: epoch as int }),
    {
        Self { content, path: String::from_str(file), epoch }
    }

    /// The record of a file at `file` that holds `content`, first seen now.
    pub fn from_contents(file: &str, content: String) -> (conf: Self)
        ensures
            conf@.content == content@,
            conf@.path == file@,
    {
        Self::new(file, content, epoch_time_secs())
    }
}

impl Generation {
    /// Its snapshot holds every key once.
    pub open spec fn wf(&self) -> bool {
        self.snapshot.wf()
    }

    /// A generation of `epoch` without files that has not been applied;
    /// without a message its message is empty.
    pub fn default_at(message: Option<String>, epoch: i64) -> (gen: Self)
        ensures
            gen.wf(),
            gen@ == (GenerationView {
                snapshot: Seq::empty(),
                epoch: epoch as int,
                message: match message {
                    Some(m) => m@,
                    None => Seq::empty(),
                },
                applied: false,
            }),
    {
        Self {
            snapshot: Snapshot::new(),
            epoch,
            message: match message {
                Some(m) => m,
                None => String::new(),
            },
            applied: false,
        }
    }

    /// A generation of this moment without files that has not been applied.
    pub fn default(message: Option<String>) -> (gen: Self)
        ensures
            gen.wf(),
            gen@ == (GenerationView {
                snapshot: Seq::empty(),
                epoch: gen@.epoch,
                message: match message {
                    Some(m) => m@,
                    None => Seq::empty(),
                },
                applied: false,
            }),
    {
        Self::default_at(message, epoch_time_secs())
    }

    /// The generation that follows `prev_gen` when the disk holds `files` at
    /// `now`. Fails where that would record nothing new.
    pub fn create_at(message: String, prev_gen: &Generation, files: &Vec<DiskFile>, now: i64) -> (gen:
        Result<Self, Error>)
        requires
            prev_gen.wf(),
        ensures
            match gen {
                Ok(g) => g.wf() && created(message@, prev_gen@, files_view(files@), now as int)
                    == Some(g@),
                Err(e) => is_no_changes(e) && created(
                    message@,
                    prev_gen@,
                    files_view(files@),
                    now as int,
                ) is None,
            },
    {
        let snapshot = capture(files, &prev_gen.snapshot, now);
        if snapshot.same_as(&prev_gen.snapshot) {
            Err(Error::new(ERR_NO_CHANGES_TO_COMMIT, GEN_ERROR))
        } else {
            Ok(Generation { snapshot, epoch: now, message, applied: false })
        }
    }

    /// The generation that follows `prev_gen` when the disk holds `files`
    /// now. Fails where that would record nothing new.
    pub fn create(message: String, prev_gen: &Generation, files: &Vec<DiskFile>) -> (gen: Result<
        Self,
        Error,
    >)
        requires
            prev_gen.wf(),
        ensures
            match gen {
                Ok(g) => g.wf() && created(message@, prev_gen@, files_view(files@), g@.epoch)
                    == Some(g@),
                Err(e) => is_no_changes(e) && forall|now: int|
                    created(message@, prev_gen@, files_view(files@), now) is None,
            },
    {
        let now = epoch_time_secs();
        proof {
            assert forall|at: int|
                created(message@, prev_gen@, files_view(files@), at) is None <==> created(
                    message@,
                    prev_gen@,
                    files_view(files@),
                    now as int,
                ) is None by {
                lemma_unchanged_whenever(
                    message@,
                    message@,
                    prev_gen@,
                    files_view(files@),
                    at,
                    now as int,
                );
            }
        }
        Self::create_at(message, prev_gen, files, now)
    }

    /// The first generation of a history, taken of `files` at `now`.
    pub fn genesis_at(message: String, files: &Vec<DiskFile>, now: i64) -> (gen: Self)
        ensures
            gen.wf(),
            gen@ == first_generation(message@, files_view(files@), now as int),
    {
        let none = Snapshot::new();
        let snapshot = capture(files, &none, now);
        Generation { snapshot, epoch: now, message, applied: false }
    }

    /// The first generation of a history, taken of `files` now.
    pub fn genesis(message: String, files: &Vec<DiskFile>) -> (gen: Self)
        ensures
            gen.wf(),
            gen@ == first_generation(message@, files_view(files@), gen@.epoch),
    {
        Self::genesis_at(message, files, epoch_time_secs())
    }

    /// The files to write in order to bring the configuration directory back
    /// to this generation, once every manager file in it has been deleted.
    pub fn restore(&self) -> (files: Vec<DiskFile>)
        ensures
            files_view(files@) == restored(self@.snapshot),
    {
        let entries = self.snapshot.entries();
        let mut files: Vec<DiskFile> = Vec::new();
        let mut i: usize = 0;
        while i < entries.len()
            invariant
                i <= entries.len(),
                files.len() == i,
                crate::snapshot::entries_view(entries@) == self@.snapshot,
                forall|j: int|
                    0 <= j < i ==> (#[trigger] files@[j])@ == (FileView {
                        path: entries@[j].file.path@,
                        content: entries@[j].file.content@,
                    }),
            decreases entries.len() - i,
        {
            let entry = &entries[i];
            files.push(DiskFile { path: entry.file.path.clone(), content: entry.file.content.clone() });
            i += 1;
        }
        proof {
            assert forall|j: int| 0 <= j < entries.len() implies self@.snapshot[j]
                == entries@[j]@ by {
                assert(crate::snapshot::entries_view(entries@)[j] == entries@[j]@);
            }
            assert(files_view(files@) =~= restored(self@.snapshot));
        }
        files
    }
}

} // verus!

use crate::diff::{
    defines_managers, diffs_between, reconciled_all, reconciliations_view, GenDiff, Reconciliation,
};
use crate::error::{Error, GEN_ERROR};
use crate::gen::{files_view, is_no_changes, restored, DiskFile, Generation, GenerationView};
use crate::globals::ERR_INVALID_GENID;
use crate::history::{
    ascending, baseline, column_width, committed, count_below, deduplicated, drop_slot, epoch_place,
    generations, has_id, highest_number, in_order, insert_by_epoch, is_invalid_id,
    lemma_count_below, lemma_count_below_splits, lemma_insert_by_epoch,
    lemma_nothing_to_commit_whenever, lemma_put_above, lemma_put_slot_highest,
    lemma_renumbered_in_order, lemma_sorted_by_epoch, listed, loaded, longest_message,
    marked_applied, numbered, place_of_id, put_slot, renumbered, rolled_back, seen, slot_of,
    sorted_by_epoch, valid, well_kept, HistoryView, ListingView, RecordView, SlotView,
};
use crate::sequence::lemma_first_taken;
use crate::snapshot::{distinct_keys, same_snapshot, Snapshot};
use crate::util::{epoch_time_secs, epoch_to_str, record_id, record_number};
use vstd::prelude::*;

verus! {

/// A generation under its number in the store.
#[derive(Debug)]
pub struct Slot {
    pub id: usize,
    pub gen: Generation,
}

impl View for Slot {
    type V = SlotView;

    open spec fn view(&self) -> SlotView {
        SlotView { id: self.id as int, gen: self.gen@ }
    }
}

/// The slots as their views, in order.
pub open spec fn slots_view(slots: Seq<Slot>) -> Seq<SlotView> {
    Seq::new(slots.len(), |i: int| slots[i]@)
}

/// A generation as it was found in storage, with the path of its record.
#[derive(Debug)]
pub struct GenRecord {
    pub path: String,
    pub gen: Generation,
}

impl View for GenRecord {
    type V = RecordView;

    open spec fn view(&self) -> RecordView {
        RecordView { path: self.path@, gen: self.gen@ }
    }
}

/// The records as their views, in order.
pub open spec fn records_view(records: Seq<GenRecord>) -> Seq<RecordView> {
    Seq::new(records.len(), |i: int| records[i]@)
}

/// One line of the list of generations.
#[derive(Debug)]
pub struct GenListing {
    pub id: usize,
    pub message: String,
    pub epoch: i64,
    /// The epoch as date and time of day, where there is a date for it.
    pub time: Option<String>,
    /// How wide the message column is, in every line the same.
    pub width: usize,
}

impl View for GenListing {
    type V = ListingView;

    open spec fn view(&self) -> ListingView {
        ListingView {
            id: self.id as int,
            message: self.message@,
            epoch: self.epoch as int,
            time: match self.time {
                Some(t) => Some(t@),
                None => None,
            },
            width: self.width as int,
        }
    }
}

/// The lines as their views, in order.
pub open spec fn listings_view(lines: Seq<GenListing>) -> Seq<ListingView> {
    Seq::new(lines.len(), |i: int| lines[i]@)
}

/// The history of generations, each under its number, and the number that
/// counts as the latest.
pub struct GenerationManager {
    gens: Vec<Slot>,
    latest_gen: usize,
}

impl View for GenerationManager {
    type V = HistoryView;

    closed spec fn view(&self) -> HistoryView {
        HistoryView { gens: slots_view(self.gens@), latest_gen: self.latest_gen as int }
    }
}

/// The generations as their views, in order.
pub open spec fn gens_view(gens: Seq<Generation>) -> Seq<GenerationView> {
    Seq::new(gens.len(), |i: int| gens[i]@)
}

/// Where a generation goes in `sorted`: behind every one that is not younger.
fn insert_place(sorted: &Vec<Generation>, gen: &Generation) -> (k: usize)
    ensures
        k <= sorted.len(),
        k == epoch_place(gens_view(sorted@), gen@),
        insert_by_epoch(gens_view(sorted@), gen@) == gens_view(sorted@).insert(k as int, gen@),
{
    let ghost before = gens_view(sorted@);
    let mut k: usize = sorted.len();
    assert(before.take(k as int) == before);
    while k > 0 && sorted[k - 1].epoch > gen.epoch
        invariant
            k <= sorted.len(),
            before == gens_view(sorted@),
            epoch_place(before, gen@) == epoch_place(before.take(k as int), gen@),
        decreases k,
    {
        assert(before.take(k as int).last() == sorted@[k - 1]@);
        assert(before.take(k as int).drop_last() == before.take(k - 1));
        k -= 1;
    }
    proof {
        if k > 0 {
            assert(before.take(k as int).last() == sorted@[k - 1]@);
        }
        lemma_insert_by_epoch(before, gen@);
    }
    k
}

/// Whether one of `kept` holds a snapshot equal to `snapshot`.
fn is_seen(kept: &Vec<Slot>, snapshot: &Snapshot) -> (found: bool)
    requires
        snapshot.wf(),
        forall|i: int| 0 <= i < kept.len() ==> (#[trigger] kept@[i]).gen.wf(),
    ensures
        found == seen(slots_view(kept@), snapshot@),
{
    let mut i: usize = 0;
    while i < kept.len()
        invariant
            i <= kept.len(),
            snapshot.wf(),
            forall|j: int| 0 <= j < kept.len() ==> (#[trigger] kept@[j]).gen.wf(),
            forall|j: int|
                0 <= j < i ==> !same_snapshot((#[trigger] slots_view(kept@)[j]).gen.snapshot, snapshot@),
        decreases kept.len() - i,
    {
        assert(kept@[i as int].gen.wf());
        if kept[i].gen.snapshot.same_as(snapshot) {
            assert(slots_view(kept@)[i as int] == kept@[i as int]@);
            return true;
        }
        assert(slots_view(kept@)[i as int] == kept@[i as int]@);
        i += 1;
    }
    false
}

impl GenerationManager {
    /// The numbers go up strictly, none is above the latest number, and
    /// every snapshot holds each key once.
    pub open spec fn wf(&self) -> bool {
        valid(self@)
    }

    /// A store without generations.
    pub fn new() -> (store: Self)
        ensures
            store.wf(),
            store@ == (HistoryView { gens: Seq::empty(), latest_gen: 0 }),
    {
        let store = GenerationManager { gens: Vec::new(), latest_gen: 0 };
        assert(store@.gens =~= Seq::<SlotView>::empty());
        store
    }

    /// How many generations the store holds.
    pub fn len(&self) -> (n: usize)
        ensures
            n == self@.gens.len(),
    {
        self.gens.len()
    }

    /// The number that counts as the latest generation's.
    pub fn latest_gen(&self) -> (id: usize)
        ensures
            id == self@.latest_gen,
    {
        self.latest_gen
    }

    /// The generations by ascending number.
    pub fn slots(&self) -> (slots: &Vec<Slot>)
        ensures
            slots_view(slots@) == self@.gens,
    {
        &self.gens
    }

    /// The first place whose number is not below `id`.
    fn place(&self, id: usize) -> (at: usize)
        requires
            well_kept(self@.gens),
        ensures
            at <= self@.gens.len(),
            at == count_below(self@.gens, id as int),
            has_id(self@.gens, id as int) <==> (at < self@.gens.len() && self@.gens[at as int].id
                == id),
            has_id(self@.gens, id as int) ==> place_of_id(self@.gens, id as int) == at,
    {
        let mut i: usize = 0;
        while i < self.gens.len() && self.gens[i].id < id
            invariant
                i <= self.gens.len(),
                forall|j: int| 0 <= j < i ==> (#[trigger] self@.gens[j]).id < id,
            decreases self.gens.len() - i,
        {
            assert(self@.gens[i as int] == self.gens@[i as int]@);
            i += 1;
        }
        proof {
            let gens = self@.gens;
            if i < gens.len() {
                assert(gens[i as int] == self.gens@[i as int]@);
            }
            assert forall|j: int| i <= j < gens.len() implies (#[trigger] gens[j]).id >= id by {
                if i < j {
                    assert(gens[i as int].id < gens[j].id);
                }
            }
            lemma_count_below(gens, id as int, i as int);
            if has_id(gens, id as int) {
                let p = place_of_id(gens, id as int);
                assert(gens[p].id == id);
                if p < i {
                    assert(gens[p].id < id);
                }
                if p > i {
                    assert(gens[i as int].id < gens[p].id);
                }
            }
        }
        i
    }

    /// The generation numbered `id`.
    pub fn get(&self, id: usize) -> (gen: Option<&Generation>)
        requires
            self.wf(),
        ensures
            gen is Some == slot_of(self@.gens, id as int) is Some,
            gen matches Some(g) ==> slot_of(self@.gens, id as int) == Some(g@) && g.wf(),
    {
        let at = self.place(id);
        if at < self.gens.len() && self.gens[at].id == id {
            assert(self@.gens[at as int] == self.gens@[at as int]@);
            Some(&self.gens[at].gen)
        } else {
            None
        }
    }

    /// Puts `gen` under the number `id`, in place of what was there.
    fn put(&mut self, id: usize, gen: Generation)
        requires
            well_kept(old(self)@.gens),
            gen.wf(),
        ensures
            well_kept(final(self)@.gens),
            final(self)@.gens == put_slot(old(self)@.gens, id as int, gen@),
            final(self)@.latest_gen == old(self)@.latest_gen,
    {
        let at = self.place(id);
        let ghost before = self@.gens;
        let ghost slot = SlotView { id: id as int, gen: gen@ };
        if at < self.gens.len() && self.gens[at].id == id {
            self.gens.set(at, Slot { id, gen });
            proof {
                let after = self@.gens;
                assert(after =~= before.update(at as int, slot));
                assert forall|i: int, j: int| 0 <= i < j < after.len() implies (
                #[trigger] after[i]).id < (#[trigger] after[j]).id by {
                    assert(before[i].id < before[j].id);
                }
                assert forall|i: int| 0 <= i < after.len() implies distinct_keys(
                    (#[trigger] after[i]).gen.snapshot,
                ) by {
                    if i != at {
                        assert(after[i] == before[i]);
                    }
                }
            }
        } else {
            self.gens.insert(at, Slot { id, gen });
            proof {
                let after = self@.gens;
                assert(after =~= before.insert(at as int, slot));
                lemma_count_below_splits(before, id as int);
                assert forall|i: int, j: int| 0 <= i < j < after.len() implies (
                #[trigger] after[i]).id < (#[trigger] after[j]).id by {
                    if i < at && j > at {
                        assert(before[i].id < before[j - 1].id);
                    } else if i < at && j < at {
                        assert(before[i].id < before[j].id);
                    } else if i > at {
                        assert(before[i - 1].id < before[j - 1].id);
                    } else if i == at {
                        assert(before[j - 1].id >= id);
                        assert(before[j - 1].id != id) by {
                            if before[j - 1].id == id {
                                assert(has_id(before, id as int));
                            }
                        }
                    } else {
                        assert(before[i].id < id);
                    }
                }
                assert forall|i: int| 0 <= i < after.len() implies distinct_keys(
                    (#[trigger] after[i]).gen.snapshot,
                ) by {
                    if i < at {
                        assert(after[i] == before[i]);
                    } else if i > at {
                        assert(after[i] == before[i - 1]);
                    }
                }
            }
        }
    }

    /// Takes the generation numbered `genid` out of the store. The other
    /// numbers stay as they are.
    pub fn remove(&mut self, genid: usize) -> (done: Result<(), Error>)
        requires
            old(self).wf(),
        ensures
            final(self).wf(),
            final(self)@.latest_gen == old(self)@.latest_gen,
            final(self)@.gens == drop_slot(old(self)@.gens, genid as int),
            done is Ok <==> slot_of(old(self)@.gens, genid as int) is Some,
            done matches Err(e) ==> is_invalid_id(e),
    {
        let at = self.place(genid);
        let ghost before = self@.gens;
        if at < self.gens.len() && self.gens[at].id == genid {
            self.gens.remove(at);
            proof {
                let after = self@.gens;
                assert(after =~= before.remove(at as int));
                assert forall|i: int, j: int| 0 <= i < j < after.len() implies (
                #[trigger] after[i]).id < (#[trigger] after[j]).id by {
                    let a = if i < at { i } else { i + 1 };
                    let b = if j < at { j } else { j + 1 };
                    assert(before[a].id < before[b].id);
                }
                assert forall|i: int| 0 <= i < after.len() implies distinct_keys(
                    (#[trigger] after[i]).gen.snapshot,
                ) by {
                    let a = if i < at { i } else { i + 1 };
                    assert(after[i] == before[a]);
                }
            }
            Ok(())
        } else {
            Err(Error::new(ERR_INVALID_GENID, GEN_ERROR))
        }
    }

    /// Sorts the generations by epoch, those of one epoch staying in the
    /// order of their numbers, and numbers them anew from 1. The last of
    /// them becomes the latest.
    pub fn renumber_gens(&mut self)
        requires
            old(self).wf(),
        ensures
            final(self).wf(),
            final(self)@.gens == renumbered(old(self)@.gens),
            final(self)@.latest_gen == old(self)@.gens.len(),
            in_order(final(self)@),
    {
        let ghost before = self@.gens;
        let mut rest: Vec<Slot> = Vec::new();
        std::mem::swap(&mut self.gens, &mut rest);
        let total = rest.len();
        let mut sorted: Vec<Generation> = Vec::new();
        let ghost mut done: int = 0;
        assert(generations(before).take(0) =~= Seq::<GenerationView>::empty());
        assert(gens_view(sorted@) =~= Seq::<GenerationView>::empty());
        while rest.len() > 0
            invariant
                done + rest.len() == before.len(),
                0 <= done,
                slots_view(rest@) == before.skip(done),
                gens_view(sorted@) == sorted_by_epoch(generations(before).take(done)),
                forall|i: int|
                    0 <= i < before.len() ==> distinct_keys((#[trigger] before[i]).gen.snapshot),
                forall|i: int| 0 <= i < sorted.len() ==> (#[trigger] sorted@[i]).wf(),
            decreases rest.len(),
        {
            let ghost left = slots_view(rest@);
            let ghost placed = sorted@;
            let slot = rest.remove(0);
            proof {
                lemma_first_taken(before, done, left, slots_view(rest@));
                let all = generations(before);
                lemma_first_taken(all, done, all.skip(done), all.skip(done + 1));
            }
            let k = insert_place(&sorted, &slot.gen);
            sorted.insert(k, slot.gen);
            proof {
                assert(gens_view(sorted@) =~= gens_view(placed).insert(k as int, slot@.gen));
                assert forall|i: int| 0 <= i < sorted.len() implies (#[trigger] sorted@[i]).wf() by {
                    if i < k {
                        assert(sorted@[i] == placed[i]);
                    } else if i > k {
                        assert(sorted@[i] == placed[i - 1]);
                    }
                }
                done = done + 1;
            }
        }
        proof {
            assert(generations(before).take(done) == generations(before));
            lemma_sorted_by_epoch(generations(before));
        }
        let ghost ordered = gens_view(sorted@);
        let ghost mut moved: int = 0;
        assert(self@.gens =~= numbered(ordered).take(0));
        while sorted.len() > 0
            invariant
                moved + sorted.len() == ordered.len(),
                0 <= moved,
                ordered.len() == total,
                gens_view(sorted@) == ordered.skip(moved),
                self.gens.len() == moved,
                self@.gens == numbered(ordered).take(moved),
                forall|i: int| 0 <= i < sorted.len() ==> (#[trigger] sorted@[i]).wf(),
                forall|i: int|
                    0 <= i < self@.gens.len() ==> distinct_keys(
                        (#[trigger] self@.gens[i]).gen.snapshot,
                    ),
            decreases sorted.len(),
        {
            let ghost waiting = sorted@;
            let ghost left = gens_view(sorted@);
            let ghost numbered_so_far = self@.gens;
            assert(sorted@[0].wf());
            let gen = sorted.remove(0);
            let id = self.gens.len() + 1;
            proof {
                lemma_first_taken(ordered, moved, left, gens_view(sorted@));
                assert forall|i: int| 0 <= i < sorted.len() implies (#[trigger] sorted@[i]).wf() by {
                    assert(sorted@[i] == waiting[i + 1]);
                }
            }
            self.gens.push(Slot { id, gen });
            proof {
                assert(self@.gens =~= numbered_so_far.push(SlotView { id: moved + 1, gen: gen@ }));
                assert(self@.gens =~= numbered(ordered).take(moved + 1));
                assert forall|i: int| 0 <= i < self@.gens.len() implies distinct_keys(
                    (#[trigger] self@.gens[i]).gen.snapshot,
                ) by {
                    if i < moved {
                        assert(self@.gens[i] == numbered_so_far[i]);
                    }
                }
                moved = moved + 1;
            }
        }
        self.latest_gen = self.gens.len();
        proof {
            assert(numbered(ordered).take(moved) == numbered(ordered));
            lemma_renumbered_in_order(before);
        }
    }

    /// Records the state of the disk, `files`, as a new generation of
    /// `now`, and renumbers. Fails, and leaves the store as it is, where the
    /// latest generation recorded the same state.
    pub fn commit_at(&mut self, message: String, files: &Vec<DiskFile>, now: i64) -> (done: Result<
        (),
        Error,
    >)
        requires
            old(self).wf(),
            old(self)@.latest_gen < usize::MAX,
        ensures
            final(self).wf(),
            match done {
                Ok(()) => committed(old(self)@, message@, files_view(files@), now as int) == Some(
                    final(self)@,
                ) && in_order(final(self)@) && final(self)@.gens.len() == old(self)@.gens.len()
                    + 1,
                Err(e) => is_no_changes(e) && final(self)@ == old(self)@ && committed(
                    old(self)@,
                    message@,
                    files_view(files@),
                    now as int,
                ) is None,
            },
    {
        let next = match self.get(self.latest_gen) {
            Some(latest) => match Generation::create_at(message, latest, files, now) {
                Ok(gen) => gen,
                Err(e) => {
                    return Err(e);
                },
            },
            None => Generation::genesis_at(message, files, now),
        };
        proof {
            crate::gen::lemma_captured_distinct(files_view(files@), Seq::empty(), now as int);
        }
        let ghost put = put_slot(self@.gens, self@.latest_gen + 1, next@);
        proof {
            lemma_put_above(self@, next@);
            lemma_renumbered_in_order(put);
        }
        self.latest_gen += 1;
        self.put(self.latest_gen, next);
        self.renumber_gens();
        Ok(())
    }

    /// Records the state of the disk, `files`, as a new generation of this
    /// moment. Fails, and leaves the store as it is, where the latest
    /// generation recorded the same state.
    pub fn commit(&mut self, message: String, files: &Vec<DiskFile>) -> (done: Result<(), Error>)
        requires
            old(self).wf(),
            old(self)@.latest_gen < usize::MAX,
        ensures
            final(self).wf(),
            match done {
                Ok(()) => in_order(final(self)@) && final(self)@.gens.len() == old(
                    self,
                )@.gens.len() + 1 && exists|now: i64|
                    committed(old(self)@, message@, files_view(files@), now as int) == Some(
                        final(self)@,
                    ),
                Err(e) => is_no_changes(e) && final(self)@ == old(self)@ && forall|now: int|
                    committed(old(self)@, message@, files_view(files@), now) is None,
            },
    {
        let now = epoch_time_secs();
        proof {
            lemma_nothing_to_commit_whenever(self@, message@, files_view(files@), now as int);
        }
        self.commit_at(message, files, now)
    }

    /// Commits, at `now`, what restoring the generation numbered `genid`
    /// leaves on disk, under that generation's message. Fails, and leaves
    /// the store as it is, where there is no such generation or where the
    /// latest generation recorded the same state.
    pub fn rollback_at(&mut self, genid: usize, now: i64) -> (done: Result<(), Error>)
        requires
            old(self).wf(),
            old(self)@.latest_gen < usize::MAX,
        ensures
            final(self).wf(),
            match done {
                Ok(()) => rolled_back(old(self)@, genid as int, now as int) == Some(final(self)@)
                    && in_order(final(self)@) && final(self)@.gens.len() == old(self)@.gens.len()
                    + 1,
                Err(e) => final(self)@ == old(self)@ && rolled_back(
                    old(self)@,
                    genid as int,
                    now as int,
                ) is None && if slot_of(old(self)@.gens, genid as int) is None {
                    is_invalid_id(e)
                } else {
                    is_no_changes(e)
                },
            },
    {
        let (message, files) = match self.get(genid) {
            Some(target) => (target.message.clone(), target.restore()),
            None => {
                return Err(Error::new(ERR_INVALID_GENID, GEN_ERROR));
            },
        };
        self.commit_at(message, &files, now)
    }

    /// Commits, at this moment, what restoring the generation numbered
    /// `genid` leaves on disk, under that generation's message.
    pub fn rollback(&mut self, genid: usize) -> (done: Result<(), Error>)
        requires
            old(self).wf(),
            old(self)@.latest_gen < usize::MAX,
        ensures
            final(self).wf(),
            match done {
                Ok(()) => in_order(final(self)@) && final(self)@.gens.len() == old(
                    self,
                )@.gens.len() + 1 && exists|now: i64|
                    rolled_back(old(self)@, genid as int, now as int) == Some(final(self)@),
                Err(e) => final(self)@ == old(self)@ && (forall|now: int|
                    rolled_back(old(self)@, genid as int, now) is None) && if slot_of(
                    old(self)@.gens,
                    genid as int,
                ) is None {
                    is_invalid_id(e)
                } else {
                    is_no_changes(e)
                },
            },
    {
        let now = epoch_time_secs();
        proof {
            match slot_of(self@.gens, genid as int) {
                Some(target) => {
                    lemma_nothing_to_commit_whenever(
                        self@,
                        target.message,
                        restored(target.snapshot),
                        now as int,
                    );
                },
                None => {},
            }
        }
        self.rollback_at(genid, now)
    }

    /// Renumbers and returns the records to write, one for each generation,
    /// by ascending number. They replace every record written before.
    pub fn save(&mut self) -> (records: Vec<Slot>)
        requires
            old(self).wf(),
        ensures
            final(self).wf(),
            final(self)@.gens == renumbered(old(self)@.gens),
            final(self)@.latest_gen == old(self)@.gens.len(),
            in_order(final(self)@),
            slots_view(records@) == final(self)@.gens,
    {
        self.renumber_gens();
        let mut records: Vec<Slot> = Vec::new();
        let mut i: usize = 0;
        while i < self.gens.len()
            invariant
                i <= self.gens.len(),
                records.len() == i,
                forall|j: int| 0 <= j < i ==> (#[trigger] records@[j])@ == self.gens@[j]@,
            decreases self.gens.len() - i,
        {
            records.push(Slot { id: self.gens[i].id, gen: self.gens[i].gen.clone() });
            i += 1;
        }
        assert(slots_view(records@) =~= self@.gens);
        records
    }

    /// Drops every generation whose snapshot equals that of a generation
    /// with a lower number, and renumbers.
    pub fn remove_duplicates(&mut self)
        requires
            old(self).wf(),
        ensures
            final(self).wf(),
            final(self)@.gens == renumbered(deduplicated(old(self)@.gens)),
            final(self)@.latest_gen == final(self)@.gens.len(),
            in_order(final(self)@),
    {
        let ghost before = self@.gens;
        let mut rest: Vec<Slot> = Vec::new();
        std::mem::swap(&mut self.gens, &mut rest);
        let ghost mut done: int = 0;
        assert(before.take(0) =~= Seq::<SlotView>::empty());
        assert(self@.gens =~= Seq::<SlotView>::empty());
        while rest.len() > 0
            invariant
                done + rest.len() == before.len(),
                0 <= done,
                ascending(before),
                forall|i: int|
                    0 <= i < before.len() ==> distinct_keys((#[trigger] before[i]).gen.snapshot),
                slots_view(rest@) == before.skip(done),
                self@.gens == deduplicated(before.take(done)),
                self@.latest_gen == old(self)@.latest_gen,
                forall|i: int| 0 <= i < self.gens.len() ==> (#[trigger] self.gens@[i]).gen.wf(),
                forall|i: int, j: int|
                    0 <= i < self@.gens.len() && done <= j < before.len() ==> (
                    #[trigger] self@.gens[i]).id < (#[trigger] before[j]).id,
                ascending(self@.gens),
            decreases rest.len(),
        {
            let ghost left = slots_view(rest@);
            let ghost kept = self@.gens;
            let slot = rest.remove(0);
            proof {
                lemma_first_taken(before, done, left, slots_view(rest@));
            }
            if !is_seen(&self.gens, &slot.gen.snapshot) {
                self.gens.push(slot);
                proof {
                    assert(self@.gens =~= kept.push(before[done]));
                    assert forall|i: int, j: int|
                        0 <= i < self@.gens.len() && done + 1 <= j < before.len() implies (
                    #[trigger] self@.gens[i]).id < (#[trigger] before[j]).id by {
                        if i < kept.len() {
                            assert(kept[i].id < before[j].id);
                        } else {
                            assert(before[done].id < before[j].id);
                        }
                    }
                    assert forall|i: int, j: int| 0 <= i < j < self@.gens.len() implies (
                    #[trigger] self@.gens[i]).id < (#[trigger] self@.gens[j]).id by {
                        if j < kept.len() {
                            assert(kept[i].id < kept[j].id);
                        } else {
                            assert(kept[i].id < before[done].id);
                        }
                    }
                }
            }
            proof {
                done = done + 1;
            }
        }
        proof {
            assert(before.take(done) == before);
            crate::laws::lemma_deduplicated_all_different(before);
            assert forall|i: int| 0 <= i < self@.gens.len() implies distinct_keys(
                (#[trigger] self@.gens[i]).gen.snapshot,
            ) && self@.gens[i].id <= self@.latest_gen by {
                assert(self.gens@[i].gen.wf());
                let from = choose|from: int|
                    0 <= from < before.len() && before[from] == self@.gens[i];
                assert(before[from].id <= old(self)@.latest_gen);
            }
        }
        self.renumber_gens();
    }

    /// The store that the records in storage make up. Their numbers may
    /// have gaps. The highest of them is the latest number, so that the
    /// next commit goes behind every generation read.
    pub fn read(records: Vec<GenRecord>) -> (store: Self)
        requires
            forall|i: int|
                0 <= i < records.len() ==> record_number((#[trigger] records@[i]).path@) is Some
                    && records@[i].gen.wf(),
        ensures
            store.wf(),
            store@.gens == loaded(records_view(records@)),
            store@.latest_gen == highest_number(store@.gens),
    {
        let ghost all = records_view(records@);
        let mut rest = records;
        let mut store = GenerationManager::new();
        let mut highest: usize = 0;
        let ghost mut done: int = 0;
        assert(all.take(0) =~= Seq::<RecordView>::empty());
        while rest.len() > 0
            invariant
                done + rest.len() == all.len(),
                0 <= done,
                records_view(rest@) == all.skip(done),
                forall|i: int|
                    0 <= i < rest.len() ==> record_number((#[trigger] rest@[i]).path@) is Some
                        && rest@[i].gen.wf(),
                well_kept(store@.gens),
                store@.gens == loaded(all.take(done)),
                highest == highest_number(store@.gens),
            decreases rest.len(),
        {
            let ghost waiting = rest@;
            let ghost left = records_view(rest@);
            assert(record_number(rest@[0].path@) is Some && rest@[0].gen.wf());
            let record = rest.remove(0);
            proof {
                lemma_first_taken(all, done, left, records_view(rest@));
                assert forall|i: int| 0 <= i < rest.len() implies record_number(
                    (#[trigger] rest@[i]).path@,
                ) is Some && rest@[i].gen.wf() by {
                    assert(rest@[i] == waiting[i + 1]);
                }
            }
            let GenRecord { path, gen } = record;
            let id = record_id(path.as_str()).unwrap();
            proof {
                assert forall|i: int| 0 <= i < store@.gens.len() implies 0 <= (
                #[trigger] store@.gens[i]).id by {
                    assert(store@.gens[i] == store.gens@[i]@);
                }
                lemma_put_slot_highest(store@.gens, id as int, gen@);
            }
            store.put(id, gen);
            if id > highest {
                highest = id;
            }
            proof {
                done = done + 1;
            }
        }
        proof {
            assert(all.take(done) == all);
            let gens = store@.gens;
            assert forall|i: int| 0 <= i < gens.len() implies (#[trigger] gens[i]).id
                <= highest by {
                if i < gens.len() - 1 {
                    assert(gens[i].id < gens[gens.len() - 1].id);
                }
            }
        }
        store.latest_gen = highest;
        store
    }

    /// The list of the generations: one line each, by ascending number.
    pub fn list_gens(&self) -> (lines: Vec<GenListing>)
        ensures
            listings_view(lines@) == listed(self@.gens),
    {
        let mut longest: usize = 0;
        let mut i: usize = 0;
        assert(self@.gens.take(0) =~= Seq::<SlotView>::empty());
        while i < self.gens.len()
            invariant
                i <= self.gens.len(),
                longest == longest_message(self@.gens.take(i as int)),
            decreases self.gens.len() - i,
        {
            proof {
                let next = self@.gens.take(i + 1);
                assert(next.drop_last() == self@.gens.take(i as int));
                assert(next.last() == self.gens@[i as int]@);
            }
            let this = self.gens[i].gen.message.as_str().as_bytes().len();
            if this > longest {
                longest = this;
            }
            i += 1;
        }
        assert(self@.gens.take(self.gens.len() as int) == self@.gens);
        let width: usize = if longest > usize::MAX - 5 {
            usize::MAX
        } else {
            longest + 5
        };
        let mut lines: Vec<GenListing> = Vec::new();
        let mut k: usize = 0;
        while k < self.gens.len()
            invariant
                k <= self.gens.len(),
                lines.len() == k,
                width == column_width(self@.gens),
                forall|j: int| 0 <= j < k ==> (#[trigger] lines@[j])@ == listed(self@.gens)[j],
            decreases self.gens.len() - k,
        {
            let slot = &self.gens[k];
            assert(self@.gens[k as int] == slot@);
            lines.push(
                GenListing {
                    id: slot.id,
                    message: slot.gen.message.clone(),
                    epoch: slot.gen.epoch,
                    time: epoch_to_str(slot.gen.epoch),
                    width,
                },
            );
            k += 1;
        }
        assert(listings_view(lines@) =~= listed(self@.gens));
        lines
    }

    /// Works out what has to be done to the system to bring it from the
    /// baseline to the latest generation, and marks the latest generation
    /// as applied. There must be a latest generation. Where it is applied
    /// already there is nothing to do. Where a file of either snapshot is
    /// no manager definition the answer is `None` and nothing is marked.
    pub fn apply_changes(&mut self, genid: Option<usize>) -> (plans: Option<Vec<Reconciliation>>)
        requires
            old(self).wf(),
            slot_of(old(self)@.gens, old(self)@.latest_gen) is Some,
        ensures
            final(self).wf(),
            ({
                let store = old(self)@;
                let current = slot_of(store.gens, store.latest_gen).unwrap();
                let base = baseline(store, genid);
                if current.applied {
                    final(self)@ == store && (plans matches Some(p) && p@.len() == 0)
                } else if defines_managers(base) && defines_managers(current.snapshot) {
                    &&& (plans matches Some(p) && reconciliations_view(p@) == reconciled_all(
                        diffs_between(base, current.snapshot),
                    ))
                    &&& final(self)@ == (HistoryView {
                        gens: marked_applied(store.gens, store.latest_gen),
                        ..store
                    })
                } else {
                    final(self)@ == store && plans is None
                }
            }),
    {
        let at = self.place(self.latest_gen);
        let ghost before = self@.gens;
        assert(before[at as int] == self.gens@[at as int]@);
        if self.gens[at].gen.applied {
            return Some(Vec::new());
        }
        let empty = Generation::default_at(None, 0);
        let plans = {
            let current = &self.gens[at].gen;
            let earlier: Option<&Generation> = match genid {
                Some(id) => self.get(id),
                None => if self.latest_gen > 0 {
                    self.get(self.latest_gen - 1)
                } else {
                    proof {
                        assert forall|i: int| 0 <= i < before.len() implies (#[trigger] before[i]).id
                            != -1 by {
                            assert(before[i] == self.gens@[i]@);
                        }
                    }
                    None
                },
            };
            let base: &Generation = match earlier {
                Some(gen) => gen,
                None => &empty,
            };
            assert(base@.snapshot == baseline(self@, genid));
            match GenDiff::try_from_gens(base, current) {
                Some(diffs) => GenDiff::apply_all(diffs),
                None => {
                    return None;
                },
            }
        };
        let mut slot = self.gens.remove(at);
        slot.gen.applied = true;
        self.gens.insert(at, slot);
        proof {
            let after = self@.gens;
            assert(after =~= marked_applied(before, self@.latest_gen));
            assert forall|i: int, j: int| 0 <= i < j < after.len() implies (#[trigger] after[i]).id < (
            #[trigger] after[j]).id by {
                assert(before[i].id < before[j].id);
            }
            assert forall|i: int| 0 <= i < after.len() implies distinct_keys(
                (#[trigger] after[i]).gen.snapshot,
            ) by {
                assert(distinct_keys(before[i].gen.snapshot));
            }
        }
        Some(plans)
    }
}

} // verus!

use crate::error::{Error, GEN_ERROR};
use crate::gen::{created, first_generation, restored, FileView, GenerationView};
use crate::globals::ERR_INVALID_GENID;
use crate::snapshot::{distinct_keys, same_snapshot, EntryView};
use crate::util::{chrono_format, record_number, TIME_FORMAT};
use vstd::prelude::*;

verus! {

pub struct SlotView {
    pub id: int,
    pub gen: GenerationView,
}

pub struct HistoryView {
    /// The generations by ascending number.
    pub gens: Seq<SlotView>,
    pub latest_gen: int,
}

/// The numbers go up strictly.
pub open spec fn ascending(gens: Seq<SlotView>) -> bool {
    forall|i: int, j: int| 0 <= i < j < gens.len() ==> (#[trigger] gens[i]).id < (#[trigger] gens[j]).id
}

/// Some generation is numbered `id`.
pub open spec fn has_id(gens: Seq<SlotView>, id: int) -> bool {
    exists|i: int| 0 <= i < gens.len() && (#[trigger] gens[i]).id == id
}

/// The place of the generation numbered `id`, where there is one.
pub open spec fn place_of_id(gens: Seq<SlotView>, id: int) -> int {
    choose|i: int| 0 <= i < gens.len() && (#[trigger] gens[i]).id == id
}

/// The generation numbered `id`.
pub open spec fn slot_of(gens: Seq<SlotView>, id: int) -> Option<GenerationView> {
    if has_id(gens, id) {
        Some(gens[place_of_id(gens, id)].gen)
    } else {
        None
    }
}

/// How many generations have a number below `id`.
pub open spec fn count_below(gens: Seq<SlotView>, id: int) -> int
    decreases gens.len(),
{
    if gens.len() == 0 {
        0
    } else if gens.last().id < id {
        gens.len() as int
    } else {
        count_below(gens.drop_last(), id)
    }
}

/// The generations with `gen` under the number `id`: in place of the one
/// that had the number, or between its neighbours by number.
pub open spec fn put_slot(gens: Seq<SlotView>, id: int, gen: GenerationView) -> Seq<SlotView> {
    if has_id(gens, id) {
        gens.update(place_of_id(gens, id), SlotView { id, gen })
    } else {
        gens.insert(count_below(gens, id), SlotView { id, gen })
    }
}

/// The generations without the one numbered `id`.
pub open spec fn drop_slot(gens: Seq<SlotView>, id: int) -> Seq<SlotView> {
    if has_id(gens, id) {
        gens.remove(place_of_id(gens, id))
    } else {
        gens
    }
}

/// The generations without their numbers, in order.
pub open spec fn generations(gens: Seq<SlotView>) -> Seq<GenerationView> {
    Seq::new(gens.len(), |i: int| gens[i].gen)
}

/// `gen` put into `sorted` behind every generation that is not younger.
pub open spec fn insert_by_epoch(sorted: Seq<GenerationView>, gen: GenerationView) -> Seq<
    GenerationView,
>
    decreases sorted.len(),
{
    if sorted.len() == 0 {
        seq![gen]
    } else if sorted.last().epoch <= gen.epoch {
        sorted.push(gen)
    } else {
        insert_by_epoch(sorted.drop_last(), gen).push(sorted.last())
    }
}

/// The generations by ascending epoch; those of one epoch stay in the
/// order they had.
pub open spec fn sorted_by_epoch(gens: Seq<GenerationView>) -> Seq<GenerationView>
    decreases gens.len(),
{
    if gens.len() == 0 {
        Seq::empty()
    } else {
        insert_by_epoch(sorted_by_epoch(gens.drop_last()), gens.last())
    }
}

/// The generations numbered from 1 in the order given.
pub open spec fn numbered(gens: Seq<GenerationView>) -> Seq<SlotView> {
    Seq::new(gens.len(), |i: int| SlotView { id: i + 1, gen: gens[i] })
}

/// The generations sorted by epoch and numbered anew from 1.
pub open spec fn renumbered(gens: Seq<SlotView>) -> Seq<SlotView> {
    numbered(sorted_by_epoch(generations(gens)))
}

/// The numbers are 1, 2, 3 and so on without a gap.
pub open spec fn dense(gens: Seq<SlotView>) -> bool {
    forall|i: int| 0 <= i < gens.len() ==> (#[trigger] gens[i]).id == i + 1
}

/// No generation is older than one before it.
pub open spec fn by_epoch(gens: Seq<GenerationView>) -> bool {
    forall|i: int, j: int|
        0 <= i < j < gens.len() ==> (#[trigger] gens[i]).epoch <= (#[trigger] gens[j]).epoch
}

/// The store is in order: numbers 1 to N without a gap, by ascending
/// epoch, and the latest generation is number N.
pub open spec fn in_order(store: HistoryView) -> bool {
    dense(store.gens) && by_epoch(generations(store.gens)) && store.latest_gen == store.gens.len()
}

/// The numbers go up strictly, and every snapshot holds each key once.
pub open spec fn well_kept(gens: Seq<SlotView>) -> bool {
    ascending(gens) && forall|i: int|
        0 <= i < gens.len() ==> distinct_keys((#[trigger] gens[i]).gen.snapshot)
}

/// What every store keeps: numbers that go up strictly, none of them
/// above the latest number, and snapshots that hold each key once.
pub open spec fn valid(store: HistoryView) -> bool {
    well_kept(store.gens) && forall|i: int|
        0 <= i < store.gens.len() ==> (#[trigger] store.gens[i]).id <= store.latest_gen
}

/// The highest number of the store, 0 without generations.
pub open spec fn highest_number(gens: Seq<SlotView>) -> int {
    if gens.len() == 0 {
        0
    } else {
        gens.last().id
    }
}

/// A generation put under the number after the latest goes behind all
/// others and replaces none. The store stays valid with that number as
/// the latest.
pub proof fn lemma_put_above(store: HistoryView, gen: GenerationView)
    requires
        valid(store),
        distinct_keys(gen.snapshot),
    ensures
        put_slot(store.gens, store.latest_gen + 1, gen) == store.gens.push(
            SlotView { id: store.latest_gen + 1, gen },
        ),
        valid(
            HistoryView {
                gens: put_slot(store.gens, store.latest_gen + 1, gen),
                latest_gen: store.latest_gen + 1,
            },
        ),
{
    let gens = store.gens;
    let number = store.latest_gen + 1;
    let slot = SlotView { id: number, gen };
    assert(!has_id(gens, number)) by {
        if has_id(gens, number) {
            assert(gens[place_of_id(gens, number)].id <= store.latest_gen);
        }
    }
    assert forall|j: int| 0 <= j < gens.len() implies (#[trigger] gens[j]).id < number by {
        assert(gens[j].id <= store.latest_gen);
    }
    lemma_count_below(gens, number, gens.len() as int);
    let after = gens.push(slot);
    assert(put_slot(gens, number, gen) =~= after);
    assert forall|i: int, j: int| 0 <= i < j < after.len() implies (#[trigger] after[i]).id < (
    #[trigger] after[j]).id by {
        if j < gens.len() {
            assert(gens[i].id < gens[j].id);
        } else {
            assert(gens[i].id <= store.latest_gen);
        }
    }
    assert forall|i: int| 0 <= i < after.len() implies distinct_keys(
        (#[trigger] after[i]).gen.snapshot,
    ) && after[i].id <= number by {
        if i < gens.len() {
            assert(after[i] == gens[i]);
            assert(gens[i].id <= store.latest_gen);
        }
    }
}

/// Putting a generation under a number leaves the highest number as it
/// was, unless the new number is higher.
pub proof fn lemma_put_slot_highest(gens: Seq<SlotView>, id: int, gen: GenerationView)
    requires
        ascending(gens),
        0 <= id,
        forall|i: int| 0 <= i < gens.len() ==> 0 <= (#[trigger] gens[i]).id,
    ensures
        highest_number(put_slot(gens, id, gen)) == if id > highest_number(gens) {
            id
        } else {
            highest_number(gens)
        },
{
    let after = put_slot(gens, id, gen);
    lemma_count_below_splits(gens, id);
    let k = count_below(gens, id);
    if has_id(gens, id) {
        let at = place_of_id(gens, id);
        if at < gens.len() - 1 {
            assert(gens[at].id < gens[gens.len() - 1].id);
        }
    } else if gens.len() > 0 {
        if k == gens.len() {
            assert(gens[gens.len() - 1].id < id);
        } else {
            assert(gens[gens.len() - 1].id >= id);
            assert(after.last() == gens[gens.len() - 1]);
        }
    }
}

/// Where `insert_by_epoch` puts a generation.
pub open spec fn epoch_place(sorted: Seq<GenerationView>, gen: GenerationView) -> int
    decreases sorted.len(),
{
    if sorted.len() == 0 {
        0
    } else if sorted.last().epoch <= gen.epoch {
        sorted.len() as int
    } else {
        epoch_place(sorted.drop_last(), gen)
    }
}

/// `insert_by_epoch` inserts at `epoch_place`, which lies behind every
/// generation that is not younger and, in a sorted sequence, before every
/// younger one. Sorted stays sorted.
pub proof fn lemma_insert_by_epoch(sorted: Seq<GenerationView>, gen: GenerationView)
    ensures
        0 <= epoch_place(sorted, gen) <= sorted.len(),
        insert_by_epoch(sorted, gen) == sorted.insert(epoch_place(sorted, gen), gen),
        forall|j: int|
            epoch_place(sorted, gen) <= j < sorted.len() ==> (#[trigger] sorted[j]).epoch
                > gen.epoch,
        by_epoch(sorted) ==> by_epoch(insert_by_epoch(sorted, gen)) && forall|j: int|
            0 <= j < epoch_place(sorted, gen) ==> (#[trigger] sorted[j]).epoch <= gen.epoch,
    decreases sorted.len(),
{
    let k = epoch_place(sorted, gen);
    if sorted.len() == 0 {
        assert(seq![gen] =~= sorted.insert(0, gen));
    } else if sorted.last().epoch <= gen.epoch {
        assert(sorted.push(gen) =~= sorted.insert(sorted.len() as int, gen));
        if by_epoch(sorted) {
            assert forall|j: int| 0 <= j < k implies (#[trigger] sorted[j]).epoch <= gen.epoch by {
                if j < sorted.len() - 1 {
                    assert(sorted[j].epoch <= sorted[sorted.len() - 1].epoch);
                }
            }
        }
    } else {
        let shorter = sorted.drop_last();
        lemma_insert_by_epoch(shorter, gen);
        assert(shorter.insert(k, gen).push(sorted.last()) =~= sorted.insert(k, gen));
        assert forall|j: int| k <= j < sorted.len() implies (#[trigger] sorted[j]).epoch
            > gen.epoch by {
            if j < shorter.len() {
                assert(shorter[j] == sorted[j]);
            }
        }
        if by_epoch(sorted) {
            assert(by_epoch(shorter)) by {
                assert forall|i: int, j: int| 0 <= i < j < shorter.len() implies (
                #[trigger] shorter[i]).epoch <= (#[trigger] shorter[j]).epoch by {
                    assert(sorted[i].epoch <= sorted[j].epoch);
                }
            }
            assert forall|j: int| 0 <= j < k implies (#[trigger] sorted[j]).epoch <= gen.epoch by {
                assert(shorter[j] == sorted[j]);
            }
        }
    }
    if by_epoch(sorted) {
        let longer = sorted.insert(k, gen);
        assert forall|i: int, j: int| 0 <= i < j < longer.len() implies (#[trigger] longer[i]).epoch
            <= (#[trigger] longer[j]).epoch by {
            if i < k && j > k {
                assert(sorted[i].epoch <= sorted[j - 1].epoch);
            } else if i < k && j < k {
                assert(sorted[i].epoch <= sorted[j].epoch);
            } else if i > k {
                assert(sorted[i - 1].epoch <= sorted[j - 1].epoch);
            } else if i == k {
                assert(sorted[j - 1].epoch > gen.epoch);
            } else {
                assert(sorted[i].epoch <= gen.epoch);
            }
        }
    }
}

/// Sorting keeps the number of generations and yields them by ascending epoch.
pub proof fn lemma_sorted_by_epoch(gens: Seq<GenerationView>)
    ensures
        sorted_by_epoch(gens).len() == gens.len(),
        by_epoch(sorted_by_epoch(gens)),
    decreases gens.len(),
{
    if gens.len() > 0 {
        lemma_sorted_by_epoch(gens.drop_last());
        lemma_insert_by_epoch(sorted_by_epoch(gens.drop_last()), gens.last());
    }
}

/// After renumbering the store is in order, whatever it held.
pub proof fn lemma_renumbered_in_order(gens: Seq<SlotView>)
    ensures
        in_order(HistoryView { gens: renumbered(gens), latest_gen: renumbered(gens).len() as int }),
        renumbered(gens).len() == gens.len(),
        ascending(renumbered(gens)),
{
    lemma_sorted_by_epoch(generations(gens));
    assert(generations(renumbered(gens)) =~= sorted_by_epoch(generations(gens)));
}

/// In ascending numbers, the place before which all numbers are below
/// `id` is `count_below`.
pub proof fn lemma_count_below(gens: Seq<SlotView>, id: int, k: int)
    requires
        0 <= k <= gens.len(),
        forall|j: int| 0 <= j < k ==> (#[trigger] gens[j]).id < id,
        forall|j: int| k <= j < gens.len() ==> (#[trigger] gens[j]).id >= id,
    ensures
        count_below(gens, id) == k,
    decreases gens.len(),
{
    if gens.len() > 0 {
        if gens.last().id < id {
            if k < gens.len() {
                assert(gens[gens.len() - 1].id >= id);
            }
        } else {
            if k == gens.len() {
                assert(gens[gens.len() - 1].id < id);
            }
            let shorter = gens.drop_last();
            assert forall|j: int| 0 <= j < k implies (#[trigger] shorter[j]).id < id by {
                assert(shorter[j] == gens[j]);
            }
            assert forall|j: int| k <= j < shorter.len() implies (#[trigger] shorter[j]).id
                >= id by {
                assert(shorter[j] == gens[j]);
            }
            lemma_count_below(shorter, id, k);
        }
    }
}

/// In ascending numbers, the generation under the number of a slot is
/// that slot's.
pub proof fn lemma_slot_of_place(gens: Seq<SlotView>, i: int)
    requires
        ascending(gens),
        0 <= i < gens.len(),
    ensures
        has_id(gens, gens[i].id),
        place_of_id(gens, gens[i].id) == i,
        slot_of(gens, gens[i].id) == Some(gens[i].gen),
{
    let id = gens[i].id;
    assert(has_id(gens, id));
    let j = place_of_id(gens, id);
    if i < j {
        assert(gens[i].id < gens[j].id);
    } else if j < i {
        assert(gens[j].id < gens[i].id);
    }
}

/// The failure of an operation on a generation that is not there.
pub open spec fn is_invalid_id(err: Error) -> bool {
    err.msg@ == ERR_INVALID_GENID@ && err.code == GEN_ERROR
}

/// The store after a commit at `now` while the disk holds `files`: the
/// generation that follows the latest one (the first generation where no
/// generation has the latest number) goes under the number after the
/// latest, and the store is renumbered. `None` where the disk holds what
/// the latest generation recorded.
pub open spec fn committed(store: HistoryView, message: Seq<char>, files: Seq<FileView>, now: int)
    -> Option<HistoryView> {
    let next = match slot_of(store.gens, store.latest_gen) {
        Some(latest) => created(message, latest, files, now),
        None => Some(first_generation(message, files, now)),
    };
    match next {
        Some(gen) => {
            let gens = renumbered(put_slot(store.gens, store.latest_gen + 1, gen));
            Some(HistoryView { gens, latest_gen: gens.len() as int })
        },
        None => None,
    }
}

/// The store after a rollback to the generation numbered `id` at `now`:
/// the commit of what restoring that generation leaves on disk, under that
/// generation's message. `None` where there is no such generation, or
/// where the latest generation recorded the same.
pub open spec fn rolled_back(store: HistoryView, id: int, now: int) -> Option<HistoryView> {
    match slot_of(store.gens, id) {
        Some(target) => committed(store, target.message, restored(target.snapshot), now),
        None => None,
    }
}

/// Whether there is anything to commit does not depend on the moment.
pub proof fn lemma_nothing_to_commit_whenever(
    store: HistoryView,
    message: Seq<char>,
    files: Seq<FileView>,
    now: int,
)
    ensures
        committed(store, message, files, now) is None ==> forall|later: int|
            committed(store, message, files, later) is None,
{
    if committed(store, message, files, now) is None {
        let latest = slot_of(store.gens, store.latest_gen).unwrap();
        assert forall|later: int| committed(store, message, files, later) is None by {
            crate::gen::lemma_unchanged_whenever(message, message, latest, files, now, later);
        }
    }
}

/// One of `kept` holds a snapshot equal to `snapshot`.
pub open spec fn seen(kept: Seq<SlotView>, snapshot: Seq<EntryView>) -> bool {
    exists|i: int| 0 <= i < kept.len() && same_snapshot((#[trigger] kept[i]).gen.snapshot, snapshot)
}

/// Of the generations whose snapshots are equal, only the one with the
/// lowest number; the others as they were.
pub open spec fn deduplicated(gens: Seq<SlotView>) -> Seq<SlotView>
    decreases gens.len(),
{
    if gens.len() == 0 {
        Seq::empty()
    } else {
        let kept = deduplicated(gens.drop_last());
        if seen(kept, gens.last().gen.snapshot) {
            kept
        } else {
            kept.push(gens.last())
        }
    }
}

pub struct RecordView {
    pub path: Seq<char>,
    pub gen: GenerationView,
}

/// The generations that the records hold, each under the number that its
/// path gives. Of two records with one number the later one stays.
pub open spec fn loaded(records: Seq<RecordView>) -> Seq<SlotView>
    decreases records.len(),
{
    if records.len() == 0 {
        Seq::empty()
    } else {
        put_slot(
            loaded(records.drop_last()),
            record_number(records.last().path).unwrap(),
            records.last().gen,
        )
    }
}

pub struct ListingView {
    pub id: int,
    pub message: Seq<char>,
    pub epoch: int,
    pub time: Option<Seq<char>>,
    pub width: int,
}

/// The length of a text in bytes of UTF-8.
pub open spec fn byte_len(text: Seq<char>) -> nat {
    vstd::utf8::encode_utf8(text).len()
}

/// The byte length of the longest message, 0 without generations.
pub open spec fn longest_message(gens: Seq<SlotView>) -> nat
    decreases gens.len(),
{
    if gens.len() == 0 {
        0
    } else {
        let before = longest_message(gens.drop_last());
        let this = byte_len(gens.last().gen.message);
        if this > before {
            this
        } else {
            before
        }
    }
}

/// The message column is five wider than the longest message, as far as
/// the machine can count.
pub open spec fn column_width(gens: Seq<SlotView>) -> int {
    if longest_message(gens) + 5 > usize::MAX {
        usize::MAX as int
    } else {
        (longest_message(gens) + 5) as int
    }
}

/// The list of the generations: one line each, by ascending number.
pub open spec fn listed(gens: Seq<SlotView>) -> Seq<ListingView> {
    Seq::new(
        gens.len(),
        |i: int|
            ListingView {
                id: gens[i].id,
                message: gens[i].gen.message,
                epoch: gens[i].gen.epoch,
                time: chrono_format(gens[i].gen.epoch, TIME_FORMAT@),
                width: column_width(gens),
            },
    )
}

/// The snapshot to compare the latest generation with: that of the
/// generation numbered `genid`, or of the one before the latest where no
/// number is given; empty where there is no such generation.
pub open spec fn baseline(store: HistoryView, genid: Option<usize>) -> Seq<EntryView> {
    let id = match genid {
        Some(id) => id as int,
        None => store.latest_gen - 1,
    };
    match slot_of(store.gens, id) {
        Some(gen) => gen.snapshot,
        None => Seq::empty(),
    }
}

/// The generations with the one numbered `id` marked as applied.
pub open spec fn marked_applied(gens: Seq<SlotView>, id: int) -> Seq<SlotView> {
    let at = place_of_id(gens, id);
    gens.update(at, SlotView { id, gen: GenerationView { applied: true, ..gens[at].gen } })
}

/// In ascending numbers, every number before `count_below` is below `id`
/// and every number from there on is not.
pub proof fn lemma_count_below_splits(gens: Seq<SlotView>, id: int)
    requires
        ascending(gens),
    ensures
        0 <= count_below(gens, id) <= gens.len(),
        forall|j: int| 0 <= j < count_below(gens, id) ==> (#[trigger] gens[j]).id < id,
        forall|j: int| count_below(gens, id) <= j < gens.len() ==> (#[trigger] gens[j]).id >= id,
    decreases gens.len(),
{
    if gens.len() > 0 {
        if gens.last().id < id {
            assert forall|j: int| 0 <= j < gens.len() implies (#[trigger] gens[j]).id < id by {
                if j < gens.len() - 1 {
                    assert(gens[j].id < gens[gens.len() - 1].id);
                }
            }
        } else {
            let shorter = gens.drop_last();
            assert(ascending(shorter)) by {
                assert forall|i: int, j: int| 0 <= i < j < shorter.len() implies (
                #[trigger] shorter[i]).id < (#[trigger] shorter[j]).id by {
                    assert(gens[i].id < gens[j].id);
                }
            }
            lemma_count_below_splits(shorter, id);
            assert forall|j: int| 0 <= j < count_below(gens, id) implies (#[trigger] gens[j]).id
                < id by {
                assert(shorter[j] == gens[j]);
            }
            assert forall|j: int| count_below(gens, id) <= j < gens.len() implies (
            #[trigger] gens[j]).id >= id by {
                if j < shorter.len() {
                    assert(shorter[j] == gens[j]);
                }
            }
        }
    }
}

} // verus!

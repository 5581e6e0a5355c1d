use crate::gen::{
    captured, created, first_generation, last_for, lemma_captured_distinct, lemma_lookup_captured,
    restored, FileView, GenerationView,
};
use crate::history::{
    ascending, by_epoch, committed, deduplicated, dense, drop_slot, epoch_place, generations,
    has_id, in_order, lemma_insert_by_epoch, lemma_put_above, lemma_renumbered_in_order,
    lemma_slot_of_place, lemma_sorted_by_epoch, listed, numbered, place_of_id, put_slot, renumbered,
    rolled_back, seen, slot_of, sorted_by_epoch, valid, HistoryView, SlotView,
};
use crate::snapshot::{
    distinct_keys, lemma_lookup_entry, lookup, same_file, same_snapshot, EntryView,
};
use crate::util::manager_id;
use vstd::prelude::*;

verus! {

/// Taking a snapshot of the same files again, after a snapshot that was
/// taken of them, records the same.
pub proof fn lemma_capture_again(files: Seq<FileView>, prev: Seq<EntryView>, first: int, second: int)
    ensures
        same_snapshot(
            captured(files, captured(files, prev, first), second),
            captured(files, prev, first),
        ),
{
    let once = captured(files, prev, first);
    let twice = captured(files, once, second);
    assert forall|key: Seq<char>|
        match (#[trigger] lookup(twice, key), lookup(once, key)) {
            (Some(x), Some(y)) => same_file(x, y),
            (None, None) => true,
            _ => false,
        } by {
        lemma_lookup_captured(files, prev, first, key);
        lemma_lookup_captured(files, once, second, key);
    }
}

/// Generations that are by ascending epoch already stay as they are when sorted.
pub proof fn lemma_sorted_stays(gens: Seq<GenerationView>)
    requires
        by_epoch(gens),
    ensures
        sorted_by_epoch(gens) == gens,
    decreases gens.len(),
{
    if gens.len() > 0 {
        let shorter = gens.drop_last();
        assert(by_epoch(shorter)) by {
            assert forall|i: int, j: int| 0 <= i < j < shorter.len() implies (
            #[trigger] shorter[i]).epoch <= (#[trigger] shorter[j]).epoch by {
                assert(gens[i].epoch <= gens[j].epoch);
            }
        }
        lemma_sorted_stays(shorter);
        if shorter.len() > 0 {
            assert(gens[shorter.len() - 1].epoch <= gens[gens.len() - 1].epoch);
            assert(shorter.last() == gens[shorter.len() - 1]);
        }
        assert(shorter.push(gens.last()) =~= gens);
    } else {
        assert(sorted_by_epoch(gens) =~= gens);
    }
}

/// A store in order stays as it is when renumbered.
pub proof fn lemma_renumber_idempotent(gens: Seq<SlotView>)
    requires
        dense(gens),
        by_epoch(generations(gens)),
    ensures
        renumbered(gens) == gens,
{
    lemma_sorted_stays(generations(gens));
    assert(numbered(generations(gens)) =~= gens);
}

/// Renumbering twice gives what renumbering once gives.
pub proof fn lemma_renumber_twice(gens: Seq<SlotView>)
    ensures
        renumbered(renumbered(gens)) == renumbered(gens),
{
    lemma_renumbered_in_order(gens);
    lemma_renumber_idempotent(renumbered(gens));
}

/// Every generation is still there after sorting.
pub proof fn lemma_sorted_keeps(gens: Seq<GenerationView>, i: int) -> (j: int)
    requires
        0 <= i < gens.len(),
    ensures
        0 <= j < sorted_by_epoch(gens).len(),
        sorted_by_epoch(gens)[j] == gens[i],
    decreases gens.len(),
{
    let shorter = gens.drop_last();
    let sorted = sorted_by_epoch(shorter);
    lemma_sorted_by_epoch(shorter);
    lemma_sorted_by_epoch(gens);
    lemma_insert_by_epoch(sorted, gens.last());
    let k = epoch_place(sorted, gens.last());
    if i == gens.len() - 1 {
        k
    } else {
        let at = lemma_sorted_keeps(shorter, i);
        if at < k {
            at
        } else {
            at + 1
        }
    }
}

/// Every generation after sorting was there before.
pub proof fn lemma_sorted_came_from(gens: Seq<GenerationView>, j: int) -> (i: int)
    requires
        0 <= j < sorted_by_epoch(gens).len(),
    ensures
        0 <= i < gens.len(),
        sorted_by_epoch(gens)[j] == gens[i],
    decreases gens.len(),
{
    lemma_sorted_by_epoch(gens);
    let shorter = gens.drop_last();
    let sorted = sorted_by_epoch(shorter);
    lemma_sorted_by_epoch(shorter);
    lemma_insert_by_epoch(sorted, gens.last());
    let k = epoch_place(sorted, gens.last());
    if j == k {
        gens.len() - 1
    } else if j < k {
        lemma_sorted_came_from(shorter, j)
    } else {
        lemma_sorted_came_from(shorter, j - 1)
    }
}

/// Taking a generation out of a store in order leaves a gap in the
/// numbers; renumbering closes it. The store is then in order again and
/// holds the other generations as they followed each other.
pub proof fn lemma_remove_then_renumber(store: HistoryView, id: int)
    requires
        valid(store),
        in_order(store),
        has_id(store.gens, id),
    ensures
        1 <= id <= store.gens.len(),
        generations(renumbered(drop_slot(store.gens, id))) == generations(store.gens).remove(id - 1),
        in_order(
            HistoryView {
                gens: renumbered(drop_slot(store.gens, id)),
                latest_gen: store.gens.len() - 1,
            },
        ),
{
    let gens = store.gens;
    let at = place_of_id(gens, id);
    assert(gens[at].id == at + 1);
    let left = drop_slot(gens, id);
    let all = generations(gens);
    assert(generations(left) =~= all.remove(at));
    let rest = all.remove(at);
    assert(by_epoch(rest)) by {
        assert forall|i: int, j: int| 0 <= i < j < rest.len() implies (#[trigger] rest[i]).epoch <= (
        #[trigger] rest[j]).epoch by {
            let a = if i < at { i } else { i + 1 };
            let b = if j < at { j } else { j + 1 };
            assert(all[a].epoch <= all[b].epoch);
        }
    }
    lemma_sorted_stays(rest);
    lemma_renumbered_in_order(left);
    assert(generations(renumbered(left)) =~= rest);
}

/// No two of the generations hold equal snapshots.
pub open spec fn all_different(gens: Seq<GenerationView>) -> bool {
    forall|i: int, j: int|
        0 <= i < gens.len() && 0 <= j < gens.len() && i != j ==> !same_snapshot(
            (#[trigger] gens[i]).snapshot,
            (#[trigger] gens[j]).snapshot,
        )
}

/// Sorting generations that all differ gives generations that all differ.
pub proof fn lemma_sorted_all_different(gens: Seq<GenerationView>)
    requires
        all_different(gens),
    ensures
        all_different(sorted_by_epoch(gens)),
    decreases gens.len(),
{
    if gens.len() > 0 {
        let shorter = gens.drop_last();
        let last = gens.last();
        assert(all_different(shorter)) by {
            assert forall|i: int, j: int|
                0 <= i < shorter.len() && 0 <= j < shorter.len() && i != j implies !same_snapshot(
                (#[trigger] shorter[i]).snapshot,
                (#[trigger] shorter[j]).snapshot,
            ) by {
                assert(shorter[i] == gens[i] && shorter[j] == gens[j]);
            }
        }
        lemma_sorted_all_different(shorter);
        let sorted = sorted_by_epoch(shorter);
        lemma_insert_by_epoch(sorted, last);
        let k = epoch_place(sorted, last);
        let longer = sorted.insert(k, last);
        assert forall|i: int, j: int|
            0 <= i < longer.len() && 0 <= j < longer.len() && i != j implies !same_snapshot(
            (#[trigger] longer[i]).snapshot,
            (#[trigger] longer[j]).snapshot,
        ) by {
            let a = if i < k { i } else { i - 1 };
            let b = if j < k { j } else { j - 1 };
            if i == k {
                let from = lemma_sorted_came_from(shorter, b);
                assert(longer[j] == sorted[b]);
                assert(gens[from] == shorter[from]);
                assert(!same_snapshot(gens[gens.len() - 1].snapshot, gens[from].snapshot));
            } else if j == k {
                let from = lemma_sorted_came_from(shorter, a);
                assert(longer[i] == sorted[a]);
                assert(gens[from] == shorter[from]);
                assert(!same_snapshot(gens[from].snapshot, gens[gens.len() - 1].snapshot));
            } else {
                assert(longer[i] == sorted[a] && longer[j] == sorted[b]);
                assert(!same_snapshot(sorted[a].snapshot, sorted[b].snapshot));
            }
        }
    }
}

/// After duplicates were dropped, no two generations hold equal snapshots,
/// and each generation that is left was there before.
pub proof fn lemma_deduplicated_all_different(gens: Seq<SlotView>)
    ensures
        all_different(generations(deduplicated(gens))),
        forall|i: int|
            0 <= i < deduplicated(gens).len() ==> gens.contains(#[trigger] deduplicated(gens)[i]),
    decreases gens.len(),
{
    if gens.len() > 0 {
        let shorter = gens.drop_last();
        let kept = deduplicated(shorter);
        lemma_deduplicated_all_different(shorter);
        let after = deduplicated(gens);
        assert forall|i: int| 0 <= i < after.len() implies gens.contains(#[trigger] after[i]) by {
            if i < kept.len() {
                assert(shorter.contains(kept[i]));
                let at = choose|at: int| 0 <= at < shorter.len() && shorter[at] == kept[i];
                assert(gens[at] == kept[i]);
            } else {
                assert(gens[gens.len() - 1] == after[i]);
            }
        }
        if !seen(kept, gens.last().gen.snapshot) {
            let all = generations(after);
            assert forall|i: int, j: int|
                0 <= i < all.len() && 0 <= j < all.len() && i != j implies !same_snapshot(
                (#[trigger] all[i]).snapshot,
                (#[trigger] all[j]).snapshot,
            ) by {
                let old = generations(kept);
                if i < kept.len() && j < kept.len() {
                    assert(all[i] == old[i] && all[j] == old[j]);
                } else if i < kept.len() {
                    assert(all[i] == kept[i].gen);
                    if same_snapshot(all[i].snapshot, all[j].snapshot) {
                        assert(same_snapshot(kept[i].gen.snapshot, gens.last().gen.snapshot));
                    }
                } else {
                    assert(all[j] == kept[j].gen);
                    if same_snapshot(all[i].snapshot, all[j].snapshot) {
                        crate::snapshot::lemma_same_snapshot_symmetric(
                            all[i].snapshot,
                            all[j].snapshot,
                        );
                        assert(same_snapshot(kept[j].gen.snapshot, gens.last().gen.snapshot));
                    }
                }
            }
        }
    }
}

/// Where no two generations hold equal snapshots there is nothing to drop.
pub proof fn lemma_deduplicated_stays(gens: Seq<SlotView>)
    requires
        all_different(generations(gens)),
    ensures
        deduplicated(gens) == gens,
    decreases gens.len(),
{
    if gens.len() > 0 {
        let shorter = gens.drop_last();
        let all = generations(gens);
        assert(all_different(generations(shorter))) by {
            let part = generations(shorter);
            assert forall|i: int, j: int|
                0 <= i < part.len() && 0 <= j < part.len() && i != j implies !same_snapshot(
                (#[trigger] part[i]).snapshot,
                (#[trigger] part[j]).snapshot,
            ) by {
                assert(part[i] == all[i] && part[j] == all[j]);
            }
        }
        lemma_deduplicated_stays(shorter);
        if seen(shorter, gens.last().gen.snapshot) {
            let i = choose|i: int|
                0 <= i < shorter.len() && same_snapshot(
                    (#[trigger] shorter[i]).gen.snapshot,
                    gens.last().gen.snapshot,
                );
            assert(all[i] == shorter[i].gen);
            assert(all[gens.len() - 1] == gens.last().gen);
        }
        assert(shorter.push(gens.last()) =~= gens);
    } else {
        assert(deduplicated(gens) =~= gens);
    }
}

/// Dropping duplicates and renumbering a second time changes nothing.
pub proof fn lemma_remove_duplicates_idempotent(gens: Seq<SlotView>)
    ensures
        renumbered(deduplicated(renumbered(deduplicated(gens)))) == renumbered(deduplicated(gens)),
{
    let kept = deduplicated(gens);
    let once = renumbered(kept);
    lemma_deduplicated_all_different(gens);
    lemma_sorted_all_different(generations(kept));
    assert(generations(once) =~= sorted_by_epoch(generations(kept)));
    lemma_deduplicated_stays(once);
    lemma_renumber_twice(kept);
}

/// A commit adds one generation and replaces none, and leaves the store
/// in order, whatever the store held and whenever it is made.
pub proof fn lemma_commit_adds_one(
    store: HistoryView,
    message: Seq<char>,
    files: Seq<FileView>,
    now: int,
)
    requires
        valid(store),
        committed(store, message, files, now) is Some,
    ensures
        committed(store, message, files, now).unwrap().gens.len() == store.gens.len() + 1,
        in_order(committed(store, message, files, now).unwrap()),
{
    let gen = match slot_of(store.gens, store.latest_gen) {
        Some(latest) => created(message, latest, files, now).unwrap(),
        None => first_generation(message, files, now),
    };
    let prev = match slot_of(store.gens, store.latest_gen) {
        Some(latest) => latest.snapshot,
        None => Seq::empty(),
    };
    lemma_captured_distinct(files, prev, now);
    lemma_put_above(store, gen);
    lemma_renumbered_in_order(put_slot(store.gens, store.latest_gen + 1, gen));
}

/// No generation of the store is dated after `now`.
pub open spec fn none_after(gens: Seq<SlotView>, now: int) -> bool {
    forall|i: int| 0 <= i < gens.len() ==> (#[trigger] gens[i]).gen.epoch <= now
}

/// A commit at a time that is not before any generation of the store puts
/// the new generation last and makes it the latest.
pub proof fn lemma_commit_appends(store: HistoryView, gen: GenerationView)
    requires
        valid(store),
        distinct_keys(gen.snapshot),
        none_after(store.gens, gen.epoch),
    ensures
        renumbered(put_slot(store.gens, store.latest_gen + 1, gen)) == renumbered(store.gens).push(
            SlotView { id: (store.gens.len() + 1) as int, gen },
        ),
        slot_of(
            renumbered(put_slot(store.gens, store.latest_gen + 1, gen)),
            (store.gens.len() + 1) as int,
        ) == Some(gen),
{
    let gens = store.gens;
    let n = gens.len() as int;
    lemma_put_above(store, gen);
    let put = put_slot(gens, store.latest_gen + 1, gen);
    let all = generations(put);
    assert(all.drop_last() =~= generations(gens));
    assert(all.last() == gen);
    let sorted = sorted_by_epoch(generations(gens));
    lemma_sorted_by_epoch(generations(gens));
    if n > 0 {
        let from = lemma_sorted_came_from(generations(gens), n - 1);
        assert(generations(gens)[from] == gens[from].gen);
        assert(sorted.last() == sorted[n - 1]);
    }
    assert(sorted_by_epoch(all) =~= sorted.push(gen));
    let after = renumbered(put);
    assert(after =~= renumbered(gens).push(SlotView { id: n + 1, gen }));
    lemma_renumbered_in_order(put);
    lemma_slot_of_place(after, n);
}

/// Committing a second time while the disk holds the same files fails for
/// want of changes: the store that a successful commit leaves has nothing
/// to commit from the files it was made of. This holds of every store and
/// a first commit that is not dated before a generation of the store.
pub proof fn lemma_commit_twice(
    store: HistoryView,
    first_message: Seq<char>,
    second_message: Seq<char>,
    files: Seq<FileView>,
    first: int,
    second: int,
)
    requires
        valid(store),
        none_after(store.gens, first),
        committed(store, first_message, files, first) is Some,
    ensures
        committed(
            committed(store, first_message, files, first).unwrap(),
            second_message,
            files,
            second,
        ) is None,
{
    let after = committed(store, first_message, files, first).unwrap();
    let gen = match slot_of(store.gens, store.latest_gen) {
        Some(latest) => created(first_message, latest, files, first).unwrap(),
        None => first_generation(first_message, files, first),
    };
    let prev = match slot_of(store.gens, store.latest_gen) {
        Some(latest) => latest.snapshot,
        None => Seq::empty(),
    };
    assert(gen.snapshot == captured(files, prev, first));
    assert(gen.epoch == first);
    lemma_captured_distinct(files, prev, first);
    lemma_commit_appends(store, gen);
    lemma_renumbered_in_order(put_slot(store.gens, store.latest_gen + 1, gen));
    assert(after.latest_gen == store.gens.len() + 1);
    lemma_capture_again(files, prev, first, second);
}

/// Every entry is under the identifier of the manager that its path names.
pub open spec fn keyed_by_path(snapshot: Seq<EntryView>) -> bool {
    forall|i: int|
        0 <= i < snapshot.len() ==> (#[trigger] snapshot[i]).key == manager_id(snapshot[i].file.path)
}

/// Where `latest` records for a manager the content that `target`
/// records, it records the same path too.
pub open spec fn paths_agree(target: Seq<EntryView>, latest: Seq<EntryView>) -> bool {
    forall|i: int|
        0 <= i < target.len() ==> match lookup(latest, (#[trigger] target[i]).key) {
            Some(before) => before.content == target[i].file.content ==> before.path
                == target[i].file.path,
            None => true,
        }
}

/// Among the files that restoring a snapshot writes, the last one for a
/// manager is the file that the snapshot records for it.
pub proof fn lemma_last_for_restored(snapshot: Seq<EntryView>, key: Seq<char>)
    requires
        distinct_keys(snapshot),
        keyed_by_path(snapshot),
    ensures
        last_for(restored(snapshot), key) == match lookup(snapshot, key) {
            Some(file) => Some(FileView { path: file.path, content: file.content }),
            None => None,
        },
    decreases snapshot.len(),
{
    if snapshot.len() > 0 {
        let shorter = snapshot.drop_last();
        let last = snapshot.last();
        assert(restored(snapshot).drop_last() =~= restored(shorter));
        assert(snapshot[snapshot.len() - 1] == last);
        lemma_lookup_entry(snapshot, snapshot.len() - 1);
        if last.key != key {
            assert(distinct_keys(shorter)) by {
                assert forall|i: int, j: int| 0 <= i < j < shorter.len() implies (
                #[trigger] shorter[i]).key != (#[trigger] shorter[j]).key by {
                    assert(snapshot[i].key != snapshot[j].key);
                }
            }
            assert(keyed_by_path(shorter)) by {
                assert forall|i: int| 0 <= i < shorter.len() implies (#[trigger] shorter[i]).key
                    == manager_id(shorter[i].file.path) by {
                    assert(shorter[i] == snapshot[i]);
                }
            }
            lemma_last_for_restored(shorter, key);
            if crate::snapshot::has_key(shorter, key) {
                let i = crate::snapshot::place_of(shorter, key);
                assert(snapshot[i] == shorter[i]);
                lemma_lookup_entry(shorter, i);
                lemma_lookup_entry(snapshot, i);
            } else if crate::snapshot::has_key(snapshot, key) {
                let i = crate::snapshot::place_of(snapshot, key);
                assert(shorter[i] == snapshot[i]);
            }
        }
    } else {
        assert(!crate::snapshot::has_key(snapshot, key));
    }
}

/// The snapshot taken of what restoring `target` leaves on disk equals
/// `target`, where `target` is keyed by its paths and `latest` agrees with
/// it on them.
pub proof fn lemma_capture_restored(target: Seq<EntryView>, latest: Seq<EntryView>, now: int)
    requires
        distinct_keys(target),
        keyed_by_path(target),
        paths_agree(target, latest),
    ensures
        same_snapshot(captured(restored(target), latest, now), target),
{
    let taken = captured(restored(target), latest, now);
    assert forall|key: Seq<char>|
        match (#[trigger] lookup(taken, key), lookup(target, key)) {
            (Some(x), Some(y)) => same_file(x, y),
            (None, None) => true,
            _ => false,
        } by {
        lemma_lookup_captured(restored(target), latest, now, key);
        lemma_last_for_restored(target, key);
        if crate::snapshot::has_key(target, key) {
            let i = crate::snapshot::place_of(target, key);
            lemma_lookup_entry(target, i);
        }
    }
}

/// After a rollback the store holds one generation more, among them a
/// generation of that moment whose snapshot equals the target's and whose
/// message is the target's: the place of one is returned, and the list of
/// generations shows it there. Where no generation is dated after the
/// rollback it is the last one. This holds where the target is keyed by its
/// paths and the latest generation agrees with it on them.
pub proof fn lemma_rollback_records_target(store: HistoryView, id: int, now: int) -> (at: int)
    requires
        valid(store),
        rolled_back(store, id, now) is Some,
        keyed_by_path(slot_of(store.gens, id).unwrap().snapshot),
        paths_agree(
            slot_of(store.gens, id).unwrap().snapshot,
            match slot_of(store.gens, store.latest_gen) {
                Some(latest) => latest.snapshot,
                None => Seq::empty(),
            },
        ),
    ensures
        rolled_back(store, id, now).unwrap().gens.len() == store.gens.len() + 1,
        0 <= at < rolled_back(store, id, now).unwrap().gens.len(),
        none_after(store.gens, now) ==> at == store.gens.len(),
        ({
            let target = slot_of(store.gens, id).unwrap();
            let after = rolled_back(store, id, now).unwrap().gens;
            let found = after[at].gen;
            let line = listed(after)[at];
            &&& same_snapshot(found.snapshot, target.snapshot)
            &&& found.message == target.message
            &&& found.epoch == now
            &&& !found.applied
            &&& line.id == at + 1
            &&& line.message == target.message
            &&& line.epoch == now
        }),
{
    let target = slot_of(store.gens, id).unwrap();
    let latest = match slot_of(store.gens, store.latest_gen) {
        Some(latest) => latest.snapshot,
        None => Seq::empty(),
    };
    let files = restored(target.snapshot);
    let gen = match slot_of(store.gens, store.latest_gen) {
        Some(latest) => created(target.message, latest, files, now).unwrap(),
        None => first_generation(target.message, files, now),
    };
    assert(gen.snapshot == captured(files, latest, now));
    assert(distinct_keys(target.snapshot)) by {
        let i = place_of_id(store.gens, id);
        assert(distinct_keys(store.gens[i].gen.snapshot));
    }
    lemma_capture_restored(target.snapshot, latest, now);
    lemma_captured_distinct(files, latest, now);
    lemma_put_above(store, gen);
    let put = put_slot(store.gens, store.latest_gen + 1, gen);
    lemma_sorted_by_epoch(generations(put));
    lemma_renumbered_in_order(put);
    let n = store.gens.len() as int;
    assert(generations(put)[n] == gen);
    if none_after(store.gens, now) {
        lemma_commit_appends(store, gen);
        n
    } else {
        lemma_sorted_keeps(generations(put), n)
    }
}

} // verus!

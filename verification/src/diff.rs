use crate::gen::Generation;
use crate::manager::{command_for, manager_of_content, Manager, ManagerView};
use crate::sequence::lemma_first_taken;
use crate::snapshot::{entries_view, has_key, lookup, EntryView, Snapshot};
use crate::text::{added, copy_texts, remove_texts, texts, without};
use vstd::prelude::*;

verus! {

/// What has to happen to one manager's packages to get from one generation
/// to another.
pub struct GenDiff {
    /// The manager as the later generation defines it (as the earlier one
    /// does where the later has dropped it), kept in the file that the
    /// earlier generation had for it where there was one.
    pub manager: Manager,
    /// The packages that only the later generation lists.
    pub install: Vec<String>,
    /// The packages that only the earlier generation lists.
    pub remove: Vec<String>,
}

pub struct DiffView {
    pub manager: ManagerView,
    pub install: Seq<Seq<char>>,
    pub remove: Seq<Seq<char>>,
}

impl View for GenDiff {
    type V = DiffView;

    open spec fn view(&self) -> DiffView {
        DiffView {
            manager: self.manager@,
            install: texts(self.install@),
            remove: texts(self.remove@),
        }
    }
}

/// What carrying out one diff comes to: the commands to run, in order, and
/// the manager as it is to be written back to its file afterwards.
pub struct Reconciliation {
    pub manager: Manager,
    pub commands: Vec<String>,
}

pub struct ReconciliationView {
    pub manager: ManagerView,
    pub commands: Seq<Seq<char>>,
}

impl View for Reconciliation {
    type V = ReconciliationView;

    open spec fn view(&self) -> ReconciliationView {
        ReconciliationView { manager: self.manager@, commands: texts(self.commands@) }
    }
}

/// The reconciliations as their views, in order.
pub open spec fn reconciliations_view(plans: Seq<Reconciliation>) -> Seq<ReconciliationView> {
    Seq::new(plans.len(), |i: int| plans[i]@)
}

/// A diff with nothing to install and nothing to remove.
pub open spec fn is_noop(diff: DiffView) -> bool {
    diff.install.len() == 0 && diff.remove.len() == 0
}

/// Carrying out `diff`: the install command where there is something to
/// install, then the remove command where there is something to remove. The
/// manager's items follow both, whatever the commands will do.
pub open spec fn reconciled(diff: DiffView) -> ReconciliationView {
    let installing = diff.install.len() > 0;
    let removing = diff.remove.len() > 0;
    let installed = if installing {
        added(diff.manager.items, diff.install)
    } else {
        diff.manager.items
    };
    let items = if removing {
        without(installed, diff.remove)
    } else {
        installed
    };
    let first = if installing {
        seq![command_for(diff.manager.installcmd, diff.install)]
    } else {
        Seq::empty()
    };
    let second = if removing {
        seq![command_for(diff.manager.removecmd, diff.remove)]
    } else {
        Seq::empty()
    };
    ReconciliationView { manager: ManagerView { items, ..diff.manager }, commands: first + second }
}

/// The reconciliations of the diffs that have something to do, in order.
pub open spec fn reconciled_all(diffs: Seq<DiffView>) -> Seq<ReconciliationView>
    decreases diffs.len(),
{
    if diffs.len() == 0 {
        Seq::empty()
    } else if is_noop(diffs.last()) {
        reconciled_all(diffs.drop_last())
    } else {
        reconciled_all(diffs.drop_last()).push(reconciled(diffs.last()))
    }
}

/// The diffs as their views, in order.
pub open spec fn diffs_view(diffs: Seq<GenDiff>) -> Seq<DiffView> {
    Seq::new(diffs.len(), |i: int| diffs[i]@)
}

/// The text `content` defines a manager.
pub open spec fn defines_manager(content: Seq<char>) -> bool {
    manager_of_content(content, Seq::empty()) is Some
}

/// Every file of the snapshot defines a manager.
pub open spec fn defines_managers(snapshot: Seq<EntryView>) -> bool {
    forall|i: int| 0 <= i < snapshot.len() ==> defines_manager((#[trigger] snapshot[i]).file.content)
}

/// The keys of a snapshot in the order of its entries.
pub open spec fn keys_of(snapshot: Seq<EntryView>) -> Seq<Seq<char>> {
    Seq::new(snapshot.len(), |i: int| snapshot[i].key)
}

/// The managers that a diff between two snapshots speaks of: those of the
/// earlier one in its order, then those that only the later one has.
pub open spec fn diff_keys(old_snapshot: Seq<EntryView>, new_snapshot: Seq<EntryView>) -> Seq<
    Seq<char>,
> {
    keys_of(old_snapshot) + without(keys_of(new_snapshot), keys_of(old_snapshot))
}

/// The diff for the manager `key` between two snapshots that both define
/// managers only. A manager that neither snapshot knows has nothing to
/// install or remove.
pub open spec fn diff_of(key: Seq<char>, old_snapshot: Seq<EntryView>, new_snapshot: Seq<EntryView>)
    -> DiffView {
    match (lookup(old_snapshot, key), lookup(new_snapshot, key)) {
        (Some(before), Some(after)) => {
            let was = manager_of_content(before.content, before.path).unwrap();
            let is = manager_of_content(after.content, before.path).unwrap();
            DiffView {
                manager: is,
                install: without(is.items, was.items),
                remove: without(was.items, is.items),
            }
        },
        (Some(before), None) => {
            let was = manager_of_content(before.content, before.path).unwrap();
            DiffView { manager: was, install: Seq::empty(), remove: was.items }
        },
        (None, Some(after)) => {
            let is = manager_of_content(after.content, after.path).unwrap();
            DiffView { manager: is, install: is.items, remove: Seq::empty() }
        },
        (None, None) => DiffView {
            manager: ManagerView {
                installcmd: Seq::empty(),
                removecmd: Seq::empty(),
                synccmd: Seq::empty(),
                upgradecmd: Seq::empty(),
                items: Seq::empty(),
                file: Seq::empty(),
            },
            install: Seq::empty(),
            remove: Seq::empty(),
        },
    }
}

/// The diffs between two snapshots, one for each manager of `diff_keys`.
pub open spec fn diffs_between(old_snapshot: Seq<EntryView>, new_snapshot: Seq<EntryView>) -> Seq<
    DiffView,
> {
    let keys = diff_keys(old_snapshot, new_snapshot);
    Seq::new(keys.len(), |i: int| diff_of(keys[i], old_snapshot, new_snapshot))
}

/// The manager that `content` defines, kept in `file`.
fn parsed(content: &String, file: &String) -> (manager: Manager)
    requires
        defines_manager(content@),
    ensures
        manager_of_content(content@, file@) == Some(manager@),
{
    Manager::new(file.clone(), content.as_str()).unwrap()
}

/// Whether every file of the snapshot defines a manager.
fn all_define_managers(snapshot: &Snapshot) -> (all: bool)
    ensures
        all == defines_managers(snapshot@),
{
    let entries = snapshot.entries();
    let mut i: usize = 0;
    while i < entries.len()
        invariant
            i <= entries.len(),
            entries_view(entries@) == snapshot@,
            forall|j: int| 0 <= j < i ==> defines_manager((#[trigger] snapshot@[j]).file.content),
        decreases entries.len() - i,
    {
        assert(entries_view(entries@)[i as int] == entries@[i as int]@);
        if Manager::new(String::new(), entries[i].file.content.as_str()).is_none() {
            assert(!defines_manager(snapshot@[i as int].file.content));
            return false;
        }
        i += 1;
    }
    true
}

impl GenDiff {
    /// Whether there is nothing to install and nothing to remove.
    pub fn is_empty(&self) -> (empty: bool)
        ensures
            empty == is_noop(self@),
    {
        self.install.len() == 0 && self.remove.len() == 0
    }

    /// Carries the diff out on its manager: returns the commands to run and
    /// the manager to write back. An empty list gives no command.
    pub fn apply(self) -> (plan: Reconciliation)
        ensures
            plan@ == reconciled(self@),
    {
        let ghost diff = self@;
        let GenDiff { manager, install, remove } = self;
        let mut manager = manager;
        let mut commands: Vec<String> = Vec::new();
        if install.len() > 0 {
            let command = manager.install(install);
            commands.push(command);
        }
        if remove.len() > 0 {
            let command = manager.remove(remove);
            commands.push(command);
        }
        assert(texts(commands@) =~= reconciled(diff).commands);
        Reconciliation { manager, commands }
    }

    /// Carries out every diff that has something to do.
    pub fn apply_all(diffs: Vec<GenDiff>) -> (plans: Vec<Reconciliation>)
        ensures
            reconciliations_view(plans@) == reconciled_all(diffs_view(diffs@)),
    {
        let ghost all = diffs_view(diffs@);
        let mut rest = diffs;
        let mut plans: Vec<Reconciliation> = Vec::new();
        let ghost mut done: int = 0;
        assert(all.take(0) =~= Seq::<DiffView>::empty());
        assert(reconciliations_view(plans@) =~= Seq::<ReconciliationView>::empty());
        while rest.len() > 0
            invariant
                done + rest.len() == all.len(),
                0 <= done,
                diffs_view(rest@) == all.skip(done),
                reconciliations_view(plans@) == reconciled_all(all.take(done)),
            decreases rest.len(),
        {
            let ghost before = reconciliations_view(plans@);
            let ghost left = diffs_view(rest@);
            let diff = rest.remove(0);
            proof {
                lemma_first_taken(all, done, left, diffs_view(rest@));
            }
            if !diff.is_empty() {
                let plan = diff.apply();
                plans.push(plan);
                assert(reconciliations_view(plans@) =~= before.push(plan@));
            }
            proof {
                done = done + 1;
            }
        }
        proof {
            assert(all.take(done) == all);
        }
        plans
    }

    /// The diffs that lead from `old_gen` to `new_gen`, manager by manager.
    /// Both generations must hold manager definitions only.
    pub fn from_gens(old_gen: &Generation, new_gen: &Generation) -> (diffs: Vec<Self>)
        requires
            old_gen.wf(),
            new_gen.wf(),
            defines_managers(old_gen@.snapshot),
            defines_managers(new_gen@.snapshot),
        ensures
            diffs_view(diffs@) == diffs_between(old_gen@.snapshot, new_gen@.snapshot),
    {
        let ghost old_snapshot = old_gen@.snapshot;
        let ghost new_snapshot = new_gen@.snapshot;
        let before = old_gen.snapshot.entries();
        let after = new_gen.snapshot.entries();
        let mut diffs: Vec<GenDiff> = Vec::new();
        let mut i: usize = 0;
        while i < before.len()
            invariant
                i <= before.len(),
                diffs.len() == i,
                old_gen.wf(),
                new_gen.wf(),
                old_snapshot == old_gen@.snapshot,
                new_snapshot == new_gen@.snapshot,
                entries_view(before@) == old_snapshot,
                defines_managers(old_snapshot),
                defines_managers(new_snapshot),
                forall|j: int|
                    0 <= j < i ==> (#[trigger] diffs@[j])@ == diff_of(
                        old_snapshot[j].key,
                        old_snapshot,
                        new_snapshot,
                    ),
            decreases before.len() - i,
        {
            let entry = &before[i];
            proof {
                assert(old_snapshot[i as int] == entry@);
                crate::snapshot::lemma_lookup_entry(old_snapshot, i as int);
                assert(defines_manager(old_snapshot[i as int].file.content));
            }
            let was = parsed(&entry.file.content, &entry.file.path);
            let diff = match new_gen.snapshot.get(entry.key.as_str()) {
                Some(now) => {
                    proof {
                        let at = crate::snapshot::place_of(new_snapshot, entry.key@);
                        assert(defines_manager(new_snapshot[at].file.content));
                    }
                    let is = parsed(&now.content, &entry.file.path);
                    let install = remove_texts(is.items(), was.items());
                    let remove = remove_texts(was.items(), is.items());
                    GenDiff { manager: is, install, remove }
                },
                None => {
                    let remove = copy_texts(was.items());
                    let install: Vec<String> = Vec::new();
                    assert(texts(install@) =~= Seq::<Seq<char>>::empty());
                    GenDiff { manager: was, install, remove }
                },
            };
            diffs.push(diff);
            i += 1;
        }
        let ghost fresh = Seq::<Seq<char>>::empty();
        let mut k: usize = 0;
        assert(keys_of(new_snapshot).take(0) =~= Seq::<Seq<char>>::empty());
        while k < after.len()
            invariant
                k <= after.len(),
                old_gen.wf(),
                new_gen.wf(),
                old_snapshot == old_gen@.snapshot,
                new_snapshot == new_gen@.snapshot,
                entries_view(after@) == new_snapshot,
                defines_managers(new_snapshot),
                fresh == without(keys_of(new_snapshot).take(k as int), keys_of(old_snapshot)),
                diffs.len() == old_snapshot.len() + fresh.len(),
                forall|j: int|
                    0 <= j < old_snapshot.len() ==> (#[trigger] diffs@[j])@ == diff_of(
                        old_snapshot[j].key,
                        old_snapshot,
                        new_snapshot,
                    ),
                forall|j: int|
                    0 <= j < fresh.len() ==> (#[trigger] diffs@[old_snapshot.len() + j])@
                        == diff_of(fresh[j], old_snapshot, new_snapshot),
            decreases after.len() - k,
        {
            let entry = &after[k];
            proof {
                assert(new_snapshot[k as int] == entry@);
                crate::snapshot::lemma_lookup_entry(new_snapshot, k as int);
                assert(defines_manager(new_snapshot[k as int].file.content));
                let next = keys_of(new_snapshot).take(k + 1);
                assert(next.drop_last() == keys_of(new_snapshot).take(k as int));
                assert(next.last() == entry.key@);
                lemma_keys_contain(old_snapshot, entry.key@);
            }
            if old_gen.snapshot.get(entry.key.as_str()).is_none() {
                let is = parsed(&entry.file.content, &entry.file.path);
                let install = copy_texts(is.items());
                let remove: Vec<String> = Vec::new();
                assert(texts(remove@) =~= Seq::<Seq<char>>::empty());
                diffs.push(GenDiff { manager: is, install, remove });
                proof {
                    fresh = fresh.push(entry.key@);
                }
            }
            k += 1;
        }
        proof {
            assert(keys_of(new_snapshot).take(after.len() as int) == keys_of(new_snapshot));
            let keys = diff_keys(old_snapshot, new_snapshot);
            let all = diffs_between(old_snapshot, new_snapshot);
            assert(keys.len() == diffs.len());
            assert forall|j: int| 0 <= j < diffs.len() implies diffs_view(diffs@)[j] == all[j] by {
                if j < old_snapshot.len() {
                    assert(keys[j] == old_snapshot[j].key);
                } else {
                    assert(keys[j] == fresh[j - old_snapshot.len()]);
                    assert(diffs@[old_snapshot.len() + (j - old_snapshot.len())]@ == diff_of(
                        fresh[j - old_snapshot.len()],
                        old_snapshot,
                        new_snapshot,
                    ));
                }
            }
            assert(diffs_view(diffs@) =~= all);
        }
        diffs
    }

    /// The diffs that lead from `old_gen` to `new_gen`, or `None` where a
    /// file of either is no manager definition.
    pub fn try_from_gens(old_gen: &Generation, new_gen: &Generation) -> (diffs: Option<Vec<Self>>)
        requires
            old_gen.wf(),
            new_gen.wf(),
        ensures
            diffs is Some <==> defines_managers(old_gen@.snapshot) && defines_managers(
                new_gen@.snapshot,
            ),
            diffs matches Some(d) ==> diffs_view(d@) == diffs_between(
                old_gen@.snapshot,
                new_gen@.snapshot,
            ),
    {
        if all_define_managers(&old_gen.snapshot) && all_define_managers(&new_gen.snapshot) {
            Some(Self::from_gens(old_gen, new_gen))
        } else {
            None
        }
    }
}

/// Between any two snapshots and for any manager, no package is both to
/// install and to remove, and the diff in the other direction has the two
/// lists exchanged.
pub proof fn lemma_diff_antisymmetric(a: Seq<EntryView>, b: Seq<EntryView>, key: Seq<char>)
    ensures
        forall|package: Seq<char>|
            !(diff_of(key, a, b).install.contains(package) && diff_of(key, a, b).remove.contains(
                package,
            )),
        diff_of(key, b, a).install == diff_of(key, a, b).remove,
        diff_of(key, b, a).remove == diff_of(key, a, b).install,
{
    let forth = diff_of(key, a, b);
    assert forall|package: Seq<char>|
        !(forth.install.contains(package) && forth.remove.contains(package)) by {
        match (lookup(a, key), lookup(b, key)) {
            (Some(before), Some(after)) => {
                let was = manager_of_content(before.content, before.path).unwrap();
                let is = manager_of_content(after.content, before.path).unwrap();
                crate::text::lemma_without_contains(is.items, was.items, package);
                crate::text::lemma_without_contains(was.items, is.items, package);
            },
            _ => {},
        }
    }
}

/// A snapshot has a key exactly if the list of its keys holds it.
pub proof fn lemma_keys_contain(snapshot: Seq<EntryView>, key: Seq<char>)
    ensures
        keys_of(snapshot).contains(key) == has_key(snapshot, key),
{
    if has_key(snapshot, key) {
        let i = crate::snapshot::place_of(snapshot, key);
        assert(keys_of(snapshot)[i] == key);
    }
    if keys_of(snapshot).contains(key) {
        let i = choose|i: int| 0 <= i < keys_of(snapshot).len() && keys_of(snapshot)[i] == key;
        assert(snapshot[i].key == key);
    }
}

} // verus!

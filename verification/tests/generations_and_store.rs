use kaeru::error::GEN_ERROR;
use kaeru::gen::{DiskFile, Generation};
use kaeru::genman::{GenRecord, GenerationManager};
use kaeru::globals::{ERR_INVALID_GENID, ERR_NO_CHANGES_TO_COMMIT};
use kaeru::snapshot::{ConfFile, Snapshot};

fn disk(path: &str, content: &str) -> DiskFile {
    DiskFile { path: path.to_string(), content: content.to_string() }
}

fn conf(path: &str, content: &str, epoch: i64) -> ConfFile {
    ConfFile::new(path, content.to_string(), epoch)
}

fn snapshot_of(entries: &[(&str, &str, &str, i64)]) -> Snapshot {
    let mut snapshot = Snapshot::new();
    for (key, path, content, epoch) in entries {
        snapshot.insert(key.to_string(), conf(path, content, *epoch));
    }
    snapshot
}

fn generation_of(entries: &[(&str, &str, &str, i64)], epoch: i64, message: &str) -> Generation {
    Generation { snapshot: snapshot_of(entries), epoch, message: message.to_string(), applied: false }
}

fn record(path: &str, gen: Generation) -> GenRecord {
    GenRecord { path: path.to_string(), gen }
}

fn ids(store: &GenerationManager) -> Vec<usize> {
    store.slots().iter().map(|slot| slot.id).collect()
}

fn messages(store: &GenerationManager) -> Vec<String> {
    store.slots().iter().map(|slot| slot.gen.message.clone()).collect()
}

const A: &[(&str, &str, &str, i64)] = &[("apt", "/m/apt.toml", "content a", 1)];
const B: &[(&str, &str, &str, i64)] = &[("apt", "/m/apt.toml", "content b", 2)];

#[test]
fn conf_file_holds_what_it_is_given() {
    let file = conf("/m/apt.toml", "text", 7);
    assert_eq!(file.path, "/m/apt.toml");
    assert_eq!(file.content, "text");
    assert_eq!(file.epoch, 7);
    let now = ConfFile::from_contents("/m/apt.toml", "text".to_string());
    assert_eq!(now.path, "/m/apt.toml");
    assert_eq!(now.content, "text");
    assert!(now.epoch > 1_600_000_000);
}

#[test]
fn snapshot_keeps_one_file_for_each_key() {
    let mut snapshot = Snapshot::new();
    assert_eq!(snapshot.len(), 0);
    assert!(snapshot.get("apt").is_none());
    snapshot.insert("apt".to_string(), conf("/m/apt.toml", "one", 1));
    snapshot.insert("nix".to_string(), conf("/m/nix.toml", "two", 2));
    snapshot.insert("apt".to_string(), conf("/m/apt.toml", "three", 3));
    assert_eq!(snapshot.len(), 2);
    assert_eq!(snapshot.get("apt").unwrap().content, "three");
    assert_eq!(snapshot.get("nix").unwrap().content, "two");
    assert_eq!(snapshot.entries()[0].key, "apt");
    assert_eq!(snapshot.entries()[1].key, "nix");
}

#[test]
fn snapshots_are_equal_by_content_and_path() {
    let one = snapshot_of(&[("apt", "/m/apt.toml", "x", 1), ("nix", "/m/nix.toml", "y", 1)]);
    let other_order = snapshot_of(&[("nix", "/m/nix.toml", "y", 9), ("apt", "/m/apt.toml", "x", 8)]);
    assert!(one.same_as(&other_order));
    assert!(other_order.same_as(&one));
    assert!(!one.same_as(&snapshot_of(&[("apt", "/m/apt.toml", "x", 1)])));
    assert!(!snapshot_of(&[("apt", "/m/apt.toml", "x", 1)]).same_as(&one));
    assert!(!one.same_as(&snapshot_of(&[("apt", "/m/apt.toml", "x", 1), ("nix", "/m/nix.toml", "z", 1)])));
    assert!(!one.same_as(&snapshot_of(&[("apt", "/m/apt.toml", "x", 1), ("nix", "/other/nix.toml", "y", 1)])));
    assert!(!one.same_as(&snapshot_of(&[("apt", "/m/apt.toml", "x", 1), ("pip", "/m/nix.toml", "y", 1)])));
    assert!(Snapshot::new().same_as(&Snapshot::new()));
}

#[test]
fn snapshot_clone_is_equal() {
    let one = snapshot_of(&[("apt", "/m/apt.toml", "x", 1), ("nix", "/m/nix.toml", "y", 2)]);
    let copy = one.clone();
    assert!(copy.same_as(&one));
    assert_eq!(copy.entries()[1].file.epoch, 2);
}

#[test]
fn default_generation_is_empty_and_unapplied() {
    let gen = Generation::default_at(None, 5);
    assert_eq!(gen.snapshot.len(), 0);
    assert_eq!(gen.epoch, 5);
    assert_eq!(gen.message, "");
    assert!(!gen.applied);
    let named = Generation::default_at(Some("hello".to_string()), 6);
    assert_eq!(named.message, "hello");
    let now = Generation::default(Some("now".to_string()));
    assert_eq!(now.message, "now");
    assert_eq!(now.snapshot.len(), 0);
    assert!(now.epoch > 1_600_000_000);
}

#[test]
fn genesis_records_every_file() {
    let files = vec![disk("/m/apt.toml", "a"), disk("/m/nix.toml", "n")];
    let gen = Generation::genesis_at("first".to_string(), &files, 42);
    assert_eq!(gen.epoch, 42);
    assert_eq!(gen.message, "first");
    assert!(!gen.applied);
    assert_eq!(gen.snapshot.len(), 2);
    let apt = gen.snapshot.get("apt").unwrap();
    assert_eq!(apt.content, "a");
    assert_eq!(apt.path, "/m/apt.toml");
    assert_eq!(apt.epoch, 42);
    let clocked = Generation::genesis("first".to_string(), &files);
    assert_eq!(clocked.snapshot.get("nix").unwrap().epoch, clocked.epoch);
}

#[test]
fn genesis_of_nothing_is_empty() {
    let gen = Generation::genesis_at("first".to_string(), &Vec::new(), 42);
    assert_eq!(gen.snapshot.len(), 0);
}

#[test]
fn create_keeps_the_record_of_an_unchanged_file() {
    let prev = Generation::genesis_at("first".to_string(), &vec![disk("/m/apt.toml", "a"), disk("/m/nix.toml", "n")], 10);
    let files = vec![disk("/m/apt.toml", "a"), disk("/m/nix.toml", "changed")];
    let gen = Generation::create_at("second".to_string(), &prev, &files, 20).unwrap();
    assert_eq!(gen.epoch, 20);
    assert_eq!(gen.message, "second");
    assert_eq!(gen.snapshot.get("apt").unwrap().epoch, 10);
    assert_eq!(gen.snapshot.get("nix").unwrap().epoch, 20);
    assert_eq!(gen.snapshot.get("nix").unwrap().content, "changed");
}

#[test]
fn create_fails_without_changes() {
    let files = vec![disk("/m/apt.toml", "a"), disk("/m/nix.toml", "n")];
    let prev = Generation::genesis_at("first".to_string(), &files, 10);
    let err = Generation::create_at("second".to_string(), &prev, &files, 20).unwrap_err();
    assert_eq!(err.msg, ERR_NO_CHANGES_TO_COMMIT);
    assert_eq!(err.code, GEN_ERROR);
    let clocked = Generation::create("second".to_string(), &prev, &files).unwrap_err();
    assert_eq!(clocked.msg, "No changes to commit, cannot create generation.");
}

#[test]
fn create_sees_added_and_deleted_files() {
    let prev = Generation::genesis_at("first".to_string(), &vec![disk("/m/apt.toml", "a")], 10);
    let added = Generation::create_at("more".to_string(), &prev, &vec![disk("/m/apt.toml", "a"), disk("/m/nix.toml", "n")], 20).unwrap();
    assert_eq!(added.snapshot.len(), 2);
    let deleted = Generation::create_at("less".to_string(), &prev, &Vec::new(), 20).unwrap();
    assert_eq!(deleted.snapshot.len(), 0);
}

#[test]
fn restore_writes_every_recorded_file() {
    let gen = generation_of(&[("apt", "/m/apt.toml", "a", 1), ("nix", "/m/nix.toml", "n", 2)], 3, "m");
    let files = gen.restore();
    assert_eq!(files.len(), 2);
    assert_eq!(files[0].path, "/m/apt.toml");
    assert_eq!(files[0].content, "a");
    assert_eq!(files[1].path, "/m/nix.toml");
    assert_eq!(files[1].content, "n");
}

#[test]
fn generation_clone_is_equal() {
    let mut gen = generation_of(A, 3, "m");
    gen.applied = true;
    let copy = gen.clone();
    assert_eq!(copy.epoch, 3);
    assert_eq!(copy.message, "m");
    assert!(copy.applied);
    assert!(copy.snapshot.same_as(&gen.snapshot));
}

#[test]
fn read_keeps_numbers_and_takes_the_highest_as_latest() {
    let store = GenerationManager::read(vec![
        record("/g/5.json", generation_of(A, 50, "five")),
        record("/g/2.json", generation_of(B, 20, "two")),
    ]);
    assert_eq!(ids(&store), vec![2, 5]);
    assert_eq!(messages(&store), vec!["two", "five"]);
    assert_eq!(store.latest_gen(), 5);
    assert_eq!(store.len(), 2);
    assert_eq!(store.get(5).unwrap().message, "five");
    assert!(store.get(1).is_none());
}

#[test]
fn read_lets_the_later_record_of_a_number_stay() {
    let store = GenerationManager::read(vec![
        record("/g/1.json", generation_of(A, 10, "first")),
        record("/g/+1.json", generation_of(B, 20, "again")),
    ]);
    assert_eq!(ids(&store), vec![1]);
    assert_eq!(messages(&store), vec!["again"]);
    assert_eq!(store.latest_gen(), 1);
}

#[test]
fn read_of_nothing_is_an_empty_store() {
    let store = GenerationManager::read(Vec::new());
    assert_eq!(store.len(), 0);
    assert_eq!(store.latest_gen(), 0);
}

#[test]
fn renumber_orders_by_epoch_and_counts_from_one() {
    let mut store = GenerationManager::read(vec![
        record("/g/7.json", generation_of(A, 30, "late")),
        record("/g/3.json", generation_of(B, 10, "early")),
        record("/g/9.json", generation_of(A, 20, "middle")),
    ]);
    store.renumber_gens();
    assert_eq!(ids(&store), vec![1, 2, 3]);
    assert_eq!(messages(&store), vec!["early", "middle", "late"]);
    assert_eq!(store.latest_gen(), 3);
}

#[test]
fn renumber_keeps_the_order_of_equal_epochs() {
    let mut store = GenerationManager::read(vec![
        record("/g/4.json", generation_of(A, 10, "d")),
        record("/g/2.json", generation_of(A, 10, "b")),
        record("/g/1.json", generation_of(A, 5, "a")),
        record("/g/3.json", generation_of(A, 10, "c")),
    ]);
    store.renumber_gens();
    assert_eq!(messages(&store), vec!["a", "b", "c", "d"]);
    assert_eq!(ids(&store), vec![1, 2, 3, 4]);
}

#[test]
fn first_commit_makes_generation_one() {
    let mut store = GenerationManager::new();
    store.commit_at("first".to_string(), &vec![disk("/m/apt.toml", "a")], 10).unwrap();
    assert_eq!(ids(&store), vec![1]);
    assert_eq!(store.latest_gen(), 1);
    let gen = store.get(1).unwrap();
    assert_eq!(gen.message, "first");
    assert_eq!(gen.epoch, 10);
    assert_eq!(gen.snapshot.get("apt").unwrap().content, "a");
}

#[test]
fn first_commit_of_an_empty_directory_succeeds() {
    let mut store = GenerationManager::new();
    store.commit_at("first".to_string(), &Vec::new(), 10).unwrap();
    assert_eq!(store.len(), 1);
    let err = store.commit_at("second".to_string(), &Vec::new(), 20).unwrap_err();
    assert_eq!(err.msg, ERR_NO_CHANGES_TO_COMMIT);
}

#[test]
fn commit_twice_without_changes_fails_the_second_time() {
    let mut store = GenerationManager::new();
    let files = vec![disk("/m/apt.toml", "a"), disk("/m/nix.toml", "n")];
    store.commit_at("first".to_string(), &files, 10).unwrap();
    let err = store.commit_at("second".to_string(), &files, 20).unwrap_err();
    assert_eq!(err.msg, ERR_NO_CHANGES_TO_COMMIT);
    assert_eq!(err.code, 12);
    assert_eq!(store.len(), 1);
    assert_eq!(store.latest_gen(), 1);
    assert_eq!(messages(&store), vec!["first"]);
}

#[test]
fn commit_with_the_clock_records_now() {
    let mut store = GenerationManager::new();
    let files = vec![disk("/m/apt.toml", "a")];
    store.commit("first".to_string(), &files).unwrap();
    assert!(store.get(1).unwrap().epoch > 1_600_000_000);
    assert!(store.commit("second".to_string(), &files).is_err());
    assert_eq!(store.len(), 1);
}

#[test]
fn commits_number_the_generations_in_order() {
    let mut store = GenerationManager::new();
    store.commit_at("a".to_string(), &vec![disk("/m/apt.toml", "1")], 10).unwrap();
    store.commit_at("b".to_string(), &vec![disk("/m/apt.toml", "2")], 20).unwrap();
    store.commit_at("c".to_string(), &vec![disk("/m/apt.toml", "3")], 30).unwrap();
    assert_eq!(ids(&store), vec![1, 2, 3]);
    assert_eq!(messages(&store), vec!["a", "b", "c"]);
    assert_eq!(store.latest_gen(), 3);
}

#[test]
fn commit_dated_before_others_is_sorted_in() {
    let mut store = GenerationManager::new();
    store.commit_at("a".to_string(), &vec![disk("/m/apt.toml", "1")], 10).unwrap();
    store.commit_at("b".to_string(), &vec![disk("/m/apt.toml", "2")], 5).unwrap();
    assert_eq!(messages(&store), vec!["b", "a"]);
    assert_eq!(ids(&store), vec![1, 2]);
}

#[test]
fn remove_takes_one_generation_and_leaves_the_numbers() {
    let mut store = GenerationManager::new();
    store.commit_at("a".to_string(), &vec![disk("/m/apt.toml", "1")], 10).unwrap();
    store.commit_at("b".to_string(), &vec![disk("/m/apt.toml", "2")], 20).unwrap();
    store.commit_at("c".to_string(), &vec![disk("/m/apt.toml", "3")], 30).unwrap();
    store.remove(2).unwrap();
    assert_eq!(ids(&store), vec![1, 3]);
    assert_eq!(store.latest_gen(), 3);
    store.renumber_gens();
    assert_eq!(ids(&store), vec![1, 2]);
    assert_eq!(messages(&store), vec!["a", "c"]);
    assert_eq!(store.latest_gen(), 2);
}

#[test]
fn remove_of_a_missing_generation_fails() {
    let mut store = GenerationManager::new();
    store.commit_at("a".to_string(), &vec![disk("/m/apt.toml", "1")], 10).unwrap();
    let err = store.remove(2).unwrap_err();
    assert_eq!(err.msg, ERR_INVALID_GENID);
    assert_eq!(err.code, GEN_ERROR);
    assert_eq!(store.len(), 1);
    let err = store.remove(0).unwrap_err();
    assert_eq!(err.msg, "Specified generation ID is invalid, use kaeru gen list to list all generations");
}

#[test]
fn remove_duplicates_keeps_the_first_of_equal_snapshots() {
    let mut store = GenerationManager::read(vec![
        record("/g/1.json", generation_of(A, 10, "one")),
        record("/g/2.json", generation_of(A, 20, "two")),
        record("/g/3.json", generation_of(B, 30, "three")),
    ]);
    store.remove_duplicates();
    assert_eq!(ids(&store), vec![1, 2]);
    assert_eq!(messages(&store), vec!["one", "three"]);
    assert_eq!(store.latest_gen(), 2);
    assert_eq!(store.get(1).unwrap().snapshot.get("apt").unwrap().content, "content a");
    assert_eq!(store.get(2).unwrap().snapshot.get("apt").unwrap().content, "content b");
}

#[test]
fn remove_duplicates_twice_is_as_once() {
    let mut store = GenerationManager::read(vec![
        record("/g/1.json", generation_of(A, 40, "one")),
        record("/g/2.json", generation_of(B, 20, "two")),
        record("/g/3.json", generation_of(A, 30, "three")),
        record("/g/4.json", generation_of(B, 10, "four")),
    ]);
    store.remove_duplicates();
    let once_ids = ids(&store);
    let once_messages = messages(&store);
    assert_eq!(once_ids, vec![1, 2]);
    assert_eq!(once_messages, vec!["two", "one"]);
    store.remove_duplicates();
    assert_eq!(ids(&store), once_ids);
    assert_eq!(messages(&store), once_messages);
    assert_eq!(store.latest_gen(), 2);
}

#[test]
fn remove_duplicates_ignores_when_files_were_recorded() {
    let later: &[(&str, &str, &str, i64)] = &[("apt", "/m/apt.toml", "content a", 99)];
    let mut store = GenerationManager::read(vec![
        record("/g/1.json", generation_of(A, 10, "one")),
        record("/g/2.json", generation_of(later, 20, "two")),
    ]);
    store.remove_duplicates();
    assert_eq!(messages(&store), vec!["one"]);
}

#[test]
fn rollback_adds_a_generation_equal_to_the_target() {
    let mut store = GenerationManager::new();
    store.commit_at("a".to_string(), &vec![disk("/m/apt.toml", "1"), disk("/m/nix.toml", "n")], 10).unwrap();
    store.commit_at("b".to_string(), &vec![disk("/m/apt.toml", "2")], 20).unwrap();
    store.rollback_at(1, 30).unwrap();
    assert_eq!(ids(&store), vec![1, 2, 3]);
    assert_eq!(messages(&store), vec!["a", "b", "a"]);
    assert_eq!(store.latest_gen(), 3);
    let target = store.get(1).unwrap().snapshot.clone();
    let newest = store.get(3).unwrap();
    assert_eq!(newest.epoch, 30);
    assert!(!newest.applied);
    assert!(newest.snapshot.same_as(&target));
    let lines = store.list_gens();
    assert_eq!(lines.len(), 3);
    assert_eq!(lines[2].id, 3);
    assert_eq!(lines[2].message, "a");
}

#[test]
fn rollback_to_a_missing_generation_fails() {
    let mut store = GenerationManager::new();
    store.commit_at("a".to_string(), &vec![disk("/m/apt.toml", "1")], 10).unwrap();
    let err = store.rollback_at(4, 20).unwrap_err();
    assert_eq!(err.msg, ERR_INVALID_GENID);
    assert_eq!(err.code, GEN_ERROR);
    assert_eq!(store.len(), 1);
    assert!(store.rollback(0).is_err());
}

#[test]
fn rollback_to_the_latest_generation_has_nothing_to_commit() {
    let mut store = GenerationManager::new();
    store.commit_at("a".to_string(), &vec![disk("/m/apt.toml", "1")], 10).unwrap();
    let err = store.rollback_at(1, 20).unwrap_err();
    assert_eq!(err.msg, ERR_NO_CHANGES_TO_COMMIT);
    assert_eq!(store.len(), 1);
}

#[test]
fn rollback_with_the_clock_records_now() {
    let mut store = GenerationManager::new();
    store.commit_at("a".to_string(), &vec![disk("/m/apt.toml", "1")], 10).unwrap();
    store.commit_at("b".to_string(), &vec![disk("/m/apt.toml", "2")], 20).unwrap();
    store.rollback(1).unwrap();
    assert_eq!(messages(&store), vec!["a", "b", "a"]);
    assert_eq!(store.get(3).unwrap().snapshot.get("apt").unwrap().content, "1");
}

#[test]
fn list_gens_gives_a_line_for_each_generation() {
    let mut store = GenerationManager::new();
    store.commit_at("short".to_string(), &vec![disk("/m/apt.toml", "1")], 0).unwrap();
    store.commit_at("a longer message".to_string(), &vec![disk("/m/apt.toml", "2")], 1431648000).unwrap();
    let lines = store.list_gens();
    assert_eq!(lines.len(), 2);
    assert_eq!(lines[0].id, 1);
    assert_eq!(lines[0].message, "short");
    assert_eq!(lines[0].epoch, 0);
    assert_eq!(lines[0].time.as_deref(), Some("1970-01-01 00:00:00"));
    assert_eq!(lines[0].width, 21);
    assert_eq!(lines[1].id, 2);
    assert_eq!(lines[1].message, "a longer message");
    assert_eq!(lines[1].time.as_deref(), Some("2015-05-15 00:00:00"));
    assert_eq!(lines[1].width, 21);
}

#[test]
fn list_gens_measures_messages_in_bytes() {
    let mut store = GenerationManager::new();
    store.commit_at("é".to_string(), &vec![disk("/m/apt.toml", "1")], 0).unwrap();
    assert_eq!(store.list_gens()[0].width, 7);
    assert!(GenerationManager::new().list_gens().is_empty());
}

#[test]
fn list_gens_has_no_time_for_an_epoch_without_a_date() {
    let store = GenerationManager::read(vec![record("/g/1.json", generation_of(A, i64::MAX, "far"))]);
    let lines = store.list_gens();
    assert_eq!(lines[0].time, None);
    assert_eq!(lines[0].width, 8);
}

#[test]
fn save_renumbers_and_hands_out_every_generation() {
    let mut store = GenerationManager::read(vec![
        record("/g/8.json", generation_of(A, 20, "late")),
        record("/g/4.json", generation_of(B, 10, "early")),
    ]);
    let records = store.save();
    assert_eq!(records.len(), 2);
    assert_eq!(records[0].id, 1);
    assert_eq!(records[0].gen.message, "early");
    assert_eq!(records[1].id, 2);
    assert_eq!(records[1].gen.message, "late");
    assert_eq!(ids(&store), vec![1, 2]);
    assert_eq!(store.latest_gen(), 2);
}

#[test]
fn commit_after_a_read_with_gaps_replaces_nothing() {
    let mut store = GenerationManager::read(vec![
        record("/g/1.json", generation_of(A, 10, "one")),
        record("/g/3.json", generation_of(B, 20, "three")),
    ]);
    assert_eq!(store.latest_gen(), 3);
    store.commit_at("new".to_string(), &vec![disk("/m/apt.toml", "content c")], 30).unwrap();
    assert_eq!(ids(&store), vec![1, 2, 3]);
    assert_eq!(messages(&store), vec!["one", "three", "new"]);
    assert_eq!(store.latest_gen(), 3);
}

#[test]
fn commit_after_a_read_with_gaps_compares_with_the_highest() {
    let mut store = GenerationManager::read(vec![
        record("/g/1.json", generation_of(A, 10, "one")),
        record("/g/3.json", generation_of(B, 20, "three")),
    ]);
    let err = store
        .commit_at("same".to_string(), &vec![disk("/m/apt.toml", "content b")], 30)
        .unwrap_err();
    assert_eq!(err.msg, ERR_NO_CHANGES_TO_COMMIT);
    assert_eq!(ids(&store), vec![1, 3]);
}

#[test]
fn commit_after_the_latest_was_removed_replaces_nothing() {
    let mut store = GenerationManager::new();
    store.commit_at("a".to_string(), &vec![disk("/m/apt.toml", "1")], 10).unwrap();
    store.commit_at("b".to_string(), &vec![disk("/m/apt.toml", "2")], 20).unwrap();
    store.remove(2).unwrap();
    store.commit_at("c".to_string(), &vec![disk("/m/apt.toml", "1")], 30).unwrap();
    assert_eq!(ids(&store), vec![1, 2]);
    assert_eq!(messages(&store), vec!["a", "c"]);
}

use kaeru::diff::GenDiff;
use kaeru::document::{ConfigField, ConfigValue};
use kaeru::gen::{DiskFile, Generation};
use kaeru::genman::GenerationManager;
use kaeru::manager::Manager;

fn strings(items: &[&str]) -> Vec<String> {
    items.iter().map(|s| s.to_string()).collect()
}

fn definition(name: &str, items: &[&str]) -> String {
    let quoted: Vec<String> = items.iter().map(|i| format!("\"{}\"", i)).collect();
    format!(
        "installcmd = \"{n} install :#?\"\nremovecmd = \"{n} remove :#?\"\nsynccmd = \"{n} update\"\nupgradecmd = \"{n} upgrade\"\nitems = [{i}]\n",
        n = name,
        i = quoted.join(", ")
    )
}

fn file(name: &str, items: &[&str]) -> DiskFile {
    DiskFile { path: format!("/cfg/manager/{}.toml", name), content: definition(name, items) }
}

fn generation(files: &[DiskFile], now: i64) -> Generation {
    Generation::genesis_at("test".to_string(), &files.iter().map(copy).collect(), now)
}

fn copy(file: &DiskFile) -> DiskFile {
    DiskFile { path: file.path.clone(), content: file.content.clone() }
}

#[test]
fn manager_is_read_from_its_definition() {
    let manager = Manager::new("/cfg/manager/apt.toml".to_string(), &definition("apt", &["vim", "git"]))
        .expect("a manager definition");
    assert_eq!(manager.items(), &strings(&["vim", "git"]));
    assert_eq!(manager.file(), "/cfg/manager/apt.toml");
    assert_eq!(manager.sync(), "apt update");
    assert_eq!(manager.upgrade(), "apt upgrade");
}

#[test]
fn manager_items_count_once() {
    let manager = Manager::new("f".to_string(), &definition("apt", &["vim", "git", "vim"])).unwrap();
    assert_eq!(manager.items(), &strings(&["vim", "git"]));
}

#[test]
fn manager_ignores_keys_it_does_not_know() {
    let content = format!("{}comment = \"mine\"\n\n[extra]\nlevel = 3\n", definition("apt", &[]));
    let manager = Manager::new("f".to_string(), &content).unwrap();
    assert!(manager.items().is_empty());
    assert_eq!(manager.sync(), "apt update");
}

#[test]
fn manager_needs_every_field() {
    for missing in ["installcmd", "removecmd", "synccmd", "upgradecmd", "items"] {
        let content: String = definition("apt", &["vim"])
            .lines()
            .filter(|line| !line.starts_with(missing))
            .map(|line| format!("{}\n", line))
            .collect();
        assert!(Manager::new("f".to_string(), &content).is_none(), "without {}", missing);
    }
}

#[test]
fn manager_needs_fields_of_the_right_shape() {
    let base = definition("apt", &["vim"]);
    assert!(Manager::new("f".to_string(), &base.replace("\"apt update\"", "3")).is_none());
    assert!(Manager::new("f".to_string(), &base.replace("[\"vim\"]", "\"vim\"")).is_none());
    assert!(Manager::new("f".to_string(), &base.replace("[\"vim\"]", "[\"vim\", 1]")).is_none());
    assert!(Manager::new("f".to_string(), &base.replace("[\"vim\"]", "[[\"vim\"]]")).is_none());
}

#[test]
fn manager_is_not_read_from_broken_toml() {
    assert!(Manager::new("f".to_string(), "installcmd = ").is_none());
    assert!(Manager::new("f".to_string(), "").is_none());
    assert!(Manager::new("f".to_string(), "items = [\"a\"]\nitems = [\"b\"]").is_none());
}

#[test]
fn manager_from_fields_reads_the_first_field_of_a_name() {
    let text = |key: &str, value: &str| ConfigField {
        key: key.to_string(),
        value: ConfigValue::Text(value.to_string()),
    };
    let fields = vec![
        text("installcmd", "i :#?"),
        text("removecmd", "r :#?"),
        text("synccmd", "s"),
        text("upgradecmd", "u"),
        ConfigField {
            key: "items".to_string(),
            value: ConfigValue::List(vec![Some("a".to_string()), Some("b".to_string())]),
        },
        ConfigField { key: "other".to_string(), value: ConfigValue::Other },
    ];
    let manager = Manager::from_fields("here".to_string(), &fields).unwrap();
    assert_eq!(manager.items(), &strings(&["a", "b"]));
    assert_eq!(manager.file(), "here");
    let mut broken = fields;
    broken[4].value = ConfigValue::List(vec![Some("a".to_string()), None]);
    assert!(Manager::from_fields("here".to_string(), &broken).is_none());
}

#[test]
fn install_adds_items_and_builds_the_command() {
    let mut manager = Manager::new("f".to_string(), &definition("apt", &["vim"])).unwrap();
    let command = manager.install(strings(&["git", "vim", "curl"]));
    assert_eq!(command, "apt install git vim curl");
    assert_eq!(manager.items(), &strings(&["vim", "git", "curl"]));
}

#[test]
fn remove_drops_items_and_builds_the_command() {
    let mut manager = Manager::new("f".to_string(), &definition("apt", &["vim", "git", "curl"])).unwrap();
    let command = manager.remove(strings(&["git", "nano"]));
    assert_eq!(command, "apt remove git nano");
    assert_eq!(manager.items(), &strings(&["vim", "curl"]));
}

#[test]
fn commands_replace_every_marker() {
    let content = definition("apt", &[]).replace("apt install :#?", "get :#? && pin :#?");
    let mut manager = Manager::new("f".to_string(), &content).unwrap();
    assert_eq!(manager.install(strings(&["a", "b"])), "get a b && pin a b");
    assert_eq!(manager.install(Vec::new()), "get  && pin ");
}

#[test]
fn diff_lists_what_only_one_side_has() {
    let old_gen = generation(&[file("apt", &["vim", "nano"])], 1);
    let new_gen = generation(&[file("apt", &["vim", "git"])], 2);
    let diffs = GenDiff::from_gens(&old_gen, &new_gen);
    assert_eq!(diffs.len(), 1);
    assert_eq!(diffs[0].install, strings(&["git"]));
    assert_eq!(diffs[0].remove, strings(&["nano"]));
    assert_eq!(diffs[0].manager.items(), &strings(&["vim", "git"]));
    assert_eq!(diffs[0].manager.file(), "/cfg/manager/apt.toml");
}

#[test]
fn diff_keeps_the_old_path_for_a_manager_on_both_sides() {
    let old_gen = generation(&[file("apt", &["vim"])], 1);
    let moved = DiskFile { path: "/elsewhere/apt.toml".to_string(), content: definition("apt", &["git"]) };
    let new_gen = generation(&[moved], 2);
    let diffs = GenDiff::from_gens(&old_gen, &new_gen);
    assert_eq!(diffs.len(), 1);
    assert_eq!(diffs[0].manager.file(), "/cfg/manager/apt.toml");
    assert_eq!(diffs[0].manager.items(), &strings(&["git"]));
}

#[test]
fn diff_for_a_dropped_manager_removes_all_its_items() {
    let old_gen = generation(&[file("apt", &["vim", "git"]), file("pacman", &["htop"])], 1);
    let new_gen = generation(&[file("pacman", &["htop"])], 2);
    let diffs = GenDiff::from_gens(&old_gen, &new_gen);
    assert_eq!(diffs.len(), 2);
    assert_eq!(diffs[0].manager.file(), "/cfg/manager/apt.toml");
    assert!(diffs[0].install.is_empty());
    assert_eq!(diffs[0].remove, strings(&["vim", "git"]));
    assert!(diffs[1].is_empty());
}

#[test]
fn diff_for_a_new_manager_installs_all_its_items() {
    let old_gen = generation(&[file("apt", &["vim"])], 1);
    let new_gen = generation(&[file("apt", &["vim"]), file("pacman", &["htop", "git"])], 2);
    let diffs = GenDiff::from_gens(&old_gen, &new_gen);
    assert_eq!(diffs.len(), 2);
    assert!(diffs[0].is_empty());
    assert_eq!(diffs[1].manager.file(), "/cfg/manager/pacman.toml");
    assert_eq!(diffs[1].install, strings(&["htop", "git"]));
    assert!(diffs[1].remove.is_empty());
}

#[test]
fn diff_in_the_other_direction_swaps_the_lists() {
    let one = generation(&[file("apt", &["vim", "nano", "curl"]), file("nix", &["jq"])], 1);
    let two = generation(&[file("apt", &["curl", "git"]), file("pacman", &["htop"])], 2);
    let forth = GenDiff::from_gens(&one, &two);
    let back = GenDiff::from_gens(&two, &one);
    assert_eq!(forth.len(), 3);
    assert_eq!(back.len(), 3);
    for diff in &forth {
        for package in &diff.install {
            assert!(!diff.remove.contains(package));
        }
        let key = diff.manager.sync();
        let other = back.iter().find(|d| d.manager.sync() == key).expect("the same manager");
        assert_eq!(other.install, diff.remove);
        assert_eq!(other.remove, diff.install);
    }
}

#[test]
fn diff_of_a_generation_with_itself_is_empty() {
    let gen = generation(&[file("apt", &["vim"]), file("pacman", &[])], 1);
    let diffs = GenDiff::from_gens(&gen, &gen);
    assert_eq!(diffs.len(), 2);
    assert!(diffs.iter().all(|d| d.is_empty()));
}

#[test]
fn try_from_gens_refuses_what_is_no_manager() {
    let good = generation(&[file("apt", &["vim"])], 1);
    let bad = generation(
        &[DiskFile { path: "/cfg/manager/apt.toml".to_string(), content: "items = 3".to_string() }],
        2,
    );
    assert!(GenDiff::try_from_gens(&good, &bad).is_none());
    assert!(GenDiff::try_from_gens(&bad, &good).is_none());
    let diffs = GenDiff::try_from_gens(&good, &good).expect("both sides define managers");
    assert_eq!(diffs.len(), 1);
}

#[test]
fn applying_a_diff_runs_install_before_remove() {
    let old_gen = generation(&[file("apt", &["vim", "nano"])], 1);
    let new_gen = generation(&[file("apt", &["vim", "git"])], 2);
    let mut diffs = GenDiff::from_gens(&old_gen, &new_gen);
    let plan = diffs.remove(0).apply();
    assert_eq!(plan.commands, strings(&["apt install git", "apt remove nano"]));
    assert_eq!(plan.manager.items(), &strings(&["vim", "git"]));
}

#[test]
fn applying_an_empty_diff_runs_nothing() {
    let gen = generation(&[file("apt", &["vim"])], 1);
    let diffs = GenDiff::from_gens(&gen, &gen);
    assert!(GenDiff::apply_all(diffs).is_empty());
}

#[test]
fn apply_changes_installs_what_the_new_generation_adds() {
    let mut store = GenerationManager::new();
    store.commit_at("first".to_string(), &vec![file("apt", &["vim"])], 10).unwrap();
    store.commit_at("second".to_string(), &vec![file("apt", &["vim", "git"])], 20).unwrap();
    let plans = store.apply_changes(None).expect("manager definitions");
    assert_eq!(plans.len(), 1);
    assert_eq!(plans[0].commands, strings(&["apt install git"]));
    assert_eq!(plans[0].manager.items(), &strings(&["vim", "git"]));
    assert_eq!(plans[0].manager.file(), "/cfg/manager/apt.toml");
    assert!(store.get(2).unwrap().applied);
    assert!(!store.get(1).unwrap().applied);
}

#[test]
fn apply_changes_is_done_once() {
    let mut store = GenerationManager::new();
    store.commit_at("first".to_string(), &vec![file("apt", &["vim"])], 10).unwrap();
    let first = store.apply_changes(None).unwrap();
    assert_eq!(first.len(), 1);
    assert_eq!(first[0].commands, strings(&["apt install vim"]));
    let again = store.apply_changes(None).unwrap();
    assert!(again.is_empty());
}

#[test]
fn apply_changes_compares_with_the_generation_named() {
    let mut store = GenerationManager::new();
    store.commit_at("a".to_string(), &vec![file("apt", &["vim"])], 10).unwrap();
    store.commit_at("b".to_string(), &vec![file("apt", &["vim", "git"])], 20).unwrap();
    store.commit_at("c".to_string(), &vec![file("apt", &["git", "curl"])], 30).unwrap();
    let plans = store.apply_changes(Some(1)).unwrap();
    assert_eq!(plans.len(), 1);
    assert_eq!(plans[0].commands, strings(&["apt install git curl", "apt remove vim"]));
}

#[test]
fn apply_changes_without_a_baseline_installs_everything() {
    let mut store = GenerationManager::new();
    store.commit_at("a".to_string(), &vec![file("apt", &["vim"]), file("nix", &[])], 10).unwrap();
    let plans = store.apply_changes(Some(77)).unwrap();
    assert_eq!(plans.len(), 1);
    assert_eq!(plans[0].commands, strings(&["apt install vim"]));
}

#[test]
fn apply_changes_marks_nothing_where_a_file_is_no_manager() {
    let mut store = GenerationManager::new();
    let broken = DiskFile { path: "/cfg/manager/apt.toml".to_string(), content: "what".to_string() };
    store.commit_at("a".to_string(), &vec![broken], 10).unwrap();
    assert!(store.apply_changes(None).is_none());
    assert!(!store.get(1).unwrap().applied);
}

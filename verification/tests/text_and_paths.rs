use kaeru::error::{Error, GEN_ERROR};
use kaeru::text::{
    add_texts, contains_text, has_suffix, is_whitespace, join, parse_decimal, remove_texts,
    same_text, strip_suffix, substitute, trim,
};
use kaeru::util::{
    conf_dir, conf_dir_in, conf_file, conf_path_in, epoch_time_secs, epoch_to_str, files_in_dir, gen_dir,
    get_filename, manager_key, managers_dir, record_id, yesnoprompt,
};

fn strings(items: &[&str]) -> Vec<String> {
    items.iter().map(|s| s.to_string()).collect()
}

#[test]
fn error_keeps_message_and_code() {
    let err = Error::new("nothing to do", GEN_ERROR);
    assert_eq!(err.msg, "nothing to do");
    assert_eq!(err.code, 12);
}

#[test]
fn same_text_compares_contents() {
    assert!(same_text("apt", "apt"));
    assert!(!same_text("apt", "apt "));
    assert!(same_text("", ""));
}

#[test]
fn suffix_is_found_and_stripped() {
    assert!(has_suffix("apt.toml", ".toml"));
    assert!(!has_suffix("apt.tom", ".toml"));
    assert!(!has_suffix("ml", ".toml"));
    assert!(has_suffix("anything", ""));
    assert_eq!(strip_suffix("apt.toml", ".toml"), Some("apt"));
    assert_eq!(strip_suffix(".toml", ".toml"), Some(""));
    assert_eq!(strip_suffix("apt.json", ".toml"), None);
    assert_eq!(strip_suffix("naïve.toml", ".toml"), Some("naïve"));
}

#[test]
fn join_puts_separator_between_items() {
    assert_eq!(join(&strings(&[]), " "), "");
    assert_eq!(join(&strings(&["vim"]), " "), "vim");
    assert_eq!(join(&strings(&["vim", "git", "curl"]), " "), "vim git curl");
    assert_eq!(join(&strings(&["a", "", "b"]), ", "), "a, , b");
}

#[test]
fn substitute_replaces_every_marker() {
    assert_eq!(substitute("apt install :#?", ":#?", "vim git"), "apt install vim git");
    assert_eq!(substitute(":#? and :#?", ":#?", "x"), "x and x");
    assert_eq!(substitute("no marker", ":#?", "x"), "no marker");
    assert_eq!(substitute("", ":#?", "x"), "");
    assert_eq!(substitute(":#", ":#?", "x"), ":#");
    assert_eq!(substitute("::#?#?", ":#?", "é"), ":é#?");
    assert_eq!(substitute("abc", "", "x"), "abc");
    assert_eq!(substitute("aaa", "aa", "b"), "ba");
}

#[test]
fn substitute_agrees_with_std_replace() {
    for template in ["pacman -S :#? --needed", ":#?:#?", "x:#", "ü :#? ü", ":#:#?"] {
        for with in ["", "a b", ":#?"] {
            assert_eq!(substitute(template, ":#?", with), template.replace(":#?", with));
        }
    }
}

#[test]
fn parse_decimal_reads_numbers() {
    assert_eq!(parse_decimal("0"), Some(0));
    assert_eq!(parse_decimal("12"), Some(12));
    assert_eq!(parse_decimal("+7"), Some(7));
    assert_eq!(parse_decimal("007"), Some(7));
    assert_eq!(parse_decimal(&usize::MAX.to_string()), Some(usize::MAX));
}

#[test]
fn parse_decimal_rejects_what_is_no_number() {
    assert_eq!(parse_decimal(""), None);
    assert_eq!(parse_decimal("+"), None);
    assert_eq!(parse_decimal("-1"), None);
    assert_eq!(parse_decimal("1a"), None);
    assert_eq!(parse_decimal(" 1"), None);
    assert_eq!(parse_decimal("++1"), None);
    assert_eq!(parse_decimal("١"), None);
    let too_big = format!("{}0", usize::MAX);
    assert_eq!(parse_decimal(&too_big), None);
    let just_over = format!("{}", usize::MAX as u128 + 1);
    assert_eq!(parse_decimal(&just_over), None);
}

#[test]
fn parse_decimal_agrees_with_std() {
    for text in ["", "+", "0", "+0", "42", "4 2", "-0", "18446744073709551615", "18446744073709551616"] {
        assert_eq!(parse_decimal(text), text.parse::<usize>().ok());
    }
}

#[test]
fn text_lists_behave_as_sets() {
    let mut items = strings(&["vim"]);
    assert!(contains_text(&items, "vim"));
    assert!(!contains_text(&items, "git"));
    add_texts(&mut items, &strings(&["git", "vim", "git", "curl"]));
    assert_eq!(items, strings(&["vim", "git", "curl"]));
    let kept = remove_texts(&items, &strings(&["git", "nano"]));
    assert_eq!(kept, strings(&["vim", "curl"]));
}

#[test]
fn get_filename_gives_last_component() {
    assert_eq!(get_filename("/home/u/.config/kaeru/gen/3.json"), Some("3.json"));
    assert_eq!(get_filename("apt.toml"), Some("apt.toml"));
    assert_eq!(get_filename("/a/b/"), Some("b"));
    assert_eq!(get_filename("/a/b/."), Some("b"));
    assert_eq!(get_filename("/a/b/.//"), Some("b"));
    assert_eq!(get_filename(""), None);
    assert_eq!(get_filename("/"), None);
    assert_eq!(get_filename("/a/.."), None);
    assert_eq!(get_filename("."), None);
    assert_eq!(get_filename("./"), None);
    assert_eq!(get_filename("/a/.hidden"), Some(".hidden"));
}

#[test]
fn get_filename_agrees_with_std_paths() {
    for path in [
        "", "/", "//", ".", "..", "./", "../", "a", "a/", "a//", "a/.", "a/./", "a/..", "a/../",
        "/a", "/a/b", "/a/b/", "/a/b/.", "/a/b/..", "./a", "../a", "a/./b", "a//b", "/.", "/..",
        "...", "a/...", ".a", "a.", "/usr/bin/", "tmp/foo.txt", "foo.txt/.", "foo.txt/.//",
        "foo.txt/..", "/gen/3.json", "./.", "././", "a/./.", "naïve/é.toml",
    ] {
        let expected = std::path::Path::new(path).file_name().and_then(|name| name.to_str());
        assert_eq!(get_filename(path), expected, "for {:?}", path);
    }
}

#[test]
fn manager_key_is_the_file_stem() {
    assert_eq!(manager_key("/home/u/.config/kaeru/manager/apt.toml"), "apt");
    assert_eq!(manager_key("pacman.toml"), "pacman");
    assert_eq!(manager_key("/x/notoml"), "notoml");
    assert_eq!(manager_key("/x/a.toml.toml"), "a.toml");
    assert_eq!(manager_key("/x/"), "");
}

#[test]
fn record_id_reads_the_number_in_the_name() {
    assert_eq!(record_id("/home/u/.config/kaeru/gen/3.json"), Some(3));
    assert_eq!(record_id("12.json"), Some(12));
    assert_eq!(record_id("/gen/+4.json"), Some(4));
    assert_eq!(record_id("/gen/3.toml"), None);
    assert_eq!(record_id("/gen/three.json"), None);
    assert_eq!(record_id("/gen/.json"), None);
    assert_eq!(record_id("/gen/"), None);
}

#[test]
fn conf_dir_in_appends_the_program_name() {
    assert_eq!(conf_dir_in("/home/u/.config"), "/home/u/.config/kaeru");
    assert_eq!(conf_dir_in("/home/u/.config/"), "/home/u/.config/kaeru");
    assert_eq!(conf_dir_in(""), "kaeru");
    assert_eq!(conf_dir_in("/"), "/kaeru");
}

#[test]
fn conf_dir_in_agrees_with_path_push() {
    for home in ["/home/u/.config", "/home/u/.config/", "", "/", "rel"] {
        let mut path = std::path::PathBuf::from(home);
        path.push("kaeru");
        assert_eq!(conf_dir_in(home), path.to_string_lossy());
    }
}

#[test]
fn program_paths_lie_under_the_conf_dir() {
    if let Some(dir) = conf_dir() {
        assert!(dir.ends_with("kaeru"));
        assert_eq!(conf_file(), Some(format!("{}/config.toml", dir)));
        assert_eq!(managers_dir(), Some(format!("{}/manager/", dir)));
        assert_eq!(gen_dir(), Some(format!("{}/gen/", dir)));
    } else {
        assert_eq!(conf_file(), None);
        assert_eq!(managers_dir(), None);
        assert_eq!(gen_dir(), None);
    }
}

#[test]
fn files_in_dir_keeps_matching_names() {
    let entries = strings(&["/m/apt.toml", "/m/readme.md", "/m/pacman.toml", "/m/toml", "/m/.toml"]);
    assert_eq!(
        files_in_dir(&entries, ".toml"),
        strings(&["/m/apt.toml", "/m/pacman.toml", "/m/.toml"])
    );
    assert_eq!(files_in_dir(&entries, ".json"), Vec::<String>::new());
    assert_eq!(files_in_dir(&Vec::new(), ".toml"), Vec::<String>::new());
}

#[test]
fn yesnoprompt_takes_y_and_nothing_as_yes() {
    assert!(yesnoprompt(""));
    assert!(yesnoprompt("y"));
    assert!(yesnoprompt("Y"));
    assert!(!yesnoprompt("n"));
    assert!(!yesnoprompt("yes"));
    assert!(!yesnoprompt("N"));
    assert!(!yesnoprompt("y y"));
}

#[test]
fn yesnoprompt_takes_the_line_as_it_was_read() {
    assert!(yesnoprompt("\n"));
    assert!(yesnoprompt(" "));
    assert!(yesnoprompt("y\n"));
    assert!(yesnoprompt("  Y \r\n"));
    assert!(!yesnoprompt("n\n"));
    assert!(!yesnoprompt(" yes \n"));
}

#[test]
fn yesnoprompt_agrees_with_lowercasing() {
    for line in ["", "y", "Y", "n", "yy", "ý", "Ｙ", "no", " y", "Y\n", "\t\n", "\u{a0}y\u{3000}", " n "] {
        let lowered = line.trim().to_lowercase();
        assert_eq!(yesnoprompt(line), lowered == "y" || lowered.is_empty(), "for {:?}", line);
    }
}

#[test]
fn epoch_to_str_writes_date_and_time() {
    assert_eq!(epoch_to_str(0), Some("1970-01-01 00:00:00".to_string()));
    assert_eq!(epoch_to_str(1431648000), Some("2015-05-15 00:00:00".to_string()));
    assert_eq!(epoch_to_str(1234567890), Some("2009-02-13 23:31:30".to_string()));
    assert_eq!(epoch_to_str(-1), Some("1969-12-31 23:59:59".to_string()));
}

#[test]
fn epoch_to_str_has_no_date_far_out() {
    assert_eq!(epoch_to_str(i64::MAX), None);
    assert_eq!(epoch_to_str(i64::MIN), None);
}

#[test]
fn epoch_time_secs_is_in_this_century() {
    let now = epoch_time_secs();
    assert!(now > 1_600_000_000);
    assert!(now < 4_102_444_800);
}

#[test]
fn decimal_text_writes_numbers() {
    assert_eq!(kaeru::text::decimal_text(0), "0");
    assert_eq!(kaeru::text::decimal_text(7), "7");
    assert_eq!(kaeru::text::decimal_text(10), "10");
    assert_eq!(kaeru::text::decimal_text(9081726354), "9081726354");
    assert_eq!(kaeru::text::decimal_text(usize::MAX), usize::MAX.to_string());
}

#[test]
fn record_name_is_read_back_as_its_number() {
    assert_eq!(kaeru::util::record_name(3), "3.json");
    assert_eq!(kaeru::util::record_name(120), "120.json");
    for id in [0, 1, 9, 10, 99, 100, 12345, usize::MAX] {
        let path = format!("/home/u/.config/kaeru/gen/{}", kaeru::util::record_name(id));
        assert_eq!(record_id(&path), Some(id));
        assert_eq!(record_id(&kaeru::util::record_name(id)), Some(id));
    }
}

#[test]
fn conf_path_in_follows_the_directory_found() {
    assert_eq!(
        conf_path_in(Some("/home/u/.config".to_string()), "/config.toml"),
        Some("/home/u/.config/kaeru/config.toml".to_string())
    );
    assert_eq!(
        conf_path_in(Some("/home/u/.config/".to_string()), "/manager/"),
        Some("/home/u/.config/kaeru/manager/".to_string())
    );
    assert_eq!(conf_path_in(Some(String::new()), "/gen/"), Some("kaeru/gen/".to_string()));
    assert_eq!(conf_path_in(None, "/gen/"), None);
}

#[test]
fn trim_drops_white_space_at_both_ends() {
    assert_eq!(trim("  y \n"), "y");
    assert_eq!(trim("a b"), "a b");
    assert_eq!(trim("\t a  b \r\n"), "a  b");
    assert_eq!(trim(""), "");
    assert_eq!(trim(" \n\t"), "");
    assert_eq!(trim("x"), "x");
    assert_eq!(trim("\u{2003}é\u{3000}"), "é");
}

#[test]
fn trim_agrees_with_std() {
    for text in [
        "", " ", "a", " a", "a ", " a ", "\n", "a\nb\n", "\u{85}a\u{a0}", "\u{1680}\u{2000}x\u{200a}",
        "\u{2028}\u{2029}y\u{202f}\u{205f}\u{3000}", "\u{200b}z\u{200b}", "\u{1c}a\u{1f}", "\u{b}\u{c}q",
    ] {
        assert_eq!(trim(text), text.trim(), "for {:?}", text);
    }
}

#[test]
fn is_whitespace_agrees_with_std() {
    for code in 0u32..0x3100 {
        if let Some(c) = char::from_u32(code) {
            assert_eq!(is_whitespace(c), c.is_whitespace(), "for {:?}", c);
        }
    }
    assert!(!is_whitespace('\u{feff}'));
    assert!(!is_whitespace('\u{10ffff}'));
}

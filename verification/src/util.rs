use crate::globals::{GENERATION_FILE_EXT, MANAGER_FILE_EXT};
use crate::text::{
    decimal, decimal_digits, decimal_text, ends_with, has_suffix, lemma_decimal_round_trip,
    parse_decimal, same_text, strip_suffix, texts, trim, trimmed, without_suffix,
};
use vstd::prelude::*;

verus! {

/// The seconds since the start of 1970 (UTC) on the system clock, from
/// chrono's conversion of `std::time::SystemTime` into a `DateTime<Utc>`
/// and `DateTime::timestamp`. Nothing is claimed of the value: it is
/// whatever the clock says, negative where the clock is set before 1970.
#[verifier::external_body]
pub fn epoch_time_secs() -> (now: i64) {
    chrono::DateTime::<chrono::Utc>::from(std::time::SystemTime::now()).timestamp()
}

/// Where the last component of a path begins: behind its last `/`, or at
/// the start where it has none.
pub open spec fn name_start(path: Seq<char>) -> int
    decreases path.len(),
{
    if path.len() == 0 {
        0
    } else if path.last() == '/' {
        path.len() as int
    } else {
        name_start(path.drop_last())
    }
}

/// The name of the file or directory that a path leads to: its last
/// component that is neither empty nor `.`, so that a `/` or a `/.` at the
/// end does not count. `None` where that component is `..`, and where
/// there is none.
pub open spec fn file_name(path: Seq<char>) -> Option<Seq<char>>
    decreases path.len(),
{
    let start = name_start(path);
    let name = path.skip(start);
    if name.len() == 0 || name == seq!['.'] {
        if 1 <= start <= path.len() {
            file_name(path.take(start - 1))
        } else {
            None
        }
    } else if name == seq!['.', '.'] {
        None
    } else {
        Some(name)
    }
}

/// Where the last component of the first `end` characters begins.
fn component_start(path: &str, end: usize) -> (start: usize)
    requires
        end <= path@.len(),
    ensures
        start <= end,
        start == name_start(path@.take(end as int)),
{
    let ghost part = path@.take(end as int);
    let mut i: usize = end;
    assert(part.take(end as int) == part);
    while i > 0 && path.get_char(i - 1) != '/'
        invariant
            i <= end,
            end <= path@.len(),
            part == path@.take(end as int),
            name_start(part) == name_start(part.take(i as int)),
        decreases i,
    {
        assert(part.take(i as int).drop_last() == part.take(i - 1));
        assert(part.take(i as int).last() == path@[i - 1]);
        i -= 1;
    }
    proof {
        if i > 0 {
            assert(part.take(i as int).last() == path@[i - 1]);
        }
    }
    i
}

/// What stands behind the last `/` of a path.
fn last_component(path: &str) -> (name: &str)
    ensures
        name@ == path@.skip(name_start(path@)),
{
    let n = path.unicode_len();
    let start = component_start(path, n);
    proof {
        assert(path@.take(n as int) == path@);
        assert(path@.subrange(start as int, n as int) == path@.skip(start as int));
    }
    path.substring_char(start, n)
}

/// The name of the file or directory that `path` leads to, as
/// `std::path::Path::file_name` gives it for a path with `/` as separator.
pub fn get_filename(path: &str) -> (name: Option<&str>)
    ensures
        name is Some == file_name(path@) is Some,
        name matches Some(n) ==> file_name(path@) == Some(n@),
{
    proof {
        reveal_strlit(".");
        reveal_strlit("..");
        assert("."@ =~= seq!['.']);
        assert(".."@ =~= seq!['.', '.']);
    }
    let mut end: usize = path.unicode_len();
    assert(path@.take(end as int) == path@);
    loop
        invariant
            end <= path@.len(),
            file_name(path@) == file_name(path@.take(end as int)),
            "."@ == seq!['.'],
            ".."@ == seq!['.', '.'],
        decreases end,
    {
        let start = component_start(path, end);
        let name = path.substring_char(start, end);
        proof {
            let part = path@.take(end as int);
            assert(path@.subrange(start as int, end as int) == part.skip(start as int));
            if start >= 1 {
                assert(part.take(start - 1) == path@.take(start - 1));
            }
        }
        if name.unicode_len() == 0 || same_text(name, ".") {
            if start == 0 {
                return None;
            }
            end = start - 1;
        } else if same_text(name, "..") {
            return None;
        } else {
            return Some(name);
        }
    }
}

/// The identifier of the manager that a configuration file at `path`
/// defines: the file's name without the manager file extension.
pub open spec fn manager_id(path: Seq<char>) -> Seq<char> {
    let name = path.skip(name_start(path));
    match without_suffix(name, MANAGER_FILE_EXT@) {
        Some(stem) => stem,
        None => name,
    }
}

/// The identifier of the manager that a configuration file at `path`
/// defines.
pub fn manager_key(path: &str) -> (key: String)
    ensures
        key@ == manager_id(path@),
{
    let name = last_component(path);
    match strip_suffix(name, MANAGER_FILE_EXT) {
        Some(stem) => String::from_str(stem),
        None => String::from_str(name),
    }
}

/// The number of the generation that the record at `path` holds: what the
/// file's name says before the record extension, read as a decimal number
/// that fits the machine. `None` for any other name.
pub open spec fn record_number(path: Seq<char>) -> Option<int> {
    match file_name(path) {
        Some(name) => match without_suffix(name, GENERATION_FILE_EXT@) {
            Some(stem) => match decimal(stem) {
                Some(n) => if n <= usize::MAX {
                    Some(n as int)
                } else {
                    None
                },
                None => None,
            },
            None => None,
        },
        None => None,
    }
}

/// The number of the generation that the record at `path` holds, where
/// its name gives one.
pub fn record_id(path: &str) -> (id: Option<usize>)
    ensures
        id is Some == record_number(path@) is Some,
        id matches Some(n) ==> record_number(path@) == Some(n as int),
{
    match get_filename(path) {
        Some(name) => match strip_suffix(name, GENERATION_FILE_EXT) {
            Some(stem) => parse_decimal(stem),
            None => None,
        },
        None => None,
    }
}

/// The name of the record that holds the generation numbered `id`.
pub open spec fn record_name_of(id: nat) -> Seq<char> {
    decimal_digits(id) + GENERATION_FILE_EXT@
}

/// The name of the record that holds the generation numbered `id`.
pub fn record_name(id: usize) -> (name: String)
    ensures
        name@ == record_name_of(id as nat),
{
    let mut name = decimal_text(id);
    name.append(GENERATION_FILE_EXT);
    name
}

/// A path without `/` begins its last component at the start; behind a
/// directory that ends with `/` it begins behind the directory.
pub proof fn lemma_name_start_of_child(dir: Seq<char>, name: Seq<char>)
    requires
        dir.len() == 0 || dir.last() == '/',
        forall|i: int| 0 <= i < name.len() ==> name[i] != '/',
    ensures
        name_start(dir + name) == dir.len(),
    decreases name.len(),
{
    let path = dir + name;
    if name.len() == 0 {
        assert(path =~= dir);
        if dir.len() > 0 {
            assert(path.last() == '/');
        }
    } else {
        assert(path.last() == name[name.len() - 1]);
        assert(path.drop_last() =~= dir + name.drop_last());
        lemma_name_start_of_child(dir, name.drop_last());
    }
}

/// A record that is named after a number, in any directory, gives that
/// number back when its path is read.
pub proof fn lemma_record_name_round_trip(dir: Seq<char>, id: nat)
    requires
        dir.len() == 0 || dir.last() == '/',
        id <= usize::MAX,
    ensures
        record_number(dir + record_name_of(id)) == Some(id as int),
{
    reveal_strlit(".json");
    let digits = decimal_digits(id);
    let ext = GENERATION_FILE_EXT@;
    let name = record_name_of(id);
    lemma_decimal_round_trip(id);
    assert(ext =~= seq!['.', 'j', 's', 'o', 'n']);
    assert forall|i: int| 0 <= i < name.len() implies name[i] != '/' by {
        if i < digits.len() {
            assert(crate::text::is_digit(digits[i]));
        } else {
            assert(name[i] == ext[i - digits.len()]);
        }
    }
    lemma_name_start_of_child(dir, name);
    assert((dir + name).skip(dir.len() as int) =~= name);
    assert(name.len() >= 6);
    assert(name.subrange(name.len() - ext.len(), name.len() as int) =~= ext);
    assert(name.subrange(0, name.len() - ext.len()) =~= digits);
}

/// How a moment is written in the list of generations.
pub const TIME_FORMAT: &'static str = "%Y-%m-%d %H:%M:%S";

/// The moment `secs` seconds after the start of 1970 (UTC), written by
/// chrono after `pattern`; `None` where chrono has no date for it.
pub uninterp spec fn chrono_format(secs: int, pattern: Seq<char>) -> Option<Seq<char>>;

/// `chrono::DateTime::from_timestamp` and `DateTime::format`. Trusted: that
/// both return normally for the pattern of the generation list, and that
/// what they give depends on the seconds and the pattern alone (the moment
/// is taken in UTC, so no time zone of the machine comes in).
#[verifier::external_body]
fn format_timestamp(secs: i64, pattern: &str) -> (text: Option<String>)
    requires
        pattern@ == TIME_FORMAT@,
    ensures
        text is Some == chrono_format(secs as int, pattern@) is Some,
        text matches Some(t) ==> chrono_format(secs as int, pattern@) == Some(t@),
{
    chrono::DateTime::from_timestamp(secs, 0).map(|moment| moment.format(pattern).to_string())
}

/// The moment `epoch_seconds` after the start of 1970 (UTC) as date and
/// time of day; `None` where it lies outside the years that chrono knows.
pub fn epoch_to_str(epoch_seconds: i64) -> (text: Option<String>)
    ensures
        text is Some == chrono_format(epoch_seconds as int, TIME_FORMAT@) is Some,
        text matches Some(t) ==> chrono_format(epoch_seconds as int, TIME_FORMAT@) == Some(t@),
{
    format_timestamp(epoch_seconds, TIME_FORMAT)
}

/// The user's configuration directory as `dirs::config_dir` finds it on
/// this machine, bytes that are no UTF-8 replaced. Nothing is claimed of it:
/// it depends on the user and on the variables of the process.
#[verifier::external_body]
fn config_home() -> (home: Option<String>) {
    dirs::config_dir().map(|path| path.to_string_lossy().to_string())
}

/// The path of `name` inside the directory `dir`: a `/` goes between them
/// unless `dir` is empty or ends with one.
pub open spec fn child_path(dir: Seq<char>, name: Seq<char>) -> Seq<char> {
    if dir.len() == 0 || dir.last() == '/' {
        dir + name
    } else {
        dir + seq!['/'] + name
    }
}

/// This program's directory inside the configuration directory `home`.
pub open spec fn conf_dir_of(home: Seq<char>) -> Seq<char> {
    child_path(home, "kaeru"@)
}

/// This program's directory inside the configuration directory `home`.
pub fn conf_dir_in(home: &str) -> (dir: String)
    ensures
        dir@ == conf_dir_of(home@),
{
    let n = home.unicode_len();
    let mut dir = String::from_str(home);
    if n > 0 && home.get_char(n - 1) != '/' {
        proof {
            reveal_strlit("/");
            assert("/"@ =~= seq!['/']);
        }
        dir.append("/");
    }
    dir.append("kaeru");
    dir
}

/// `tail` behind this program's directory inside the configuration
/// directory `home`; nothing where there is no configuration directory.
pub fn conf_path_in(home: Option<String>, tail: &str) -> (path: Option<String>)
    ensures
        path is Some == home is Some,
        path matches Some(p) ==> p@ == conf_dir_of(home.unwrap()@) + tail@,
{
    match home {
        Some(home) => {
            let mut path = conf_dir_in(home.as_str());
            path.append(tail);
            Some(path)
        },
        None => None,
    }
}

/// This program's configuration directory, where the user has a
/// configuration directory.
pub fn conf_dir() -> (dir: Option<String>)
    ensures
        dir matches Some(d) ==> exists|home: Seq<char>| d@ == conf_dir_of(home),
{
    let home = config_home();
    let ghost found = home;
    let dir = conf_path_in(home, "");
    proof {
        reveal_strlit("");
        if found is Some {
            assert(conf_dir_of(found.unwrap()@) + ""@ =~= conf_dir_of(found.unwrap()@));
        }
    }
    dir
}

/// `tail` behind this program's configuration directory, where the user
/// has a configuration directory.
fn under_conf_dir(tail: &str) -> (path: Option<String>)
    ensures
        path matches Some(p) ==> exists|home: Seq<char>| p@ == conf_dir_of(home) + tail@,
{
    conf_path_in(config_home(), tail)
}

/// The program's own configuration file.
pub fn conf_file() -> (path: Option<String>)
    ensures
        path matches Some(p) ==> exists|home: Seq<char>| p@ == conf_dir_of(home) + "/config.toml"@,
{
    under_conf_dir("/config.toml")
}

/// The directory of the manager configuration files.
pub fn managers_dir() -> (path: Option<String>)
    ensures
        path matches Some(p) ==> exists|home: Seq<char>| p@ == conf_dir_of(home) + "/manager/"@,
{
    under_conf_dir("/manager/")
}

/// The directory of the generation records.
pub fn gen_dir() -> (path: Option<String>)
    ensures
        path matches Some(p) ==> exists|home: Seq<char>| p@ == conf_dir_of(home) + "/gen/"@,
{
    under_conf_dir("/gen/")
}

/// The names of `names` that end with `extension`, in order.
pub open spec fn with_extension(names: Seq<Seq<char>>, extension: Seq<char>) -> Seq<Seq<char>>
    decreases names.len(),
{
    if names.len() == 0 {
        Seq::empty()
    } else if ends_with(names.last(), extension) {
        with_extension(names.drop_last(), extension).push(names.last())
    } else {
        with_extension(names.drop_last(), extension)
    }
}

/// Of the paths found in a directory, those that end with `extension`.
pub fn files_in_dir(entries: &Vec<String>, extension: &str) -> (files: Vec<String>)
    ensures
        texts(files@) == with_extension(texts(entries@), extension@),
{
    let mut files: Vec<String> = Vec::new();
    let mut i: usize = 0;
    assert(texts(files@) =~= Seq::<Seq<char>>::empty());
    assert(texts(entries@).take(0) =~= Seq::<Seq<char>>::empty());
    while i < entries.len()
        invariant
            i <= entries.len(),
            texts(files@) == with_extension(texts(entries@).take(i as int), extension@),
        decreases entries.len() - i,
    {
        proof {
            let next = texts(entries@).take(i + 1);
            assert(next.drop_last() == texts(entries@).take(i as int));
            assert(next.last() == entries@[i as int]@);
        }
        let ghost before = texts(files@);
        if has_suffix(entries[i].as_str(), extension) {
            files.push(entries[i].clone());
            assert(texts(files@) =~= before.push(entries@[i as int]@));
        }
        i += 1;
    }
    proof {
        assert(texts(entries@).take(entries.len() as int) == texts(entries@));
    }
    files
}

/// An answer that counts as yes: nothing at all, or the letter y.
pub open spec fn is_yes(answer: Seq<char>) -> bool {
    answer.len() == 0 || answer == seq!['y'] || answer == seq!['Y']
}

/// Whether the line that was read in answer to a yes-or-no question says
/// yes. White space around the answer does not count.
pub fn yesnoprompt(line: &str) -> (yes: bool)
    ensures
        yes == is_yes(trimmed(line@)),
{
    proof {
        reveal_strlit("y");
        reveal_strlit("Y");
        assert("y"@ =~= seq!['y']);
        assert("Y"@ =~= seq!['Y']);
    }
    let answer = trim(line);
    answer.unicode_len() == 0 || same_text(answer, "y") || same_text(answer, "Y")
}

} // verus!

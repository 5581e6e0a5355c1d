use crate::document::{
    fields_view, parse_fields, toml_fields, ConfigField, ConfigValue, FieldView, ValueView,
};
use crate::text::{
    add_texts, added, join, joined, remove_texts, same_text, substitute, substituted, texts,
    without,
};
use vstd::prelude::*;

verus! {

/// One package manager: its command templates, the packages it owns and the
/// configuration file it was read from.
pub struct Manager {
    installcmd: String,
    removecmd: String,
    synccmd: String,
    upgradecmd: String,
    items: Vec<String>,
    file: String,
}

pub struct ManagerView {
    pub installcmd: Seq<char>,
    pub removecmd: Seq<char>,
    pub synccmd: Seq<char>,
    pub upgradecmd: Seq<char>,
    pub items: Seq<Seq<char>>,
    pub file: Seq<char>,
}

impl View for Manager {
    type V = ManagerView;

    closed spec fn view(&self) -> ManagerView {
        ManagerView {
            installcmd: self.installcmd@,
            removecmd: self.removecmd@,
            synccmd: self.synccmd@,
            upgradecmd: self.upgradecmd@,
            items: texts(self.items@),
            file: self.file@,
        }
    }
}

/// The place in a command template where the package list goes.
pub open spec fn list_marker() -> Seq<char> {
    seq![':', '#', '?']
}

/// The command that `template` gives for `packages`: the packages, separated
/// by single spaces, in place of every marker.
pub open spec fn command_for(template: Seq<char>, packages: Seq<Seq<char>>) -> Seq<char> {
    substituted(template, list_marker(), joined(packages, seq![' ']))
}

/// The value of the first field named `key`.
pub open spec fn field_value(fields: Seq<FieldView>, key: Seq<char>) -> Option<ValueView>
    decreases fields.len(),
{
    if fields.len() == 0 {
        None
    } else if fields[0].key == key {
        Some(fields[0].value)
    } else {
        field_value(fields.drop_first(), key)
    }
}

/// The string that the field `key` holds, if there is such a field and it
/// holds a string.
pub open spec fn text_field(fields: Seq<FieldView>, key: Seq<char>) -> Option<Seq<char>> {
    match field_value(fields, key) {
        Some(ValueView::Text(t)) => Some(t),
        _ => None,
    }
}

/// The strings that the field `key` lists, if there is such a field and it
/// holds an array of strings only.
pub open spec fn list_field(fields: Seq<FieldView>, key: Seq<char>) -> Option<Seq<Seq<char>>> {
    match field_value(fields, key) {
        Some(ValueView::List(members)) => if forall|i: int|
            0 <= i < members.len() ==> (#[trigger] members[i]) is Some {
            Some(Seq::new(members.len(), |i: int| members[i].unwrap()))
        } else {
            None
        },
        _ => None,
    }
}

/// The manager that a document's fields define, to be kept in `file`: all
/// four command templates and the item list must be there, each of the right
/// shape; an item listed twice counts once.
pub open spec fn manager_of(fields: Seq<FieldView>, file: Seq<char>) -> Option<ManagerView> {
    let installcmd = text_field(fields, "installcmd"@);
    let removecmd = text_field(fields, "removecmd"@);
    let synccmd = text_field(fields, "synccmd"@);
    let upgradecmd = text_field(fields, "upgradecmd"@);
    let items = list_field(fields, "items"@);
    if installcmd is Some && removecmd is Some && synccmd is Some && upgradecmd is Some
        && items is Some {
        Some(
            ManagerView {
                installcmd: installcmd.unwrap(),
                removecmd: removecmd.unwrap(),
                synccmd: synccmd.unwrap(),
                upgradecmd: upgradecmd.unwrap(),
                items: added(Seq::empty(), items.unwrap()),
                file,
            },
        )
    } else {
        None
    }
}

/// The manager that the configuration text `content` defines, if it defines one.
pub open spec fn manager_of_content(content: Seq<char>, file: Seq<char>) -> Option<ManagerView> {
    match toml_fields(content) {
        Some(fields) => manager_of(fields, file),
        None => None,
    }
}

/// The place of the first field named `key`.
fn find_field(fields: &Vec<ConfigField>, key: &str) -> (at: Option<usize>)
    ensures
        at is Some == field_value(fields_view(fields@), key@) is Some,
        at matches Some(i) ==> i < fields.len() && field_value(fields_view(fields@), key@) == Some(
            fields@[i as int].value@,
        ),
{
    let ghost all = fields_view(fields@);
    let mut i: usize = 0;
    assert(all.skip(0) == all);
    while i < fields.len()
        invariant
            i <= fields.len(),
            all == fields_view(fields@),
            field_value(all, key@) == field_value(all.skip(i as int), key@),
        decreases fields.len() - i,
    {
        proof {
            assert(all.skip(i as int)[0] == fields@[i as int]@);
            assert(all.skip(i as int).drop_first() == all.skip(i + 1));
        }
        if same_text(fields[i].key.as_str(), key) {
            return Some(i);
        }
        i += 1;
    }
    None
}

/// The string that the field `key` holds.
fn read_text(fields: &Vec<ConfigField>, key: &str) -> (text: Option<String>)
    ensures
        text is Some == text_field(fields_view(fields@), key@) is Some,
        text matches Some(t) ==> text_field(fields_view(fields@), key@) == Some(t@),
{
    match find_field(fields, key) {
        Some(i) => match &fields[i].value {
            ConfigValue::Text(t) => Some(t.clone()),
            _ => None,
        },
        None => None,
    }
}

/// The strings that the field `key` lists.
fn read_list(fields: &Vec<ConfigField>, key: &str) -> (list: Option<Vec<String>>)
    ensures
        list is Some == list_field(fields_view(fields@), key@) is Some,
        list matches Some(l) ==> list_field(fields_view(fields@), key@) == Some(texts(l@)),
{
    match find_field(fields, key) {
        Some(i) => match &fields[i].value {
            ConfigValue::List(members) => {
                let ghost shown = fields@[i as int].value@->List_0;
                let mut list: Vec<String> = Vec::new();
                let mut j: usize = 0;
                while j < members.len()
                    invariant
                        j <= members.len(),
                        list.len() == j,
                        shown.len() == members.len(),
                        field_value(fields_view(fields@), key@) == Some(ValueView::List(shown)),
                        forall|k: int|
                            0 <= k < members.len() ==> #[trigger] shown[k] == crate::document::member_view(
                                members@[k],
                            ),
                        forall|k: int|
                            0 <= k < j ==> (#[trigger] shown[k]) == Some(list@[k]@),
                    decreases members.len() - j,
                {
                    match &members[j] {
                        Some(m) => {
                            list.push(m.clone());
                        },
                        None => {
                            assert(shown[j as int] is None);
                            return None;
                        },
                    }
                    j += 1;
                }
                proof {
                    assert(texts(list@) =~= Seq::new(shown.len(), |k: int| shown[k].unwrap()));
                }
                Some(list)
            },
            _ => None,
        },
        None => None,
    }
}

impl Manager {
    /// The manager that the configuration text `content` defines, to be kept
    /// in `filename`; `None` where the text defines none.
    pub fn new(filename: String, content: &str) -> (manager: Option<Self>)
        ensures
            manager is Some == manager_of_content(content@, filename@) is Some,
            manager matches Some(m) ==> manager_of_content(content@, filename@) == Some(m@),
    {
        match parse_fields(content) {
            Some(fields) => Self::from_fields(filename, &fields),
            None => None,
        }
    }

    /// The manager that the fields of a configuration document define.
    pub fn from_fields(filename: String, fields: &Vec<ConfigField>) -> (manager: Option<Self>)
        ensures
            manager is Some == manager_of(fields_view(fields@), filename@) is Some,
            manager matches Some(m) ==> manager_of(fields_view(fields@), filename@) == Some(m@),
    {
        let installcmd = read_text(fields, "installcmd");
        let removecmd = read_text(fields, "removecmd");
        let synccmd = read_text(fields, "synccmd");
        let upgradecmd = read_text(fields, "upgradecmd");
        let listed = read_list(fields, "items");
        match (installcmd, removecmd, synccmd, upgradecmd, listed) {
            (Some(installcmd), Some(removecmd), Some(synccmd), Some(upgradecmd), Some(listed)) => {
                let mut items: Vec<String> = Vec::new();
                assert(texts(items@) == Seq::<Seq<char>>::empty());
                add_texts(&mut items, &listed);
                Some(Manager { installcmd, removecmd, synccmd, upgradecmd, items, file: filename })
            },
            _ => None,
        }
    }

    /// The template of the install command.
    pub fn installcmd(&self) -> (template: &String)
        ensures
            template@ == self@.installcmd,
    {
        &self.installcmd
    }

    /// The template of the remove command.
    pub fn removecmd(&self) -> (template: &String)
        ensures
            template@ == self@.removecmd,
    {
        &self.removecmd
    }

    /// The packages that the manager owns, each once.
    pub fn items(&self) -> (items: &Vec<String>)
        ensures
            texts(items@) == self@.items,
    {
        &self.items
    }

    /// The configuration file that the manager is kept in.
    pub fn file(&self) -> (file: &String)
        ensures
            file@ == self@.file,
    {
        &self.file
    }

    /// Takes `packages` into the item set and returns the install command for
    /// them. The items change whether or not the command is ever run.
    pub fn install(&mut self, packages: Vec<String>) -> (command: String)
        ensures
            command@ == command_for(old(self)@.installcmd, texts(packages@)),
            final(self)@ == (ManagerView {
                items: added(old(self)@.items, texts(packages@)),
                ..old(self)@
            }),
    {
        let list = join(&packages, " ");
        proof {
            reveal_strlit(" ");
            reveal_strlit(":#?");
            assert(" "@ == seq![' ']);
            assert(":#?"@ == list_marker());
        }
        let command = substitute(self.installcmd.as_str(), ":#?", list.as_str());
        add_texts(&mut self.items, &packages);
        command
    }

    /// Takes `packages` out of the item set and returns the remove command
    /// for them. The items change whether or not the command is ever run.
    pub fn remove(&mut self, packages: Vec<String>) -> (command: String)
        ensures
            command@ == command_for(old(self)@.removecmd, texts(packages@)),
            final(self)@ == (ManagerView {
                items: without(old(self)@.items, texts(packages@)),
                ..old(self)@
            }),
    {
        let list = join(&packages, " ");
        proof {
            reveal_strlit(" ");
            reveal_strlit(":#?");
            assert(" "@ == seq![' ']);
            assert(":#?"@ == list_marker());
        }
        let command = substitute(self.removecmd.as_str(), ":#?", list.as_str());
        self.items = remove_texts(&self.items, &packages);
        command
    }

    /// The command that brings the manager's package database up to date.
    pub fn sync(&self) -> (command: String)
        ensures
            command@ == self@.synccmd,
    {
        self.synccmd.clone()
    }

    /// The command that upgrades what the manager has installed.
    pub fn upgrade(&self) -> (command: String)
        ensures
            command@ == self@.upgradecmd,
    {
        self.upgradecmd.clone()
    }
}

} // verus!

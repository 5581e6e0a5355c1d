use vstd::prelude::*;

verus! {

/// What one top-level key of a configuration document holds, as far as a
/// manager definition reads it: a string, an array, or anything else.
pub enum ConfigValue {
    Text(String),
    /// The array's members in order; a member that is no string is `None`.
    List(Vec<Option<String>>),
    Other,
}

/// One top-level key of a configuration document with its value.
pub struct ConfigField {
    pub key: String,
    pub value: ConfigValue,
}

pub enum ValueView {
    Text(Seq<char>),
    List(Seq<Option<Seq<char>>>),
    Other,
}

pub struct FieldView {
    pub key: Seq<char>,
    pub value: ValueView,
}

/// A member of an array as its view.
pub open spec fn member_view(member: Option<String>) -> Option<Seq<char>> {
    match member {
        Some(s) => Some(s@),
        None => None,
    }
}

impl View for ConfigValue {
    type V = ValueView;

    open spec fn view(&self) -> ValueView {
        match self {
            ConfigValue::Text(s) => ValueView::Text(s@),
            ConfigValue::List(members) => ValueView::List(
                Seq::new(members@.len(), |i: int| member_view(members@[i])),
            ),
            ConfigValue::Other => ValueView::Other,
        }
    }
}

impl View for ConfigField {
    type V = FieldView;

    open spec fn view(&self) -> FieldView {
        FieldView { key: self.key@, value: self.value@ }
    }
}

/// The fields as their views, in order.
pub open spec fn fields_view(fields: Seq<ConfigField>) -> Seq<FieldView> {
    Seq::new(fields.len(), |i: int| fields[i]@)
}

/// The top-level keys of the TOML document `content` with their values, or
/// `None` where `content` is no TOML document.
pub uninterp spec fn toml_fields(content: Seq<char>) -> Option<Seq<FieldView>>;

/// Parses `content` with `toml::from_str` into a `toml::Table` and hands out
/// its entries. Trusted: that the parser returns normally on every text, that
/// its answer depends on the text alone, and that the entries come out as the
/// table holds them, each string and each array of the document unchanged.
#[verifier::external_body]
pub(crate) fn parse_fields(content: &str) -> (fields: Option<Vec<ConfigField>>)
    ensures
        fields is Some == toml_fields(content@) is Some,
        fields matches Some(f) ==> Some(fields_view(f@)) == toml_fields(content@),
{
    let table = toml::from_str::<toml::Table>(content).ok()?;
    Some(table.into_iter().map(|(key, value)| ConfigField { key, value: match value {
        toml::Value::String(s) => ConfigValue::Text(s),
        toml::Value::Array(a) => ConfigValue::List(a.into_iter().map(|m| match m {
            toml::Value::String(s) => Some(s),
            _ => None,
        }).collect()),
        _ => ConfigValue::Other,
    } }).collect())
}

} // verus!

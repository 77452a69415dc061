//! Configuration values and their text form: sections in square brackets,
//! each followed by its settings, one `key = value` line apiece.

use vstd::prelude::*;
use vstd::string::StringExecFns;
use crate::modules::json::{
    bool_text, decimal_text, distinct_keys, json_array, json_bool, json_content, json_null,
    json_number, json_object, json_string, json_text, json_to_string, json_unsigned, null_text,
};

verus! {

/// A configuration value: a scalar, a list, or an object whose entries keep
/// the order in which they were written. An integer is a `Number`, or an
/// `Unsigned` where it is too large for that.
#[derive(Debug, PartialEq, Eq)]
pub enum ConfigValue {
    Null,
    Bool(bool),
    Number(i64),
    Unsigned(u64),
    Text(String),
    List(Vec<ConfigValue>),
    Object(Vec<(String, ConfigValue)>),
}

/// The mathematical value that a `ConfigValue` stands for.
pub enum ConfigModel {
    Null,
    Bool(bool),
    Number(int),
    Text(Seq<char>),
    List(Seq<ConfigModel>),
    Object(Seq<(Seq<char>, ConfigModel)>),
}

impl View for ConfigValue {
    type V = ConfigModel;

    open spec fn view(&self) -> ConfigModel
        decreases self,
    {
        match self {
            ConfigValue::Null => ConfigModel::Null,
            ConfigValue::Bool(b) => ConfigModel::Bool(*b),
            ConfigValue::Number(n) => ConfigModel::Number(*n as int),
            ConfigValue::Unsigned(n) => ConfigModel::Number(*n as int),
            ConfigValue::Text(s) => ConfigModel::Text(s@),
            ConfigValue::List(items) => ConfigModel::List(
                Seq::new(
                    items@.len(),
                    |i: int|
                        if 0 <= i < items@.len() {
                            items@[i].view()
                        } else {
                            ConfigModel::Null
                        },
                ),
            ),
            ConfigValue::Object(entries) => ConfigModel::Object(
                Seq::new(
                    entries@.len(),
                    // The bound keeps the descent inside the value itself.
                    |i: int|
                        (
                            entries@[i].0@,
                            if 0 <= i < entries@.len() {
                                entries@[i].1.view()
                            } else {
                                ConfigModel::Null
                            },
                        ),
                ),
            ),
        }
    }
}

impl ConfigModel {
    /// Whether every object in the value, itself included, is a mapping: no
    /// key occurs twice in it.
    pub open spec fn well_formed(self) -> bool
        decreases self,
    {
        match self {
            ConfigModel::List(items) => forall|i: int|
                0 <= i < items.len() ==> (#[trigger] items[i]).well_formed(),
            ConfigModel::Object(entries) => {
                &&& distinct_keys(entries)
                &&& forall|i: int|
                    0 <= i < entries.len() ==> (#[trigger] entries[i]).1.well_formed()
            },
            _ => true,
        }
    }
}

/// Why a configuration has no text form.
#[derive(Debug, PartialEq, Eq)]
pub enum ConfigError {
    /// The value is not an object, or it is an object without sections.
    InvalidConfig,
    /// The value of the named section is not an object.
    InvalidSection(String),
    /// Under the named section, the value of a subsection is not an object.
    InvalidSettings(String),
    /// Writing a setting's value as JSON failed. This does not occur: the
    /// text is written into memory.
    Unwritable,
}

/// The mathematical value of a `ConfigError`.
pub enum ConfigFault {
    InvalidConfig,
    InvalidSection(Seq<char>),
    InvalidSettings(Seq<char>),
    Unwritable,
}

impl View for ConfigError {
    type V = ConfigFault;

    open spec fn view(&self) -> ConfigFault {
        match self {
            ConfigError::InvalidConfig => ConfigFault::InvalidConfig,
            ConfigError::InvalidSection(name) => ConfigFault::InvalidSection(name@),
            ConfigError::InvalidSettings(name) => ConfigFault::InvalidSettings(name@),
            ConfigError::Unwritable => ConfigFault::Unwritable,
        }
    }
}

/// The text of a setting's value: a string as it is, every other value as
/// compact JSON.
pub open spec fn value_text(value: ConfigModel) -> Seq<char> {
    match value {
        ConfigModel::Text(s) => s,
        ConfigModel::Null => null_text(),
        ConfigModel::Bool(b) => bool_text(b),
        ConfigModel::Number(n) => decimal_text(n),
        other => json_text(other),
    }
}

/// The line of one setting: two spaces, the key, ` = `, the value's text and
/// a line feed.
pub open spec fn setting_line(key: Seq<char>, text: Seq<char>) -> Seq<char> {
    "  "@ + key + " = "@ + text + "\n"@
}

/// The header of a section: `[section]` where the subsection has no name,
/// `[section "subsection"]` where it has one; a line feed ends it.
pub open spec fn header_line(section: Seq<char>, subsection: Seq<char>) -> Seq<char> {
    if subsection.len() == 0 {
        "["@ + section + "]\n"@
    } else {
        "["@ + section + " \""@ + subsection + "\"]\n"@
    }
}

/// The lines of the settings, in their order.
pub open spec fn settings_text(settings: Seq<(Seq<char>, ConfigModel)>) -> Seq<char>
    decreases settings.len(),
{
    if settings.len() == 0 {
        Seq::empty()
    } else {
        settings_text(settings.drop_last()) + setting_line(
            settings.last().0,
            value_text(settings.last().1),
        )
    }
}

/// The header and the settings of one subsection of `section`.
pub open spec fn subsection_text(section: Seq<char>, name: Seq<char>, value: ConfigModel) -> Result<
    Seq<char>,
    ConfigFault,
> {
    match value {
        ConfigModel::Object(settings) => Ok(header_line(section, name) + settings_text(settings)),
        _ => Err(ConfigFault::InvalidSettings(section)),
    }
}

/// The text of the subsections of `section`, in their order. Fails at the
/// first subsection that has no text.
pub open spec fn subsections_text(
    section: Seq<char>,
    subsections: Seq<(Seq<char>, ConfigModel)>,
) -> Result<Seq<char>, ConfigFault>
    decreases subsections.len(),
{
    if subsections.len() == 0 {
        Ok(Seq::empty())
    } else {
        match subsections_text(section, subsections.drop_last()) {
            Err(fault) => Err(fault),
            Ok(before) => match subsection_text(
                section,
                subsections.last().0,
                subsections.last().1,
            ) {
                Err(fault) => Err(fault),
                Ok(text) => Ok(before + text),
            },
        }
    }
}

/// The text of one section.
pub open spec fn section_text(name: Seq<char>, value: ConfigModel) -> Result<
    Seq<char>,
    ConfigFault,
> {
    match value {
        ConfigModel::Object(subsections) => subsections_text(name, subsections),
        _ => Err(ConfigFault::InvalidSection(name)),
    }
}

/// The text of the sections, in their order. Fails at the first section that
/// has no text.
pub open spec fn sections_text(sections: Seq<(Seq<char>, ConfigModel)>) -> Result<
    Seq<char>,
    ConfigFault,
>
    decreases sections.len(),
{
    if sections.len() == 0 {
        Ok(Seq::empty())
    } else {
        match sections_text(sections.drop_last()) {
            Err(fault) => Err(fault),
            Ok(before) => match section_text(sections.last().0, sections.last().1) {
                Err(fault) => Err(fault),
                Ok(text) => Ok(before + text),
            },
        }
    }
}

/// The text form of a configuration: that of its sections, where the value is
/// an object with at least one section.
pub open spec fn config_text(config: ConfigModel) -> Result<Seq<char>, ConfigFault> {
    match config {
        ConfigModel::Object(sections) => if sections.len() == 0 {
            Err(ConfigFault::InvalidConfig)
        } else {
            sections_text(sections)
        },
        _ => Err(ConfigFault::InvalidConfig),
    }
}

/// What a call gave, as a mathematical value.
pub open spec fn outcome(r: Result<String, ConfigError>) -> Result<Seq<char>, ConfigFault> {
    match r {
        Ok(text) => Ok(text@),
        Err(error) => Err(error@),
    }
}

/// The entries of an object, as mathematical values.
pub open spec fn entries_model(entries: Seq<(String, ConfigValue)>) -> Seq<
    (Seq<char>, ConfigModel),
> {
    Seq::new(entries.len(), |i: int| (entries[i].0@, entries[i].1@))
}

/// The items of a list, as mathematical values.
pub open spec fn items_model(items: Seq<ConfigValue>) -> Seq<ConfigModel> {
    Seq::new(items.len(), |i: int| items[i]@)
}

/// An object's view is the model of its entries.
pub proof fn lemma_object_view(entries: Vec<(String, ConfigValue)>)
    ensures
        ConfigValue::Object(entries)@ == ConfigModel::Object(entries_model(entries@)),
{
    let value = ConfigValue::Object(entries);
    assert(value@->Object_0 =~= entries_model(entries@));
}

/// A list's view is the model of its items.
pub proof fn lemma_list_view(items: Vec<ConfigValue>)
    ensures
        ConfigValue::List(items)@ == ConfigModel::List(items_model(items@)),
{
    let value = ConfigValue::List(items);
    assert(value@->List_0 =~= items_model(items@));
}

/// Builds the JSON value that holds what `value` holds.
fn to_json(value: &ConfigValue) -> (out: serde_json::Value)
    requires
        value@.well_formed(),
    ensures
        json_content(out) == value@,
    decreases value,
{
    match value {
        ConfigValue::Null => json_null(),
        ConfigValue::Bool(b) => json_bool(*b),
        ConfigValue::Number(n) => json_number(*n),
        ConfigValue::Unsigned(n) => json_unsigned(*n),
        ConfigValue::Text(s) => json_string(s.as_str()),
        ConfigValue::List(items) => {
            proof {
                lemma_list_view(*items);
            }
            let mut built: Vec<serde_json::Value> = Vec::new();
            let mut i: usize = 0;
            while i < items.len()
                invariant
                    i <= items.len(),
                    *value == ConfigValue::List(*items),
                    value@ == ConfigModel::List(items_model(items@)),
                    value@.well_formed(),
                    built@.len() == i,
                    forall|k: int| 0 <= k < i ==> json_content(#[trigger] built@[k]) == items@[k]@,
                decreases items.len() - i,
            {
                assert(value@->List_0 == items_model(items@));
                assert(items_model(items@)[i as int].well_formed());
                let item = to_json(&items[i]);
                built.push(item);
                i += 1;
            }
            let out = json_array(built);
            assert(built@.map_values(|x: serde_json::Value| json_content(x)) =~= items_model(
                items@,
            ));
            out
        },
        ConfigValue::Object(entries) => {
            proof {
                lemma_object_view(*entries);
            }
            let mut built: Vec<(String, serde_json::Value)> = Vec::new();
            let mut i: usize = 0;
            while i < entries.len()
                invariant
                    i <= entries.len(),
                    *value == ConfigValue::Object(*entries),
                    value@ == ConfigModel::Object(entries_model(entries@)),
                    value@.well_formed(),
                    built@.len() == i,
                    forall|k: int|
                        0 <= k < i ==> (#[trigger] built@[k]).0@ == entries@[k].0@
                            && json_content(built@[k].1) == entries@[k].1@,
                decreases entries.len() - i,
            {
                assert(value@->Object_0 == entries_model(entries@));
                assert(entries_model(entries@)[i as int].1.well_formed());
                let item = to_json(&entries[i].1);
                built.push((entries[i].0.clone(), item));
                i += 1;
            }
            let ghost keyed = built@.map_values(|e: (String, serde_json::Value)| (e.0@, e.1));
            assert(distinct_keys(keyed)) by {
                assert forall|a: int, b: int| 0 <= a < b < keyed.len() implies (#[trigger] keyed[a]).0
                    != (#[trigger] keyed[b]).0 by {
                    assert(entries_model(entries@)[a].0 != entries_model(entries@)[b].0);
                    assert(built@[a].0@ == entries@[a].0@);
                    assert(built@[b].0@ == entries@[b].0@);
                }
            }
            let out = json_object(built);
            assert(built@.map_values(|e: (String, serde_json::Value)| (e.0@, json_content(e.1)))
                =~= entries_model(entries@));
            out
        },
    }
}

/// The text of a setting's value: a string as it is, every other value as
/// the compact JSON that `serde_json` writes for it. The result is always
/// `Ok`; the error stands for the failure that the outside call could
/// return and never does.
pub fn value_to_text(value: &ConfigValue) -> (r: Result<String, ConfigError>)
    requires
        value@.well_formed(),
    ensures
        r matches Ok(text) && text@ == value_text(value@),
{
    match value {
        ConfigValue::Text(s) => Ok(s.clone()),
        _ => {
            let json = to_json(value);
            match json_to_string(&json) {
                Ok(text) => Ok(text),
                Err(_) => Err(ConfigError::Unwritable),
            }
        },
    }
}

/// The line of one setting, from its key and the text of its value.
pub fn format_setting(key: &str, text: &str) -> (line: String)
    ensures
        line@ == setting_line(key@, text@),
{
    let mut line = String::from_str("  ");
    line.append(key);
    line.append(" = ");
    line.append(text);
    line.append("\n");
    line
}

/// The header line of a subsection of `section`.
pub fn format_header(section: &str, subsection: &str) -> (line: String)
    ensures
        line@ == header_line(section@, subsection@),
{
    let mut line = String::from_str("[");
    line.append(section);
    if !subsection.is_empty() {
        line.append(" \"");
        line.append(subsection);
        line.append("\"]\n");
    } else {
        line.append("]\n");
    }
    line
}

/// The lines of the settings of one subsection.
fn settings_to_text(settings: &Vec<(String, ConfigValue)>) -> (r: Result<String, ConfigError>)
    requires
        forall|k: int| 0 <= k < settings@.len() ==> (#[trigger] settings@[k]).1@.well_formed(),
    ensures
        r matches Ok(text) && text@ == settings_text(entries_model(settings@)),
{
    let ghost model = entries_model(settings@);
    let mut out = String::new();
    let mut i: usize = 0;
    while i < settings.len()
        invariant
            i <= settings.len(),
            model == entries_model(settings@),
            forall|k: int| 0 <= k < settings@.len() ==> (#[trigger] settings@[k]).1@.well_formed(),
            settings_text(model.take(i as int)) == out@,
        decreases settings.len() - i,
    {
        proof {
            assert(model.take(i + 1).drop_last() =~= model.take(i as int));
            assert(model.take(i + 1).last() == model[i as int]);
            assert(settings@[i as int].1@.well_formed());
        }
        match value_to_text(&settings[i].1) {
            Err(error) => {
                return Err(error);
            },
            Ok(text) => {
                let line = format_setting(settings[i].0.as_str(), text.as_str());
                out.append(line.as_str());
            },
        }
        i += 1;
    }
    proof {
        assert(model.take(i as int) =~= model);
    }
    Ok(out)
}

/// Once the subsections up to some point have no text, all of them have
/// none, for the same reason.
pub proof fn lemma_subsections_fault_stays(
    section: Seq<char>,
    subsections: Seq<(Seq<char>, ConfigModel)>,
    n: int,
)
    requires
        0 <= n <= subsections.len(),
        subsections_text(section, subsections.take(n)) is Err,
    ensures
        subsections_text(section, subsections) == subsections_text(section, subsections.take(n)),
    decreases subsections.len(),
{
    if n < subsections.len() {
        assert(subsections.drop_last().take(n) =~= subsections.take(n));
        lemma_subsections_fault_stays(section, subsections.drop_last(), n);
    } else {
        assert(subsections.take(n) =~= subsections);
    }
}

/// Once the sections up to some point have no text, all of them have none,
/// for the same reason.
pub proof fn lemma_sections_fault_stays(sections: Seq<(Seq<char>, ConfigModel)>, n: int)
    requires
        0 <= n <= sections.len(),
        sections_text(sections.take(n)) is Err,
    ensures
        sections_text(sections) == sections_text(sections.take(n)),
    decreases sections.len(),
{
    if n < sections.len() {
        assert(sections.drop_last().take(n) =~= sections.take(n));
        lemma_sections_fault_stays(sections.drop_last(), n);
    } else {
        assert(sections.take(n) =~= sections);
    }
}

/// The header and the settings of one subsection of `section`.
fn subsection_to_text(section: &str, name: &str, value: &ConfigValue) -> (r: Result<
    String,
    ConfigError,
>)
    requires
        value@.well_formed(),
    ensures
        outcome(r) == subsection_text(section@, name@, value@),
{
    match value {
        ConfigValue::Object(settings) => {
            proof {
                lemma_object_view(*settings);
                assert forall|k: int| 0 <= k < settings@.len() implies (#[trigger] settings@[k]).1@.well_formed() by {
                    assert(entries_model(settings@)[k].1.well_formed());
                }
            }
            match settings_to_text(settings) {
                Err(error) => Err(error),
                Ok(lines) => {
                    let mut out = format_header(section, name);
                    out.append(lines.as_str());
                    Ok(out)
                },
            }
        },
        _ => Err(ConfigError::InvalidSettings(section.to_owned())),
    }
}

/// The text of one section.
fn section_to_text(name: &str, value: &ConfigValue) -> (r: Result<String, ConfigError>)
    requires
        value@.well_formed(),
    ensures
        outcome(r) == section_text(name@, value@),
{
    match value {
        ConfigValue::Object(subsections) => {
            let ghost model = entries_model(subsections@);
            proof {
                lemma_object_view(*subsections);
            }
            let mut out = String::new();
            let mut i: usize = 0;
            while i < subsections.len()
                invariant
                    i <= subsections.len(),
                    model == entries_model(subsections@),
                    value@ == ConfigModel::Object(model),
                    value@.well_formed(),
                    subsections_text(name@, model.take(i as int)) == Ok::<Seq<char>, ConfigFault>(
                        out@,
                    ),
                decreases subsections.len() - i,
            {
                proof {
                    assert(model.take(i + 1).drop_last() =~= model.take(i as int));
                    assert(model.take(i + 1).last() == model[i as int]);
                    assert(model[i as int].1.well_formed());
                }
                match subsection_to_text(name, subsections[i].0.as_str(), &subsections[i].1) {
                    Err(error) => {
                        proof {
                            lemma_subsections_fault_stays(name@, model, i + 1);
                        }
                        return Err(error);
                    },
                    Ok(text) => {
                        out.append(text.as_str());
                    },
                }
                i += 1;
            }
            proof {
                assert(model.take(i as int) =~= model);
            }
            Ok(out)
        },
        _ => Err(ConfigError::InvalidSection(name.to_owned())),
    }
}

/// Writes a configuration as text.
///
/// The value has to be an object with at least one section; each section an
/// object of subsections; each subsection an object of settings. Sections,
/// subsections and settings come out in the order in which they stand. A
/// subsection without a name gives the header `[section]`, one with a name
/// `[section "name"]`; each setting gives a line `  key = value`, where a
/// string stands as it is and every other value as compact JSON.
pub fn obj_to_str(config_obj: &ConfigValue) -> (r: Result<String, ConfigError>)
    requires
        config_obj@.well_formed(),
    ensures
        outcome(r) == config_text(config_obj@),
        r is Ok <==> config_valid(config_obj@),
        !(config_obj@ is Object) || config_obj@->Object_0.len() == 0 ==> outcome(r) == Err::<
            Seq<char>,
            ConfigFault,
        >(ConfigFault::InvalidConfig),
{
    proof {
        lemma_config_text_ok(config_obj@);
    }
    match config_obj {
        ConfigValue::Object(sections) => {
            if sections.len() == 0 {
                proof {
                    lemma_object_view(*sections);
                }
                return Err(ConfigError::InvalidConfig);
            }
            let ghost model = entries_model(sections@);
            proof {
                lemma_object_view(*sections);
            }
            let mut out = String::new();
            let mut i: usize = 0;
            while i < sections.len()
                invariant
                    i <= sections.len(),
                    model == entries_model(sections@),
                    config_obj@ == ConfigModel::Object(model),
                    config_obj@.well_formed(),
                    sections_text(model.take(i as int)) == Ok::<Seq<char>, ConfigFault>(out@),
                decreases sections.len() - i,
            {
                proof {
                    assert(model.take(i + 1).drop_last() =~= model.take(i as int));
                    assert(model.take(i + 1).last() == model[i as int]);
                    assert(model[i as int].1.well_formed());
                }
                match section_to_text(sections[i].0.as_str(), &sections[i].1) {
                    Err(error) => {
                        proof {
                            lemma_sections_fault_stays(model, i + 1);
                            lemma_config_text_ok(config_obj@);
                        }
                        return Err(error);
                    },
                    Ok(text) => {
                        out.append(text.as_str());
                    },
                }
                i += 1;
            }
            proof {
                assert(model.take(i as int) =~= model);
            }
            Ok(out)
        },
        _ => Err(ConfigError::InvalidConfig),
    }
}

impl ConfigFault {
    /// Whether the fault lies in the shape of the configuration: the value,
    /// a section or a subsection is not an object, or there is no section.
    pub open spec fn is_invalid_config(self) -> bool {
        !(self is Unwritable)
    }

    /// The words that describe the fault.
    pub open spec fn message(self) -> Seq<char> {
        match self {
            ConfigFault::InvalidConfig => "Invalid configObj: Must be a non-empty object."@,
            ConfigFault::InvalidSection(name) => "Invalid section '"@ + name
                + "': Must contain subsection objects."@,
            ConfigFault::InvalidSettings(name) => "Invalid settings for ["@ + name
                + "]: Must be an object."@,
            ConfigFault::Unwritable => "Invalid value: Cannot be written as JSON."@,
        }
    }
}

impl ConfigError {
    /// Whether the error lies in the shape of the configuration.
    pub fn is_invalid_config(&self) -> (r: bool)
        ensures
            r == self@.is_invalid_config(),
    {
        match self {
            ConfigError::Unwritable => false,
            _ => true,
        }
    }

    /// The words that describe the error.
    pub fn message(&self) -> (text: String)
        ensures
            text@ == self@.message(),
    {
        match self {
            ConfigError::InvalidConfig => String::from_str(
                "Invalid configObj: Must be a non-empty object.",
            ),
            ConfigError::InvalidSection(name) => {
                let mut text = String::from_str("Invalid section '");
                text.append(name.as_str());
                text.append("': Must contain subsection objects.");
                text
            },
            ConfigError::InvalidSettings(name) => {
                let mut text = String::from_str("Invalid settings for [");
                text.append(name.as_str());
                text.append("]: Must be an object.");
                text
            },
            ConfigError::Unwritable => String::from_str("Invalid value: Cannot be written as JSON."),
        }
    }
}

/// Whether no key occurs twice among the entries.
fn has_distinct_keys(entries: &Vec<(String, ConfigValue)>) -> (r: bool)
    ensures
        r == distinct_keys(entries_model(entries@)),
{
    let ghost model = entries_model(entries@);
    let mut j: usize = 0;
    while j < entries.len()
        invariant
            j <= entries.len(),
            model == entries_model(entries@),
            forall|a: int, b: int| 0 <= a < b < j ==> (#[trigger] model[a]).0 != (#[trigger] model[b]).0,
        decreases entries.len() - j,
    {
        let mut i: usize = 0;
        while i < j
            invariant
                i <= j < entries.len(),
                model == entries_model(entries@),
                forall|a: int| 0 <= a < i ==> (#[trigger] model[a]).0 != model[j as int].0,
            decreases j - i,
        {
            if entries[i].0 == entries[j].0 {
                proof {
                    assert(model[i as int].0 == model[j as int].0);
                }
                return false;
            }
            i += 1;
        }
        j += 1;
    }
    true
}

impl ConfigValue {
    /// Whether every object in the value, itself included, is a mapping: no
    /// key occurs twice in it.
    pub fn is_well_formed(&self) -> (r: bool)
        ensures
            r == self@.well_formed(),
        decreases self,
    {
        match self {
            ConfigValue::List(items) => {
                proof {
                    lemma_list_view(*items);
                }
                let mut i: usize = 0;
                while i < items.len()
                    invariant
                        i <= items.len(),
                        *self == ConfigValue::List(*items),
                        self@ == ConfigModel::List(items_model(items@)),
                        forall|k: int| 0 <= k < i ==> (#[trigger] items_model(items@)[k]).well_formed(),
                    decreases items.len() - i,
                {
                    if !items[i].is_well_formed() {
                        proof {
                            assert(self@->List_0 == items_model(items@));
                            assert(items_model(items@)[i as int] == items@[i as int]@);
                            assert(!self@->List_0[i as int].well_formed());
                        }
                        return false;
                    }
                    i += 1;
                }
                true
            },
            ConfigValue::Object(entries) => {
                proof {
                    lemma_object_view(*entries);
                }
                if !has_distinct_keys(entries) {
                    return false;
                }
                let mut i: usize = 0;
                while i < entries.len()
                    invariant
                        i <= entries.len(),
                        *self == ConfigValue::Object(*entries),
                        self@ == ConfigModel::Object(entries_model(entries@)),
                        distinct_keys(entries_model(entries@)),
                        forall|k: int|
                            0 <= k < i ==> (#[trigger] entries_model(entries@)[k]).1.well_formed(),
                    decreases entries.len() - i,
                {
                    if !entries[i].1.is_well_formed() {
                        proof {
                            assert(self@->Object_0 == entries_model(entries@));
                            assert(entries_model(entries@)[i as int].1 == entries@[i as int].1@);
                            assert(!self@->Object_0[i as int].1.well_formed());
                        }
                        return false;
                    }
                    i += 1;
                }
                true
            },
            _ => true,
        }
    }
}

/// Whether each of the subsections is an object.
pub open spec fn subsections_valid(subsections: Seq<(Seq<char>, ConfigModel)>) -> bool {
    forall|i: int| 0 <= i < subsections.len() ==> (#[trigger] subsections[i]).1 is Object
}

/// Whether each of the sections is an object of valid subsections.
pub open spec fn sections_valid(sections: Seq<(Seq<char>, ConfigModel)>) -> bool {
    forall|i: int|
        0 <= i < sections.len() ==> (#[trigger] sections[i]).1 is Object && subsections_valid(
            sections[i].1->Object_0,
        )
}

/// Whether the configuration has a text form: it is an object with at least
/// one section, each section an object and each subsection an object.
pub open spec fn config_valid(config: ConfigModel) -> bool {
    &&& config is Object
    &&& config->Object_0.len() > 0
    &&& sections_valid(config->Object_0)
}

/// The subsections have a text exactly when they are valid.
pub proof fn lemma_subsections_text_ok(
    section: Seq<char>,
    subsections: Seq<(Seq<char>, ConfigModel)>,
)
    ensures
        subsections_text(section, subsections) is Ok <==> subsections_valid(subsections),
    decreases subsections.len(),
{
    if subsections.len() > 0 {
        let earlier = subsections.drop_last();
        let last = subsections.last();
        lemma_subsections_text_ok(section, earlier);
        if subsections_valid(subsections) {
            assert forall|i: int| 0 <= i < earlier.len() implies (#[trigger] earlier[i]).1 is Object by {
                assert(earlier[i] == subsections[i]);
            }
            assert(last == subsections[subsections.len() - 1]);
        }
        if subsections_text(section, subsections) is Ok {
            assert forall|i: int| 0 <= i < subsections.len() implies (
            #[trigger] subsections[i]).1 is Object by {
                if i < earlier.len() {
                    assert(earlier[i] == subsections[i]);
                }
            }
        }
    }
}

/// The sections have a text exactly when they are valid.
pub proof fn lemma_sections_text_ok(sections: Seq<(Seq<char>, ConfigModel)>)
    ensures
        sections_text(sections) is Ok <==> sections_valid(sections),
    decreases sections.len(),
{
    if sections.len() > 0 {
        let earlier = sections.drop_last();
        let last = sections.last();
        lemma_sections_text_ok(earlier);
        if last.1 is Object {
            lemma_subsections_text_ok(last.0, last.1->Object_0);
        }
        if sections_valid(sections) {
            assert forall|i: int| 0 <= i < earlier.len() implies (#[trigger] earlier[i]).1 is Object
                && subsections_valid(earlier[i].1->Object_0) by {
                assert(earlier[i] == sections[i]);
            }
            assert(last == sections[sections.len() - 1]);
        }
        if sections_text(sections) is Ok {
            assert forall|i: int| 0 <= i < sections.len() implies (#[trigger] sections[i]).1 is Object
                && subsections_valid(sections[i].1->Object_0) by {
                if i < earlier.len() {
                    assert(earlier[i] == sections[i]);
                }
            }
        }
    }
}

/// A configuration has a text form exactly when it is valid; and a value
/// that is no object, or an object without sections, is an invalid
/// configuration.
pub proof fn lemma_config_text_ok(config: ConfigModel)
    ensures
        config_text(config) is Ok <==> config_valid(config),
        !(config is Object) || config->Object_0.len() == 0 ==> config_text(config) == Err::<
            Seq<char>,
            ConfigFault,
        >(ConfigFault::InvalidConfig),
{
    if config is Object {
        lemma_sections_text_ok(config->Object_0);
    }
}

} // verus!

use vstd::prelude::*;

use crate::errors::AntisepticError;
use crate::text::chars_of;

verus! {

/// A TOML value, as far as the configuration reads it: a string, an array,
/// a table, or a value of another kind.
#[derive(Debug)]
pub enum TomlValue {
    String(String),
    Array(Vec<TomlValue>),
    Table(TomlTable),
    Other,
}

/// A TOML table: its keys with their values, each key once.
#[derive(Debug)]
pub struct TomlTable {
    pub entries: Vec<(String, TomlValue)>,
}

/// The value that `entries` gives to `key`: that of its first entry with this
/// key, if there is one.
pub open spec fn lookup(entries: Seq<(String, TomlValue)>, key: Seq<char>) -> Option<TomlValue>
    decreases entries.len(),
{
    if entries.len() == 0 {
        None
    } else if entries[0].0@ == key {
        Some(entries[0].1)
    } else {
        lookup(entries.drop_first(), key)
    }
}

/// The value of `key` in `table`.
pub open spec fn table_value(table: &TomlTable, key: Seq<char>) -> Option<TomlValue> {
    lookup(table.entries@, key)
}

fn same_text(a: &str, b: &str) -> (r: bool)
    ensures
        r == (a@ == b@),
{
    let x = chars_of(a);
    let y = chars_of(b);
    if x.len() != y.len() {
        return false;
    }
    let mut i: usize = 0;
    while i < x.len()
        invariant
            0 <= i <= x@.len(),
            x@.len() == y@.len(),
            x@ == a@,
            y@ == b@,
            forall|k: int| 0 <= k < i ==> x@[k] == y@[k],
        decreases x@.len() - i,
    {
        if x[i] != y[i] {
            return false;
        }
        i = i + 1;
    }
    assert(x@ =~= y@);
    true
}

/// Looks up `key` in `table`.
pub fn table_get<'a>(table: &'a TomlTable, key: &str) -> (r: Option<&'a TomlValue>)
    ensures
        match r {
            None => table_value(table, key@) is None,
            Some(v) => table_value(table, key@) == Some(*v),
        },
{
    let mut i: usize = 0;
    assert(table.entries@.skip(0) =~= table.entries@);
    while i < table.entries.len()
        invariant
            0 <= i <= table.entries@.len(),
            table_value(table, key@) == lookup(table.entries@.skip(i as int), key@),
        decreases table.entries@.len() - i,
    {
        let entry = &table.entries[i];
        assert(table.entries@.skip(i as int)[0] == *entry);
        assert(table.entries@.skip(i as int).drop_first() =~= table.entries@.skip(i + 1));
        if same_text(entry.0.as_str(), key) {
            return Some(&entry.1);
        }
        i = i + 1;
    }
    None
}

/// The strings of an array whose items are all strings; `None` when some item
/// is not a string.
pub open spec fn all_strings(items: Seq<TomlValue>) -> Option<Seq<Seq<char>>>
    decreases items.len(),
{
    if items.len() == 0 {
        Some(seq![])
    } else {
        match (all_strings(items.drop_last()), items.last()) {
            (Some(before), TomlValue::String(s)) => Some(before.push(s@)),
            _ => None,
        }
    }
}

/// What a configuration setting that must be an array of strings gives: no
/// strings when it is absent, its strings when it is an array of strings, and
/// `None` when it has another type.
pub open spec fn string_array_setting(value: Option<TomlValue>) -> Option<Seq<Seq<char>>> {
    match value {
        None => Some(seq![]),
        Some(TomlValue::Array(items)) => all_strings(items@),
        Some(_) => None,
    }
}

/// Appends to `populate` the strings of the setting `key` of `config_toml`,
/// which must be an array of strings if it is present. A setting of another
/// type is an `IncorrectConfigTOMLType` error, and `populate` is then left as
/// it was.
fn get_string_array(config_toml: &TomlTable, key: &str, populate: &mut Vec<String>) -> (r: Result<
    (),
    AntisepticError,
>)
    ensures
        match string_array_setting(table_value(config_toml, key@)) {
            Some(strings) => {
                &&& r is Ok
                &&& final(populate)@.map_values(|s: String| s@) == old(populate)@.map_values(
                    |s: String| s@,
                ) + strings
            },
            None => {
                &&& r == Err::<(), AntisepticError>(AntisepticError::IncorrectConfigTOMLType)
                &&& final(populate)@ == old(populate)@
            },
        },
{
    let value = match table_get(config_toml, key) {
        None => {
            assert(old(populate)@.map_values(|s: String| s@) + seq![] =~= populate@.map_values(
                |s: String| s@,
            ));
            return Ok(());
        },
        Some(v) => v,
    };
    let items = match value {
        TomlValue::Array(items) => items,
        _ => {
            return Err(AntisepticError::IncorrectConfigTOMLType);
        },
    };
    assert(table_value(config_toml, key@) == Some(TomlValue::Array(*items)));
    let mut i: usize = 0;
    while i < items.len()
        invariant
            0 <= i <= items@.len(),
            all_strings(items@.take(i as int)) is Some,
            table_value(config_toml, key@) == Some(TomlValue::Array(*items)),
        decreases items@.len() - i,
    {
        assert(items@.take(i + 1).drop_last() =~= items@.take(i as int));
        assert(items@.take(i + 1).last() == items@[i as int]);
        match &items[i] {
            TomlValue::String(_) => {},
            _ => {
                proof {
                    lemma_all_strings_prefix(items@, i + 1);
                }
                return Err(AntisepticError::IncorrectConfigTOMLType);
            },
        }
        i = i + 1;
    }
    let ghost start = populate@.map_values(|s: String| s@);
    let mut j: usize = 0;
    assert(items@.take(items@.len() as int) =~= items@);
    while j < items.len()
        invariant
            0 <= j <= items@.len(),
            all_strings(items@) is Some,
            all_strings(items@.take(j as int)) is Some,
            populate@.map_values(|s: String| s@) == start + all_strings(items@.take(j as int))->0,
        decreases items@.len() - j,
    {
        assert(items@.take(j + 1).drop_last() =~= items@.take(j as int));
        assert(items@.take(j + 1).last() == items@[j as int]);
        proof {
            if all_strings(items@.take(j + 1)) is None {
                lemma_all_strings_prefix(items@, j + 1);
            }
        }
        match &items[j] {
            TomlValue::String(s) => {
                let ghost before = populate@;
                populate.push(s.clone());
                assert(populate@.map_values(|s: String| s@) =~= before.map_values(|s: String| s@).push(s@));
                assert(populate@.map_values(|s: String| s@) =~= start + all_strings(
                    items@.take(j + 1),
                )->0);
            },
            _ => {},
        }
        j = j + 1;
    }
    assert(items@.take(j as int) =~= items@);
    Ok(())
}

proof fn lemma_all_strings_prefix(items: Seq<TomlValue>, n: int)
    requires
        0 <= n <= items.len(),
        all_strings(items.take(n)) is None,
    ensures
        all_strings(items) is None,
    decreases items.len() - n,
{
    if n < items.len() {
        assert(items.take(n + 1).drop_last() =~= items.take(n));
        lemma_all_strings_prefix(items, n + 1);
    } else {
        assert(items.take(n) =~= items);
    }
}

/// Appends the globs of the `exclude` setting to `populate`; the setting, if
/// present, must be an array of strings.
pub fn get_exclude_array(config_toml: &TomlTable, populate: &mut Vec<String>) -> (r: Result<
    (),
    AntisepticError,
>)
    ensures
        match string_array_setting(table_value(config_toml, "exclude"@)) {
            Some(strings) => {
                &&& r is Ok
                &&& final(populate)@.map_values(|s: String| s@) == old(populate)@.map_values(
                    |s: String| s@,
                ) + strings
            },
            None => {
                &&& r == Err::<(), AntisepticError>(AntisepticError::IncorrectConfigTOMLType)
                &&& final(populate)@ == old(populate)@
            },
        },
{
    get_string_array(config_toml, "exclude", populate)
}

/// Appends the words of the `allowed-words` setting to `populate`; the
/// setting, if present, must be an array of strings.
pub fn get_allowed_words_array(config_toml: &TomlTable, populate: &mut Vec<String>) -> (r: Result<
    (),
    AntisepticError,
>)
    ensures
        match string_array_setting(table_value(config_toml, "allowed-words"@)) {
            Some(strings) => {
                &&& r is Ok
                &&& final(populate)@.map_values(|s: String| s@) == old(populate)@.map_values(
                    |s: String| s@,
                ) + strings
            },
            None => {
                &&& r == Err::<(), AntisepticError>(AntisepticError::IncorrectConfigTOMLType)
                &&& final(populate)@ == old(populate)@
            },
        },
{
    get_string_array(config_toml, "allowed-words", populate)
}

/// The settings that a configuration file gives.
pub struct Configuration {
    /// The globs of the files and directories that the search leaves out.
    pub exclude: Vec<String>,
    /// Words accepted besides the dictionary's.
    pub allowed_words: Vec<String>,
}

/// The exclusion rules of a configuration, each as its characters.
pub open spec fn exclusion_rules(configuration: &Configuration) -> Seq<Seq<char>> {
    configuration.exclude@.map_values(|s: String| s@)
}

impl Default for Configuration {
    fn default() -> (r: Configuration)
        ensures
            r.exclude@.len() == 0,
            r.allowed_words@.len() == 0,
    {
        Configuration { exclude: Vec::new(), allowed_words: Vec::new() }
    }
}

/// Loads the settings of a configuration table into `configuration`: the
/// `exclude` and `allowed-words` arrays are appended to the lists it holds.
/// A setting of the wrong type is an `IncorrectConfigTOMLType` error.
pub fn load_config(config_toml: &TomlTable, configuration: &mut Configuration) -> (r: Result<
    (),
    AntisepticError,
>)
    ensures
        ({
            let exclude = string_array_setting(table_value(config_toml, "exclude"@));
            let allowed = string_array_setting(table_value(config_toml, "allowed-words"@));
            &&& r is Ok <==> (exclude is Some && allowed is Some)
            &&& r is Err ==> r == Err::<(), AntisepticError>(
                AntisepticError::IncorrectConfigTOMLType,
            )
            &&& r is Ok ==> {
                &&& exclusion_rules(final(configuration)) == exclusion_rules(old(configuration))
                    + exclude->0
                &&& final(configuration).allowed_words@.map_values(|s: String| s@) == old(
                    configuration,
                ).allowed_words@.map_values(|s: String| s@) + allowed->0
            }
        }),
{
    get_exclude_array(config_toml, &mut configuration.exclude)?;
    get_allowed_words_array(config_toml, &mut configuration.allowed_words)?;
    Ok(())
}

/// The table under `key` in `table`: `PyprojectMissingConfig` when the key is
/// absent, `IncorrectConfigTOMLType` when its value is not a table.
fn sub_table<'a>(table: &'a TomlTable, key: &str) -> (r: Result<&'a TomlTable, AntisepticError>)
    ensures
        match table_value(table, key@) {
            None => r == Err::<&TomlTable, AntisepticError>(
                AntisepticError::PyprojectMissingConfig,
            ),
            Some(TomlValue::Table(t)) => r == Ok::<&TomlTable, AntisepticError>(&t),
            Some(_) => r == Err::<&TomlTable, AntisepticError>(
                AntisepticError::IncorrectConfigTOMLType,
            ),
        },
{
    match table_get(table, key) {
        None => Err(AntisepticError::PyprojectMissingConfig),
        Some(TomlValue::Table(t)) => Ok(t),
        Some(_) => Err(AntisepticError::IncorrectConfigTOMLType),
    }
}

/// The configuration that a `pyproject.toml` table holds under
/// `tool.antiseptic`. A missing `tool` or `antiseptic` key is a
/// `PyprojectMissingConfig` error, one that is not a table an
/// `IncorrectConfigTOMLType` error.
pub fn pyproject_get_config(table: &TomlTable) -> (r: Result<&TomlTable, AntisepticError>)
    ensures
        match table_value(table, "tool"@) {
            None => r == Err::<&TomlTable, AntisepticError>(
                AntisepticError::PyprojectMissingConfig,
            ),
            Some(TomlValue::Table(tool)) => match table_value(&tool, "antiseptic"@) {
                None => r == Err::<&TomlTable, AntisepticError>(
                    AntisepticError::PyprojectMissingConfig,
                ),
                Some(TomlValue::Table(t)) => r == Ok::<&TomlTable, AntisepticError>(&t),
                Some(_) => r == Err::<&TomlTable, AntisepticError>(
                    AntisepticError::IncorrectConfigTOMLType,
                ),
            },
            Some(_) => r == Err::<&TomlTable, AntisepticError>(
                AntisepticError::IncorrectConfigTOMLType,
            ),
        },
{
    let tool = sub_table(table, "tool")?;
    sub_table(tool, "antiseptic")
}

/// The configuration files that a directory may hold, in the order in which
/// they take precedence.
#[derive(Debug, PartialEq, Eq, Structural, Clone, Copy)]
pub enum ConfigFile {
    /// `.antiseptic.toml`
    Hidden,
    /// `antiseptic.toml`
    Plain,
    /// `pyproject.toml`, which counts only if it holds a configuration.
    Pyproject,
    /// None of them: the search goes on in the parent directory.
    Missing,
}

/// Which configuration file of a directory to read, from which of them
/// exist: `.antiseptic.toml` before `antiseptic.toml` before
/// `pyproject.toml`.
pub fn config_file_in_dir(hidden_exists: bool, plain_exists: bool, pyproject_exists: bool) -> (r:
    ConfigFile)
    ensures
        r == if hidden_exists {
            ConfigFile::Hidden
        } else if plain_exists {
            ConfigFile::Plain
        } else if pyproject_exists {
            ConfigFile::Pyproject
        } else {
            ConfigFile::Missing
        },
{
    if hidden_exists {
        ConfigFile::Hidden
    } else if plain_exists {
        ConfigFile::Plain
    } else if pyproject_exists {
        ConfigFile::Pyproject
    } else {
        ConfigFile::Missing
    }
}

} // verus!

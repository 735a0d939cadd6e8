use antiseptic::config::{
    config_file_in_dir, get_allowed_words_array, get_exclude_array, load_config,
    pyproject_get_config, table_get, ConfigFile, TomlTable, TomlValue,
};
use antiseptic::{AntisepticError, Configuration};

fn strings(items: &[&str]) -> TomlValue {
    TomlValue::Array(items.iter().map(|s| TomlValue::String(s.to_string())).collect())
}

fn table(entries: Vec<(&str, TomlValue)>) -> TomlTable {
    TomlTable {
        entries: entries.into_iter().map(|(k, v)| (k.to_string(), v)).collect(),
    }
}

#[test]
fn load_config_reads_both_arrays() {
    let t = table(vec![
        ("exclude", strings(&["target", "*.lock"])),
        ("allowed-words", strings(&["antiseptic"])),
    ]);
    let mut configuration = Configuration::default();
    assert_eq!(load_config(&t, &mut configuration), Ok(()));
    assert_eq!(configuration.exclude, vec!["target", "*.lock"]);
    assert_eq!(configuration.allowed_words, vec!["antiseptic"]);
}

#[test]
fn missing_settings_are_empty() {
    let t = table(vec![("other", TomlValue::Other)]);
    let mut configuration = Configuration::default();
    assert_eq!(load_config(&t, &mut configuration), Ok(()));
    assert!(configuration.exclude.is_empty());
    assert!(configuration.allowed_words.is_empty());
}

#[test]
fn wrongly_typed_settings_are_rejected() {
    let mut populate = vec!["kept".to_string()];
    let not_array = table(vec![("exclude", TomlValue::String("x".to_string()))]);
    assert_eq!(
        get_exclude_array(&not_array, &mut populate),
        Err(AntisepticError::IncorrectConfigTOMLType)
    );
    let mixed = table(vec![(
        "allowed-words",
        TomlValue::Array(vec![TomlValue::String("a".to_string()), TomlValue::Other]),
    )]);
    assert_eq!(
        get_allowed_words_array(&mixed, &mut populate),
        Err(AntisepticError::IncorrectConfigTOMLType)
    );
    assert_eq!(populate, vec!["kept"]);
    let mut configuration = Configuration::default();
    assert_eq!(
        load_config(&mixed, &mut configuration),
        Err(AntisepticError::IncorrectConfigTOMLType)
    );
}

#[test]
fn pyproject_configuration_lives_under_tool_antiseptic() {
    let inner = table(vec![("exclude", strings(&["build"]))]);
    let tool = table(vec![("antiseptic", TomlValue::Table(inner))]);
    let project = table(vec![("tool", TomlValue::Table(tool))]);
    let found = pyproject_get_config(&project).unwrap();
    assert!(matches!(table_get(found, "exclude"), Some(TomlValue::Array(_))));

    let no_tool = table(vec![("project", TomlValue::Other)]);
    assert_eq!(
        pyproject_get_config(&no_tool).err(),
        Some(AntisepticError::PyprojectMissingConfig)
    );
    let tool_not_table = table(vec![("tool", TomlValue::Other)]);
    assert_eq!(
        pyproject_get_config(&tool_not_table).err(),
        Some(AntisepticError::IncorrectConfigTOMLType)
    );
    let other_tool = table(vec![("tool", TomlValue::Table(table(vec![])))]);
    assert_eq!(
        pyproject_get_config(&other_tool).err(),
        Some(AntisepticError::PyprojectMissingConfig)
    );
    let bad = table(vec![(
        "tool",
        TomlValue::Table(table(vec![("antiseptic", TomlValue::Other)])),
    )]);
    assert_eq!(
        pyproject_get_config(&bad).err(),
        Some(AntisepticError::IncorrectConfigTOMLType)
    );
}

#[test]
fn configuration_files_take_precedence_in_order() {
    assert_eq!(config_file_in_dir(true, true, true), ConfigFile::Hidden);
    assert_eq!(config_file_in_dir(false, true, true), ConfigFile::Plain);
    assert_eq!(config_file_in_dir(false, false, true), ConfigFile::Pyproject);
    assert_eq!(config_file_in_dir(false, false, false), ConfigFile::Missing);
}

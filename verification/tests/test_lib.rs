use elden_mod_loader_gui::utils::ini::parser::{IniProperty, RegMod};
use elden_mod_loader_gui::utils::ini::writer::{save_path, save_paths};
use elden_mod_loader_gui::{
    does_dir_contain, get_cfg, toggle_files, Operation, OperationResult, INI_SECTIONS, OFF_STATE,
};

#[test]
fn do_files_toggle() {
    let test_files = vec![
        "test1.txt".to_string(),
        "test2.bhd".to_string(),
        "test3.dll".to_string(),
        "test4.exe".to_string(),
        "test5.bin".to_string(),
        "config.ini".to_string(),
    ];
    let test_key = "test_files";
    let prefix_key = "test_dir";
    let prefix = "temp\\";

    let mut text = String::new();
    for s in INI_SECTIONS {
        text.push_str(&format!("[{s}]\n"));
    }
    text = save_path(&text, Some(INI_SECTIONS[1]), prefix_key, prefix).unwrap();
    text = save_paths(&text, Some(INI_SECTIONS[3]), test_key, &test_files).unwrap();

    let mut test_mod = RegMod::new(test_key, true, test_files.clone());
    let mut test_files_disabled = test_mod
        .files
        .dll
        .iter()
        .map(|file| format!("{}{OFF_STATE}", file))
        .collect::<Vec<_>>();

    assert_eq!(test_mod.files.dll.len(), 1);
    assert_eq!(test_mod.files.config.len(), 1);
    assert_eq!(test_mod.files.other.len(), 4);

    // disable: the .dll files get their new names, which the caller renames to
    let was_array = test_mod.is_array();
    let new_names = toggle_files(!test_mod.state, &test_mod).unwrap();
    assert_eq!(new_names, test_files_disabled);
    test_mod.files.dll = new_names;
    test_mod.state = !test_mod.state;
    text = test_mod.write_to_file(&text, was_array).unwrap();

    test_files_disabled.extend(test_mod.files.config.clone());
    test_files_disabled.extend(test_mod.files.other.clone());

    let read_disabled_ini =
        IniProperty::<Vec<String>>::read(&get_cfg(&text).unwrap(), Some(INI_SECTIONS[3]), test_key)
            .unwrap()
            .value;
    assert!(read_disabled_ini.iter().all(|read| test_files_disabled.contains(read)));

    // enable again
    let mut test_mod = RegMod::new(&test_mod.name, false, test_files_disabled);
    let was_array = test_mod.is_array();
    let new_names = toggle_files(!test_mod.state, &test_mod).unwrap();
    test_mod.files.dll = new_names;
    test_mod.state = !test_mod.state;
    text = test_mod.write_to_file(&text, was_array).unwrap();

    let read_enabled_ini =
        IniProperty::<Vec<String>>::read(&get_cfg(&text).unwrap(), Some(INI_SECTIONS[3]), test_key)
            .unwrap()
            .value;
    assert!(read_enabled_ini.iter().all(|read| test_files.contains(read)));

    // already enabled: nothing to do
    assert!(toggle_files(true, &test_mod).is_none());
}

#[test]
fn does_dir_contain_work() {
    let entries = vec![
        "SkipTheIntro.dll".to_string(),
        "UnlockTheFps.dll".to_string(),
        "UnlockTheFps".to_string(),
    ];
    let num_entries = entries.len();

    assert!(matches!(
        does_dir_contain(
            &entries,
            Operation::Count,
            entries.iter().map(|e| e.as_ref()).collect::<Vec<_>>().as_slice()
        ),
        OperationResult::Count((n, _)) if n == num_entries
    ));

    assert!(matches!(
        does_dir_contain(
            &entries,
            Operation::All,
            entries.iter().map(|e| e.as_ref()).collect::<Vec<_>>().as_slice()
        ),
        OperationResult::Bool(true)
    ));

    assert!(matches!(
        does_dir_contain(&entries, Operation::Any, &["this_should_not_exist"]),
        OperationResult::Bool(false)
    ));
}

use elden_mod_loader_gui::collections::StrSet;
use elden_mod_loader_gui::error::ErrorKind;
use elden_mod_loader_gui::get_cfg;
use elden_mod_loader_gui::toggle_files;
use elden_mod_loader_gui::utils::ini::common::{Cfg, Config, ModLoaderCfg};
use elden_mod_loader_gui::utils::ini::parser::{combine_map_data, IniProperty, RegMod, Setup};
use elden_mod_loader_gui::utils::ini::writer::{
    remove_array, remove_entry, save_bool, save_path, save_paths, save_value_ext,
};
use elden_mod_loader_gui::{INI_KEYS, INI_SECTIONS, LOADER_SECTIONS};

const GAME_DIR: &str = "G:/SteamLibrary/steamapps/common/ELDEN RING/Game";

/// the text of a configuration file with the given (empty) sections
fn cfg_with_sections(sections: &[&str]) -> String {
    let mut text = String::new();
    for s in sections {
        text.push_str(&format!("[{s}]\n"));
    }
    text
}

#[test]
fn does_u32_parse() {
    let test_nums: [u32; 3] = [2342652342, 2343523423, 69420];
    let test_section = [Some("u32s")];

    let mut text = cfg_with_sections(&["u32s"]);
    for (i, num) in test_nums.iter().enumerate() {
        text = save_value_ext(&text, test_section[0], &format!("test_num_{i}"), &num.to_string())
            .unwrap();
    }

    let config = get_cfg(&text).unwrap();

    for (i, num) in test_nums.iter().enumerate() {
        assert_eq!(
            *num,
            IniProperty::<u32>::read(&config, test_section[0], &format!("test_num_{i}"))
                .unwrap()
                .value
        )
    }
}

#[test]
fn does_bool_parse() {
    let test_bools: [&str; 6] = [" True ", "false", "faLSe", "0 ", "0", "1"];
    let bool_results: [bool; 6] = [true, false, false, false, false, true];
    let test_section = [Some("bools")];

    let mut text = cfg_with_sections(&["bools"]);
    for (i, bool_str) in test_bools.iter().enumerate() {
        text = save_value_ext(&text, test_section[0], &format!("test_bool_{i}"), bool_str).unwrap();
    }

    let config = get_cfg(&text).unwrap();

    for (i, b) in bool_results.iter().enumerate() {
        assert_eq!(
            *b,
            IniProperty::<bool>::read(&config, test_section[0], &format!("test_bool_{i}"))
                .unwrap()
                .value
        )
    }
}

#[test]
fn does_path_parse() {
    let test_path_1 = GAME_DIR;
    let test_path_2 = "C:\\Windows\\System32";
    let test_section = [Some("path")];

    let mut text = cfg_with_sections(&["path"]);
    text = save_path(&text, test_section[0], INI_KEYS[2], test_path_1).unwrap();
    text = save_path(&text, test_section[0], "random_dir", test_path_2).unwrap();

    let config = get_cfg(&text).unwrap();
    let parse_test_1 =
        IniProperty::<String>::read(&config, test_section[0], INI_KEYS[2], None).unwrap().value;
    let parse_test_2 =
        IniProperty::<String>::read(&config, test_section[0], "random_dir", None).unwrap().value;

    assert_eq!(test_path_1, parse_test_1);
    assert_eq!(test_path_2, parse_test_2);
}

#[test]
fn test_sort_by_order() {
    let test_keys = ["a_mod", "b_mod", "c_mod", "d_mod", "e_mod", "f_mod", "g_mod", "h_mod"];
    let test_files = test_keys.iter().map(|k| format!("{k}.dll")).collect::<Vec<_>>();
    let test_values = ["69420", "1", "1", "0", "3", "0", "69420", "0"];
    let sorted_order = [
        ("d_mod.dll", "0"),
        ("f_mod.dll", "0"),
        ("b_mod.dll", "1"),
        ("c_mod.dll", "1"),
        ("e_mod.dll", "2"),
        ("a_mod.dll", "3"),
        ("g_mod.dll", "3"),
        ("h_mod.dll", "4"),
    ];

    let mut test_unknown_keys = StrSet::new();
    test_unknown_keys.insert(&test_files[7]);
    let expected_max_ord = (4, true);

    let test_sections =
        LOADER_SECTIONS.iter().chain(INI_SECTIONS.iter()).copied().collect::<Vec<_>>();
    let mut text = cfg_with_sections(&test_sections);
    for (i, key) in test_keys.iter().take(7).enumerate() {
        text = save_path(&text, Some(test_sections[5]), key, &test_files[i]).unwrap();
    }
    for (i, value) in test_values.iter().enumerate() {
        text = save_value_ext(&text, Some(test_sections[1]), &test_files[i], value).unwrap();
    }

    let mut loader = <ModLoaderCfg as Config>::from(get_cfg(&text).unwrap(), "temp\\mod_loader_config.ini");
    let ini = <Cfg as Config>::from(get_cfg(&text).unwrap(), "temp\\mod_loader_config.ini");

    // the files registered with the app, and how many of them have a load order
    let dlls = ini.files();
    let order_count = loader.iter().iter().filter(|(k, _)| dlls.contains(k)).count();

    let expected_unknown_key_err = loader.verify_keys(&dlls, order_count).unwrap_err();
    assert_eq!(expected_unknown_key_err.err.kind(), ErrorKind::Unsupported);

    let ord_meta_data = loader.update_order_entries(None, &test_unknown_keys);
    assert_eq!(ord_meta_data.max_order, expected_max_ord);
    assert!(loader.section().get("e_mod.dll").unwrap() == "2");

    assert_eq!(order_count, test_values.len() - test_unknown_keys.len());

    loader.iter().iter().enumerate().for_each(|(i, (k, v))| {
        assert_eq!(*k, sorted_order[i].0);
        assert_eq!(*v, sorted_order[i].1)
    });
}

#[test]
fn type_check() {
    let test_path = GAME_DIR;
    let test_array = ["temp\\test".to_string(), "temp\\test".to_string()];
    let test_sections = [Some("path"), Some("paths")];
    let array_key = "test_array";

    let mut text = cfg_with_sections(&INI_SECTIONS);
    text = save_path(&text, test_sections[0], INI_KEYS[2], test_path).unwrap();
    text = save_paths(&text, test_sections[1], array_key, &test_array).unwrap();

    let config = get_cfg(&text).unwrap();

    let vec_result = IniProperty::<Vec<String>>::read(&config, test_sections[0], INI_KEYS[2]);
    let err = vec_result.err().unwrap();
    assert_eq!(err.kind(), ErrorKind::InvalidData);
    assert_eq!(err.message(), "Invalid type found. Expected: Vec<Path>, Found: Path");

    let path_result = IniProperty::<String>::read(&config, test_sections[1], array_key, None);
    let err = path_result.err().unwrap();
    assert_eq!(err.kind(), ErrorKind::InvalidData);
    assert_eq!(err.message(), "Invalid type found. Expected: Path, Found: Vec<Path>");
}

#[test]
fn read_write_delete_from_ini() {
    let mod_1_files =
        vec!["mods\\UnlockTheFps.dll".to_string(), "mods\\UnlockTheFps\\config.ini".to_string()];
    let mod_2_file = "mods\\SkipTheIntro.dll".to_string();

    // test_mod_2 state is set incorrectly
    let test_mod_1 = RegMod::new("Unlock The Fps  ", true, mod_1_files);
    let test_mod_2 = RegMod::new(" Skip The Intro", false, vec![mod_2_file]);

    let mut text = cfg_with_sections(&INI_SECTIONS);
    assert!("temp\\test_collect_mod_data.ini".is_setup(Ok(text.clone()), &INI_SECTIONS).is_ok());

    let invalid_format_1 =
        vec!["mods\\UnlockTheFps.dll".to_string(), "mods\\UnlockTheFps\\config.ini".to_string()];
    let invalid_format_2 = "mods\\SkipTheIntro.dll";
    let refs = test_mod_1.files.file_refs().iter().map(|s| s.to_string()).collect::<Vec<_>>();

    text = save_paths(&text, Some(INI_SECTIONS[3]), &test_mod_1.name, &refs).unwrap();
    text = save_bool(&text, Some(INI_SECTIONS[2]), &test_mod_1.name, test_mod_1.state).unwrap();
    text = save_path(&text, Some(INI_SECTIONS[3]), &test_mod_2.name, &test_mod_2.files.dll[0])
        .unwrap();
    text = save_bool(&text, Some(INI_SECTIONS[2]), &test_mod_2.name, test_mod_2.state).unwrap();
    text = save_paths(&text, Some(INI_SECTIONS[3]), "no_matching_state_1", &invalid_format_1)
        .unwrap();
    text = save_path(&text, Some(INI_SECTIONS[3]), "no_matching_state_2", invalid_format_2).unwrap();
    text = save_bool(&text, Some(INI_SECTIONS[2]), "no_matching_path", true).unwrap();
    text = save_path(&text, Some(INI_SECTIONS[1]), INI_KEYS[2], GAME_DIR).unwrap();

    // keys with a state but no files, or files but no state, are found and removed
    let cfg = <Cfg as Config>::from(get_cfg(&text).unwrap(), "temp\\test_collect_mod_data.ini");
    let synced = cfg.sync_keys();
    assert_eq!(synced.no_files, vec!["no_matching_path".to_string()]);
    assert_eq!(
        synced.no_state,
        vec![("no_matching_state_1".to_string(), true), ("no_matching_state_2".to_string(), false)]
    );
    for key in synced.no_files.iter() {
        text = remove_entry(&text, Some(INI_SECTIONS[2]), key).unwrap();
    }
    for (key, is_array) in synced.no_state.iter() {
        text = if *is_array {
            remove_array(&text, key)
        } else {
            remove_entry(&text, Some(INI_SECTIONS[3]), key).unwrap()
        };
    }
    let cfg = <Cfg as Config>::from(get_cfg(&text).unwrap(), "temp\\test_collect_mod_data.ini");
    let synced = cfg.sync_keys();
    assert!(synced.no_files.is_empty() && synced.no_state.is_empty());

    let mut reg_mods = combine_map_data(&synced, None);
    assert_eq!(reg_mods.len(), 2);

    // Tests name format is correct
    let mod_1 = reg_mods.iter().position(|data| data.name == test_mod_1.name.trim()).unwrap();
    let mod_2 = reg_mods.iter().position(|data| data.name == test_mod_2.name.trim()).unwrap();

    // the saved state of mod 2 does not match its file on disk: its files are toggled
    let check = reg_mods[mod_2].verify_state(&[Some(true)], &[false]).unwrap();
    assert!(check.rewrite.is_none());
    assert!(check.toggle);
    let renamed = toggle_files(reg_mods[mod_2].state, &reg_mods[mod_2]).unwrap();
    let disabled_state = format!("{}.disabled", test_mod_2.files.dll[0]);
    assert_eq!(renamed, vec![disabled_state.clone()]);

    // lets set it correctly now
    reg_mods[mod_2].state = true;
    let check = reg_mods[mod_2].verify_state(&[Some(true)], &[false]).unwrap();
    assert!(!check.toggle);
    text = reg_mods[mod_2].write_to_file(&text, false).unwrap();
    assert!(
        IniProperty::<bool>::read(&get_cfg(&text).unwrap(), Some(INI_SECTIONS[2]), &test_mod_2.name)
            .unwrap()
            .value
    );

    // Tests if PathBuf and Vec<PathBuf>'s from Section("mod-files") parse correctly
    assert_eq!(test_mod_1.files.dll, reg_mods[mod_1].files.dll);
    assert_eq!(test_mod_1.files.config, reg_mods[mod_1].files.config);
    assert_eq!(test_mod_2.files.dll, reg_mods[mod_2].files.dll);

    // Tests if bool was parsed correctly
    assert_eq!(test_mod_1.state, reg_mods[mod_1].state);
}

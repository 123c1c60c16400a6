use elden_mod_loader_gui::collections::{OrderMap, StrSet};
use elden_mod_loader_gui::files::{check_user_files, populate_restricted_files};
use elden_mod_loader_gui::error::{Error, ErrorKind, Merge, ModError};
use elden_mod_loader_gui::utils::display::{
    deserialize_mod, deserialize_split_files, format_panic_info, DisplayAntiCheatFound, DisplayIndices, DisplayMissingOrd, DisplayName, DisplayOrder,
    DisplayState, DisplayTheme, DisplayTime, DisplayVec,
};
use elden_mod_loader_gui::utils::ini::common::{validate_game_dir, Cfg, Config, ModLoaderCfg};
use elden_mod_loader_gui::utils::ini::mod_loader::{ModLoader, RegModsExt};
use elden_mod_loader_gui::utils::ini::parser::{
    dropped_file_note_text, left_after_scan, validity_error, combine_map_data, parse_bool, IniProperty, LoadOrder, RegMod, Setup, SplitFiles,
};
use elden_mod_loader_gui::utils::ini::writer::{
    get_or_setup_cfg, new_cfg, remove_array, remove_entry, remove_order_entry, save_bool,
    save_path, save_paths, save_value_ext, CfgSource,
};
use elden_mod_loader_gui::utils::display::ModEntry;
use elden_mod_loader_gui::utils::sortable::update_order;
use elden_mod_loader_gui::utils::ini::parser::{screen_collected, CollectStep, StateCheck};
use elden_mod_loader_gui::files::enable_before_deregister;
use elden_mod_loader_gui::paths::fewest_ancestors;
use elden_mod_loader_gui::utils::installer::{
    listed_name, remove_mod_files, Cutoff, DisplayItems, InstallData,
};
use elden_mod_loader_gui::{
    file_name_from_str, get_cfg, omit_off_state, shorten_paths, toggle_name_state, FileData,
    INI_SECTIONS, LOADER_SECTIONS,
};

fn loader_cfg(entries: &[(&str, &str)]) -> ModLoaderCfg {
    let mut text = "[modloader]\n[loadorder]\n".to_string();
    for (k, v) in entries {
        text = save_value_ext(&text, Some(LOADER_SECTIONS[1]), k, v).unwrap();
    }
    <ModLoaderCfg as Config>::from(get_cfg(&text).unwrap(), "temp\\mod_loader_config.ini")
}

fn pairs(cfg: &ModLoaderCfg) -> Vec<(String, String)> {
    cfg.iter().iter().map(|(k, v)| (k.to_string(), v.to_string())).collect()
}

fn s(v: &[&str]) -> Vec<String> {
    v.iter().map(|x| x.to_string()).collect()
}

#[test]
fn update_order_closes_gaps() {
    let mut cfg = loader_cfg(&[("a.dll", "0"), ("b.dll", "5"), ("c.dll", "7")]);
    let data = cfg.update_order_entries(None, &StrSet::new());
    assert_eq!(
        pairs(&cfg),
        vec![
            ("a.dll".to_string(), "0".to_string()),
            ("b.dll".to_string(), "1".to_string()),
            ("c.dll".to_string(), "2".to_string())
        ]
    );
    assert_eq!(data.max_order, (2, false));
    assert_eq!(data.missing_vals, Some(vec![1, 2]));
}

#[test]
fn update_order_keeps_stable_key() {
    let mut cfg = loader_cfg(&[("a.dll", "1"), ("b.dll", "2"), ("c.dll", "1")]);
    let data = cfg.update_order_entries(Some("c.dll"), &StrSet::new());
    let values = pairs(&cfg);
    // every value is the one before or one more
    let nums = values.iter().map(|(_, v)| v.parse::<usize>().unwrap()).collect::<Vec<_>>();
    assert!(nums[0] <= 1);
    assert!(nums.windows(2).all(|w| w[1] == w[0] || w[1] == w[0] + 1));
    assert!(values.iter().any(|(k, v)| k == "c.dll" && v == "1"));
    assert_eq!(data.max_order.0, 2);
}

#[test]
fn update_order_without_section_does_nothing() {
    let text = "[modloader]\nload_delay = 5000\n";
    let mut cfg = <ModLoaderCfg as Config>::from(get_cfg(text).unwrap(), "x.ini");
    let data = cfg.update_order_entries(None, &StrSet::new());
    assert_eq!(data.max_order, (0, false));
    assert!(data.missing_vals.is_none());
}

#[test]
fn parse_section_removes_example_and_reorders() {
    let mut cfg = loader_cfg(&[("Example.dll", "0"), ("a.dll", "3"), ("b.dll", "x")]);
    let (map, write) = cfg.parse_section(&StrSet::new());
    assert!(write);
    assert!(!cfg.section().contains_key("Example.dll"));
    assert_eq!(map.len(), 2);
    assert_eq!(map.get("a.dll"), Some(1));
    assert!(map.get("b.dll").is_some());
}

#[test]
fn parse_section_leaves_sound_order() {
    let mut cfg = loader_cfg(&[("a.dll", "0"), ("b.dll", "1"), ("c.dll", "1")]);
    let (map, write) = cfg.parse_section(&StrSet::new());
    assert!(!write);
    assert_eq!(map.get("c.dll"), Some(1));
    assert_eq!(map.len(), 3);
}

#[test]
fn parse_into_map_skips_non_numbers() {
    let cfg = loader_cfg(&[("a.dll", "4"), ("b.dll", "no"), ("c.dll", "+2")]);
    let map = cfg.parse_into_map();
    assert_eq!(map.len(), 2);
    assert_eq!(map.get("a.dll"), Some(4));
    assert_eq!(map.get("c.dll"), Some(2));
    assert_eq!(map.get("b.dll"), None);
}

#[test]
fn verify_keys_all_known_is_ok() {
    let mut cfg = loader_cfg(&[("a.dll", "0"), ("b.dll", "1")]);
    let mut dlls = StrSet::new();
    dlls.insert("a.dll");
    dlls.insert("b.dll");
    assert!(cfg.verify_keys(&dlls, 2).is_ok());
}

#[test]
fn verify_keys_unknown_without_clash() {
    let mut cfg = loader_cfg(&[("a.dll", "0"), ("x.dll", "5")]);
    let mut dlls = StrSet::new();
    dlls.insert("a.dll");
    let err = cfg.verify_keys(&dlls, 1).unwrap_err();
    assert_eq!(err.err.kind(), ErrorKind::Other);
    assert_eq!(
        err.err.message(),
        "Found load order set for the following file(s) not registered with the app: x.dll"
    );
    assert!(err.unknown_keys.unwrap().contains("x.dll"));
    assert!(err.update_ord_data.is_none());
    assert_eq!(pairs(&cfg)[1].1, "5");
}

#[test]
fn max_order_of_mods() {
    let mut mods = Vec::new();
    for (i, (set, at)) in [(true, 0), (true, 2), (false, 0), (true, 2)].iter().enumerate() {
        let mut m = RegMod::new(&format!("m{i}"), true, vec![format!("m{i}.dll")]);
        m.order = LoadOrder { set: *set, i: 0, at: *at };
        mods.push(m);
    }
    assert_eq!(mods.as_slice().max_order(), (3, true));
    assert_eq!(mods[..2].max_order(), (2, false));
    assert_eq!(mods[2..3].max_order(), (0, false));
}

#[test]
fn update_order_max_matches_mods_max_order() {
    for entries in [
        vec![("a.dll", "0"), ("b.dll", "5"), ("c.dll", "7")],
        vec![("a.dll", "3"), ("b.dll", "3"), ("c.dll", "1")],
        vec![("a.dll", "2"), ("b.dll", "9"), ("c.dll", "9"), ("d.dll", "x")],
    ] {
        let mut cfg = loader_cfg(&entries);
        let data = cfg.update_order_entries(None, &StrSet::new());
        let mut mods = Vec::new();
        for (k, v) in pairs(&cfg) {
            let mut m = RegMod::new(&k, true, vec![k.clone()]);
            m.order = LoadOrder { set: true, i: 0, at: v.parse::<usize>().unwrap() };
            mods.push(m);
        }
        assert_eq!(mods.as_slice().max_order(), data.max_order);
    }
    let mut cfg = loader_cfg(&[("a.dll", "3"), ("b.dll", "3"), ("c.dll", "1")]);
    assert_eq!(cfg.update_order_entries(None, &StrSet::new()).max_order, (3, true));
}

#[test]
fn toggle_round_trip_on_names() {
    let paths = s(&["mods\\a.dll", "mods\\sub\\B.DLL"]);
    let off = toggle_name_state(&paths, false);
    assert_eq!(off, s(&["mods\\a.dll.disabled", "mods\\sub\\B.DLL.disabled"]));
    let on = toggle_name_state(&off, true);
    assert_eq!(on, paths);
    // upper-case marker is found too
    assert_eq!(toggle_name_state(&s(&["x.dll.DISABLED"]), true), s(&["x.dll"]));
    // names that are not ASCII are matched on the name itself
    let paths = s(&["mods\\İé.dll"]);
    let off = toggle_name_state(&paths, false);
    assert_eq!(off, s(&["mods\\İé.dll.disabled"]));
    assert_eq!(toggle_name_state(&off, true), paths);
    assert_eq!(toggle_name_state(&s(&["mods\\Ü.dll.DisAbled"]), true), s(&["mods\\Ü.dll"]));
}

#[test]
fn file_data_parts_give_back_the_name() {
    let d = FileData::from("mods\\a.dll.disabled");
    assert_eq!((d.name, d.extension, d.enabled), ("mods\\a", ".dll", false));
    assert_eq!(format!("{}{}.disabled", d.name, d.extension), "mods\\a.dll.disabled");
    let e = FileData::from("config.ini");
    assert_eq!((e.name, e.extension, e.enabled), ("config", ".ini", true));
    assert_eq!(FileData::state_data("a.disabled.dll"), (true, 1));
    assert!(FileData::is_disabled("a.dll.disabled"));
    assert_eq!(omit_off_state("a.dll.disabled"), "a.dll");
    assert_eq!(omit_off_state("a.dll"), "a.dll");
    assert_eq!(file_name_from_str("mods\\x\\y.dll"), "y.dll");
    assert_eq!(file_name_from_str("\\y.dll"), "y.dll");
}

#[test]
fn saves_write_exact_text() {
    let t = save_path("[paths]\n", Some("paths"), "game_dir", "C:\\Game").unwrap();
    assert_eq!(t, "[paths]\r\ngame_dir=C:\\Game\r\n");
    let t = save_value_ext("[modloader]\n", Some("modloader"), "load_delay", "10").unwrap();
    assert_eq!(t, "[modloader]\r\nload_delay = 10\r\n");
    let t = save_paths("[a]\nk=v\n[b]\n", Some("b"), "m", &s(&["x.dll", "y.ini"])).unwrap();
    assert_eq!(t, "[a]\r\nk=v\r\n\r\n[b]\r\nm=array\r\narray[]=x.dll\r\narray[]=y.ini\r\n");
    let t = save_bool("[s]\n", Some("s"), "b", false).unwrap();
    assert_eq!(t, "[s]\r\nb=false\r\n");
}

#[test]
fn read_after_save() {
    let t = save_bool("[app-settings]\n", Some(INI_SECTIONS[0]), "dark_mode", false).unwrap();
    let cfg = <Cfg as Config>::from(get_cfg(&t).unwrap(), "x.ini");
    assert_eq!(cfg.get_dark_mode(Ok(t.clone())).unwrap(), false);
    let (err, text) = cfg.get_save_log(Ok(t.clone())).unwrap_err();
    assert_eq!(err.kind(), ErrorKind::NotFound);
    assert!(err.message().ends_with(", Sucessfully reset save_log to true"));
    assert_eq!(text.unwrap(), "[app-settings]\r\ndark_mode=false\r\nsave_log=true\r\n");
    let (err, text) = cfg.get_save_log(Err(Error::new(ErrorKind::NotFound, "gone"))).unwrap_err();
    assert!(err.message().ends_with(", gone"));
    assert!(text.is_none());
    let t = save_value_ext("[modloader]\n", Some(LOADER_SECTIONS[0]), "load_delay", "2500").unwrap();
    let cfg = <ModLoaderCfg as Config>::from(get_cfg(&t).unwrap(), "x.ini");
    assert_eq!(cfg.get_load_delay(Ok(t.clone())).unwrap(), 2500);
    let (err, text) = cfg.get_show_terminal(Ok(t.clone())).unwrap_err();
    assert_eq!(err.kind(), ErrorKind::NotFound);
    assert!(err.message().ends_with(", Sucessfully reset show_terminal to 0"));
    assert_eq!(text.unwrap(), "[modloader]\r\nload_delay = 2500\r\nshow_terminal = 0\r\n");
}

#[test]
fn remove_array_drops_the_array_lines() {
    let text = "[mod-files]\r\nx=array\r\narray[]=a\r\narray[]=b\r\ny=c\r\n";
    assert_eq!(remove_array(text, "x"), "[mod-files]\r\ny=c");
    assert_eq!(remove_array("a\nb\n", "z"), "a\r\nb");
}

#[test]
fn remove_entry_errors_when_missing() {
    let err = remove_entry("[s]\nk=v\n", Some("s"), "q").unwrap_err();
    assert_eq!(err.kind(), ErrorKind::Other);
    assert_eq!(err.message(), "Could not delete: q, from Section: s");
    assert_eq!(remove_entry("[s]\nk=v\nq=w\n", Some("s"), "q").unwrap(), "[s]\r\nk=v\r\n");
}

#[test]
fn get_cfg_reports_parse_errors() {
    let err = get_cfg("[unclosed\nk=v\n").unwrap_err();
    assert_eq!(err.kind(), ErrorKind::InvalidData);
}

#[test]
fn remove_order_entry_needs_an_order() {
    let m = RegMod::new("My Mod", true, s(&["mods\\my.dll"]));
    let err = remove_order_entry(&m, "[loadorder]\n").unwrap_err();
    assert_eq!(err.kind(), ErrorKind::InvalidInput);
    assert_eq!(err.message(), "My Mod has no order data");
    let mut m = RegMod::new("My Mod", true, s(&["mods\\my.dll.disabled"]));
    m.order = LoadOrder { set: true, i: 0, at: 0 };
    let t = remove_order_entry(&m, "[loadorder]\nmy.dll = 0\nz.dll = 1\n").unwrap();
    assert_eq!(t, "[loadorder]\r\nz.dll=1\r\n");
}

#[test]
fn new_cfg_texts() {
    assert_eq!(
        new_cfg("C:\\app\\EML_gui_config.ini").unwrap(),
        "[app-settings]\ndark_mode=true\nsave_log=true\n[paths]\n[registered-mods]\n[mod-files]\n"
    );
    assert_eq!(
        new_cfg("G:\\Game\\mod_loader_config.ini").unwrap(),
        "[modloader]\nload_delay = 5000\nshow_terminal = 0\n[loadorder]\n"
    );
    let err = new_cfg("").unwrap_err();
    assert_eq!(err.kind(), ErrorKind::InvalidData);
    assert_eq!(err.message(), "Could not get file_name");
}

#[test]
fn setup_checks_sections() {
    let err = "C:\\app\\EML_gui_config.ini".is_setup(Ok("[paths]\n".to_string()), &INI_SECTIONS)
        .unwrap_err();
    assert_eq!(err.kind(), ErrorKind::InvalidData);
    assert_eq!(
        err.message(),
        "Could not find section(s): [app-settings, registered-mods, mod-files], in: EML_gui_config.ini"
    );
    let missing = Err(Error::new(ErrorKind::NotFound, "gone"));
    match get_or_setup_cfg("C:\\app\\EML_gui_config.ini", missing, &INI_SECTIONS).unwrap() {
        CfgSource::New(t) => assert!(t.starts_with("[app-settings]\n")),
        CfgSource::Existing(_) => panic!("expected a new file"),
    }
    let full = new_cfg("C:\\app\\EML_gui_config.ini").unwrap();
    assert!(matches!(
        get_or_setup_cfg("C:\\app\\EML_gui_config.ini", Ok(full), &INI_SECTIONS).unwrap(),
        CfgSource::Existing(_)
    ));
}

#[test]
fn merge_and_messages() {
    let errs: Vec<Error> = vec![];
    let e = errs.as_slice().merge(true);
    assert_eq!(e.kind(), ErrorKind::InvalidInput);
    assert_eq!(e.message(), "Tried to merge 0 errors");
    let errs = vec![Error::new(ErrorKind::NotFound, "a"), Error::new(ErrorKind::Other, "b")];
    let e = errs.as_slice().merge(true);
    assert_eq!(e.kind(), ErrorKind::NotFound);
    assert_eq!(e.message(), "a\nb");
    let mut e = Error::new(ErrorKind::Other, "x");
    e.add_msg("y", false);
    assert_eq!(e.message(), "x, y");
}

#[test]
fn display_texts() {
    let v = s(&["a", "b", "c"]);
    assert_eq!(DisplayVec(&v[..1]).to_string(), "a");
    assert_eq!(DisplayVec(&v).to_string(), "[a, b, c]");
    assert_eq!(DisplayIndices(&[2, 0], &v).to_string(), "[c, a]");
    assert_eq!(DisplayIndices(&[1], &v).to_string(), "b");
    assert_eq!(DisplayMissingOrd(&[3, 4]).to_string(), "Load order values above: [3, 4], shifted down");
    assert_eq!(DisplayAntiCheatFound(false).to_string(), "'toggle_anti_cheat.exe' notfound");
    assert_eq!(DisplayAntiCheatFound(true).to_string(), "'toggle_anti_cheat.exe' found");
    assert_eq!(DisplayName("my_mod_name").to_string(), "my mod name");
    assert_eq!(DisplayState(false).to_string(), "disabled");
    assert_eq!(DisplayTheme(true).to_string(), "Dark");
    assert_eq!(DisplayOrder(true, 0).to_string(), "1");
    assert_eq!(DisplayOrder(false, 3).to_string(), "not set");
    assert_eq!(DisplayTime(5000).to_string(), "5000ms");
    assert_eq!(LoadOrder { set: true, i: 0, at: 12 }.to_string(), "12");
}

#[test]
fn install_data_targets() {
    let files = s(&["C:\\dl\\mod\\a.dll", "C:\\dl\\mod\\sub\\b.ini", "C:\\other\\c.txt"]);
    let data = InstallData::new("m", files, "G:\\Game", Ok("C:\\dl\\mod".to_string())).unwrap();
    assert_eq!(data.display_paths, "a.dll\nsub\\b.ini\nC:\\other\\c.txt");
    assert_eq!(data.install_dir, "G:\\Game\\mods");
    assert_eq!(data.to_paths(), &s(&["G:\\Game\\mods\\a.dll", "G:\\Game\\mods\\sub\\b.ini"]));
    let err = data.zip_from_to_paths().unwrap_err();
    assert_eq!(err.kind(), ErrorKind::BrokenPipe);

    let files = s(&["C:\\dl\\mod\\a.dll"]);
    let data = InstallData::new("m", files, "G:\\Game", Ok("C:\\dl\\mod".to_string())).unwrap();
    let pairs = data.zip_from_to_paths().unwrap();
    assert_eq!(pairs, vec![("C:\\dl\\mod\\a.dll", "G:\\Game\\mods\\a.dll")]);

    let err = InstallData::new("m", s(&["C:\\x\\a.dll"]), "G:\\Game", Err(Error::new(ErrorKind::Other, "no parent")))
        .unwrap_err();
    assert_eq!(err.message(), "no parent");
    let err = InstallData::new("m", vec![], "G:\\Game", Ok("C:\\dl".to_string())).unwrap_err();
    assert_eq!(err.kind(), ErrorKind::Other);
    assert_eq!(err.message(), "Failed to create a parent_dir");

    let m = RegMod::new("x", true, s(&["mods\\x.dll"]));
    let data =
        InstallData::amend(&m, s(&["C:\\dl\\cfg.ini"]), "G:\\Game", Ok("C:\\dl".to_string())).unwrap();
    assert_eq!(data.install_dir, "G:\\Game\\mods\\x");
    assert_eq!(data.to_paths(), &s(&["G:\\Game\\mods\\x\\cfg.ini"]));
    let two = RegMod::new("y", true, s(&["mods\\a.dll", "mods\\b.dll"]));
    let err = InstallData::amend(&two, vec![], "G:\\Game", Ok("C:\\dl".to_string())).unwrap_err();
    assert_eq!(err.kind(), ErrorKind::InvalidInput);
}

#[test]
fn cutoff_lists_up_to_the_limit() {
    let mut c = Cutoff::from(&DisplayItems::Limit(1), 3);
    assert_eq!(c.display_count, 3);
    assert_eq!(c.next_line("a"), Some("a".to_string()));
    assert_eq!(c.next_line("b"), Some("Plus 2 more files...".to_string()));
    assert_eq!(c.next_line("c"), None);
    let mut c = Cutoff::from(&DisplayItems::Limit(1), 2);
    c.next_line("a");
    assert_eq!(c.next_line("b"), Some("Plus 1 more file".to_string()));
    let mut c = Cutoff::from(&DisplayItems::Nothing, 9);
    assert_eq!(c.next_line("a"), None);
}

#[test]
fn mod_loader_properties() {
    let (loader, fixes) =
        ModLoader::properties("G:\\Game", &s(&["dinput8.dll", "mod_loader_config.ini", "eldenring.exe"]));
    assert!(loader.installed() && !loader.disabled() && !loader.anti_cheat_toggle_installed());
    assert_eq!(loader.path(), "G:\\Game\\mod_loader_config.ini");
    assert!(!fixes.rename_anti_cheat && !fixes.create_cfg);
    let (loader, fixes) = ModLoader::properties("G:\\Game", &s(&["_dinput8.dll"]));
    assert!(loader.installed() && loader.disabled() && !loader.anti_cheat_enabled());
    assert!(fixes.rename_anti_cheat && fixes.create_cfg);
    let (loader, _) = ModLoader::properties("G:\\Game", &s(&[]));
    assert!(!loader.installed());
    assert_eq!(loader.own_path(), "");
}

fn mods_text() -> String {
    let mut t = "[registered-mods]\n[mod-files]\n".to_string();
    t = save_bool(&t, Some(INI_SECTIONS[2]), "b_mod", false).unwrap();
    t = save_bool(&t, Some(INI_SECTIONS[2]), "a_mod", true).unwrap();
    t = save_paths(&t, Some(INI_SECTIONS[3]), "a_mod", &s(&["mods\\a.dll", "mods\\a\\a.ini"])).unwrap();
    t = save_path(&t, Some(INI_SECTIONS[3]), "b_mod", "mods\\b.dll.disabled").unwrap();
    t
}

#[test]
fn collect_mods_reads_every_mod() {
    let cfg = <Cfg as Config>::from(get_cfg(&mods_text()).unwrap(), "x.ini");
    let collected = cfg.collect_mods();
    assert!(collected.warnings.is_none());
    assert_eq!(collected.mods.len(), 2);
    assert_eq!(collected.mods[0].name, "a_mod");
    assert_eq!(collected.mods[0].files.dll, s(&["mods\\a.dll"]));
    assert_eq!(collected.mods[0].files.config, s(&["mods\\a\\a.ini"]));
    assert!(!collected.mods[1].state);
    let files = cfg.files();
    assert!(files.contains("mods\\a.dll") && files.contains("mods\\b.dll.disabled"));
    assert_eq!(files.len(), 3);
}

#[test]
fn keys_in_and_out_of_sync() {
    let cfg = <Cfg as Config>::from(get_cfg(&mods_text()).unwrap(), "x.ini");
    let (keys, sync) = cfg.keys();
    assert!(!sync);
    assert!(keys.contains("a_mod") && keys.contains("b_mod"));
    let t = save_path(&mods_text(), Some(INI_SECTIONS[3]), "C_Mod", "mods\\c.dll").unwrap();
    let cfg = <Cfg as Config>::from(get_cfg(&t).unwrap(), "x.ini");
    let (keys, sync) = cfg.keys();
    assert!(sync);
    assert_eq!(keys.len(), 2);
}

#[test]
fn combine_orders_mods_for_display() {
    let mut t = "[registered-mods]\n[mod-files]\n".to_string();
    for (k, f) in [("zed", "z.dll"), ("alpha", "a.dll"), ("mid", "m.dll"), ("beta", "b.dll")] {
        t = save_bool(&t, Some(INI_SECTIONS[2]), k, true).unwrap();
        t = save_path(&t, Some(INI_SECTIONS[3]), k, f).unwrap();
    }
    let cfg = <Cfg as Config>::from(get_cfg(&t).unwrap(), "x.ini");
    let mut order = OrderMap::new();
    order.insert("m.dll", 0);
    order.insert("z.dll", 1);
    let mods = combine_map_data(&cfg.sync_keys(), Some(&order));
    let names = mods.iter().map(|m| m.name.as_str()).collect::<Vec<_>>();
    assert_eq!(names, vec!["mid", "zed", "alpha", "beta"]);
    assert!(mods[0].order.set && mods[0].order.at == 0);
    assert!(!mods[3].order.set);
}

#[test]
fn verify_state_recovers_and_reports() {
    let mut m = RegMod::new("m", true, s(&["mods\\m.dll"]));
    let check = m.verify_state(&[Some(false)], &[true]).unwrap();
    assert_eq!(check.rewrite, Some(false));
    assert!(!m.state);
    assert_eq!(m.files.dll, s(&["mods\\m.dll.disabled"]));
    assert!(!check.toggle);

    let mut m = RegMod::new("m", true, s(&["mods\\m.dll"]));
    let err = m.verify_state(&[Some(false)], &[false]).unwrap_err();
    assert_eq!(err.kind(), ErrorKind::NotFound);
    assert_eq!(err.message(), "File(s): mods\\m.dll, can not be found on machine");

    let err = m.verify_state(&[None], &[false]).unwrap_err();
    assert_eq!(err.kind(), ErrorKind::PermissionDenied);
    assert_eq!(
        err.message(),
        "One or more of: mods\\m.dll, existance can neither be confirmed nor denied"
    );
}

#[test]
fn shorten_paths_splits_results() {
    let ok = shorten_paths(&s(&["G:\\Game\\mods\\a.dll"]), "G:\\Game").unwrap();
    assert_eq!(ok, s(&["mods\\a.dll"]));
    let err = shorten_paths(&s(&["G:\\Game\\a.dll", "C:\\b.dll"]), "G:\\Game").unwrap_err();
    assert_eq!(err.ok_paths_short, s(&["a.dll"]));
    assert_eq!(err.err_paths_long, s(&["C:\\b.dll"]));
}

#[test]
fn parse_bool_values() {
    assert_eq!(parse_bool("TRUE").ok(), Some(true));
    assert_eq!(parse_bool("0").ok(), Some(false));
    assert!(parse_bool("yes").is_err());
    let t = save_value_ext("[s]\n", Some("s"), "b", "maybe").unwrap();
    let err = IniProperty::<bool>::read(&get_cfg(&t).unwrap(), Some("s"), "b").unwrap_err();
    assert_eq!(err.kind(), ErrorKind::InvalidData);
    assert_eq!(err.message(), "string: 'maybe', saved with key: 'b', was not `true`, `false`, `1`, or `0`");
}

#[test]
fn split_files_and_reg_mod() {
    let m = RegMod::new("  My Mod ", true, s(&["a.dll", "b.ini", "c.txt", "d.dll"]));
    assert_eq!(m.name, "My_Mod");
    assert_eq!(m.files.dll, s(&["a.dll", "d.dll"]));
    assert_eq!(m.files.len(), 4);
    assert_eq!(m.files.other_files_len(), 2);
    assert!(m.is_array());
    let mut f = SplitFiles::from(s(&["a.dll", "b.ini"]));
    assert_eq!(f.remove("a.dll"), Some("a.dll".to_string()));
    assert!(f.dll.is_empty());
    f.add("e.dll");
    assert_eq!(f.file_refs(), vec!["e.dll", "b.ini"]);
}

#[test]
fn collections_keep_keys_once() {
    let mut set = StrSet::new();
    assert!(set.insert("a"));
    assert!(!set.insert("a"));
    assert_eq!(set.len(), 1);
    let mut map = OrderMap::new();
    map.insert("k", 1);
    map.insert("k", 2);
    assert_eq!(map.len(), 1);
    assert_eq!(map.get("k"), Some(2));
    assert!(map.contains_key("k") && !map.contains_key("q"));
}

#[test]
fn write_and_remove_mod() {
    let m = RegMod::new("m", true, s(&["mods\\m.dll", "mods\\m.ini"]));
    let t = m.write_to_file("[registered-mods]\n[mod-files]\n", false).unwrap();
    assert_eq!(
        t,
        "[registered-mods]\r\nm=true\r\n\r\n[mod-files]\r\nm=array\r\narray[]=mods\\m.dll\r\narray[]=mods\\m.ini\r\n"
    );
    let t = m.remove_from_file(&t).unwrap();
    assert_eq!(t, "[registered-mods]\r\n[mod-files]");
}

#[test]
fn removal_plan_lists_files_and_dirs_deepest_first() {
    let reg_mod = RegMod::new(
        "m",
        true,
        s(&["mods\\m.dll", "mods\\m\\cfg\\m.ini", "mods\\m\\data\\a.txt", "other\\deep\\b.txt"]),
    );
    let refs = reg_mod.files.file_refs();
    let found: Vec<Option<bool>> =
        refs.iter().map(|f| Some(!f.ends_with("a.txt"))).collect();
    let plan = remove_mod_files("C:\\Game", &reg_mod, &found).unwrap();
    let mut files = plan.files.clone();
    files.sort();
    assert_eq!(
        files,
        s(&["C:\\Game\\mods\\m.dll", "C:\\Game\\mods\\m\\cfg\\m.ini", "C:\\Game\\other\\deep\\b.txt"])
    );
    assert_eq!(
        plan.dirs,
        s(&["C:\\Game\\mods\\m\\cfg", "C:\\Game\\mods\\m", "C:\\Game\\other\\deep", "C:\\Game\\other"])
    );
    assert!(!plan.remove_order);
}

#[test]
fn removal_plan_reports_last_unreadable_file() {
    let reg_mod = RegMod::new("m", true, s(&["mods\\m.dll", "mods\\x.txt", "mods\\y.txt"]));
    let refs = reg_mod.files.file_refs();
    let found: Vec<Option<bool>> = refs.iter().map(|f| if f.ends_with(".dll") { Some(true) } else { None }).collect();
    let last = refs.iter().rposition(|f| !f.ends_with(".dll")).unwrap();
    let err = remove_mod_files("C:\\Game", &reg_mod, &found).unwrap_err();
    assert_eq!(err.kind(), ErrorKind::PermissionDenied);
    assert_eq!(
        err.message(),
        format!("Permission denied while trying to access C:\\Game\\{}", refs[last])
    );
}

#[test]
fn removal_plan_keeps_mods_and_game_dirs() {
    let mut reg_mod = RegMod::new("m", false, s(&["mods\\m.dll.disabled"]));
    reg_mod.order = LoadOrder { set: true, i: 0, at: 2 };
    let plan = remove_mod_files("C:\\Game", &reg_mod, &[Some(true)]).unwrap();
    assert_eq!(plan.files, s(&["C:\\Game\\mods\\m.dll.disabled"]));
    assert!(plan.dirs.is_empty());
    assert!(plan.remove_order);
    let gone = remove_mod_files("C:\\Game", &reg_mod, &[Some(false)]).unwrap();
    assert!(gone.files.is_empty());
    assert!(gone.dirs.is_empty());
}

fn downloaded_mod() -> InstallData {
    InstallData::new("m", s(&["D:\\dl\\mod\\a.dll"]), "C:\\Game", Ok("D:\\dl\\mod".to_string())).unwrap()
}

#[test]
fn new_dir_inside_game_or_holding_mods_is_refused() {
    let mut data = downloaded_mod();
    let err = data.update_fields_with_new_dir("C:\\Game\\mods\\x", false, 0).unwrap_err();
    assert_eq!(err.kind(), ErrorKind::InvalidInput);
    assert_eq!(err.message(), "Files are already installed");
    let err = data.update_fields_with_new_dir("D:\\other", true, 0).unwrap_err();
    assert_eq!(err.kind(), ErrorKind::InvalidData);
    assert_eq!(err.message(), "Invalid file structure");
    let err = data.update_fields_with_new_dir("D:\\other\\mods", false, 2).unwrap_err();
    assert_eq!(err.kind(), ErrorKind::InvalidData);
    assert_eq!(data.parent_dir, "D:\\dl\\mod");
    assert_eq!(data.from_paths(), &s(&["D:\\dl\\mod\\a.dll"]));
}

#[test]
fn new_dir_above_the_files_starts_over() {
    let mut data = downloaded_mod();
    data.update_fields_with_new_dir("D:\\dl", false, 0).unwrap();
    assert_eq!(data.parent_dir, "D:\\dl");
    assert!(data.from_paths().is_empty());
    assert!(data.to_paths().is_empty());
    assert!(data.display_paths.is_empty());
    data.push_from_path("D:\\dl\\mod\\a.dll".to_string());
    data.update_to_paths();
    assert_eq!(data.to_paths(), &s(&["C:\\Game\\mods\\mod\\a.dll"]));
}

#[test]
fn new_dir_elsewhere_is_added_beside_the_files() {
    let mut data = downloaded_mod();
    assert_eq!(data.to_paths(), &s(&["C:\\Game\\mods\\a.dll"]));
    data.update_fields_with_new_dir("D:\\other\\stuff", false, 5).unwrap();
    assert_eq!(data.parent_dir, "D:\\other");
    data.push_from_path("D:\\other\\stuff\\b.txt".to_string());
    data.update_to_paths();
    assert_eq!(data.to_paths(), &s(&["C:\\Game\\mods\\a.dll", "C:\\Game\\mods\\stuff\\b.txt"]));
    let before = data.to_paths().clone();
    data.update_to_paths();
    assert_eq!(data.to_paths(), &before);
}

#[test]
fn listed_names_are_relative_or_bare() {
    assert_eq!(listed_name("D:\\other\\stuff\\b.txt", "D:\\other"), "stuff\\b.txt");
    assert_eq!(listed_name("E:\\x\\c.txt", "D:\\other"), "c.txt");
}

#[test]
fn get_mod_reads_one_mod() {
    let cfg = <Cfg as Config>::from(get_cfg(&mods_text()).unwrap(), "x.ini");
    let m = cfg.get_mod("a mod", "C:\\Game", None).unwrap();
    assert_eq!(m.name, "a_mod");
    assert!(m.state);
    assert_eq!(m.files.dll, s(&["mods\\a.dll"]));
    assert_eq!(m.files.config, s(&["mods\\a\\a.ini"]));
    assert!(!m.order.set);
    let b = cfg.get_mod("b_mod", "C:\\Game", None).unwrap();
    assert!(!b.state);
    assert_eq!(b.files.dll, s(&["mods\\b.dll.disabled"]));
    let mut map = OrderMap::new();
    map.insert("b.dll", 3);
    let b = cfg.get_mod("b_mod", "C:\\Game", Some(&map)).unwrap();
    assert!(b.order.set);
    assert_eq!((b.order.i, b.order.at), (0, 3));
    let err = cfg.get_mod("missing", "C:\\Game", None).unwrap_err();
    assert_eq!(err.kind(), ErrorKind::InvalidInput);
    assert_eq!(err.message(), "missing not found in section: mod-files");
}

#[test]
fn saved_text_reads_back() {
    let mut t = "[paths]\n[mod-files]\n".to_string();
    t = save_path(&t, Some(INI_SECTIONS[1]), "game_dir", "C:\\Games\\ELDEN RING\\Game").unwrap();
    t = save_paths(&t, Some(INI_SECTIONS[3]), "my_mod", &s(&["mods\\a.dll", "mods\\a\\cfg.ini", "mods\\a\\b.txt"])).unwrap();
    t = save_bool(&t, Some(INI_SECTIONS[3]), "flag", true).unwrap();
    let ini = get_cfg(&t).unwrap();
    let path = IniProperty::<String>::read(&ini, Some(INI_SECTIONS[1]), "game_dir", None).unwrap();
    assert_eq!(path.value, "C:\\Games\\ELDEN RING\\Game");
    let paths = IniProperty::<Vec<String>>::read(&ini, Some(INI_SECTIONS[3]), "my_mod").unwrap();
    assert_eq!(paths.value, s(&["mods\\a.dll", "mods\\a\\cfg.ini", "mods\\a\\b.txt"]));
    assert!(IniProperty::<bool>::read(&ini, Some(INI_SECTIONS[3]), "flag").unwrap().value);
    let t2 = save_value_ext("[modloader]\n", Some(LOADER_SECTIONS[0]), "load_delay", "2000").unwrap();
    let ini2 = get_cfg(&t2).unwrap();
    assert_eq!(IniProperty::<u32>::read(&ini2, Some(LOADER_SECTIONS[0]), "load_delay").unwrap().value, 2000);
}

#[test]
fn mods_are_listed_with_short_names() {
    let m = RegMod::new(
        "a_very_long_mod_name_here",
        false,
        s(&["mods\\x.dll.disabled", "mods\\x\\c.ini", "mods\\x\\r.txt"]),
    );
    let entry = deserialize_mod(&m);
    assert_eq!(entry.name, "a very long mod name here");
    assert_eq!(entry.displayname, "a very long mod n...");
    assert!(!entry.enabled);
    assert_eq!(entry.files, s(&["mods\\x.dll", "mods\\x\\c.ini", "mods\\x\\r.txt"]));
    assert_eq!(entry.dll_files, s(&["x.dll"]));
    assert_eq!(entry.config_files, s(&["mods\\x\\c.ini"]));
    let short = deserialize_mod(&RegMod::new("short_one", true, s(&["a.dll"])));
    assert_eq!(short.displayname, "short one");
    let (files, dlls, cfgs) = deserialize_split_files(&m.files);
    assert_eq!((files, dlls, cfgs), (entry.files.clone(), entry.dll_files.clone(), entry.config_files.clone()));
}

#[test]
fn restricted_files_are_refused() {
    let restricted = populate_restricted_files();
    assert_eq!(restricted.len(), 7);
    assert!(restricted.contains("dinput8.dll") && restricted.contains("eldenring.exe"));
    let err = check_user_files(&s(&["C:\\Game\\mods\\a.dll", "C:\\Game\\dinput8.dll"]), &restricted).unwrap_err();
    assert_eq!(err.kind(), ErrorKind::InvalidData);
    assert_eq!(err.message(), "Tried to add a restricted file");
    assert!(check_user_files(&s(&["C:\\Game\\mods\\a.dll", "C:\\Game\\mods\\a.ini"]), &restricted).is_ok());
}

#[test]
fn panics_are_logged_with_their_place() {
    assert_eq!(
        format_panic_info(Some(("src\\main.rs", 12, 5)), Some("boom")),
        "PANIC src\\main.rs:12:5: boom"
    );
    assert_eq!(format_panic_info(None, None), "PANIC: no attached message");
}

#[test]
fn game_dir_needs_the_game_files() {
    let all = s(&["eldenring.exe", "oo2core_6_win64.dll", "eossdk-win64-shipping.dll", "mods"]);
    assert!(validate_game_dir(&all).is_ok());
    let err = validate_game_dir(&s(&["eldenring.exe", "mods"])).unwrap_err();
    assert_eq!(err.kind(), ErrorKind::NotFound);
    assert_eq!(
        err.message(),
        "Could not verify the install directory of Elden Ring, the following files were not found: [oo2core_6_win64.dll, eossdk-win64-shipping.dll]"
    );
    let err = validate_game_dir(&s(&["oo2core_6_win64.dll", "eossdk-win64-shipping.dll"])).unwrap_err();
    assert_eq!(
        err.message(),
        "Could not verify the install directory of Elden Ring, the following files were not found: eldenring.exe"
    );
}

#[test]
fn file_checks_name_their_failure() {
    let e = validity_error("C:\\Game\\mods\\readme", Some(true)).unwrap();
    assert_eq!(e.kind(), ErrorKind::InvalidInput);
    assert_eq!(e.message(), "\"readme\" does not have an extention");
    let e = validity_error("C:\\Game\\mods\\a.ini", Some(false)).unwrap();
    assert_eq!(e.kind(), ErrorKind::NotFound);
    assert_eq!(e.message(), "'a.ini' can not be found on machine");
    let e = validity_error("C:\\Game\\mods\\a.ini", None).unwrap();
    assert_eq!(e.kind(), ErrorKind::PermissionDenied);
    assert_eq!(e.message(), "Path \"C:\\Game\\mods\\a.ini\"'s existance can neither be confirmed nor denied");
    assert!(validity_error("C:\\Game\\mods\\a.ini", Some(true)).is_none());
    assert!(validity_error("C:\\Game\\mods\\.hidden", Some(true)).is_some());
    assert_eq!(
        dropped_file_note_text("mods\\a.ini", "my_mod"),
        "File: 'mods\\a.ini' was removed, and is no longer associated with: my mod"
    );
    assert!(FileData::has_extension("mods\\a.dll.disabled"));
    assert!(!FileData::has_extension("mods\\a.disabled"));
    assert!(!FileData::has_extension("readme"));
}

#[test]
fn scan_leaves_old_mods_to_reenable() {
    let mut old_a = RegMod::new("a", false, s(&["mods\\a.dll.disabled", "mods\\a2.dll.disabled", "mods\\a.ini"]));
    old_a.order = LoadOrder { set: true, i: 1, at: 0 };
    let old_b = RegMod::new("b", true, s(&["mods\\b.dll"]));
    let old_c = RegMod::new("c", false, s(&["mods\\c.dll.disabled"]));
    let new_mods = vec![
        RegMod::new("a", true, s(&["mods\\a.dll.disabled"])),
        RegMod::new("c", true, s(&["mods\\c.dll.disabled"])),
    ];
    let left = left_after_scan(&[old_a, old_b, old_c], &new_mods);
    assert_eq!(left.order_removals, vec![0]);
    assert_eq!(left.to_enable.len(), 1);
    assert_eq!(left.to_enable[0].name, "a");
    assert_eq!(left.to_enable[0].files.dll, s(&["mods\\a2.dll.disabled"]));
    assert_eq!(left.to_enable[0].files.config, s(&["mods\\a.ini"]));
}

fn row(name: &str, dll: Option<&str>, at: usize) -> ModEntry {
    ModEntry {
        displayname: name.to_string(),
        name: name.to_string(),
        enabled: true,
        files: Vec::new(),
        dll_files: dll.map(|d| vec![d.to_string()]).unwrap_or_default(),
        config_files: Vec::new(),
        order: LoadOrder { set: dll.is_some(), i: 0, at },
    }
}

fn names(rows: &[ModEntry]) -> Vec<String> {
    rows.iter().map(|r| r.name.clone()).collect()
}

#[test]
fn update_order_puts_rows_in_order() {
    let mut rows = vec![
        row("A", Some("a.dll"), 5),
        row("B", None, 0),
        row("C", Some("c.dll"), 7),
        row("D", Some("d.dll"), 9),
    ];
    let mut map = OrderMap::new();
    map.insert("a.dll", 1);
    map.insert("c.dll", 0);
    map.insert("d.dll", 1);
    let r = update_order(&mut rows, Some(1), &map, &StrSet::new());
    assert_eq!(names(&rows), vec!["C", "A", "D", "B"]);
    assert_eq!(rows.iter().map(|r| r.order.at).collect::<Vec<_>>(), vec![0, 1, 1, 0]);
    // the selected row "B" ends last
    assert_eq!(r, Some((Some(3), true)));
}

#[test]
fn update_order_in_place_sets_values() {
    let mut rows = vec![row("A", Some("a.dll"), 9), row("B", Some("b.dll"), 9), row("C", None, 4)];
    let mut map = OrderMap::new();
    map.insert("a.dll", 0);
    map.insert("b.dll", 1);
    let r = update_order(&mut rows, Some(1), &map, &StrSet::new());
    assert_eq!(names(&rows), vec!["A", "B", "C"]);
    assert_eq!(rows.iter().map(|r| r.order.at).collect::<Vec<_>>(), vec![0, 1, 4]);
    assert_eq!(r, Some((Some(1), false)));
}

#[test]
fn update_order_without_known_values_does_nothing() {
    let mut rows = vec![row("A", Some("a.dll"), 3), row("B", None, 0)];
    let mut map = OrderMap::new();
    map.insert("x.dll", 0);
    let mut unknown = StrSet::new();
    unknown.insert("x.dll");
    assert_eq!(update_order(&mut rows, None, &map, &unknown), None);
    assert_eq!(names(&rows), vec!["A", "B"]);
    assert_eq!(rows[0].order.at, 3);
    assert_eq!(update_order(&mut rows, Some(0), &OrderMap::new(), &StrSet::new()), None);
}

#[test]
fn update_order_skips_unknown_keys() {
    let mut rows = vec![row("B", Some("b.dll"), 0), row("N", None, 0), row("A", Some("a.dll"), 0)];
    let mut map = OrderMap::new();
    map.insert("b.dll", 2);
    map.insert("x.dll", 1);
    map.insert("a.dll", 1);
    let mut unknown = StrSet::new();
    unknown.insert("x.dll");
    let r = update_order(&mut rows, None, &map, &unknown);
    assert_eq!(names(&rows), vec!["A", "B", "N"]);
    assert_eq!(r, Some((None, true)));
}

#[test]
fn state_data_counts_bytes() {
    assert_eq!(FileData::state_data("é.dll.disabled"), (false, 6));
    assert_eq!(FileData::state_data("a.dll.disabled"), (false, 5));
    assert_eq!(FileData::state_data("é.dll"), (true, 0));
}

#[test]
fn file_name_after_leading_separator() {
    assert_eq!(file_name_from_str("\\mod.dll"), "mod.dll");
    assert_eq!(file_name_from_str("C:\\g\\mod.dll"), "mod.dll");
    assert_eq!(file_name_from_str("mod.dll"), "mod.dll");
}

fn checked() -> Result<StateCheck, Error> {
    Ok(StateCheck { rewrite: None, toggle: false })
}

#[test]
fn screening_a_mod_that_failed_its_state_check_forgets_it() {
    let m = RegMod::new("m", true, s(&["mods\\m.dll", "mods\\m.ini"]));
    let invalid = vec![("mods\\m.ini".to_string(), Error::new(ErrorKind::NotFound, "gone"))];
    let (step, notes) = screen_collected(m, Err(Error::new(ErrorKind::InvalidData, "bad state")), invalid);
    assert!(notes.is_empty());
    match step {
        CollectStep::Forget(e, m) => {
            assert_eq!(e.message(), "bad state");
            assert_eq!(m.files.len(), 2);
        }
        CollectStep::Keep(_) => panic!("kept"),
    }
}

#[test]
fn screening_drops_missing_files_from_the_last() {
    let m = RegMod::new("my_mod", true, s(&["mods\\m.dll", "mods\\a.ini", "mods\\b.txt"]));
    let invalid = vec![
        ("mods\\a.ini".to_string(), Error::new(ErrorKind::NotFound, "a gone")),
        ("mods\\b.txt".to_string(), Error::new(ErrorKind::NotFound, "b gone")),
    ];
    let (step, notes) = screen_collected(m, checked(), invalid);
    let msgs = notes.iter().map(|e| e.message().to_string()).collect::<Vec<_>>();
    assert_eq!(msgs, vec![
        "b gone\nFile: 'mods\\b.txt' was removed, and is no longer associated with: my mod".to_string(),
        "a gone\nFile: 'mods\\a.ini' was removed, and is no longer associated with: my mod".to_string(),
    ]);
    match step {
        CollectStep::Keep(m) => {
            assert_eq!(m.files.dll, s(&["mods\\m.dll"]));
            assert!(m.files.config.is_empty() && m.files.other.is_empty());
        }
        CollectStep::Forget(..) => panic!("forgotten"),
    }
}

#[test]
fn screening_forgets_a_mod_whose_file_can_not_be_dropped() {
    let m = RegMod::new("m", true, s(&["mods\\m.dll", "mods\\a.ini"]));
    let invalid = vec![
        ("mods\\a.ini".to_string(), Error::new(ErrorKind::NotFound, "a gone")),
        ("mods\\x.txt".to_string(), Error::new(ErrorKind::NotFound, "x gone")),
    ];
    let (step, notes) = screen_collected(m, checked(), invalid);
    let msgs = notes.iter().map(|e| e.message().to_string()).collect::<Vec<_>>();
    assert_eq!(msgs, vec!["a gone".to_string()]);
    match step {
        CollectStep::Forget(e, m) => {
            assert_eq!(e.message(), "x gone");
            assert_eq!(m.files.len(), 2);
        }
        CollectStep::Keep(_) => panic!("kept"),
    }
}

#[test]
fn deregistering_enables_disabled_files() {
    let m = RegMod::new("m", false, s(&["mods\\m.dll.disabled", "mods\\n.dll"]));
    assert_eq!(enable_before_deregister(&m), Some(s(&["mods\\m.dll", "mods\\n.dll"])));
    let m = RegMod::new("m", true, s(&["mods\\m.dll"]));
    assert_eq!(enable_before_deregister(&m), None);
}

#[test]
fn parent_comes_from_the_path_with_fewest_ancestors() {
    assert_eq!(fewest_ancestors(&s(&["C:\\a\\b\\c.dll", "C:\\a\\d.dll", "C:\\x\\e.dll"])), Some(1));
    assert_eq!(fewest_ancestors(&[]), None);
}

#[test]
fn update_order_keeps_keys_and_values_in_range() {
    let mut cfg = loader_cfg(&[("b.dll", "9"), ("Example.dll", "0"), ("a.dll", "x"), ("c.dll", "9")]);
    cfg.update_order_entries(None, &StrSet::new());
    let after = pairs(&cfg);
    let mut keys = after.iter().map(|(k, _)| k.clone()).collect::<Vec<_>>();
    keys.sort();
    assert_eq!(keys, vec!["a.dll", "b.dll", "c.dll"]);
    for (j, (_, v)) in after.iter().enumerate() {
        assert!(v.parse::<usize>().unwrap() <= j + 1);
    }
}

#[test]
fn update_order_renumbers_by_old_value() {
    let mut cfg = loader_cfg(&[("d.dll", "x"), ("c.dll", "7"), ("a.dll", "5"), ("b.dll", "5")]);
    let data = cfg.update_order_entries(None, &StrSet::new());
    assert_eq!(
        pairs(&cfg),
        vec![
            ("a.dll".to_string(), "1".to_string()),
            ("b.dll".to_string(), "1".to_string()),
            ("c.dll".to_string(), "2".to_string()),
            ("d.dll".to_string(), "3".to_string())
        ]
    );
    assert_eq!(data.max_order, (3, false));
}

#[test]
fn unknown_keys_are_those_not_registered() {
    let mut cfg = loader_cfg(&[("Example.dll", "0"), ("a.dll", "0"), ("x.dll", "1")]);
    let mut dlls = StrSet::new();
    dlls.insert("a.dll");
    let err = cfg.verify_keys(&dlls, 1).unwrap_err();
    let unknown = err.unknown_keys.unwrap();
    assert!(unknown.contains("x.dll") && !unknown.contains("a.dll") && !unknown.contains("Example.dll"));
    assert_eq!(unknown.len(), 1);
}

#[test]
fn update_order_with_unknown_key_outside_section() {
    let mut cfg = loader_cfg(&[("a.dll", "2"), ("b.dll", "4"), ("c.dll", "4")]);
    let mut unknown = StrSet::new();
    unknown.insert("z.dll");
    let data = cfg.update_order_entries(None, &unknown);
    assert_eq!(
        pairs(&cfg),
        vec![
            ("a.dll".to_string(), "1".to_string()),
            ("b.dll".to_string(), "2".to_string()),
            ("c.dll".to_string(), "2".to_string())
        ]
    );
    assert_eq!(data.max_order, (3, true));
    assert_eq!(data.missing_vals, Some(vec![1]));
}

#[test]
fn verify_keys_moves_clashing_unknown_key_last() {
    let mut cfg = loader_cfg(&[("a.dll", "0"), ("x.dll", "1"), ("b.dll", "1")]);
    let mut dlls = StrSet::new();
    dlls.insert("a.dll");
    dlls.insert("b.dll");
    let err = cfg.verify_keys(&dlls, 2).unwrap_err();
    assert_eq!(err.err.kind(), ErrorKind::Unsupported);
    assert!(err.update_ord_data.is_some());
    let after = pairs(&cfg);
    let value_of = |key: &str| after.iter().find(|(k, _)| k == key).unwrap().1.parse::<usize>().unwrap();
    assert!(value_of("x.dll") > value_of("a.dll"));
    assert!(value_of("x.dll") > value_of("b.dll"));
}

#[test]
fn parse_section_values_run_without_gaps() {
    let mut cfg = loader_cfg(&[("a.dll", "4"), ("b.dll", "9"), ("c.dll", "x"), ("d.dll", "4")]);
    let (map, write) = cfg.parse_section(&StrSet::new());
    assert!(write);
    assert_eq!(map.len(), 4);
    assert_eq!(map.get("a.dll"), Some(1));
    assert_eq!(map.get("d.dll"), Some(1));
    assert_eq!(map.get("b.dll"), Some(2));
    assert_eq!(map.get("c.dll"), Some(3));
}

#[test]
fn update_order_keeps_file_order_of_equal_values() {
    let mut cfg = loader_cfg(&[("z.dll", "3"), ("b.dll", "5"), ("a.dll", "5"), ("c.dll", "3")]);
    cfg.update_order_entries(None, &StrSet::new());
    assert_eq!(
        pairs(&cfg),
        vec![
            ("z.dll".to_string(), "1".to_string()),
            ("c.dll".to_string(), "1".to_string()),
            ("b.dll".to_string(), "2".to_string()),
            ("a.dll".to_string(), "2".to_string())
        ]
    );
}

use league_mod_manager::desktop::{
    armed_report, early_report, find_profile, game_process, seed_library, seed_profiles,
    seed_state, set_profile_mod_enabled,
};
use league_mod_manager::hook::{redirect_target, redirection_table};
use league_mod_manager::injector::{
    find_process, inject_next, load_succeeded, loader_path, watch_next, wide_byte_len,
    wide_path, write_succeeded, Cleanup, InjectNext, InjectStep, ProcessEntry, WatchNext,
};
use league_mod_manager::league::{existing_installations, installation_candidates};
use league_mod_manager::patcher::{redirect_key, PatchStatus};
use league_mod_manager::profile::Profile;
use league_mod_manager::storage::{check_importable, import_refusal, AppPaths, PersistedState};

fn entry(key: &str, value: Option<&str>) -> (String, Option<String>) {
    (key.to_string(), value.map(|v| v.to_string()))
}

#[test]
fn redirection_table_lowercases_keys_and_keeps_the_last_value() {
    let table = redirection_table(&vec![
        entry("DATA/Menu.wad.client", Some("C:/staging/DATA_Menu.wad.client")),
        entry("data/skip.bin", None),
        entry("data/menu.WAD.client", Some("C:/staging/second")),
        entry("data/config.bin", Some("C:/staging/config.bin")),
    ]);
    assert_eq!(
        table,
        vec![
            ("data/menu.wad.client".to_string(), "C:/staging/second".to_string()),
            ("data/config.bin".to_string(), "C:/staging/config.bin".to_string()),
        ]
    );
}

#[test]
fn redirect_matches_a_suffix_of_the_opened_path() {
    let table = redirection_table(&vec![
        entry("data/final/champions/aatrox.wad.client", Some("D:/staged/Characters_Aatrox.wad.client")),
        entry("data/config.bin", Some("D:/staged/config.bin")),
    ]);
    assert_eq!(
        redirect_target(&table, "C:\\Riot Games\\League of Legends\\Game\\DATA\\FINAL\\Champions\\Aatrox.wad.client"),
        Some("D:/staged/Characters_Aatrox.wad.client".to_string())
    );
    assert_eq!(
        redirect_target(&table, "DATA/Config.bin"),
        Some("D:/staged/config.bin".to_string())
    );
    assert_eq!(redirect_target(&table, "DATA/Other.bin"), None);
    assert_eq!(redirect_target(&table, "config.bin"), None);
    assert_eq!(redirect_target(&Vec::new(), "anything"), None);
}

fn process(name: &str, pid: u32) -> ProcessEntry {
    let mut exe_file = name.as_bytes().to_vec();
    exe_file.resize(260, 0);
    ProcessEntry { exe_file, process_id: pid }
}

#[test]
fn finds_the_game_process_by_name_ignoring_case() {
    let snapshot = vec![
        process("System", 4),
        process("LeagueClient.exe", 100),
        process("league of legends.EXE", 200),
        process("League of Legends.exe", 300),
    ];
    assert_eq!(find_process(&snapshot, "League of Legends.exe"), Some(200));
    assert_eq!(find_process(&snapshot, "leagueclient.exe"), Some(100));
    assert_eq!(find_process(&snapshot, "League"), None);
    // Bytes after the first NUL are not part of the name.
    let mut padded = process("game.exe", 7);
    padded.exe_file[9] = b'x';
    assert_eq!(find_process(&vec![padded], "game.exe"), Some(7));
}

#[test]
fn loader_path_drops_the_verbatim_prefix() {
    assert_eq!(loader_path("\\\\?\\C:\\mods\\hook.dll"), "C:\\mods\\hook.dll");
    assert_eq!(loader_path("C:\\mods\\hook.dll"), "C:\\mods\\hook.dll");
    assert_eq!(loader_path("\\\\?"), "\\\\?");
}

#[test]
fn wide_path_is_utf16_with_a_terminator() {
    let expected: Vec<u16> = "C:\\Users\\Hüseyin\\😀.dll".encode_utf16().chain(std::iter::once(0)).collect();
    assert_eq!(wide_path("C:\\Users\\Hüseyin\\😀.dll"), expected);
    assert_eq!(wide_path(""), vec![0]);
    assert_eq!(wide_byte_len(expected.len()), expected.len() * 2);
}

#[test]
fn injection_steps_run_in_order_and_clean_up_on_failure() {
    let mut step = InjectStep::OpenProcess;
    let mut seen = vec![step];
    loop {
        match inject_next(step, true) {
            InjectNext::Run(next) => {
                step = next;
                seen.push(next);
            }
            InjectNext::Finish { cleanup } => {
                assert_eq!(
                    cleanup,
                    Cleanup { close_thread: true, free_memory: true, close_process: true }
                );
                break;
            }
            InjectNext::Fail { .. } => panic!("no step failed"),
        }
    }
    assert_eq!(seen.len(), 7);
    assert_eq!(seen[6], InjectStep::AwaitThread);

    match inject_next(InjectStep::OpenProcess, false) {
        InjectNext::Fail { cleanup, message } => {
            assert_eq!(cleanup, Cleanup { close_thread: false, free_memory: false, close_process: false });
            assert_eq!(message, "failed to open target process");
        }
        other => panic!("unexpected {other:?}"),
    }
    match inject_next(InjectStep::Allocate, false) {
        InjectNext::Fail { cleanup, .. } => assert!(cleanup.close_process && !cleanup.free_memory),
        other => panic!("unexpected {other:?}"),
    }
    match inject_next(InjectStep::StartThread, false) {
        InjectNext::Fail { cleanup, message } => {
            assert!(cleanup.close_process && cleanup.free_memory && !cleanup.close_thread);
            assert_eq!(message, "failed to spawn remote thread in target process");
        }
        other => panic!("unexpected {other:?}"),
    }
    match inject_next(InjectStep::AwaitThread, false) {
        InjectNext::Fail { cleanup, message } => {
            assert!(cleanup.close_thread);
            assert_eq!(message, "LoadLibraryW call in target process returned failure (0)");
        }
        other => panic!("unexpected {other:?}"),
    }
    assert!(write_succeeded(true, 10, 10));
    assert!(!write_succeeded(true, 9, 10));
    assert!(!write_succeeded(false, 10, 10));
    assert!(load_succeeded(true, 0x7ff0));
    assert!(!load_succeeded(true, 0));
    assert!(!load_succeeded(false, 5));
    assert_eq!(watch_next(Some(42)), WatchNext::Inject(42));
    assert_eq!(watch_next(None), WatchNext::Wait);
}

#[test]
fn installation_candidates_follow_the_settings_in_order() {
    let candidates = installation_candidates(
        Some("D:/Riot".to_string()),
        None,
        Some("C:/Program Files (x86)".to_string()),
    );
    assert_eq!(candidates.len(), 2);
    assert_eq!(candidates[0].source, "RIOT_GAMES_PATH");
    assert!(candidates[0].root.starts_with("D:/Riot"));
    assert!(candidates[0].root.ends_with("League of Legends"));
    assert!(candidates[0].game_executable.ends_with("LeagueClient.exe"));
    assert_eq!(candidates[1].source, "ProgramFiles(x86)");
    assert!(candidates[1].root.contains("Riot Games"));

    let found = existing_installations(candidates.clone(), &vec![false, true]);
    assert_eq!(found, vec![candidates[1].clone()]);
    assert!(installation_candidates(None, None, None).is_empty());
}

#[test]
fn app_paths_are_joined_under_the_root() {
    let paths = AppPaths::from_root("/data/lmm".to_string());
    assert_eq!(paths.root, "/data/lmm");
    assert!(paths.packages.starts_with("/data/lmm") && paths.packages.ends_with("packages"));
    assert!(paths.state_file.ends_with("state.json"));
    assert!(paths.database.ends_with("manager.sqlite"));
    assert!(paths.cache.ends_with("cache") && paths.logs.ends_with("logs"));
    let sep = std::path::MAIN_SEPARATOR;
    assert_eq!(paths.packages, format!("/data/lmm{sep}packages"));
    assert_eq!(paths.state_file, format!("/data/lmm{sep}state.json"));
    let default = PersistedState::default();
    assert!(default.library.is_empty() && default.profiles.is_empty());
}

#[test]
fn import_is_refused_with_the_validation_errors() {
    assert_eq!(import_refusal(&Vec::new()), None);
    assert_eq!(
        import_refusal(&vec!["name is required".to_string(), "version is required".to_string()]),
        Some("name is required; version is required".to_string())
    );
    let seed = seed_library();
    assert!(check_importable(&seed[0].manifest).is_ok());
    let mut broken = seed[0].manifest.clone();
    broken.assets.clear();
    assert_eq!(check_importable(&broken), Err("at least one asset is required".to_string()));
}

#[test]
fn profiles_are_found_and_toggled_by_id() {
    let mut profiles = vec![Profile::new("A", uuid::Uuid::new_v4().as_u128()), Profile::new("B", uuid::Uuid::new_v4().as_u128())];
    let b = profiles[1].id;
    assert_eq!(find_profile(&profiles, b), Some(1));
    assert_eq!(find_profile(&profiles, b ^ 1), None);

    let updated = set_profile_mod_enabled(&mut profiles, b, 7, true).unwrap();
    assert_eq!(updated.enabled_mods, vec![7]);
    assert_eq!(profiles[1], updated);
    assert!(profiles[0].enabled_mods.is_empty());

    let updated = set_profile_mod_enabled(&mut profiles, b, 7, false).unwrap();
    assert!(updated.enabled_mods.is_empty());
    assert_eq!(updated.mod_order, vec![7]);

    let before = profiles.clone();
    assert_eq!(
        set_profile_mod_enabled(&mut profiles, b ^ 1, 7, true),
        Err("profile not found".to_string())
    );
    assert_eq!(profiles, before);
}

#[test]
fn apply_reports_end_as_the_staging_went() {
    let files = vec!["out/a.wad.client".to_string()];
    let notes = vec!["staged".to_string()];
    let blocked = early_report(PatchStatus::Blocked, "/tmp/overlay", &files, &notes).unwrap();
    assert_eq!(blocked.status, "blocked");
    assert!(!blocked.injector_started);
    assert_eq!(blocked.redirection_count, 0);
    assert_eq!(blocked.messages, notes);
    assert_eq!(blocked.process_name, "League of Legends.exe");

    let empty = early_report(PatchStatus::Applied, "/tmp/overlay", &Vec::new(), &notes).unwrap();
    assert_eq!(empty.status, "applied");
    assert_eq!(
        empty.messages,
        vec!["staged", "No mods are enabled in this profile; nothing to inject."]
    );

    assert!(early_report(PatchStatus::Applied, "/tmp/overlay", &files, &notes).is_none());
    let armed = armed_report("/tmp/overlay".to_string(), files.clone(), 3, notes.clone());
    assert_eq!(armed.status, "applied");
    assert!(armed.injector_started);
    assert_eq!(armed.redirection_count, 3);
    assert_eq!(armed.staged_files, files);
    assert_eq!(
        armed.messages[1],
        "Injector is watching for League of Legends.exe; launch the game or Practice Tool to apply the mods."
    );
    assert_eq!(game_process(), "League of Legends.exe");
}

#[test]
fn first_run_seeds_two_samples_and_two_profiles() {
    let library = seed_library();
    assert_eq!(library.len(), 2);
    assert_eq!(
        library[0].manifest.id,
        uuid::Uuid::parse_str("1f2f0a77-9648-4f7b-ae09-fd9c76995a12").unwrap().as_u128()
    );
    assert_eq!(
        library[1].manifest.id,
        uuid::Uuid::parse_str("fb657393-e6a9-466b-8719-0bfe8223b331").unwrap().as_u128()
    );
    assert_eq!(library[1].manifest.assets[0].wad, "DATA/Menu.wad.client");
    let profiles = seed_profiles(7, 8);
    assert_eq!((profiles[0].id, profiles[1].id), (7, 8));
    assert_eq!(library[0].manifest.description, "Sample mod package for UI development.");
    assert_eq!(library[1].manifest.description, "Sample interface package for UI development.");
    assert_eq!(profiles[0].name, "Ranked safe");
    assert_eq!(profiles[0].enabled_mods, vec![library[0].manifest.id]);
    assert_eq!(profiles[1].name, "Workshop testing");
    let state = seed_state(7, 8);
    assert_eq!(state.library.len(), 2);
    assert_eq!(state.profiles.len(), 2);
    assert_eq!(state.library, seed_library());
    assert_eq!(state.profiles, seed_profiles(7, 8));
    assert_eq!(state.profiles[0].name, "Ranked safe");
    assert_eq!(state.profiles[0].enabled_mods, vec![state.library[0].manifest.id]);
    assert_eq!(state.profiles[0].mod_order, vec![state.library[0].manifest.id]);
    assert_eq!(state.profiles[1].name, "Workshop testing");
    assert!(state.profiles[1].enabled_mods.is_empty() && state.profiles[1].mod_order.is_empty());
    assert_eq!(state.library[1].manifest.name, "SR Minimal HUD");
}

#[test]
fn staged_keys_catch_absolute_and_game_relative_opens() {
    let root: Vec<String> = ["C:", "Riot Games", "League of Legends"].iter().map(|s| s.to_string()).collect();
    let mut wad = root.clone();
    for part in ["Game", "DATA", "FINAL", "Champions", "Aatrox.wad.client"] {
        wad.push(part.to_string());
    }
    let key = redirect_key(&root, &wad);
    assert_eq!(key, "data/final/champions/aatrox.wad.client");
    let table = redirection_table(&vec![(key.clone(), Some("D:/staged/Characters_Aatrox.wad.client".to_string()))]);
    let staged = Some("D:/staged/Characters_Aatrox.wad.client".to_string());
    assert_eq!(
        redirect_target(&table, "C:\\Riot Games\\League of Legends\\Game\\DATA\\FINAL\\Champions\\Aatrox.wad.client"),
        staged
    );
    assert_eq!(redirect_target(&table, "DATA/FINAL/Champions/Aatrox.wad.client"), staged);
    assert_eq!(redirect_target(&table, "data\\final\\champions\\AATROX.WAD.CLIENT"), staged);
    // An archive outside the root is keyed by its file name.
    let stray: Vec<String> = ["D:", "elsewhere", "Aatrox.wad.client"].iter().map(|s| s.to_string()).collect();
    assert_eq!(redirect_key(&root, &stray), "aatrox.wad.client");
}

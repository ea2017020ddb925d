use league_mod_manager::manifest::{ModAsset, ModManifest};
use league_mod_manager::patch_plan::build_patch_plan;
use league_mod_manager::patcher::{
    override_report,
    staging_jobs, PatchEngine, PatchError, PatchRequest, PatchStatus, StageJob, StageStart,
    StagedWad,
};
use league_mod_manager::policy::{assess_manifest_policy, PolicyRisk};
use league_mod_manager::profile::Profile;
use league_mod_manager::storage::LibraryItem;
use uuid::Uuid;

fn item(id: u128, name: &str, target: &str) -> LibraryItem {
    LibraryItem {
        manifest: ModManifest {
            schema_version: 1,
            id,
            name: name.to_string(),
            version: "1".to_string(),
            author: "tester".to_string(),
            description: String::new(),
            tags: Vec::new(),
            preview_image: None,
            assets: vec![ModAsset {
                source: "asset.bin".to_string(),
                target: target.to_string(),
                wad: "Characters/Aatrox.wad.client".to_string(),
                layer: None,
                sha256: None,
            }],
        },
        package_path: ".".to_string(),
        imported_at: 0,
    }
}

fn library_item(id: u128, target: &str) -> LibraryItem {
    item(id, &format!("Mod {id}"), target)
}

fn profile_with(mods: &[u128]) -> Profile {
    let mut profile = Profile::new("Test", uuid::Uuid::new_v4().as_u128());
    for mod_id in mods {
        profile.enable_mod(*mod_id);
    }
    profile
}

fn new_id() -> u128 {
    Uuid::new_v4().as_u128()
}

#[test]
fn reports_asset_conflicts() {
    let first = new_id();
    let second = new_id();
    let mut profile = Profile::new("Default", uuid::Uuid::new_v4().as_u128());
    profile.enable_mod(first);
    profile.enable_mod(second);

    let plan = build_patch_plan(
        &profile,
        &[item(first, "First", "same.bin"), item(second, "Second", "same.bin")],
    );

    assert_eq!(plan.operations.len(), 2);
    assert_eq!(plan.conflicts.len(), 1);
}

#[test]
fn warns_about_paid_cosmetic_terms() {
    let manifest = ModManifest {
        schema_version: 1,
        id: new_id(),
        name: "Prestige Example".to_string(),
        version: "1.0.0".to_string(),
        author: "tester".to_string(),
        description: String::new(),
        tags: Vec::new(),
        preview_image: None,
        assets: vec![ModAsset {
            source: "a".to_string(),
            target: "b".to_string(),
            wad: "c".to_string(),
            layer: None,
            sha256: None,
        }],
    };

    let assessment = assess_manifest_policy(&manifest);
    assert_eq!(assessment.risk, PolicyRisk::High);
    assert!(!assessment.warnings.is_empty());
}

#[test]
fn enabling_mod_adds_enabled_and_order_once() {
    let mod_id = new_id();
    let mut profile = Profile::new("Default", uuid::Uuid::new_v4().as_u128());

    profile.enable_mod(mod_id);
    profile.enable_mod(mod_id);

    assert_eq!(profile.enabled_mods, vec![mod_id]);
    assert_eq!(profile.mod_order, vec![mod_id]);
}

#[test]
fn move_mod_reorders_within_load_order() {
    let a = new_id();
    let b = new_id();
    let c = new_id();
    let mut profile = Profile::new("Default", uuid::Uuid::new_v4().as_u128());
    profile.enable_mod(a);
    profile.enable_mod(b);
    profile.enable_mod(c);

    profile.move_mod(c, true); // c moves ahead of b -> [a, c, b]
    assert_eq!(profile.mod_order, vec![a, c, b]);

    profile.move_mod(a, true); // already first -> unchanged
    assert_eq!(profile.mod_order, vec![a, c, b]);

    profile.move_mod(a, false); // a moves later -> [c, a, b]
    assert_eq!(profile.mod_order, vec![c, a, b]);

    profile.move_mod(new_id(), true); // unknown id -> no-op
    assert_eq!(profile.mod_order, vec![c, a, b]);
}

#[test]
fn disabling_mod_keeps_order_for_future_reenable() {
    let mod_id = new_id();
    let mut profile = Profile::new("Default", uuid::Uuid::new_v4().as_u128());

    profile.enable_mod(mod_id);
    profile.disable_mod(mod_id);

    assert!(profile.enabled_mods.is_empty());
    assert_eq!(profile.mod_order, vec![mod_id]);
}

#[test]
fn reenabling_a_mod_restores_its_place() {
    let a = new_id();
    let b = new_id();
    let mut profile = profile_with(&[a, b]);
    profile.disable_mod(a);
    profile.enable_mod(a);
    assert_eq!(profile.mod_order, vec![a, b]);
    assert_eq!(profile.enabled_mods, vec![b, a]);
    let plan = build_patch_plan(&profile, &[item(a, "A", "a.bin"), item(b, "B", "b.bin")]);
    let targets: Vec<&str> = plan.operations.iter().map(|op| op.target.as_str()).collect();
    assert_eq!(targets, vec!["a.bin", "b.bin"]);
}

#[test]
fn missing_mods_are_named_in_the_warning() {
    let id = Uuid::parse_str("1f2f0a77-9648-4f7b-ae09-fd9c76995a12").unwrap().as_u128();
    let plan = build_patch_plan(&profile_with(&[id]), &[]);
    assert_eq!(
        plan.warnings,
        vec!["enabled mod 1f2f0a77-9648-4f7b-ae09-fd9c76995a12 is missing from library"]
    );
}

#[test]
fn missing_league_root_is_an_error() {
    let request = PatchRequest {
        league_root: "this/path/should/not/exist/zzz".to_string(),
        dry_run: true,
        profile: Profile::new("Test", uuid::Uuid::new_v4().as_u128()),
        library: Vec::new(),
    };

    let exists = std::path::Path::new(&request.league_root).exists();
    let error = PatchEngine::plan(request, exists, 1, 2).expect_err("missing root should fail");
    assert!(matches!(error, PatchError::MissingLeagueRoot(_)));
}

#[test]
fn dry_run_without_conflicts_is_ready() {
    let dir = tempfile::tempdir().unwrap();
    let id = new_id();
    let report = PatchEngine::plan(
        PatchRequest {
            league_root: dir.path().to_string_lossy().into_owned(),
            dry_run: true,
            profile: profile_with(&[id]),
            library: vec![library_item(id, "skin01.bin")],
        },
        dir.path().exists(),
        1,
        2,
    )
    .unwrap();

    assert_eq!(report.status, PatchStatus::Ready);
    assert!(report.dry_run);
    assert!(report.plan.conflicts.is_empty());
    assert_eq!(report.plan.operations.len(), 1);
}

#[test]
fn conflicting_targets_block_the_patch() {
    let dir = tempfile::tempdir().unwrap();
    let first = new_id();
    let second = new_id();
    let report = PatchEngine::plan(
        PatchRequest {
            league_root: dir.path().to_string_lossy().into_owned(),
            dry_run: true,
            profile: profile_with(&[first, second]),
            library: vec![library_item(first, "same.bin"), library_item(second, "same.bin")],
        },
        dir.path().exists(),
        1,
        2,
    )
    .unwrap();

    assert_eq!(report.status, PatchStatus::Blocked);
    assert_eq!(report.plan.conflicts.len(), 1);
}

#[test]
fn apply_without_conflicts_reports_unimplemented_writing() {
    let dir = tempfile::tempdir().unwrap();
    let id = new_id();
    let report = PatchEngine::plan(
        PatchRequest {
            league_root: dir.path().to_string_lossy().into_owned(),
            dry_run: false,
            profile: profile_with(&[id]),
            library: vec![library_item(id, "skin01.bin")],
        },
        dir.path().exists(),
        1,
        2,
    )
    .unwrap();

    assert_eq!(report.status, PatchStatus::Applied);
    assert!(report
        .messages
        .iter()
        .any(|message| message.contains("not implemented")));
}

#[test]
fn stage_refuses_conflicting_plans() {
    let dir = tempfile::tempdir().unwrap();
    let staging = dir.path().join("staging");
    let first = new_id();
    let second = new_id();

    let start = PatchEngine::stage_plan(
        &PatchRequest {
            league_root: dir.path().to_string_lossy().into_owned(),
            dry_run: true,
            profile: profile_with(&[first, second]),
            library: vec![library_item(first, "same.bin"), library_item(second, "same.bin")],
        },
        dir.path().exists(),
    )
    .unwrap();

    let report = match start {
        StageStart::Blocked(report) => report,
        StageStart::Groups(..) => panic!("a conflicting plan must not be staged"),
    };
    assert_eq!(report.status, PatchStatus::Blocked);
    assert!(report.staged.is_empty());
    assert!(!staging.exists());
}

#[test]
fn plan_follows_load_order_and_skips_unknown_mods() {
    let a = new_id();
    let b = new_id();
    let missing = new_id();
    let mut profile = profile_with(&[a, b, missing]);
    profile.move_mod(b, true);
    let plan = build_patch_plan(
        &profile,
        &[item(a, "A", "a.bin"), item(b, "B", "b.bin")],
    );
    let targets: Vec<&str> = plan.operations.iter().map(|op| op.target.as_str()).collect();
    assert_eq!(targets, vec!["b.bin", "a.bin"]);
    assert_eq!(plan.profile_id, profile.id);
    assert_eq!(plan.warnings.len(), 1);
    assert!(plan.conflicts.is_empty());
}

#[test]
fn conflict_lists_every_mod_writing_the_target() {
    let a = new_id();
    let b = new_id();
    let c = new_id();
    let plan = build_patch_plan(
        &profile_with(&[a, b, c]),
        &[item(a, "A", "same.bin"), item(b, "B", "other.bin"), item(c, "C", "same.bin")],
    );
    assert_eq!(plan.conflicts.len(), 1);
    assert_eq!(plan.conflicts[0].target, "same.bin");
    assert_eq!(plan.conflicts[0].wad, "Characters/Aatrox.wad.client");
    assert_eq!(plan.conflicts[0].mod_ids, vec![a, c]);
}

#[test]
fn disabled_mods_are_not_planned() {
    let a = new_id();
    let mut profile = profile_with(&[a]);
    profile.disable_mod(a);
    let plan = build_patch_plan(&profile, &[item(a, "A", "a.bin")]);
    assert!(plan.operations.is_empty());
}

#[test]
fn gameplay_terms_and_large_packages_raise_the_risk() {
    let mut manifest = ModManifest {
        schema_version: 1,
        id: new_id(),
        name: "Zoom hack".to_string(),
        version: "1".to_string(),
        author: "x".to_string(),
        description: String::new(),
        tags: Vec::new(),
        preview_image: None,
        assets: Vec::new(),
    };
    let gameplay = assess_manifest_policy(&manifest);
    assert_eq!(gameplay.risk, PolicyRisk::High);
    assert_eq!(
        gameplay.warnings,
        vec!["This mod may affect competitive visibility or gameplay information."]
    );

    manifest.name = "Plain".to_string();
    let low = assess_manifest_policy(&manifest);
    assert_eq!(low.risk, PolicyRisk::Low);
    assert!(low.warnings.is_empty());

    for i in 0..1001 {
        manifest.assets.push(ModAsset {
            source: format!("s{i}"),
            target: format!("t{i}"),
            wad: "w".to_string(),
            layer: None,
            sha256: None,
        });
    }
    let large = assess_manifest_policy(&manifest);
    assert_eq!(large.risk, PolicyRisk::Medium);
    assert_eq!(large.warnings, vec!["Large asset count; patching may be slow or fragile."]);

    manifest.tags = vec!["MYTHIC".to_string()];
    let premium = assess_manifest_policy(&manifest);
    assert_eq!(premium.risk, PolicyRisk::High);
    assert_eq!(premium.warnings.len(), 1);
}

#[test]
fn stage_groups_operations_by_wad_and_finishes_applied() {
    let dir = tempfile::tempdir().unwrap();
    let a = new_id();
    let b = new_id();
    let mut second = item(b, "B", "b.bin");
    second.manifest.assets[0].wad = "DATA/Menu.wad.client".to_string();
    let start = PatchEngine::stage_plan(
        &PatchRequest {
            league_root: dir.path().to_string_lossy().into_owned(),
            dry_run: false,
            profile: profile_with(&[a, b]),
            library: vec![item(a, "A", "a.bin"), second],
        },
        true,
    )
    .unwrap();
    let (plan, groups) = match start {
        StageStart::Groups(plan, groups) => (plan, groups),
        StageStart::Blocked(_) => panic!("no conflicts here"),
    };
    let wads: Vec<&str> = groups.iter().map(|g| g.wad.as_str()).collect();
    assert_eq!(wads, vec!["Characters/Aatrox.wad.client", "DATA/Menu.wad.client"]);

    let jobs = staging_jobs(&groups);
    assert_eq!(jobs.len(), 2);
    match &jobs[0] {
        StageJob::Archive { wad, output_name, overrides } => {
            assert_eq!(wad, "Characters/Aatrox.wad.client");
            assert_eq!(output_name, "Characters_Aatrox.wad.client");
            assert_eq!(overrides.len(), 1);
            assert_eq!(overrides[0].0, league_mod_manager::league_wad::path_hash("a.bin"));
        }
        other => panic!("unexpected {other:?}"),
    }

    let staged = vec![StagedWad {
        wad: "DATA/Menu.wad.client".to_string(),
        output_path: "out/DATA_Menu.wad.client".to_string(),
        entry_count: 1,
    }];
    let report = PatchEngine::stage_finish(plan, staged, vec!["note".to_string()], 2);
    assert_eq!(report.status, PatchStatus::Applied);
    assert_eq!(
        report.messages,
        vec![
            "note",
            "Staged 1 file(s) and 2 redirection(s); the live League installation was not modified."
        ]
    );
}

#[test]
fn profiles_keep_their_ids_and_reports_carry_the_times_given() {
    let id = new_id();
    let a = Profile::new("A", id);
    assert_eq!(a.id, id);
    assert_eq!(a.name, "A");
    let dir = tempfile::tempdir().unwrap();
    let report = PatchEngine::plan(
        PatchRequest {
            league_root: dir.path().to_string_lossy().into_owned(),
            dry_run: true,
            profile: a,
            library: Vec::new(),
        },
        true,
        1_700_000_000_000_000_000,
        1_700_000_000_000_000_500,
    )
    .unwrap();
    assert_eq!(report.started_at, 1_700_000_000_000_000_000);
    assert_eq!(report.finished_at, 1_700_000_000_000_000_500);
    assert_eq!(report.plan.profile_id, id);
    assert_eq!(report.messages, vec!["Dry-run completed; no files were modified."]);
}

#[test]
fn raw_files_become_one_job_each() {
    let a = new_id();
    let mut raw = item(a, "Raw", "DATA/config.bin");
    raw.manifest.assets[0].wad = "RAW".to_string();
    raw.manifest.assets.push(ModAsset {
        source: "RAW/DATA/other.bin".to_string(),
        target: "DATA\\Other.bin".to_string(),
        wad: "RAW".to_string(),
        layer: Some("raw".to_string()),
        sha256: None,
    });
    let start = PatchEngine::stage_plan(
        &PatchRequest {
            league_root: ".".to_string(),
            dry_run: false,
            profile: profile_with(&[a]),
            library: vec![raw],
        },
        true,
    )
    .unwrap();
    let groups = match start {
        StageStart::Groups(_, groups) => groups,
        StageStart::Blocked(_) => panic!("no conflicts here"),
    };
    let jobs = staging_jobs(&groups);
    assert_eq!(jobs.len(), 2);
    match &jobs[1] {
        StageJob::Raw { operation, output_name, key } => {
            assert_eq!(operation.source, "RAW/DATA/other.bin");
            assert_eq!(output_name, "DATA_Other.bin");
            assert_eq!(key, "data/other.bin");
        }
        other => panic!("unexpected {other:?}"),
    }
}

#[test]
fn the_canonical_final_tree_copy_is_picked() {
    let candidate = |path: &str, depth: usize| league_mod_manager::patcher::WadCandidate {
        normalized: league_mod_manager::patcher::normalize_key(path),
        depth,
    };
    let stray = candidate("C:\\League\\Game\\DATA\\Menu.wad.client", 5);
    let canonical = candidate("C:\\League\\Game\\DATA\\FINAL\\UI\\Menu.wad.client", 7);
    let picks = league_mod_manager::patcher::pick_game_wad(&vec![stray.clone(), canonical.clone()]);
    assert_eq!(picks, Some(1));
    assert_eq!(league_mod_manager::patcher::pick_game_wad(&vec![canonical, stray]), Some(0));
    // Among copies outside the final tree the shallower wins, then the smaller path.
    let a = candidate("/l/Game/b/Menu.wad.client", 4);
    let b = candidate("/l/Game/a/Menu.wad.client", 4);
    let deep = candidate("/l/Game/a/x/Menu.wad.client", 5);
    assert_eq!(league_mod_manager::patcher::pick_game_wad(&vec![deep, a, b]), Some(2));
    assert_eq!(league_mod_manager::patcher::pick_game_wad(&Vec::new()), None);
    assert_eq!(league_mod_manager::patcher::wad_file_name("Characters\\Aatrox.WAD.client"), "aatrox.wad.client");
}

#[test]
fn moving_a_mod_and_back_restores_the_order() {
    let a = new_id();
    let b = new_id();
    let c = new_id();
    let mut profile = profile_with(&[a, b, c]);
    profile.move_mod(b, false);
    assert_eq!(profile.mod_order, vec![a, c, b]);
    profile.move_mod(b, true);
    assert_eq!(profile.mod_order, vec![a, b, c]);
    // At the end nothing moves.
    profile.move_mod(c, false);
    assert_eq!(profile.mod_order, vec![a, b, c]);
}

#[test]
fn override_report_names_the_archive_and_both_counts() {
    assert_eq!(
        override_report("DATA/Menu.wad.client", 3, 1),
        "DATA/Menu.wad.client: 3 override(s) matched existing game assets, 1 appended as new entries."
    );
}

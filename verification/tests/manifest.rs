use league_mod_manager::manifest::{
    detect_package_kind, fantome_assets_from_names, hash_bytes, normalize_fantome, FantomeInfo,
    ManifestError, ModAsset, ModManifest, ModPackageKind, PackageProbe,
};
use uuid::Uuid;

fn valid_manifest() -> ModManifest {
    ModManifest {
        schema_version: 1,
        id: Uuid::new_v4().as_u128(),
        name: "Test Skin".to_string(),
        version: "1.0.0".to_string(),
        author: "tester".to_string(),
        description: String::new(),
        tags: vec!["champion".to_string()],
        preview_image: None,
        assets: vec![ModAsset {
            source: "assets/skin.bin".to_string(),
            target: "data/characters/aatrox/skins/skin01.bin".to_string(),
            wad: "Characters/Aatrox.wad.client".to_string(),
            layer: None,
            sha256: None,
        }],
    }
}

#[test]
fn validates_manifest_with_assets() {
    let report = valid_manifest().validate();
    assert!(report.ok);
    assert!(report.errors.is_empty());
}

#[test]
fn rejects_manifest_without_assets() {
    let mut manifest = valid_manifest();
    manifest.assets.clear();
    let report = manifest.validate();
    assert!(!report.ok);
    assert_eq!(report.errors, vec!["at least one asset is required"]);
}

#[test]
fn normalizes_fantome_entry_names_into_assets() {
    let names = vec![
        "META/info.json".to_string(),
        "WAD/".to_string(),
        "WAD/Aatrox.wad.client/data/characters/aatrox/skin01.bin".to_string(),
        "WAD/Map11.wad.client".to_string(),
        "RAW/DATA/menu/hud.bin".to_string(),
        "image.png".to_string(),
    ];

    let assets = fantome_assets_from_names(&names);
    assert_eq!(assets.len(), 3);

    let nested = &assets[0];
    assert_eq!(nested.wad, "Aatrox.wad.client");
    assert_eq!(nested.target, "data/characters/aatrox/skin01.bin");

    let whole_wad = &assets[1];
    assert_eq!(whole_wad.wad, "Map11.wad.client");
    assert_eq!(whole_wad.target, "Map11.wad.client");

    let raw = &assets[2];
    assert_eq!(raw.wad, "RAW");
    assert_eq!(raw.target, "DATA/menu/hud.bin");
}

#[test]
fn validation_reports_each_missing_field() {
    let mut manifest = valid_manifest();
    manifest.schema_version = 2;
    manifest.name = "  ".to_string();
    manifest.version = String::new();
    manifest.author = " ".to_string();
    manifest.assets[0].source = String::new();
    manifest.assets[0].target = " ".to_string();
    manifest.assets[0].wad = String::new();
    let report = manifest.validate();
    assert!(!report.ok);
    assert_eq!(
        report.errors,
        vec![
            "name is required",
            "version is required",
            "asset.source is required",
            "asset  is missing target",
            "asset  is missing wad",
        ]
    );
    assert_eq!(
        report.warnings,
        vec![
            "schemaVersion 2 is not explicitly supported; expected 1",
            "author is empty",
        ]
    );
}

#[test]
fn validation_names_the_asset_it_faults() {
    let mut manifest = valid_manifest();
    manifest.assets[0].wad = "\t".to_string();
    let report = manifest.validate();
    assert_eq!(report.errors, vec!["asset assets/skin.bin is missing wad"]);
    assert!(report.warnings.is_empty());
}

#[test]
fn package_kind_follows_the_path() {
    let probe = |exists, is_dir, ext: Option<&str>| PackageProbe {
        display: "pkg".to_string(),
        exists,
        is_dir,
        extension: ext.map(|e| e.to_string()),
    };
    assert!(matches!(
        detect_package_kind(&probe(false, false, None)),
        Err(ManifestError::MissingPath(p)) if p == "pkg"
    ));
    assert!(matches!(detect_package_kind(&probe(true, true, Some("modpkg"))), Ok(ModPackageKind::Directory)));
    assert!(matches!(detect_package_kind(&probe(true, false, Some("modpkg"))), Ok(ModPackageKind::ModPkgArchive)));
    assert!(matches!(detect_package_kind(&probe(true, false, Some("fantome"))), Ok(ModPackageKind::FantomeArchive)));
    assert!(matches!(detect_package_kind(&probe(true, false, Some("json"))), Ok(ModPackageKind::Directory)));
    assert!(matches!(detect_package_kind(&probe(true, false, None)), Ok(ModPackageKind::Directory)));
}

#[test]
fn fantome_names_with_backslashes_and_trailing_slashes() {
    let names = vec![
        "WAD\\Aatrox.wad.client\\data\\skin.bin".to_string(),
        "WAD/Aatrox.wad.client/".to_string(),
        "WAD\\Aatrox.wad.client\\".to_string(),
        "RAW/".to_string(),
        "other/file.bin".to_string(),
    ];
    let assets = fantome_assets_from_names(&names);
    assert_eq!(assets.len(), 2);
    assert_eq!(assets[0].source, "WAD/Aatrox.wad.client/data/skin.bin");
    assert_eq!(assets[0].wad, "Aatrox.wad.client");
    assert_eq!(assets[0].target, "data/skin.bin");
    assert_eq!(assets[0].layer.as_deref(), Some("wad"));
    assert_eq!(assets[1].wad, "Aatrox.wad.client/");
    assert_eq!(assets[1].target, "Aatrox.wad.client/");
}

#[test]
fn normalize_fantome_fills_defaults() {
    let info = FantomeInfo {
        name: "Crimson Aatrox".to_string(),
        author: "someone".to_string(),
        version: "  ".to_string(),
        description: "desc".to_string(),
    };
    let names = vec![
        "META/info.json".to_string(),
        "WAD/Aatrox.wad.client/data/a.bin".to_string(),
        "META/image.png".to_string(),
        "image.png".to_string(),
    ];
    let manifest = normalize_fantome(info, &names, 42);
    assert_eq!(manifest.id, 42);
    assert_eq!(manifest.schema_version, 1);
    assert_eq!(manifest.name, "Crimson Aatrox");
    assert_eq!(manifest.version, "0.0.0");
    assert_eq!(manifest.tags, vec!["fantome"]);
    assert_eq!(manifest.preview_image.as_deref(), Some("META/image.png"));
    assert_eq!(manifest.assets.len(), 1);
    assert!(manifest.validate().ok);
}

#[test]
fn hash_bytes_is_lowercase_hex_sha256() {
    assert_eq!(
        hash_bytes(b"abc"),
        "ba7816bf8f01cfea414140de5dae2223b00361a396177a9cb410ff61f20015ad"
    );
    assert_eq!(
        hash_bytes(b""),
        "e3b0c44298fc1c149afbf4c8996fb92427ae41e4649b934ca495991b7852b855"
    );
}

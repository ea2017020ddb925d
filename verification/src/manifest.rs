//! Mod manifests: the data model, validation, package kinds and the normalization
//! of legacy Fantome archives.
use crate::codec::{sha256, sha256_digest};
use crate::text::{
    ascii_lower, blank, chars_of, decimal, decimal_spec, ends_with, find_char, first_index,
    has_prefix, has_suffix, hex_lower, is_blank, lemma_first_index, replace_char,
    replace_char_spec, starts_with, string_of, strings_view, substring, to_ascii_lowercase,
    to_hex_lower,
};
use vstd::prelude::*;

verus! {

/// A mod's id: the 128-bit value of its UUID.
pub type ModId = u128;

pub type ModVersion = String;

#[derive(Debug, Clone, PartialEq, Eq)]
pub struct ModManifest {
    pub schema_version: u16,
    pub id: ModId,
    pub name: String,
    pub version: ModVersion,
    pub author: String,
    pub description: String,
    pub tags: Vec<String>,
    pub preview_image: Option<String>,
    pub assets: Vec<ModAsset>,
}

#[derive(Debug, Clone, PartialEq, Eq)]
pub struct ModAsset {
    pub source: String,
    pub target: String,
    pub wad: String,
    pub layer: Option<String>,
    pub sha256: Option<String>,
}

#[derive(Debug, Clone, Copy, PartialEq, Eq, Structural)]
pub enum ModPackageKind {
    Directory,
    ModPkgArchive,
    FantomeArchive,
}

#[derive(Debug, Clone, PartialEq, Eq)]
pub struct ValidationReport {
    pub ok: bool,
    pub warnings: Vec<String>,
    pub errors: Vec<String>,
}

/// `zip::result::ZipError`, carried through unchanged.
#[verifier::external_type_specification]
#[verifier::external_body]
pub struct ExZipError(zip::result::ZipError);

/// `serde_json::Error`, carried through unchanged.
#[verifier::external_type_specification]
#[verifier::external_body]
pub struct ExJsonError(serde_json::Error);

#[derive(Debug)]
pub enum ManifestError {
    MissingPath(String),
    MissingArchiveManifest,
    Zip(zip::result::ZipError),
    MissingManifest,
    Io(std::io::Error),
    Json(serde_json::Error),
}

/// Optional text as plain values.
pub open spec fn opt_view(o: Option<String>) -> Option<Seq<char>> {
    match o {
        Some(s) => Some(s@),
        None => None,
    }
}

/// An asset as plain values: source, target, wad, layer, sha256.
pub type AssetView = (Seq<char>, Seq<char>, Seq<char>, Option<Seq<char>>, Option<Seq<char>>);

impl View for ModAsset {
    type V = AssetView;

    open spec fn view(&self) -> AssetView {
        (self.source@, self.target@, self.wad@, opt_view(self.layer), opt_view(self.sha256))
    }
}

pub open spec fn assets_view(v: Seq<ModAsset>) -> Seq<AssetView> {
    Seq::new(v.len(), |i: int| v[i]@)
}

// ---------------------------------------------------------------------------
// Validation
// ---------------------------------------------------------------------------

/// The problems one asset has.
pub open spec fn asset_error_list(a: ModAsset) -> Seq<Seq<char>> {
    (if blank(a.source@) {
        seq!["asset.source is required"@]
    } else {
        Seq::empty()
    }) + (if blank(a.target@) {
        seq!["asset "@ + a.source@ + " is missing target"@]
    } else {
        Seq::empty()
    }) + (if blank(a.wad@) {
        seq!["asset "@ + a.source@ + " is missing wad"@]
    } else {
        Seq::empty()
    })
}

pub open spec fn asset_errors(assets: Seq<ModAsset>) -> Seq<Seq<char>>
    decreases assets.len(),
{
    if assets.len() == 0 {
        Seq::empty()
    } else {
        asset_errors(assets.drop_last()) + asset_error_list(assets.last())
    }
}

/// The errors a manifest has, in the order they are reported.
pub open spec fn validation_errors(m: ModManifest) -> Seq<Seq<char>> {
    (if blank(m.name@) {
        seq!["name is required"@]
    } else {
        Seq::empty()
    }) + (if blank(m.version@) {
        seq!["version is required"@]
    } else {
        Seq::empty()
    }) + (if m.assets@.len() == 0 {
        seq!["at least one asset is required"@]
    } else {
        Seq::empty()
    }) + asset_errors(m.assets@)
}

/// A manifest's content is complete: name and version set, at least one asset,
/// and every asset with a source, a target and a wad.
pub open spec fn complete(m: ModManifest) -> bool {
    &&& !blank(m.name@)
    &&& !blank(m.version@)
    &&& m.assets@.len() > 0
    &&& forall|i: int|
        0 <= i < m.assets@.len() ==> !blank((#[trigger] m.assets@[i]).source@) && !blank(
            m.assets@[i].target@,
        ) && !blank(m.assets@[i].wad@)
}

proof fn lemma_asset_errors_cover(assets: Seq<ModAsset>)
    ensures
        forall|i: int, k: int|
            0 <= i < assets.len() && 0 <= k < asset_error_list(assets[i]).len() ==> asset_errors(
                assets,
            ).contains(#[trigger] asset_error_list(assets[i])[k]),
        asset_errors(assets).len() == 0 <==> forall|i: int|
            0 <= i < assets.len() ==> asset_error_list(#[trigger] assets[i]).len() == 0,
    decreases assets.len(),
{
    if assets.len() > 0 {
        let rest = assets.drop_last();
        lemma_asset_errors_cover(rest);
        let prev = asset_errors(rest);
        let last = asset_error_list(assets.last());
        assert(asset_errors(assets) == prev + last);
        assert forall|i: int, k: int|
            0 <= i < assets.len() && 0 <= k < asset_error_list(assets[i]).len() implies asset_errors(
                assets,
            ).contains(#[trigger] asset_error_list(assets[i])[k]) by {
            if i < assets.len() - 1 {
                assert(assets[i] == rest[i]);
                let j = choose|j: int| 0 <= j < prev.len() && prev[j] == asset_error_list(rest[i])[k];
                assert((prev + last)[j] == prev[j]);
            } else {
                assert((prev + last)[prev.len() + k] == last[k]);
            }
        }
        if asset_errors(assets).len() == 0 {
            assert forall|i: int| 0 <= i < assets.len() implies asset_error_list(
                #[trigger] assets[i],
            ).len() == 0 by {
                if i < assets.len() - 1 {
                    assert(assets[i] == rest[i]);
                }
            }
        }
        if forall|i: int| 0 <= i < assets.len() ==> asset_error_list(#[trigger] assets[i]).len() == 0 {
            assert forall|i: int| 0 <= i < rest.len() implies asset_error_list(
                #[trigger] rest[i],
            ).len() == 0 by {
                assert(assets[i] == rest[i]);
            }
            assert(asset_error_list(assets[assets.len() - 1]).len() == 0);
        }
    }
}

/// Every asset is checked, wherever it stands in the list: an asset with a
/// blank source, target or wad has that message among the errors, and a
/// manifest has no errors exactly when it is complete.
pub proof fn law_every_asset_is_checked(m: ModManifest)
    ensures
        forall|i: int|
            0 <= i < m.assets@.len() && blank(#[trigger] m.assets@[i].source@)
                ==> validation_errors(m).contains("asset.source is required"@),
        forall|i: int|
            0 <= i < m.assets@.len() && blank(#[trigger] m.assets@[i].target@)
                ==> validation_errors(m).contains(
                "asset "@ + m.assets@[i].source@ + " is missing target"@,
            ),
        forall|i: int|
            0 <= i < m.assets@.len() && blank(#[trigger] m.assets@[i].wad@)
                ==> validation_errors(m).contains("asset "@ + m.assets@[i].source@ + " is missing wad"@),
        validation_errors(m).len() == 0 <==> complete(m),
{
    let a = m.assets@;
    lemma_asset_errors_cover(a);
    let head = (if blank(m.name@) {
        seq!["name is required"@]
    } else {
        Seq::empty()
    }) + (if blank(m.version@) {
        seq!["version is required"@]
    } else {
        Seq::empty()
    }) + (if a.len() == 0 {
        seq!["at least one asset is required"@]
    } else {
        Seq::empty()
    });
    let e = validation_errors(m);
    assert(e == head + asset_errors(a));
    assert forall|x: Seq<char>| asset_errors(a).contains(x) implies e.contains(x) by {
        let j = choose|j: int| 0 <= j < asset_errors(a).len() && asset_errors(a)[j] == x;
        assert(e[head.len() + j] == x);
    }
    assert forall|i: int| 0 <= i < a.len() && blank(#[trigger] a[i].source@) implies e.contains(
        "asset.source is required"@,
    ) by {
        assert(asset_error_list(a[i])[0] == "asset.source is required"@);
    }
    assert forall|i: int| 0 <= i < a.len() && blank(#[trigger] a[i].target@) implies e.contains(
        "asset "@ + a[i].source@ + " is missing target"@,
    ) by {
        let l = asset_error_list(a[i]);
        let k: int = if blank(a[i].source@) { 1 } else { 0 };
        assert(l[k] == "asset "@ + a[i].source@ + " is missing target"@);
    }
    assert forall|i: int| 0 <= i < a.len() && blank(#[trigger] a[i].wad@) implies e.contains(
        "asset "@ + a[i].source@ + " is missing wad"@,
    ) by {
        let l = asset_error_list(a[i]);
        assert(l[l.len() - 1] == "asset "@ + a[i].source@ + " is missing wad"@);
    }
    if complete(m) {
        assert forall|i: int| 0 <= i < a.len() implies asset_error_list(#[trigger] a[i]).len() == 0 by {
            assert(!blank(a[i].source@) && !blank(a[i].target@) && !blank(a[i].wad@));
        }
    }
    if e.len() == 0 {
        assert forall|i: int| 0 <= i < a.len() implies !blank((#[trigger] a[i]).source@) && !blank(
            a[i].target@,
        ) && !blank(a[i].wad@) by {
            assert(asset_error_list(a[i]).len() == 0);
        }
    }
}

/// The warnings a manifest has, in the order they are reported.
pub open spec fn validation_warnings(m: ModManifest) -> Seq<Seq<char>> {
    (if m.schema_version != 1 {
        seq![
            "schemaVersion "@ + decimal_spec(m.schema_version as u64)
                + " is not explicitly supported; expected 1"@,
        ]
    } else {
        Seq::empty()
    }) + (if blank(m.author@) {
        seq!["author is empty"@]
    } else {
        Seq::empty()
    })
}

fn push_message(list: &mut Vec<String>, text: &str)
    ensures
        strings_view(final(list)@) == strings_view(old(list)@).push(text@),
{
    let ghost prev = list@;
    list.push(String::from_str(text));
    assert(strings_view(list@) =~= strings_view(prev).push(text@));
}

fn push_asset_message(list: &mut Vec<String>, source: &String, tail: &str)
    ensures
        strings_view(final(list)@) == strings_view(old(list)@).push("asset "@ + source@ + tail@),
{
    let mut m = String::from_str("asset ");
    m.append(source.as_str());
    m.append(tail);
    let ghost prev = list@;
    list.push(m);
    assert(strings_view(list@) =~= strings_view(prev).push("asset "@ + source@ + tail@));
}

impl ModManifest {
    /// Check the manifest: errors make it unusable, warnings do not.
    pub fn validate(&self) -> (report: ValidationReport)
        ensures
            strings_view(report.errors@) == validation_errors(*self),
            strings_view(report.warnings@) == validation_warnings(*self),
            report.ok == (validation_errors(*self).len() == 0),
            report.ok == complete(*self),
            forall|i: int|
                0 <= i < self.assets@.len() && blank(#[trigger] self.assets@[i].wad@)
                    ==> strings_view(report.errors@).contains(
                    "asset "@ + self.assets@[i].source@ + " is missing wad"@,
                ),
            forall|i: int|
                0 <= i < self.assets@.len() && blank(#[trigger] self.assets@[i].target@)
                    ==> strings_view(report.errors@).contains(
                    "asset "@ + self.assets@[i].source@ + " is missing target"@,
                ),
            forall|i: int|
                0 <= i < self.assets@.len() && blank(#[trigger] self.assets@[i].source@)
                    ==> strings_view(report.errors@).contains("asset.source is required"@),
    {
        proof {
            law_every_asset_is_checked(*self);
        }
        let mut errors: Vec<String> = Vec::new();
        let mut warnings: Vec<String> = Vec::new();
        assert(strings_view(errors@) =~= Seq::<Seq<char>>::empty());
        assert(strings_view(warnings@) =~= Seq::<Seq<char>>::empty());
        if self.schema_version != 1 {
            let mut m = String::from_str("schemaVersion ");
            let digits = decimal(self.schema_version as u64);
            m.append(digits.as_str());
            m.append(" is not explicitly supported; expected 1");
            let ghost prev = warnings@;
            warnings.push(m);
            assert(strings_view(warnings@) =~= strings_view(prev).push(m@));
        }
        if is_blank(self.name.as_str()) {
            push_message(&mut errors, "name is required");
        }
        if is_blank(self.version.as_str()) {
            push_message(&mut errors, "version is required");
        }
        if is_blank(self.author.as_str()) {
            push_message(&mut warnings, "author is empty");
        }
        if self.assets.len() == 0 {
            push_message(&mut errors, "at least one asset is required");
        }
        let ghost head = strings_view(errors@);
        assert(head =~= (if blank(self.name@) {
            seq!["name is required"@]
        } else {
            Seq::empty()
        }) + (if blank(self.version@) {
            seq!["version is required"@]
        } else {
            Seq::empty()
        }) + (if self.assets@.len() == 0 {
            seq!["at least one asset is required"@]
        } else {
            Seq::empty()
        }));
        let mut i: usize = 0;
        assert(self.assets@.take(0) =~= Seq::<ModAsset>::empty());
        while i < self.assets.len()
            invariant
                i <= self.assets@.len(),
                strings_view(errors@) == head + asset_errors(self.assets@.take(i as int)),
            decreases self.assets@.len() - i,
        {
            let asset = &self.assets[i];
            let ghost before = strings_view(errors@);
            if is_blank(asset.source.as_str()) {
                push_message(&mut errors, "asset.source is required");
            }
            if is_blank(asset.target.as_str()) {
                push_asset_message(&mut errors, &asset.source, " is missing target");
            }
            if is_blank(asset.wad.as_str()) {
                push_asset_message(&mut errors, &asset.source, " is missing wad");
            }
            assert(strings_view(errors@) =~= before + asset_error_list(*asset));
            assert(self.assets@.take(i + 1).drop_last() =~= self.assets@.take(i as int));
            i += 1;
        }
        assert(self.assets@.take(i as int) =~= self.assets@);
        let ok = errors.len() == 0;
        ValidationReport { ok, warnings, errors }
    }
}

// ---------------------------------------------------------------------------
// Package kinds
// ---------------------------------------------------------------------------

/// What the file system says about a package path.
#[derive(Debug, Clone, PartialEq, Eq)]
pub struct PackageProbe {
    /// The path as displayed.
    pub display: String,
    pub exists: bool,
    pub is_dir: bool,
    /// The path's extension, if it has one that is valid UTF-8.
    pub extension: Option<String>,
}

/// Which kind of package a probed path is.
pub open spec fn package_kind_spec(p: PackageProbe) -> Option<ModPackageKind> {
    if !p.exists {
        None
    } else if p.is_dir {
        Some(ModPackageKind::Directory)
    } else if opt_view(p.extension) == Some("modpkg"@) {
        Some(ModPackageKind::ModPkgArchive)
    } else if opt_view(p.extension) == Some("fantome"@) {
        Some(ModPackageKind::FantomeArchive)
    } else {
        Some(ModPackageKind::Directory)
    }
}

/// A path that does not exist has no package kind; a directory is a directory
/// package whatever its name; a file is a `.modpkg` archive or a `.fantome`
/// archive by its extension, and any other file is a directory package's
/// manifest.
pub proof fn law_package_kind_follows_the_probe(p: PackageProbe)
    ensures
        package_kind_spec(p) is None <==> !p.exists,
        p.exists && p.is_dir ==> package_kind_spec(p) == Some(ModPackageKind::Directory),
        p.exists && !p.is_dir && opt_view(p.extension) == Some("modpkg"@) ==> package_kind_spec(p)
            == Some(ModPackageKind::ModPkgArchive),
        p.exists && !p.is_dir && opt_view(p.extension) == Some("fantome"@) ==> package_kind_spec(p)
            == Some(ModPackageKind::FantomeArchive),
        p.exists && !p.is_dir && opt_view(p.extension) != Some("modpkg"@) && opt_view(p.extension)
            != Some("fantome"@) ==> package_kind_spec(p) == Some(ModPackageKind::Directory),
{
    reveal_strlit("modpkg");
    reveal_strlit("fantome");
    assert("modpkg"@ != "fantome"@) by {
        assert("modpkg"@.len() != "fantome"@.len());
    }
}

/// A missing path is an error; a directory is a directory package; a file is an
/// archive by its `.modpkg` or `.fantome` extension and is otherwise treated as a
/// manifest file of a directory package.
pub fn detect_package_kind(path: &PackageProbe) -> (r: Result<ModPackageKind, ManifestError>)
    ensures
        match r {
            Ok(k) => package_kind_spec(*path) == Some(k),
            Err(e) => package_kind_spec(*path) is None && (e matches ManifestError::MissingPath(d)
                && d@ == path.display@),
        },
{
    if !path.exists {
        return Err(ManifestError::MissingPath(path.display.clone()));
    }
    if path.is_dir {
        return Ok(ModPackageKind::Directory);
    }
    match &path.extension {
        Some(ext) => {
            if *ext == String::from_str("modpkg") {
                Ok(ModPackageKind::ModPkgArchive)
            } else if *ext == String::from_str("fantome") {
                Ok(ModPackageKind::FantomeArchive)
            } else {
                Ok(ModPackageKind::Directory)
            }
        },
        None => Ok(ModPackageKind::Directory),
    }
}

// ---------------------------------------------------------------------------
// Legacy Fantome archives
// ---------------------------------------------------------------------------

/// Legacy Fantome/cslol metadata (`META/info.json`).
#[derive(Debug, Clone, PartialEq, Eq)]
pub struct FantomeInfo {
    pub name: String,
    pub author: String,
    pub version: String,
    pub description: String,
}

/// The asset an archive entry name maps to, if any: `WAD/<wad>/<path>` targets
/// `<path>` inside `<wad>`; a bare `WAD/<wad>` replaces the whole archive; `RAW/<path>`
/// uses the `RAW` sentinel; directory entries and everything else map to nothing.
pub open spec fn fantome_asset_of(raw: Seq<char>) -> Option<AssetView> {
    if has_suffix(raw, "/"@) {
        None
    } else {
        let name = replace_char_spec(raw, '\\', '/');
        if has_prefix(name, "WAD/"@) {
            let rest = name.subrange(4, name.len() as int);
            if rest.len() == 0 {
                None
            } else {
                let (wad, target) = match first_index(rest, '/') {
                    Some(i) => if i + 1 < rest.len() {
                        (rest.subrange(0, i), rest.subrange(i + 1, rest.len() as int))
                    } else {
                        (rest, rest)
                    },
                    None => (rest, rest),
                };
                Some((name, target, wad, Some("wad"@), None))
            }
        } else if has_prefix(name, "RAW/"@) {
            let rest = name.subrange(4, name.len() as int);
            if rest.len() == 0 {
                None
            } else {
                Some((name, rest, "RAW"@, Some("raw"@), None))
            }
        } else {
            None
        }
    }
}

/// The assets of a Fantome archive with the given entry names, in entry order.
pub open spec fn fantome_assets_spec(names: Seq<Seq<char>>) -> Seq<AssetView>
    decreases names.len(),
{
    if names.len() == 0 {
        Seq::empty()
    } else {
        let prev = fantome_assets_spec(names.drop_last());
        match fantome_asset_of(names.last()) {
            Some(a) => prev.push(a),
            None => prev,
        }
    }
}

/// No `/` or `\\` in the text.
pub open spec fn no_separator(s: Seq<char>) -> bool {
    forall|i: int| 0 <= i < s.len() ==> s[i] != '/' && s[i] != '\\'
}

/// No `\\` in the text, and it does not end with `/`.
pub open spec fn forward_path(s: Seq<char>) -> bool {
    &&& forall|i: int| 0 <= i < s.len() ==> s[i] != '\\'
    &&& s.len() > 0 ==> s.last() != '/'
}

/// An entry `WAD/<wad>/<path>` becomes an asset that writes `<path>` into
/// `<wad>`, with the entry as its source and the `wad` layer; an entry
/// `RAW/<path>` becomes a raw-file asset for `<path>` with the `raw` layer; a
/// directory entry (ending in `/`) becomes nothing.
pub proof fn law_fantome_entries_name_their_target(wad: Seq<char>, path: Seq<char>)
    requires
        wad.len() > 0,
        no_separator(wad),
        path.len() > 0,
        forward_path(path),
    ensures
        fantome_asset_of("WAD/"@ + wad + "/"@ + path) == Some::<AssetView>(
            ("WAD/"@ + wad + "/"@ + path, path, wad, Some("wad"@), None),
        ),
        fantome_asset_of("RAW/"@ + path) == Some::<AssetView>(
            ("RAW/"@ + path, path, "RAW"@, Some("raw"@), None),
        ),
        fantome_asset_of("WAD/"@ + wad + "/"@) is None,
{
    reveal_strlit("WAD/");
    reveal_strlit("RAW/");
    reveal_strlit("/");
    reveal_strlit("RAW");
    let name = "WAD/"@ + wad + "/"@ + path;
    assert(!has_suffix(name, "/"@)) by {
        assert(name.subrange(name.len() - 1, name.len() as int)[0] == path.last());
    }
    assert(replace_char_spec(name, '\\', '/') =~= name) by {
        assert forall|i: int| 0 <= i < name.len() implies name[i] != '\\' by {
            if i >= 5 + wad.len() {
                assert(name[i] == path[i - 5 - wad.len()]);
            } else if 4 <= i < 4 + wad.len() {
                assert(name[i] == wad[i - 4]);
            }
        }
    }
    assert(name.subrange(0, 4) =~= "WAD/"@);
    let rest = name.subrange(4, name.len() as int);
    assert(rest =~= wad + "/"@ + path);
    lemma_first_index(rest, '/');
    assert(rest[wad.len() as int] == '/');
    assert forall|j: int| 0 <= j < wad.len() implies rest[j] != '/' by {
        assert(rest[j] == wad[j]);
    }
    assert(first_index(rest, '/') == Some(wad.len() as int));
    assert(rest.subrange(0, wad.len() as int) =~= wad);
    assert(rest.subrange(wad.len() + 1int, rest.len() as int) =~= path);
    let raw = "RAW/"@ + path;
    assert(!has_suffix(raw, "/"@)) by {
        assert(raw.subrange(raw.len() - 1, raw.len() as int)[0] == path.last());
    }
    assert(replace_char_spec(raw, '\\', '/') =~= raw) by {
        assert forall|i: int| 0 <= i < raw.len() implies raw[i] != '\\' by {
            if i >= 4 {
                assert(raw[i] == path[i - 4]);
            }
        }
    }
    assert(raw.subrange(0, 4) =~= "RAW/"@);
    assert(!has_prefix(raw, "WAD/"@)) by {
        assert(raw.subrange(0, 4)[0] != "WAD/"@[0]);
    }
    assert(raw.subrange(4, raw.len() as int) =~= path);
    let dir = "WAD/"@ + wad + "/"@;
    assert(dir.subrange(dir.len() - 1, dir.len() as int) =~= "/"@);
}

/// The assets of an archive are those of its entries, in entry order: the
/// entries of two lists give the first list's assets followed by the second's.
pub proof fn law_fantome_assets_in_entry_order(first: Seq<Seq<char>>, then: Seq<Seq<char>>)
    ensures
        fantome_assets_spec(first + then) == fantome_assets_spec(first) + fantome_assets_spec(then),
    decreases then.len(),
{
    if then.len() == 0 {
        assert(first + then =~= first);
    } else {
        law_fantome_assets_in_entry_order(first, then.drop_last());
        assert((first + then).drop_last() =~= first + then.drop_last());
        assert((first + then).last() == then.last());
    }
}

fn fantome_asset(raw_name: &String) -> (r: Option<ModAsset>)
    ensures
        match r {
            Some(a) => fantome_asset_of(raw_name@) == Some(a@),
            None => fantome_asset_of(raw_name@) is None,
        },
{
    proof {
        reveal_strlit("/");
        reveal_strlit("WAD/");
        reveal_strlit("RAW/");
    }
    let raw = chars_of(raw_name.as_str());
    let slash = chars_of("/");
    if ends_with(raw.as_slice(), slash.as_slice()) {
        return None;
    }
    let name = replace_char(raw_name.as_str(), '\\', '/');
    let wad_prefix = chars_of("WAD/");
    let raw_prefix = chars_of("RAW/");
    if starts_with(name.as_slice(), wad_prefix.as_slice()) {
        let rest_len = name.len() - 4;
        if rest_len == 0 {
            return None;
        }
        let rest = substring(name.as_slice(), 4, name.len());
        let rest_chars = chars_of(rest.as_str());
        proof {
            lemma_first_index(rest_chars@, '/');
        }
        let (wad, target) = match find_char(rest_chars.as_slice(), '/') {
            Some(i) => {
                if i + 1 < rest_chars.len() {
                    (
                        substring(rest_chars.as_slice(), 0, i),
                        substring(rest_chars.as_slice(), i + 1, rest_chars.len()),
                    )
                } else {
                    (rest.clone(), rest.clone())
                }
            },
            None => (rest.clone(), rest.clone()),
        };
        let source = string_of(name.as_slice());
        Some(
            ModAsset {
                source,
                target,
                wad,
                layer: Some(String::from_str("wad")),
                sha256: None,
            },
        )
    } else if starts_with(name.as_slice(), raw_prefix.as_slice()) {
        if name.len() == 4 {
            return None;
        }
        let rest = substring(name.as_slice(), 4, name.len());
        let source = string_of(name.as_slice());
        Some(
            ModAsset {
                source,
                target: rest,
                wad: String::from_str("RAW"),
                layer: Some(String::from_str("raw")),
                sha256: None,
            },
        )
    } else {
        None
    }
}

/// Map Fantome archive entry names into normalized assets.
pub fn fantome_assets_from_names(names: &[String]) -> (assets: Vec<ModAsset>)
    ensures
        assets_view(assets@) == fantome_assets_spec(strings_view(names@)),
{
    let ghost ns = strings_view(names@);
    let mut assets: Vec<ModAsset> = Vec::new();
    let mut i: usize = 0;
    assert(ns.take(0) =~= Seq::<Seq<char>>::empty());
    assert(assets_view(assets@) =~= Seq::<AssetView>::empty());
    while i < names.len()
        invariant
            ns == strings_view(names@),
            i <= names@.len(),
            assets_view(assets@) == fantome_assets_spec(ns.take(i as int)),
        decreases names@.len() - i,
    {
        assert(ns.take(i + 1).drop_last() =~= ns.take(i as int));
        assert(ns.take(i + 1).last() == names@[i as int]@);
        match fantome_asset(&names[i]) {
            Some(a) => {
                let ghost prev = assets@;
                assets.push(a);
                assert(assets_view(assets@) =~= assets_view(prev).push(a@));
            },
            None => {},
        }
        i += 1;
    }
    assert(ns.take(i as int) =~= ns);
    assets
}

/// The preview image of a Fantome archive: the first entry named `image.png` or
/// `meta/image.png`, ignoring ASCII case.
pub open spec fn is_preview_name(n: Seq<char>) -> bool {
    ascii_lower(n) == "image.png"@ || ascii_lower(n) == "meta/image.png"@
}

pub open spec fn first_preview(names: Seq<Seq<char>>) -> Option<Seq<char>>
    decreases names.len(),
{
    if names.len() == 0 {
        None
    } else {
        match first_preview(names.drop_last()) {
            Some(p) => Some(p),
            None => if is_preview_name(names.last()) {
                Some(names.last())
            } else {
                None
            },
        }
    }
}

fn find_preview(names: &[String]) -> (r: Option<String>)
    ensures
        opt_view(r) == first_preview(strings_view(names@)),
{
    let ghost ns = strings_view(names@);
    let image = String::from_str("image.png");
    let meta_image = String::from_str("meta/image.png");
    let mut i: usize = 0;
    assert(ns.take(0) =~= Seq::<Seq<char>>::empty());
    while i < names.len()
        invariant
            ns == strings_view(names@),
            image@ == "image.png"@,
            meta_image@ == "meta/image.png"@,
            i <= names@.len(),
            first_preview(ns.take(i as int)) is None,
        decreases names@.len() - i,
    {
        assert(ns.take(i + 1).drop_last() =~= ns.take(i as int));
        let lower = to_ascii_lowercase(names[i].as_str());
        if lower == image || lower == meta_image {
            proof {
                lemma_first_preview_prefix(ns, i + 1);
            }
            return Some(names[i].clone());
        }
        i += 1;
    }
    assert(ns.take(i as int) =~= ns);
    None
}

proof fn lemma_first_preview_prefix(ns: Seq<Seq<char>>, k: int)
    requires
        0 <= k <= ns.len(),
        first_preview(ns.take(k)) is Some,
    ensures
        first_preview(ns) == first_preview(ns.take(k)),
    decreases ns.len() - k,
{
    if k < ns.len() {
        assert(ns.take(k + 1).drop_last() =~= ns.take(k));
        lemma_first_preview_prefix(ns, k + 1);
    } else {
        assert(ns.take(k) =~= ns);
    }
}

/// Normalize Fantome metadata and entry names into a manifest under the given
/// id (a freshly drawn random one, by the caller); a blank version becomes
/// `0.0.0`; the only tag is `fantome`.
pub fn normalize_fantome(info: FantomeInfo, names: &[String], id: ModId) -> (m: ModManifest)
    ensures
        m.schema_version == 1,
        m.id == id,
        m.name@ == info.name@,
        m.version@ == (if blank(info.version@) {
            "0.0.0"@
        } else {
            info.version@
        }),
        m.author@ == info.author@,
        m.description@ == info.description@,
        strings_view(m.tags@) == seq!["fantome"@],
        opt_view(m.preview_image) == first_preview(strings_view(names@)),
        assets_view(m.assets@) == fantome_assets_spec(strings_view(names@)),
{
    let assets = fantome_assets_from_names(names);
    let preview_image = find_preview(names);
    let version = if is_blank(info.version.as_str()) {
        String::from_str("0.0.0")
    } else {
        info.version
    };
    let mut tags: Vec<String> = Vec::new();
    tags.push(String::from_str("fantome"));
    assert(strings_view(tags@) =~= seq!["fantome"@]);
    ModManifest {
        schema_version: 1,
        id,
        name: info.name,
        version,
        author: info.author,
        description: info.description,
        tags,
        preview_image,
        assets,
    }
}

/// The SHA-256 digest of a file's bytes as lowercase hex, as `hash_file` reports it.
pub fn hash_bytes(bytes: &[u8]) -> (s: String)
    ensures
        s@ == hex_lower(sha256_digest(bytes@)),
{
    let digest = sha256(bytes);
    to_hex_lower(digest.as_slice())
}

} // verus!

//! What the desktop application decides: finding and toggling profiles, how an
//! apply run ends, and the sample data a first run starts with.
use crate::manifest::{ModAsset, ModId, ModManifest};
use crate::patcher::PatchStatus;
use crate::profile::{enable_list, remove_all, Profile, ProfileId};
use crate::storage::{LibraryItem, PersistedState};
use crate::text::strings_view;
use vstd::prelude::*;

verus! {

/// The process that loads the game's archives, in matches and in the Practice
/// Tool; the hook goes there, not into the launcher.
pub open spec fn game_process_spec() -> Seq<char> {
    "League of Legends.exe"@
}

/// The name of the game process.
pub fn game_process() -> (s: String)
    ensures
        s@ == game_process_spec(),
{
    "League of Legends.exe".to_string()
}

/// Index of the first profile with id `id`.
pub open spec fn profile_index(ps: Seq<Profile>, id: ProfileId) -> Option<int>
    decreases ps.len(),
{
    if ps.len() == 0 {
        None
    } else {
        match profile_index(ps.drop_last(), id) {
            Some(i) => Some(i),
            None => if ps.last().id == id {
                Some(ps.len() - 1)
            } else {
                None
            },
        }
    }
}

proof fn lemma_profile_index_prefix(ps: Seq<Profile>, id: ProfileId, k: int)
    requires
        0 <= k <= ps.len(),
        profile_index(ps.take(k), id) is Some,
    ensures
        profile_index(ps, id) == profile_index(ps.take(k), id),
    decreases ps.len() - k,
{
    if k < ps.len() {
        assert(ps.take(k + 1).drop_last() =~= ps.take(k));
        lemma_profile_index_prefix(ps, id, k + 1);
    } else {
        assert(ps.take(k) =~= ps);
    }
}

/// Looking a profile up by id finds the first profile with that id, and finds
/// nothing only when no profile has it.
pub proof fn law_profile_lookup_finds_the_first(ps: Seq<Profile>, id: ProfileId)
    ensures
        match profile_index(ps, id) {
            Some(i) => 0 <= i < ps.len() && ps[i].id == id && forall|j: int|
                0 <= j < i ==> #[trigger] ps[j].id != id,
            None => forall|j: int| 0 <= j < ps.len() ==> #[trigger] ps[j].id != id,
        },
    decreases ps.len(),
{
    if ps.len() > 0 {
        law_profile_lookup_finds_the_first(ps.drop_last(), id);
        assert forall|j: int| 0 <= j < ps.len() - 1 implies #[trigger] ps[j] == ps.drop_last()[j] by {}
    }
}

/// The position of the profile with id `id`, the first if several share it.
pub fn find_profile(profiles: &Vec<Profile>, id: ProfileId) -> (r: Option<usize>)
    ensures
        match r {
            Some(i) => profile_index(profiles@, id) == Some(i as int),
            None => profile_index(profiles@, id) is None,
        },
{
    let ghost ps = profiles@;
    let mut i: usize = 0;
    assert(ps.take(0) =~= Seq::<Profile>::empty());
    while i < profiles.len()
        invariant
            ps == profiles@,
            i <= ps.len(),
            profile_index(ps.take(i as int), id) is None,
        decreases ps.len() - i,
    {
        assert(ps.take(i + 1).drop_last() =~= ps.take(i as int));
        if profiles[i].id == id {
            proof {
                assert(ps.take(i + 1).last() == ps[i as int]);
                lemma_profile_index_prefix(ps, id, i + 1);
            }
            return Some(i);
        }
        i += 1;
    }
    assert(ps.take(i as int) =~= ps);
    None
}

pub open spec fn not_found_message() -> Seq<char> {
    "profile not found"@
}

/// Enable (or disable) a mod in the profile with id `profile_id` and hand back
/// the updated profile; the other profiles are untouched. Fails with
/// `profile not found` when no profile has that id, changing nothing.
pub fn set_profile_mod_enabled(
    profiles: &mut Vec<Profile>,
    profile_id: ProfileId,
    mod_id: ModId,
    enabled: bool,
) -> (r: Result<Profile, String>)
    ensures
        match profile_index(old(profiles)@, profile_id) {
            None => final(profiles)@ == old(profiles)@ && (r matches Err(m) && m@
                == not_found_message()),
            Some(i) => {
                let before = old(profiles)@[i];
                let after = final(profiles)@[i];
                &&& final(profiles)@.len() == old(profiles)@.len()
                &&& forall|j: int|
                    0 <= j < old(profiles)@.len() && j != i ==> #[trigger] final(profiles)@[j]
                        == old(profiles)@[j]
                &&& after.id == before.id
                &&& after.name@ == before.name@
                &&& after.enabled_mods@ == if enabled {
                    enable_list(before.enabled_mods@, mod_id)
                } else {
                    remove_all(before.enabled_mods@, mod_id)
                }
                &&& after.mod_order@ == if enabled {
                    enable_list(before.mod_order@, mod_id)
                } else {
                    before.mod_order@
                }
                &&& r matches Ok(p) && p.id == after.id && p.name@ == after.name@
                    && p.enabled_mods@ == after.enabled_mods@ && p.mod_order@ == after.mod_order@
            },
        },
{
    proof {
        law_profile_lookup_finds_the_first(profiles@, profile_id);
    }
    let i = match find_profile(profiles, profile_id) {
        Some(i) => i,
        None => {
            return Err("profile not found".to_string());
        },
    };
    let mut updated = profiles[i].duplicate();
    if enabled {
        updated.enable_mod(mod_id);
    } else {
        updated.disable_mod(mod_id);
    }
    let copy = updated.duplicate();
    profiles.set(i, updated);
    Ok(copy)
}

/// The result of an apply run as the interface shows it.
#[derive(Debug, Clone, PartialEq, Eq)]
pub struct ApplyReport {
    /// `applied` or `blocked`.
    pub status: String,
    pub staging_dir: String,
    pub staged_files: Vec<String>,
    pub redirection_count: usize,
    pub injector_started: bool,
    pub process_name: String,
    pub messages: Vec<String>,
}

/// An apply report as plain values: status, staging folder, staged files,
/// redirection count, whether the injector was started, the process watched,
/// and the messages.
pub type ApplyView = (Seq<char>, Seq<char>, Seq<Seq<char>>, nat, bool, Seq<char>, Seq<Seq<char>>);

impl View for ApplyReport {
    type V = ApplyView;

    open spec fn view(&self) -> ApplyView {
        (
            self.status@,
            self.staging_dir@,
            strings_view(self.staged_files@),
            self.redirection_count as nat,
            self.injector_started,
            self.process_name@,
            strings_view(self.messages@),
        )
    }
}

pub open spec fn nothing_enabled_message() -> Seq<char> {
    "No mods are enabled in this profile; nothing to inject."@
}

pub open spec fn watching_message() -> Seq<char> {
    "Injector is watching for League of Legends.exe; launch the game or Practice Tool to apply the mods."@
}

/// How an apply run ends without starting the injector, if it does: staging
/// that was not applied is reported `blocked`; applied staging that produced no
/// archive is reported `applied` with a note that there is nothing to inject.
/// Neither counts redirections.
pub open spec fn early_report_spec(
    status: PatchStatus,
    staging_dir: Seq<char>,
    staged_files: Seq<Seq<char>>,
    messages: Seq<Seq<char>>,
) -> Option<ApplyView> {
    if status != PatchStatus::Applied {
        Some(("blocked"@, staging_dir, staged_files, 0, false, game_process_spec(), messages))
    } else if staged_files.len() == 0 {
        Some(
            (
                "applied"@,
                staging_dir,
                staged_files,
                0,
                false,
                game_process_spec(),
                messages.push(nothing_enabled_message()),
            ),
        )
    } else {
        None
    }
}

/// An apply run whose staging was not applied is reported `blocked`, and one
/// that was applied but staged no archive is reported `applied` with the note
/// that there is nothing to inject; neither starts the injector or counts a
/// redirection, and both keep the staging messages. Only an applied run that
/// staged something goes on to arm the injector.
pub proof fn law_apply_stops_early_only_without_work(
    status: PatchStatus,
    staging_dir: Seq<char>,
    staged_files: Seq<Seq<char>>,
    messages: Seq<Seq<char>>,
)
    ensures
        early_report_spec(status, staging_dir, staged_files, messages) is None <==> (status
            == PatchStatus::Applied && staged_files.len() > 0),
        status != PatchStatus::Applied ==> (early_report_spec(status, staging_dir, staged_files, messages)
            matches Some(v) && v.0 == "blocked"@ && v.6 == messages),
        status == PatchStatus::Applied && staged_files.len() == 0 ==> (early_report_spec(
            status,
            staging_dir,
            staged_files,
            messages,
        ) matches Some(v) && v.0 == "applied"@ && v.6 == messages.push(
            "No mods are enabled in this profile; nothing to inject."@,
        )),
        early_report_spec(status, staging_dir, staged_files, messages) matches Some(v) ==> !v.4 && v.3
            == 0 && v.1 == staging_dir && v.2 == staged_files,
{
}

fn copy_strings(v: &Vec<String>) -> (r: Vec<String>)
    ensures
        strings_view(r@) == strings_view(v@),
{
    let mut r: Vec<String> = Vec::new();
    let mut i: usize = 0;
    while i < v.len()
        invariant
            i <= v@.len(),
            strings_view(r@) == strings_view(v@).take(i as int),
        decreases v@.len() - i,
    {
        let s = v[i].clone();
        assert(s@ == strings_view(v@)[i as int]);
        let ghost prev = strings_view(r@);
        r.push(s);
        assert(strings_view(r@) =~= prev.push(strings_view(v@)[i as int]));
        i += 1;
        assert(strings_view(r@) =~= strings_view(v@).take(i as int));
    }
    assert(strings_view(v@).take(i as int) =~= strings_view(v@));
    r
}

/// The report of an apply run that stops after staging, or `None` when the
/// run goes on to arm the injector (staging applied, some archive staged).
pub fn early_report(
    status: PatchStatus,
    staging_dir: &str,
    staged_files: &Vec<String>,
    messages: &Vec<String>,
) -> (r: Option<ApplyReport>)
    ensures
        match early_report_spec(status, staging_dir@, strings_view(staged_files@), strings_view(messages@)) {
            Some(v) => r matches Some(rep) && rep@ == v,
            None => r is None,
        },
{
    if status != PatchStatus::Applied {
        Some(ApplyReport {
            status: "blocked".to_string(),
            staging_dir: staging_dir.to_string(),
            staged_files: copy_strings(staged_files),
            redirection_count: 0,
            injector_started: false,
            process_name: game_process(),
            messages: copy_strings(messages),
        })
    } else if staged_files.len() == 0 {
        let mut notes = copy_strings(messages);
        let ghost before = strings_view(notes@);
        notes.push("No mods are enabled in this profile; nothing to inject.".to_string());
        assert(strings_view(notes@) =~= before.push(nothing_enabled_message()));
        Some(ApplyReport {
            status: "applied".to_string(),
            staging_dir: staging_dir.to_string(),
            staged_files: copy_strings(staged_files),
            redirection_count: 0,
            injector_started: false,
            process_name: game_process(),
            messages: notes,
        })
    } else {
        None
    }
}

/// The report of an apply run that armed the injector: `applied`, with the
/// redirections counted and a note that the injector is waiting for the game.
pub fn armed_report(
    staging_dir: String,
    staged_files: Vec<String>,
    redirection_count: usize,
    messages: Vec<String>,
) -> (r: ApplyReport)
    ensures
        r@ == (
            "applied"@,
            staging_dir@,
            strings_view(staged_files@),
            redirection_count as nat,
            true,
            game_process_spec(),
            strings_view(messages@).push(watching_message()),
        ),
{
    let mut notes = messages;
    let ghost before = strings_view(notes@);
    notes.push(
        "Injector is watching for League of Legends.exe; launch the game or Practice Tool to apply the mods.".to_string(),
    );
    assert(strings_view(notes@) =~= before.push(watching_message()));
    ApplyReport {
        status: "applied".to_string(),
        staging_dir,
        staged_files,
        redirection_count,
        injector_started: true,
        process_name: game_process(),
        messages: notes,
    }
}

/// The id of the first sample mod.
pub open spec fn first_sample_id() -> ModId {
    0x1f2f0a77_9648_4f7b_ae09_fd9c76995a12
}

/// The id of the second sample mod.
pub open spec fn second_sample_id() -> ModId {
    0xfb657393_e6a9_466b_8719_0bfe8223b331
}

fn sample_asset(source: &str, target: &str, wad: &str, layer: &str) -> (a: ModAsset)
    ensures
        a@ == (source@, target@, wad@, Some(layer@), None::<Seq<char>>),
{
    ModAsset {
        source: source.to_string(),
        target: target.to_string(),
        wad: wad.to_string(),
        layer: Some(layer.to_string()),
        sha256: None,
    }
}

fn sample_item(
    id: ModId,
    name: &str,
    description: &str,
    tags: Vec<String>,
    asset: ModAsset,
    package_path: &str,
) -> (item: LibraryItem)
    ensures
        item.manifest.schema_version == 1,
        item.manifest.id == id,
        item.manifest.name@ == name@,
        item.manifest.version@ == "0.1.0"@,
        item.manifest.author@ == "Workshop"@,
        item.manifest.description@ == description@,
        item.manifest.tags == tags,
        item.manifest.preview_image is None,
        item.manifest.assets@.len() == 1,
        item.manifest.assets@[0]@ == asset@,
        item.package_path@ == package_path@,
        item.imported_at == 0,
{
    let mut assets: Vec<ModAsset> = Vec::new();
    assets.push(asset);
    LibraryItem {
        manifest: ModManifest {
            schema_version: 1,
            id,
            name: name.to_string(),
            version: "0.1.0".to_string(),
            author: "Workshop".to_string(),
            description: description.to_string(),
            tags,
            preview_image: None,
            assets,
        },
        package_path: package_path.to_string(),
        imported_at: 0,
    }
}

fn two_tags(a: &str, b: &str) -> (v: Vec<String>)
    ensures
        strings_view(v@) == seq![a@, b@],
{
    let mut v: Vec<String> = Vec::new();
    v.push(a.to_string());
    v.push(b.to_string());
    assert(strings_view(v@) =~= seq![a@, b@]);
    v
}

/// The library a first run starts with: two sample mods, a champion VFX mod
/// and a HUD mod, each with one asset, imported at the Unix epoch.
pub open spec fn sample_library(v: Seq<LibraryItem>) -> bool {
    &&& v.len() == 2
    &&& v[0].manifest.id == first_sample_id()
    &&& v[0].manifest.name@ == "Aatrox Crimson VFX"@
    &&& v[0].manifest.description@ == "Sample mod package for UI development."@
    &&& strings_view(v[0].manifest.tags@) == seq!["champion"@, "vfx"@]
    &&& v[0].manifest.assets@[0]@ == (
        "assets/aatrox/vfx.bin"@,
        "data/characters/aatrox/skins/skin01/vfx.bin"@,
        "Characters/Aatrox.wad.client"@,
        Some("vfx"@),
        None::<Seq<char>>,
    )
    &&& v[0].package_path@ == "samples/aatrox-crimson-vfx"@
    &&& v[1].manifest.id == second_sample_id()
    &&& v[1].manifest.name@ == "SR Minimal HUD"@
    &&& v[1].manifest.description@ == "Sample interface package for UI development."@
    &&& strings_view(v[1].manifest.tags@) == seq!["ui"@, "hud"@]
    &&& v[1].manifest.assets@[0]@ == (
        "assets/hud/layout.bin"@,
        "data/menu/hud/layout.bin"@,
        "DATA/Menu.wad.client"@,
        Some("interface"@),
        None::<Seq<char>>,
    )
    &&& v[1].package_path@ == "samples/sr-minimal-hud"@
    &&& forall|i: int|
        0 <= i < 2 ==> {
            &&& (#[trigger] v[i]).manifest.schema_version == 1
            &&& v[i].manifest.version@ == "0.1.0"@
            &&& v[i].manifest.author@ == "Workshop"@
            &&& v[i].manifest.preview_image is None
            &&& v[i].manifest.assets@.len() == 1
            &&& v[i].imported_at == 0
        }
}

/// The library a first run starts with (`sample_library`).
pub fn seed_library() -> (v: Vec<LibraryItem>)
    ensures
        sample_library(v@),
{
    let first = sample_item(
        0x1f2f0a77_9648_4f7b_ae09_fd9c76995a12,
        "Aatrox Crimson VFX",
        "Sample mod package for UI development.",
        two_tags("champion", "vfx"),
        sample_asset(
            "assets/aatrox/vfx.bin",
            "data/characters/aatrox/skins/skin01/vfx.bin",
            "Characters/Aatrox.wad.client",
            "vfx",
        ),
        "samples/aatrox-crimson-vfx",
    );
    let second = sample_item(
        0xfb657393_e6a9_466b_8719_0bfe8223b331,
        "SR Minimal HUD",
        "Sample interface package for UI development.",
        two_tags("ui", "hud"),
        sample_asset("assets/hud/layout.bin", "data/menu/hud/layout.bin", "DATA/Menu.wad.client", "interface"),
        "samples/sr-minimal-hud",
    );
    let mut v: Vec<LibraryItem> = Vec::new();
    v.push(first);
    v.push(second);
    v
}

/// The profiles a first run starts with, under the two fresh ids the caller
/// drew: `Ranked safe`, with the first sample mod enabled, and an empty
/// `Workshop testing`.
pub open spec fn starter_profiles(v: Seq<Profile>, first_id: ProfileId, second_id: ProfileId) -> bool {
    &&& v.len() == 2
    &&& v[0].id == first_id
    &&& v[1].id == second_id
    &&& v[0].name@ == "Ranked safe"@
    &&& v[0].enabled_mods@ == seq![first_sample_id()]
    &&& v[0].mod_order@ == seq![first_sample_id()]
    &&& v[1].name@ == "Workshop testing"@
    &&& v[1].enabled_mods@.len() == 0
    &&& v[1].mod_order@.len() == 0
}

/// The profiles a first run starts with (`starter_profiles`).
pub fn seed_profiles(first_id: ProfileId, second_id: ProfileId) -> (v: Vec<Profile>)
    ensures
        starter_profiles(v@, first_id, second_id),
{
    let mut default = Profile::new("Ranked safe", first_id);
    default.enable_mod(0x1f2f0a77_9648_4f7b_ae09_fd9c76995a12);
    assert(default.enabled_mods@ =~= seq![first_sample_id()]);
    assert(default.mod_order@ =~= seq![first_sample_id()]);
    let mut v: Vec<Profile> = Vec::new();
    v.push(default);
    v.push(Profile::new("Workshop testing", second_id));
    v
}

/// The state a first run starts with and writes out: the sample library and
/// the starter profiles, under the two fresh ids the caller drew.
pub fn seed_state(first_profile: ProfileId, second_profile: ProfileId) -> (s: PersistedState)
    ensures
        sample_library(s.library@),
        starter_profiles(s.profiles@, first_profile, second_profile),
{
    PersistedState {
        library: seed_library(),
        profiles: seed_profiles(first_profile, second_profile),
    }
}

} // verus!

//! The patch engine: dry-run reports, and the decisions behind staging patched
//! archives and the redirections the hook reads.
use crate::league_wad::{league_path_hash, WadV3Error};
use crate::manifest::ModId;
use crate::patch_plan::{build_patch_plan, conflicts_view, enabled_in_order, group_ops, multi_groups, ops_view, plan_ops, plan_warnings, OpView, PatchOperation, PatchPlan};
use crate::profile::Profile;
use crate::storage::LibraryItem;
use crate::text::{
    ascii_lower, chars_of, contains, contains_spec, decimal, decimal_spec, join, join_spec,
    lower_char, replace_char_spec, string_of, strings_view,
};
use crate::wad::WadError;
use vstd::prelude::*;

verus! {

/// Sentinel `wad` value for raw files dropped directly into the game folder.
pub open spec fn raw_wad() -> Seq<char> {
    "RAW"@
}

#[derive(Debug, Clone, PartialEq, Eq)]
pub struct PatchRequest {
    pub league_root: String,
    pub dry_run: bool,
    pub profile: Profile,
    pub library: Vec<LibraryItem>,
}

#[derive(Debug, Clone, Copy, PartialEq, Eq, Structural)]
pub enum PatchStatus {
    Ready,
    Blocked,
    Applied,
}

/// A dry-run (or accepted) plan, with when it started and finished
/// (nanoseconds since the Unix epoch).
#[derive(Debug, Clone, PartialEq, Eq)]
pub struct PatchReport {
    pub dry_run: bool,
    pub started_at: i128,
    pub finished_at: i128,
    pub plan: PatchPlan,
    pub status: PatchStatus,
    pub messages: Vec<String>,
}

/// A single file written to the staging directory.
#[derive(Debug, Clone, PartialEq, Eq)]
pub struct StagedWad {
    pub wad: String,
    pub output_path: String,
    pub entry_count: usize,
}

/// Result of staging a profile's active mods.
#[derive(Debug, Clone, PartialEq, Eq)]
pub struct StageReport {
    pub status: PatchStatus,
    pub plan: PatchPlan,
    pub staged: Vec<StagedWad>,
    pub messages: Vec<String>,
}

#[derive(Debug)]
pub enum PatchError {
    MissingLeagueRoot(String),
    Io(std::io::Error),
    Wad(WadError),
    Stage(String),
}

pub struct PatchEngine;

pub open spec fn plan_status(has_conflicts: bool, dry_run: bool) -> PatchStatus {
    if has_conflicts {
        PatchStatus::Blocked
    } else if dry_run {
        PatchStatus::Ready
    } else {
        PatchStatus::Applied
    }
}

pub open spec fn plan_message(has_conflicts: bool, dry_run: bool) -> Seq<char> {
    if has_conflicts {
        "Patch plan has conflicts and cannot be applied automatically."@
    } else if dry_run {
        "Dry-run completed; no files were modified."@
    } else {
        "Patch engine accepted the plan. Binary WAD writing is not implemented yet."@
    }
}

/// A plan with a conflict is blocked, with the conflict message, whether or not
/// the request is a dry run; a plan without conflicts is ready when it is a dry
/// run and applied when it is not, and is never blocked.
pub proof fn law_conflicts_block_every_plan(has_conflicts: bool, dry_run: bool)
    ensures
        has_conflicts ==> plan_status(has_conflicts, dry_run) == PatchStatus::Blocked,
        has_conflicts ==> plan_message(has_conflicts, dry_run)
            == "Patch plan has conflicts and cannot be applied automatically."@,
        !has_conflicts ==> plan_status(has_conflicts, dry_run) != PatchStatus::Blocked,
        !has_conflicts ==> (plan_status(has_conflicts, dry_run) == PatchStatus::Ready <==> dry_run),
        !has_conflicts && !dry_run ==> plan_status(has_conflicts, dry_run) == PatchStatus::Applied,
{
}

/// The plan that `build_patch_plan` makes for a request, as plain values.
pub open spec fn request_plan_ok(request: PatchRequest, plan: PatchPlan) -> bool {
    let mods = enabled_in_order(request.profile.mod_order@, request.profile.enabled_mods@);
    &&& plan.profile_id == request.profile.id
    &&& ops_view(plan.operations@) == plan_ops(request.library@, mods)
    &&& strings_view(plan.warnings@) == plan_warnings(request.library@, mods)
    &&& conflicts_view(plan.conflicts@) == multi_groups(
        group_ops(plan_ops(request.library@, mods)),
    )
}

impl PatchEngine {
    /// Plan a request without writing anything. A missing League root is an
    /// error; otherwise the plan is blocked when it has conflicts, ready when it
    /// is a dry run, and accepted when it is not. The report carries the times
    /// the caller read from the clock when planning started and finished.
    pub fn plan(
        request: PatchRequest,
        league_root_exists: bool,
        started_at: i128,
        finished_at: i128,
    ) -> (r: Result<
        PatchReport,
        PatchError,
    >)
        ensures
            match r {
                Ok(report) => {
                    &&& league_root_exists
                    &&& report.dry_run == request.dry_run
                    &&& report.started_at == started_at
                    &&& report.finished_at == finished_at
                    &&& request_plan_ok(request, report.plan)
                    &&& report.status == plan_status(
                        report.plan.conflicts@.len() > 0,
                        request.dry_run,
                    )
                    &&& strings_view(report.messages@) == seq![
                        plan_message(report.plan.conflicts@.len() > 0, request.dry_run),
                    ]
                    &&& report.plan.conflicts@.len() > 0 ==> report.status == PatchStatus::Blocked
                        && strings_view(report.messages@) == seq![
                        "Patch plan has conflicts and cannot be applied automatically."@,
                    ]
                    &&& report.plan.conflicts@.len() == 0 ==> (report.status == PatchStatus::Ready
                        <==> request.dry_run)
                },
                Err(e) => !league_root_exists && (e matches PatchError::MissingLeagueRoot(d)
                    && d@ == request.league_root@),
            },
    {
        if !league_root_exists {
            return Err(PatchError::MissingLeagueRoot(request.league_root.clone()));
        }
        let plan = build_patch_plan(&request.profile, request.library.as_slice());
        let blocked = plan.conflicts.len() > 0;
        let status = if blocked {
            PatchStatus::Blocked
        } else if request.dry_run {
            PatchStatus::Ready
        } else {
            PatchStatus::Applied
        };
        let message = if blocked {
            String::from_str("Patch plan has conflicts and cannot be applied automatically.")
        } else if request.dry_run {
            String::from_str("Dry-run completed; no files were modified.")
        } else {
            String::from_str(
                "Patch engine accepted the plan. Binary WAD writing is not implemented yet.",
            )
        };
        let mut messages: Vec<String> = Vec::new();
        messages.push(message);
        assert(strings_view(messages@) =~= seq![plan_message(blocked, request.dry_run)]);
        Ok(
            PatchReport {
                dry_run: request.dry_run,
                started_at,
                finished_at,
                plan,
                status,
                messages,
            },
        )
    }
}

// ---------------------------------------------------------------------------
// Names and keys
// ---------------------------------------------------------------------------

/// A WAD path flattened to a staging file name: separators become `_`.
pub open spec fn overlay_name_spec(wad: Seq<char>) -> Seq<char> {
    Seq::new(wad.len(), |i: int| if wad[i] == '/' || wad[i] == '\\' { '_' } else { wad[i] })
}

/// Map a WAD path to a flat, collision-free staging file name.
pub fn overlay_file_name(wad: &str) -> (r: String)
    ensures
        r@ == overlay_name_spec(wad@),
{
    let cs = chars_of(wad);
    let mut out: Vec<char> = Vec::new();
    let mut i: usize = 0;
    while i < cs.len()
        invariant
            cs@ == wad@,
            i <= cs@.len(),
            out@ == overlay_name_spec(wad@).take(i as int),
        decreases cs@.len() - i,
    {
        let c = if cs[i] == '/' || cs[i] == '\\' {
            '_'
        } else {
            cs[i]
        };
        out.push(c);
        i += 1;
        assert(out@ =~= overlay_name_spec(wad@).take(i as int));
    }
    assert(overlay_name_spec(wad@).take(cs@.len() as int) =~= overlay_name_spec(wad@));
    string_of(out.as_slice())
}

/// Forward slashes, ASCII lowercase: the form the hook matches paths in.
pub open spec fn normalize_key_spec(value: Seq<char>) -> Seq<char> {
    ascii_lower(replace_char_spec(value, '\\', '/'))
}

/// Normalize a path the same way the hook DLL does for matching.
pub fn normalize_key(value: &str) -> (r: String)
    ensures
        r@ == normalize_key_spec(value@),
{
    let cs = chars_of(value);
    let mut out: Vec<char> = Vec::new();
    let mut i: usize = 0;
    while i < cs.len()
        invariant
            cs@ == value@,
            i <= cs@.len(),
            out@ == normalize_key_spec(value@).take(i as int),
        decreases cs@.len() - i,
    {
        let c = if cs[i] == '\\' {
            '/'
        } else {
            cs[i]
        };
        out.push(lower_char(c));
        i += 1;
        assert(out@ =~= normalize_key_spec(value@).take(i as int));
    }
    assert(normalize_key_spec(value@).take(cs@.len() as int) =~= normalize_key_spec(value@));
    string_of(out.as_slice())
}

/// The redirection key of a real archive, from the components of the League root
/// and of the archive's path: its path below `<root>/Game`, else below the root,
/// else its file name; joined with `/` and normalized.
pub open spec fn redirect_key_spec(root: Seq<Seq<char>>, wad_path: Seq<Seq<char>>) -> Seq<char> {
    let game = root.push("Game"@);
    if game.len() <= wad_path.len() && wad_path.take(game.len() as int) == game {
        normalize_key_spec(join_spec(wad_path.skip(game.len() as int), "/"@))
    } else if root.len() <= wad_path.len() && wad_path.take(root.len() as int) == root {
        normalize_key_spec(join_spec(wad_path.skip(root.len() as int), "/"@))
    } else if wad_path.len() > 0 {
        normalize_key_spec(wad_path.last())
    } else {
        Seq::empty()
    }
}

fn components_prefix(prefix: &Vec<String>, path: &Vec<String>) -> (b: bool)
    ensures
        b == (prefix@.len() <= path@.len() && strings_view(path@).take(prefix@.len() as int)
            == strings_view(prefix@)),
{
    if prefix.len() > path.len() {
        return false;
    }
    let mut i: usize = 0;
    while i < prefix.len()
        invariant
            prefix@.len() <= path@.len(),
            i <= prefix@.len(),
            forall|j: int| 0 <= j < i ==> path@[j]@ == prefix@[j]@,
        decreases prefix@.len() - i,
    {
        if path[i] != prefix[i] {
            assert(strings_view(path@).take(prefix@.len() as int)[i as int] != strings_view(
                prefix@,
            )[i as int]);
            return false;
        }
        i += 1;
    }
    assert(strings_view(path@).take(prefix@.len() as int) =~= strings_view(prefix@));
    true
}

fn rest_from(path: &Vec<String>, from: usize) -> (r: Vec<String>)
    requires
        from <= path@.len(),
    ensures
        strings_view(r@) == strings_view(path@).skip(from as int),
{
    let mut out: Vec<String> = Vec::new();
    let mut i: usize = from;
    while i < path.len()
        invariant
            from <= i <= path@.len(),
            strings_view(out@) == strings_view(path@).subrange(from as int, i as int),
        decreases path@.len() - i,
    {
        let ghost prev = out@;
        let item = path[i].clone();
        out.push(item);
        assert(strings_view(out@) =~= strings_view(prev).push(path@[i as int]@));
        i += 1;
        assert(strings_view(out@) =~= strings_view(path@).subrange(from as int, i as int));
    }
    out
}

/// Build the hook's redirection key for a real archive: its path relative to
/// the game's `Game` directory, normalized, so that it is a suffix both of the
/// absolute path the game opens and of the `Game`-relative one.
pub fn redirect_key(league_root: &Vec<String>, real_wad: &Vec<String>) -> (r: String)
    ensures
        r@ == redirect_key_spec(strings_view(league_root@), strings_view(real_wad@)),
{
    let mut game: Vec<String> = Vec::new();
    let mut i: usize = 0;
    while i < league_root.len()
        invariant
            i <= league_root@.len(),
            strings_view(game@) == strings_view(league_root@).take(i as int),
        decreases league_root@.len() - i,
    {
        let ghost prev = game@;
        let item = league_root[i].clone();
        game.push(item);
        assert(strings_view(game@) =~= strings_view(prev).push(league_root@[i as int]@));
        i += 1;
        assert(strings_view(game@) =~= strings_view(league_root@).take(i as int));
    }
    let ghost prev = game@;
    game.push(String::from_str("Game"));
    assert(strings_view(game@) =~= strings_view(prev).push("Game"@));
    assert(strings_view(game@) =~= strings_view(league_root@).push("Game"@));
    if components_prefix(&game, real_wad) {
        let rest = rest_from(real_wad, game.len());
        let joined = join(&rest, "/");
        return normalize_key(joined.as_str());
    }
    if components_prefix(league_root, real_wad) {
        let rest = rest_from(real_wad, league_root.len());
        let joined = join(&rest, "/");
        return normalize_key(joined.as_str());
    }
    if real_wad.len() > 0 {
        return normalize_key(real_wad[real_wad.len() - 1].as_str());
    }
    String::new()
}

/// The final component of a logical WAD path (after the last `/` or `\`),
/// ASCII-lowercased: how an archive is found in an installation.
pub open spec fn wad_file_name_spec(wad: Seq<char>) -> Seq<char>
    decreases wad.len(),
{
    if wad.len() == 0 {
        Seq::empty()
    } else if wad.last() == '/' || wad.last() == '\\' {
        Seq::empty()
    } else {
        wad_file_name_spec(wad.drop_last()).push(ascii_lower(seq![wad.last()])[0])
    }
}

/// Lowercased final component of a logical WAD path.
pub fn wad_file_name(wad: &str) -> (r: String)
    ensures
        r@ == wad_file_name_spec(wad@),
{
    let cs = chars_of(wad);
    let mut out: Vec<char> = Vec::new();
    let mut i: usize = 0;
    assert(wad@.take(0) =~= Seq::<char>::empty());
    while i < cs.len()
        invariant
            cs@ == wad@,
            i <= cs@.len(),
            out@ == wad_file_name_spec(wad@.take(i as int)),
        decreases cs@.len() - i,
    {
        assert(wad@.take(i + 1).drop_last() =~= wad@.take(i as int));
        if cs[i] == '/' || cs[i] == '\\' {
            out = Vec::new();
            assert(out@ =~= Seq::<char>::empty());
        } else {
            out.push(lower_char(cs[i]));
        }
        i += 1;
    }
    assert(wad@.take(i as int) =~= wad@);
    string_of(out.as_slice())
}

/// A file found in an installation under a WAD's name.
#[derive(Debug, Clone, PartialEq, Eq)]
pub struct WadCandidate {
    /// The path, normalized with [`normalize_key`].
    pub normalized: String,
    /// The number of components of the path.
    pub depth: usize,
}

/// Lexicographic order of character sequences (code point order, which is the
/// byte order of their UTF-8 forms).
pub open spec fn text_lt(a: Seq<char>, b: Seq<char>) -> bool
    decreases a.len(),
{
    if b.len() == 0 {
        false
    } else if a.len() == 0 {
        true
    } else if a[0] != b[0] {
        a[0] < b[0]
    } else {
        text_lt(a.drop_first(), b.drop_first())
    }
}

fn text_less(a: &[char], b: &[char]) -> (r: bool)
    ensures
        r == text_lt(a@, b@),
{
    let mut i: usize = 0;
    assert(a@.skip(0) =~= a@);
    assert(b@.skip(0) =~= b@);
    while i < a.len() && i < b.len()
        invariant
            i <= a@.len(),
            i <= b@.len(),
            a@.take(i as int) == b@.take(i as int),
            text_lt(a@, b@) == text_lt(a@.skip(i as int), b@.skip(i as int)),
        decreases a@.len() - i,
    {
        if a[i] != b[i] {
            assert(a@.skip(i as int)[0] == a@[i as int]);
            assert(b@.skip(i as int)[0] == b@[i as int]);
            return a[i] < b[i];
        }
        assert(a@.skip(i as int).drop_first() =~= a@.skip(i + 1));
        assert(b@.skip(i as int).drop_first() =~= b@.skip(i + 1));
        assert(a@.take(i + 1) =~= a@.take(i as int).push(a@[i as int]));
        assert(b@.take(i + 1) =~= b@.take(i as int).push(b@[i as int]));
        i += 1;
    }
    i < b.len()
}

/// The preference between candidates: files in the canonical `/data/final/`
/// tree first, then the least nested, then by path.
pub open spec fn candidate_key_lt(a: (bool, nat, Seq<char>), b: (bool, nat, Seq<char>)) -> bool {
    (!a.0 && b.0) || (a.0 == b.0 && (a.1 < b.1 || (a.1 == b.1 && text_lt(a.2, b.2))))
}

pub open spec fn candidate_key(c: WadCandidate) -> (bool, nat, Seq<char>) {
    (!contains_spec(c.normalized@, "/data/final/"@), c.depth as nat, c.normalized@)
}

proof fn lemma_text_lt_irrefl(a: Seq<char>)
    ensures
        !text_lt(a, a),
    decreases a.len(),
{
    if a.len() > 0 {
        lemma_text_lt_irrefl(a.drop_first());
    }
}

proof fn lemma_text_lt_trans(a: Seq<char>, b: Seq<char>, c: Seq<char>)
    requires
        text_lt(a, b),
        text_lt(b, c),
    ensures
        text_lt(a, c),
    decreases a.len(),
{
    if a.len() > 0 && b.len() > 0 && c.len() > 0 && a[0] == b[0] && b[0] == c[0] {
        lemma_text_lt_trans(a.drop_first(), b.drop_first(), c.drop_first());
    }
}

proof fn lemma_text_lt_total(a: Seq<char>, b: Seq<char>)
    ensures
        a == b || text_lt(a, b) || text_lt(b, a),
    decreases a.len(),
{
    if a.len() == 0 && b.len() == 0 {
        assert(a =~= b);
    } else if a.len() > 0 && b.len() > 0 && a[0] == b[0] {
        lemma_text_lt_total(a.drop_first(), b.drop_first());
        if a.drop_first() == b.drop_first() {
            assert(a.len() == b.len());
            assert(a =~= b) by {
                assert forall|i: int| 0 <= i < a.len() implies a[i] == b[i] by {
                    if i > 0 {
                        assert(a[i] == a.drop_first()[i - 1]);
                        assert(b[i] == b.drop_first()[i - 1]);
                    }
                }
            }
        }
    } else if a.len() > 0 && b.len() > 0 {
        assert(a[0] < b[0] || b[0] < a[0]);
    }
}

proof fn lemma_key_lt_facts(x: (bool, nat, Seq<char>), y: (bool, nat, Seq<char>), z: (
    bool,
    nat,
    Seq<char>,
))
    ensures
        !candidate_key_lt(x, x),
        candidate_key_lt(x, y) && candidate_key_lt(y, z) ==> candidate_key_lt(x, z),
        x == y || candidate_key_lt(x, y) || candidate_key_lt(y, x),
{
    lemma_text_lt_irrefl(x.2);
    if candidate_key_lt(x, y) && candidate_key_lt(y, z) {
        if x.0 == y.0 && y.0 == z.0 && x.1 == y.1 && y.1 == z.1 {
            lemma_text_lt_trans(x.2, y.2, z.2);
        }
    }
    lemma_text_lt_total(x.2, y.2);
}

/// Pick the preferred candidate: one that no candidate is preferred over, and
/// that is preferred over every candidate before it (so the first of equals).
pub fn pick_game_wad(candidates: &Vec<WadCandidate>) -> (r: Option<usize>)
    ensures
        match r {
            None => candidates@.len() == 0,
            Some(i) => {
                &&& i < candidates@.len()
                &&& forall|j: int|
                    0 <= j < candidates@.len() ==> !candidate_key_lt(
                        #[trigger] candidate_key(candidates@[j]),
                        candidate_key(candidates@[i as int]),
                    )
                &&& forall|j: int|
                    0 <= j < i ==> candidate_key_lt(
                        candidate_key(candidates@[i as int]),
                        #[trigger] candidate_key(candidates@[j]),
                    )
            },
        },
{
    if candidates.len() == 0 {
        return None;
    }
    let final_tree = chars_of("/data/final/");
    let mut best: usize = 0;
    let first = chars_of(candidates[0].normalized.as_str());
    let mut best_outside = !contains(first.as_slice(), final_tree.as_slice());
    proof {
        lemma_key_lt_facts(
            candidate_key(candidates@[0]),
            candidate_key(candidates@[0]),
            candidate_key(candidates@[0]),
        );
    }
    let mut i: usize = 1;
    while i < candidates.len()
        invariant
            final_tree@ == "/data/final/"@,
            1 <= i <= candidates@.len(),
            best < i,
            best_outside == candidate_key(candidates@[best as int]).0,
            forall|j: int|
                0 <= j < i ==> !candidate_key_lt(
                    #[trigger] candidate_key(candidates@[j]),
                    candidate_key(candidates@[best as int]),
                ),
            forall|j: int|
                0 <= j < best ==> candidate_key_lt(
                    candidate_key(candidates@[best as int]),
                    #[trigger] candidate_key(candidates@[j]),
                ),
        decreases candidates@.len() - i,
    {
        let c = &candidates[i];
        let cn = chars_of(c.normalized.as_str());
        let outside = !contains(cn.as_slice(), final_tree.as_slice());
        let b = &candidates[best];
        let bn = chars_of(b.normalized.as_str());
        let better = (!outside && best_outside) || (outside == best_outside && (c.depth < b.depth
            || (c.depth == b.depth && text_less(cn.as_slice(), bn.as_slice()))));
        let ghost kc = candidate_key(candidates@[i as int]);
        let ghost kb = candidate_key(candidates@[best as int]);
        assert(better == candidate_key_lt(kc, kb));
        if better {
            proof {
                assert forall|j: int| 0 <= j < i + 1 implies !candidate_key_lt(
                    #[trigger] candidate_key(candidates@[j]),
                    kc,
                ) by {
                    lemma_key_lt_facts(candidate_key(candidates@[j]), kc, kb);
                }
                assert forall|j: int| 0 <= j < i implies candidate_key_lt(
                    kc,
                    #[trigger] candidate_key(candidates@[j]),
                ) by {
                    let kj = candidate_key(candidates@[j]);
                    lemma_key_lt_facts(kc, kb, kj);
                    lemma_key_lt_facts(kb, kj, kj);
                }
            }
            best = i;
            best_outside = outside;
        }
        i += 1;
    }
    Some(best)
}


// ---------------------------------------------------------------------------
// Staging
// ---------------------------------------------------------------------------

/// A plan's operations for one destination WAD.
#[derive(Debug, Clone, PartialEq, Eq)]
pub struct StageGroup {
    pub wad: String,
    pub operations: Vec<PatchOperation>,
}

pub type GroupView = (Seq<char>, Seq<OpView>);

impl View for StageGroup {
    type V = GroupView;

    open spec fn view(&self) -> GroupView {
        (self.wad@, ops_view(self.operations@))
    }
}

pub open spec fn groups_view(v: Seq<StageGroup>) -> Seq<GroupView> {
    Seq::new(v.len(), |i: int| v[i]@)
}

/// Index of the group for a WAD.
pub open spec fn find_wad(g: Seq<GroupView>, wad: Seq<char>) -> Option<int>
    decreases g.len(),
{
    if g.len() == 0 {
        None
    } else {
        match find_wad(g.drop_last(), wad) {
            Some(i) => Some(i),
            None => if g.last().0 == wad {
                Some(g.len() - 1)
            } else {
                None
            },
        }
    }
}

/// Where a new group for `wad` goes: after the last group, scanning from the
/// back, whose WAD does not sort after it.
pub open spec fn insert_at(g: Seq<GroupView>, wad: Seq<char>) -> int
    decreases g.len(),
{
    if g.len() == 0 {
        0
    } else if text_lt(wad, g.last().0) {
        insert_at(g.drop_last(), wad)
    } else {
        g.len() as int
    }
}

/// Operations grouped by destination WAD, in ascending order of the WAD, each
/// group's operations in plan order.
pub open spec fn group_by_wad(ops: Seq<OpView>) -> Seq<GroupView>
    decreases ops.len(),
{
    if ops.len() == 0 {
        Seq::empty()
    } else {
        let g = group_by_wad(ops.drop_last());
        let op = ops.last();
        match find_wad(g, op.4) {
            Some(i) => g.update(i, (g[i].0, g[i].1.push(op))),
            None => g.insert(insert_at(g, op.4), (op.4, seq![op])),
        }
    }
}

proof fn lemma_find_wad(g: Seq<GroupView>, wad: Seq<char>)
    ensures
        match find_wad(g, wad) {
            Some(i) => 0 <= i < g.len() && g[i].0 == wad,
            None => forall|j: int| 0 <= j < g.len() ==> #[trigger] g[j].0 != wad,
        },
    decreases g.len(),
{
    if g.len() > 0 {
        lemma_find_wad(g.drop_last(), wad);
        assert forall|j: int| 0 <= j < g.len() - 1 implies #[trigger] g[j] == g.drop_last()[j] by {}
    }
}

proof fn lemma_find_wad_prefix(g: Seq<GroupView>, wad: Seq<char>, k: int)
    requires
        0 <= k <= g.len(),
        find_wad(g.take(k), wad) is Some,
    ensures
        find_wad(g, wad) == find_wad(g.take(k), wad),
    decreases g.len() - k,
{
    if k < g.len() {
        assert(g.take(k + 1).drop_last() =~= g.take(k));
        lemma_find_wad_prefix(g, wad, k + 1);
    } else {
        assert(g.take(k) =~= g);
    }
}

/// The operations of `ops` that write into `wad`, in order.
pub open spec fn ops_into(ops: Seq<OpView>, wad: Seq<char>) -> Seq<OpView>
    decreases ops.len(),
{
    if ops.len() == 0 {
        Seq::empty()
    } else if ops.last().4 == wad {
        ops_into(ops.drop_last(), wad).push(ops.last())
    } else {
        ops_into(ops.drop_last(), wad)
    }
}

proof fn lemma_ops_into_none(ops: Seq<OpView>, wad: Seq<char>)
    requires
        forall|k: int| 0 <= k < ops.len() ==> #[trigger] ops[k].4 != wad,
    ensures
        ops_into(ops, wad) == Seq::<OpView>::empty(),
    decreases ops.len(),
{
    if ops.len() > 0 {
        let rest = ops.drop_last();
        assert forall|k: int| 0 <= k < rest.len() implies #[trigger] rest[k].4 != wad by {
            assert(rest[k] == ops[k]);
        }
        lemma_ops_into_none(rest, wad);
        assert(ops[ops.len() - 1].4 != wad);
    }
}

/// Grouping by destination loses and invents nothing: each group holds exactly
/// the operations that write into its WAD, in plan order; no two groups share a
/// WAD; and every operation's WAD has a group.
pub proof fn law_groups_partition_the_operations(ops: Seq<OpView>)
    ensures
        ({
            let g = group_by_wad(ops);
            &&& forall|i: int| 0 <= i < g.len() ==> (#[trigger] g[i]).1 == ops_into(ops, g[i].0)
            &&& forall|i: int, j: int| 0 <= i < j < g.len() ==> (#[trigger] g[i]).0 != (#[trigger] g[j]).0
            &&& forall|k: int| 0 <= k < ops.len() ==> exists|i: int| 0 <= i < g.len() && (#[trigger] g[i]).0
                == (#[trigger] ops[k]).4
        }),
    decreases ops.len(),
{
    if ops.len() > 0 {
        let rest = ops.drop_last();
        let op = ops.last();
        law_groups_partition_the_operations(rest);
        let g0 = group_by_wad(rest);
        let g = group_by_wad(ops);
        lemma_find_wad(g0, op.4);
        assert forall|k: int| 0 <= k < rest.len() implies #[trigger] rest[k] == ops[k] by {}
        match find_wad(g0, op.4) {
            Some(f) => {
                assert(g == g0.update(f, (g0[f].0, g0[f].1.push(op))));
                assert forall|i: int| 0 <= i < g.len() implies (#[trigger] g[i]).1 == ops_into(ops, g[i].0) by {
                    if i != f {
                        assert(g0[i].0 != g0[f].0);
                    }
                }
                assert forall|k: int| 0 <= k < ops.len() implies exists|i: int|
                    0 <= i < g.len() && (#[trigger] g[i]).0 == (#[trigger] ops[k]).4 by {
                    if k < rest.len() {
                        assert(rest[k] == ops[k]);
                        let i = choose|i: int| 0 <= i < g0.len() && (#[trigger] g0[i]).0 == rest[k].4;
                        assert(g[i].0 == ops[k].4);
                    } else {
                        assert(g[f].0 == ops[k].4);
                    }
                }
            },
            None => {
                let at = insert_at(g0, op.4);
                lemma_insert_at_bounds(g0, op.4);
                assert(g == g0.insert(at, (op.4, seq![op])));
                assert forall|k: int| 0 <= k < rest.len() implies #[trigger] rest[k].4 != op.4 by {
                    let i = choose|i: int| 0 <= i < g0.len() && (#[trigger] g0[i]).0 == rest[k].4;
                    assert(g0[i].0 != op.4);
                }
                lemma_ops_into_none(rest, op.4);
                assert forall|i: int| 0 <= i < g.len() implies (#[trigger] g[i]).1 == ops_into(ops, g[i].0) by {
                    if i < at {
                        assert(g[i] == g0[i]);
                        assert(g0[i].0 != op.4);
                    } else if i == at {
                        assert(ops_into(ops, op.4) =~= seq![op]);
                    } else {
                        assert(g[i] == g0[i - 1]);
                        assert(g0[i - 1].0 != op.4);
                    }
                }
                assert forall|i: int, j: int| 0 <= i < j < g.len() implies (#[trigger] g[i]).0 != (#[trigger] g[j]).0 by {
                    if i < at && j < at {
                        assert(g[i] == g0[i] && g[j] == g0[j]);
                    } else if i < at && j == at {
                        assert(g[i] == g0[i]);
                    } else if i < at {
                        assert(g[i] == g0[i] && g[j] == g0[j - 1]);
                    } else if i == at {
                        assert(g[j] == g0[j - 1]);
                    } else {
                        assert(g[i] == g0[i - 1] && g[j] == g0[j - 1]);
                    }
                }
                assert forall|k: int| 0 <= k < ops.len() implies exists|i: int|
                    0 <= i < g.len() && (#[trigger] g[i]).0 == (#[trigger] ops[k]).4 by {
                    if k < rest.len() {
                        assert(rest[k] == ops[k]);
                        let i = choose|i: int| 0 <= i < g0.len() && (#[trigger] g0[i]).0 == rest[k].4;
                        if i < at {
                            assert(g[i] == g0[i]);
                        } else {
                            assert(g[i + 1] == g0[i]);
                        }
                    } else {
                        assert(g[at].0 == ops[k].4);
                    }
                }
            },
        }
    }
}

fn find_wad_exec(groups: &Vec<StageGroup>, wad: &String) -> (r: Option<usize>)
    ensures
        match r {
            Some(i) => find_wad(groups_view(groups@), wad@) == Some(i as int),
            None => find_wad(groups_view(groups@), wad@) is None,
        },
{
    let ghost g = groups_view(groups@);
    let mut i: usize = 0;
    assert(g.take(0) =~= Seq::<GroupView>::empty());
    while i < groups.len()
        invariant
            g == groups_view(groups@),
            i <= groups@.len(),
            find_wad(g.take(i as int), wad@) is None,
        decreases groups@.len() - i,
    {
        assert(g.take(i + 1).drop_last() =~= g.take(i as int));
        if groups[i].wad == *wad {
            proof {
                lemma_find_wad_prefix(g, wad@, i + 1);
            }
            return Some(i);
        }
        i += 1;
    }
    assert(g.take(i as int) =~= g);
    None
}

fn insert_at_exec(groups: &Vec<StageGroup>, wad: &String) -> (r: usize)
    ensures
        r == insert_at(groups_view(groups@), wad@),
{
    let ghost g = groups_view(groups@);
    let w = chars_of(wad.as_str());
    let mut k: usize = groups.len();
    assert(g.take(k as int) =~= g);
    while k > 0
        invariant
            g == groups_view(groups@),
            w@ == wad@,
            k <= groups@.len(),
            insert_at(g, wad@) == insert_at(g.take(k as int), wad@),
        decreases k,
    {
        assert(g.take(k as int).drop_last() =~= g.take(k - 1));
        let other = chars_of(groups[k - 1].wad.as_str());
        if !text_less(w.as_slice(), other.as_slice()) {
            return k;
        }
        k -= 1;
    }
    0
}

fn clone_op(op: &PatchOperation) -> (c: PatchOperation)
    ensures
        c@ == op@,
{
    PatchOperation {
        mod_id: op.mod_id,
        mod_name: op.mod_name.clone(),
        source: op.source.clone(),
        target: op.target.clone(),
        wad: op.wad.clone(),
    }
}

/// Group a plan's operations by destination WAD, groups ordered by WAD.
pub fn group_by_destination(operations: &Vec<PatchOperation>) -> (groups: Vec<StageGroup>)
    ensures
        groups_view(groups@) == group_by_wad(ops_view(operations@)),
{
    let ghost ops = ops_view(operations@);
    let mut groups: Vec<StageGroup> = Vec::new();
    let mut i: usize = 0;
    assert(ops.take(0) =~= Seq::<OpView>::empty());
    assert(groups_view(groups@) =~= Seq::<GroupView>::empty());
    while i < operations.len()
        invariant
            ops == ops_view(operations@),
            i <= operations@.len(),
            groups_view(groups@) == group_by_wad(ops.take(i as int)),
        decreases operations@.len() - i,
    {
        let op = &operations[i];
        assert(ops.take(i + 1).drop_last() =~= ops.take(i as int));
        assert(ops.take(i + 1).last() == op@);
        let ghost g = groups_view(groups@);
        proof {
            lemma_find_wad(g, op.wad@);
        }
        match find_wad_exec(&groups, &op.wad) {
            Some(k) => {
                let mut ops_k: Vec<PatchOperation> = Vec::new();
                let mut t: usize = 0;
                while t < groups[k].operations.len()
                    invariant
                        k < groups@.len(),
                        t <= groups@[k as int].operations@.len(),
                        ops_view(ops_k@) == ops_view(groups@[k as int].operations@).take(t as int),
                    decreases groups@[k as int].operations@.len() - t,
                {
                    let ghost prev = ops_view(ops_k@);
                    let c = clone_op(&groups[k].operations[t]);
                    ops_k.push(c);
                    assert(ops_view(ops_k@) =~= prev.push(c@));
                    t += 1;
                    assert(ops_view(ops_k@) =~= ops_view(groups@[k as int].operations@).take(
                        t as int,
                    ));
                }
                assert(ops_view(groups@[k as int].operations@).take(t as int) =~= ops_view(
                    groups@[k as int].operations@,
                ));
                let ghost prev = ops_view(ops_k@);
                ops_k.push(clone_op(op));
                assert(ops_view(ops_k@) =~= prev.push(op@));
                let entry = StageGroup { wad: groups[k].wad.clone(), operations: ops_k };
                groups.set(k, entry);
                assert(groups_view(groups@) =~= g.update(
                    k as int,
                    (g[k as int].0, g[k as int].1.push(op@)),
                ));
            },
            None => {
                let at = insert_at_exec(&groups, &op.wad);
                proof {
                    lemma_insert_at_bounds(g, op.wad@);
                }
                let mut first: Vec<PatchOperation> = Vec::new();
                first.push(clone_op(op));
                assert(ops_view(first@) =~= seq![op@]);
                groups.insert(at, StageGroup { wad: op.wad.clone(), operations: first });
                assert(groups_view(groups@) =~= g.insert(at as int, (op.wad@, seq![op@])));
            },
        }
        i += 1;
    }
    assert(ops.take(i as int) =~= ops);
    groups
}

proof fn lemma_insert_at_bounds(g: Seq<GroupView>, wad: Seq<char>)
    ensures
        0 <= insert_at(g, wad) <= g.len(),
    decreases g.len(),
{
    if g.len() > 0 {
        lemma_insert_at_bounds(g.drop_last(), wad);
    }
}

/// How staging begins: a plan with conflicts is refused with a blocked report
/// and nothing is written; otherwise the plan's operations are grouped by WAD.
#[derive(Debug, Clone, PartialEq, Eq)]
pub enum StageStart {
    Blocked(StageReport),
    Groups(PatchPlan, Vec<StageGroup>),
}

pub open spec fn blocked_message() -> Seq<char> {
    "Patch plan has conflicts; nothing was written."@
}

impl PatchEngine {
    /// The decisions that open staging: a missing League root is an error; a plan
    /// with conflicts gives a blocked report with nothing staged; otherwise the
    /// plan and its operations grouped by destination WAD.
    pub fn stage_plan(request: &PatchRequest, league_root_exists: bool) -> (r: Result<
        StageStart,
        PatchError,
    >)
        ensures
            match r {
                Ok(StageStart::Blocked(report)) => {
                    &&& league_root_exists
                    &&& request_plan_ok(*request, report.plan)
                    &&& report.plan.conflicts@.len() > 0
                    &&& report.status == PatchStatus::Blocked
                    &&& report.staged@.len() == 0
                    &&& strings_view(report.messages@) == seq![blocked_message()]
                },
                Ok(StageStart::Groups(plan, groups)) => {
                    &&& league_root_exists
                    &&& request_plan_ok(*request, plan)
                    &&& plan.conflicts@.len() == 0
                    &&& groups_view(groups@) == group_by_wad(ops_view(plan.operations@))
                },
                Err(e) => !league_root_exists && (e matches PatchError::MissingLeagueRoot(d)
                    && d@ == request.league_root@),
            },
    {
        if !league_root_exists {
            return Err(PatchError::MissingLeagueRoot(request.league_root.clone()));
        }
        let plan = build_patch_plan(&request.profile, request.library.as_slice());
        if plan.conflicts.len() > 0 {
            let mut messages: Vec<String> = Vec::new();
            messages.push(String::from_str("Patch plan has conflicts; nothing was written."));
            assert(strings_view(messages@) =~= seq![blocked_message()]);
            return Ok(
                StageStart::Blocked(
                    StageReport {
                        status: PatchStatus::Blocked,
                        plan,
                        staged: Vec::new(),
                        messages,
                    },
                ),
            );
        }
        let groups = group_by_destination(&plan.operations);
        Ok(StageStart::Groups(plan, groups))
    }

    /// Closes staging: the summary message is added and the report is applied.
    pub fn stage_finish(
        plan: PatchPlan,
        staged: Vec<StagedWad>,
        messages: Vec<String>,
        redirection_count: usize,
    ) -> (report: StageReport)
        ensures
            report.status == PatchStatus::Applied,
            report.plan == plan,
            report.staged == staged,
            strings_view(report.messages@) == strings_view(messages@).push(
                staged_summary_spec(staged@.len() as u64, redirection_count as u64),
            ),
    {
        let mut messages = messages;
        let summary = staged_summary(staged.len() as u64, redirection_count as u64);
        let ghost prev = messages@;
        messages.push(summary);
        assert(strings_view(messages@) =~= strings_view(prev).push(summary@));
        StageReport { status: PatchStatus::Applied, plan, staged, messages }
    }
}

/// One file that staging writes.
#[derive(Debug, Clone, PartialEq, Eq)]
pub enum StageJob {
    /// A raw file: the operation's asset is written to `output_name`, and opens
    /// of `key` are redirected to it.
    Raw { operation: PatchOperation, output_name: String, key: String },
    /// An archive: the installation's copy of `wad`, patched with one override
    /// per operation filed under the path hash of its target, is written to
    /// `output_name`.
    Archive { wad: String, output_name: String, overrides: Vec<(u64, PatchOperation)> },
}

/// A staging job as plain values.
pub enum JobView {
    Raw(OpView, Seq<char>, Seq<char>),
    Archive(Seq<char>, Seq<char>, Seq<(u64, OpView)>),
}

pub open spec fn overrides_view(v: Seq<(u64, PatchOperation)>) -> Seq<(u64, OpView)> {
    Seq::new(v.len(), |i: int| (v[i].0, v[i].1@))
}

impl View for StageJob {
    type V = JobView;

    open spec fn view(&self) -> JobView {
        match self {
            StageJob::Raw { operation, output_name, key } => JobView::Raw(
                operation@,
                output_name@,
                key@,
            ),
            StageJob::Archive { wad, output_name, overrides } => JobView::Archive(
                wad@,
                output_name@,
                overrides_view(overrides@),
            ),
        }
    }
}

pub open spec fn jobs_view(v: Seq<StageJob>) -> Seq<JobView> {
    Seq::new(v.len(), |i: int| v[i]@)
}

/// The jobs for one group: a raw group gives one job per operation, named after
/// and keyed by its target; an archive group gives one job, named after the
/// WAD, overriding each operation's target.
pub open spec fn group_jobs(g: GroupView) -> Seq<JobView> {
    if g.0 == raw_wad() {
        Seq::new(
            g.1.len(),
            |i: int| JobView::Raw(g.1[i], overlay_name_spec(g.1[i].3), normalize_key_spec(g.1[i].3)),
        )
    } else {
        seq![
            JobView::Archive(
                g.0,
                overlay_name_spec(g.0),
                Seq::new(g.1.len(), |i: int| (league_path_hash(g.1[i].3), g.1[i])),
            ),
        ]
    }
}

/// The jobs for groups, in order.
pub open spec fn jobs_spec(gs: Seq<GroupView>) -> Seq<JobView>
    decreases gs.len(),
{
    if gs.len() == 0 {
        Seq::empty()
    } else {
        jobs_spec(gs.drop_last()) + group_jobs(gs.last())
    }
}

/// An archive group becomes one archive job for its WAD that carries one
/// override per operation of the group, in the group's order, each keyed by the
/// path hash of that operation's target; a raw group becomes one raw job per
/// operation, keyed by its normalized target.
pub proof fn law_jobs_cover_every_operation(g: GroupView)
    ensures
        g.0 != raw_wad() ==> group_jobs(g).len() == 1 && (group_jobs(g)[0] matches JobView::Archive(
            wad,
            _,
            ovs,
        ) && wad == g.0 && ovs.len() == g.1.len() && forall|i: int|
            0 <= i < g.1.len() ==> #[trigger] ovs[i] == (league_path_hash(g.1[i].3), g.1[i])),
        g.0 == raw_wad() ==> group_jobs(g).len() == g.1.len() && forall|i: int|
            0 <= i < g.1.len() ==> (#[trigger] group_jobs(g)[i] matches JobView::Raw(op, _, key)
                && op == g.1[i] && key == normalize_key_spec(g.1[i].3)),
{
}

/// Every archive group of a plan is staged: among the jobs there is an archive
/// job for its WAD whose overrides are exactly its operations, in order, each
/// keyed by the path hash of its target.
pub proof fn law_every_archive_group_is_staged(gs: Seq<GroupView>, j: int)
    requires
        0 <= j < gs.len(),
        gs[j].0 != raw_wad(),
    ensures
        exists|k: int|
            0 <= k < jobs_spec(gs).len() && #[trigger] jobs_spec(gs)[k] == JobView::Archive(
                gs[j].0,
                overlay_name_spec(gs[j].0),
                Seq::new(gs[j].1.len(), |i: int| (league_path_hash(gs[j].1[i].3), gs[j].1[i])),
            ),
    decreases gs.len(),
{
    let rest = gs.drop_last();
    if j == gs.len() - 1 {
        let k = jobs_spec(rest).len() as int;
        assert(jobs_spec(gs)[k] == group_jobs(gs[j])[0]);
    } else {
        law_every_archive_group_is_staged(rest, j);
        let k = choose|k: int|
            0 <= k < jobs_spec(rest).len() && #[trigger] jobs_spec(rest)[k] == JobView::Archive(
                rest[j].0,
                overlay_name_spec(rest[j].0),
                Seq::new(rest[j].1.len(), |i: int| (league_path_hash(rest[j].1[i].3), rest[j].1[i])),
            );
        assert(jobs_spec(gs)[k] == jobs_spec(rest)[k]);
    }
}

/// The files staging writes for the plan's groups, in group order.
pub fn staging_jobs(groups: &Vec<StageGroup>) -> (jobs: Vec<StageJob>)
    ensures
        jobs_view(jobs@) == jobs_spec(groups_view(groups@)),
{
    let ghost gs = groups_view(groups@);
    let mut jobs: Vec<StageJob> = Vec::new();
    let mut i: usize = 0;
    assert(gs.take(0) =~= Seq::<GroupView>::empty());
    assert(jobs_view(jobs@) =~= Seq::<JobView>::empty());
    while i < groups.len()
        invariant
            gs == groups_view(groups@),
            i <= groups@.len(),
            jobs_view(jobs@) == jobs_spec(gs.take(i as int)),
        decreases groups@.len() - i,
    {
        let group = &groups[i];
        let ghost g = gs[i as int];
        assert(g == group@);
        assert(gs.take(i + 1).drop_last() =~= gs.take(i as int));
        let ghost before = jobs_view(jobs@);
        let n = group.operations.len();
        if is_raw_wad(&group.wad) {
            let mut k: usize = 0;
            while k < n
                invariant
                    n == group.operations@.len(),
                    g == group@,
                    g.0 == raw_wad(),
                    k <= n,
                    jobs_view(jobs@) == before + group_jobs(g).take(k as int),
                decreases n - k,
            {
                let op = &group.operations[k];
                let ghost prev = jobs_view(jobs@);
                let job = StageJob::Raw {
                    operation: clone_op(op),
                    output_name: overlay_file_name(op.target.as_str()),
                    key: normalize_key(op.target.as_str()),
                };
                jobs.push(job);
                assert(jobs_view(jobs@) =~= prev.push(group_jobs(g)[k as int]));
                k += 1;
                assert(jobs_view(jobs@) =~= before + group_jobs(g).take(k as int));
            }
            assert(group_jobs(g).take(n as int) =~= group_jobs(g));
        } else {
            let mut overrides: Vec<(u64, PatchOperation)> = Vec::new();
            let mut k: usize = 0;
            while k < n
                invariant
                    n == group.operations@.len(),
                    g == group@,
                    k <= n,
                    overrides_view(overrides@) == Seq::new(
                        g.1.len(),
                        |q: int| (league_path_hash(g.1[q].3), g.1[q]),
                    ).take(k as int),
                decreases n - k,
            {
                let op = &group.operations[k];
                let ghost prev = overrides_view(overrides@);
                let h = crate::league_wad::path_hash(op.target.as_str());
                overrides.push((h, clone_op(op)));
                assert(g.1[k as int] == op@);
                assert(overrides_view(overrides@) =~= prev.push((h, op@)));
                k += 1;
                assert(overrides_view(overrides@) =~= Seq::new(
                    g.1.len(),
                    |q: int| (league_path_hash(g.1[q].3), g.1[q]),
                ).take(k as int));
            }
            let job = StageJob::Archive {
                wad: group.wad.clone(),
                output_name: overlay_file_name(group.wad.as_str()),
                overrides,
            };
            assert(overrides_view(overrides@) =~= Seq::new(
                g.1.len(),
                |q: int| (league_path_hash(g.1[q].3), g.1[q]),
            ));
            jobs.push(job);
            assert(jobs_view(jobs@) =~= before + group_jobs(g));
        }
        i += 1;
    }
    assert(gs.take(i as int) =~= gs);
    jobs
}

/// Whether a group is the raw-file sentinel rather than an archive.
pub fn is_raw_wad(wad: &String) -> (b: bool)
    ensures
        b == (wad@ == raw_wad()),
{
    *wad == String::from_str("RAW")
}

pub open spec fn staged_summary_spec(files: u64, redirections: u64) -> Seq<char> {
    "Staged "@ + decimal_spec(files) + " file(s) and "@ + decimal_spec(redirections)
        + " redirection(s); the live League installation was not modified."@
}

/// The closing message of a staging run.
pub fn staged_summary(files: u64, redirections: u64) -> (s: String)
    ensures
        s@ == staged_summary_spec(files, redirections),
{
    let mut s = String::from_str("Staged ");
    s.append(decimal(files).as_str());
    s.append(" file(s) and ");
    s.append(decimal(redirections).as_str());
    s.append(" redirection(s); the live League installation was not modified.");
    s
}

pub open spec fn override_report_spec(wad: Seq<char>, matched: u64, added: u64) -> Seq<char> {
    wad + ": "@ + decimal_spec(matched) + " override(s) matched existing game assets, "@
        + decimal_spec(added) + " appended as new entries."@
}

/// What staging says of one patched archive: how many of its overrides matched
/// an asset the game already has, and how many entries were appended as new (a
/// new entry usually means a wrong target path, so the override shows nothing).
pub fn override_report(wad: &str, matched: u64, added: u64) -> (s: String)
    ensures
        s@ == override_report_spec(wad@, matched, added),
{
    let mut s = String::from_str(wad);
    s.append(": ");
    s.append(decimal(matched).as_str());
    s.append(" override(s) matched existing game assets, ");
    s.append(decimal(added).as_str());
    s.append(" appended as new entries.");
    s
}

/// The message for a target WAD that is not in the installation.
pub fn missing_wad_message(wad: &str, league_root: &str) -> (s: String)
    ensures
        s@ == "could not find '"@ + wad@ + "' under "@ + league_root@ + "; skipped"@,
{
    let mut s = String::from_str("could not find '");
    s.append(wad);
    s.append("' under ");
    s.append(league_root);
    s.append("; skipped");
    s
}

} // verus!

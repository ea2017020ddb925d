//! Patch planning: the operations a profile's enabled mods make, and the assets
//! that more than one of them writes.
use crate::manifest::ModId;
use crate::profile::Profile;
use crate::storage::LibraryItem;
use crate::text::{strings_view, uuid_string, uuid_text};
use vstd::prelude::*;

verus! {

#[derive(Debug, Clone, PartialEq, Eq)]
pub struct PatchPlan {
    pub profile_id: u128,
    pub operations: Vec<PatchOperation>,
    pub conflicts: Vec<PatchConflict>,
    pub warnings: Vec<String>,
}

#[derive(Debug, Clone, PartialEq, Eq)]
pub struct PatchOperation {
    pub mod_id: ModId,
    pub mod_name: String,
    pub source: String,
    pub target: String,
    pub wad: String,
}

#[derive(Debug, Clone, PartialEq, Eq)]
pub struct PatchConflict {
    pub wad: String,
    pub target: String,
    pub mod_ids: Vec<ModId>,
}

/// An operation as plain values: mod id, mod name, source, target, wad.
pub type OpView = (ModId, Seq<char>, Seq<char>, Seq<char>, Seq<char>);

/// A conflict as plain values: wad, target, the mods that write it in order.
pub type ConflictView = (Seq<char>, Seq<char>, Seq<ModId>);

impl View for PatchOperation {
    type V = OpView;

    open spec fn view(&self) -> OpView {
        (self.mod_id, self.mod_name@, self.source@, self.target@, self.wad@)
    }
}

impl View for PatchConflict {
    type V = ConflictView;

    open spec fn view(&self) -> ConflictView {
        (self.wad@, self.target@, self.mod_ids@)
    }
}

pub open spec fn ops_view(v: Seq<PatchOperation>) -> Seq<OpView> {
    Seq::new(v.len(), |i: int| v[i]@)
}

pub open spec fn conflicts_view(v: Seq<PatchConflict>) -> Seq<ConflictView> {
    Seq::new(v.len(), |i: int| v[i]@)
}

/// The load order restricted to enabled mods.
pub open spec fn enabled_in_order(order: Seq<ModId>, enabled: Seq<ModId>) -> Seq<ModId>
    decreases order.len(),
{
    if order.len() == 0 {
        order
    } else if enabled.contains(order.last()) {
        enabled_in_order(order.drop_last(), enabled).push(order.last())
    } else {
        enabled_in_order(order.drop_last(), enabled)
    }
}

/// The library entry a mod id resolves to: the last one with that id.
pub open spec fn lookup(library: Seq<LibraryItem>, id: ModId) -> Option<int>
    decreases library.len(),
{
    if library.len() == 0 {
        None
    } else if library.last().manifest.id == id {
        Some(library.len() - 1)
    } else {
        lookup(library.drop_last(), id)
    }
}

pub proof fn lemma_lookup(library: Seq<LibraryItem>, id: ModId)
    ensures
        lookup(library, id) matches Some(i) ==> 0 <= i < library.len() && library[i].manifest.id
            == id,
    decreases library.len(),
{
    if library.len() > 0 {
        lemma_lookup(library.drop_last(), id);
    }
}

/// One operation per asset of a library entry.
pub open spec fn item_ops(id: ModId, item: LibraryItem) -> Seq<OpView> {
    Seq::new(
        item.manifest.assets@.len(),
        |k: int|
            (
                id,
                item.manifest.name@,
                item.manifest.assets@[k].source@,
                item.manifest.assets@[k].target@,
                item.manifest.assets@[k].wad@,
            ),
    )
}

/// The operations for mods in order.
pub open spec fn plan_ops(library: Seq<LibraryItem>, mods: Seq<ModId>) -> Seq<OpView>
    decreases mods.len(),
{
    if mods.len() == 0 {
        Seq::empty()
    } else {
        plan_ops(library, mods.drop_last()) + match lookup(library, mods.last()) {
            Some(i) => item_ops(mods.last(), library[i]),
            None => Seq::empty(),
        }
    }
}

/// The mods a plan covers are exactly those that are both in the load order and
/// enabled.
pub proof fn law_enabled_in_order_keeps_enabled_mods(order: Seq<ModId>, enabled: Seq<ModId>, id: ModId)
    ensures
        enabled_in_order(order, enabled).contains(id) <==> (order.contains(id) && enabled.contains(id)),
    decreases order.len(),
{
    if order.len() > 0 {
        let rest = order.drop_last();
        law_enabled_in_order_keeps_enabled_mods(rest, enabled, id);
        let e = enabled_in_order(rest, enabled);
        if order.contains(id) && id != order.last() {
            let k = choose|k: int| 0 <= k < order.len() && order[k] == id;
            assert(rest[k] == id);
        }
        if rest.contains(id) {
            let k = choose|k: int| 0 <= k < rest.len() && rest[k] == id;
            assert(order[k] == id);
        }
        if enabled.contains(order.last()) {
            assert(e.push(order.last()).last() == order.last());
            if e.contains(id) {
                let k = choose|k: int| 0 <= k < e.len() && e[k] == id;
                assert(e.push(order.last())[k] == id);
            }
            if e.push(order.last()).contains(id) && id != order.last() {
                let k = choose|k: int| 0 <= k < e.len() + 1 && e.push(order.last())[k] == id;
                assert(e[k] == id);
            }
        }
        if id == order.last() {
            assert(order[order.len() - 1] == id);
        }
    }
}

/// Planning mods one list after another gives the first list's operations
/// followed by the second's: operations come in load order.
pub proof fn law_plan_ops_follow_load_order(library: Seq<LibraryItem>, first: Seq<ModId>, then: Seq<ModId>)
    ensures
        plan_ops(library, first + then) == plan_ops(library, first) + plan_ops(library, then),
    decreases then.len(),
{
    if then.len() == 0 {
        assert(first + then =~= first);
    } else {
        law_plan_ops_follow_load_order(library, first, then.drop_last());
        assert((first + then).drop_last() =~= first + then.drop_last());
        assert((first + then).last() == then.last());
    }
}

/// Every asset of every planned mod that the library has becomes an operation
/// of that mod, with the asset's source, target and wad.
pub proof fn law_plan_ops_cover_every_asset(library: Seq<LibraryItem>, mods: Seq<ModId>, j: int, k: int)
    requires
        0 <= j < mods.len(),
        lookup(library, mods[j]) is Some,
        0 <= k < library[lookup(library, mods[j])->Some_0].manifest.assets@.len(),
    ensures
        ({
            let item = library[lookup(library, mods[j])->Some_0];
            let a = item.manifest.assets@[k];
            plan_ops(library, mods).contains(
                (mods[j], item.manifest.name@, a.source@, a.target@, a.wad@),
            )
        }),
    decreases mods.len(),
{
    let rest = mods.drop_last();
    let ops = plan_ops(library, mods);
    let prev = plan_ops(library, rest);
    let tail = match lookup(library, mods.last()) {
        Some(i) => item_ops(mods.last(), library[i]),
        None => Seq::<OpView>::empty(),
    };
    assert(ops == prev + tail);
    if j < mods.len() - 1 {
        assert(rest[j] == mods[j]);
        law_plan_ops_cover_every_asset(library, rest, j, k);
        let item = library[lookup(library, mods[j])->Some_0];
        let a = item.manifest.assets@[k];
        let x = (mods[j], item.manifest.name@, a.source@, a.target@, a.wad@);
        let q = choose|q: int| 0 <= q < prev.len() && prev[q] == x;
        assert(ops[q] == x);
    } else {
        let i = lookup(library, mods.last())->Some_0;
        assert(ops[prev.len() + k] == tail[k]);
    }
}

/// Every operation of a plan belongs to one of the planned mods.
pub proof fn law_plan_ops_belong_to_planned_mods(library: Seq<LibraryItem>, mods: Seq<ModId>)
    ensures
        forall|p: int| 0 <= p < plan_ops(library, mods).len() ==> mods.contains(
            #[trigger] plan_ops(library, mods)[p].0,
        ),
    decreases mods.len(),
{
    if mods.len() > 0 {
        let rest = mods.drop_last();
        law_plan_ops_belong_to_planned_mods(library, rest);
        let ops = plan_ops(library, mods);
        let prev = plan_ops(library, rest);
        let tail = match lookup(library, mods.last()) {
            Some(i) => item_ops(mods.last(), library[i]),
            None => Seq::<OpView>::empty(),
        };
        assert(ops == prev + tail);
        assert forall|p: int| 0 <= p < ops.len() implies mods.contains(#[trigger] ops[p].0) by {
            if p < prev.len() {
                assert(ops[p] == prev[p]);
                let r = choose|r: int| 0 <= r < rest.len() && rest[r] == prev[p].0;
                assert(mods[r] == prev[p].0);
            } else {
                assert(ops[p] == tail[p - prev.len()]);
                assert(mods[mods.len() - 1] == ops[p].0);
            }
        }
    }
}

/// The warnings for mods in order: one per mod missing from the library.
pub open spec fn plan_warnings(library: Seq<LibraryItem>, mods: Seq<ModId>) -> Seq<Seq<char>>
    decreases mods.len(),
{
    if mods.len() == 0 {
        Seq::empty()
    } else {
        plan_warnings(library, mods.drop_last()) + match lookup(library, mods.last()) {
            Some(_) => Seq::empty(),
            None => seq!["enabled mod "@ + uuid_text(mods.last()) + " is missing from library"@],
        }
    }
}

/// Index of the group for a wad and target.
pub open spec fn find_group(g: Seq<ConflictView>, wad: Seq<char>, target: Seq<char>) -> Option<int>
    decreases g.len(),
{
    if g.len() == 0 {
        None
    } else {
        match find_group(g.drop_last(), wad, target) {
            Some(i) => Some(i),
            None => if g.last().0 == wad && g.last().1 == target {
                Some(g.len() - 1)
            } else {
                None
            },
        }
    }
}

/// Operations grouped by wad and target, groups in order of first appearance,
/// each with the mods that write it in order.
pub open spec fn group_ops(ops: Seq<OpView>) -> Seq<ConflictView>
    decreases ops.len(),
{
    if ops.len() == 0 {
        Seq::empty()
    } else {
        let g = group_ops(ops.drop_last());
        let op = ops.last();
        match find_group(g, op.4, op.3) {
            Some(i) => g.update(i, (g[i].0, g[i].1, g[i].2.push(op.0))),
            None => g.push((op.4, op.3, seq![op.0])),
        }
    }
}

/// The groups written by more than one operation.
pub open spec fn multi_groups(g: Seq<ConflictView>) -> Seq<ConflictView>
    decreases g.len(),
{
    if g.len() == 0 {
        g
    } else if g.last().2.len() > 1 {
        multi_groups(g.drop_last()).push(g.last())
    } else {
        multi_groups(g.drop_last())
    }
}

pub proof fn lemma_find_group(g: Seq<ConflictView>, wad: Seq<char>, target: Seq<char>)
    ensures
        match find_group(g, wad, target) {
            Some(i) => 0 <= i < g.len() && g[i].0 == wad && g[i].1 == target,
            None => forall|j: int|
                0 <= j < g.len() ==> !(#[trigger] g[j].0 == wad && g[j].1 == target),
        },
    decreases g.len(),
{
    if g.len() > 0 {
        lemma_find_group(g.drop_last(), wad, target);
        assert forall|j: int| 0 <= j < g.len() - 1 implies #[trigger] g[j] == g.drop_last()[j] by {}
    }
}

fn string_eq(a: &String, b: &String) -> (r: bool)
    ensures
        r == (a@ == b@),
{
    *a == *b
}

fn find_group_exec(groups: &Vec<PatchConflict>, wad: &String, target: &String) -> (r: Option<
    usize,
>)
    ensures
        match r {
            Some(i) => find_group(conflicts_view(groups@), wad@, target@) == Some(i as int),
            None => find_group(conflicts_view(groups@), wad@, target@) is None,
        },
{
    let ghost g = conflicts_view(groups@);
    let mut i: usize = 0;
    assert(g.take(0) =~= Seq::<ConflictView>::empty());
    while i < groups.len()
        invariant
            g == conflicts_view(groups@),
            i <= groups@.len(),
            find_group(g.take(i as int), wad@, target@) is None,
        decreases groups@.len() - i,
    {
        assert(g.take(i + 1).drop_last() =~= g.take(i as int));
        if string_eq(&groups[i].wad, wad) && string_eq(&groups[i].target, target) {
            proof {
                lemma_find_group_prefix(g, wad@, target@, i + 1);
            }
            return Some(i);
        }
        i += 1;
    }
    assert(g.take(i as int) =~= g);
    None
}

proof fn lemma_find_group_prefix(g: Seq<ConflictView>, wad: Seq<char>, target: Seq<char>, k: int)
    requires
        0 <= k <= g.len(),
        find_group(g.take(k), wad, target) is Some,
    ensures
        find_group(g, wad, target) == find_group(g.take(k), wad, target),
    decreases g.len() - k,
{
    if k < g.len() {
        assert(g.take(k + 1).drop_last() =~= g.take(k));
        lemma_find_group_prefix(g, wad, target, k + 1);
    } else {
        assert(g.take(k) =~= g);
    }
}

fn contains_id(v: &Vec<ModId>, id: ModId) -> (b: bool)
    ensures
        b == v@.contains(id),
{
    let mut i: usize = 0;
    while i < v.len()
        invariant
            i <= v@.len(),
            forall|j: int| 0 <= j < i ==> v@[j] != id,
        decreases v@.len() - i,
    {
        if v[i] == id {
            assert(v@[i as int] == id);
            return true;
        }
        i += 1;
    }
    false
}

/// The library entry a mod id resolves to: the last one with that id.
pub fn find_library_item(library: &[LibraryItem], id: ModId) -> (r: Option<usize>)
    ensures
        match r {
            Some(i) => lookup(library@, id) == Some(i as int),
            None => lookup(library@, id) is None,
        },
{
    let mut k: usize = library.len();
    assert(library@.take(k as int) =~= library@);
    while k > 0
        invariant
            k <= library@.len(),
            lookup(library@, id) == lookup(library@.take(k as int), id),
        decreases k,
    {
        assert(library@.take(k as int).drop_last() =~= library@.take(k - 1));
        if library[k - 1].manifest.id == id {
            return Some(k - 1);
        }
        k -= 1;
    }
    None
}

/// The operations of an enabled mod, the warnings for missing mods, and the
/// groups of operations by wad and target, in the order the plan makes them.
fn collect(
    library: &[LibraryItem],
    mods: &Vec<ModId>,
) -> (r: (Vec<PatchOperation>, Vec<String>, Vec<PatchConflict>))
    ensures
        ops_view(r.0@) == plan_ops(library@, mods@),
        strings_view(r.1@) == plan_warnings(library@, mods@),
        conflicts_view(r.2@) == group_ops(plan_ops(library@, mods@)),
{
    let mut operations: Vec<PatchOperation> = Vec::new();
    let mut warnings: Vec<String> = Vec::new();
    let mut groups: Vec<PatchConflict> = Vec::new();
    let mut i: usize = 0;
    assert(mods@.take(0) =~= Seq::<ModId>::empty());
    assert(ops_view(operations@) =~= Seq::<OpView>::empty());
    assert(strings_view(warnings@) =~= Seq::<Seq<char>>::empty());
    assert(conflicts_view(groups@) =~= Seq::<ConflictView>::empty());
    while i < mods.len()
        invariant
            i <= mods@.len(),
            ops_view(operations@) == plan_ops(library@, mods@.take(i as int)),
            strings_view(warnings@) == plan_warnings(library@, mods@.take(i as int)),
            conflicts_view(groups@) == group_ops(ops_view(operations@)),
        decreases mods@.len() - i,
    {
        let mod_id = mods[i];
        assert(mods@.take(i + 1).drop_last() =~= mods@.take(i as int));
        assert(mods@.take(i + 1).last() == mod_id);
        proof {
            lemma_lookup(library@, mod_id);
        }
        match find_library_item(library, mod_id) {
            None => {
                let mut m = String::from_str("enabled mod ");
                let text = uuid_string(mod_id);
                m.append(text.as_str());
                m.append(" is missing from library");
                let ghost prev = warnings@;
                warnings.push(m);
                assert(strings_view(warnings@) =~= strings_view(prev).push(m@));
                assert(plan_ops(library@, mods@.take(i + 1)) =~= plan_ops(
                    library@,
                    mods@.take(i as int),
                ));
            },
            Some(idx) => {
                let item = &library[idx];
                let ghost ops0 = ops_view(operations@);
                let mut k: usize = 0;
                assert(item_ops(mod_id, *item).take(0) =~= Seq::<OpView>::empty());
                assert(ops0 + item_ops(mod_id, *item).take(0) =~= ops0);
                while k < item.manifest.assets.len()
                    invariant
                        k <= item.manifest.assets@.len(),
                        ops_view(operations@) == ops0 + item_ops(mod_id, *item).take(k as int),
                        conflicts_view(groups@) == group_ops(ops_view(operations@)),
                    decreases item.manifest.assets@.len() - k,
                {
                    let asset = &item.manifest.assets[k];
                    let op = PatchOperation {
                        mod_id,
                        mod_name: item.manifest.name.clone(),
                        source: asset.source.clone(),
                        target: asset.target.clone(),
                        wad: asset.wad.clone(),
                    };
                    let ghost before = ops_view(operations@);
                    match find_group_exec(&groups, &op.wad, &op.target) {
                        Some(g) => {
                            let ghost gv = conflicts_view(groups@);
                            proof {
                                lemma_find_group(gv, op.wad@, op.target@);
                            }
                            let mut ids = groups[g].mod_ids.clone();
                            assert(ids@ =~= groups@[g as int].mod_ids@);
                            ids.push(mod_id);
                            let entry = PatchConflict {
                                wad: groups[g].wad.clone(),
                                target: groups[g].target.clone(),
                                mod_ids: ids,
                            };
                            groups.set(g, entry);
                            assert(conflicts_view(groups@) =~= gv.update(
                                g as int,
                                (gv[g as int].0, gv[g as int].1, gv[g as int].2.push(mod_id)),
                            ));
                        },
                        None => {
                            let mut ids: Vec<ModId> = Vec::new();
                            ids.push(mod_id);
                            let ghost gv = conflicts_view(groups@);
                            let entry = PatchConflict {
                                wad: op.wad.clone(),
                                target: op.target.clone(),
                                mod_ids: ids,
                            };
                            groups.push(entry);
                            assert(conflicts_view(groups@) =~= gv.push(
                                (op.wad@, op.target@, seq![mod_id]),
                            ));
                        },
                    }
                    operations.push(op);
                    assert(ops_view(operations@) =~= before.push(op@));
                    assert(ops_view(operations@).drop_last() =~= before);
                    assert(item_ops(mod_id, *item).take(k + 1) =~= item_ops(mod_id, *item).take(
                        k as int,
                    ).push(op@));
                    k += 1;
                }
                assert(item_ops(mod_id, *item).take(k as int) =~= item_ops(mod_id, *item));
                assert(plan_warnings(library@, mods@.take(i + 1)) =~= plan_warnings(
                    library@,
                    mods@.take(i as int),
                ));
            },
        }
        i += 1;
    }
    assert(mods@.take(i as int) =~= mods@);
    (operations, warnings, groups)
}

/// The groups that more than one operation writes, in order.
fn keep_multi(groups: Vec<PatchConflict>) -> (r: Vec<PatchConflict>)
    ensures
        conflicts_view(r@) == multi_groups(conflicts_view(groups@)),
{
    let ghost g = conflicts_view(groups@);
    let mut out: Vec<PatchConflict> = Vec::new();
    let mut i: usize = 0;
    assert(g.take(0) =~= Seq::<ConflictView>::empty());
    assert(conflicts_view(out@) =~= Seq::<ConflictView>::empty());
    while i < groups.len()
        invariant
            g == conflicts_view(groups@),
            i <= groups@.len(),
            conflicts_view(out@) == multi_groups(g.take(i as int)),
        decreases groups@.len() - i,
    {
        assert(g.take(i + 1).drop_last() =~= g.take(i as int));
        if groups[i].mod_ids.len() > 1 {
            let ghost prev = conflicts_view(out@);
            out.push(groups[i].clone_conflict());
            assert(conflicts_view(out@) =~= prev.push(g[i as int]));
        }
        i += 1;
    }
    assert(g.take(i as int) =~= g);
    out
}

impl PatchConflict {
    fn clone_conflict(&self) -> (c: Self)
        ensures
            c@ == self@,
    {
        let ids = self.mod_ids.clone();
        assert(ids@ =~= self.mod_ids@);
        PatchConflict { wad: self.wad.clone(), target: self.target.clone(), mod_ids: ids }
    }
}

/// Plan a profile against a library: one operation per asset of every enabled
/// mod, in load order; a warning per enabled mod missing from the library; and a
/// conflict for every wad and target that more than one operation writes.
pub fn build_patch_plan(profile: &Profile, library: &[LibraryItem]) -> (plan: PatchPlan)
    ensures
        plan.profile_id == profile.id,
        ops_view(plan.operations@) == plan_ops(
            library@,
            enabled_in_order(profile.mod_order@, profile.enabled_mods@),
        ),
        strings_view(plan.warnings@) == plan_warnings(
            library@,
            enabled_in_order(profile.mod_order@, profile.enabled_mods@),
        ),
        conflicts_view(plan.conflicts@) == multi_groups(
            group_ops(
                plan_ops(library@, enabled_in_order(profile.mod_order@, profile.enabled_mods@)),
            ),
        ),
{
    let mut ordered: Vec<ModId> = Vec::new();
    let mut i: usize = 0;
    assert(profile.mod_order@.take(0) =~= Seq::<ModId>::empty());
    while i < profile.mod_order.len()
        invariant
            i <= profile.mod_order@.len(),
            ordered@ == enabled_in_order(
                profile.mod_order@.take(i as int),
                profile.enabled_mods@,
            ),
        decreases profile.mod_order@.len() - i,
    {
        let id = profile.mod_order[i];
        assert(profile.mod_order@.take(i + 1).drop_last() =~= profile.mod_order@.take(i as int));
        if contains_id(&profile.enabled_mods, id) {
            ordered.push(id);
        }
        i += 1;
    }
    assert(profile.mod_order@.take(i as int) =~= profile.mod_order@);
    let (operations, warnings, groups) = collect(library, &ordered);
    let conflicts = keep_multi(groups);
    PatchPlan { profile_id: profile.id, operations, conflicts, warnings }
}


/// The mods whose operations write a wad and target, in order.
pub open spec fn ids_for(ops: Seq<OpView>, wad: Seq<char>, target: Seq<char>) -> Seq<ModId>
    decreases ops.len(),
{
    if ops.len() == 0 {
        Seq::empty()
    } else if ops.last().4 == wad && ops.last().3 == target {
        ids_for(ops.drop_last(), wad, target).push(ops.last().0)
    } else {
        ids_for(ops.drop_last(), wad, target)
    }
}

pub open spec fn keys_distinct(g: Seq<ConflictView>) -> bool {
    forall|i: int, j: int|
        0 <= i < j < g.len() ==> !(#[trigger] g[i].0 == #[trigger] g[j].0 && g[i].1 == g[j].1)
}

proof fn lemma_find_group_same_keys(
    g: Seq<ConflictView>,
    h: Seq<ConflictView>,
    wad: Seq<char>,
    target: Seq<char>,
)
    requires
        g.len() == h.len(),
        forall|i: int| 0 <= i < g.len() ==> #[trigger] g[i].0 == h[i].0 && g[i].1 == h[i].1,
    ensures
        find_group(g, wad, target) == find_group(h, wad, target),
    decreases g.len(),
{
    if g.len() > 0 {
        lemma_find_group_same_keys(g.drop_last(), h.drop_last(), wad, target);
        assert(g.last() == g[g.len() - 1] && h.last() == h[h.len() - 1]);
    }
}

/// Each wad and target has one group, holding exactly the mods that write it.
proof fn lemma_group_ops(ops: Seq<OpView>, wad: Seq<char>, target: Seq<char>)
    ensures
        keys_distinct(group_ops(ops)),
        match find_group(group_ops(ops), wad, target) {
            Some(i) => group_ops(ops)[i].2 == ids_for(ops, wad, target) && ids_for(
                ops,
                wad,
                target,
            ).len() > 0,
            None => ids_for(ops, wad, target).len() == 0,
        },
    decreases ops.len(),
{
    if ops.len() > 0 {
        let d = ops.drop_last();
        let op = ops.last();
        lemma_group_ops(d, wad, target);
        lemma_group_ops(d, op.4, op.3);
        let g = group_ops(d);
        let g2 = group_ops(ops);
        lemma_find_group(g, op.4, op.3);
        lemma_find_group(g, wad, target);
        match find_group(g, op.4, op.3) {
            Some(k) => {
                lemma_find_group_same_keys(g, g2, wad, target);
                assert forall|i: int, j: int| 0 <= i < j < g2.len() implies !(
                #[trigger] g2[i].0 == #[trigger] g2[j].0 && g2[i].1 == g2[j].1) by {
                    assert(g2[i].0 == g[i].0 && g2[i].1 == g[i].1);
                    assert(g2[j].0 == g[j].0 && g2[j].1 == g[j].1);
                }
            },
            None => {
                assert(g2.drop_last() =~= g);
                assert forall|i: int, j: int| 0 <= i < j < g2.len() implies !(
                #[trigger] g2[i].0 == #[trigger] g2[j].0 && g2[i].1 == g2[j].1) by {
                    if j == g.len() {
                        assert(g2[i] == g[i]);
                    } else {
                        assert(g2[i] == g[i] && g2[j] == g[j]);
                    }
                }
                if !(op.4 == wad && op.3 == target) {
                    lemma_find_group_same_keys(g, g2.drop_last(), wad, target);
                }
            },
        }
    }
}

proof fn lemma_multi_groups(g: Seq<ConflictView>, c: ConflictView)
    ensures
        multi_groups(g).contains(c) <==> (g.contains(c) && c.2.len() > 1),
    decreases g.len(),
{
    if g.len() > 0 {
        let d = g.drop_last();
        lemma_multi_groups(d, c);
        let m = multi_groups(g);
        let md = multi_groups(d);
        if g.contains(c) && c.2.len() > 1 {
            let k = choose|k: int| 0 <= k < g.len() && g[k] == c;
            if k < g.len() - 1 {
                assert(d[k] == c);
                assert(d.contains(c));
                let j = choose|j: int| 0 <= j < md.len() && md[j] == c;
                if g.last().2.len() > 1 {
                    assert(m[j] == c);
                }
            } else {
                assert(m[m.len() - 1] == c);
            }
        }
        if m.contains(c) {
            let j = choose|j: int| 0 <= j < m.len() && m[j] == c;
            if g.last().2.len() > 1 && j == m.len() - 1 {
                assert(g[g.len() - 1] == c);
            } else {
                assert(md[j] == c);
                assert(md.contains(c));
                let k = choose|k: int| 0 <= k < d.len() && d[k] == c;
                assert(g[k] == c);
            }
        }
    }
}

/// A plan reports a wad and target as a conflict exactly when more than one
/// operation writes it, and the conflict lists every mod that writes it, in load
/// order.
pub proof fn law_conflicts_are_shared_targets(ops: Seq<OpView>, wad: Seq<char>, target: Seq<char>)
    ensures
        ({
            let cs = multi_groups(group_ops(ops));
            &&& (exists|i: int| 0 <= i < cs.len() && #[trigger] cs[i].0 == wad && cs[i].1 == target)
                <==> ids_for(ops, wad, target).len() > 1
            &&& forall|i: int|
                0 <= i < cs.len() && #[trigger] cs[i].0 == wad && cs[i].1 == target ==> cs[i].2
                    == ids_for(ops, wad, target)
        }),
{
    let g = group_ops(ops);
    let cs = multi_groups(g);
    lemma_group_ops(ops, wad, target);
    lemma_find_group(g, wad, target);
    assert forall|i: int| 0 <= i < cs.len() && #[trigger] cs[i].0 == wad && cs[i].1 == target
        implies g.contains(cs[i]) && cs[i].2.len() > 1 && cs[i].2 == ids_for(ops, wad, target) by {
        assert(cs.contains(cs[i]));
        lemma_multi_groups(g, cs[i]);
        let k = choose|k: int| 0 <= k < g.len() && g[k] == cs[i];
        let f = find_group(g, wad, target)->Some_0;
        if k != f {
            if k < f {
                assert(!(g[k].0 == g[f].0 && g[k].1 == g[f].1));
            } else {
                assert(!(g[f].0 == g[k].0 && g[f].1 == g[k].1));
            }
        }
    }
    if ids_for(ops, wad, target).len() > 1 {
        let f = find_group(g, wad, target)->Some_0;
        assert(g.contains(g[f]));
        lemma_multi_groups(g, g[f]);
        assert(cs.contains(g[f]));
        let j = choose|j: int| 0 <= j < cs.len() && cs[j] == g[f];
        assert(cs[j].0 == wad && cs[j].1 == target);
    }
}

} // verus!

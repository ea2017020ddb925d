//! Profiles: which mods are enabled, and the load order that decides overlaps.
use crate::manifest::ModId;
use vstd::prelude::*;

verus! {

pub type ProfileId = u128;

#[derive(Debug, Clone, PartialEq, Eq)]
pub struct Profile {
    pub id: ProfileId,
    pub name: String,
    pub enabled_mods: Vec<ModId>,
    pub mod_order: Vec<ModId>,
}

/// `s` with `id` appended unless it is already there.
pub open spec fn enable_list(s: Seq<ModId>, id: ModId) -> Seq<ModId> {
    if s.contains(id) {
        s
    } else {
        s.push(id)
    }
}

/// `s` without any occurrence of `id`, the rest in order.
pub open spec fn remove_all(s: Seq<ModId>, id: ModId) -> Seq<ModId>
    decreases s.len(),
{
    if s.len() == 0 {
        s
    } else if s.last() == id {
        remove_all(s.drop_last(), id)
    } else {
        remove_all(s.drop_last(), id).push(s.last())
    }
}

/// Index of the first occurrence of `id` in `s`.
pub open spec fn first_pos(s: Seq<ModId>, id: ModId) -> Option<int>
    decreases s.len(),
{
    if s.len() == 0 {
        None
    } else {
        match first_pos(s.drop_last(), id) {
            Some(i) => Some(i),
            None => if s.last() == id {
                Some(s.len() - 1)
            } else {
                None
            },
        }
    }
}

pub open spec fn swap_spec(s: Seq<ModId>, i: int, j: int) -> Seq<ModId> {
    s.update(i, s[j]).update(j, s[i])
}

/// The load order after moving `id` one step earlier (`up`) or later; unchanged
/// when `id` is absent or already at that end.
pub open spec fn move_list(s: Seq<ModId>, id: ModId, up: bool) -> Seq<ModId> {
    match first_pos(s, id) {
        None => s,
        Some(p) => if up {
            if p > 0 {
                swap_spec(s, p, p - 1)
            } else {
                s
            }
        } else if p + 1 < s.len() {
            swap_spec(s, p, p + 1)
        } else {
            s
        },
    }
}

pub proof fn lemma_first_pos(s: Seq<ModId>, id: ModId)
    ensures
        match first_pos(s, id) {
            Some(i) => 0 <= i < s.len() && s[i] == id && forall|j: int|
                0 <= j < i ==> #[trigger] s[j] != id,
            None => !s.contains(id),
        },
    decreases s.len(),
{
    if s.len() > 0 {
        lemma_first_pos(s.drop_last(), id);
        assert forall|j: int| 0 <= j < s.len() - 1 implies #[trigger] s[j] == s.drop_last()[j] by {}
        if first_pos(s, id) is None {
            assert forall|j: int| 0 <= j < s.len() implies s[j] != id by {
                if j < s.len() - 1 {
                    assert(s.drop_last()[j] == s[j]);
                }
            }
        }
    }
}

proof fn lemma_first_pos_unique(s: Seq<ModId>, id: ModId, i: int)
    requires
        0 <= i < s.len(),
        s[i] == id,
        forall|j: int| 0 <= j < i ==> #[trigger] s[j] != id,
    ensures
        first_pos(s, id) == Some(i),
{
    lemma_first_pos(s, id);
    match first_pos(s, id) {
        Some(k) => {
            if k < i {
                assert(s[k] != id);
            } else if k > i {
                assert(s[i] != id);
            }
        },
        None => {
            assert(s.contains(id)) by {
                assert(s[i] == id);
            }
        },
    }
}

fn contains_id(v: &Vec<ModId>, id: ModId) -> (b: bool)
    ensures
        b == v@.contains(id),
{
    let mut i: usize = 0;
    while i < v.len()
        invariant
            i <= v@.len(),
            forall|j: int| 0 <= j < i ==> v@[j] != id,
        decreases v@.len() - i,
    {
        if v[i] == id {
            assert(v@[i as int] == id);
            return true;
        }
        i += 1;
    }
    false
}

fn position_of_id(v: &Vec<ModId>, id: ModId) -> (r: Option<usize>)
    ensures
        match r {
            Some(i) => first_pos(v@, id) == Some(i as int),
            None => first_pos(v@, id) is None,
        },
{
    let mut i: usize = 0;
    while i < v.len()
        invariant
            i <= v@.len(),
            forall|j: int| 0 <= j < i ==> #[trigger] v@[j] != id,
        decreases v@.len() - i,
    {
        if v[i] == id {
            proof {
                lemma_first_pos_unique(v@, id, i as int);
            }
            return Some(i);
        }
        i += 1;
    }
    proof {
        lemma_first_pos(v@, id);
        if first_pos(v@, id) is Some {
            let k = first_pos(v@, id)->Some_0;
            assert(v@[k] != id);
        }
    }
    None
}

impl Profile {
    /// A new profile with the given id (a freshly drawn random one, by the
    /// caller) and nothing enabled.
    pub fn new(name: &str, id: ProfileId) -> (p: Self)
        ensures
            p.id == id,
            p.name@ == name@,
            p.enabled_mods@.len() == 0,
            p.mod_order@.len() == 0,
    {
        Profile {
            id,
            name: String::from_str(name),
            enabled_mods: Vec::new(),
            mod_order: Vec::new(),
        }
    }

    /// Enable a mod; it joins the end of the load order unless it already has a
    /// place there. Enabling twice is the same as enabling once.
    pub fn enable_mod(&mut self, mod_id: ModId)
        ensures
            final(self).id == old(self).id,
            final(self).name == old(self).name,
            final(self).enabled_mods@ == enable_list(old(self).enabled_mods@, mod_id),
            final(self).mod_order@ == enable_list(old(self).mod_order@, mod_id),
    {
        if !contains_id(&self.enabled_mods, mod_id) {
            self.enabled_mods.push(mod_id);
        }
        if !contains_id(&self.mod_order, mod_id) {
            self.mod_order.push(mod_id);
        }
    }

    /// Disable a mod. Its place in the load order is kept for a later re-enable.
    pub fn disable_mod(&mut self, mod_id: ModId)
        ensures
            final(self).id == old(self).id,
            final(self).name == old(self).name,
            final(self).enabled_mods@ == remove_all(old(self).enabled_mods@, mod_id),
            final(self).mod_order@ == old(self).mod_order@,
    {
        let mut kept: Vec<ModId> = Vec::new();
        let ghost orig = self.enabled_mods@;
        let mut i: usize = 0;
        assert(orig.take(0) =~= Seq::<ModId>::empty());
        while i < self.enabled_mods.len()
            invariant
                orig == self.enabled_mods@,
                i <= orig.len(),
                kept@ == remove_all(orig.take(i as int), mod_id),
            decreases orig.len() - i,
        {
            let e = self.enabled_mods[i];
            assert(orig.take(i + 1).drop_last() =~= orig.take(i as int));
            if e != mod_id {
                kept.push(e);
            }
            i += 1;
        }
        assert(orig.take(i as int) =~= orig);
        self.enabled_mods = kept;
    }

    /// Move `mod_id` one step earlier (`up`) or later in the load order, the
    /// order in which the plan lists the enabled mods' operations. No-op if the
    /// mod is absent or already at the relevant end.
    pub fn move_mod(&mut self, mod_id: ModId, up: bool)
        ensures
            final(self).id == old(self).id,
            final(self).name == old(self).name,
            final(self).enabled_mods == old(self).enabled_mods,
            final(self).mod_order@ == move_list(old(self).mod_order@, mod_id, up),
    {
        let index = match position_of_id(&self.mod_order, mod_id) {
            Some(i) => i,
            None => return,
        };
        proof {
            lemma_first_pos(self.mod_order@, mod_id);
        }
        let target = if up {
            if index > 0 {
                Some(index - 1)
            } else {
                None
            }
        } else if index < self.mod_order.len() - 1 {
            Some(index + 1)
        } else {
            None
        };
        if let Some(target) = target {
            let a = self.mod_order[index];
            let b = self.mod_order[target];
            self.mod_order.set(index, b);
            self.mod_order.set(target, a);
        }
    }
}

fn copy_ids(v: &Vec<ModId>) -> (r: Vec<ModId>)
    ensures
        r@ == v@,
{
    let mut r: Vec<ModId> = Vec::new();
    let mut i: usize = 0;
    while i < v.len()
        invariant
            i <= v@.len(),
            r@ == v@.take(i as int),
        decreases v@.len() - i,
    {
        r.push(v[i]);
        i += 1;
        assert(r@ =~= v@.take(i as int));
    }
    assert(v@.take(i as int) =~= v@);
    r
}

impl Profile {
    /// A field-for-field copy.
    pub(crate) fn duplicate(&self) -> (r: Profile)
        ensures
            r.id == self.id,
            r.name@ == self.name@,
            r.enabled_mods@ == self.enabled_mods@,
            r.mod_order@ == self.mod_order@,
    {
        Profile {
            id: self.id,
            name: self.name.clone(),
            enabled_mods: copy_ids(&self.enabled_mods),
            mod_order: copy_ids(&self.mod_order),
        }
    }
}

/// The load order never holds a mod twice.
pub open spec fn no_duplicates(s: Seq<ModId>) -> bool {
    forall|i: int, j: int| 0 <= i < j < s.len() ==> s[i] != s[j]
}

/// Every enabled mod has a place in the load order, and neither list holds a mod
/// twice.
pub open spec fn profile_wf(enabled: Seq<ModId>, order: Seq<ModId>) -> bool {
    &&& no_duplicates(enabled)
    &&& no_duplicates(order)
    &&& forall|i: int| 0 <= i < enabled.len() ==> order.contains(#[trigger] enabled[i])
}

proof fn lemma_remove_all(s: Seq<ModId>, id: ModId)
    ensures
        forall|x: ModId| remove_all(s, id).contains(x) <==> (s.contains(x) && x != id),
        no_duplicates(s) ==> no_duplicates(remove_all(s, id)),
    decreases s.len(),
{
    if s.len() > 0 {
        let d = s.drop_last();
        lemma_remove_all(d, id);
        let r = remove_all(s, id);
        let rd = remove_all(d, id);
        assert forall|x: ModId| r.contains(x) <==> (s.contains(x) && x != id) by {
            if s.contains(x) && x != id {
                let k = choose|k: int| 0 <= k < s.len() && s[k] == x;
                if k < s.len() - 1 {
                    assert(d[k] == x);
                    assert(d.contains(x));
                    assert(rd.contains(x));
                    if s.last() != id {
                        let m = choose|m: int| 0 <= m < rd.len() && rd[m] == x;
                        assert(r[m] == x);
                    }
                } else {
                    assert(r[r.len() - 1] == x);
                }
            }
            if r.contains(x) {
                let m = choose|m: int| 0 <= m < r.len() && r[m] == x;
                if s.last() == id || m < rd.len() {
                    assert(rd[m] == x);
                    assert(d.contains(x));
                    let k = choose|k: int| 0 <= k < d.len() && d[k] == x;
                    assert(s[k] == x);
                } else {
                    assert(s[s.len() - 1] == x);
                }
            }
        }
        if no_duplicates(s) {
            assert(no_duplicates(d));
            if s.last() != id {
                assert(!d.contains(s.last())) by {
                    if d.contains(s.last()) {
                        let k = choose|k: int| 0 <= k < d.len() && d[k] == s.last();
                        assert(s[k] == s[s.len() - 1]);
                    }
                }
                assert(!rd.contains(s.last()));
                assert forall|i: int, j: int| 0 <= i < j < r.len() implies r[i] != r[j] by {
                    if j == r.len() - 1 {
                        assert(rd.contains(r[i])) by {
                            assert(rd[i] == r[i]);
                        }
                    } else {
                        assert(r[i] == rd[i] && r[j] == rd[j]);
                    }
                }
            }
        }
    }
}

/// Enabling a mod makes it enabled and keeps every mod enabled before, in
/// place; disabling a mod leaves exactly the other enabled mods, in order.
pub proof fn law_enable_and_disable_change_only_that_mod(s: Seq<ModId>, id: ModId, other: ModId)
    ensures
        enable_list(s, id).contains(id),
        enable_list(s, id).subrange(0, s.len() as int) == s,
        enable_list(s, id).len() <= s.len() + 1,
        remove_all(s, id).contains(other) <==> (s.contains(other) && other != id),
        !remove_all(s, id).contains(id),
    decreases s.len(),
{
    if !s.contains(id) {
        assert(s.push(id)[s.len() as int] == id);
        assert(s.push(id).subrange(0, s.len() as int) =~= s);
    } else {
        assert(s.subrange(0, s.len() as int) =~= s);
    }
    if s.len() > 0 {
        let rest = s.drop_last();
        law_enable_and_disable_change_only_that_mod(rest, id, other);
        let r = remove_all(rest, id);
        if s.contains(other) && other != id {
            let k = choose|k: int| 0 <= k < s.len() && s[k] == other;
            if k < s.len() - 1 {
                assert(rest[k] == other);
                if s.last() != id {
                    let q = choose|q: int| 0 <= q < r.len() && r[q] == other;
                    assert(r.push(s.last())[q] == other);
                }
            } else {
                assert(r.push(s.last())[r.len() as int] == other);
            }
        }
        if s.last() != id {
            if r.push(s.last()).contains(other) && other != s.last() {
                let q = choose|q: int| 0 <= q < r.len() + 1 && r.push(s.last())[q] == other;
                assert(r[q] == other);
            }
            if r.push(s.last()).contains(other) {
                if other != s.last() {
                    let k = choose|k: int| 0 <= k < rest.len() && rest[k] == other;
                    assert(s[k] == other);
                } else {
                    assert(s[s.len() - 1] == other);
                }
            }
            if r.push(s.last()).contains(id) {
                let q = choose|q: int| 0 <= q < r.len() + 1 && r.push(s.last())[q] == id;
                assert(q < r.len());
                assert(r[q] == id);
            }
        } else {
            if r.contains(other) {
                let k = choose|k: int| 0 <= k < rest.len() && rest[k] == other;
                assert(s[k] == other);
            }
        }
    }
}

/// Enabling a second time changes nothing.
pub proof fn law_enable_idempotent(s: Seq<ModId>, id: ModId)
    ensures
        enable_list(enable_list(s, id), id) == enable_list(s, id),
{
    if !s.contains(id) {
        assert(s.push(id)[s.len() as int] == id);
    }
}

/// Disabling a mod and enabling it again gives it back its place in the load
/// order: the order is as it was, and the mod is enabled.
pub proof fn law_reenable_keeps_order(enabled: Seq<ModId>, order: Seq<ModId>, id: ModId)
    requires
        order.contains(id),
    ensures
        enable_list(order, id) == order,
        enable_list(remove_all(enabled, id), id).contains(id),
{
    let r = remove_all(enabled, id);
    if !r.contains(id) {
        assert(r.push(id)[r.len() as int] == id);
    }
}

/// Enabling, disabling and moving keep a well-formed profile well formed: no
/// duplicates, and every enabled mod keeps a place in the load order.
pub proof fn law_profile_wf_preserved(enabled: Seq<ModId>, order: Seq<ModId>, id: ModId, up: bool)
    requires
        profile_wf(enabled, order),
    ensures
        profile_wf(enable_list(enabled, id), enable_list(order, id)),
        profile_wf(remove_all(enabled, id), order),
        profile_wf(enabled, move_list(order, id, up)),
{
    // enable
    let e2 = enable_list(enabled, id);
    let o2 = enable_list(order, id);
    assert(no_duplicates(e2)) by {
        if !enabled.contains(id) {
            assert forall|i: int, j: int| 0 <= i < j < e2.len() implies e2[i] != e2[j] by {
                if j == enabled.len() {
                    assert(enabled[i] != id);
                }
            }
        }
    }
    assert(no_duplicates(o2)) by {
        if !order.contains(id) {
            assert forall|i: int, j: int| 0 <= i < j < o2.len() implies o2[i] != o2[j] by {
                if j == order.len() {
                    assert(order[i] != id);
                }
            }
        }
    }
    assert forall|i: int| 0 <= i < e2.len() implies o2.contains(#[trigger] e2[i]) by {
        if i < enabled.len() {
            assert(order.contains(enabled[i]));
            let k = choose|k: int| 0 <= k < order.len() && order[k] == enabled[i];
            assert(o2[k] == enabled[i]);
        } else {
            if order.contains(id) {
            } else {
                assert(o2[order.len() as int] == id);
            }
        }
    }
    // disable
    lemma_remove_all(enabled, id);
    let e3 = remove_all(enabled, id);
    assert forall|i: int| 0 <= i < e3.len() implies order.contains(#[trigger] e3[i]) by {
        assert(e3.contains(e3[i]));
        assert(enabled.contains(e3[i]));
        let k = choose|k: int| 0 <= k < enabled.len() && enabled[k] == e3[i];
        assert(order.contains(enabled[k]));
    }
    // move
    let o4 = move_list(order, id, up);
    lemma_first_pos(order, id);
    match first_pos(order, id) {
        None => {},
        Some(p) => {
            let q = if up {
                p - 1
            } else {
                p + 1
            };
            if 0 <= q < order.len() {
                assert(o4 == swap_spec(order, p, q));
                assert forall|i: int, j: int| 0 <= i < j < o4.len() implies o4[i] != o4[j] by {
                    let si = if i == p {
                        q
                    } else if i == q {
                        p
                    } else {
                        i
                    };
                    let sj = if j == p {
                        q
                    } else if j == q {
                        p
                    } else {
                        j
                    };
                    assert(o4[i] == order[si] && o4[j] == order[sj]);
                }
                assert forall|i: int| 0 <= i < enabled.len() implies o4.contains(
                    #[trigger] enabled[i],
                ) by {
                    assert(order.contains(enabled[i]));
                    let k = choose|k: int| 0 <= k < order.len() && order[k] == enabled[i];
                    let sk = if k == p {
                        q
                    } else if k == q {
                        p
                    } else {
                        k
                    };
                    assert(o4[sk] == enabled[i]);
                }
            }
        },
    }
}

/// Moving a mod one step and back again restores a duplicate-free load order,
/// whenever the first step is possible.
pub proof fn law_move_round_trip(s: Seq<ModId>, id: ModId, up: bool)
    requires
        no_duplicates(s),
        match first_pos(s, id) {
            Some(p) => if up {
                p > 0
            } else {
                p + 1 < s.len()
            },
            None => false,
        },
    ensures
        move_list(move_list(s, id, up), id, !up) == s,
{
    lemma_first_pos(s, id);
    let p = first_pos(s, id)->Some_0;
    let q = if up {
        p - 1
    } else {
        p + 1
    };
    let t = swap_spec(s, p, q);
    assert(move_list(s, id, up) == t);
    assert(t[q] == id);
    assert forall|j: int| 0 <= j < q implies #[trigger] t[j] != id by {
        if j == p {
            assert(t[j] == s[q]);
            assert(s[q] != s[p]);
        } else {
            assert(t[j] == s[j]);
        }
    }
    lemma_first_pos_unique(t, id, q);
    assert(swap_spec(t, q, p) =~= s);
}

} // verus!

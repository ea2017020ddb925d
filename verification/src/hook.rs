//! What the hook injected into the game decides: which file an open is sent to.
//!
//! The hook reads `redirections.json` (target path to staged file) when it is
//! loaded, and on every file open looks for a target that the opened path ends
//! with, comparing with `/` separators and ASCII case folded.
use crate::patcher::{normalize_key_spec, redirect_key_spec};
use crate::text::{
    ascii_lower, chars_of, ends_with, has_suffix, join_spec, replace_char_spec, to_ascii_lowercase,
};
use vstd::prelude::*;

verus! {

/// One redirection: the lowercased target path and the staged file it opens.
pub type Redirect = (Seq<char>, Seq<char>);

/// Index of the redirection filed under `key`.
pub open spec fn key_index(t: Seq<Redirect>, key: Seq<char>) -> Option<int>
    decreases t.len(),
{
    if t.len() == 0 {
        None
    } else {
        match key_index(t.drop_last(), key) {
            Some(i) => Some(i),
            None => if t.last().0 == key {
                Some(t.len() - 1)
            } else {
                None
            },
        }
    }
}

/// The table after filing `value` under `key`: an entry already filed under
/// `key` takes the new value, otherwise the entry is added at the end.
pub open spec fn file_under(t: Seq<Redirect>, key: Seq<char>, value: Seq<char>) -> Seq<Redirect> {
    match key_index(t, key) {
        Some(i) => t.update(i, (key, value)),
        None => t.push((key, value)),
    }
}

/// The table built from the entries of the redirection file, in their order:
/// keys are lowercased, entries whose value is not text are skipped.
pub open spec fn table_spec(entries: Seq<(Seq<char>, Option<Seq<char>>)>) -> Seq<Redirect>
    decreases entries.len(),
{
    if entries.len() == 0 {
        Seq::empty()
    } else {
        let t = table_spec(entries.drop_last());
        match entries.last().1 {
            Some(v) => file_under(t, ascii_lower(entries.last().0), v),
            None => t,
        }
    }
}

/// Index of the last entry with text whose lowercased key is `key`.
pub open spec fn last_textual(entries: Seq<(Seq<char>, Option<Seq<char>>)>, key: Seq<char>) -> Option<
    int,
>
    decreases entries.len(),
{
    if entries.len() == 0 {
        None
    } else if entries.last().1 is Some && ascii_lower(entries.last().0) == key {
        Some(entries.len() - 1)
    } else {
        last_textual(entries.drop_last(), key)
    }
}

proof fn lemma_last_textual_bounds(entries: Seq<(Seq<char>, Option<Seq<char>>)>, key: Seq<char>)
    ensures
        last_textual(entries, key) matches Some(j) ==> 0 <= j < entries.len(),
    decreases entries.len(),
{
    if entries.len() > 0 {
        lemma_last_textual_bounds(entries.drop_last(), key);
    }
}

/// The table is a map from lowercased targets: no target is filed twice, every
/// target is lowercase, and each target an entry with text names maps to the
/// staged file of the last such entry for it.
pub proof fn law_redirection_table(entries: Seq<(Seq<char>, Option<Seq<char>>)>)
    ensures
        ({
            let t = table_spec(entries);
            &&& forall|i: int, j: int| 0 <= i < j < t.len() ==> #[trigger] t[i].0 != #[trigger] t[j].0
            &&& forall|i: int| 0 <= i < t.len() ==> ascii_lower((#[trigger] t[i]).0) == t[i].0
            &&& forall|key: Seq<char>|
                match #[trigger] last_textual(entries, key) {
                    Some(j) => key_index(t, key) matches Some(i) && t[i].1 == entries[j].1->Some_0,
                    None => key_index(t, key) is None,
                }
        }),
    decreases entries.len(),
{
    if entries.len() > 0 {
        let d = entries.drop_last();
        law_redirection_table(d);
        let t0 = table_spec(d);
        let t = table_spec(entries);
        match entries.last().1 {
            None => {
                assert(t == t0);
                assert forall|key: Seq<char>|
                    match #[trigger] last_textual(entries, key) {
                        Some(j) => key_index(t, key) matches Some(i) && t[i].1
                            == entries[j].1->Some_0,
                        None => key_index(t, key) is None,
                    } by {
                    assert(last_textual(entries, key) == last_textual(d, key));
                    lemma_last_textual_bounds(d, key);
                    if last_textual(d, key) is Some {
                        let j = last_textual(d, key)->Some_0;
                        assert(entries[j] == d[j]);
                    }
                }
            },
            Some(v) => {
                let k0 = ascii_lower(entries.last().0);
                lemma_ascii_lower_idem(entries.last().0);
                lemma_key_index(t0, k0);
                match key_index(t0, k0) {
                    Some(i0) => {
                        assert(t == t0.update(i0, (k0, v)));
                        assert forall|i: int| 0 <= i < t.len() implies #[trigger] t[i].0 == t0[i].0 by {}
                        assert forall|key: Seq<char>| #[trigger] key_index(t, key) == key_index(
                            t0,
                            key,
                        ) by {
                            lemma_key_index(t, key);
                            lemma_key_index(t0, key);
                            match key_index(t, key) {
                                Some(a) => {
                                    match key_index(t0, key) {
                                        Some(b) => {
                                            if a < b {
                                                assert(t0[a].0 == key);
                                            } else if b < a {
                                                assert(t[b].0 == key);
                                            }
                                        },
                                        None => {
                                            assert(t0[a].0 == key);
                                        },
                                    }
                                },
                                None => {
                                    if key_index(t0, key) is Some {
                                        let b = key_index(t0, key)->Some_0;
                                        assert(t[b].0 == key);
                                    }
                                },
                            }
                        }
                        assert forall|key: Seq<char>|
                            match #[trigger] last_textual(entries, key) {
                                Some(j) => key_index(t, key) matches Some(i) && t[i].1
                                    == entries[j].1->Some_0,
                                None => key_index(t, key) is None,
                            } by {
                            assert(key_index(t, key) == key_index(t0, key));
                            if key != k0 {
                                assert(last_textual(entries, key) == last_textual(d, key));
                                match last_textual(d, key) {
                                    Some(j) => {
                                        lemma_last_textual_bounds(d, key);
                                        lemma_key_index(t0, key);
                                        let i = key_index(t0, key)->Some_0;
                                        assert(i != i0);
                                        assert(entries[j] == d[j]);
                                    },
                                    None => {},
                                }
                            }
                        }
                    },
                    None => {
                        assert(t == t0.push((k0, v)));
                        assert forall|key: Seq<char>| #[trigger]
                            key_index(t, key) == (match key_index(t0, key) {
                                Some(i) => Some(i),
                                None => if t.last().0 == key {
                                    Some(t0.len() as int)
                                } else {
                                    None
                                },
                            }) by {
                            assert(t.drop_last() =~= t0);
                        }
                        assert forall|i: int, j: int| 0 <= i < j < t.len() implies #[trigger] t[i].0
                            != #[trigger] t[j].0 by {
                            if j == t.len() - 1 {
                                assert(t0[i].0 != k0);
                            } else {
                                assert(t0[i].0 != t0[j].0);
                            }
                        }
                        assert forall|key: Seq<char>|
                            match #[trigger] last_textual(entries, key) {
                                Some(j) => key_index(t, key) matches Some(i) && t[i].1
                                    == entries[j].1->Some_0,
                                None => key_index(t, key) is None,
                            } by {
                            if key != k0 {
                                assert(last_textual(entries, key) == last_textual(d, key));
                                match last_textual(d, key) {
                                    Some(j) => {
                                        lemma_last_textual_bounds(d, key);
                                        lemma_key_index(t0, key);
                                        assert(entries[j] == d[j]);
                                    },
                                    None => {},
                                }
                            }
                        }
                    },
                }
            },
        }
    }
}

proof fn lemma_ascii_lower_idem(s: Seq<char>)
    ensures
        ascii_lower(ascii_lower(s)) == ascii_lower(s),
{
    crate::text::lemma_ascii_lower_idempotent(s);
}

pub open spec fn entries_view(v: Seq<(String, Option<String>)>) -> Seq<(Seq<char>, Option<Seq<char>>)> {
    Seq::new(
        v.len(),
        |i: int|
            (
                v[i].0@,
                match v[i].1 {
                    Some(s) => Some(s@),
                    None => None,
                },
            ),
    )
}

pub open spec fn table_view(v: Seq<(String, String)>) -> Seq<Redirect> {
    Seq::new(v.len(), |i: int| (v[i].0@, v[i].1@))
}

proof fn lemma_key_index(t: Seq<Redirect>, key: Seq<char>)
    ensures
        match key_index(t, key) {
            Some(i) => 0 <= i < t.len() && t[i].0 == key,
            None => forall|j: int| 0 <= j < t.len() ==> t[j].0 != key,
        },
    decreases t.len(),
{
    if t.len() > 0 {
        lemma_key_index(t.drop_last(), key);
        assert forall|j: int| 0 <= j < t.len() - 1 implies #[trigger] t[j] == t.drop_last()[j] by {}
    }
}

proof fn lemma_key_index_prefix(t: Seq<Redirect>, key: Seq<char>, k: int)
    requires
        0 <= k <= t.len(),
        key_index(t.take(k), key) is Some,
    ensures
        key_index(t, key) == key_index(t.take(k), key),
    decreases t.len() - k,
{
    if k < t.len() {
        assert(t.take(k + 1).drop_last() =~= t.take(k));
        lemma_key_index_prefix(t, key, k + 1);
    } else {
        assert(t.take(k) =~= t);
    }
}

fn key_index_exec(table: &Vec<(String, String)>, key: &String) -> (r: Option<usize>)
    ensures
        match r {
            Some(i) => key_index(table_view(table@), key@) == Some(i as int),
            None => key_index(table_view(table@), key@) is None,
        },
{
    let ghost t = table_view(table@);
    let mut i: usize = 0;
    assert(t.take(0) =~= Seq::<Redirect>::empty());
    while i < table.len()
        invariant
            t == table_view(table@),
            i <= table@.len(),
            key_index(t.take(i as int), key@) is None,
        decreases table@.len() - i,
    {
        assert(t.take(i + 1).drop_last() =~= t.take(i as int));
        if table[i].0 == *key {
            proof {
                lemma_key_index_prefix(t, key@, i + 1);
            }
            return Some(i);
        }
        i += 1;
    }
    assert(t.take(i as int) =~= t);
    None
}

/// The redirection table the hook builds from the entries of its
/// configuration file, in file order. Each target is lowercased; an entry whose
/// value is not a string is skipped; a later entry for the same lowercased
/// target replaces the earlier one's staged file.
pub fn redirection_table(entries: &Vec<(String, Option<String>)>) -> (table: Vec<(String, String)>)
    ensures
        table_view(table@) == table_spec(entries_view(entries@)),
{
    let ghost es = entries_view(entries@);
    let mut table: Vec<(String, String)> = Vec::new();
    let mut i: usize = 0;
    assert(es.take(0) =~= Seq::<(Seq<char>, Option<Seq<char>>)>::empty());
    while i < entries.len()
        invariant
            es == entries_view(entries@),
            i <= entries@.len(),
            table_view(table@) == table_spec(es.take(i as int)),
        decreases entries@.len() - i,
    {
        assert(es.take(i + 1).drop_last() =~= es.take(i as int));
        let entry = &entries[i];
        match &entry.1 {
            Some(value) => {
                let key = to_ascii_lowercase(entry.0.as_str());
                let ghost t = table_view(table@);
                proof {
                    lemma_key_index(t, key@);
                }
                match key_index_exec(&table, &key) {
                    Some(at) => {
                        table.set(at, (key, value.clone()));
                        assert(table_view(table@) =~= t.update(at as int, (key@, value@)));
                    },
                    None => {
                        table.push((key, value.clone()));
                        assert(table_view(table@) =~= t.push((key@, value@)));
                    },
                }
            },
            None => {},
        }
        i += 1;
    }
    assert(es.take(i as int) =~= es);
    table
}

/// File `target` under `key` in a redirection table: an entry already filed
/// under `key` takes the new target, otherwise the entry is added at the end.
pub fn file_redirect(table: &mut Vec<(String, String)>, key: String, target: String)
    ensures
        table_view(final(table)@) == file_under(table_view(old(table)@), key@, target@),
{
    let ghost t = table_view(table@);
    proof {
        lemma_key_index(t, key@);
    }
    match key_index_exec(table, &key) {
        Some(at) => {
            let ghost k = key@;
            let ghost v = target@;
            table.set(at, (key, target));
            assert(table_view(table@) =~= t.update(at as int, (k, v)));
        },
        None => {
            let ghost k = key@;
            let ghost v = target@;
            table.push((key, target));
            assert(table_view(table@) =~= t.push((k, v)));
        },
    }
}

/// An opened path as the hook compares it: backslashes turned into slashes,
/// ASCII-lowercased.
pub open spec fn opened_key(path: Seq<char>) -> Seq<char> {
    ascii_lower(replace_char_spec(path, '\\', '/'))
}

/// Index of the first redirection whose target the path ends with.
pub open spec fn first_suffix(t: Seq<Redirect>, path: Seq<char>) -> Option<int>
    decreases t.len(),
{
    if t.len() == 0 {
        None
    } else {
        match first_suffix(t.drop_last(), path) {
            Some(i) => Some(i),
            None => if has_suffix(path, t.last().0) {
                Some(t.len() - 1)
            } else {
                None
            },
        }
    }
}

/// The hook redirects an open to the first entry of its table whose key the
/// opened path ends with, and leaves the open alone only when no key matches.
pub proof fn law_redirect_picks_the_first_matching_entry(t: Seq<Redirect>, path: Seq<char>)
    ensures
        match first_suffix(t, path) {
            Some(i) => 0 <= i < t.len() && has_suffix(path, t[i].0) && forall|j: int|
                0 <= j < i ==> !has_suffix(path, #[trigger] t[j].0),
            None => forall|j: int| 0 <= j < t.len() ==> !has_suffix(path, #[trigger] t[j].0),
        },
    decreases t.len(),
{
    if t.len() > 0 {
        law_redirect_picks_the_first_matching_entry(t.drop_last(), path);
        assert forall|j: int| 0 <= j < t.len() - 1 implies #[trigger] t[j] == t.drop_last()[j] by {}
    }
}

proof fn lemma_first_suffix_prefix(t: Seq<Redirect>, path: Seq<char>, k: int)
    requires
        0 <= k <= t.len(),
        first_suffix(t.take(k), path) is Some,
    ensures
        first_suffix(t, path) == first_suffix(t.take(k), path),
    decreases t.len() - k,
{
    if k < t.len() {
        assert(t.take(k + 1).drop_last() =~= t.take(k));
        lemma_first_suffix_prefix(t, path, k + 1);
    } else {
        assert(t.take(k) =~= t);
    }
}

/// Where the hook sends an open of `path`: the staged file of the first
/// redirection whose target the opened path ends with, compared with `/`
/// separators and ASCII case folded; `None` leaves the open as it was.
pub fn redirect_target(table: &Vec<(String, String)>, path: &str) -> (r: Option<String>)
    ensures
        match first_suffix(table_view(table@), opened_key(path@)) {
            Some(i) => r matches Some(s) && s@ == table@[i].1@,
            None => r is None,
        },
{
    let ghost t = table_view(table@);
    let slashed = crate::text::replace_char(path, '\\', '/');
    let mut lowered: Vec<char> = Vec::new();
    let mut k: usize = 0;
    while k < slashed.len()
        invariant
            k <= slashed@.len(),
            lowered@ == ascii_lower(slashed@).take(k as int),
        decreases slashed@.len() - k,
    {
        lowered.push(crate::text::lower_char(slashed[k]));
        k += 1;
        assert(lowered@ =~= ascii_lower(slashed@).take(k as int));
    }
    assert(ascii_lower(slashed@).take(k as int) =~= ascii_lower(slashed@));
    let ghost key = opened_key(path@);
    assert(lowered@ == key);
    let mut i: usize = 0;
    assert(t.take(0) =~= Seq::<Redirect>::empty());
    while i < table.len()
        invariant
            t == table_view(table@),
            key == opened_key(path@),
            lowered@ == key,
            i <= table@.len(),
            first_suffix(t.take(i as int), key) is None,
        decreases table@.len() - i,
    {
        assert(t.take(i + 1).drop_last() =~= t.take(i as int));
        let target = chars_of(table[i].0.as_str());
        if ends_with(lowered.as_slice(), target.as_slice()) {
            proof {
                assert(t.take(i + 1).last() == t[i as int]);
                assert(first_suffix(t.take(i + 1), key) == Some(i as int));
                lemma_first_suffix_prefix(t, key, i + 1);
            }
            return Some(table[i].1.clone());
        }
        i += 1;
    }
    assert(t.take(i as int) =~= t);
    None
}


// ---------------------------------------------------------------------------
// Staged keys and the opens they catch
// ---------------------------------------------------------------------------

proof fn lemma_opened_key_concat(a: Seq<char>, b: Seq<char>)
    ensures
        opened_key(a + b) == opened_key(a) + opened_key(b),
{
    assert(opened_key(a + b) =~= opened_key(a) + opened_key(b));
}

proof fn lemma_join_split(p: Seq<Seq<char>>, q: Seq<Seq<char>>, sep: Seq<char>)
    requires
        p.len() > 0,
        q.len() > 0,
    ensures
        join_spec(p + q, sep) == join_spec(p, sep) + sep + join_spec(q, sep),
    decreases q.len(),
{
    if q.len() == 1 {
        assert((p + q).drop_last() =~= p);
        assert((p + q).last() == q[0]);
    } else {
        let d = q.drop_last();
        lemma_join_split(p, d, sep);
        assert((p + q).drop_last() =~= p + d);
        assert((p + q).last() == q.last());
        assert(join_spec(p + q, sep) =~= join_spec(p, sep) + sep + join_spec(q, sep));
    }
}

proof fn lemma_join_any_separator(q: Seq<Seq<char>>, sep: Seq<char>)
    requires
        sep == "/"@ || sep == "\\"@,
    ensures
        opened_key(join_spec(q, sep)) == opened_key(join_spec(q, "/"@)),
    decreases q.len(),
{
    reveal_strlit("/");
    reveal_strlit("\\");
    if q.len() > 1 {
        let d = q.drop_last();
        lemma_join_any_separator(d, sep);
        lemma_opened_key_concat(join_spec(d, sep) + sep, q.last());
        lemma_opened_key_concat(join_spec(d, sep), sep);
        lemma_opened_key_concat(join_spec(d, "/"@) + "/"@, q.last());
        lemma_opened_key_concat(join_spec(d, "/"@), "/"@);
        assert(opened_key(sep) =~= opened_key("/"@));
    }
}

proof fn lemma_first_suffix_found(t: Seq<Redirect>, path: Seq<char>, m: int)
    requires
        0 <= m < t.len(),
        has_suffix(path, t[m].0),
    ensures
        first_suffix(t, path) is Some,
{
    law_redirect_picks_the_first_matching_entry(t, path);
}

/// The key staging files a patched archive under is caught by the hook
/// whichever way the game opens the archive: by its full path below the League
/// root (`<root>/Game/<rest>`) or relative to `Game` (`<rest>`), with `/` or
/// `\\` between components and in any ASCII case. So when the hook's table holds
/// that key, both opens are redirected.
pub proof fn law_staged_key_catches_game_opens(
    table: Seq<Redirect>,
    root: Seq<Seq<char>>,
    rest: Seq<Seq<char>>,
    sep: Seq<char>,
    m: int,
)
    requires
        rest.len() > 0,
        sep == "/"@ || sep == "\\"@,
        0 <= m < table.len(),
        table[m].0 == redirect_key_spec(root, root.push("Game"@) + rest),
    ensures
        has_suffix(
            opened_key(join_spec(root.push("Game"@) + rest, sep)),
            redirect_key_spec(root, root.push("Game"@) + rest),
        ),
        has_suffix(
            opened_key(join_spec(rest, sep)),
            redirect_key_spec(root, root.push("Game"@) + rest),
        ),
        first_suffix(table, opened_key(join_spec(root.push("Game"@) + rest, sep))) is Some,
        first_suffix(table, opened_key(join_spec(rest, sep))) is Some,
{
    let game = root.push("Game"@);
    let wad = game + rest;
    assert(wad.take(game.len() as int) =~= game);
    assert(wad.skip(game.len() as int) =~= rest);
    let key = redirect_key_spec(root, wad);
    assert(key == normalize_key_spec(join_spec(rest, "/"@)));
    assert(normalize_key_spec(join_spec(rest, "/"@)) == opened_key(join_spec(rest, "/"@)));
    lemma_join_any_separator(rest, sep);
    let r = opened_key(join_spec(rest, sep));
    assert(r == key);
    assert(has_suffix(r, key)) by {
        assert(r.subrange(0, r.len() as int) =~= r);
    }
    lemma_join_split(game, rest, sep);
    lemma_opened_key_concat(join_spec(game, sep) + sep, join_spec(rest, sep));
    let whole = opened_key(join_spec(wad, sep));
    let front = opened_key(join_spec(game, sep) + sep);
    assert(whole == front + r);
    assert(has_suffix(whole, key)) by {
        assert(whole.subrange(whole.len() - key.len(), whole.len() as int) =~= r);
    }
    lemma_first_suffix_found(table, whole, m);
    lemma_first_suffix_found(table, r, m);
}

} // verus!

//! Policy warnings for manifests. The policy warns; it never blocks.
use crate::manifest::ModManifest;
use crate::text::{ascii_lower, ascii_text, chars_of, contains, contains_spec, join, join_spec, strings_view};
use vstd::prelude::*;

verus! {

#[derive(Debug, Clone, Copy, PartialEq, Eq, Structural)]
pub enum PolicyRisk {
    Low,
    Medium,
    High,
}

#[derive(Debug, Clone, PartialEq, Eq)]
pub struct PolicyAssessment {
    pub risk: PolicyRisk,
    pub warnings: Vec<String>,
}

/// What `str::to_lowercase` makes of `s` (Unicode lowercase mapping).
pub uninterp spec fn unicode_lowercase(s: Seq<char>) -> Seq<char>;

/// `str::to_lowercase`: the Unicode lowercase mapping, which on ASCII text
/// maps `A`-`Z` to `a`-`z` and leaves every other character alone.
#[verifier::external_body]
fn to_lowercase(s: &str) -> (r: String)
    ensures
        r@ == unicode_lowercase(s@),
        ascii_text(s@) ==> r@ == ascii_lower(s@),
{
    s.to_lowercase()
}

pub open spec fn premium_terms() -> Seq<Seq<char>> {
    seq!["paid"@, "prestige"@, "mythic"@, "ultimate"@]
}

pub open spec fn gameplay_terms() -> Seq<Seq<char>> {
    seq!["zoom"@, "maphack"@, "hitbox"@, "visibility"@, "competitive"@]
}

pub open spec fn mentions_any(text: Seq<char>, terms: Seq<Seq<char>>) -> bool {
    exists|i: int| 0 <= i < terms.len() && contains_spec(text, #[trigger] terms[i])
}

pub open spec fn premium_warning() -> Seq<char> {
    "This mod may replicate paid or premium cosmetic content. Review Riot policy before use."@
}

pub open spec fn gameplay_warning() -> Seq<char> {
    "This mod may affect competitive visibility or gameplay information."@
}

pub open spec fn size_warning() -> Seq<char> {
    "Large asset count; patching may be slow or fragile."@
}

/// The warnings for a lowercased searchable text and an asset count.
pub open spec fn policy_warnings(text: Seq<char>, asset_count: int) -> Seq<Seq<char>> {
    let w = (if mentions_any(text, premium_terms()) {
        seq![premium_warning()]
    } else {
        Seq::empty()
    }) + (if mentions_any(text, gameplay_terms()) {
        seq![gameplay_warning()]
    } else {
        Seq::empty()
    });
    if w.len() == 0 && asset_count > 1000 {
        seq![size_warning()]
    } else {
        w
    }
}

/// Whether the text holds a gameplay term: zoom, maphack, hitbox, visibility or
/// competitive.
pub open spec fn has_gameplay_word(text: Seq<char>) -> bool {
    contains_spec(text, "zoom"@) || contains_spec(text, "maphack"@) || contains_spec(text, "hitbox"@)
        || contains_spec(text, "visibility"@) || contains_spec(text, "competitive"@)
}

/// Whether the text holds a premium term: paid, prestige, mythic or ultimate.
pub open spec fn has_premium_word(text: Seq<char>) -> bool {
    contains_spec(text, "paid"@) || contains_spec(text, "prestige"@) || contains_spec(text, "mythic"@)
        || contains_spec(text, "ultimate"@)
}

/// Each kind of term is judged on its own: a text with a gameplay term is high
/// risk and carries the gameplay warning whatever premium terms it also has, and
/// a text with a premium term is high risk and carries the premium warning
/// whatever gameplay terms it has; a text without gameplay terms carries no
/// gameplay warning, and one without premium terms no premium warning.
pub proof fn law_each_kind_of_term_warns(text: Seq<char>, asset_count: int)
    ensures
        has_gameplay_word(text) ==> policy_risk(text, asset_count) == PolicyRisk::High,
        has_gameplay_word(text) ==> policy_warnings(text, asset_count).contains(
            "This mod may affect competitive visibility or gameplay information."@,
        ),
        has_premium_word(text) ==> policy_risk(text, asset_count) == PolicyRisk::High,
        has_premium_word(text) ==> policy_warnings(text, asset_count).contains(
            "This mod may replicate paid or premium cosmetic content. Review Riot policy before use."@,
        ),
        !has_gameplay_word(text) ==> !policy_warnings(text, asset_count).contains(
            "This mod may affect competitive visibility or gameplay information."@,
        ),
        !has_premium_word(text) ==> !policy_warnings(text, asset_count).contains(
            "This mod may replicate paid or premium cosmetic content. Review Riot policy before use."@,
        ),
{
    reveal_strlit("This mod may affect competitive visibility or gameplay information.");
    reveal_strlit("This mod may replicate paid or premium cosmetic content. Review Riot policy before use.");
    reveal_strlit("Large asset count; patching may be slow or fragile.");
    let g = gameplay_terms();
    let p = premium_terms();
    assert(has_gameplay_word(text) <==> mentions_any(text, g)) by {
        if has_gameplay_word(text) {
            if contains_spec(text, "zoom"@) { assert(contains_spec(text, g[0])); }
            if contains_spec(text, "maphack"@) { assert(contains_spec(text, g[1])); }
            if contains_spec(text, "hitbox"@) { assert(contains_spec(text, g[2])); }
            if contains_spec(text, "visibility"@) { assert(contains_spec(text, g[3])); }
            if contains_spec(text, "competitive"@) { assert(contains_spec(text, g[4])); }
        }
        if mentions_any(text, g) {
            let i = choose|i: int| 0 <= i < g.len() && contains_spec(text, #[trigger] g[i]);
            assert(i == 0 || i == 1 || i == 2 || i == 3 || i == 4);
        }
    }
    assert(has_premium_word(text) <==> mentions_any(text, p)) by {
        if has_premium_word(text) {
            if contains_spec(text, "paid"@) { assert(contains_spec(text, p[0])); }
            if contains_spec(text, "prestige"@) { assert(contains_spec(text, p[1])); }
            if contains_spec(text, "mythic"@) { assert(contains_spec(text, p[2])); }
            if contains_spec(text, "ultimate"@) { assert(contains_spec(text, p[3])); }
        }
        if mentions_any(text, p) {
            let i = choose|i: int| 0 <= i < p.len() && contains_spec(text, #[trigger] p[i]);
            assert(i == 0 || i == 1 || i == 2 || i == 3);
        }
    }
    let w = policy_warnings(text, asset_count);
    assert(premium_warning().len() != gameplay_warning().len());
    assert(size_warning().len() != gameplay_warning().len());
    assert(size_warning().len() != premium_warning().len());
    if has_gameplay_word(text) {
        assert(w.last() == gameplay_warning());
    }
    if has_premium_word(text) {
        assert(w[0] == premium_warning());
    }
    if !has_gameplay_word(text) {
        assert forall|k: int| 0 <= k < w.len() implies w[k] != gameplay_warning() by {
            assert(w[k] == premium_warning() || w[k] == size_warning());
        }
    }
    if !has_premium_word(text) {
        assert forall|k: int| 0 <= k < w.len() implies w[k] != premium_warning() by {
            assert(w[k] == gameplay_warning() || w[k] == size_warning());
        }
    }
}

/// The risk for a lowercased searchable text and an asset count.
pub open spec fn policy_risk(text: Seq<char>, asset_count: int) -> PolicyRisk {
    if mentions_any(text, premium_terms()) || mentions_any(text, gameplay_terms()) {
        PolicyRisk::High
    } else if asset_count > 1000 {
        PolicyRisk::Medium
    } else {
        PolicyRisk::Low
    }
}

/// The text the policy searches: name, description and tags joined by spaces.
pub open spec fn searchable_text(m: ModManifest) -> Seq<char> {
    m.name@ + " "@ + m.description@ + " "@ + join_spec(strings_view(m.tags@), " "@)
}

fn mentions_any_exec(text: &[char], terms: &Vec<Vec<char>>) -> (b: bool)
    ensures
        b == exists|i: int| 0 <= i < terms@.len() && contains_spec(text@, #[trigger] terms@[i]@),
{
    let mut i: usize = 0;
    while i < terms.len()
        invariant
            i <= terms@.len(),
            forall|j: int| 0 <= j < i ==> !contains_spec(text@, #[trigger] terms@[j]@),
        decreases terms@.len() - i,
    {
        if contains(text, terms[i].as_slice()) {
            return true;
        }
        i += 1;
    }
    false
}

fn term_list(a: &str, b: &str, c: &str, d: &str) -> (v: Vec<Vec<char>>)
    ensures
        v@.len() == 4,
        v@[0]@ == a@ && v@[1]@ == b@ && v@[2]@ == c@ && v@[3]@ == d@,
{
    let mut v: Vec<Vec<char>> = Vec::new();
    v.push(chars_of(a));
    v.push(chars_of(b));
    v.push(chars_of(c));
    v.push(chars_of(d));
    v
}

/// Assess an already lowercased searchable text and an asset count: premium
/// terms and gameplay terms each raise the risk to high with a warning; with no
/// such warning, more than 1000 assets make it medium.
pub fn assess_lowercased(text: &str, asset_count: usize) -> (a: PolicyAssessment)
    ensures
        a.risk == policy_risk(text@, asset_count as int),
        strings_view(a.warnings@) == policy_warnings(text@, asset_count as int),
{
    let chars = chars_of(text);
    let premium = term_list("paid", "prestige", "mythic", "ultimate");
    let mut gameplay = term_list("zoom", "maphack", "hitbox", "visibility");
    gameplay.push(chars_of("competitive"));
    let mut warnings: Vec<String> = Vec::new();
    let mut risk = PolicyRisk::Low;
    let has_premium = mentions_any_exec(chars.as_slice(), &premium);
    proof {
        assert(has_premium == mentions_any(text@, premium_terms())) by {
            if has_premium {
                let i = choose|i: int|
                    0 <= i < premium@.len() && contains_spec(text@, #[trigger] premium@[i]@);
                assert(premium_terms()[i] == premium@[i]@);
            }
            if mentions_any(text@, premium_terms()) {
                let i = choose|i: int|
                    0 <= i < premium_terms().len() && contains_spec(
                        text@,
                        #[trigger] premium_terms()[i],
                    );
                assert(premium_terms()[i] == premium@[i]@);
            }
        }
    }
    if has_premium {
        risk = PolicyRisk::High;
        warnings.push(
            String::from_str(
                "This mod may replicate paid or premium cosmetic content. Review Riot policy before use.",
            ),
        );
    }
    let has_gameplay = mentions_any_exec(chars.as_slice(), &gameplay);
    proof {
        assert(has_gameplay == mentions_any(text@, gameplay_terms())) by {
            if has_gameplay {
                let i = choose|i: int|
                    0 <= i < gameplay@.len() && contains_spec(text@, #[trigger] gameplay@[i]@);
                assert(gameplay_terms()[i] == gameplay@[i]@);
            }
            if mentions_any(text@, gameplay_terms()) {
                let i = choose|i: int|
                    0 <= i < gameplay_terms().len() && contains_spec(
                        text@,
                        #[trigger] gameplay_terms()[i],
                    );
                assert(gameplay_terms()[i] == gameplay@[i]@);
            }
        }
    }
    if has_gameplay {
        risk = PolicyRisk::High;
        let ghost prev = warnings@;
        warnings.push(
            String::from_str("This mod may affect competitive visibility or gameplay information."),
        );
    }
    if warnings.len() == 0 && asset_count > 1000 {
        risk = PolicyRisk::Medium;
        warnings.push(String::from_str("Large asset count; patching may be slow or fragile."));
    }
    let a = PolicyAssessment { risk, warnings };
    assert(strings_view(a.warnings@) =~= policy_warnings(text@, asset_count as int));
    a
}

/// Assess a manifest: its name, description and tags, joined by spaces and
/// lowercased, are searched for premium and gameplay terms. For ASCII text the
/// lowercasing is ASCII lowercasing.
pub fn assess_manifest_policy(manifest: &ModManifest) -> (a: PolicyAssessment)
    ensures
        ascii_text(searchable_text(*manifest)) ==> a.risk == policy_risk(
            ascii_lower(searchable_text(*manifest)),
            manifest.assets@.len() as int,
        ),
        ascii_text(searchable_text(*manifest)) ==> strings_view(a.warnings@) == policy_warnings(
            ascii_lower(searchable_text(*manifest)),
            manifest.assets@.len() as int,
        ),
        a.risk == policy_risk(
            unicode_lowercase(searchable_text(*manifest)),
            manifest.assets@.len() as int,
        ),
        strings_view(a.warnings@) == policy_warnings(
            unicode_lowercase(searchable_text(*manifest)),
            manifest.assets@.len() as int,
        ),
{
    let mut searchable = manifest.name.clone();
    searchable.append(" ");
    searchable.append(manifest.description.as_str());
    searchable.append(" ");
    let tags = join(&manifest.tags, " ");
    searchable.append(tags.as_str());
    let lowered = to_lowercase(searchable.as_str());
    assess_lowercased(lowered.as_str(), manifest.assets.len())
}

} // verus!

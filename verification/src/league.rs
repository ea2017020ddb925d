//! Where League of Legends may be installed, and which of those places hold it.
use crate::manifest::opt_view;
use crate::storage::{joined, lemma_long_name_is_plain, path_join};
use vstd::prelude::*;

verus! {

/// A League installation: its root folder, the client executable in it, and
/// the setting that pointed there.
#[derive(Debug, Clone, PartialEq, Eq)]
pub struct LeagueInstallation {
    pub root: String,
    pub game_executable: String,
    pub source: String,
}

/// Root, executable and source, as text.
pub type InstallView = (Seq<char>, Seq<char>, Seq<char>);

impl View for LeagueInstallation {
    type V = InstallView;

    open spec fn view(&self) -> InstallView {
        (self.root@, self.game_executable@, self.source@)
    }
}

pub open spec fn installs_view(v: Seq<LeagueInstallation>) -> Seq<InstallView> {
    Seq::new(v.len(), |i: int| v[i]@)
}

/// The settings looked at, in order, each with the value it had, if any.
pub open spec fn candidate_sources(
    riot_games_path: Option<Seq<char>>,
    program_files: Option<Seq<char>>,
    program_files_x86: Option<Seq<char>>,
) -> Seq<(Seq<char>, Seq<char>)> {
    let a: Seq<(Seq<char>, Seq<char>)> = match riot_games_path {
        Some(v) => seq![("RIOT_GAMES_PATH"@, v)],
        None => Seq::empty(),
    };
    let b: Seq<(Seq<char>, Seq<char>)> = match program_files {
        Some(v) => seq![("ProgramFiles"@, v)],
        None => Seq::empty(),
    };
    let c: Seq<(Seq<char>, Seq<char>)> = match program_files_x86 {
        Some(v) => seq![("ProgramFiles(x86)"@, v)],
        None => Seq::empty(),
    };
    a + b + c
}

/// How many of the settings have a value.
pub open spec fn settings_with_value(
    riot_games_path: Option<Seq<char>>,
    program_files: Option<Seq<char>>,
    program_files_x86: Option<Seq<char>>,
) -> nat {
    (if riot_games_path is Some { 1nat } else { 0nat }) + (if program_files is Some {
        1nat
    } else {
        0nat
    }) + (if program_files_x86 is Some { 1nat } else { 0nat })
}

/// Each setting that has a value gives exactly one place to look, under its own
/// name and with its own value, in the order `RIOT_GAMES_PATH`, `ProgramFiles`,
/// `ProgramFiles(x86)`; a setting without a value gives none.
pub proof fn law_one_candidate_per_setting(
    riot_games_path: Option<Seq<char>>,
    program_files: Option<Seq<char>>,
    program_files_x86: Option<Seq<char>>,
)
    ensures
        ({
            let s = candidate_sources(riot_games_path, program_files, program_files_x86);
            let before_pf: int = if riot_games_path is Some { 1 } else { 0 };
            &&& s.len() == settings_with_value(riot_games_path, program_files, program_files_x86)
            &&& riot_games_path matches Some(v) ==> s[0] == ("RIOT_GAMES_PATH"@, v)
            &&& program_files matches Some(v) ==> s[before_pf] == ("ProgramFiles"@, v)
            &&& program_files_x86 matches Some(v) ==> s[s.len() - 1] == ("ProgramFiles(x86)"@, v)
        }),
{
}

/// Whether `c` is the candidate for a setting with value `value`: under
/// `RIOT_GAMES_PATH` the root is `League of Legends` in that folder, under the
/// program-files settings it is `Riot Games/League of Legends`; the client is
/// `LeagueClient.exe` in the root.
pub open spec fn candidate_for(c: InstallView, source: Seq<char>, value: Seq<char>) -> bool {
    &&& c.2 == source
    &&& if source == "RIOT_GAMES_PATH"@ {
        joined(c.0, value, "League of Legends"@)
    } else {
        exists|games: Seq<char>|
            joined(games, value, "Riot Games"@) && joined(c.0, games, "League of Legends"@)
    }
    &&& joined(c.1, c.0, "LeagueClient.exe"@)
}

fn candidate(source: &str, root: String) -> (c: LeagueInstallation)
    ensures
        c.source@ == source@,
        c.root@ == root@,
        joined(c.game_executable@, root@, "LeagueClient.exe"@),
{
    proof {
        reveal_strlit("LeagueClient.exe");
        lemma_long_name_is_plain("LeagueClient.exe"@);
    }
    let game_executable = path_join(root.as_str(), "LeagueClient.exe");
    LeagueInstallation { root, game_executable, source: source.to_string() }
}

fn under_program_files(value: &str) -> (root: String)
    ensures
        exists|games: Seq<char>|
            joined(games, value@, "Riot Games"@) && joined(root@, games, "League of Legends"@),
{
    proof {
        reveal_strlit("Riot Games");
        reveal_strlit("League of Legends");
        lemma_long_name_is_plain("Riot Games"@);
        lemma_long_name_is_plain("League of Legends"@);
    }
    let games = path_join(value, "Riot Games");
    let root = path_join(games.as_str(), "League of Legends");
    assert(joined(games@, value@, "Riot Games"@) && joined(root@, games@, "League of Legends"@));
    root
}

/// The places an installation may be, from the values of `RIOT_GAMES_PATH`,
/// `ProgramFiles` and `ProgramFiles(x86)`, in that order, one for each setting
/// that has a value.
pub fn installation_candidates(
    riot_games_path: Option<String>,
    program_files: Option<String>,
    program_files_x86: Option<String>,
) -> (c: Vec<LeagueInstallation>)
    ensures
        ({
            let s = candidate_sources(
                opt_view(riot_games_path),
                opt_view(program_files),
                opt_view(program_files_x86),
            );
            &&& c@.len() == s.len()
            &&& forall|i: int| 0 <= i < s.len() ==> candidate_for(#[trigger] c@[i]@, s[i].0, s[i].1)
        }),
        c@.len() == settings_with_value(
            opt_view(riot_games_path),
            opt_view(program_files),
            opt_view(program_files_x86),
        ),
        program_files matches Some(v) ==> ({
            let k: int = if riot_games_path is Some { 1 } else { 0 };
            &&& c@[k].source@ == "ProgramFiles"@
            &&& exists|games: Seq<char>|
                joined(games, v@, "Riot Games"@) && joined(c@[k].root@, games, "League of Legends"@)
        }),
{
    proof {
        reveal_strlit("RIOT_GAMES_PATH");
        reveal_strlit("ProgramFiles");
        reveal_strlit("ProgramFiles(x86)");
        reveal_strlit("League of Legends");
        lemma_long_name_is_plain("League of Legends"@);
    }
    let ghost s = candidate_sources(
        opt_view(riot_games_path),
        opt_view(program_files),
        opt_view(program_files_x86),
    );
    let mut c: Vec<LeagueInstallation> = Vec::new();
    match &riot_games_path {
        Some(v) => {
            let root = path_join(v.as_str(), "League of Legends");
            c.push(candidate("RIOT_GAMES_PATH", root));
        },
        None => {},
    }
    let ghost first = c@;
    match &program_files {
        Some(v) => {
            let root = under_program_files(v.as_str());
            c.push(candidate("ProgramFiles", root));
        },
        None => {},
    }
    let ghost second = c@;
    match &program_files_x86 {
        Some(v) => {
            let root = under_program_files(v.as_str());
            c.push(candidate("ProgramFiles(x86)", root));
        },
        None => {},
    }
    assert(c@.len() == s.len());
    proof {
        law_one_candidate_per_setting(
            opt_view(riot_games_path),
            opt_view(program_files),
            opt_view(program_files_x86),
        );
    }
    assert forall|i: int| 0 <= i < s.len() implies candidate_for(#[trigger] c@[i]@, s[i].0, s[i].1) by {
        reveal_strlit("RIOT_GAMES_PATH");
        reveal_strlit("ProgramFiles");
        reveal_strlit("ProgramFiles(x86)");
        assert("ProgramFiles"@.len() != "RIOT_GAMES_PATH"@.len());
        assert("ProgramFiles(x86)"@[0] != "RIOT_GAMES_PATH"@[0]);
    }
    c
}

/// The entries of `s` at the positions where `keep` is true, in order.
pub open spec fn kept<A>(s: Seq<A>, keep: Seq<bool>) -> Seq<A>
    decreases s.len(),
{
    if s.len() == 0 {
        s
    } else {
        let rest = kept(s.drop_last(), keep.take(s.len() - 1));
        if keep[s.len() - 1] {
            rest.push(s.last())
        } else {
            rest
        }
    }
}

fn copy_install(c: &LeagueInstallation) -> (r: LeagueInstallation)
    ensures
        r@ == c@,
{
    LeagueInstallation {
        root: c.root.clone(),
        game_executable: c.game_executable.clone(),
        source: c.source.clone(),
    }
}

/// The candidates whose client executable exists (`exists[i]` for candidate
/// `i`), in order.
pub fn existing_installations(candidates: Vec<LeagueInstallation>, exists: &Vec<bool>) -> (found: Vec<
    LeagueInstallation,
>)
    requires
        exists@.len() == candidates@.len(),
    ensures
        installs_view(found@) == kept(installs_view(candidates@), exists@),
{
    let ghost cs = installs_view(candidates@);
    let mut found: Vec<LeagueInstallation> = Vec::new();
    let mut i: usize = 0;
    assert(cs.take(0) =~= Seq::<InstallView>::empty());
    assert(installs_view(found@) =~= kept(cs.take(0), exists@.take(0)));
    while i < candidates.len()
        invariant
            cs == installs_view(candidates@),
            exists@.len() == candidates@.len(),
            i <= candidates@.len(),
            installs_view(found@) == kept(cs.take(i as int), exists@.take(i as int)),
        decreases candidates@.len() - i,
    {
        let ghost before = installs_view(found@);
        assert(cs.take(i + 1).drop_last() =~= cs.take(i as int));
        assert(exists@.take(i + 1).take(i as int) =~= exists@.take(i as int));
        if exists[i] {
            found.push(copy_install(&candidates[i]));
            assert(installs_view(found@) =~= before.push(cs[i as int]));
        } else {
            assert(installs_view(found@) =~= before);
        }
        i += 1;
    }
    assert(cs.take(i as int) =~= cs);
    assert(exists@.take(i as int) =~= exists@);
    found
}

} // verus!

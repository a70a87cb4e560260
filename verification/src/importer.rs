//! Archive import resolution. The caller opens the archive and lists its
//! member names; this module classifies them, decides which profile file and
//! which companion script to import, asks the caller for a choice only when
//! several candidates are genuinely ambiguous, and plans the script rename
//! that keeps the `<name>.ini` / `<name>.py` convention that discovery
//! depends on. No file is touched here: the caller performs the plan.

use vstd::prelude::*;

use crate::discovery::{ends_with_ini, ends_with_py};
use crate::text::views_of;

verus! {

/// Which importer handles a picked file, by its extension.
#[derive(Clone, Copy, PartialEq, Eq, Structural, Debug)]
pub enum ImporterKind {
    Zip,
    Rar,
    Direct,
}

/// Position of the last dot of `s`, or -1 when there is none.
pub open spec fn last_dot(s: Seq<char>) -> int
    decreases s.len(),
{
    if s.len() == 0 {
        -1
    } else if s[s.len() - 1] == '.' {
        s.len() - 1
    } else {
        last_dot(s.drop_last())
    }
}

/// The extension of a file name: what follows the last dot, provided that
/// dot is not the leading character.
pub open spec fn extension_of(s: Seq<char>) -> Option<Seq<char>> {
    let d = last_dot(s);
    if d > 0 {
        Some(s.skip(d + 1))
    } else {
        None
    }
}

/// The file name without its extension.
pub open spec fn stem_of(s: Seq<char>) -> Seq<char> {
    let d = last_dot(s);
    if d > 0 {
        s.take(d)
    } else {
        s
    }
}

proof fn lemma_last_dot(s: Seq<char>)
    ensures
        (exists|j: int| 0 <= j < s.len() && s[j] == '.') ==> 0 <= last_dot(s) < s.len() && s[last_dot(
            s,
        )] == '.' && (forall|j: int| last_dot(s) < j < s.len() ==> s[j] != '.'),
        !(exists|j: int| 0 <= j < s.len() && s[j] == '.') ==> last_dot(s) == -1,
    decreases s.len(),
{
    if s.len() > 0 {
        if s[s.len() - 1] == '.' {
        } else {
            let t = s.drop_last();
            lemma_last_dot(t);
            assert(forall|j: int| 0 <= j < t.len() ==> t[j] == s[j]);
            if exists|j: int| 0 <= j < s.len() && s[j] == '.' {
                let j = choose|j: int| 0 <= j < s.len() && s[j] == '.';
                assert(t[j] == '.');
            }
        }
    }
}

/// Position of the last dot of `s`, if any.
fn last_dot_index(s: &str) -> (r: Option<usize>)
    ensures
        match r {
            Some(d) => last_dot(s@) == d as int && d < s@.len(),
            None => last_dot(s@) == -1,
        },
{
    let len = s.unicode_len();
    let mut k: usize = len;
    while k > 0
        invariant
            0 <= k <= len,
            len == s@.len(),
            forall|j: int| k <= j < len ==> s@[j] != '.',
        decreases k,
    {
        if s.get_char(k - 1) == '.' {
            proof {
                lemma_last_dot(s@);
            }
            return Some(k - 1);
        }
        k = k - 1;
    }
    proof {
        lemma_last_dot(s@);
    }
    None
}

/// The file name without its extension, as an owned string.
pub fn file_stem(name: &str) -> (r: String)
    ensures
        r@ == stem_of(name@),
{
    match last_dot_index(name) {
        Option::Some(d) => {
            if d > 0 {
                let r = name.substring_char(0, d).to_owned();
                proof {
                    assert(name@.subrange(0, d as int) =~= name@.take(last_dot(name@)));
                }
                r
            } else {
                name.to_owned()
            }
        },
        Option::None => name.to_owned(),
    }
}

/// Picks the importer for one chosen file: `zip` and `rar` archives have
/// importers of their own, anything else is copied directly.
pub fn import_from_path(file_name: &str) -> (r: ImporterKind)
    requires
        extension_of(file_name@) is Some,
    ensures
        r == (if extension_of(file_name@) == Some("zip"@) {
            ImporterKind::Zip
        } else if extension_of(file_name@) == Some("rar"@) {
            ImporterKind::Rar
        } else {
            ImporterKind::Direct
        }),
{
    let len = file_name.unicode_len();
    let d = match last_dot_index(file_name) {
        Option::Some(d) => d,
        Option::None => {
            proof {
                assert(false);
            }
            0
        },
    };
    proof {
        assert(d > 0);
    }
    let ext = file_name.substring_char(d + 1, len);
    proof {
        assert(ext@ =~= file_name@.skip(d + 1));
        assert(extension_of(file_name@) == Some(ext@));
    }
    if crate::text::str_eq(ext, "zip") {
        ImporterKind::Zip
    } else if crate::text::str_eq(ext, "rar") {
        ImporterKind::Rar
    } else {
        ImporterKind::Direct
    }
}

/// An archive's members split into profile candidates (`.ini`) and script
/// candidates (`.py`), in archive order; other members are ignored.
pub struct ArchiveInspection {
    pub ini_candidates: Vec<String>,
    pub script_candidates: Vec<String>,
}

/// The `.ini` members among the first `k` names, in order.
pub open spec fn ini_entries(names: Seq<Seq<char>>, k: int) -> Seq<Seq<char>>
    decreases k,
{
    if k <= 0 {
        Seq::empty()
    } else {
        let rest = ini_entries(names, k - 1);
        if ends_with_ini(names[k - 1]) {
            rest.push(names[k - 1])
        } else {
            rest
        }
    }
}

/// The `.py` members among the first `k` names, in order.
pub open spec fn script_entries(names: Seq<Seq<char>>, k: int) -> Seq<Seq<char>>
    decreases k,
{
    if k <= 0 {
        Seq::empty()
    } else {
        let rest = script_entries(names, k - 1);
        if ends_with_py(names[k - 1]) {
            rest.push(names[k - 1])
        } else {
            rest
        }
    }
}

fn name_ends_ini(name: &str) -> (r: bool)
    ensures
        r == ends_with_ini(name@),
{
    let len = name.unicode_len();
    len >= 4 && name.get_char(len - 4) == '.' && name.get_char(len - 3) == 'i' && name.get_char(
        len - 2,
    ) == 'n' && name.get_char(len - 1) == 'i'
}

fn name_ends_py(name: &str) -> (r: bool)
    ensures
        r == ends_with_py(name@),
{
    let len = name.unicode_len();
    len >= 3 && name.get_char(len - 3) == '.' && name.get_char(len - 2) == 'p' && name.get_char(
        len - 1,
    ) == 'y'
}

/// Classifies an archive's member names by suffix.
pub fn inspect_archive(names: &Vec<String>) -> (r: ArchiveInspection)
    ensures
        views_of(r.ini_candidates@) == ini_entries(views_of(names@), names@.len() as int),
        views_of(r.script_candidates@) == script_entries(views_of(names@), names@.len() as int),
{
    let mut inis: Vec<String> = Vec::new();
    let mut scripts: Vec<String> = Vec::new();
    let n = names.len();
    let mut i: usize = 0;
    proof {
        assert(views_of(inis@) =~= Seq::<Seq<char>>::empty());
        assert(views_of(scripts@) =~= Seq::<Seq<char>>::empty());
    }
    while i < n
        invariant
            0 <= i <= n,
            n == names@.len(),
            views_of(inis@) == ini_entries(views_of(names@), i as int),
            views_of(scripts@) == script_entries(views_of(names@), i as int),
        decreases n - i,
    {
        proof {
            assert(views_of(names@)[i as int] == names@[i as int]@);
        }
        if name_ends_ini(names[i].as_str()) {
            let ghost pre = views_of(inis@);
            let item = names[i].clone();
            proof {
                assert(views_of(inis@.push(item)) =~= pre.push(item@));
            }
            inis.push(item);
        } else if name_ends_py(names[i].as_str()) {
            let ghost pre = views_of(scripts@);
            let item = names[i].clone();
            proof {
                assert(views_of(scripts@.push(item)) =~= pre.push(item@));
            }
            scripts.push(item);
        }
        i = i + 1;
    }
    ArchiveInspection { ini_candidates: inis, script_candidates: scripts }
}

/// A caller-supplied answer to a disambiguation request.
pub enum Choice {
    /// The caller has not been asked yet.
    Undecided,
    /// The caller was asked and declined to pick.
    Declined,
    /// The caller picked this candidate.
    Selected(String),
}

/// The files to place into the profile directory: the profile file, the
/// optional script, and the name the script must take when its stem differs
/// from the profile's.
pub struct ImportPlan {
    pub ini_name: String,
    pub script_name: Option<String>,
    pub script_rename_to: Option<String>,
}

/// The outcome of resolving one archive.
pub enum ImportOutcome {
    /// No profile candidate at all: the import fails.
    NoIniFound,
    /// Several profile candidates and no answer yet: the caller must ask.
    IniChoiceNeeded,
    /// Several script candidates and no answer yet: the caller must ask.
    ScriptChoiceNeeded,
    /// Several profile candidates and the caller declined to pick one.
    Cancelled,
    /// The import can go ahead: place these files.
    Ready(ImportPlan),
}

/// Whether a plan places `ini` and `script`, renaming the script to the
/// profile's stem plus `.py` exactly when the stems differ.
pub open spec fn plan_matches(plan: ImportPlan, ini: Seq<char>, script: Option<Seq<char>>) -> bool {
    &&& plan.ini_name@ == ini
    &&& (match (plan.script_name, script) {
        (Option::Some(a), Option::Some(b)) => a@ == b,
        (Option::None, Option::None) => true,
        _ => false,
    })
    &&& (match plan.script_rename_to {
        Option::Some(t) => script matches Some(sc) && stem_of(sc) != stem_of(ini) && t@ == stem_of(
            ini,
        ) + ".py"@,
        Option::None => (match script {
            Option::Some(sc) => stem_of(sc) == stem_of(ini),
            Option::None => true,
        }),
    })
}

/// The archive state machine: no profile candidate fails the import; one is
/// auto-selected; several need a caller's choice, and a declined choice
/// cancels. The script mirrors this independently, except that an absent or
/// declined script is simply no script, never an error.
pub open spec fn resolution_matches(
    inis: Seq<Seq<char>>,
    scripts: Seq<Seq<char>>,
    ini_choice: Choice,
    script_choice: Choice,
    r: ImportOutcome,
) -> bool {
    if inis.len() == 0 {
        r is NoIniFound
    } else if inis.len() > 1 && ini_choice is Undecided {
        r is IniChoiceNeeded
    } else if inis.len() > 1 && ini_choice is Declined {
        r is Cancelled
    } else {
        let ini = if inis.len() == 1 {
            inis[0]
        } else {
            ini_choice->Selected_0@
        };
        if scripts.len() > 1 && script_choice is Undecided {
            r is ScriptChoiceNeeded
        } else {
            let script: Option<Seq<char>> = if scripts.len() == 1 {
                Some(scripts[0])
            } else if scripts.len() > 1 && script_choice is Selected {
                Some(script_choice->Selected_0@)
            } else {
                None
            };
            r matches ImportOutcome::Ready(plan) && plan_matches(plan, ini, script)
        }
    }
}

/// Resolves one inspected archive against the caller's answers, as
/// `resolution_matches` prescribes. Until the outcome is `Ready`, nothing
/// may be placed into the profile directory.
pub fn resolve_archive_import(
    insp: &ArchiveInspection,
    ini_choice: &Choice,
    script_choice: &Choice,
) -> (r: ImportOutcome)
    ensures
        resolution_matches(
            views_of(insp.ini_candidates@),
            views_of(insp.script_candidates@),
            *ini_choice,
            *script_choice,
            r,
        ),
{
    let ini_count = insp.ini_candidates.len();
    if ini_count == 0 {
        return ImportOutcome::NoIniFound;
    }
    let ini: String = if ini_count == 1 {
        proof {
            assert(views_of(insp.ini_candidates@)[0] == insp.ini_candidates@[0]@);
        }
        insp.ini_candidates[0].clone()
    } else {
        match ini_choice {
            Choice::Undecided => {
                return ImportOutcome::IniChoiceNeeded;
            },
            Choice::Declined => {
                return ImportOutcome::Cancelled;
            },
            Choice::Selected(s) => s.clone(),
        }
    };
    let script_count = insp.script_candidates.len();
    let script: Option<String> = if script_count == 1 {
        proof {
            assert(views_of(insp.script_candidates@)[0] == insp.script_candidates@[0]@);
        }
        Some(insp.script_candidates[0].clone())
    } else if script_count > 1 {
        match script_choice {
            Choice::Undecided => {
                return ImportOutcome::ScriptChoiceNeeded;
            },
            Choice::Declined => None,
            Choice::Selected(s) => Some(s.clone()),
        }
    } else {
        None
    };
    let ini_stem = file_stem(ini.as_str());
    let script_rename_to: Option<String> = match &script {
        Option::Some(sc) => {
            let sc_stem = file_stem(sc.as_str());
            if !crate::text::str_eq(sc_stem.as_str(), ini_stem.as_str()) {
                let mut target = ini_stem.clone();
                target.append(".py");
                Some(target)
            } else {
                None
            }
        },
        Option::None => None,
    };
    ImportOutcome::Ready(ImportPlan { ini_name: ini, script_name: script, script_rename_to })
}

} // verus!

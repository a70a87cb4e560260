use gsxman::importer::{
    file_stem, import_from_path, inspect_archive, resolve_archive_import, ArchiveInspection,
    Choice, ImporterKind, ImportOutcome,
};

fn names(list: &[&str]) -> Vec<String> {
    list.iter().map(|s| String::from(*s)).collect()
}

fn inspect(list: &[&str]) -> ArchiveInspection {
    inspect_archive(&names(list))
}

#[test]
fn importer_kind_follows_the_extension() {
    assert!(matches!(import_from_path("archive.zip"), ImporterKind::Zip));
    assert!(matches!(import_from_path("archive.rar"), ImporterKind::Rar));
    assert!(matches!(import_from_path("LSZH-gsx.ini"), ImporterKind::Direct));
    assert!(matches!(import_from_path("dir.v2/archive.zip"), ImporterKind::Zip));
}

#[test]
fn file_stem_drops_only_the_extension() {
    assert_eq!(file_stem("LSZH-gsx.ini"), "LSZH-gsx");
    assert_eq!(file_stem("a.b.c"), "a.b");
    assert_eq!(file_stem("noext"), "noext");
}

#[test]
fn members_are_classified_by_suffix() {
    let insp = inspect(&["readme.txt", "LSZH-gsx.ini", "LSZH-gsx.py", "img.png"]);
    assert_eq!(insp.ini_candidates, vec!["LSZH-gsx.ini"]);
    assert_eq!(insp.script_candidates, vec!["LSZH-gsx.py"]);
}

#[test]
fn matching_pair_is_auto_selected() {
    let insp = inspect(&["LSZH-gsx.ini", "LSZH-gsx.py"]);
    match resolve_archive_import(&insp, &Choice::Undecided, &Choice::Undecided) {
        ImportOutcome::Ready(plan) => {
            assert_eq!(plan.ini_name, "LSZH-gsx.ini");
            assert_eq!(plan.script_name.as_deref(), Some("LSZH-gsx.py"));
            assert!(plan.script_rename_to.is_none());
        },
        _ => panic!("expected a ready plan"),
    }
}

#[test]
fn mismatched_script_stem_is_renamed() {
    let insp = inspect(&["LSZH-gsx.ini", "old-name.py"]);
    match resolve_archive_import(&insp, &Choice::Undecided, &Choice::Undecided) {
        ImportOutcome::Ready(plan) => {
            assert_eq!(plan.script_name.as_deref(), Some("old-name.py"));
            assert_eq!(plan.script_rename_to.as_deref(), Some("LSZH-gsx.py"));
        },
        _ => panic!("expected a ready plan"),
    }
}

#[test]
fn no_ini_member_fails_the_import() {
    let insp = inspect(&["LSZH-gsx.py", "readme.txt"]);
    assert!(matches!(
        resolve_archive_import(&insp, &Choice::Undecided, &Choice::Undecided),
        ImportOutcome::NoIniFound
    ));
}

#[test]
fn two_ini_members_halt_for_a_choice() {
    let insp = inspect(&["LSZH-a.ini", "LSZH-b.ini"]);
    assert!(matches!(
        resolve_archive_import(&insp, &Choice::Undecided, &Choice::Undecided),
        ImportOutcome::IniChoiceNeeded
    ));
}

#[test]
fn declined_ini_choice_cancels() {
    let insp = inspect(&["LSZH-a.ini", "LSZH-b.ini"]);
    assert!(matches!(
        resolve_archive_import(&insp, &Choice::Declined, &Choice::Undecided),
        ImportOutcome::Cancelled
    ));
}

#[test]
fn selected_ini_choice_completes_the_plan() {
    let insp = inspect(&["LSZH-a.ini", "LSZH-b.ini"]);
    let pick = Choice::Selected(String::from("LSZH-b.ini"));
    match resolve_archive_import(&insp, &pick, &Choice::Undecided) {
        ImportOutcome::Ready(plan) => {
            assert_eq!(plan.ini_name, "LSZH-b.ini");
            assert!(plan.script_name.is_none());
        },
        _ => panic!("expected a ready plan"),
    }
}

#[test]
fn several_scripts_ask_but_declining_just_drops_the_script() {
    let insp = inspect(&["LSZH-a.ini", "one.py", "two.py"]);
    assert!(matches!(
        resolve_archive_import(&insp, &Choice::Undecided, &Choice::Undecided),
        ImportOutcome::ScriptChoiceNeeded
    ));
    match resolve_archive_import(&insp, &Choice::Undecided, &Choice::Declined) {
        ImportOutcome::Ready(plan) => {
            assert_eq!(plan.ini_name, "LSZH-a.ini");
            assert!(plan.script_name.is_none());
            assert!(plan.script_rename_to.is_none());
        },
        _ => panic!("expected a ready plan"),
    }
    match resolve_archive_import(
        &insp,
        &Choice::Undecided,
        &Choice::Selected(String::from("two.py")),
    ) {
        ImportOutcome::Ready(plan) => {
            assert_eq!(plan.script_name.as_deref(), Some("two.py"));
            assert_eq!(plan.script_rename_to.as_deref(), Some("LSZH-a.py"));
        },
        _ => panic!("expected a ready plan"),
    }
}

#[test]
fn default_config_targets_the_store_install() {
    let config = gsxman::settings::AppConfig::default();
    assert!(config.msfs_windowsstore);
    assert!(config.gsx_profile_path.is_none());
}

#[test]
fn settings_profile_path_is_under_appdata() {
    let path = gsxman::settings::get_gsx_profile_path("C:\\Users\\jane\\AppData\\Roaming");
    assert_eq!(path, "C:\\Users\\jane\\AppData\\Roaming\\virtuali\\GSX\\MSFS");
}

use cursorforge::backup::{admit_entry, check_backup_name, permitted, skips_directory, suggested_name, EntryVerdict, SKIPPED_DIRS};
use cursorforge::commands::{check_external, effective_size, release_notes_for, roles_for};
use cursorforge::cur_writer::TARGET_SIZES;
use cursorforge::roles::Role;
use cursorforge::settings::{ApplyMode, MAX_CURSOR_PX, MIN_CURSOR_PX};

#[test]
fn a_small_size_is_honoured_rather_than_swallowed() {
    for requested in [MIN_CURSOR_PX, 12, 16, 24, 31] {
        let got = effective_size(requested, Some(96));
        assert!(got <= 32, "{requested} px came back as {got} px, which is the settings value, not the request");
        assert!(TARGET_SIZES.contains(&got), "{requested} px snapped to {got} px, which no cursor file carries");
    }
}

#[test]
fn every_size_the_front_end_can_send_lands_on_a_rung() {
    for requested in MIN_CURSOR_PX..=MAX_CURSOR_PX {
        let got = effective_size(requested, None);
        assert!(TARGET_SIZES.contains(&got), "{requested} px became {got} px, which no cursor file carries");
    }
}

#[test]
fn the_range_is_enforced_at_both_ends() {
    assert_eq!(effective_size(1, None), MIN_CURSOR_PX);
    assert_eq!(effective_size(9_999, None), MAX_CURSOR_PX);
    assert_eq!(effective_size(64, None), 64);
}

#[test]
fn only_zero_means_unspecified() {
    assert_eq!(effective_size(48, None), 48);
    assert_eq!(effective_size(9_999, None), MAX_CURSOR_PX);
    let inherited = effective_size(0, None);
    assert!((MIN_CURSOR_PX..=MAX_CURSOR_PX).contains(&inherited));
    assert_eq!(effective_size(0, Some(64)), 64);
    assert_eq!(effective_size(MIN_CURSOR_PX, Some(64)), MIN_CURSOR_PX);
}

#[test]
fn a_section_stops_at_the_next_version() {
    let changelog = "\
# Changelog

## 1.21.0 — unreleased

Something changed.

---

## 1.20.0 — 2026-08-11

Something else did.
";
    let notes = release_notes_for(changelog, "1.21.0").expect("1.21.0");
    assert_eq!(notes, "Something changed.");
    assert!(!notes.contains("Something else"), "it ran into the next entry");
    assert_eq!(release_notes_for(changelog, "v1.21.0"), Some("Something changed.".into()));
    assert_eq!(release_notes_for(changelog, "1.20.0"), Some("Something else did.".into()));
}

#[test]
fn a_version_with_no_entry_is_not_a_failure() {
    assert_eq!(release_notes_for("## 1.0.0 — x\n\nnotes\n", "9.9.9"), None);
    assert_eq!(release_notes_for("", "1.0.0"), None);
    assert_eq!(release_notes_for("## 1.0.0 — x\n", "1.0.0"), None);
    assert_eq!(release_notes_for("## 1.0.0 — x\n\nnotes\n", ""), None);
}

#[test]
fn versions_are_matched_whole() {
    let changelog = "## 1.2.0 — x\n\nthe real one\n\n## 1.20.0 — y\n\nthe other one\n";
    assert_eq!(release_notes_for(changelog, "1.2.0"), Some("the real one".into()));
    assert_eq!(release_notes_for(changelog, "1.20.0"), Some("the other one".into()));
    assert_eq!(release_notes_for(changelog, "1."), None);
}

#[test]
fn windows_line_endings_and_padding_are_not_content() {
    let changelog = "## 2.0.0\r\n\r\n  first line\r\nsecond line  \r\n## 1.0.0\r\n";
    assert_eq!(release_notes_for(changelog, "  v2.0.0 "), Some("first line\nsecond line".into()));
}

#[test]
fn apply_modes_cover_the_roles_they_advertise() {
    assert_eq!(roles_for(ApplyMode::ArrowOnly).len(), 1);
    assert_eq!(roles_for(ApplyMode::Recommended).len(), 3);
    assert_eq!(roles_for(ApplyMode::All).len(), 17);
    assert_eq!(roles_for(ApplyMode::Blend).len(), 17);
}

#[test]
fn arrow_only_covers_the_arrow_and_nothing_else() {
    let roles = roles_for(ApplyMode::ArrowOnly);
    assert!(roles.contains(&Role::Arrow));
    assert!(!roles.contains(&Role::IBeam));
}

#[test]
fn recommended_is_the_three_roles_a_person_actually_notices() {
    let roles = roles_for(ApplyMode::Recommended);
    for expected in [Role::Arrow, Role::Hand, Role::Crosshair] {
        assert!(roles.contains(&expected), "{} should be covered", expected.registry_value());
    }
}

#[test]
fn external_links_are_allow_listed() {
    assert!(check_external("https://example.com/").is_err());
    assert!(check_external("file:///C:/Windows").is_err());
    assert!(check_external("https://github.com/notfeylo/cursed.evil.com").is_err());
    assert!(check_external("https://github.com/notfeylo/cursed/releases/latest").is_ok());
}

#[test]
fn a_backup_must_be_named_as_a_zip() {
    assert!(check_backup_name("C:/x/backup.rar").is_err());
    assert!(check_backup_name("C:/x/backup").is_err());
    assert!(check_backup_name("C:/x/backup.zip").is_ok());
}

#[test]
fn a_hostile_archive_entry_is_refused() {
    for hostile in [
        r"..\..\Windows\System32\evil.cur",
        r"C:\Windows\System32\evil.cur",
        "custom/payload.exe",
        "custom/payload.dll",
        "custom/payload.ps1",
        "custom/payload.lnk",
        "custom/payload.bat",
        "settings.json.exe",
        "NUL.cur",
        "custom/stream.cur:hidden",
    ] {
        assert!(permitted(hostile).is_none(), "{hostile} should be refused");
    }
}

#[test]
fn the_files_a_backup_actually_contains_are_allowed() {
    for ordinary in [
        "settings.json",
        "presets.json",
        "applied.json",
        r"backup\original_scheme.json",
        r"custom\my-logo-8f1a\32.cur",
        r"custom\my-logo-8f1a\64.ani",
        r"custom\my-logo-8f1a\source.png",
        r"imported\some-pack\arrow.cur",
    ] {
        assert!(permitted(ordinary).is_some(), "{ordinary} should be allowed");
    }
}

#[test]
fn the_regenerated_directories_are_not_backed_up() {
    assert_eq!(SKIPPED_DIRS.len(), 3);
    for skipped in ["cache", "logs", "updates"] {
        assert!(SKIPPED_DIRS.contains(&skipped));
        assert!(skips_directory(skipped));
    }
    assert!(!SKIPPED_DIRS.contains(&"backup"), "the snapshot is the point");
    assert!(!SKIPPED_DIRS.contains(&"custom"));
    assert!(skips_directory("Cache"));
    assert!(!skips_directory("backup"));
}

#[test]
fn the_suggested_name_is_dated_and_a_zip() {
    let name = suggested_name("2026-08-01T12:34:56Z");
    assert!(name.starts_with("cursed-backup-"), "{name}");
    assert!(name.ends_with(".zip"), "{name}");
    let day = name.trim_start_matches("cursed-backup-").trim_end_matches(".zip");
    assert_eq!(day.len(), 10, "{name}");
    assert!(day.chars().all(|c| c.is_ascii_digit() || c == '-'), "{name}");
    assert_eq!(name, "cursed-backup-2026-08-01.zip");
}

#[test]
fn an_archive_entry_is_held_to_its_budget() {
    assert_eq!(admit_entry("../evil.cur", 10, 10, 0), EntryVerdict::BadName);
    assert_eq!(admit_entry("x.exe", 10, 10, 0), EntryVerdict::BadType);
    assert_eq!(admit_entry("x.cur", 10_000, 10, 0), EntryVerdict::TooExpansive);
    assert_eq!(admit_entry("x.cur", 100, 0, 0), EntryVerdict::Write { total: 100, limit: 2_147_483_648 });
    assert_eq!(admit_entry("x.cur", 2_000, 1_000, 2_147_483_000), EntryVerdict::TooLarge);
}

#[test]
fn a_restore_report_counts_every_skip_and_names_the_first_ten() {
    let mut report = cursorforge::backup::RestoreReport::new();
    report.wrote();
    for i in 0..12 {
        report.skipped_for(format!("problem {i}"));
    }
    assert_eq!((report.files, report.skipped), (1, 12));
    assert_eq!(report.problems.len(), 10);
    assert_eq!(report.problems[0], "problem 0");
    assert_eq!(report.problems[9], "problem 9");
}

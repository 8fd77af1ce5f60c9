use cursorforge::autostart::{launched_silently, SILENT_FLAG};
use cursorforge::channel::{
    legacy_data_dir, legacy_scheme_prefix, CROSS_CHANNEL_KEY, DATA_DIR, IDENTIFIER, IS_DEV, MARKER, POINTER_LOCK,
    PRODUCT_NAME, SCHEME_PREFIX,
};
use cursorforge::crosschannel::{deferral_notice, holder, may_adopt};
use cursorforge::cursor::{audit_role, describe_cursor_file, path_tail, FileKind, Session};
use cursorforge::engine::{effective_size, is_animated};
use cursorforge::restore::{
    adopt, backup_of, capture_step, looks_like_ours, provenance, stand_in_for_lost_capture, CaptureStep, Provenance,
    appdata_root_text,
};
use cursorforge::roles::{Role, ALL_ROLES, UNSCALED_ROLE_PX};
use cursorforge::scheme::{expand_sz_bytes, expandable_path, CursorSet};
use cursorforge::settings::{MAX_CURSOR_PX, MIN_CURSOR_PX};
use cursorforge::watchdog::{Broadcast, Tick, Watchdog};
use cursorforge::cur_writer::TARGET_SIZES;

#[test]
fn the_silent_flag_is_matched_exactly() {
    let arguments = vec!["cursorforge.exe".to_string(), "--silentish".to_string()];
    assert!(!launched_silently(&arguments));
    let arguments = vec!["cursorforge.exe".to_string(), SILENT_FLAG.to_string()];
    assert!(launched_silently(&arguments));
}

#[test]
fn the_hand_and_the_ibeam_stop_growing_with_the_pointer() {
    assert_eq!(Role::Arrow.size_from(128), 128);
    assert_eq!(Role::Hand.size_from(128), UNSCALED_ROLE_PX);
    assert_eq!(Role::IBeam.size_from(128), UNSCALED_ROLE_PX);
    for role in [Role::Wait, Role::AppStarting, Role::Help, Role::SizeAll] {
        assert_eq!(role.size_from(96), 96, "{} should follow the pointer", role.registry_value());
    }
}

#[test]
fn a_small_pointer_does_not_keep_a_full_size_hand() {
    for requested in [10u32, 16, 24, 32] {
        assert_eq!(Role::Hand.size_from(requested), requested);
        assert_eq!(Role::IBeam.size_from(requested), requested);
    }
}

#[test]
fn every_role_has_a_unique_registry_value_and_ocr_id() {
    let values: std::collections::HashSet<_> = ALL_ROLES.iter().map(|r| r.registry_value()).collect();
    let ids: std::collections::HashSet<_> = ALL_ROLES.iter().map(|r| r.ocr_id()).collect();
    assert_eq!(values.len(), 17, "registry value names must be distinct");
    assert_eq!(ids.len(), 17, "OCR ids must be distinct");
}

#[test]
fn exactly_the_undocumented_roles_are_best_effort() {
    const DOCUMENTED_OCR: [u32; 14] =
        [32512, 32513, 32514, 32515, 32516, 32642, 32643, 32644, 32645, 32646, 32648, 32649, 32650, 32651];
    for role in ALL_ROLES {
        let documented = DOCUMENTED_OCR.contains(&role.ocr_id());
        assert_eq!(role.live_layer_is_best_effort(), !documented, "{}", role.registry_value());
    }
}

#[test]
fn every_role_still_persists_through_the_registry() {
    for role in ALL_ROLES {
        assert!(!role.registry_value().is_empty());
    }
}

#[test]
fn parse_round_trips_and_rejects_junk() {
    for role in ALL_ROLES {
        assert_eq!(Role::parse(role.registry_value()).unwrap(), role);
    }
    assert!(Role::parse("Arrow\\..\\..\\evil").is_err());
    assert!(Role::parse("").is_err());
    assert!(Role::parse("arrow").is_err(), "matching is exact, not lax");
}

#[test]
fn the_legacy_scheme_prefix_is_not_the_current_one() {
    if let Some(legacy) = legacy_scheme_prefix() {
        assert_ne!(SCHEME_PREFIX, legacy, "old schemes would never be cleaned up");
    }
}

#[test]
fn each_channel_has_its_own_scheme_prefix() {
    assert_eq!(SCHEME_PREFIX == "Cursed — ", !IS_DEV);
}

#[test]
fn incomplete_sets_are_reported_precisely() {
    let mut set = CursorSet::default();
    set.insert(Role::Arrow, "a.cur".to_string());
    assert!(!set.is_complete());
    assert_eq!(set.missing().len(), 16);
    assert!(!set.missing().contains(&Role::Arrow));
    assert_eq!(set.get(Role::Arrow).map(|s| s.as_str()), Some("a.cur"));
}

#[test]
fn the_names_match_the_channel_this_was_compiled_for() {
    if IS_DEV {
        assert_eq!(DATA_DIR, "Cursed (Dev)");
        assert_eq!(PRODUCT_NAME, "Cursed Dev");
        assert_eq!(IDENTIFIER, "dev.feylo.cursed.dev");
        assert_eq!(MARKER, "CURSED-CHANNEL:DEV");
    } else {
        assert_eq!(DATA_DIR, "Cursed");
        assert_eq!(PRODUCT_NAME, "Cursed");
        assert_eq!(IDENTIFIER, "dev.feylo.cursed");
        assert_eq!(MARKER, "CURSED-CHANNEL:USER");
    }
}

#[test]
fn the_pointer_lock_is_not_channel_scoped() {
    assert!(!POINTER_LOCK.contains("dev.feylo.cursed.dev"));
    assert!(!CROSS_CHANNEL_KEY.to_ascii_lowercase().contains("dev)"));
}

#[test]
fn only_the_user_channel_inherits_the_old_folder() {
    assert_eq!(legacy_data_dir().is_some(), !IS_DEV);
}

#[test]
fn the_lock_name_does_not_mention_a_channel() {
    assert!(!POINTER_LOCK.contains("(Dev)"));
    assert!(!POINTER_LOCK.ends_with(".dev"));
    assert!(POINTER_LOCK.starts_with(r"Local\"));
}

#[test]
fn the_same_cursor_written_two_ways_is_not_drift() {
    assert_eq!(
        path_tail(r"%APPDATA%\Cursed\cache\pack\v2-666666-o\Arrow.cur"),
        path_tail(r"C:\Users\someone\AppData\Roaming\Cursed\cache\pack\v2-666666-o\Arrow.cur")
    );
    assert_eq!(path_tail("a/b/c/Arrow.cur"), path_tail(r"a\b\c\arrow.CUR"));
}

#[test]
fn two_packs_sharing_a_file_name_are_told_apart() {
    assert_ne!(
        path_tail(r"%APPDATA%\Cursed\cache\pack-a\v2-666666-o\Arrow.cur"),
        path_tail(r"%APPDATA%\Cursed\cache\pack-b\v2-666666-o\Arrow.cur"),
        "a different pack is a different cursor"
    );
    assert_ne!(
        path_tail(r"cache\pack\v2-666666-o\Arrow.cur"),
        path_tail(r"cache\pack\v2-2e8bff-o\Arrow.cur"),
        "a different colour is a different cursor"
    );
    assert_ne!(
        path_tail(r"custom\trump-5b6b27cc\32.ani"),
        path_tail(r"custom\elon-ad9854ad\32.ani"),
        "a different custom cursor is a different cursor"
    );
    assert_ne!(
        path_tail(r"%SystemRoot%\cursors\aero_arrow.cur"),
        path_tail(r"%APPDATA%\Cursed\cache\pack\v2-666666-o\Arrow.cur")
    );
}

#[test]
fn a_path_with_no_parent_is_still_comparable() {
    assert_eq!(path_tail("Arrow.cur"), "arrow.cur");
    assert_eq!(path_tail(r"pack\Arrow.cur"), r"pack\arrow.cur");
    assert_eq!(path_tail(""), "");
    assert_eq!(path_tail(r"a\b\c\"), r"a\b\c");
}

#[test]
fn a_committed_scheme_read_back_is_not_drift() {
    let mut set = CursorSet::new();
    set.insert(Role::Arrow, r"%APPDATA%\Cursed\cache\pack\v2-666666-o\Arrow.cur".to_string());
    let mut session = Session::new();
    session.adopt(set, "Pack", 32, None, "666666".to_string());
    let mut current: Vec<Option<String>> = vec![None; 17];
    current[0] = Some(r"C:\Users\x\AppData\Roaming\Cursed\cache\pack\v2-666666-o\Arrow.cur".to_string());
    assert!(!session.drifted(&current));
    current[0] = Some(r"%SystemRoot%\cursors\aero_arrow.cur".to_string());
    assert!(session.drifted(&current));
    assert_eq!(session.applied().unwrap().scheme_name, "Cursed — Pack");
}

#[test]
fn every_size_that_can_be_asked_for_lands_on_a_rung() {
    for asked in MIN_CURSOR_PX..=MAX_CURSOR_PX {
        let got = effective_size(Some(asked));
        assert!(TARGET_SIZES.contains(&got), "{asked} px became {got} px, which no cursor file carries");
    }
}

#[test]
fn the_size_that_was_reported_blurry_snaps_to_one_that_exists() {
    assert_eq!(effective_size(Some(38)), 32);
    assert_eq!(effective_size(Some(78)), 64);
    assert_eq!(effective_size(Some(120)), 128);
    assert_eq!(effective_size(None), 32);
}

#[test]
fn only_ani_files_take_the_animated_path() {
    assert!(is_animated(r"C:\x\arrow.ani"));
    assert!(is_animated(r"C:\x\ARROW.ANI"), "extension is case-insensitive");
    assert!(!is_animated(r"C:\x\arrow.cur"));
    assert!(!is_animated(r"C:\x\arrow"));
    assert!(!is_animated(r"C:\x\animated-looking.cur"));
    assert!(!is_animated(r"C:\x\.ani"));
}

#[test]
fn a_non_cursor_file_is_rejected() {
    assert_eq!(describe_cursor_file(Some(&b"this is plainly not a cursor".to_vec())), FileKind::NotACursor);
    assert_eq!(describe_cursor_file(Some(&b"short".to_vec())), FileKind::TooShort);
    assert_eq!(describe_cursor_file(None), FileKind::Unreadable);
    assert_eq!(describe_cursor_file(Some(&b"RIFF\0\0\0\0ACONxxxx".to_vec())), FileKind::Ani);
    assert_eq!(describe_cursor_file(Some(&vec![0, 0, 2, 0, 1, 0, 0, 0, 0, 0, 0, 0])), FileKind::Cur);
    assert_eq!(describe_cursor_file(Some(&vec![0, 0, 1, 0, 1, 0, 0, 0, 0, 0, 0, 0])), FileKind::Icon);
}

#[test]
fn an_unset_role_is_windows_drawing_its_own() {
    let audit = audit_role(Role::Hand, String::new(), String::new(), false, FileKind::Unreadable);
    assert!(audit.ok && !audit.set);
    assert_eq!(audit.role, "Hand");
    assert_eq!(audit.format, "windows default");
    let missing = audit_role(Role::Arrow, "x.cur".into(), "C:\\x.cur".into(), false, FileKind::Unreadable);
    assert!(!missing.ok);
    assert_eq!(missing.format, "missing");
    let sound = audit_role(Role::Arrow, "x.cur".into(), "C:\\x.cur".into(), true, FileKind::Cur);
    assert!(sound.ok);
    assert_eq!(sound.format, "cur");
}

#[test]
fn an_adopted_snapshot_is_a_real_one() {
    assert!(Provenance::Adopted.is_real());
    assert!(Provenance::Captured.is_real());
    assert!(!Provenance::Lost.is_real());
    assert_eq!(Provenance::default(), Provenance::Captured);
}

#[test]
fn the_backup_is_looked_for_where_the_store_puts_it() {
    assert_eq!(backup_of(r"C:\x\backup\original_scheme.json"), r"C:\x\backup\original_scheme.json.bak");
}

#[test]
fn the_stand_in_restores_windows_own_pointers_and_nothing_else() {
    let stand_in = stand_in_for_lost_capture("2026-08-01T00:00:00Z".to_string());
    assert_eq!(stand_in.values.len(), 17, "all seventeen roles are reset");
    assert!(stand_in.values.iter().all(|(_, v)| v.is_empty()));
    assert_eq!(stand_in.values[0].0, "Arrow");
    assert!(stand_in.scheme_name.is_empty(), "no scheme name to re-select");
    assert_eq!(stand_in.cursor_base_size, None);
    assert!(!stand_in.provenance.is_real());
    assert_eq!(provenance(Some(&stand_in)), Provenance::Lost);
    assert_eq!(provenance(None), Provenance::Captured);
}

#[test]
fn a_lost_snapshot_stays_lost_when_adopted() {
    let lost = stand_in_for_lost_capture("t".to_string());
    assert_eq!(adopt(lost).provenance, Provenance::Lost);
    let mut real = stand_in_for_lost_capture("t".to_string());
    real.provenance = Provenance::Captured;
    assert_eq!(adopt(real).provenance, Provenance::Adopted);
}

#[test]
fn our_own_cursor_is_never_captured_as_the_original() {
    assert_eq!(capture_step(true, true, true, true), CaptureStep::UseExisting);
    assert_eq!(capture_step(true, false, false, false), CaptureStep::CaptureFresh);
    assert_eq!(capture_step(false, false, true, true), CaptureStep::AdoptForeign);
    assert_eq!(capture_step(false, false, false, true), CaptureStep::StandIn);
    assert_eq!(capture_step(false, false, false, false), CaptureStep::CaptureFresh);
}

#[test]
fn our_scheme_is_recognised_by_its_name_or_its_files() {
    let roots = vec![appdata_root_text(), r"c:\users\x\appdata\roaming\cursed".to_string()];
    assert_eq!(roots[0], r"%appdata%\cursed");
    let none: Vec<Option<String>> = vec![None; 17];
    assert!(looks_like_ours("Cursed — Neon", &roots, &none));
    assert!(looks_like_ours("CursorForge — Neon", &roots, &none));
    assert!(!looks_like_ours("Windows Aero", &roots, &none));
    let mut values = none.clone();
    values[3] = Some(r"%APPDATA%/Cursed/cache/pack/Wait.ani".to_string());
    assert!(looks_like_ours("Windows Aero", &roots, &values));
    values[3] = Some(r"%SystemRoot%\cursors\aero_busy.ani".to_string());
    assert!(!looks_like_ours("", &roots, &values));
}

#[test]
fn a_holder_names_the_other_channel_in_a_sentence() {
    let h = holder(Some("dev".into()), Some(42), None, 7).unwrap();
    assert_eq!(h.product_name, "Cursed Dev");
    assert!(!h.is_us);
    assert_eq!(
        deferral_notice(false, Some(h)).as_deref(),
        Some("Cursed Dev is currently managing the cursor, so this copy will not defend the scheme.")
    );
    let me = holder(Some("user".into()), Some(7), Some("t".into()), 7).unwrap();
    assert!(me.is_us);
    assert_eq!(deferral_notice(false, Some(me)), None);
    assert!(holder(None, Some(1), None, 1).is_none());
    assert_eq!(deferral_notice(true, None), None);
    assert!(may_adopt("dev"));
    assert!(!may_adopt("user"));
}

#[test]
fn configuration_clamps_the_interval() {
    let mut w = Watchdog::new();
    w.configure(true, 0, true, true);
    assert_eq!(w.interval_secs(), 1);
    w.configure(true, 100_000, true, true);
    assert_eq!(w.interval_secs(), 300);
    w.configure(true, 5, true, true);
    assert_eq!(w.interval_secs(), 5);
    assert_eq!(w.timeout_ms(), 5_000);
}

#[test]
fn disabling_the_watchdog_is_respected() {
    let mut w = Watchdog::new();
    w.configure(false, 5, true, true);
    assert!(!w.enabled());
    w.configure(true, 5, true, true);
    assert!(w.enabled());
    w.disable();
    assert!(!w.enabled());
    assert_eq!(w.tick(true, true), Tick::Wait);
}

#[test]
fn stopping_a_watchdog_that_never_started_returns_at_once() {
    let mut w = Watchdog::new();
    w.stop();
    assert!(w.stopping());
    assert!(!w.enabled(), "stopping also stands it down");
    assert_eq!(w.tick(true, true), Tick::Stop);
}

#[test]
fn only_the_holder_puts_a_drifted_scheme_back() {
    let w = Watchdog::new();
    assert_eq!(w.tick(true, true), Tick::Reapply);
    assert_eq!(w.tick(false, true), Tick::Wait);
    assert_eq!(w.tick(true, false), Tick::Wait);
    assert!(w.nudged_by(Broadcast::SettingChange));
    assert!(w.nudged_by(Broadcast::Power(0x12)));
    assert!(!w.nudged_by(Broadcast::Power(0x4)));
    assert!(!w.nudged_by(Broadcast::Other));
}

#[test]
fn a_path_under_the_roaming_folder_is_written_with_the_variable() {
    assert_eq!(
        expandable_path("C:/Users/a/AppData/Roaming/Cursed/a.cur", Some("C:\\Users\\a\\AppData\\Roaming")),
        "%APPDATA%\\Cursed\\a.cur"
    );
    assert_eq!(expandable_path("C:\\R\\x.cur", Some("C:\\R\\")), "%APPDATA%x.cur");
    assert_eq!(expandable_path("C:\\R", Some("C:\\R\\")), "%APPDATA%");
}

#[test]
fn a_path_elsewhere_only_gets_backslashes() {
    assert_eq!(expandable_path("D:/cursors/a.cur", Some("C:\\R")), "D:\\cursors\\a.cur");
    assert_eq!(expandable_path("D:/cursors/a.cur", None), "D:\\cursors\\a.cur");
    assert_eq!(expandable_path("D:/a.cur", Some("")), "D:\\a.cur");
}

#[test]
fn expandable_string_data_is_utf16_and_nul_terminated() {
    assert_eq!(expand_sz_bytes("AB"), vec![b'A', 0, b'B', 0, 0, 0]);
}

#[test]
fn characters_beyond_the_basic_plane_take_a_surrogate_pair() {
    assert_eq!(expand_sz_bytes("\u{e9}"), vec![0xE9, 0, 0, 0]);
    assert_eq!(expand_sz_bytes("\u{1F600}"), vec![0x3D, 0xD8, 0x00, 0xDE, 0, 0]);
}

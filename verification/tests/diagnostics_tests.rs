use cursorforge::cursor::RoleAudit;
use cursorforge::diagnostics::{
    diagnostics_report, push_decimal, windows_label, DiagnosticFacts, PointerHolder, Storage, StorageFact, UpdateCheck,
    UpdateFacts,
};

#[test]
fn windows_11_is_named_for_what_it_is() {
    assert_eq!(windows_label("Windows 10 Pro", "24H2", "26100"), "Windows 11 Pro 24H2 (build 26100)");
    assert_eq!(windows_label("Windows 10 Pro", "24H2", "+22000"), "Windows 11 Pro 24H2 (build +22000)");
}

#[test]
fn windows_10_stays_windows_10() {
    assert_eq!(windows_label("Windows 10 Pro", "22H2", "19045"), "Windows 10 Pro 22H2 (build 19045)");
    assert_eq!(windows_label("Windows 10 Home", "", "21999"), "Windows 10 Home (build 21999)");
}

#[test]
fn a_build_that_is_not_a_number_changes_nothing() {
    assert_eq!(windows_label("Windows 10 Home", "", "abc"), "Windows 10 Home (build abc)");
    assert_eq!(windows_label("Windows 10", "", "99999999999"), "Windows 10 (build 99999999999)");
}

#[test]
fn missing_values_fall_back_to_plain_windows() {
    assert_eq!(windows_label("", "", ""), "Windows");
    assert_eq!(windows_label("", "23H2", ""), "Windows 23H2");
}

#[test]
fn numbers_are_written_in_decimal() {
    let mut s = String::from("n=");
    push_decimal(&mut s, 0);
    s.push(' ');
    push_decimal(&mut s, 1234567890123);
    assert_eq!(s, "n=0 1234567890123");
}

fn audit(role: &str, value: &str, set: bool, exists: bool, ok: bool) -> RoleAudit {
    RoleAudit {
        role: role.to_string(),
        value: value.to_string(),
        resolved: value.to_string(),
        set,
        exists,
        format: String::new(),
        ok,
    }
}

#[test]
fn the_report_names_every_fault_and_counts_them() {
    let facts = DiagnosticFacts {
        version: "1.4.0".to_string(),
        commit: "abc123".to_string(),
        arch: "x86_64".to_string(),
        exe: "C:\\Cursed\\cursed.exe".to_string(),
        signed_updates: false,
        product_name: "Cursed".to_string(),
        channel: "user".to_string(),
        pointer: PointerHolder::Other { product: "Cursed Dev".to_string(), pid: 4242 },
        storage: vec![
            StorageFact {
                label: "data  ".to_string(),
                storage: Storage::Found { exists: true, writable: false, path: "C:\\data".to_string() },
            },
            StorageFact { label: "cache ".to_string(), storage: Storage::Unavailable("no profile".to_string()) },
        ],
        built_in: 0,
        imported: 3,
        cache_mb: "1.50".to_string(),
        scheme: "Cursed \u{2014} Neon".to_string(),
        audits: vec![
            audit("Arrow", "C:\\a.cur", true, true, true),
            audit("Help", "", false, false, true),
            audit("AppStarting", "C:\\b.ani", true, false, false),
            audit("Wait", "C:\\c.cur", true, true, false),
        ],
        snapshot: "true".to_string(),
        applied_recorded: false,
        updates: UpdateFacts {
            endpoint: "https://example.invalid/releases".to_string(),
            checking: false,
            downloading: false,
            ready: true,
            status: Some(UpdateCheck { current: "1.4.0".to_string(), latest: None, newer: false }),
            error: Some("timed out".to_string()),
        },
    };
    let lines = [
        "CURSED DIAGNOSTICS",
        "version 1.4.0   commit abc123   arch x86_64",
        "exe     C:\\Cursed\\cursed.exe",
        "updates checksum only (no signing key in this build)",
        "channel Cursed (user)",
        "pointer held by Cursed Dev (pid 4242)",
        "",
        "STORAGE",
        "data    exists=true writable=false  C:\\data",
        "cache   UNAVAILABLE: no profile",
        "",
        "CATALOG",
        "built-in 0   imported 3   total 3",
        "!! the built-in catalog is empty -- this is a bug, please report it",
        "cache    1.50 MB",
        "",
        "REGISTRY  HKCU\\Control Panel\\Cursors",
        "scheme  Cursed \u{2014} Neon",
        "  Arrow        C:\\a.cur",
        "  Help         (empty -- Windows default)",
        "  AppStarting  C:\\b.ani   << FILE MISSING",
        "  Wait         C:\\c.cur   << NOT A LOADABLE CURSOR",
        "  3 of 17 set, 2 fault(s)",
        "",
        "SAFETY NET",
        "original scheme snapshot  true",
        "applied state recorded    false",
        "",
        "UPDATES",
        "endpoint  https://example.invalid/releases",
        "checking=false downloading=false ready=true",
        "current 1.4.0   latest (unknown)   newer false",
        "last error: timed out",
    ];
    let mut expected = String::new();
    for l in lines {
        expected.push_str(l);
        expected.push('\n');
    }
    assert_eq!(diagnostics_report(&facts), expected);
}

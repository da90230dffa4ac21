//! How the installer is called and how its output is shown.

use tracing_console::installer::{
    combined_output, installer_command, installer_plan, sanitize_for_modal, version_is_safe,
};

#[test]
fn strips_csi_color_sequences() {
    let in_ = "\x1b[31mred\x1b[0m and \x1b[1;33mbold yellow\x1b[m";
    assert_eq!(sanitize_for_modal(in_), "red and bold yellow");
}

#[test]
fn keeps_newlines_and_tabs() {
    let in_ = "line one\nline\ttwo\n";
    assert_eq!(sanitize_for_modal(in_), "line one\nline\ttwo\n");
}

#[test]
fn replaces_bare_control_chars() {
    let in_ = "a\x07b\x0bc\x0cd";
    assert_eq!(sanitize_for_modal(in_), "a b c d");
}

#[test]
fn caps_runaway_output() {
    let in_ = "x".repeat(100_000);
    let out = sanitize_for_modal(&in_);
    assert!(out.len() < 5000, "got len {}", out.len());
    assert!(out.ends_with("…(truncated)"));
}

#[test]
fn rejects_shell_metacharacters() {
    assert!(!version_is_safe("0.1.0; rm -rf /"));
    assert!(!version_is_safe("0.1.0`whoami`"));
    assert!(!version_is_safe("$(echo bad)"));
    assert!(!version_is_safe(""));
    assert!(!version_is_safe("v0.1.0"));
}

#[test]
fn accepts_well_formed_versions() {
    for v in ["0.1.1", "10.20.30", "0.0.0"] {
        assert!(version_is_safe(v), "{v}");
    }
}

#[test]
fn versions_are_short() {
    assert!(version_is_safe(&"1".repeat(31)));
    assert!(!version_is_safe(&"1".repeat(32)));
}

#[test]
fn a_lone_escape_is_dropped() {
    assert_eq!(sanitize_for_modal("a\x1bb"), "ab");
    assert_eq!(sanitize_for_modal("a\x1b["), "a");
    assert_eq!(sanitize_for_modal("a\x1b[12"), "a");
    assert_eq!(sanitize_for_modal("a\x1b"), "a");
    assert_eq!(sanitize_for_modal("\u{85}é…"), " é…");
}

#[test]
fn wide_characters_count_by_their_bytes() {
    let in_ = "é".repeat(3000);
    let out = sanitize_for_modal(&in_);
    assert_eq!(out, format!("{}\n…(truncated)", "é".repeat(2048)));
    assert_eq!(sanitize_for_modal(&"é".repeat(2048)), "é".repeat(2048));
}

#[test]
fn commands_name_the_version() {
    let url = "https://raw.githubusercontent.com/kvc0/tracing-console/main/install.sh";
    assert_eq!(
        installer_command(None),
        format!("set -o pipefail; curl -fsSL {url} | bash"),
    );
    assert_eq!(
        installer_plan(Some("0.2.0")).unwrap(),
        format!("set -o pipefail; curl -fsSL {url} | bash -s -- 0.2.0"),
    );
    assert!(installer_plan(Some("0.2.0;x")).is_none());
    assert!(installer_plan(None).is_some());
}

#[test]
fn errors_come_first() {
    assert_eq!(combined_output("bad", "rest"), "bad\nrest");
    assert_eq!(combined_output("bad\n", "rest"), "bad\nrest");
    assert_eq!(combined_output("", "rest"), "rest");
    assert_eq!(combined_output("bad", ""), "bad");
}

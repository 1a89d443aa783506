use apt_sync::analyze::same_day_neighbors;
use apt_sync::analyze::siblings;
use apt_sync::history::find_install_history;
use apt_sync::history::parse_history;
use apt_sync::history::parse_history_packages;
use apt_sync::report::format_pkg_list;

#[test]
fn parse_history_entry() {
    let log = "\
Start-Date: 2026-02-10  12:11:38
Commandline: apt-get install -y build-essential
Requested-By: user (1000)
Install: build-essential:amd64 (12.12ubuntu1), gcc:amd64 (4:15.2.0-4ubuntu1, automatic)
End-Date: 2026-02-10  12:12:00
";
    let entries = parse_history(log);
    assert_eq!(entries.len(), 1);
    assert_eq!(entries[0].date, "2026-02-10  12:11:38");
    assert_eq!(entries[0].commandline, "apt-get install -y build-essential");
    assert_eq!(entries[0].requested_by.as_deref(), Some("user (1000)"));
    // Only non-automatic packages
    assert_eq!(entries[0].installed, vec!["build-essential"]);
}

#[test]
fn parse_history_skips_upgrades() {
    let log = "\
Start-Date: 2026-02-06  08:54:10
Commandline: apt full-upgrade --autoremove --purge
Requested-By: user (1000)
Upgrade: python3.13:amd64 (3.13.7-1ubuntu0.2, 3.13.7-1ubuntu0.3)
End-Date: 2026-02-06  08:55:14
";
    let entries = parse_history(log);
    assert!(entries.is_empty());
}

#[test]
fn parse_history_multiple_entries() {
    let log = "\
Start-Date: 2025-07-17  11:55:46
Commandline: apt-get install --assume-yes apt-transport-https ca-certificates
Requested-By: user (1000)
Install: apt-transport-https:amd64 (3.0.0), ca-certificates:amd64 (1.0, automatic)
End-Date: 2025-07-17  11:56:00

Start-Date: 2026-01-15  14:26:08
Commandline: apt -y install apt-transport-https
Install: apt-transport-https:amd64 (3.1.6ubuntu2)
End-Date: 2026-01-15  14:26:10
";
    let entries = parse_history(log);
    assert_eq!(entries.len(), 2);
    let hits = find_install_history(&entries, "apt-transport-https");
    assert_eq!(hits.len(), 2);
    // Second entry has no requested_by
    assert!(hits[1].requested_by.is_none());
}

#[test]
fn parse_history_packages_filters_automatic() {
    let line = "build-essential:amd64 (12.12), gcc:amd64 (15.2, automatic), make:amd64 (4.4, automatic)";
    let pkgs = parse_history_packages(line);
    assert_eq!(pkgs, vec!["build-essential"]);
}

#[test]
fn find_history_no_match() {
    let entries = parse_history("");
    assert!(find_install_history(&entries, "nonexistent").is_empty());
}

#[test]
fn why_shows_siblings() {
    let log = "\
Start-Date: 2025-08-10  10:00:00
Commandline: apt-get install uidmap aardvark-dns
Requested-By: user (1000)
Install: uidmap:amd64 (1.0), aardvark-dns:amd64 (1.0)
End-Date: 2025-08-10  10:01:00
";
    let entries = parse_history(log);
    let hits = find_install_history(&entries, "uidmap");
    assert_eq!(hits.len(), 1);
    let sibs = siblings(&hits[0], "uidmap");
    assert_eq!(sibs, vec!["aardvark-dns"]);
}

#[test]
fn why_shows_same_day_context() {
    let log = "\
Start-Date: 2025-08-10  10:00:00
Commandline: apt-get install uidmap aardvark-dns
Install: uidmap:amd64 (1.0), aardvark-dns:amd64 (1.0)
End-Date: 2025-08-10  10:01:00

Start-Date: 2025-08-10  14:00:00
Commandline: apt-get install podman slirp4netns
Install: podman:amd64 (1.0), slirp4netns:amd64 (1.0)
End-Date: 2025-08-10  14:01:00
";
    let entries = parse_history(log);
    let hits = find_install_history(&entries, "uidmap");
    let sibs = siblings(&hits[0], "uidmap");
    let neighbors = same_day_neighbors(&entries, &hits[0], "uidmap", &sibs);
    assert_eq!(neighbors, vec!["podman", "slirp4netns"]);
}

#[test]
fn why_same_day_excludes_siblings() {
    let log = "\
Start-Date: 2025-08-10  10:00:00
Commandline: apt-get install uidmap aardvark-dns
Install: uidmap:amd64 (1.0), aardvark-dns:amd64 (1.0)
End-Date: 2025-08-10  10:01:00

Start-Date: 2025-08-10  14:00:00
Commandline: apt-get install aardvark-dns podman
Install: aardvark-dns:amd64 (1.0), podman:amd64 (1.0)
End-Date: 2025-08-10  14:01:00
";
    let entries = parse_history(log);
    let hits = find_install_history(&entries, "uidmap");
    let sibs = siblings(&hits[0], "uidmap");
    assert!(sibs.contains(&"aardvark-dns".to_string()));
    let neighbors = same_day_neighbors(&entries, &hits[0], "uidmap", &sibs);
    // aardvark-dns is already a sibling, should not appear in same-day
    assert!(!neighbors.contains(&"aardvark-dns".to_string()));
    assert!(neighbors.contains(&"podman".to_string()));
}

#[test]
fn why_no_context_when_solo() {
    let log = "\
Start-Date: 2025-08-10  10:00:00
Commandline: apt-get install uidmap
Install: uidmap:amd64 (1.0)
End-Date: 2025-08-10  10:01:00
";
    let entries = parse_history(log);
    let hits = find_install_history(&entries, "uidmap");
    let sibs = siblings(&hits[0], "uidmap");
    assert!(sibs.is_empty());
    let neighbors = same_day_neighbors(&entries, &hits[0], "uidmap", &sibs);
    assert!(neighbors.is_empty());
}

#[test]
fn why_format_pkg_list_truncation() {
    let short: Vec<String> = vec!["a".into(), "b".into(), "c".into()];
    assert_eq!(format_pkg_list(&short), "a, b, c");

    let exact: Vec<String> = vec![
        "a".into(),
        "b".into(),
        "c".into(),
        "d".into(),
        "e".into(),
        "f".into(),
        "g".into(),
        "h".into(),
        "i".into(),
        "j".into(),
    ];
    assert_eq!(format_pkg_list(&exact), "a, b, c, d, e, f, g, h, i, j");

    let long: Vec<String> = vec![
        "a".into(),
        "b".into(),
        "c".into(),
        "d".into(),
        "e".into(),
        "f".into(),
        "g".into(),
        "h".into(),
        "i".into(),
        "j".into(),
        "k".into(),
        "l".into(),
        "m".into(),
    ];
    let result = format_pkg_list(&long);
    assert!(result.ends_with("+ 3 more"));
    assert!(result.starts_with("a, b, c"));
}

#[test]
fn format_pkg_list_exact_truncated_text() {
    let long: Vec<String> = (0..13).map(|i| format!("p{:02}", i)).collect();
    let result = format_pkg_list(&long);
    assert_eq!(
        result,
        "p00, p01, p02, p03, p04, p05, p06, p07, p08, p09 + 3 more"
    );
}

#[test]
fn format_pkg_list_two_digit_remainder() {
    let long: Vec<String> = (0..25).map(|i| format!("q{:02}", i)).collect();
    let result = format_pkg_list(&long);
    assert!(result.ends_with("+ 15 more"));
}

#[test]
fn parse_history_same_text_same_events() {
    let log = "\
Start-Date: 2025-08-10  10:00:00
Commandline: apt-get install uidmap aardvark-dns
Requested-By: user (1000)
Install: uidmap:amd64 (1.0), aardvark-dns:amd64 (1.0)
End-Date: 2025-08-10  10:01:00
";
    let first = parse_history(log);
    let second = parse_history(log);
    assert_eq!(first.len(), second.len());
    for (a, b) in first.iter().zip(second.iter()) {
        assert_eq!(a.date, b.date);
        assert_eq!(a.commandline, b.commandline);
        assert_eq!(a.requested_by, b.requested_by);
        assert_eq!(a.installed, b.installed);
    }
}

#[test]
fn all_automatic_install_yields_no_event() {
    let log = "\
Start-Date: 2026-02-06  09:00:00
Commandline: apt-get install -f
Install: libfoo:amd64 (1.0, automatic), libbar:amd64 (2.0, automatic)
End-Date: 2026-02-06  09:00:30
";
    let entries = parse_history(log);
    assert!(entries.is_empty());
}

#[test]
fn multi_comma_version_is_single_entry() {
    let line = "build-essential:amd64 (12.12ubuntu1), gcc:amd64 (4:15.2.0-4ubuntu1, automatic)";
    let pkgs = parse_history_packages(line);
    assert_eq!(pkgs, vec!["build-essential"]);
}

#[test]
fn end_marker_without_install_list_is_ignored() {
    let log = "\
Start-Date: 2026-02-06  09:00:00
Commandline: apt-get remove old-tool
End-Date: 2026-02-06  09:00:30
";
    let entries = parse_history(log);
    assert!(entries.is_empty());
}

use apt_sync::journal::parse_journal_pwd;
use apt_sync::report::normalize_timestamp;
use apt_sync::report::parse_epoch;
use apt_sync::shell::find_nearby_commands;
use apt_sync::shell::is_interesting_command;
use apt_sync::shell::parse_shell_history;
use apt_sync::shell::ShellHistoryEntry;

fn entry(timestamp: i64, command: &str) -> ShellHistoryEntry {
    ShellHistoryEntry {
        timestamp,
        command: command.to_string(),
    }
}

#[test]
fn parse_journal_pwd_extracts_path() {
    let home = "/home/testuser";
    let journal = format!(
        "Feb 10 21:50:50 host sudo[12345]: PWD={home}/dotfiles ; USER=root ; COMMAND=/usr/bin/apt-get install -y uidmap\n\
         Feb 10 21:50:51 host systemd[1]: Starting apt-daily.service"
    );
    let result = parse_journal_pwd(&journal, "apt-get install -y uidmap", home);
    assert_eq!(result, Some("~/dotfiles".to_string()));
}

#[test]
fn parse_journal_pwd_replaces_home() {
    let home = "/home/testuser";
    let journal = format!(
        "Feb 10 21:50:50 host sudo[12345]: PWD={home}/projects/foo ; USER=root ; COMMAND=/usr/bin/apt install bar"
    );
    let result = parse_journal_pwd(&journal, "apt install bar", home);
    assert_eq!(result, Some("~/projects/foo".to_string()));
}

#[test]
fn parse_journal_pwd_no_match() {
    let home = "/home/testuser";
    let journal = format!(
        "Feb 10 21:50:50 host sudo[12345]: PWD={home}/dotfiles ; USER=root ; COMMAND=/usr/bin/apt-get install -y somepackage\n\
         Feb 10 21:50:51 host systemd[1]: Starting apt-daily.service"
    );
    let result = parse_journal_pwd(&journal, "apt-get install -y differentpackage", home);
    assert_eq!(result, None);
}

#[test]
fn parse_journal_pwd_outside_home_is_verbatim() {
    let journal = "Feb 10 21:50:50 host sudo[1]: PWD=/srv/build ; USER=root ; COMMAND=/usr/bin/apt-get install -y uidmap";
    let result = parse_journal_pwd(journal, "apt-get install -y uidmap", "/home/testuser");
    assert_eq!(result, Some("/srv/build".to_string()));
}

#[test]
fn parse_journal_pwd_needs_candidate_tokens() {
    let journal = "Feb 10 21:50:50 host sudo[1]: PWD=/srv ; USER=root ; COMMAND=/usr/bin/apt-get install";
    let result = parse_journal_pwd(journal, "apt-get install -y", "/home/testuser");
    assert_eq!(result, None);
}

#[test]
fn find_nearby_commands_window() {
    let history = vec![
        entry(1000, "git status"),
        entry(1100, "cd ~/project"),
        entry(1500, "make build"),
        entry(1800, "vim README.md"),
    ];
    let nearby = find_nearby_commands(&history, 1200, 300, false);
    // Within 300s of 1200: 1000 (200s away), 1100 (100s away), 1500 (300s away)
    // 1800 is 600s away, excluded
    assert_eq!(nearby.len(), 3);
    assert!(nearby.contains(&"cd ~/project".to_string()));
    assert!(nearby.contains(&"git status".to_string()));
    assert!(nearby.contains(&"make build".to_string()));
    assert!(!nearby.contains(&"vim README.md".to_string()));
}

#[test]
fn find_nearby_commands_ordered_by_distance() {
    let history = vec![
        entry(1000, "git status"),
        entry(1100, "cd ~/project"),
        entry(1500, "make build"),
        entry(1800, "vim README.md"),
    ];
    let nearby = find_nearby_commands(&history, 1200, 300, false);
    assert_eq!(
        nearby,
        vec![
            "cd ~/project".to_string(),
            "git status".to_string(),
            "make build".to_string()
        ]
    );
}

#[test]
fn find_nearby_commands_excludes_apt() {
    let history = vec![
        entry(1000, "git status"),
        entry(1050, "apt-get install foo"),
        entry(1100, "apt install bar"),
    ];
    let nearby = find_nearby_commands(&history, 1050, 300, false);
    assert_eq!(nearby.len(), 1);
    assert_eq!(nearby[0], "git status");
}

#[test]
fn find_nearby_commands_caps_at_5() {
    let mut history = Vec::new();
    for i in 0..10 {
        history.push(entry(1000 + i * 10, &format!("command{}", i)));
    }
    let nearby = find_nearby_commands(&history, 1050, 300, false);
    assert_eq!(nearby.len(), 5);
}

#[test]
fn find_nearby_commands_filters_trivial() {
    let history = vec![
        entry(1000, "ls -la"),
        entry(1010, "clear"),
        entry(1020, "git status"),
        entry(1030, "pwd"),
        entry(1040, "cargo build"),
    ];
    let nearby = find_nearby_commands(&history, 1020, 300, false);
    // Only git status and cargo build should be included
    assert_eq!(nearby.len(), 2);
    assert!(nearby.contains(&"git status".to_string()));
    assert!(nearby.contains(&"cargo build".to_string()));
    assert!(!nearby.contains(&"ls -la".to_string()));
    assert!(!nearby.contains(&"clear".to_string()));
    assert!(!nearby.contains(&"pwd".to_string()));
}

#[test]
fn find_nearby_commands_show_all() {
    let history = vec![
        entry(1000, "ls -la"),
        entry(1010, "clear"),
        entry(1020, "git status"),
    ];
    let nearby = find_nearby_commands(&history, 1010, 300, true);
    // With show_all=true, all commands should be included
    assert_eq!(nearby.len(), 3);
    assert!(nearby.contains(&"ls -la".to_string()));
    assert!(nearby.contains(&"clear".to_string()));
    assert!(nearby.contains(&"git status".to_string()));
}

#[test]
fn parse_zsh_history_entries() {
    let contents = "\
: 1723305600:0;git status
: 1723305610:0;cd ~/project
: 1723305620:0;cargo build
not a valid line
: invalid:0;skipped
";
    let entries = parse_shell_history(contents);
    assert_eq!(entries.len(), 3);
    assert_eq!(entries[0].timestamp, 1723305600);
    assert_eq!(entries[0].command, "git status");
    assert_eq!(entries[1].timestamp, 1723305610);
    assert_eq!(entries[1].command, "cd ~/project");
    assert_eq!(entries[2].timestamp, 1723305620);
    assert_eq!(entries[2].command, "cargo build");
}

#[test]
fn untimestamped_history_yields_no_records() {
    let contents = "git status\ncd ~/project\ncargo build\n";
    assert!(parse_shell_history(contents).is_empty());
}

#[test]
fn interesting_command_classification() {
    assert!(!is_interesting_command("ls -la"));
    assert!(!is_interesting_command("history"));
    assert!(!is_interesting_command("   "));
    assert!(is_interesting_command("cargo build"));
    assert!(is_interesting_command("git status"));
}

#[test]
fn normalize_timestamp_collapses_whitespace() {
    assert_eq!(
        normalize_timestamp("2026-02-10  21:50:50"),
        "2026-02-10 21:50:50"
    );
}

#[test]
fn parse_epoch_accepts_trimmed_decimal() {
    assert_eq!(parse_epoch("1723305600\n"), Some(1723305600));
    assert_eq!(parse_epoch("  +42  "), Some(42));
    assert_eq!(parse_epoch("not-a-number"), None);
    assert_eq!(parse_epoch("99999999999999999999"), None);
}

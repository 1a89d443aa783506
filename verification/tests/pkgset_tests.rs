use apt_sync::pkgset::add_package;
use apt_sync::pkgset::diff_sorted;
use apt_sync::pkgset::parse_installed;
use apt_sync::pkgset::parse_packages;
use apt_sync::pkgset::remove_package;

#[test]
fn parse_empty() {
    assert!(parse_packages("").is_empty());
}

#[test]
fn parse_with_comments_and_blanks() {
    let input = "# comment\n\nzsh\ngit\n# another\ncurl\n";
    let pkgs = parse_packages(input);
    assert_eq!(pkgs.len(), 3);
    assert!(pkgs.contains(&"zsh".to_string()));
    assert!(pkgs.contains(&"git".to_string()));
    assert!(pkgs.contains(&"curl".to_string()));
}

#[test]
fn parse_trims_whitespace() {
    let input = "  zsh  \n  git  \n";
    let pkgs = parse_packages(input);
    assert!(pkgs.contains(&"zsh".to_string()));
    assert!(pkgs.contains(&"git".to_string()));
}

#[test]
fn parse_deduplicates() {
    let input = "zsh\nzsh\ngit\n";
    let pkgs = parse_packages(input);
    assert_eq!(pkgs.len(), 2);
}

#[test]
fn parse_only_comments() {
    let input = "# just a comment\n# another comment\n";
    assert!(parse_packages(input).is_empty());
}

#[test]
fn diff_logic() {
    let curated: Vec<String> = vec!["curl".into(), "git".into(), "zsh".into()];
    let system: Vec<String> = vec!["git".into(), "vim".into()];
    let on_system_only = diff_sorted(&system, &curated);
    let in_list_only = diff_sorted(&curated, &system);
    assert_eq!(on_system_only, vec!["vim".to_string()]);
    assert!(in_list_only.contains(&"curl".to_string()));
    assert!(in_list_only.contains(&"zsh".to_string()));
}

#[test]
fn parse_installed_output() {
    let output = "curl\tinstall ok installed\n\
                  git\tdeinstall ok config-files\n\
                  zsh\tinstall ok installed\n";
    let set = parse_installed(output);
    assert_eq!(set.len(), 2);
    assert!(set.contains(&"curl".to_string()));
    assert!(set.contains(&"zsh".to_string()));
    assert!(!set.contains(&"git".to_string()));
}

#[test]
fn parse_installed_empty() {
    assert!(parse_installed("").is_empty());
}

#[test]
fn parse_installed_malformed() {
    let output = "no-tab-here\n\tleading-tab\n";
    assert!(parse_installed(output).is_empty());
}

#[test]
fn parse_packages_is_sorted() {
    let pkgs = parse_packages("zsh\ncurl\ngit\n");
    assert_eq!(
        pkgs,
        vec!["curl".to_string(), "git".to_string(), "zsh".to_string()]
    );
}

#[test]
fn add_package_reports_new_and_known() {
    let mut pkgs = parse_packages("git\n");
    assert!(add_package(&mut pkgs, "curl"));
    assert!(!add_package(&mut pkgs, "curl"));
    assert_eq!(pkgs, vec!["curl".to_string(), "git".to_string()]);
}

#[test]
fn remove_package_reports_presence() {
    let mut pkgs = parse_packages("curl\ngit\n");
    assert!(remove_package(&mut pkgs, "git"));
    assert!(!remove_package(&mut pkgs, "git"));
    assert_eq!(pkgs, vec!["curl".to_string()]);
}

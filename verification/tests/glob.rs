//! Finding packages by the command line.
use nala::apt::{Marked, Package, PackageFile, PkgCurrentState, Version, VersionFile};
use nala::cmd::Operation;
use nala::config::{AptConfig, Config, Style, StyleSheet, Switch};
use nala::glob::{
    collect_rows, find_row_takers, find_takers, find_version, get_sorter, hand_out,
    hand_out_rows, nala_installed, pkgs_with_modifiers, read_globs, read_regexes, regex_pkgs,
    split_version, strip_modifier, CliPackage, CliPackages, Description,
};
use nala::history::{HistoryEntry, HistoryPackage};

fn style(prefix: &str) -> Style {
    Style { prefix: prefix.to_string() }
}

/// Styles whose prefix is a mark.
fn sheet() -> StyleSheet {
    StyleSheet {
        primary: style("<p>"),
        secondary: style("<s>"),
        regular: style("<r>"),
        highlight: style("<h>"),
        progress_filled: style("<f>"),
        progress_unfilled: style("<u>"),
        notice: style("<n>"),
        warning: style("<w>"),
        error: style("<e>"),
    }
}

/// A configuration without colours.
fn plain() -> Config {
    let mut config = Config::with_defaults(AptConfig::new(vec!["amd64".to_string()]), &sheet());
    config.can_color = Switch::Never;
    config
}

fn index(archive: &str) -> PackageFile {
    PackageFile {
        archive: Some(archive.to_string()),
        origin: Some("Debian".to_string()),
        codename: Some("bookworm".to_string()),
        component: Some("main".to_string()),
        arch: Some("amd64".to_string()),
        filename: None,
        downloadable: archive != "now",
        trusted: true,
    }
}

fn version(package: &str, number: &str, order: u64) -> Version {
    Version {
        package: package.to_string(),
        version: number.to_string(),
        order,
        arch: "amd64".to_string(),
        multi_arch: "no".to_string(),
        size: 100,
        installed_size: 400,
        installed: false,
        downloadable: true,
        files: vec![VersionFile {
            file: index("stable"),
            uri: format!("http://deb.debian.org/debian/pool/{package}_{number}_amd64.deb"),
        }],
        records: Vec::new(),
        hashes: Vec::new(),
        description: None,
        summary: None,
        section: None,
        priority: None,
        source_name: package.to_string(),
        provides: Vec::new(),
        depends: Vec::new(),
    }
}

fn package(id: u64, name: &str, versions: Vec<Version>) -> Package {
    Package {
        id,
        name: name.to_string(),
        fullname: name.to_string(),
        long_name: format!("{name}:amd64"),
        arch: "amd64".to_string(),
        installed: versions.iter().position(|v| v.installed),
        candidate: if versions.is_empty() { None } else { Some(0) },
        install_version: if versions.is_empty() { None } else { Some(0) },
        versions,
        marked: Marked::Keep,
        marked_install: false,
        marked_upgrade: false,
        marked_delete: false,
        marked_purge: false,
        current_state: PkgCurrentState::NotInstalled,
        essential: false,
        auto_removable: false,
        auto_installed: false,
        providers: Vec::new(),
    }
}

fn asked_for(names: &[&str]) -> Config {
    let mut config = plain();
    let names = names.iter().map(|s| s.to_string()).collect();
    config.vec_map.insert("pkg_names".to_string(), names);
    config
}

fn packages() -> Vec<Package> {
    let mut foreign = package(4, "apt-utils", vec![version("apt-utils", "1", 1)]);
    foreign.arch = "armhf".to_string();
    vec![
        package(1, "zsh", vec![version("zsh", "5", 5)]),
        package(2, "apt", vec![version("apt", "2", 2), version("apt", "1", 1)]),
        package(3, "apt-utils", vec![version("apt-utils", "1", 1)]),
        foreign,
    ]
}

fn names(found: &CliPackages) -> Vec<String> {
    found.only_pkgs().iter().map(|p| p.name.clone()).collect()
}

#[test]
fn versions_behind_an_equals_sign() {
    assert_eq!(split_version("apt".to_string()), ("apt".to_string(), None));
    assert_eq!(
        split_version("apt=1=2".to_string()),
        ("apt".to_string(), Some("1=2".to_string()))
    );
}

#[test]
fn modifiers_at_the_end_of_a_name() {
    assert_eq!(strip_modifier("apt"), ("apt".to_string(), None));
    assert_eq!(strip_modifier("apt-"), ("apt".to_string(), Some(Operation::Remove)));
    assert_eq!(strip_modifier("apt+"), ("apt".to_string(), Some(Operation::Install)));
    assert_eq!(strip_modifier("apt+-"), ("apt".to_string(), Some(Operation::Install)));
    assert_eq!(strip_modifier("apt-+"), ("apt-".to_string(), Some(Operation::Install)));
}

#[test]
fn flags_choose_the_packages() {
    let mut config = plain();
    let sorter = get_sorter(&config);
    assert!(!sorter.installed && !sorter.upgradable && !sorter.only_virtual);
    config.nala_map.insert("virtual".to_string(), true);
    config.nala_map.insert("installed".to_string(), true);
    let sorter = get_sorter(&config);
    assert!(sorter.installed && !sorter.upgradable && sorter.only_virtual);
}

fn transaction(operation: Operation, explicit: &[&str], installed: &[&str]) -> HistoryEntry {
    let record = |name: &&str| HistoryPackage {
        name: name.to_string(),
        version: "1".to_string(),
        old_version: None,
        size: 1,
        operation: Operation::Install,
    };
    HistoryEntry {
        id: 1,
        date: String::new(),
        requested_by: String::new(),
        command: String::new(),
        altered: 1,
        purged: false,
        operation,
        explicit: explicit.iter().map(|s| s.to_string()).collect(),
        packages: installed.iter().map(record).collect(),
    }
}

#[test]
fn only_what_was_explicitly_installed() {
    let all = || -> Vec<Package> {
        ["a", "b", "c", "d", "e", "g++"]
            .iter()
            .map(|name| {
                let mut pkg = package(1, name, vec![version(name, "1", 1)]);
                pkg.installed = if *name == "d" { None } else { Some(0) };
                pkg
            })
            .collect()
    };
    let history = vec![
        transaction(Operation::Install, &["c", "d", "e-"], &["c", "d"]),
        transaction(Operation::Remove, &["a=1", "b"], &["a"]),
        transaction(Operation::Install, &["g++"], &[]),
    ];
    let kept = |config: &Config, history: &Vec<HistoryEntry>| -> Vec<String> {
        nala_installed(config, all(), history).into_iter().map(|pkg| pkg.name).collect()
    };
    let mut config = plain();
    assert_eq!(kept(&config, &history).len(), 6);
    config.nala_map.insert("nala_installed".to_string(), true);
    assert_eq!(kept(&config, &history), vec!["a", "c", "g++"]);
    assert!(kept(&config, &Vec::new()).is_empty());
}

#[test]
fn the_first_matching_argument_takes_a_package() {
    let all = packages();
    let config = asked_for(&["zsh-", "APT*", "apt-utils"]);
    let error = pkgs_with_modifiers(&config, &all).unwrap_err();
    assert_eq!(error.lines, vec!["Error: 'apt-utils' was not found"]);
    assert_eq!(error.error.message, "Some packages were not found in the cache");
    let config = asked_for(&["zsh-", "APT*"]);
    let found = pkgs_with_modifiers(&config, &all).unwrap();
    assert_eq!(names(&found), vec!["apt", "apt-utils", "zsh"]);
    assert_eq!(found.found_as_ref()[0].modifier, None);
    assert_eq!(found.found_as_ref()[2].modifier, Some(Operation::Remove));
    assert_eq!(found.found()[0].version.version, "2");
}

#[test]
fn a_version_can_be_asked_for() {
    let all = packages();
    let config = asked_for(&["apt=1"]);
    let found = pkgs_with_modifiers(&config, &all).unwrap();
    assert_eq!(found.found_as_ref()[0].version.version, "1");
    let config = asked_for(&["apt=9"]);
    let error = pkgs_with_modifiers(&config, &all).unwrap_err();
    assert!(error.lines.is_empty());
    assert_eq!(error.error.message, "Unable to find version '9' for 'apt'");
}

#[test]
fn a_package_without_versions_cannot_be_taken() {
    let all = vec![package(1, "mta", Vec::new())];
    let error = pkgs_with_modifiers(&asked_for(&["mta"]), &all).unwrap_err();
    assert_eq!(error.error.message, "Unable to find any versions for 'mta'");
}

#[test]
fn names_must_be_given() {
    let all = packages();
    let error = pkgs_with_modifiers(&plain(), &all).unwrap_err();
    assert_eq!(error.error.message, "At least one package name must be specified");
    assert!(regex_pkgs(&plain(), &Vec::new(), &Vec::new()).is_err());
}

#[test]
fn a_broken_glob_is_an_error() {
    assert!(read_globs(&vec!["ok".to_string(), "[".to_string()]).is_err());
    let all = packages();
    assert!(pkgs_with_modifiers(&asked_for(&["["]), &all).is_err());
}

fn descriptions() -> Vec<Description> {
    let desc = |index: u64, text: &str| Description {
        index: Some(index),
        text: Some(text.to_string()),
    };
    vec![
        desc(9, "a shell with lots of features"),
        desc(7, "a package manager"),
        Description { index: None, text: None },
        desc(1, "utilities"),
    ]
}

#[test]
fn searching_names_and_descriptions() {
    let all = packages();
    let descs = descriptions();
    let config = asked_for(&["^apt$", "SHELL|util"]);
    let found = regex_pkgs(&config, &all, &descs).unwrap();
    assert_eq!(names(&found), vec!["apt", "apt-utils", "zsh"]);
}

#[test]
fn searching_names_only() {
    let all = packages();
    let descs = descriptions();
    let mut config = asked_for(&["shell"]);
    assert_eq!(names(&regex_pkgs(&config, &all, &descs).unwrap()), vec!["zsh"]);
    config.nala_map.insert("names_only".to_string(), true);
    let error = regex_pkgs(&config, &all, &descs).unwrap_err();
    assert_eq!(error.lines, vec!["Error: 'shell' was not found"]);
    let error = regex_pkgs(&asked_for(&["("]), &all, &descs).unwrap_err();
    assert!(error.error.message.contains("unclosed group"));
}

#[test]
fn arguments_are_built_step_by_step() {
    let all = packages();
    let mut cli = CliPackage::new_glob("apt".to_string())
        .unwrap()
        .modifier(Some(Operation::Install))
        .with_pkg(&all[1], &all[1].versions[0]);
    cli.add_no_op(&all[0], &all[0].versions[0]);
    cli.set_ver("1".to_string());
    assert_eq!(cli.get_version(&all[1]).unwrap().version, "1");
    assert!(cli.is_match("APT"));
    assert!(CliPackage::new_regex("p".to_string()).unwrap().is_match("apt"));
    assert_eq!(find_version(&all[1], "1").unwrap().order, 1);
    let mut list = CliPackages::new();
    list.push(cli);
    assert!(list.find_mut("zsh").is_none());
    assert!(list.find_mut("apt").is_some());
    assert!(list.check_not_found(&plain()).is_ok());
    list.sort_by_name();
    assert_eq!(names(&list), vec!["apt", "zsh"]);
}

fn read(args: &[&str]) -> CliPackages<'static> {
    read_globs(&args.iter().map(|s| s.to_string()).collect()).unwrap()
}

#[test]
fn packages_are_handed_out() {
    let all = packages();
    let globs = read(&["zsh-", "apt*", "apt=1"]);
    let arches = vec!["amd64".to_string()];
    let places = find_takers(&globs, &all, &arches);
    assert_eq!(places, vec![Some(0), Some(1), Some(1), None]);
    let found = hand_out(globs, &all, &vec![None, Some(2), Some(0), None]).unwrap();
    assert_eq!(names(&found), vec!["apt-utils", "apt"]);
    assert_eq!(found.found_as_ref()[0].modifier, Some(Operation::Remove));
    assert_eq!(found.found_as_ref()[1].version.version, "1");
    let error = hand_out(read(&["apt=1"]), &all, &vec![Some(0), None, None, None]).unwrap_err();
    assert_eq!(error.message, "Unable to find version '1' for 'zsh'");
}

#[test]
fn rows_are_handed_out() {
    let all = packages();
    let descs = descriptions();
    let rows = collect_rows(&all, &descs, "amd64");
    assert_eq!(rows.iter().map(|r| r.index).collect::<Vec<u64>>(), vec![9, 7, 0]);
    let args = vec!["shell".to_string(), "apt".to_string()];
    let list = read_regexes(&args).unwrap();
    assert_eq!(find_row_takers(&list, &rows, false), vec![Some(0), Some(1), Some(1)]);
    assert_eq!(find_row_takers(&list, &rows, true), vec![None, Some(1), Some(1)]);
    let found = hand_out_rows(list, &rows, &vec![Some(1), None, Some(0)]);
    assert_eq!(names(&found), vec!["apt-utils", "zsh"]);
}

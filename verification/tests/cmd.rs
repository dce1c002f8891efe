//! Showing and listing packages, and sorting changes.
use nala::apt::{
    BaseDep, DepType, Dependency, Marked, Package, PackageFile, PkgCurrentState, Provider,
    Version, VersionFile,
};
use nala::cmd::grouped::Grouped;
use nala::cmd::list::{list_packages, list_version};
use nala::cmd::show::{
    dependency_footer, format_dependency, format_local, local_metadata, local_source,
    pacstall_regex, show, show_dependency, shown_places, url_regex,
};
use nala::cmd::{archive_site, found_site, print_info, Operation, ShowVersion, Shown};
use nala::config::{AptConfig, Config, Style, StyleSheet, Switch, Theme};
use nala::libnala::{Cache, NalaCache, NalaPkg, Removal, Virtual};
use nala::upgrade;

fn style(prefix: &str) -> Style {
    Style { prefix: prefix.to_string() }
}

/// Styles whose prefix is a mark.
fn sheet() -> StyleSheet {
    StyleSheet {
        primary: style("<p>"),
        secondary: style("<s>"),
        regular: style("<r>"),
        highlight: style("<h>"),
        progress_filled: style("<f>"),
        progress_unfilled: style("<u>"),
        notice: style("<n>"),
        warning: style("<w>"),
        error: style("<e>"),
    }
}

/// A configuration without colours.
fn plain() -> Config {
    let mut config = Config::with_defaults(AptConfig::new(vec!["amd64".to_string()]), &sheet());
    config.can_color = Switch::Never;
    config
}

fn index(archive: &str) -> PackageFile {
    PackageFile {
        archive: Some(archive.to_string()),
        origin: Some("Debian".to_string()),
        codename: Some("bookworm".to_string()),
        component: Some("main".to_string()),
        arch: Some("amd64".to_string()),
        filename: None,
        downloadable: archive != "now",
        trusted: true,
    }
}

fn version(package: &str, number: &str, order: u64) -> Version {
    Version {
        package: package.to_string(),
        version: number.to_string(),
        order,
        arch: "amd64".to_string(),
        multi_arch: "no".to_string(),
        size: 100,
        installed_size: 400,
        installed: false,
        downloadable: true,
        files: vec![VersionFile {
            file: index("stable"),
            uri: format!("http://deb.debian.org/debian/pool/{package}_{number}_amd64.deb"),
        }],
        records: Vec::new(),
        hashes: Vec::new(),
        description: None,
        summary: None,
        section: None,
        priority: None,
        source_name: package.to_string(),
        provides: Vec::new(),
        depends: Vec::new(),
    }
}

fn package(id: u64, name: &str, versions: Vec<Version>) -> Package {
    Package {
        id,
        name: name.to_string(),
        fullname: name.to_string(),
        long_name: format!("{name}:amd64"),
        arch: "amd64".to_string(),
        installed: versions.iter().position(|v| v.installed),
        candidate: if versions.is_empty() { None } else { Some(0) },
        install_version: if versions.is_empty() { None } else { Some(0) },
        versions,
        marked: Marked::Keep,
        marked_install: false,
        marked_upgrade: false,
        marked_delete: false,
        marked_purge: false,
        current_state: PkgCurrentState::NotInstalled,
        essential: false,
        auto_removable: false,
        auto_installed: false,
        providers: Vec::new(),
    }
}

fn dep(name: &str, constraint: Option<(&str, &str)>) -> BaseDep {
    BaseDep {
        name: name.to_string(),
        constraint: constraint.map(|(c, v)| (c.to_string(), v.to_string())),
    }
}

fn lines(shown: &Shown) -> &Vec<String> {
    match shown {
        Shown::Lines(lines) => lines,
        Shown::Json => panic!("lines were expected"),
    }
}

#[test]
fn operations_and_their_names() {
    let all = Operation::to_vec();
    assert_eq!(all.len(), 8);
    assert!(!all.contains(&Operation::Held));
    assert_eq!(Operation::Reinstall.as_str(), "ReInstall");
    assert_eq!(Operation::AutoPurge.as_str(), "AutoPurge");
    for i in 0..all.len() {
        for j in 0..i {
            assert_ne!(all[i].as_str(), all[j].as_str());
        }
    }
    assert_eq!(Operation::AutoRemove.theme(), Theme::Error);
    assert_eq!(Operation::Upgrade.theme(), Theme::Secondary);
    assert_eq!(Operation::Held.theme(), Theme::Notice);
}

#[test]
fn groups_keep_the_order_of_their_items() {
    let mut groups: Grouped<u8> = Grouped::new();
    assert!(groups.is_empty());
    groups.push(Operation::Install, 1);
    groups.push(Operation::Remove, 2);
    groups.push(Operation::Install, 3);
    assert_eq!(groups.get(Operation::Install), Some(&vec![1, 3]));
    assert_eq!(groups.len(), 2);
    groups.insert(Operation::Install, vec![9]);
    assert_eq!(groups.at(0), (Operation::Install, &vec![9]));
    assert_eq!(groups.get(Operation::Held), None);
}

#[test]
fn information_lines_are_highlighted() {
    let mut config = plain();
    assert_eq!(print_info(&config, "Package", "apt"), "Package: apt");
    config.can_color = Switch::Always;
    assert_eq!(print_info(&config, "A", "b"), "<h>A\x1b[0m<h>:\x1b[0m b");
}

#[test]
fn dependencies_with_and_without_a_version() {
    let config = plain();
    assert_eq!(format_dependency(&config, &dep("libc6", None), Theme::Primary), "libc6");
    assert_eq!(
        format_dependency(
            &config,
            &dep("libgnutls30", Some((">=", "3.7.5"))),
            Theme::Primary
        ),
        "libgnutls30 (>= 3.7.5)"
    );
}

#[test]
fn footers_between_dependencies() {
    assert_eq!(dependency_footer(5, 0), "\n    ");
    assert_eq!(dependency_footer(4, 0), ", ");
    assert_eq!(dependency_footer(4, 3), " ");
}

#[test]
fn alternatives_and_long_lists_of_dependencies() {
    let config = plain();
    let one = |name: &str| Dependency { first: dep(name, None), rest: Vec::new() };
    let either = Dependency { first: dep("mta", None), rest: vec![dep("exim4", None)] };
    assert_eq!(
        show_dependency(&config, &vec![one("a"), either], Theme::Primary),
        "a, mta | exim4 "
    );
    let many: Vec<Dependency> = ["a", "b", "c", "d", "e"].iter().map(|n| one(n)).collect();
    assert_eq!(
        show_dependency(&config, &many, Theme::Primary),
        "\n    a\n    b\n    c\n    d\n    e\n    "
    );
}

#[test]
fn metadata_files_of_a_local_package() {
    let files = local_metadata("foo");
    assert_eq!(files.len(), 5);
    assert_eq!(files[0], "/var/log/pacstall/metadata/foo");
    assert_eq!(files[4], "/var/log/pacstall/metadata/foo-app");
}

#[test]
fn repositories_of_a_local_package() {
    let config = plain();
    assert_eq!(local_source(&config, &Vec::new()), "local install");
    assert_eq!(
        local_source(&config, &vec![None]),
        "https://github.com/pacstall/pacstall-programs"
    );
    let pacstall = pacstall_regex().unwrap();
    let metadata = vec!["_name=\"x\"\n_remoterepo=\"https://example.org/repo\"\n".to_string()];
    assert_eq!(format_local(&config, &pacstall, &metadata), "https://example.org/repo");
}

#[test]
fn records_are_shown_in_order() {
    let config = plain();
    let mut ver = version("apt", "2.6.1", 5);
    ver.records = vec![
        ("Version".to_string(), "2.6.1".to_string()),
        ("Package".to_string(), "apt".to_string()),
    ];
    ver.provides = vec!["apt-transport-https".to_string(), "apt-utils".to_string()];
    ver.description = Some("package manager".to_string());
    ver.depends = vec![
        (DepType::DpkgBreaks, vec![Dependency { first: dep("old", None), rest: Vec::new() }]),
        (DepType::Depends, vec![Dependency { first: dep("libc6", None), rest: Vec::new() }]),
    ];
    let shown = ShowVersion::new(&ver);
    let names: Vec<&str> = shown.records.keys().map(|k| k.as_str()).collect();
    assert_eq!(names[0], "Package");
    assert_eq!(names[12], "SHA256");
    assert_eq!(shown.records["Maintainer"], "Unknown");
    let site = archive_site(&ver, &url_regex().unwrap()).unwrap();
    assert_eq!(site, "http://deb.debian.org/debian/");
    let map = shown.pretty_map(&config, &site, "");
    assert_eq!(map["Depends"], "libc6");
    assert_eq!(map["Breaks"], "old");
    assert_eq!(
        map["APT-Sources"],
        "http://deb.debian.org/debian/ bookworm/main amd64 Packages"
    );
    assert_eq!(map["Provides"], "apt-transport-https apt-utils");
    let keys: Vec<&str> = map.keys().skip(13).map(|k| k.as_str()).collect();
    assert_eq!(
        keys,
        vec!["Depends", "Breaks", "Origin", "APT-Sources", "Provides", "Description"]
    );
    let all = shown.show(&config, &site, "");
    assert_eq!(lines(&all)[1], "Version: 2.6.1");
    assert_eq!(lines(&all).last().unwrap(), "Description: package manager");
}

#[test]
fn machines_read_json() {
    let mut config = plain();
    config.nala_map.insert("machine".to_string(), true);
    let ver = version("apt", "2.6.1", 5);
    assert!(matches!(ShowVersion::new(&ver).show(&config, "", ""), Shown::Json));
}

#[test]
fn show_counts_the_other_versions() {
    let mut config = plain();
    let packages = vec![package(
        1,
        "apt",
        vec![version("apt", "3", 3), version("apt", "2", 2), version("apt", "1", 1)],
    )];
    let metadata = vec![Vec::new()];
    let url = url_regex().unwrap();
    let pacstall = pacstall_regex().unwrap();
    let (shown, notice) = show(&config, &packages, &metadata, &url, &pacstall).unwrap();
    assert_eq!(shown.len(), 1);
    assert_eq!(
        notice.unwrap(),
        "There are 2 additional records. Please use the '-a' switch to see them."
    );
    config.nala_map.insert("all_versions".to_string(), true);
    let (shown, notice) = show(&config, &packages, &metadata, &url, &pacstall).unwrap();
    assert_eq!(shown.len(), 3);
    assert_eq!(notice, None);
}

#[test]
fn an_address_outside_an_archive_is_an_error() {
    let config = plain();
    let mut ver = version("apt", "3", 3);
    ver.files[0].uri = "ftp://x".to_string();
    let packages = vec![package(1, "apt", vec![ver])];
    let error = show(
        &config,
        &packages,
        &vec![Vec::new()],
        &url_regex().unwrap(),
        &pacstall_regex().unwrap(),
    )
    .unwrap_err();
    assert_eq!(error.message, "ftp://x is not the address of an archive");
}

#[test]
fn a_listed_version_says_what_it_is() {
    let config = plain();
    let mut old = version("apt", "1", 1);
    old.installed = true;
    old.downloadable = false;
    old.files[0].file.archive = Some("now".to_string());
    let new = version("apt", "2", 2);
    let mut pkg = package(1, "apt", vec![new, old]);
    pkg.auto_installed = true;
    assert_eq!(
        list_version(&config, &pkg, &pkg.versions[0], true, false),
        "apt 2 [Debian/bookworm main]  [Upgradable from: 1]\nNo Summary"
    );
    assert_eq!(
        list_version(&config, &pkg, &pkg.versions[1], true, true),
        "apt 1 [Installed, Upgradable to: 2][Installed, Local, Automatic]\nNo Description"
    );
}

#[test]
fn listing_one_version_all_versions_or_providers() {
    let mut config = plain();
    let mut virt = package(2, "mta", Vec::new());
    virt.providers = vec![
        Provider {
            id: 7,
            fullname: "exim4".to_string(),
            long_name: "exim4:amd64".to_string(),
            candidate: None,
        },
        Provider {
            id: 8,
            fullname: "postfix".to_string(),
            long_name: "postfix:amd64".to_string(),
            candidate: Some("3".to_string()),
        },
    ];
    let packages = vec![
        package(1, "apt", vec![version("apt", "2", 2), version("apt", "1", 1)]),
        virt,
    ];
    assert_eq!(
        list_packages(&config, &packages),
        vec!["apt 2 [Debian/bookworm main] ", "mta (Virtual Pkg) [exim4, postfix]"]
    );
    config.nala_map.insert("all_versions".to_string(), true);
    assert_eq!(list_packages(&config, &packages).len(), 3);
}

fn provider(id: u64, name: &str, candidate: Option<&str>) -> Provider {
    Provider {
        id,
        fullname: name.to_string(),
        long_name: format!("{name}:amd64"),
        candidate: candidate.map(|c| c.to_string()),
    }
}

#[test]
fn virtual_packages_lead_to_their_providers() {
    let config = plain();
    let real = package(1, "apt", vec![version("apt", "2", 2)]);
    assert!(matches!(real.filter_virtual(&config), Virtual::Real));
    let mut virt = package(2, "mta", Vec::new());
    match virt.filter_virtual(&config) {
        Virtual::Pure(warning) => {
            assert_eq!(warning, "mta has no providers and is purely virutal")
        },
        _ => panic!("no provider was expected"),
    }
    virt.providers = vec![provider(3, "exim4", Some("4")), provider(3, "exim4", Some("4"))];
    match virt.filter_virtual(&config) {
        Virtual::Select(i, notice) => {
            assert_eq!(i, 0);
            assert_eq!(notice, "Selecting exim4:amd64 instead of virtual package mta");
        },
        _ => panic!("one provider was expected"),
    }
    virt.providers.push(provider(4, "postfix", None));
    virt.providers.push(provider(5, "sendmail", Some("8")));
    match virt.filter_virtual(&config) {
        Virtual::Many(notice, lines, error) => {
            assert_eq!(notice, "mta is a virtual package provided by:");
            assert_eq!(lines, vec!["    exim4 4", "    sendmail 8"]);
            assert_eq!(error.message, "You should select just one.");
        },
        _ => panic!("several providers were expected"),
    }
}

fn marked(id: u64, name: &str, mark: Marked, installed: bool) -> Package {
    let mut old = version(name, "1", 1);
    old.installed = installed;
    let mut pkg = package(id, name, vec![version(name, "2", 2), old]);
    pkg.marked = mark;
    pkg
}

/// A package that nothing needs any more, in a version that no other has.
fn orphan() -> Package {
    let mut pkg = marked(1, "orphan", Marked::Remove, true);
    pkg.versions[1].version = "0.9".to_string();
    pkg.versions[1].order = 0;
    pkg.auto_removable = true;
    pkg.current_state = PkgCurrentState::Installed;
    pkg
}

#[test]
fn changes_are_sorted_by_operation() {
    let mut purged = marked(2, "purged", Marked::Purge, true);
    purged.marked_purge = true;
    let changed = vec![
        orphan(),
        purged,
        marked(3, "new", Marked::NewInstall, false),
        marked(4, "up", Marked::Upgrade, true),
        marked(5, "again", Marked::ReInstall, true),
        marked(6, "kept", Marked::Keep, true),
        marked(7, "held", Marked::Held, true),
    ];
    let cache = Cache { packages: vec![orphan()], changed };
    let (removals, auto_remove) = cache.auto_remove();
    assert!(matches!(removals[0], Removal::Delete(Some(_))));
    assert_eq!(auto_remove.len(), 1);
    let sorted = cache.sort_changes(&auto_remove).unwrap();
    assert!(sorted.get(Operation::Remove).is_none());
    assert_eq!(sorted.get(Operation::Purge).unwrap()[0].version.package, "purged");
    assert_eq!(sorted.get(Operation::Install).unwrap()[0].version.version, "2");
    let upgrade = &sorted.get(Operation::Upgrade).unwrap()[0];
    assert_eq!(upgrade.version.version, "2");
    assert_eq!(upgrade.old_version.unwrap().version, "1");
    assert_eq!(sorted.get(Operation::Reinstall).unwrap().len(), 1);
    assert_eq!(sorted.get(Operation::Held).unwrap().len(), 1);
    assert_eq!(sorted.get(Operation::AutoRemove).unwrap()[0].version.package, "orphan");
    let total: usize = (0..sorted.len()).map(|i| sorted.at(i).1.len()).sum();
    assert_eq!(total, 6);
}

#[test]
fn an_unmarked_change_is_an_error() {
    let cache = Cache {
        packages: Vec::new(),
        changed: vec![marked(1, "odd", Marked::Unmarked, true)],
    };
    let error = cache.sort_changes(&Vec::new()).unwrap_err();
    assert!(error.message.ends_with("not marked, this should be impossible"));
}

#[test]
fn nothing_changed_means_no_groups() {
    let cache = Cache { packages: Vec::new(), changed: Vec::new() };
    let extra = version("x", "1", 1);
    assert!(cache.sort_changes(&vec![&extra]).unwrap().is_empty());
}

#[test]
fn configuration_files_alone_are_kept() {
    let mut left = marked(1, "left", Marked::Keep, true);
    left.auto_removable = true;
    left.current_state = PkgCurrentState::ConfigFiles;
    let packages = vec![left];
    let (removals, versions) = upgrade::auto_remover(&packages);
    assert!(matches!(removals[0], Removal::Keep));
    assert!(versions.is_empty());
}

#[test]
fn an_address_names_its_archive() {
    assert_eq!(found_site("http://a/b", Some("http://a".to_string())).unwrap(), "http://a");
    let error = found_site("nowhere", None).unwrap_err();
    assert_eq!(error.message, "nowhere is not the address of an archive");
}

#[test]
fn only_shown_versions_need_a_source() {
    let mut config = plain();
    let mut hidden = version("apt", "1", 1);
    hidden.files[0].file.codename = None;
    let packages = vec![
        package(1, "mta", Vec::new()),
        package(2, "apt", vec![version("apt", "2", 2), hidden]),
    ];
    let metadata = vec![Vec::new(), Vec::new()];
    let url = url_regex().unwrap();
    let pacstall = pacstall_regex().unwrap();
    let (shown, notice) = show(&config, &packages, &metadata, &url, &pacstall).unwrap();
    assert_eq!(shown.len(), 1);
    assert!(notice.unwrap().starts_with("There are 1 additional"));
    assert_eq!(shown_places(&config, &packages), vec![(1, 0)]);
    config.nala_map.insert("all_versions".to_string(), true);
    assert_eq!(shown_places(&config, &packages), vec![(1, 0), (1, 1)]);
}

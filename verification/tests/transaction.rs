//! Installing, upgrading and updating.
use nala::apt::{
    BaseDep, DepType, Dependency, Marked, Package, PackageFile, PkgCurrentState, Version,
    VersionFile,
};
use nala::clean::{clean, Target};
use nala::cmd::show::{pacstall_regex, url_regex};
use nala::cmd::Operation;
use nala::config::{AptConfig, Config, Style, StyleSheet, Switch};
use nala::debfile::DebFile;
use nala::dpkg::{
    on_read, run_install, InstallEvent, InstallStep, Message, NalaInstallProgress, ReadOutcome,
    ReadStep,
};
use nala::fetch::Key;
use nala::glob::FoundPackage;
use nala::history::{history_test, next_history_id};
use nala::install::{
    classify, install, select_deb, selecting_notice, sort_arguments, system, Argument, Step,
};
use nala::show;
use nala::summary::{
    begin, commit, display_summary, install_versions, table_headings, Action, DiskSpace, Facts,
    SummaryGroup,
};
use nala::tagfile::TagSection;
use nala::tui;
use nala::tui::progress::{average, finished_string, label, spans, Amount, NumSys, UnitStr};
use nala::update::{poll_exit_event, update, ItemState, NalaAcquireProgress, Worker};
use nala::upgrade::{
    apt_hook_with_pkgs, auto_remover, get_now_version, hook_input, names_known, next_hook,
    pkg_info, script_failure, set_comp, set_multi_arch, upgrade, upgrade_kind, write_config_info,
    ConfigNode, HookStep, UpgradeKind,
};

fn style(prefix: &str) -> Style {
    Style { prefix: prefix.to_string() }
}

/// Styles whose prefix is a mark.
fn sheet() -> StyleSheet {
    StyleSheet {
        primary: style("<p>"),
        secondary: style("<s>"),
        regular: style("<r>"),
        highlight: style("<h>"),
        progress_filled: style("<f>"),
        progress_unfilled: style("<u>"),
        notice: style("<n>"),
        warning: style("<w>"),
        error: style("<e>"),
    }
}

/// A configuration without colours.
fn plain() -> Config {
    let mut config = Config::with_defaults(AptConfig::new(vec!["amd64".to_string()]), &sheet());
    config.can_color = Switch::Never;
    config
}

fn index(archive: &str) -> PackageFile {
    PackageFile {
        archive: Some(archive.to_string()),
        origin: Some("Debian".to_string()),
        codename: Some("bookworm".to_string()),
        component: Some("main".to_string()),
        arch: Some("amd64".to_string()),
        filename: None,
        downloadable: archive != "now",
        trusted: true,
    }
}

fn version(package: &str, number: &str, order: u64) -> Version {
    Version {
        package: package.to_string(),
        version: number.to_string(),
        order,
        arch: "amd64".to_string(),
        multi_arch: "no".to_string(),
        size: 100,
        installed_size: 400,
        installed: false,
        downloadable: true,
        files: vec![VersionFile {
            file: index("stable"),
            uri: format!("http://deb.debian.org/debian/pool/{package}_{number}_amd64.deb"),
        }],
        records: Vec::new(),
        hashes: Vec::new(),
        description: None,
        summary: None,
        section: None,
        priority: None,
        source_name: package.to_string(),
        provides: Vec::new(),
        depends: Vec::new(),
    }
}

fn package(id: u64, name: &str, versions: Vec<Version>) -> Package {
    Package {
        id,
        name: name.to_string(),
        fullname: name.to_string(),
        long_name: format!("{name}:amd64"),
        arch: "amd64".to_string(),
        installed: versions.iter().position(|v| v.installed),
        candidate: if versions.is_empty() { None } else { Some(0) },
        install_version: if versions.is_empty() { None } else { Some(0) },
        versions,
        marked: Marked::Keep,
        marked_install: false,
        marked_upgrade: false,
        marked_delete: false,
        marked_purge: false,
        current_state: PkgCurrentState::NotInstalled,
        essential: false,
        auto_removable: false,
        auto_installed: false,
        providers: Vec::new(),
    }
}

fn strings(v: &[&str]) -> Vec<String> {
    v.iter().map(|s| s.to_string()).collect()
}

/// A package with an installed version 1 and a candidate 2.
fn upgradable() -> Package {
    let mut old = version("apt", "1", 1);
    old.installed = true;
    let mut new = version("apt", "2", 2);
    new.records.push(("Filename".to_string(), "pool/apt_2_amd64.deb".to_string()));
    package(1, "apt", vec![new, old])
}

#[test]
fn arguments_are_sorted() {
    assert_eq!(classify("https://a/x.deb"), Argument::Http);
    assert_eq!(classify("./x.deb"), Argument::Deb);
    assert_eq!(classify("apt"), Argument::Cache);
    let args = sort_arguments(&strings(&["apt", "http://a", "x.deb", "nala", "y.deb"]));
    assert_eq!(args.cache_pkgs, strings(&["apt", "nala"]));
    assert_eq!(args.http_pkgs, strings(&["http://a"]));
    assert_eq!(args.deb_files, strings(&["x.deb", "y.deb"]));
}

fn deb(number: &str) -> DebFile {
    let tag = TagSection {
        fields: vec![
            ("Package".to_string(), "apt".to_string()),
            ("Version".to_string(), number.to_string()),
        ],
    };
    DebFile::new("./apt.deb".to_string(), tag).unwrap()
}

#[test]
fn a_package_stands_for_its_file() {
    let pkg = upgradable();
    assert!(select_deb(&deb("2"), None).unwrap().is_none());
    let selected = select_deb(&deb("1"), Some(&pkg)).unwrap().unwrap();
    assert_eq!(selected.version.version, "1");
    assert_eq!(
        selecting_notice(&deb("7"), &pkg),
        "Selecting Package 'apt' instead of './apt.deb'"
    );
    assert_eq!(
        select_deb(&deb("7"), Some(&pkg)).unwrap_err().message,
        "Could not find Version '7' for Package 'apt'"
    );
}

#[test]
fn packages_are_marked_in_turn() {
    let config = plain();
    let new = upgradable();
    let mut current = upgradable();
    current.candidate = Some(1);
    let mut absent = upgradable();
    absent.installed = None;
    let mut lost = upgradable();
    lost.candidate = None;
    let found = vec![
        FoundPackage::new(&new, &new.versions[0], None),
        FoundPackage::new(&current, &current.versions[1], Some(Operation::Install)),
        FoundPackage::new(&new, &new.versions[0], Some(Operation::Remove)),
        FoundPackage::new(&absent, &absent.versions[0], Some(Operation::Remove)),
        FoundPackage::new(&lost, &lost.versions[0], None),
        FoundPackage::new(&new, &new.versions[0], None),
    ];
    let (steps, error) = install(&config, &found);
    assert_eq!(steps.len(), 4);
    assert!(matches!(steps[0], Step::Install(_)));
    match &steps[1] {
        Step::Skip(text) => assert_eq!(
            text,
            "Notice: apt(1) is already installed and at the latest version"
        ),
        other => panic!("{other:?}"),
    }
    assert!(matches!(steps[2], Step::Remove(_)));
    match &steps[3] {
        Step::Skip(text) => assert_eq!(text, "Notice: apt is not installed"),
        other => panic!("{other:?}"),
    }
    assert_eq!(error.unwrap().message, "apt has no install candidate");
}

#[test]
fn local_files_of_installed_packages() {
    let mut pkg = upgradable();
    pkg.versions[1].files[0].file.archive = Some("local-deb".to_string());
    pkg.versions[1].files[0].file.filename = Some("/tmp/apt.deb".to_string());
    let absent = package(2, "x", vec![version("x", "1", 1)]);
    assert_eq!(system(&vec![absent, pkg]), strings(&["/tmp/apt.deb"]));
}

fn group(operation: Operation, rows: &[&[&str]]) -> SummaryGroup {
    SummaryGroup { operation, rows: rows.iter().map(|r| strings(r)).collect() }
}

#[test]
fn the_summary_of_a_transaction() {
    let config = plain();
    let install = group(Operation::Install, &[&["a", "1", "2 B"], &["b", "1", "2 B"]]);
    let upgrade = group(Operation::Upgrade, &[&["c", "1", "2", "2 B"]]);
    assert_eq!(table_headings(&install), strings(&["Package:", "Version:", "Size:"]));
    assert_eq!(
        table_headings(&upgrade),
        strings(&["Package:", "Old Version:", "New Version:", "Size:"])
    );
    let lines = display_summary(
        &config,
        &vec![install, upgrade],
        &strings(&["T1", "T2"]),
        3,
        5,
        "5 B",
        DiskSpace::Free(9),
        "9 B",
    );
    assert_eq!(
        lines,
        strings(&[
            "===", " Install", "===", "T1", "===", " Upgrade", "===", "T2", "===", " Summary",
            "===", " Install 2", " Upgrade 1", "", " Total download size: 5 B",
            " Disk space to free: 9 B", "",
        ])
    );
    let lines = display_summary(
        &config,
        &Vec::new(),
        &Vec::new(),
        1,
        0,
        "0 B",
        DiskSpace::Require(1),
        "1 B",
    );
    assert_eq!(
        lines,
        strings(&["=", " Summary", "=", "", " Disk space required: 1 B", ""])
    );
}

fn walk(config: &Config, facts: Facts) -> Vec<Action> {
    let mut steps = vec![begin(facts)];
    while *steps.last().unwrap() != Action::Done {
        steps.push(commit(config, facts, *steps.last().unwrap()));
    }
    steps
}

#[test]
fn a_transaction_and_its_ends() {
    let mut config = plain();
    let facts = Facts { changes: true, consent: true, downloads: true };
    assert_eq!(
        walk(&config, facts),
        vec![
            Action::AddVersions,
            Action::AskConsent,
            Action::Download,
            Action::WriteHistory,
            Action::PreInvoke,
            Action::RunHooks,
            Action::RunInstall,
            Action::PostInvoke,
            Action::Done,
        ]
    );
    assert_eq!(
        walk(&config, Facts { changes: false, ..facts }),
        vec![Action::NothingToDo, Action::Done]
    );
    assert!(!walk(&config, Facts { consent: false, ..facts }).contains(&Action::Download));
    assert!(!walk(&config, Facts { downloads: false, ..facts }).contains(&Action::Download));
    config.nala_map.insert("download_only".to_string(), true);
    assert_eq!(
        walk(&config, facts),
        vec![Action::AddVersions, Action::AskConsent, Action::Download, Action::Done]
    );
    config.nala_map.insert("print_uris".to_string(), true);
    assert_eq!(
        walk(&config, facts),
        vec![Action::AddVersions, Action::PrintUris, Action::Done]
    );
}

#[test]
fn versions_to_be_installed() {
    let mut kept = upgradable();
    kept.install_version = None;
    let changed = vec![kept, upgradable()];
    let versions = install_versions(&changed);
    assert_eq!(versions.len(), 1);
    assert_eq!(versions[0].version, "2");
}

#[test]
fn how_far_an_upgrade_goes() {
    let mut config = plain();
    assert_eq!(upgrade_kind(&config), UpgradeKind::Full);
    config.nala_map.insert("no_full".to_string(), true);
    assert_eq!(upgrade_kind(&config), UpgradeKind::Upgrade);
    config.nala_map.insert("safe".to_string(), true);
    assert_eq!(upgrade_kind(&config), UpgradeKind::Safe);
}

#[test]
fn orphans_are_listed_once_in_an_upgrade() {
    let mut old = version("orphan", "1", 71);
    old.installed = true;
    let mut orphan = package(8, "orphan", vec![old]);
    orphan.marked = Marked::Remove;
    orphan.auto_removable = true;
    let mut gone = version("gone", "2", 72);
    gone.installed = true;
    let mut other = package(9, "gone", vec![gone]);
    other.marked = Marked::Remove;
    let changed = vec![orphan, other];
    let (_, auto_remove) = auto_remover(&changed);
    let set = upgrade(&changed, &auto_remove).unwrap();
    assert_eq!(set.get(Operation::AutoRemove).unwrap()[0].version.package, "orphan");
    let removed = set.get(Operation::Remove).unwrap();
    assert_eq!(removed.len(), 1);
    assert_eq!(removed[0].version.package, "gone");
}

#[test]
fn the_changes_of_an_upgrade() {
    let mut up = upgradable();
    up.marked = Marked::Upgrade;
    let mut down = upgradable();
    down.marked = Marked::Downgrade;
    let changed = vec![up, down];
    let set = upgrade(&changed, &Vec::new()).unwrap();
    assert_eq!(set.get(Operation::Upgrade).unwrap()[0].old_version.unwrap().version, "1");
    assert!(set.get(Operation::Downgrade).unwrap()[0].old_version.is_none());
    assert_eq!(set.get(Operation::AutoRemove).unwrap().len(), 0);
    let mut odd = upgradable();
    odd.marked = Marked::Unmarked;
    let changed = vec![odd];
    assert_eq!(
        upgrade(&changed, &Vec::new()).unwrap_err().message,
        "apt not marked, this should be impossible"
    );
}

#[test]
fn a_failed_script_ends_the_program() {
    assert_eq!(script_failure(0), None);
    assert_eq!(script_failure(3), Some(3));
    assert_eq!(script_failure(-1), Some(-1));
}

#[test]
fn comparing_for_a_hook() {
    let old = version("a", "1", 1);
    let new = version("a", "2", 2);
    assert_eq!(set_comp(None, &new), "<");
    assert_eq!(set_comp(Some(&old), &new), "<");
    assert_eq!(set_comp(Some(&new), &new), "=");
    assert_eq!(set_comp(Some(&new), &old), ">");
    assert_eq!(set_multi_arch(&new, 2), "");
    assert_eq!(set_multi_arch(&new, 3), "amd64 no ");
}

#[test]
fn what_a_hook_is_told_of_a_package() {
    let mut pkg = upgradable();
    assert_eq!(pkg_info(&pkg, 2, "/a/"), "apt 1 < 2 false\n");
    assert_eq!(pkg_info(&pkg, 3, "/a/"), "apt 1 amd64 no < 2 amd64 no false\n");
    pkg.current_state = PkgCurrentState::ConfigFiles;
    assert!(pkg_info(&pkg, 2, "/a/").ends_with("**CONFIGURE**\n"));
    pkg.marked_delete = true;
    assert!(pkg_info(&pkg, 2, "/a/").ends_with("**REMOVE**\n"));
    pkg.marked_install = true;
    assert_eq!(pkg_info(&pkg, 2, "/a/"), "apt 1 < 2 /a/apt_2_amd64.deb\n");
    let mut bare = package(2, "x", Vec::new());
    assert_eq!(pkg_info(&bare, 2, "/a/"), "x - > - false\n");
    assert_eq!(pkg_info(&bare, 3, "/a/"), "x - - none > - - none false\n");
    bare.marked_upgrade = true;
    assert_eq!(pkg_info(&bare, 2, "/a/"), "x - > - **ERROR**\n");
}

#[test]
fn a_version_of_the_installed_packages() {
    let mut pkg = upgradable();
    assert!(get_now_version(&pkg).is_none());
    pkg.versions[1].files[0].file.archive = Some("now".to_string());
    assert_eq!(get_now_version(&pkg).unwrap().version, "1");
}

fn node(tag: &str, value: &str) -> ConfigNode {
    ConfigNode {
        tag: Some(tag.to_string()),
        value: Some(value.to_string()),
        quoted_tag: tag.to_string(),
        quoted_value: value.to_string(),
        child: None,
        sibling: None,
    }
}

#[test]
fn what_a_hook_is_told_of_the_configuration() {
    let mut child = node("APT::A", "1");
    child.sibling = Some(Box::new(node("APT::B", "2")));
    let mut root = node("APT", "");
    root.child = Some(Box::new(child));
    root.sibling = Some(Box::new(node("Dir", "/")));
    assert_eq!(
        write_config_info(Some(&root), 2).unwrap(),
        "VERSION 2\nAPT::A=1\nAPT::B=2\nDir=/\n\n"
    );
    assert!(write_config_info(Some(&root), 9).unwrap().starts_with("VERSION 3\n"));
    assert_eq!(write_config_info(None, 2).unwrap_err().message, "No config tree!");
}

#[test]
fn hooks_are_planned() {
    let mut config = plain();
    config.apt.set_vector(
        "DPkg::Pre-Install-Pkgs".to_string(),
        strings(&["/usr/bin/one --x", "   ", "two"]),
    );
    config.apt.set_int("DPkg::Tools::Options::/usr/bin/one::VERSION".to_string(), 3);
    config.apt.set_int("DPkg::Tools::Options::/usr/bin/one::InfoFD".to_string(), 20);
    let mut both = upgradable();
    both.marked_install = true;
    both.marked_upgrade = true;
    let mut one = upgradable();
    one.marked_install = true;
    let plans = apt_hook_with_pkgs(&vec![both, one], &config);
    assert_eq!(plans.len(), 2);
    assert_eq!(plans[0].hook, "/usr/bin/one --x");
    assert_eq!(plans[0].prog, "/usr/bin/one");
    assert_eq!((plans[0].version, plans[0].info_fd), (3, 20));
    assert_eq!(plans[0].lines.len(), 2);
    assert!(plans[0].lines[0].only_if.is_none());
    assert_eq!((plans[1].version, plans[1].info_fd), (1, 0));
    assert_eq!(plans[1].lines.len(), 1);
    assert_eq!(plans[1].lines[0].text, "/var/cache/apt/archives/apt_2_amd64.deb\n");
    assert_eq!(
        plans[1].lines[0].only_if,
        Some("/var/cache/apt/archives/apt_2_amd64.deb".to_string())
    );
}

#[test]
fn the_configuration_comes_before_the_packages() {
    let mut config = plain();
    config.apt.set_vector("DPkg::Pre-Install-Pkgs".to_string(), strings(&["new", "old"]));
    config.apt.set_int("DPkg::Tools::Options::new::VERSION".to_string(), 2);
    let mut pkg = upgradable();
    pkg.marked_install = true;
    pkg.marked_upgrade = true;
    let plans = apt_hook_with_pkgs(&vec![pkg], &config);
    let root = node("A", "1");
    let line = "apt 1 < 2 /var/cache/apt/archives/apt_2_amd64.deb\n";
    assert_eq!(
        hook_input(&plans[0], Some(&root), &vec![false]).unwrap(),
        format!("VERSION 2\nA=1\n\n{line}")
    );
    assert_eq!(
        hook_input(&plans[0], None, &vec![true]).unwrap_err().message,
        "No config tree!"
    );
    let path = "/var/cache/apt/archives/apt_2_amd64.deb\n";
    assert_eq!(hook_input(&plans[1], None, &vec![true]).unwrap(), path);
    assert_eq!(hook_input(&plans[1], Some(&root), &vec![false]).unwrap(), "");
}

#[test]
fn a_file_name_is_asked_for_where_a_hook_uses_it() {
    let mut nameless = upgradable();
    nameless.versions[0].records.clear();
    nameless.marked_install = true;
    let pkgs = vec![nameless];
    let mut config = plain();
    assert!(names_known(&pkgs, &config));
    assert!(apt_hook_with_pkgs(&pkgs, &config).is_empty());
    config.apt.set_vector("DPkg::Pre-Install-Pkgs".to_string(), strings(&["old"]));
    assert!(names_known(&pkgs, &config));
    assert!(apt_hook_with_pkgs(&pkgs, &config)[0].lines.is_empty());
    config.apt.set_int("DPkg::Tools::Options::old::VERSION".to_string(), 2);
    assert!(!names_known(&pkgs, &config));
}

#[test]
fn a_hook_that_fails_is_the_last() {
    assert_eq!(next_hook(0, None), HookStep::Done);
    assert_eq!(next_hook(2, None), HookStep::Run(0));
    assert_eq!(next_hook(2, Some((0, Some(0)))), HookStep::Run(1));
    assert_eq!(next_hook(2, Some((0, None))), HookStep::Run(1));
    assert_eq!(next_hook(2, Some((0, Some(3)))), HookStep::Exit(3));
    assert_eq!(next_hook(2, Some((1, Some(0)))), HookStep::Done);
}

#[test]
fn reads_of_the_installation() {
    assert_eq!(on_read(ReadOutcome::Bytes(0)), ReadStep::Stop);
    assert_eq!(on_read(ReadOutcome::Bytes(7)), ReadStep::Continue(7));
    assert_eq!(on_read(ReadOutcome::WouldBlock), ReadStep::Continue(0));
    assert_eq!(on_read(ReadOutcome::Os(5)), ReadStep::Stop);
    assert_eq!(on_read(ReadOutcome::Os(4)), ReadStep::Fail);
    assert_eq!(on_read(ReadOutcome::Failed), ReadStep::Fail);
}

#[test]
fn the_parent_of_the_installation() {
    assert_eq!(run_install(InstallEvent::Waited(Some(2))), InstallStep::Exit(2));
    assert_eq!(run_install(InstallEvent::Waited(Some(0))), InstallStep::ReadTerminal);
    assert_eq!(run_install(InstallEvent::Waited(None)), InstallStep::ReadTerminal);
    assert_eq!(
        run_install(InstallEvent::Terminal(ReadOutcome::Bytes(3))),
        InstallStep::ReadStatus
    );
    assert_eq!(run_install(InstallEvent::Terminal(ReadOutcome::Os(5))), InstallStep::Done);
    assert_eq!(
        run_install(InstallEvent::Status(ReadOutcome::Bytes(3))),
        InstallStep::Print(3)
    );
    assert_eq!(
        run_install(InstallEvent::Status(ReadOutcome::WouldBlock)),
        InstallStep::Again
    );
    assert_eq!(run_install(InstallEvent::Status(ReadOutcome::Failed)), InstallStep::Fail);
}

#[test]
fn progress_of_the_installation() {
    let mut progress = NalaInstallProgress::new();
    progress.status_changed("apt", "Unpacking");
    assert!(matches!(
        &progress.sent[0],
        Message::Yes(text) if text == "Unpacking:apt from thread!"
    ));
}

#[test]
fn a_history_with_one_entry() {
    let history = history_test();
    assert_eq!(history.version, "0.2.0");
    assert_eq!(history.entries[0].packages[0].name, "Nala");
    assert_eq!(history.entries[0].explicit, strings(&["nala", "another"]));
}

#[test]
fn numbers_in_the_history() {
    assert_eq!(next_history_id(&Vec::new()), 1);
    assert_eq!(next_history_id(&vec![3, 9, 4]), 10);
}

#[test]
fn what_clean_removes() {
    let mut config = plain();
    assert!(matches!(&clean(&config)[0], Target::FilesIn(d) if d == "/var/cache/apt/archives/"));
    config.nala_map.insert("fetch".to_string(), true);
    let targets = clean(&config);
    assert_eq!(targets.len(), 1);
    assert!(matches!(
        &targets[0],
        Target::File(f) if f == "/etc/apt/sources.list.d/nala-sources.list"
    ));
    config.nala_map.insert("lists".to_string(), true);
    assert!(matches!(
        &clean(&config)[1],
        Target::FilesIn(d) if d == "/var/lib/apt/lists/partial/"
    ));
}

#[test]
fn keys_that_exit() {
    assert!(tui::poll_exit_event(Key::Char('q'), false));
    assert!(tui::poll_exit_event(Key::Char('c'), true));
    assert!(!tui::poll_exit_event(Key::Char('c'), false));
    assert!(poll_exit_event(Key::Char('q')));
    assert!(!poll_exit_event(Key::Enter));
}

#[test]
fn sizes_in_units() {
    let unit = UnitStr::new(1, NumSys::Binary);
    assert_eq!(unit.str(1024, "1.0"), "1024 B");
    assert_eq!(unit.str(1536, "1.5"), "1.5 KiB");
    assert!(matches!(
        unit.amount(3 << 30),
        Amount::Scaled { divisor: 0x4000_0000, unit: "GiB" }
    ));
    let unit = UnitStr::new(2, NumSys::Decimal);
    assert!(matches!(
        unit.amount(2_000_000),
        Amount::Scaled { divisor: 1_000_000, unit: "MB" }
    ));
    assert!(matches!(unit.amount(1000), Amount::Bytes(text) if text == "1000 B"));
}

#[test]
fn beside_the_progress_bar() {
    assert_eq!(spans(&Vec::new()), strings(&["Working..."]));
    assert_eq!(spans(&strings(&["a", "b"])), strings(&["a", "b"]));
    assert_eq!(label(1, 2, "3s"), strings(&["Time Remaining:", " 3s"]));
    assert_eq!(label(2, 2, "3s"), strings(&["Working..."]));
    assert_eq!(average(10, 4), 2);
    assert_eq!(finished_string(10, "10 B", "4s", "2 B"), "Fetched 10 B in 4s (2 B/s)");
    assert_eq!(finished_string(1, "1 B", "1s", "1 B"), "Nothing to fetch");
}

#[test]
fn packages_that_can_be_upgraded() {
    let config = plain();
    assert_eq!(update(&config, 0), None);
    assert_eq!(
        update(&config, 12).unwrap(),
        "12 packages can be upgraded. Run 'nala list --upgradable' to see them."
    );
}

#[test]
fn lines_of_an_update() {
    let mut config = plain();
    let progress = NalaAcquireProgress::new(&config);
    assert!(progress.draws());
    assert_eq!(progress.hit("x", 0, "0 B"), "No Change: x");
    assert_eq!(progress.hit("x", 9, "9 B"), "No Change: x [9 B]");
    assert_eq!(progress.fetch("x", 0, "0 B"), "Updated:   x");
    assert_eq!(progress.fetch("x", 9, "9 B"), "Updated:   x [9 B]");
    assert_eq!(progress.stop(&config, true, 9, "9 B", "1s", "9 B"), None);
    assert_eq!(
        progress.stop(&config, false, 9, "9 B", "1s", "9 B").unwrap(),
        "Fetched 9 B in 1s (9 B/s)"
    );
    assert_eq!(
        progress.stop(&config, false, 0, "", "", "").unwrap(),
        "Nothing to fetch."
    );
    assert_eq!(
        progress.fail(&config, ItemState::StatError, "x", "why"),
        strings(&["Error: x", "why"])
    );
    assert_eq!(progress.fail(&config, ItemState::StatDone, "x", ""), strings(&["Ignored: x"]));
    assert_eq!(
        progress.fail(&config, ItemState::StatIdle, "x", "why"),
        strings(&["Ignored: x", "why"])
    );
    config
        .apt
        .set_bool("Acquire::Progress::Ignore::ShowErrorText".to_string(), false);
    assert_eq!(progress.fail(&config, ItemState::StatError, "x", "why"), strings(&["Error: x"]));
}

fn worker(subprocess: &str, dest: &str, uri: &str) -> Option<Worker> {
    Some(Worker {
        status: ItemState::StatFetching,
        active_subprocess: subprocess.to_string(),
        dest_file: dest.to_string(),
        uri: uri.to_string(),
    })
}

#[test]
fn what_the_workers_do() {
    let mut config = plain();
    let mut progress = NalaAcquireProgress::new(&config);
    let workers = vec![
        None,
        worker("", "/lists/deb.debian.org_debian_dists", "https://by-hash"),
        worker("store", "/lists/b_c", "http://x"),
    ];
    progress.pulse(&config, false, &workers);
    assert_eq!(
        progress.message,
        strings(&["Downloading: ", "https://deb.debian.org/debian/dists"])
    );
    config.nala_map.insert("verbose".to_string(), true);
    progress.pulse(&config, false, &workers);
    assert_eq!(progress.message.len(), 4);
    assert_eq!(progress.message[2..], strings(&["Processing: ", "http://b/c"]));
    progress.pulse(&config, true, &workers);
    assert!(!progress.draws());
}

#[test]
fn a_package_in_full() {
    let mut config = plain();
    let mut pkg = upgradable();
    pkg.essential = true;
    let ver = &mut pkg.versions[0];
    ver.records.push(("Maintainer".to_string(), "APT Team".to_string()));
    ver.section = Some("admin".to_string());
    let dep = |name: &str, rest: Vec<BaseDep>| Dependency {
        first: BaseDep { name: name.to_string(), constraint: None },
        rest,
    };
    let other = BaseDep { name: "gpgv2".to_string(), constraint: None };
    ver.depends = vec![(
        DepType::Depends,
        vec![dep("adduser", Vec::new()), dep("gpgv", vec![other])],
    )];
    let lines = show::show_package(
        &config,
        &pkg,
        "400 B",
        "100 B",
        "http://deb.debian.org/debian/",
        "",
    );
    assert_eq!(
        lines[..8],
        strings(&[
            "Package: apt",
            "Version: 2",
            "Architecture: amd64",
            "Installed: No",
            "Priority: Unknown",
            "Essential: Yes",
            "Section: admin",
            "Source: apt",
        ])
    );
    assert!(lines.contains(&"Maintainer: APT Team".to_string()));
    assert!(lines.contains(&"Installed-Size: 400 B".to_string()));
    assert!(lines.contains(&"Depends:  adduser".to_string()));
    assert!(lines.contains(
        &"APT-Sources: http://deb.debian.org/debian/ bookworm/main amd64 Packages".to_string()
    ));
    let url = url_regex().unwrap();
    let pacstall = pacstall_regex().unwrap();
    let sizes = vec![("400 B".to_string(), "100 B".to_string())];
    let metadata = vec![Vec::new()];
    let packages = vec![pkg];
    assert_eq!(
        show::show(&config, &packages, &sizes, &metadata, &url, &pacstall).unwrap_err().message,
        "At least one package name must be specified"
    );
    config.vec_map.insert("pkg_names".to_string(), strings(&["apt"]));
    assert_eq!(
        show::show(&config, &packages, &sizes, &metadata, &url, &pacstall).unwrap(),
        lines
    );
}

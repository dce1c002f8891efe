//! Downloading packages into the current directory.
use nala::apt::{Marked, Package, PackageFile, PkgCurrentState, Version, VersionFile};
use nala::config::{AptConfig, Config, Style, StyleSheet, Switch};
use nala::downloader::{bytes_to_hex_string, plan_downloads, Trust};
use nala::error::NalaError;
use nala::mirror::MirrorSource;
use nala::newdownload::{
    check_found, download, download_summary, get_hash, get_pkg_name, init_download, Downloader,
    Message, RunAction, Uri, UriFilter, UriStep, UriWalk,
};
use nala::util::NalaRegex;

fn style(prefix: &str) -> Style {
    Style { prefix: prefix.to_string() }
}

/// Styles whose prefix is a mark.
fn sheet() -> StyleSheet {
    StyleSheet {
        primary: style("<p>"),
        secondary: style("<s>"),
        regular: style("<r>"),
        highlight: style("<h>"),
        progress_filled: style("<f>"),
        progress_unfilled: style("<u>"),
        notice: style("<n>"),
        warning: style("<w>"),
        error: style("<e>"),
    }
}

/// A configuration without colours.
fn plain() -> Config {
    let mut config = Config::with_defaults(AptConfig::new(vec!["amd64".to_string()]), &sheet());
    config.can_color = Switch::Never;
    config
}

fn index(archive: &str) -> PackageFile {
    PackageFile {
        archive: Some(archive.to_string()),
        origin: Some("Debian".to_string()),
        codename: Some("bookworm".to_string()),
        component: Some("main".to_string()),
        arch: Some("amd64".to_string()),
        filename: None,
        downloadable: archive != "now",
        trusted: true,
    }
}

fn version(package: &str, number: &str, order: u64) -> Version {
    Version {
        package: package.to_string(),
        version: number.to_string(),
        order,
        arch: "amd64".to_string(),
        multi_arch: "no".to_string(),
        size: 100,
        installed_size: 400,
        installed: false,
        downloadable: true,
        files: vec![VersionFile {
            file: index("stable"),
            uri: format!("http://deb.debian.org/debian/pool/{package}_{number}_amd64.deb"),
        }],
        records: Vec::new(),
        hashes: Vec::new(),
        description: None,
        summary: None,
        section: None,
        priority: None,
        source_name: package.to_string(),
        provides: Vec::new(),
        depends: Vec::new(),
    }
}

fn package(id: u64, name: &str, versions: Vec<Version>) -> Package {
    Package {
        id,
        name: name.to_string(),
        fullname: name.to_string(),
        long_name: format!("{name}:amd64"),
        arch: "amd64".to_string(),
        installed: versions.iter().position(|v| v.installed),
        candidate: if versions.is_empty() { None } else { Some(0) },
        install_version: if versions.is_empty() { None } else { Some(0) },
        versions,
        marked: Marked::Keep,
        marked_install: false,
        marked_upgrade: false,
        marked_delete: false,
        marked_purge: false,
        current_state: PkgCurrentState::NotInstalled,
        essential: false,
        auto_removable: false,
        auto_installed: false,
        providers: Vec::new(),
    }
}

fn regex() -> NalaRegex {
    NalaRegex::new("mirror.*?:/*(.*?/.*?)/", "a", "b", "c").unwrap()
}

#[test]
fn package_file_names_carry_the_epoch() {
    let mut ver = version("apt", "1:2.0", 2);
    ver.records = vec![("Filename".to_string(), "pool/main/a/apt_2.0_amd64.deb".to_string())];
    assert_eq!(get_pkg_name(&ver), "apt_1%3a2.0_amd64.deb");
    ver.version = "2.0".to_string();
    assert_eq!(get_pkg_name(&ver), "apt_2.0_amd64.deb");
}

#[test]
fn files_on_this_machine_are_passed_over() {
    let config = plain();
    let mut filter = UriFilter::new(regex());
    let mut ver = version("apt", "2", 2);
    ver.files[0].uri = "file:/srv/apt.deb".to_string();
    let mut walk = UriWalk::new();
    assert!(matches!(filter.uris(&ver, &config, &mut walk), UriStep::Finished));
    assert!(walk.filtered.is_empty());
    assert!(matches!(filter.maybe_untrusted_error(&config), Trust::Trusted));
}

#[test]
fn a_list_of_mirrors_in_a_file() {
    let config = plain();
    let mut filter = UriFilter::new(regex());
    let mut ver = version("apt", "2", 2);
    ver.files[0].uri = "mirror+file:etc/list/pool".to_string();
    ver.files[0].file.trusted = false;
    let mut walk = UriWalk::new();
    match filter.uris(&ver, &config, &mut walk) {
        UriStep::Mirror { name, source } => {
            assert_eq!(name, "etc/list");
            assert_eq!(source, MirrorSource::File("etc/list".to_string()));
            filter.add_to_mirrors(name, "http://a\n".to_string());
        },
        other => panic!("{other:?}"),
    }
    // Without a file name in its record the version has no place on the mirrors.
    assert!(matches!(filter.uris(&ver, &config, &mut walk), UriStep::Finished));
    assert_eq!(walk.filtered, vec!["mirror+file:etc/list/pool"]);
    match filter.maybe_untrusted_error(&config) {
        Trust::Refused(lines, e) => {
            assert_eq!(lines[1], "  apt");
            assert_eq!(e.message, "Some packages were unable to be authenticated.");
        },
        other => panic!("{other:?}"),
    }
}

fn uri() -> Uri {
    let config = plain();
    let mut ver = version("apt", "2", 2);
    ver.records = vec![("Filename".to_string(), "pool/apt.deb".to_string())];
    ver.hashes = vec![("sha256".to_string(), "abc".to_string())];
    Uri::from_version(&ver, &config, vec!["http://a".to_string()], "./").unwrap()
}

#[test]
fn a_download_into_the_current_directory() {
    let uri = uri();
    assert_eq!(uri.archive, "./apt.deb");
    assert_eq!(uri.destination, ".//partial/apt.deb");
    assert_eq!(uri.hash_type, "sha256");
    assert!(uri.check_hash("abc").is_ok());
    assert_eq!(
        uri.check_hash("abd").unwrap_err().message,
        "Checksum did not match for apt.deb"
    );
    assert_eq!(
        bytes_to_hex_string(&uri.hasher().finish()),
        "e3b0c44298fc1c149afbf4c8996fb92427ae41e4649b934ca495991b7852b855"
    );
}

#[test]
fn the_hash_and_its_algorithm() {
    let config = plain();
    let mut ver = version("apt", "2", 2);
    assert!(get_hash(&config, &ver).is_err());
    ver.hashes = vec![("sha512".to_string(), "x".to_string())];
    assert_eq!(get_hash(&config, &ver).unwrap(), ("sha512".to_string(), "x".to_string()));
}

#[test]
fn the_run_stops_at_the_end_or_at_an_error() {
    let mut run = Downloader::new(2);
    assert_eq!(run.run(Message::Update(4)), RunAction::Advance(4));
    assert_eq!(run.run(init_download(&Ok(()))), RunAction::Nothing);
    assert_eq!(run.status(), vec!["Total Packages:", " 1/2, "]);
    assert_eq!(run.run(Message::Finished), RunAction::Stop);
    let failed = Err(NalaError::new("x"));
    assert_eq!(Downloader::new(9).run(init_download(&failed)), RunAction::Stop);
}

#[test]
fn names_are_downloaded_once() {
    let mut config = plain();
    assert_eq!(download(&config).unwrap_err().message, "You must specify a package");
    let names = ["zsh", "apt", "zsh"].iter().map(|s| s.to_string()).collect();
    config.vec_map.insert("pkg_names".to_string(), names);
    assert_eq!(download(&config).unwrap(), vec!["apt", "zsh"]);
}

#[test]
fn missing_packages_are_named() {
    let config = plain();
    let found: Vec<Option<Package>> = vec![Some(package(1, "apt", Vec::new())), None];
    let names = vec!["apt".to_string(), "x".to_string()];
    let plan = plan_downloads(&config, &names, &found);
    let (lines, error) = check_found(&config, &plan).unwrap_err();
    assert_eq!(lines, vec!["Error: x not found"]);
    assert_eq!(error.message, "Some packages were not found.");
}

#[test]
fn finished_files_are_named() {
    assert_eq!(
        download_summary(&plain(), &vec![uri()]),
        vec!["Downloads Complete:", "  apt.deb was written to ./apt.deb"]
    );
}

#[test]
fn one_file_at_a_time() {
    let config = plain();
    let mut filter = UriFilter::new(regex());
    let mut ver = version("apt", "2", 2);
    ver.records = vec![("Filename".to_string(), "pool/apt.deb".to_string())];
    ver.files[0].uri = "mirror://m/l/pool/apt.deb".to_string();
    ver.files[0].file.trusted = false;
    let mut walk = UriWalk::new();
    match filter.take_file(&ver, &config, &mut walk, Some("m/l".to_string())) {
        Some(UriStep::Mirror { name, .. }) => assert_eq!(name, "m/l"),
        other => panic!("{other:?}"),
    }
    assert_eq!(walk.place, 0);
    filter.add_to_mirrors("m/l".to_string(), "http://a\n".to_string());
    assert!(filter.take_file(&ver, &config, &mut walk, Some("m/l".to_string())).is_none());
    assert_eq!(walk.filtered, vec!["http://a/pool/apt.deb"]);
    assert_eq!(walk.place, 1);
    assert_eq!(filter.untrusted, vec!["apt"]);
    ver.files[0].uri = "file:/srv/apt.deb".to_string();
    let mut walk = UriWalk::new();
    assert!(filter.take_file(&ver, &config, &mut walk, Some("x/y".to_string())).is_none());
    assert!(walk.filtered.is_empty());
    assert_eq!(walk.place, 1);
}

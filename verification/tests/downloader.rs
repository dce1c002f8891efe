//! Downloading packages into the archive.
use nala::apt::{Marked, Package, PackageFile, PkgCurrentState, Version, VersionFile};
use nala::config::{AptConfig, Config, Style, StyleSheet, Switch};
use nala::downloader::{
    add_domain, asks_direct, build_proxy, bytes_to_hex_string, check_found, download, finish,
    get_hash, get_hasher, get_proxy, parse_cmdline, plan_downloads, remove_domain, run, select_version,
    set_proxy, untrusted_error, Attempt, CliUri, Downloader, HashSum, Message, OnDisk, Outcome,
    Proto, ProxyConfig, Run, RunAction, Trust, Uri, UriFilter, UriStep, UriWalk,
};
use nala::error::NalaError;
use nala::mirror::MirrorSource;
use nala::util::NalaRegex;
use std::collections::VecDeque;

fn style(prefix: &str) -> Style {
    Style { prefix: prefix.to_string() }
}

/// Styles whose prefix is a mark.
fn sheet() -> StyleSheet {
    StyleSheet {
        primary: style("<p>"),
        secondary: style("<s>"),
        regular: style("<r>"),
        highlight: style("<h>"),
        progress_filled: style("<f>"),
        progress_unfilled: style("<u>"),
        notice: style("<n>"),
        warning: style("<w>"),
        error: style("<e>"),
    }
}

/// A configuration without colours.
fn plain() -> Config {
    let mut config = Config::with_defaults(AptConfig::new(vec!["amd64".to_string()]), &sheet());
    config.can_color = Switch::Never;
    config
}

fn index(archive: &str) -> PackageFile {
    PackageFile {
        archive: Some(archive.to_string()),
        origin: Some("Debian".to_string()),
        codename: Some("bookworm".to_string()),
        component: Some("main".to_string()),
        arch: Some("amd64".to_string()),
        filename: None,
        downloadable: archive != "now",
        trusted: true,
    }
}

fn version(package: &str, number: &str, order: u64) -> Version {
    Version {
        package: package.to_string(),
        version: number.to_string(),
        order,
        arch: "amd64".to_string(),
        multi_arch: "no".to_string(),
        size: 100,
        installed_size: 400,
        installed: false,
        downloadable: true,
        files: vec![VersionFile {
            file: index("stable"),
            uri: format!("http://deb.debian.org/debian/pool/{package}_{number}_amd64.deb"),
        }],
        records: Vec::new(),
        hashes: Vec::new(),
        description: None,
        summary: None,
        section: None,
        priority: None,
        source_name: package.to_string(),
        provides: Vec::new(),
        depends: Vec::new(),
    }
}

fn package(id: u64, name: &str, versions: Vec<Version>) -> Package {
    Package {
        id,
        name: name.to_string(),
        fullname: name.to_string(),
        long_name: format!("{name}:amd64"),
        arch: "amd64".to_string(),
        installed: versions.iter().position(|v| v.installed),
        candidate: if versions.is_empty() { None } else { Some(0) },
        install_version: if versions.is_empty() { None } else { Some(0) },
        versions,
        marked: Marked::Keep,
        marked_install: false,
        marked_upgrade: false,
        marked_delete: false,
        marked_purge: false,
        current_state: PkgCurrentState::NotInstalled,
        essential: false,
        auto_removable: false,
        auto_installed: false,
        providers: Vec::new(),
    }
}

fn regex() -> NalaRegex {
    NalaRegex::new(
        "mirror://(.*?/.*?)/",
        "https?://([A-Za-z_0-9.-]+).*",
        "<link>(.*)</link>",
        "<mirror:countrycode>(.*)</mirror:countrycode>",
    )
    .unwrap()
}

const EMPTY_SHA256: &str = "e3b0c44298fc1c149afbf4c8996fb92427ae41e4649b934ca495991b7852b855";
const ABC_SHA256: &str = "ba7816bf8f01cfea414140de5dae2223b00361a396177a9cb410ff61f20015ad";
const ABC_SHA512: &str = "ddaf35a193617abacc417349ae20413112e6fa4e89a97ea20a9eeee64b55d39a\
                          2192992a274fc1a836ba3c23a3feebbd454d4423643ce80e2a9ac94fa54ca49f";

fn named(mut ver: Version, path: &str) -> Version {
    ver.records.push(("Filename".to_string(), path.to_string()));
    ver.hashes.push(("sha256".to_string(), ABC_SHA256.to_string()));
    ver
}

#[test]
fn bytes_become_hexadecimal() {
    assert_eq!(bytes_to_hex_string(&[1, 254, 0]), "01fe00");
}

#[test]
fn known_digests() {
    assert_eq!(
        HashSum::from_bytes(b"abc", "sha256").unwrap(),
        HashSum::Sha256(ABC_SHA256.to_string())
    );
    assert_eq!(
        HashSum::from_bytes(b"abc", "sha512").unwrap(),
        HashSum::Sha512(ABC_SHA512.to_string())
    );
    assert_eq!(
        HashSum::from_bytes(b"", "sha256").unwrap(),
        HashSum::Sha256(EMPTY_SHA256.to_string())
    );
    let error = HashSum::from_bytes(b"", "md5").unwrap_err();
    assert_eq!(error.message, "Hash Type: md5 is not supported");
}

#[test]
fn pieces_hash_like_the_whole() {
    let mut hasher = get_hasher("sha512").unwrap();
    hasher.update(b"a");
    hasher.update(b"");
    hasher.update(b"bc");
    assert_eq!(bytes_to_hex_string(&hasher.finish()), ABC_SHA512);
    assert_eq!(get_hasher("sha1").unwrap_err().message, "Hash Type: sha1 is not supported");
}

#[test]
fn hashes_by_length_and_by_name() {
    let hash = "h".to_string();
    assert_eq!(HashSum::from_str_len(128, hash.clone()).unwrap().str_type(), "sha512");
    assert_eq!(HashSum::from_str_len(64, hash.clone()).unwrap().str_type(), "sha256");
    let error = HashSum::from_str_len(32, hash.clone()).unwrap_err();
    assert_eq!(error.message, "Hash Type: 32 is not supported");
    assert!(HashSum::from_str("sha256", hash.clone())
        .unwrap()
        .equals(&HashSum::Sha256(hash.clone())));
    assert!(!HashSum::Sha256(hash.clone()).equals(&HashSum::Sha512(hash.clone())));
    let error = HashSum::from_str("crc", hash).unwrap_err();
    assert_eq!(error.message, "Hash Type: crc is not supported");
}

#[test]
fn the_strongest_hash_is_taken() {
    let config = plain();
    let mut ver = version("apt", "2", 2);
    let error = get_hash(&config, &ver).unwrap_err();
    assert_eq!(
        error.message,
        "apt 2 can't be checked for integrity.\nThere are no hashes available for this package."
    );
    ver.hashes = vec![("md5".to_string(), "m".to_string())];
    assert!(get_hash(&config, &ver).is_err());
    ver.hashes.push(("sha256".to_string(), "a".to_string()));
    assert_eq!(get_hash(&config, &ver).unwrap(), HashSum::Sha256("a".to_string()));
    ver.hashes.push(("sha512".to_string(), "b".to_string()));
    assert_eq!(get_hash(&config, &ver).unwrap(), HashSum::Sha512("b".to_string()));
}

fn addresses(walk: &UriWalk) -> Vec<&str> {
    walk.filtered.iter().map(|s| s.as_str()).collect()
}

#[test]
fn an_ordinary_address_is_taken_as_it_is() {
    let config = plain();
    let mut filter = UriFilter::new(regex());
    let mut ver = version("apt", "2", 2);
    ver.files.push(VersionFile { file: index("now"), uri: "unused".to_string() });
    ver.files[0].file.trusted = false;
    let mut walk = UriWalk::new();
    assert!(matches!(filter.uris(&ver, &config, &mut walk), UriStep::Finished));
    assert_eq!(addresses(&walk), vec!["http://deb.debian.org/debian/pool/apt_2_amd64.deb"]);
    assert_eq!(filter.untrusted, vec!["apt"]);
    filter.add_untrusted(&config, "apt");
    assert_eq!(filter.untrusted, vec!["apt"]);
}

#[test]
fn a_list_of_mirrors_is_read_once() {
    let config = plain();
    let mut filter = UriFilter::new(regex());
    let mut ver = named(version("apt", "2", 2), "pool/a/apt.deb");
    ver.files[0].uri = "mirror://mirrors.debian.org/list.txt/pool/a/apt.deb".to_string();
    let mut walk = UriWalk::new();
    match filter.uris(&ver, &config, &mut walk) {
        UriStep::Mirror { name, source } => {
            assert_eq!(name, "mirrors.debian.org/list.txt");
            assert_eq!(
                source,
                MirrorSource::Url("http://mirrors.debian.org/list.txt".to_string())
            );
            filter.add_to_mirrors(name, "# mirrors\n\nhttp://a\nhttp://b\n".to_string());
        },
        other => panic!("{other:?}"),
    }
    assert!(matches!(filter.uris(&ver, &config, &mut walk), UriStep::Finished));
    assert_eq!(addresses(&walk), vec!["http://a/pool/a/apt.deb", "http://b/pool/a/apt.deb"]);
    let mut again = UriWalk::new();
    assert!(matches!(filter.uris(&ver, &config, &mut again), UriStep::Finished));
    assert_eq!(addresses(&again), addresses(&walk));
}

#[test]
fn an_unknown_list_of_mirrors_gives_nothing() {
    let filter = UriFilter::new(regex());
    let ver = version("apt", "2", 2);
    let mut uris = VecDeque::new();
    assert_eq!(filter.get_from_mirrors(&ver, &mut uris, "x"), None);
    assert!(uris.is_empty());
}

#[test]
fn local_files_are_copied() {
    let config = plain();
    let mut filter = UriFilter::new(regex());
    let mut ver = version("apt", "2", 2);
    ver.files[0].uri = "file:/srv/repo/apt.deb".to_string();
    let mut walk = UriWalk::new();
    match filter.uris(&ver, &config, &mut walk) {
        UriStep::Copy { from, to } => {
            assert_eq!(from, "/srv/repo/apt.deb");
            assert_eq!(to, "/var/cache/apt/archives/apt.deb");
        },
        other => panic!("{other:?}"),
    }
    assert!(matches!(filter.uris(&ver, &config, &mut walk), UriStep::Finished));
    assert_eq!(addresses(&walk), vec!["file:/srv/repo/apt.deb"]);
}

#[test]
fn a_local_file_needs_a_name() {
    let config = plain();
    let mut filter = UriFilter::new(regex());
    let mut ver = version("apt", "2", 2);
    ver.files[0].uri = "file:/srv/\"x\"/..".to_string();
    match filter.uris(&ver, &config, &mut UriWalk::new()) {
        UriStep::Failed(e) => {
            assert_eq!(e.message, "\"/srv/\\\"x\\\"/..\" Does not have a valid filename!")
        },
        other => panic!("{other:?}"),
    }
}

fn downloader(config: &Config) -> Downloader {
    Downloader::new(config, regex())
}

#[test]
fn a_download_of_a_version() {
    let config = plain();
    let mut all = downloader(&config);
    let ver = named(version("apt", "1:2", 2), "pool/a/apt_2_amd64.deb");
    all.add_version(&ver, &config, VecDeque::from(["http://a".to_string()])).unwrap();
    let uri = &all.uris()[0];
    assert_eq!(uri.filename, "apt_1%3a2_amd64.deb");
    assert_eq!(uri.archive, "/var/cache/apt/archives/apt_1%3a2_amd64.deb");
    assert_eq!(uri.partial, "/var/cache/apt/archives/partial/apt_1%3a2_amd64.deb");
    assert_eq!(uri.size, 100);
    assert_eq!(uri.hash_type(), "sha256");
    let mut unhashed = named(version("apt", "2", 2), "pool/apt.deb");
    unhashed.hashes.clear();
    assert!(all.add_version(&unhashed, &config, VecDeque::new()).is_err());
    assert_eq!(all.uris().len(), 1);
}

#[test]
fn connections_to_a_domain_are_limited() {
    let config = plain();
    let mut domains = downloader(&config).domains;
    for _ in 0..3 {
        assert!(add_domain("a".to_string(), &mut domains));
    }
    assert!(!add_domain("a".to_string(), &mut domains));
    assert!(add_domain("b".to_string(), &mut domains));
    remove_domain("a", &mut domains);
    assert!(add_domain("a".to_string(), &mut domains));
    remove_domain("c", &mut domains);
    assert_eq!(domains.get("c"), None);
    assert_eq!(domains.get("a"), Some(&3));
}

fn uri(addresses: &[&str], hash: Option<HashSum>) -> Uri {
    Uri {
        uris: addresses.iter().map(|a| a.to_string()).collect(),
        size: 3,
        archive: "/a/x.deb".to_string(),
        partial: "/a/partial/x.deb".to_string(),
        hash,
        filename: "x.deb".to_string(),
    }
}

#[test]
fn addresses_are_tried_in_turn() {
    let config = plain();
    let mut domains = downloader(&config).domains;
    let pattern = regex().domain;
    let mut uri = uri(&["nowhere", "http://a/x", "http://b/x"], None);
    match uri.download(&mut domains, &pattern) {
        Attempt::Skipped(url) => assert_eq!(url, "nowhere"),
        other => panic!("{other:?}"),
    }
    for _ in 0..3 {
        add_domain("a".to_string(), &mut domains);
    }
    match uri.download(&mut domains, &pattern) {
        Attempt::Busy(url) => assert_eq!(url, "http://a/x"),
        other => panic!("{other:?}"),
    }
    assert_eq!(uri.uris, VecDeque::from(["http://b/x".to_string(), "http://a/x".to_string()]));
    match uri.download(&mut domains, &pattern) {
        Attempt::Start { url, domain, message } => {
            assert_eq!(url, "http://b/x");
            assert_eq!(domain, "b");
            assert!(matches!(message, Message::Verbose(t) if t == "Starting: http://b/x"));
        },
        other => panic!("{other:?}"),
    }
    assert_eq!(domains.get("b"), Some(&1));
    remove_domain("a", &mut domains);
    assert!(matches!(uri.download(&mut domains, &pattern), Attempt::Start { .. }));
    match uri.download(&mut domains, &pattern) {
        Attempt::Exhausted(e) => {
            assert_eq!(e.message, "No URIs could be downloaded for x.deb")
        },
        other => panic!("{other:?}"),
    }
}

#[test]
fn only_a_file_with_the_right_hash_is_archived() {
    let good = HashSum::Sha256("a".to_string());
    let uri = uri(&[], Some(HashSum::Sha256("a".to_string())));
    match uri.settle("http://a", Ok(good)) {
        Outcome::Archive(Message::Verbose(text)) => assert_eq!(text, "Finished: http://a"),
        other => panic!("{other:?}"),
    }
    match uri.settle("http://a", Ok(HashSum::Sha512("a".to_string()))) {
        Outcome::Reject(e) => assert_eq!(e.message, "Checksum did not match for x.deb"),
        other => panic!("{other:?}"),
    }
    match uri.settle("http://a", Err("Get".to_string())) {
        Outcome::Retry(Message::NonFatal((reason, size))) => {
            assert_eq!(reason, "Get");
            assert_eq!(size, 3);
        },
        other => panic!("{other:?}"),
    }
}

#[test]
fn without_a_hash_nothing_is_checked() {
    let uri = uri(&[], None);
    assert!(uri.check_hash(&HashSum::Sha256("x".to_string())).is_ok());
    assert_eq!(uri.hash_type(), "sha512");
}

#[test]
fn a_file_on_disk_is_kept_if_it_is_right() {
    let known = uri(&[], Some(HashSum::Sha256("a".to_string())));
    let right = Some(HashSum::Sha256("a".to_string()));
    let wrong = Some(HashSum::Sha256("b".to_string()));
    assert_eq!(known.on_disk(false, &None), OnDisk::Download);
    assert_eq!(known.on_disk(true, &right), OnDisk::Keep);
    assert_eq!(known.on_disk(true, &wrong), OnDisk::Replace);
    assert_eq!(uri(&[], None).on_disk(true, &right), OnDisk::Replace);
}

fn some(text: &str) -> Option<String> {
    Some(text.to_string())
}

#[test]
fn proxies_by_domain_and_scheme() {
    let http = Some(ProxyConfig {
        value: some("http://proxy:3128"),
        domains: vec![
            (some("direct.org"), some("DIRECT")),
            (some("own.org"), some("http://OWN:8080")),
            (None, some("http://ignored")),
        ],
    });
    let https = Some(ProxyConfig {
        value: None,
        domains: vec![(some("secure.org"), some("https://s"))],
    });
    let map = build_proxy(&http, &https).unwrap();
    assert_eq!(get_proxy(&map, "any.org", "http"), some("http://proxy:3128/"));
    assert_eq!(get_proxy(&map, "any.org", "https"), None);
    assert_eq!(get_proxy(&map, "direct.org", "http"), None);
    assert_eq!(get_proxy(&map, "own.org", "http"), some("http://own:8080/"));
    assert_eq!(get_proxy(&map, "own.org", "https"), None);
    assert_eq!(get_proxy(&map, "own.org", "ftp"), some("http://own:8080/"));
    assert_eq!(get_proxy(&map, "secure.org", "https"), some("https://s/"));
    assert_eq!(get_proxy(&map, "secure.org", "http"), some("http://proxy:3128/"));
}

#[test]
fn a_proxy_must_be_an_address() {
    let http = Some(ProxyConfig { value: some("proxy"), domains: Vec::new() });
    let error = build_proxy(&http, &None).err().unwrap();
    assert_eq!(error.message, "relative URL without a base");
    let https = Some(ProxyConfig {
        value: None,
        domains: vec![(some("a"), some("http://")), (some("b"), some("x"))],
    });
    assert_eq!(build_proxy(&None, &https).err().unwrap().message, "empty host");
}

#[test]
fn routes_of_a_protocol() {
    let http = Proto::new("http", "p".to_string());
    assert_eq!(http.maybe_proxy("http"), some("p"));
    assert_eq!(http.maybe_proxy("https"), None);
    assert_eq!(http.proxy(), some("p"));
    let https = Proto::new("https", "p".to_string());
    assert_eq!(https.maybe_proxy("http"), None);
    assert_eq!(https.maybe_proxy("socks5"), some("p"));
    assert_eq!(Proto::Direct.maybe_proxy("http"), None);
    assert_eq!(Proto::Direct.proxy(), None);
}

#[test]
fn untrusted_packages_need_permission() {
    let mut config = plain();
    assert!(matches!(untrusted_error(&config, &Vec::new()), Trust::Trusted));
    let names = vec!["apt".to_string(), "nala".to_string()];
    match untrusted_error(&config, &names) {
        Trust::Refused(lines, e) => {
            assert_eq!(
                lines,
                vec![
                    "Warning: The Following packages cannot be authenticated!",
                    "  apt, nala"
                ]
            );
            assert_eq!(
                e.message,
                "Some packages were unable to be authenticated.\n  If you're sure use \
                 --allow-unauthenticated"
            );
        },
        other => panic!("{other:?}"),
    }
    config.apt.set_bool("APT::Get::AllowUnauthenticated".to_string(), true);
    match untrusted_error(&config, &names) {
        Trust::Allowed(lines) => assert_eq!(
            lines[2],
            "Notice: Configuration is set to allow installation of unauthenticated packages."
        ),
        other => panic!("{other:?}"),
    }
}

#[test]
fn addresses_on_the_command_line() {
    assert_eq!(parse_cmdline("").unwrap_err().message, "No protocol was defined");
    assert_eq!(parse_cmdline("http:").unwrap_err().message, "No uri was defined");
    let bare = parse_cmdline("http://a/x.deb").unwrap();
    assert_eq!(bare.uri, "http://a/x.deb");
    assert_eq!(bare.hash, None);
    assert_eq!(bare.warning, some("No Hash Found for 'http://a/x.deb'"));
    let hashed = parse_cmdline(&format!("http://a/x.deb:{ABC_SHA512}")).unwrap();
    assert_eq!(hashed.hash, Some(HashSum::Sha512(ABC_SHA512.to_string())));
    assert_eq!(hashed.warning, None);
    let error = parse_cmdline("http://a/x.deb:b9ef863f210d170d282991ad1e0676eb").unwrap_err();
    assert_eq!(error.message, "Hash Type: 32 is not supported");
    let wide = format!("http://a:{}", "\u{e4}".repeat(32));
    assert!(matches!(parse_cmdline(&wide).unwrap().hash, Some(HashSum::Sha256(_))));
}

fn cli(uri: &str) -> CliUri {
    CliUri { uri: uri.to_string(), hash: None, warning: None }
}

#[test]
fn downloads_from_the_command_line() {
    let config = plain();
    let mut all = downloader(&config);
    let error = all.add_from_cmdline(cli("http://a/x.deb"), None, "{}").unwrap_err();
    assert_eq!(error.message, "content-length does not exist in {}");
    let error = all.add_from_cmdline(cli("http://a/x.deb"), Some("x"), "{}").unwrap_err();
    assert_eq!(error.message, "Parsing content-len to usize {}");
    let error = all.add_from_cmdline(cli(""), Some("1"), "{}").unwrap_err();
    assert_eq!(error.message, "'' is malformed!");
    all.add_from_cmdline(cli("http://a/x.deb"), Some("17"), "{}").unwrap();
    assert_eq!(all.uris()[0].size, 17);
    assert_eq!(all.uris()[0].archive, "/var/cache/apt/archives/x.deb");
    match all.check_trust(&config) {
        Trust::Refused(lines, _) => assert_eq!(lines[1], "  x.deb"),
        other => panic!("{other:?}"),
    }
}

#[test]
fn messages_move_the_run_on() {
    let mut config = plain();
    let mut run = Run { current: 0, total: 2 };
    assert!(matches!(run.handle(&config, Message::Update(7)), RunAction::Advance(7)));
    assert!(matches!(run.handle(&config, Message::Finished), RunAction::Nothing));
    assert!(!run.done());
    assert!(matches!(run.handle(&config, Message::Verbose("v".to_string())), RunAction::Nothing));
    assert!(matches!(run.handle(&config, Message::Debug("d".to_string())), RunAction::Nothing));
    config.nala_map.insert("debug".to_string(), true);
    assert!(matches!(run.handle(&config, Message::Verbose("v".to_string())), RunAction::Print(_)));
    assert!(matches!(run.handle(&config, Message::Debug("d".to_string())), RunAction::Debug(_)));
    match run.handle(&config, Message::NonFatal(("Get".to_string(), 5))) {
        RunAction::Rewind(text, 5) => assert_eq!(text, "Error: Get"),
        other => panic!("{other:?}"),
    }
    assert_eq!(
        run.status("{\"a\": 1}"),
        vec!["Total Packages:", " 1/2, ", "Connections:", " {\"a\": 1}"]
    );
    assert!(matches!(run.handle(&config, Message::Exit), RunAction::Stop));
    run.handle(&config, Message::Finished);
    assert!(run.done());
}

#[test]
fn no_finished_download_is_a_failure() {
    assert_eq!(run(Vec::new(), false).unwrap_err().message, "Downloads Failed");
    assert_eq!(run(vec![Ok(uri(&[], None))], false).unwrap().len(), 1);
    assert!(finish::<Uri>(Vec::new()).unwrap().is_empty());
}

#[test]
fn the_first_version_with_a_source_is_downloaded() {
    let mut lost = version("apt", "3", 3);
    lost.downloadable = false;
    let pkg = package(1, "apt", vec![lost, version("apt", "2", 2)]);
    let (place, warnings) = select_version(&pkg);
    assert_eq!(place, Some(1));
    assert_eq!(
        warnings,
        vec!["Can't find a source to download version '3' of 'apt:amd64'"]
    );
}

#[test]
fn every_name_must_stand_for_a_package() {
    let config = plain();
    let mut lost = version("lost", "3", 3);
    lost.downloadable = false;
    let found = vec![
        Some(package(1, "apt", vec![version("apt", "2", 2)])),
        None,
        Some(package(2, "lost", vec![lost])),
    ];
    let names = vec!["apt".to_string(), "x".to_string(), "lost".to_string()];
    let plan = plan_downloads(&config, &names, &found);
    assert_eq!(plan.picks, vec![(0, 0)]);
    assert_eq!(plan.warnings.len(), 1);
    assert_eq!(plan.not_found, vec!["x"]);
    assert_eq!(check_found(&plan).unwrap_err().message, "Some packages were not found.");
}

#[test]
fn finished_downloads_are_named() {
    let config = plain();
    assert_eq!(
        download(&config, &vec![uri(&[], None)]),
        vec!["Downloads Complete:", "  x.deb was written to /a/x.deb"]
    );
}

#[test]
fn a_domain_decides_what_becomes_of_an_address() {
    let config = plain();
    let mut domains = downloader(&config).domains;
    let mut uri = uri(&["one", "two", "three"], None);
    assert!(matches!(uri.attempt(None, &mut domains), Attempt::Skipped(url) if url == "one"));
    for _ in 0..3 {
        add_domain("a".to_string(), &mut domains);
    }
    assert!(matches!(uri.attempt(some("a"), &mut domains), Attempt::Busy(url) if url == "two"));
    assert_eq!(uri.uris, VecDeque::from(["three".to_string(), "two".to_string()]));
    match uri.attempt(some("b"), &mut domains) {
        Attempt::Start { url, domain, .. } => {
            assert_eq!(url, "three");
            assert_eq!(domain, "b");
        },
        other => panic!("{other:?}"),
    }
    assert_eq!(domains.get("b"), Some(&1));
}

#[test]
fn one_file_of_a_version() {
    let config = plain();
    let mut filter = UriFilter::new(regex());
    let mut ver = named(version("apt", "2", 2), "pool/apt.deb");
    ver.files[0].uri = "mirror://m/l/pool/apt.deb".to_string();
    let mut walk = UriWalk::new();
    match filter.take_file(&ver, &config, &mut walk, some("m/l")) {
        Some(UriStep::Mirror { name, .. }) => assert_eq!(name, "m/l"),
        other => panic!("{other:?}"),
    }
    assert_eq!(walk.place, 0);
    filter.add_to_mirrors("m/l".to_string(), "http://a\n".to_string());
    assert!(filter.take_file(&ver, &config, &mut walk, some("m/l")).is_none());
    assert_eq!(addresses(&walk), vec!["http://a/pool/apt.deb"]);
    assert_eq!(walk.place, 1);
    let mut walk = UriWalk::new();
    assert!(filter.take_file(&ver, &config, &mut walk, None).is_none());
    assert_eq!(addresses(&walk), vec!["mirror://m/l/pool/apt.deb"]);
}

#[test]
fn a_route_over_a_proxy() {
    let mut map = build_proxy(&None, &None).unwrap();
    let error = set_proxy(&mut map, "a".to_string(), "http", Err("bad".to_string()));
    assert_eq!(error.unwrap_err().message, "bad");
    assert!(!map.contains_key("a"));
    set_proxy(&mut map, "a".to_string(), "https", Ok("p".to_string())).unwrap();
    assert_eq!(map.get("a"), Some(&Proto::Https("p".to_string())));
    assert!(asks_direct("direct") && asks_direct("false"));
    assert!(!asks_direct("DIRECT") && !asks_direct(""));
}

fn outcome(name: &str) -> Result<Uri, NalaError> {
    let mut done = uri(&[], None);
    done.filename = name.to_string();
    Ok(done)
}

#[test]
fn one_failure_fails_the_run() {
    let failed = |text: &str| Err(NalaError::new(text));
    let outcomes = vec![outcome("a"), failed("first"), outcome("b"), failed("second")];
    assert_eq!(run(outcomes, false).unwrap_err().message, "first");
    let finished = run(vec![outcome("b"), outcome("a")], false).unwrap();
    let names: Vec<&str> = finished.iter().map(|uri| uri.filename.as_str()).collect();
    assert_eq!(names, vec!["b", "a"]);
}

#[test]
fn leaving_a_run_gives_nothing() {
    assert!(run(vec![outcome("a")], true).unwrap().is_empty());
    assert!(run(vec![Err(NalaError::new("x"))], true).unwrap().is_empty());
    assert!(run(Vec::new(), true).unwrap().is_empty());
}

#[test]
fn downloads_are_started_from_the_last() {
    let mut all = downloader(&plain());
    for name in ["a", "b", "c"] {
        all.uris.push(outcome(name).unwrap());
    }
    let names: Vec<String> = all.download().into_iter().map(|uri| uri.filename).collect();
    assert_eq!(names, vec!["c", "b", "a"]);
    assert!(all.uris().is_empty());
}

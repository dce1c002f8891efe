//! Choosing mirrors.
use nala::apt::{Marked, Package, PackageFile, PkgCurrentState, Version, VersionFile};
use nala::config::{AptConfig, Config, Style, StyleSheet, Switch};
use nala::fetch::{
    add_found, check_non_free, check_scored, choose_unasked, debian_url, detect_release,
    devuan_url, domain_from_list, fetch, fetch_mirrors, get_component, get_origin_codename,
    keyrings, mirror_list_url, net_select_score, next_attempt, non_free_urls, parse_sources,
    release_url, remove_known, score_attempts, score_handler, score_url, source_kind,
    switches_off, ubuntu_choice, ubuntu_url, wanted_countries, FetchTui, Key, SourceKind,
    SourcePart, StatefulList,
};
use nala::tagfile::TagSection;
use nala::util::NalaRegex;

fn style(prefix: &str) -> Style {
    Style { prefix: prefix.to_string() }
}

/// Styles whose prefix is a mark.
fn sheet() -> StyleSheet {
    StyleSheet {
        primary: style("<p>"),
        secondary: style("<s>"),
        regular: style("<r>"),
        highlight: style("<h>"),
        progress_filled: style("<f>"),
        progress_unfilled: style("<u>"),
        notice: style("<n>"),
        warning: style("<w>"),
        error: style("<e>"),
    }
}

/// A configuration without colours.
fn plain() -> Config {
    let mut config = Config::with_defaults(AptConfig::new(vec!["amd64".to_string()]), &sheet());
    config.can_color = Switch::Never;
    config
}

fn index(archive: &str) -> PackageFile {
    PackageFile {
        archive: Some(archive.to_string()),
        origin: Some("Debian".to_string()),
        codename: Some("bookworm".to_string()),
        component: Some("main".to_string()),
        arch: Some("amd64".to_string()),
        filename: None,
        downloadable: archive != "now",
        trusted: true,
    }
}

fn version(package: &str, number: &str, order: u64) -> Version {
    Version {
        package: package.to_string(),
        version: number.to_string(),
        order,
        arch: "amd64".to_string(),
        multi_arch: "no".to_string(),
        size: 100,
        installed_size: 400,
        installed: false,
        downloadable: true,
        files: vec![VersionFile {
            file: index("stable"),
            uri: format!("http://deb.debian.org/debian/pool/{package}_{number}_amd64.deb"),
        }],
        records: Vec::new(),
        hashes: Vec::new(),
        description: None,
        summary: None,
        section: None,
        priority: None,
        source_name: package.to_string(),
        provides: Vec::new(),
        depends: Vec::new(),
    }
}

fn package(id: u64, name: &str, versions: Vec<Version>) -> Package {
    Package {
        id,
        name: name.to_string(),
        fullname: name.to_string(),
        long_name: format!("{name}:amd64"),
        arch: "amd64".to_string(),
        installed: versions.iter().position(|v| v.installed),
        candidate: if versions.is_empty() { None } else { Some(0) },
        install_version: if versions.is_empty() { None } else { Some(0) },
        versions,
        marked: Marked::Keep,
        marked_install: false,
        marked_upgrade: false,
        marked_delete: false,
        marked_purge: false,
        current_state: PkgCurrentState::NotInstalled,
        essential: false,
        auto_removable: false,
        auto_installed: false,
        providers: Vec::new(),
    }
}

fn regex() -> NalaRegex {
    NalaRegex::new(
        "mirror://(.*?/.*?)/",
        "https?://([A-Za-z_0-9.-]+).*",
        "<link>(.*)</link>",
        "<mirror:countrycode>(.*)</mirror:countrycode>",
    )
    .unwrap()
}

fn strings(v: &[&str]) -> Vec<String> {
    v.iter().map(|s| s.to_string()).collect()
}

fn section(fields: &[(&str, &str)]) -> TagSection {
    TagSection {
        fields: fields.iter().map(|(k, v)| (k.to_string(), v.to_string())).collect(),
    }
}

#[test]
fn the_release_can_be_given() {
    let mut config = plain();
    config.vec_map.insert("ubuntu".to_string(), strings(&["JAMMY"]));
    assert_eq!(
        detect_release(&config, &Vec::new()).unwrap(),
        ("ubuntu".to_string(), "jammy".to_string())
    );
    config.vec_map.insert("debian".to_string(), strings(&["\u{c4}sid"]));
    assert_eq!(
        detect_release(&config, &Vec::new()).unwrap(),
        ("debian".to_string(), "\u{e4}sid".to_string())
    );
}

#[test]
fn the_release_comes_from_a_keyring() {
    let config = plain();
    assert_eq!(keyrings()[0], "devuan-keyring");
    assert_eq!(keyrings().len(), 4);
    let apt = package(1, "apt", vec![version("apt", "2", 2)]);
    assert_eq!(
        get_origin_codename(&Some(package(2, "x", Vec::new()))),
        None
    );
    let found = vec![None, None, None, Some(apt)];
    assert_eq!(
        detect_release(&config, &found).unwrap(),
        ("debian".to_string(), "bookworm".to_string())
    );
    assert_eq!(
        detect_release(&config, &vec![None]).unwrap_err().message,
        "There was an issue detecting release."
    );
}

#[test]
fn components_of_a_distribution() {
    let mut config = plain();
    assert_eq!(get_component(&config, "debian").unwrap(), "main");
    assert_eq!(
        get_component(&config, "ubuntu").unwrap(),
        "main restricted universe multiverse"
    );
    config.nala_map.insert("non_free".to_string(), true);
    assert_eq!(get_component(&config, "devuan").unwrap(), "main contrib non-free");
    assert_eq!(get_component(&config, "arch").unwrap_err().message, "arch is unsupported.");
}

fn scored() -> Vec<(String, u128)> {
    vec![("http://a".to_string(), 12), ("http://bb".to_string(), 1200)]
}

#[test]
fn the_list_is_aligned() {
    let list = StatefulList::new(scored());
    assert_eq!(list.align, (9, 7));
    assert_eq!(list.items[1].score, "1200 ms");
    assert_eq!(
        list.items[0].to_list_items(),
        ("\u{2610} http://a".to_string(), "12 ms".to_string())
    );
}

#[test]
fn moving_in_the_list_goes_round() {
    let mut list = StatefulList::new(scored());
    list.next();
    assert_eq!(list.selected, Some(0));
    list.next();
    assert_eq!(list.selected, Some(1));
    list.next();
    assert_eq!(list.selected, Some(0));
    list.previous();
    assert_eq!(list.selected, Some(1));
    list.previous();
    assert_eq!(list.selected, Some(0));
}

#[test]
fn keys_choose_mirrors() {
    let mut tui = FetchTui::new(scored());
    assert_eq!(tui.run(Key::Char(' ')), None);
    assert_eq!(tui.chosen(), Vec::<String>::new());
    assert_eq!(tui.run(Key::End), None);
    assert_eq!(tui.run(Key::Char(' ')), None);
    assert_eq!(tui.items.items[1].to_list_items().0, "\u{2713} http://bb");
    assert_eq!(tui.run(Key::Home), None);
    assert_eq!(tui.run(Key::Char(' ')), None);
    assert_eq!(tui.run(Key::Char(' ')), None);
    assert_eq!(tui.run(Key::Other), None);
    assert_eq!(tui.run(Key::Enter), Some(strings(&["http://bb"])));
}

#[test]
fn comments_name_no_domain() {
    let regex = regex();
    assert_eq!(domain_from_list(&regex.domain, "# deb http://a.org/ x"), None);
    assert_eq!(domain_from_list(&regex.domain, ""), None);
    assert_eq!(
        domain_from_list(&regex.domain, "deb http://a.org/debian sid main"),
        Some("a.org".to_string())
    );
}

#[test]
fn files_of_sources_by_their_names() {
    assert!(matches!(source_kind("/x/a.list"), Some(SourceKind::List)));
    assert!(matches!(source_kind("/x/a.sources"), Some(SourceKind::Sections)));
    assert!(source_kind("/x/nala-sources.list").is_none());
    assert!(source_kind("/x/a.save").is_none());
}

#[test]
fn domains_of_the_sources_on_disk() {
    let parts = vec![
        SourcePart::List("deb https://b.org/x y z\ndeb http://a.org/ y z\n".to_string()),
        SourcePart::Sections(vec![
            section(&[("URIs", "http://c.org/x http://d.org")]),
            section(&[("Enabled", "NO"), ("URIs", "http://off.org")]),
            section(&[("Enabled", "yes")]),
        ]),
    ];
    assert_eq!(
        parse_sources(&regex().domain, "deb http://a.org/debian sid main\n#x\n", &parts),
        strings(&["a.org", "b.org", "c.org", "d.org"])
    );
}

#[test]
fn countries_in_capitals() {
    let mut config = plain();
    assert_eq!(wanted_countries(&config), None);
    config.vec_map.insert("countries".to_string(), strings(&["us", "DE", "Us"]));
    assert_eq!(wanted_countries(&config), Some(strings(&["US", "DE"])));
}

#[test]
fn mirrors_of_debian() {
    let mirror = section(&[
        ("Country", "US United States"),
        ("Archive-architecture", "amd64 i386"),
        ("Site", "mirror.us"),
        ("Archive-http", "/debian/"),
    ]);
    let arches = strings(&["amd64"]);
    let found = Some("http://mirror.us/debian/".to_string());
    assert_eq!(debian_url(&None, &mirror, &arches), found);
    assert_eq!(debian_url(&Some(strings(&["US"])), &mirror, &arches), found);
    assert_eq!(debian_url(&Some(strings(&["DE"])), &mirror, &arches), None);
    assert_eq!(debian_url(&None, &mirror, &strings(&["armhf"])), None);
}

#[test]
fn mirrors_of_ubuntu() {
    let config = plain();
    let item = "<link>http://u.org/ubuntu/</link>\n<mirror:countrycode>US</mirror:countrycode>";
    let found = Some("http://u.org/ubuntu/".to_string());
    assert_eq!(ubuntu_url(&config, &None, &regex(), item), found);
    assert_eq!(ubuntu_url(&config, &Some(strings(&["DE"])), &regex(), item), None);
    let title = "<title>Ubuntu Archive Mirrors Status</title>";
    assert_eq!(ubuntu_url(&config, &None, &regex(), title), None);
    let ports = Some("http://u.org/ubuntu-ports/".to_string());
    let amd64 = strings(&["amd64"]);
    let arm = strings(&["armhf"]);
    assert_eq!(ubuntu_choice(&amd64, &None, "x", &None, ports.clone()), None);
    assert_eq!(ubuntu_choice(&arm, &None, "x", &None, ports.clone()), ports);
    assert_eq!(ubuntu_choice(&arm, &None, "x", &None, found), None);
}

#[test]
fn mirrors_of_devuan() {
    let mirror = section(&[
        ("Protocols", "HTTP | HTTPS"),
        ("CountryCode", "DE | US"),
        ("BaseURL", " dev.org "),
    ]);
    let found = Some("http://dev.org/devuan".to_string());
    assert_eq!(devuan_url(&None, &mirror), found);
    assert_eq!(devuan_url(&Some(strings(&["DE", "US"])), &mirror), found);
    assert_eq!(devuan_url(&Some(strings(&["DE", "FR"])), &mirror), None);
    assert_eq!(devuan_url(&None, &section(&[("Protocols", "FTP")])), None);
}

#[test]
fn mirrors_from_a_list() {
    let config = plain();
    assert_eq!(
        mirror_list_url("devuan"),
        Some("https://pkgmaster.devuan.org/mirror_list.txt".to_string())
    );
    assert_eq!(mirror_list_url("arch"), None);
    let response = "<rss><item><link>http://u.org/ubuntu/</link><item>\
                    <link>http://u.org/ubuntu/</link><item><link>http://v.org/ubuntu/</link>";
    assert_eq!(
        fetch_mirrors(&config, &None, &regex(), "ubuntu", response, &Vec::new()),
        strings(&["http://u.org/ubuntu/", "http://v.org/ubuntu/"])
    );
    let mirror = section(&[("Protocols", "HTTP"), ("BaseURL", "dev.org")]);
    assert_eq!(
        fetch_mirrors(&config, &None, &regex(), "devuan", "", &vec![mirror]),
        strings(&["http://dev.org/devuan"])
    );
}

#[test]
fn known_sources_are_not_offered() {
    let mirrors = strings(&["http://a.org/x", "http://b.org/x"]);
    assert_eq!(remove_known(&mirrors, &strings(&["a.org"])), strings(&["http://b.org/x"]));
    assert_eq!(remove_known(&mirrors, &Vec::new()), mirrors);
}

#[test]
fn https_is_tried_first() {
    assert_eq!(score_url("http://a/"), "http://a");
    assert_eq!(score_attempts("http://a", false), strings(&["https://a", "http://a"]));
    assert_eq!(score_attempts("http://a", true), strings(&["https://a"]));
    assert_eq!(score_attempts("https://a", false), strings(&["https://a"]));
    assert_eq!(
        net_select_score("http://a", false, &vec![None, Some(9)]).unwrap(),
        ("http://a".to_string(), 9)
    );
    assert_eq!(
        net_select_score("http://a", false, &vec![Some(3), None]).unwrap(),
        ("https://a".to_string(), 3)
    );
    assert_eq!(
        net_select_score("http://a", true, &vec![None]).unwrap_err().message,
        "Could not get to 'http://a'"
    );
    assert_eq!(release_url("https://a", "sid"), "https://a/dists/sid/Release");
}

#[test]
fn nothing_is_tried_after_a_success() {
    let next = |https_only: bool, results: &[Option<u128>]| {
        next_attempt("http://a", https_only, &results.to_vec())
    };
    assert_eq!(next(false, &[]).unwrap(), "https://a");
    assert_eq!(next(false, &[None]).unwrap(), "http://a");
    assert_eq!(next(false, &[Some(3)]), None);
    assert_eq!(next(false, &[None, Some(3)]), None);
    assert_eq!(next(false, &[None, None]), None);
    assert_eq!(next(true, &[]).unwrap(), "https://a");
    assert_eq!(next(true, &[None]), None);
    assert_eq!(
        net_select_score("http://a", false, &vec![Some(3)]).unwrap(),
        ("https://a".to_string(), 3)
    );
}

#[test]
fn scores_are_sorted_and_ties_keep_their_order() {
    let scores = [("c", 5), ("a", 2), ("b", 5), ("d", 0)];
    let sorted = score_handler(scores.iter().map(|(n, s)| (n.to_string(), *s)).collect());
    let order: Vec<&str> = sorted.iter().map(|(n, _)| n.as_str()).collect();
    assert_eq!(order, vec!["d", "a", "c", "b"]);
}

#[test]
fn firmware_must_be_on_every_mirror() {
    let mut config = plain();
    assert_eq!(
        non_free_urls(&strings(&["http://a"]), "sid"),
        strings(&["http://a/dists/sid/non-free-firmware/"])
    );
    assert_eq!(check_non_free(&config, "main".to_string(), &vec![true]), "main");
    config.nala_map.insert("non_free".to_string(), true);
    assert_eq!(check_non_free(&config, "main".to_string(), &vec![true, false]), "main");
    assert_eq!(
        check_non_free(&config, "main".to_string(), &vec![true, true]),
        "main non-free-firmware"
    );
}

#[test]
fn the_file_of_sources() {
    let mut config = plain();
    assert_eq!(
        check_scored(Vec::new()).unwrap_err().message,
        "Nala was unable to find any mirrors."
    );
    let offered = check_scored(scored()).unwrap();
    assert_eq!(choose_unasked(&config, &offered), None);
    config.auto = Some(9);
    let chosen = choose_unasked(&config, &offered).unwrap();
    config.auto = None;
    assert_eq!(
        fetch(&config, &chosen, "sid", "main").unwrap(),
        "# Sources file built for nala\n\nTypes: deb deb-src\nURIs: http://a\n      http://bb\n\
         Suites: sid\nComponents: main\n"
    );
    config.auto = Some(1);
    config.nala_map.insert("sources".to_string(), true);
    assert_eq!(
        fetch(&config, &chosen, "sid", "main").unwrap(),
        "# Sources file built for nala\n\nTypes: deb\nURIs: http://a\nSuites: sid\n\
         Components: main\n"
    );
    assert_eq!(
        fetch(&config, &Vec::new(), "sid", "main").unwrap_err().message,
        "No mirrors were selected."
    );
}

#[test]
fn found_domains_are_kept_once() {
    let mut domains = strings(&["a"]);
    add_found(&mut domains, None);
    add_found(&mut domains, Some("b".to_string()));
    add_found(&mut domains, Some("a".to_string()));
    assert_eq!(domains, vec!["a", "b"]);
    assert!(switches_off("no") && switches_off("false") && switches_off("0"));
    assert!(!switches_off("yes") && !switches_off("NO"));
}

#[test]
fn keys_on_an_empty_list() {
    let mut tui = FetchTui::new(Vec::new());
    assert_eq!(tui.run(Key::Char(' ')), None);
    assert_eq!(tui.run(Key::Enter), Some(Vec::new()));
}

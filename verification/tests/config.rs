//! The configuration.
use nala::cli::{Commands, Fetch, NalaParser};
use nala::config::{
    AptConfig, CliArg, Config, ConfigFile, Paths, Style, StyleSheet, Switch, Theme,
};
use nala::report::{apt_lines, config_file, AptError};

fn style(prefix: &str) -> Style {
    Style { prefix: prefix.to_string() }
}

fn sheet() -> StyleSheet {
    StyleSheet {
        primary: style("<p>"),
        secondary: style("<s>"),
        regular: style("<r>"),
        highlight: style("<h>"),
        progress_filled: style("<f>"),
        progress_unfilled: style("<u>"),
        notice: style("<n>"),
        warning: style("<w>"),
        error: style("<e>"),
    }
}

fn config() -> Config {
    Config::with_defaults(AptConfig::new(vec!["amd64".to_string()]), &sheet())
}

#[test]
fn paths_have_keys_and_defaults() {
    assert_eq!(Paths::Archive.path(), "Dir::Cache::Archives");
    assert_eq!(Paths::Archive.default_path(), "/var/cache/apt/archives/");
    assert_eq!(Paths::Lists.path(), "Dir::State::Lists");
    assert_eq!(Paths::SourceList.default_path(), "/etc/apt/sources.list");
    assert_eq!(Paths::SourceParts.path(), "Dir::Etc::sourceparts");
    assert_eq!(Paths::NalaSources.path(), "/etc/apt/sources.list.d/nala-sources.list");
}

#[test]
fn apt_decides_where_paths_lead() {
    let mut config = config();
    assert_eq!(config.get_path(&Paths::Archive), "/var/cache/apt/archives/");
    config.apt.set_dir("Dir::Cache::Archives".to_string(), "./".to_string());
    assert_eq!(config.get_path(&Paths::Archive), "./");
    config.apt.set_file("Dir::Etc::sourcelist".to_string(), "/tmp/list".to_string());
    assert_eq!(config.get_file(&Paths::SourceList), "/tmp/list");
    assert_eq!(
        config.get_file(&Paths::NalaSources),
        "/etc/apt/sources.list.d/nala-sources.list"
    );
}

#[test]
fn apt_settings_fall_back_to_defaults() {
    let mut apt = AptConfig::new(Vec::new());
    assert!(apt.bool("A", true));
    apt.set_bool("A".to_string(), false);
    assert!(!apt.bool("A", true));
    assert_eq!(apt.number("N", 3), 3);
    apt.set_int("N".to_string(), 5);
    assert_eq!(apt.number("N", 3), 5);
    assert_eq!(apt.find_vector("V"), Vec::<String>::new());
    apt.set_vector("V".to_string(), vec!["x".to_string()]);
    assert_eq!(apt.find_vector("V"), vec!["x"]);
}

#[test]
fn colour_follows_the_theme() {
    let mut config = config();
    assert_eq!(config.color(Theme::Primary, "apt"), "<p>apt\x1b[0m");
    assert_eq!(config.highlight("x"), "<h>x\x1b[0m");
    assert_eq!(config.color_ver("1.0"), "<h>(\x1b[0m<s>1.0\x1b[0m<h>)\x1b[0m");
    config.can_color = Switch::Never;
    assert_eq!(config.color(Theme::Primary, "apt"), "apt");
    assert_eq!(config.color_ver("1.0"), "(1.0)");
}

#[test]
fn messages_on_the_error_stream() {
    let mut config = config();
    assert_eq!(config.stderr(Theme::Error, "bad"), "<e>Error:\x1b[0m bad");
    config.can_color = Switch::Never;
    assert_eq!(config.stderr(Theme::Warning, "w"), "Warning: w");
    assert_eq!(config.stderr(Theme::Notice, "n"), "Notice: n");
}

#[test]
fn file_values_take_precedence_over_default_styles() {
    let file = ConfigFile {
        flags: vec![("debug".to_string(), true)],
        values: vec![("pkg_names".to_string(), vec!["apt".to_string()])],
        styles: vec![(Theme::Error, style("<mine>"))],
    };
    let mut config = Config::new(file, AptConfig::new(Vec::new()), &sheet());
    assert_eq!(config.color(Theme::Error, "x"), "<mine>x\x1b[0m");
    assert_eq!(config.color(Theme::Notice, "x"), "<n>x\x1b[0m");
    assert!(config.debug());
    assert!(config.verbose());
    config.nala_map.insert("verbose".to_string(), false);
    assert!(config.verbose());
    assert_eq!(config.pkg_names().unwrap(), &vec!["apt".to_string()]);
    assert!(config.countries().is_none());
    assert_eq!(config.can_color, Switch::Auto);
    config.set_default_theme(&sheet());
    assert_eq!(config.rat_style(Theme::Error), Some(&style("<mine>")));
}

#[test]
fn defaults_without_a_file() {
    let config = config();
    assert_eq!(config.command, "Command Not Given Yet");
    assert!(!config.debug());
    assert!(!config.verbose());
    assert_eq!(config.auto, None);
    assert_eq!(Switch::default(), Switch::Auto);
}

fn arg(key: &str, given: bool, flag: Option<bool>, values: Option<Vec<String>>) -> CliArg {
    CliArg { key: key.to_string(), given, flag, values }
}

#[test]
fn the_command_line_overrides_the_file() {
    let mut config = config();
    config.nala_map.insert("full".to_string(), true);
    let fetch = Fetch {
        non_free: false,
        https_only: false,
        sources: false,
        auto: Some(3),
        country: Vec::new(),
        debian: None,
        ubuntu: None,
        devuan: None,
    };
    config.load_args(
        vec![
            arg("full", true, Some(false), None),
            arg("debug", false, Some(true), None),
            arg("verbose", true, Some(true), None),
            arg("debian", true, None, Some(vec!["Sid".to_string()])),
            arg("ubuntu", false, None, Some(vec!["jammy".to_string()])),
        ],
        &Some(Commands::Fetch(fetch)),
    );
    assert!(!config.get_bool("full", true));
    assert!(!config.debug());
    assert!(config.verbose());
    assert_eq!(config.get_str("debian"), Some("Sid"));
    assert_eq!(config.get_str("ubuntu"), None);
    assert_eq!(config.auto, Some(3));
}

#[test]
fn the_opposite_flag_takes_precedence() {
    let mut config = config();
    assert!(config.get_no_bool("tui", true));
    config.nala_map.insert("tui".to_string(), true);
    config.nala_map.insert("no_tui".to_string(), true);
    assert!(!config.get_no_bool("tui", true));
}

#[test]
fn errors_of_apt_lose_their_marks() {
    let mut config = config();
    config.can_color = Switch::Never;
    let lines = apt_lines(
        &config,
        &vec![
            AptError { is_error: true, msg: "E: broken".to_string() },
            AptError { is_error: false, msg: "W: old".to_string() },
        ],
    );
    assert_eq!(lines, vec!["Error: broken", "Warning: old"]);
}

#[test]
fn the_usual_configuration_file() {
    let mut parser = NalaParser {
        license: false,
        verbose: false,
        debug: false,
        config: None,
        tui: false,
        no_tui: false,
        command: None,
    };
    assert_eq!(config_file(&parser), "/etc/nala/nala.conf");
    parser.config = Some("/tmp/x".to_string());
    assert_eq!(config_file(&parser), "/tmp/x");
}

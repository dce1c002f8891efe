//! Regular expressions and globs.
use nala::pattern::{depth_of, GlobPattern, Pattern};
use nala::show::build_regex;
use nala::util::NalaRegex;

#[test]
fn patterns_ignore_case() {
    let p = Pattern::new("(https?://.*?/.*?/)").unwrap();
    assert_eq!(
        p.find("get HTTP://deb.debian.org/debian/pool/x.deb"),
        Some("HTTP://deb.debian.org/debian/".to_string())
    );
    assert_eq!(p.find("ftp://x"), None);
    assert!(p.is_match("https://a/b/"));
}

#[test]
fn the_first_group_is_captured() {
    let p = build_regex("_remoterepo=\"(.*?)\"").unwrap();
    assert_eq!(p.capture("_remoterepo=\"https://x\" y"), Some("https://x".to_string()));
    assert_eq!(p.capture("nothing"), None);
    let optional = Pattern::new("a(b)?").unwrap();
    assert_eq!(optional.capture("a"), None);
}

#[test]
fn a_broken_pattern_is_an_error() {
    let error = Pattern::new("(").unwrap_err();
    assert!(error.message.contains("unclosed group"));
    let error = NalaRegex::new("a", "(", "b", "c").unwrap_err();
    assert!(error.message.contains("unclosed group"));
}

#[test]
fn globs_match_whole_names_without_case() {
    let g = GlobPattern::new("lib*6").unwrap();
    assert!(g.is_match("LibC6"));
    assert!(!g.is_match("libc6-dev"));
    assert!(GlobPattern::new("a[b").is_err());
}

#[test]
fn long_globs_compile() {
    let long = format!("{}*", "a".repeat(20_000));
    assert!(GlobPattern::new(&long).unwrap().is_match(&"A".repeat(20_001)));
    let many = "{a,b}".repeat(1_000);
    assert!(GlobPattern::new(&many).unwrap().is_match(&"aB".repeat(500)));
    assert!(GlobPattern::new("[\u{c0}-\u{ff}]").is_ok());
}

#[test]
fn a_glob_that_outgrows_the_limits_is_an_error() {
    let deep = format!("{}a{}", "{".repeat(300), "}".repeat(300));
    let error = GlobPattern::new(&deep).unwrap_err();
    assert!(error.message.contains("maximum number of nested"), "{}", error.message);
    let huge = "[a-z]*".repeat(100_000);
    let error = GlobPattern::new(&huge).unwrap_err();
    assert!(error.message.contains("size limit"), "{}", error.message);
}

#[test]
fn faults_are_told_however_deep_the_braces() {
    let fault = |glob: &str| GlobPattern::new(glob).unwrap_err().message;
    let unclosed = "unclosed alternate group; missing '}' (maybe escape '{' with '[{]'?)";
    let unopened = "unopened alternate group; missing '{' (maybe escape '}' with '[}]'?)";
    for n in [1, 600] {
        let open = "{".repeat(n);
        let close = "}".repeat(n);
        assert_eq!(fault(&open), format!("error parsing glob '{open}': {unclosed}"));
        let glob = format!("{open}a{close}}}");
        assert_eq!(fault(&glob), format!("error parsing glob '{glob}': {unopened}"));
        let glob = format!("{open}[b-a]{close}");
        assert_eq!(
            fault(&glob),
            format!("error parsing glob '{glob}': invalid range; 'b' > 'a'")
        );
    }
}

#[test]
fn braces_in_braces_are_limited() {
    let nested = |n: usize| format!("{}{}", "{".repeat(n), "}".repeat(n));
    assert_eq!(depth_of(&nested(500)), 500);
    assert!(GlobPattern::new(&nested(500)).unwrap().is_match(""));
    for n in [501, 65_000] {
        let glob = GlobPattern::new(&format!("lib{}x{{a,b}}", nested(n))).unwrap();
        assert!(glob.is_match("LIBxa") && glob.is_match("libxb") && !glob.is_match("libx"));
    }
    let hollow = format!("{}{}", "{,{},".repeat(600), ",}{}".repeat(600));
    assert!(GlobPattern::new(&hollow).unwrap().is_match(""));
    let full = format!("{}a{}", "{".repeat(501), "}".repeat(501));
    let error = GlobPattern::new(&full).unwrap_err();
    assert_eq!(error.message, "The braces of the glob are nested too deeply");
    let hidden = "{\\}[}][]}][!]}]".repeat(501);
    assert_eq!(depth_of(&hidden), 501);
    assert!(GlobPattern::new(&hidden).is_err());
    assert_eq!(depth_of(&"{a}".repeat(1_000)), 1);
    assert_eq!(depth_of("\\{[{]}}"), 0);
}

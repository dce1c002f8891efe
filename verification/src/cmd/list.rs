//! Listing packages.
use vstd::prelude::*;
use crate::apt::{Package, Version};
use crate::config::{colored, flag, Config, Theme};
use crate::text::{join, joined, push_text, str_eq, str_or, text_or_else, texts};

verus! {

/// The archive that a version comes from.
pub open spec fn origin_text(ver: Version) -> Seq<char> {
    if ver.files@.len() == 0 {
        Seq::empty()
    } else {
        let file = ver.files@[0].file;
        if text_or_else(file.archive, "Unknown"@) == "now"@ {
            Seq::empty()
        } else {
            " ["@ + text_or_else(file.origin, "Unknown"@) + "/"@ + text_or_else(
                file.codename,
                "Unknown"@,
            ) + " "@ + text_or_else(file.component, "Unknown"@) + "] "@
        }
    }
}

/// Whether a version could replace the installed one or be replaced by the
/// candidate.
pub open spec fn upgradable_text(config: Config, pkg: Package, ver: Version) -> Seq<char> {
    match (pkg.inst(), pkg.cand()) {
        (Some(inst), Some(cand)) => if ver.order == inst.order && ver.order < cand.order {
            " [Installed, Upgradable to: "@ + colored(config, Theme::Secondary, cand.version@) + "]"@
        } else if ver.order == cand.order && ver.order > inst.order {
            " [Upgradable from: "@ + colored(config, Theme::Secondary, inst.version@) + "]"@
        } else {
            Seq::empty()
        },
        _ => Seq::empty(),
    }
}

/// What is to be said of an installed version.
pub open spec fn attributes(pkg: Package, ver: Version) -> Seq<Seq<char>> {
    if !ver.installed {
        Seq::empty()
    } else {
        let a = seq!["Installed"@];
        let b = if ver.downloadable {
            a
        } else {
            a.push("Local"@)
        };
        let c = if pkg.auto_removable {
            b.push("Auto-Removable"@)
        } else {
            b
        };
        if pkg.auto_installed {
            c.push("Automatic"@)
        } else {
            c
        }
    }
}

/// What is to be said of an installed version, in brackets.
pub open spec fn attribute_text(pkg: Package, ver: Version) -> Seq<char> {
    if ver.installed {
        "["@ + joined(attributes(pkg, ver), ", "@) + "]"@
    } else {
        Seq::empty()
    }
}

/// The description of a version or its summary, where one is asked for. The
/// description takes precedence.
pub open spec fn details(ver: Version, summary: bool, description: bool) -> Seq<char> {
    if description {
        "\n"@ + text_or_else(ver.description, "No Description"@)
    } else if summary {
        "\n"@ + text_or_else(ver.summary, "No Summary"@)
    } else {
        Seq::empty()
    }
}

/// A version in a list.
pub open spec fn version_text(
    config: Config,
    pkg: Package,
    ver: Version,
    summary: bool,
    description: bool,
) -> Seq<char> {
    colored(config, Theme::Primary, pkg.fullname@) + " "@ + colored(
        config,
        Theme::Secondary,
        ver.version@,
    ) + origin_text(ver) + upgradable_text(config, pkg, ver) + attribute_text(pkg, ver) + details(
        ver,
        summary,
        description,
    )
}

fn format_origin(ver: &Version) -> (r: String)
    ensures
        r@ == origin_text(*ver),
{
    if ver.files.len() == 0 {
        return String::new();
    }
    let file = &ver.files[0].file;
    if str_eq(str_or(&file.archive, "Unknown"), "now") {
        return String::new();
    }
    let mut r = " [".to_owned();
    r.append(str_or(&file.origin, "Unknown"));
    r.append("/");
    r.append(str_or(&file.codename, "Unknown"));
    r.append(" ");
    r.append(str_or(&file.component, "Unknown"));
    r.append("] ");
    r
}

fn format_upgradable(config: &Config, pkg: &Package, ver: &Version) -> (r: String)
    ensures
        r@ == upgradable_text(*config, *pkg, *ver),
{
    if let (Some(installed), Some(candidate)) = (pkg.installed(), pkg.candidate()) {
        // Version is installed, check if it's upgradable
        if ver.order == installed.order && ver.order < candidate.order {
            let mut r = " [Installed, Upgradable to: ".to_owned();
            r.append(config.color(Theme::Secondary, candidate.version.as_str()).as_str());
            r.append("]");
            return r;
        }
        // Version isn't installed, see if it's the candidate
        if ver.order == candidate.order && ver.order > installed.order {
            let mut r = " [Upgradable from: ".to_owned();
            r.append(config.color(Theme::Secondary, installed.version.as_str()).as_str());
            r.append("]");
            return r;
        }
    }
    String::new()
}

fn format_attributes(pkg: &Package, ver: &Version) -> (r: String)
    ensures
        r@ == attribute_text(*pkg, *ver),
{
    if !ver.installed {
        return String::new();
    }
    let mut attrs: Vec<String> = Vec::new();
    assert(texts(attrs@) =~= Seq::empty());
    push_text(&mut attrs, "Installed".to_owned());
    assert(texts(attrs@) =~= seq!["Installed"@]);
    // Version isn't downloadable, consider it locally installed
    if !ver.downloadable {
        push_text(&mut attrs, "Local".to_owned());
    }
    if pkg.auto_removable {
        push_text(&mut attrs, "Auto-Removable".to_owned());
    }
    if pkg.auto_installed {
        push_text(&mut attrs, "Automatic".to_owned());
    }
    let mut r = "[".to_owned();
    r.append(join(&attrs, ", ").as_str());
    r.append("]");
    r
}

/// A single version of a package in a list.
pub fn list_version(
    config: &Config,
    pkg: &Package,
    ver: &Version,
    summary: bool,
    description: bool,
) -> (r: String)
    ensures
        r@ == version_text(*config, *pkg, *ver, summary, description),
{
    let mut string = config.color(Theme::Primary, pkg.fullname.as_str());
    string.append(" ");
    string.append(config.color(Theme::Secondary, ver.version.as_str()).as_str());
    string.append(format_origin(ver).as_str());
    string.append(format_upgradable(config, pkg, ver).as_str());
    string.append(format_attributes(pkg, ver).as_str());
    let mut more = String::new();
    if description {
        more.append("\n");
        more.append(str_or(&ver.description, "No Description"));
    } else if summary {
        more.append("\n");
        more.append(str_or(&ver.summary, "No Summary"));
    }
    assert(more@ =~= details(*ver, summary, description));
    string.append(more.as_str());
    string
}

/// The version of a package that is listed when only one is: the candidate,
/// else the first.
pub open spec fn listed(pkg: Package) -> Option<Version> {
    match pkg.cand() {
        Some(v) => Some(v),
        None => if pkg.versions@.len() > 0 {
            Some(pkg.versions@[0])
        } else {
            None
        },
    }
}

/// The names of the packages that provide one.
pub open spec fn provider_names(pkg: Package) -> Seq<Seq<char>> {
    Seq::new(pkg.providers@.len(), |i: int| pkg.providers@[i].fullname@)
}

/// What a package adds to a list: its versions, one of them, or the packages
/// that provide it.
pub open spec fn package_lines(config: Config, pkg: Package) -> Seq<Seq<char>> {
    let summary = flag(config, "summary"@, false);
    let description = flag(config, "description"@, false);
    if flag(config, "all_versions"@, false) && pkg.versions@.len() > 0 {
        Seq::new(
            pkg.versions@.len(),
            |i: int| version_text(config, pkg, pkg.versions@[i], summary, description),
        )
    } else {
        match listed(pkg) {
            Some(v) => seq![version_text(config, pkg, v, summary, description)],
            None => seq![
                colored(config, Theme::Primary, pkg.fullname@) + " (Virtual Pkg) ["@ + joined(
                    provider_names(pkg),
                    ", "@,
                ) + "]"@,
            ],
        }
    }
}

/// A list of the first `n` packages.
pub open spec fn list_lines(config: Config, packages: Seq<Package>, n: int) -> Seq<Seq<char>>
    decreases n,
{
    if n <= 0 {
        Seq::empty()
    } else {
        list_lines(config, packages, n - 1) + package_lines(config, packages[n - 1])
    }
}

fn format_virtual(config: &Config, pkg: &Package) -> (r: String)
    ensures
        r@ == colored(*config, Theme::Primary, pkg.fullname@) + " (Virtual Pkg) ["@ + joined(
            provider_names(*pkg),
            ", "@,
        ) + "]"@,
{
    let mut names: Vec<String> = Vec::new();
    let mut i: usize = 0;
    while i < pkg.providers.len()
        invariant
            i <= pkg.providers@.len(),
            texts(names@) == provider_names(*pkg).take(i as int),
        decreases pkg.providers@.len() - i,
    {
        push_text(&mut names, pkg.providers[i].fullname.clone());
        assert(provider_names(*pkg).take(i as int).push(provider_names(*pkg)[i as int])
            =~= provider_names(*pkg).take(i + 1));
        i = i + 1;
    }
    assert(provider_names(*pkg).take(i as int) =~= provider_names(*pkg));
    let mut r = config.color(Theme::Primary, pkg.fullname.as_str());
    r.append(" (Virtual Pkg) [");
    r.append(join(&names, ", ").as_str());
    r.append("]");
    r
}

/// What a package adds to a list.
fn list_package(config: &Config, pkg: &Package) -> (r: Vec<String>)
    ensures
        texts(r@) == package_lines(*config, *pkg),
{
    let all_versions = config.get_bool("all_versions", false);
    let summary = config.get_bool("summary", false);
    let description = config.get_bool("description", false);
    let ghost lines = package_lines(*config, *pkg);
    let mut r: Vec<String> = Vec::new();
    assert(texts(r@) =~= Seq::empty());
    if all_versions && pkg.versions.len() > 0 {
        let mut i: usize = 0;
        while i < pkg.versions.len()
            invariant
                i <= pkg.versions@.len(),
                lines == package_lines(*config, *pkg),
                flag(*config, "all_versions"@, false),
                summary == flag(*config, "summary"@, false),
                description == flag(*config, "description"@, false),
                texts(r@) == lines.take(i as int),
            decreases pkg.versions@.len() - i,
        {
            push_text(&mut r, list_version(config, pkg, &pkg.versions[i], summary, description));
            assert(lines.take(i + 1) =~= lines.take(i as int).push(lines[i as int]));
            i = i + 1;
        }
        assert(lines.take(i as int) =~= lines);
        return r;
    }
    // Get the candidate if we're only going to show one version.
    // Fall back to the first version in the list if there isn't a candidate.
    let version = match pkg.candidate() {
        Some(v) => Some(v),
        None => if pkg.versions.len() > 0 {
            Some(&pkg.versions[0])
        } else {
            None
        },
    };
    match version {
        Some(v) => {
            push_text(&mut r, list_version(config, pkg, v, summary, description));
        },
        None => {
            push_text(&mut r, format_virtual(config, pkg));
        },
    }
    assert(texts(r@) =~= lines);
    r
}

/// Lists packages. Shared between list and search.
pub fn list_packages(config: &Config, packages: &Vec<Package>) -> (r: Vec<String>)
    ensures
        texts(r@) == list_lines(*config, packages@, packages@.len() as int),
{
    let mut r: Vec<String> = Vec::new();
    let mut i: usize = 0;
    assert(texts(r@) =~= Seq::empty());
    while i < packages.len()
        invariant
            i <= packages@.len(),
            texts(r@) == list_lines(*config, packages@, i as int),
        decreases packages@.len() - i,
    {
        let mut part = list_package(config, &packages[i]);
        let ghost before = r@;
        let ghost added = part@;
        r.append(&mut part);
        assert(texts(r@) =~= texts(before) + texts(added));
        i = i + 1;
    }
    r
}

/// A listed version says what it is: its name and number, where it comes from
/// unless that is what is installed, what it can be upgraded to or from, how it
/// is installed, and what was asked for besides.
pub proof fn law_listed_version(
    config: &Config,
    pkg: &Package,
    ver: &Version,
    summary: bool,
    description: bool,
    r: String,
)
    requires
        call_ensures(list_version, (config, pkg, ver, summary, description), r),
    ensures
        ({
            let unknown = |t: Option<String>|
                match t {
                    Some(s) => s@,
                    None => "Unknown"@,
                };
            let origin = if ver.files@.len() > 0 && !(ver.files@[0].file.archive is Some
                && ver.files@[0].file.archive->0@ == "now"@) {
                let file = ver.files@[0].file;
                " ["@ + unknown(file.origin) + "/"@ + unknown(file.codename) + " "@ + unknown(
                    file.component,
                ) + "] "@
            } else {
                Seq::empty()
            };
            let both = pkg.inst() is Some && pkg.cand() is Some;
            let old_order = pkg.inst()->0.order;
            let new_order = pkg.cand()->0.order;
            let upgrade = if both && old_order < new_order && ver.order == old_order {
                " [Installed, Upgradable to: "@ + colored(
                    *config,
                    Theme::Secondary,
                    pkg.cand()->0.version@,
                ) + "]"@
            } else if both && old_order < new_order && ver.order == new_order {
                " [Upgradable from: "@ + colored(
                    *config,
                    Theme::Secondary,
                    pkg.inst()->0.version@,
                ) + "]"@
            } else {
                Seq::empty()
            };
            let more = if description {
                "\n"@ + (match ver.description {
                    Some(s) => s@,
                    None => "No Description"@,
                })
            } else if summary {
                "\n"@ + (match ver.summary {
                    Some(s) => s@,
                    None => "No Summary"@,
                })
            } else {
                Seq::empty()
            };
            let words = seq!["Installed"@] + (if ver.downloadable {
                Seq::empty()
            } else {
                seq!["Local"@]
            }) + (if pkg.auto_removable {
                seq!["Auto-Removable"@]
            } else {
                Seq::empty()
            }) + (if pkg.auto_installed {
                seq!["Automatic"@]
            } else {
                Seq::empty()
            });
            let state = if ver.installed {
                "["@ + joined(words, ", "@) + "]"@
            } else {
                Seq::empty()
            };
            r@ == colored(*config, Theme::Primary, pkg.fullname@) + " "@ + colored(
                *config,
                Theme::Secondary,
                ver.version@,
            ) + origin + upgrade + state + more
        }),
{
    reveal_strlit("now");
    reveal_strlit("Unknown");
    assert("now"@.len() != "Unknown"@.len());
    let words = seq!["Installed"@] + (if ver.downloadable {
        Seq::empty()
    } else {
        seq!["Local"@]
    }) + (if pkg.auto_removable {
        seq!["Auto-Removable"@]
    } else {
        Seq::empty()
    }) + (if pkg.auto_installed {
        seq!["Automatic"@]
    } else {
        Seq::empty()
    });
    if ver.installed {
        assert(attributes(*pkg, *ver) =~= words);
    }
}

proof fn lemma_list_lines(
    config: Config,
    packages: Seq<Package>,
    n: int,
    make: spec_fn(Package) -> Seq<Seq<char>>,
)
    requires
        0 <= n <= packages.len(),
        forall|p: Package| #[trigger] make(p) == package_lines(config, p),
    ensures
        list_lines(config, packages, n) == packages.take(n).map_values(make).flatten(),
    decreases n,
{
    if n <= 0 {
        assert(packages.take(n).map_values(make) =~= Seq::<Seq<Seq<char>>>::empty());
        assert(Seq::<Seq<Seq<char>>>::empty().flatten() =~= Seq::<Seq<char>>::empty());
    } else {
        lemma_list_lines(config, packages, n - 1, make);
        assert(packages.take(n) =~= packages.take(n - 1).push(packages[n - 1]));
        crate::seqs::lemma_map_push(packages.take(n - 1), packages[n - 1], make);
        packages.take(n - 1).map_values(make).lemma_flatten_push(make(packages[n - 1]));
    }
}

/// Every package is listed, in order: with all its versions where that is asked
/// for, else with its candidate or its newest version. A package without
/// versions is listed with those that provide it.
pub proof fn law_every_package_is_listed(config: &Config, packages: &Vec<Package>, r: Vec<String>)
    requires
        call_ensures(list_packages, (config, packages), r),
    ensures
        ({
            let summary = flag(*config, "summary"@, false);
            let description = flag(*config, "description"@, false);
            texts(r@) == packages@.map_values(
                |p: Package|
                    if p.versions@.len() == 0 && p.cand() is None {
                        seq![
                            colored(*config, Theme::Primary, p.fullname@) + " (Virtual Pkg) ["@
                                + joined(
                                p.providers@.map_values(
                                    |provider: crate::apt::Provider| provider.fullname@,
                                ),
                                ", "@,
                            ) + "]"@,
                        ]
                    } else if flag(*config, "all_versions"@, false) {
                        p.versions@.map_values(
                            |v: Version| version_text(*config, p, v, summary, description),
                        )
                    } else if p.cand() is Some {
                        seq![version_text(*config, p, p.cand()->0, summary, description)]
                    } else {
                        seq![version_text(*config, p, p.versions@[0], summary, description)]
                    },
            ).flatten()
        }),
{
    let n = packages@.len() as int;
    let summary = flag(*config, "summary"@, false);
    let description = flag(*config, "description"@, false);
    let make = |p: Package|
        if p.versions@.len() == 0 && p.cand() is None {
            seq![
                colored(*config, Theme::Primary, p.fullname@) + " (Virtual Pkg) ["@ + joined(
                    p.providers@.map_values(
                        |provider: crate::apt::Provider| provider.fullname@,
                    ),
                    ", "@,
                ) + "]"@,
            ]
        } else if flag(*config, "all_versions"@, false) {
            p.versions@.map_values(
                |v: Version| version_text(*config, p, v, summary, description),
            )
        } else if p.cand() is Some {
            seq![version_text(*config, p, p.cand()->0, summary, description)]
        } else {
            seq![version_text(*config, p, p.versions@[0], summary, description)]
        };
    assert forall|p: Package| #[trigger] make(p) == package_lines(*config, p) by {
        assert(p.providers@.map_values(|provider: crate::apt::Provider| provider.fullname@)
            =~= provider_names(p));
        assert(make(p) =~= package_lines(*config, p));
    }
    lemma_list_lines(*config, packages@, n, make);
    assert(packages@.take(n) =~= packages@);
}

} // verus!

//! Showing packages in full, one line for each thing that is known.
use vstd::prelude::*;
use crate::apt::{depends_of, DepType, Dependency, Package, Version};
use crate::cmd::show::{base_dep_text, captured, format_dependency, format_local, local_text};
use crate::cmd::{
    archive_site, archive_text, color_provides, format_archive, from_archive, provided, site_error,
    site_of, source_complete,
};
use crate::config::{colored, Config, Theme};
use crate::error::{fails_with, NalaError};
use crate::pattern::{regex_complaint, Pattern};
use crate::text::{join, joined, push_text, str_eq, str_or, text_or_else, texts};

verus! {

/// Compiles a pattern. Upper and lower case are not told apart.
pub fn build_regex(pattern: &str) -> (r: Result<Pattern, NalaError>)
    ensures
        match r {
            Ok(p) => regex_complaint(pattern@) is None && p@ == pattern@,
            Err(e) => regex_complaint(pattern@) == Some(e.message@),
        },
{
    Pattern::new(pattern)
}

/// A value behind its label.
pub open spec fn labelled(config: Config, label: Seq<char>, value: Seq<char>) -> Seq<char> {
    colored(config, Theme::Highlight, label) + " "@ + value
}

fn label(config: &Config, head: &str, value: &str) -> (r: String)
    ensures
        r@ == labelled(*config, head@, value@),
{
    let mut r = config.highlight(head);
    r.append(" ");
    r.append(value);
    r
}

/// `Yes` or `No`.
pub open spec fn yes_no(b: bool) -> Seq<char> {
    if b {
        "Yes"@
    } else {
        "No"@
    }
}

fn yes_or_no(b: bool) -> (r: &'static str)
    ensures
        r@ == yes_no(b),
{
    if b {
        "Yes"
    } else {
        "No"
    }
}

/// The lines with a field of the record, where the version has it.
pub open spec fn with_record(
    config: Config,
    lines: Seq<Seq<char>>,
    ver: Version,
    field: Seq<char>,
    label: Seq<char>,
) -> Seq<Seq<char>> {
    match ver.record(field) {
        Some(s) => lines.push(labelled(config, label, s)),
        None => lines,
    }
}

fn push_record(config: &Config, lines: &mut Vec<String>, ver: &Version, field: &str, head: &str)
    ensures
        texts(final(lines)@) == with_record(*config, texts(old(lines)@), *ver, field@, head@),
{
    if let Some(record) = ver.get_record(field) {
        push_text(lines, label(config, head, record.as_str()));
    }
}

/// The first `n` dependencies. More than four stand on lines of their own, and
/// those with alternatives are left out.
pub open spec fn depends_text(config: Config, deps: Seq<Dependency>, n: int) -> Seq<char>
    decreases n,
{
    let gap = if deps.len() > 4 {
        "\n    "@
    } else {
        Seq::empty()
    };
    if n <= 0 {
        gap
    } else {
        let before = depends_text(config, deps, n - 1);
        if deps[n - 1].rest@.len() > 0 {
            before
        } else {
            before + (" "@ + base_dep_text(config, deps[n - 1].first, Theme::Primary) + gap)
        }
    }
}

fn format_depends(config: &Config, deps: &Vec<Dependency>) -> (r: String)
    ensures
        r@ == depends_text(*config, deps@, deps@.len() as int),
{
    let mut r = String::new();
    let many = deps.len() > 4;
    if many {
        r.append("\n    ");
    }
    assert(r@ =~= depends_text(*config, deps@, 0));
    let mut i: usize = 0;
    while i < deps.len()
        invariant
            i <= deps@.len(),
            many == (deps@.len() > 4),
            r@ == depends_text(*config, deps@, i as int),
        decreases deps@.len() - i,
    {
        if deps[i].rest.len() == 0 {
            let mut part = " ".to_owned();
            part.append(format_dependency(config, &deps[i].first, Theme::Primary).as_str());
            let ghost bare = part@;
            if many {
                part.append("\n    ");
            } else {
                assert(bare =~= bare + Seq::<char>::empty());
            }
            r.append(part.as_str());
        }
        i = i + 1;
    }
    r
}

/// What is known of a package, without its origin and dependencies.
pub open spec fn head_lines(config: Config, pkg: Package, ver: Version) -> Seq<Seq<char>> {
    with_record(
        config,
        with_record(
            config,
            seq![
                labelled(config, "Package:"@, colored(config, Theme::Primary, pkg.fullname@)),
                labelled(config, "Version:"@, colored(config, Theme::Secondary, ver.version@)),
                labelled(config, "Architecture:"@, pkg.arch@),
                labelled(config, "Installed:"@, yes_no(ver.installed)),
                labelled(config, "Priority:"@, text_or_else(ver.priority, "Unknown"@)),
                labelled(config, "Essential:"@, yes_no(pkg.essential)),
                labelled(config, "Section:"@, text_or_else(ver.section, "Unknown"@)),
                labelled(config, "Source:"@, ver.source_name@),
            ],
            ver,
            "Maintainer"@,
            "Maintainer:"@,
        ),
        ver,
        "Original-Maintainer"@,
        "Original-Maintainer:"@,
    )
}

/// The lines with the origin of a version, where it has a file.
pub open spec fn with_origin(config: Config, lines: Seq<Seq<char>>, ver: Version) -> Seq<Seq<char>> {
    if ver.files@.len() == 0 {
        lines
    } else {
        lines.push(
            labelled(config, "Origin:"@, text_or_else(ver.files@[0].file.origin, "Unknown"@)),
        )
    }
}

/// The lines with the names that a version provides, where there are any.
pub open spec fn with_provided(config: Config, lines: Seq<Seq<char>>, ver: Version) -> Seq<Seq<char>> {
    if ver.provides@.len() == 0 {
        lines
    } else {
        lines.push(
            labelled(config, "Provides:"@, joined(provided(config, ver.provides@), " "@)),
        )
    }
}

/// The lines with where a version comes from, where that is known.
pub open spec fn with_sources(
    config: Config,
    lines: Seq<Seq<char>>,
    ver: Version,
    site: Seq<char>,
    local: Seq<char>,
) -> Seq<Seq<char>> {
    if ver.files@.len() == 0 || ver.files@[0].file.archive is None {
        lines
    } else {
        lines.push(
            labelled(
                config,
                "APT-Sources:"@,
                if from_archive(ver) {
                    archive_text(ver, site)
                } else {
                    local
                },
            ),
        )
    }
}

/// The lines with the dependencies of a version, where it has any.
pub open spec fn with_depends(config: Config, lines: Seq<Seq<char>>, ver: Version) -> Seq<Seq<char>> {
    match depends_of(ver.depends@, DepType::Depends) {
        Some(deps) => lines.push(
            labelled(config, "Depends:"@, depends_text(config, deps, deps.len() as int)),
        ),
        None => lines,
    }
}

/// All that is shown of a package, by its first version.
pub open spec fn package_lines(
    config: Config,
    pkg: Package,
    installed_size: Seq<char>,
    size: Seq<char>,
    site: Seq<char>,
    local: Seq<char>,
) -> Seq<Seq<char>> {
    let ver = pkg.versions@[0];
    let origin = with_origin(
        config,
        head_lines(config, pkg, ver).push(labelled(config, "Installed-Size:"@, installed_size)),
        ver,
    );
    let homepage = with_record(
        config,
        with_provided(config, origin, ver),
        ver,
        "Homepage"@,
        "Homepage:"@,
    );
    let sources = with_sources(
        config,
        homepage.push(labelled(config, "Download-Size:"@, size)),
        ver,
        site,
        local,
    );
    with_depends(config, sources, ver).push(
        labelled(config, "Description:"@, text_or_else(ver.description, "Unknown"@)),
    ).push("\n"@)
}

fn head(config: &Config, pkg: &Package, ver: &Version) -> (lines: Vec<String>)
    ensures
        texts(lines@) == head_lines(*config, *pkg, *ver),
{
    let name = config.color(Theme::Primary, pkg.fullname.as_str());
    let version = config.color(Theme::Secondary, ver.version.as_str());
    let mut lines = vec![
        label(config, "Package:", name.as_str()),
        label(config, "Version:", version.as_str()),
        label(config, "Architecture:", pkg.arch.as_str()),
        label(config, "Installed:", yes_or_no(ver.installed)),
        label(config, "Priority:", str_or(&ver.priority, "Unknown")),
        label(config, "Essential:", yes_or_no(pkg.essential)),
        label(config, "Section:", str_or(&ver.section, "Unknown")),
        label(config, "Source:", ver.source_name.as_str()),
    ];
    assert(texts(lines@) =~= seq![
        labelled(*config, "Package:"@, colored(*config, Theme::Primary, pkg.fullname@)),
        labelled(*config, "Version:"@, colored(*config, Theme::Secondary, ver.version@)),
        labelled(*config, "Architecture:"@, pkg.arch@),
        labelled(*config, "Installed:"@, yes_no(ver.installed)),
        labelled(*config, "Priority:"@, text_or_else(ver.priority, "Unknown"@)),
        labelled(*config, "Essential:"@, yes_no(pkg.essential)),
        labelled(*config, "Section:"@, text_or_else(ver.section, "Unknown"@)),
        labelled(*config, "Source:"@, ver.source_name@),
    ]);
    push_record(config, &mut lines, ver, "Maintainer", "Maintainer:");
    push_record(config, &mut lines, ver, "Original-Maintainer", "Original-Maintainer:");
    lines
}

/// All that is shown of a package, by its first version. The sizes come in
/// units for a reader; `site` names the archive of the version, and `local`
/// says where it comes from when no archive holds it.
pub fn show_package(
    config: &Config,
    pkg: &Package,
    installed_size: &str,
    size: &str,
    site: &str,
    local: &str,
) -> (r: Vec<String>)
    requires
        pkg.versions@.len() > 0,
        source_complete(pkg.versions@[0]),
    ensures
        texts(r@) == package_lines(*config, *pkg, installed_size@, size@, site@, local@),
{
    let ver = &pkg.versions[0];
    let mut lines = head(config, pkg, ver);
    push_text(&mut lines, label(config, "Installed-Size:", installed_size));
    if ver.files.len() > 0 {
        let origin = str_or(&ver.files[0].file.origin, "Unknown");
        push_text(&mut lines, label(config, "Origin:", origin));
    }
    if ver.provides.len() > 0 {
        let providers = color_provides(config, &ver.provides);
        push_text(&mut lines, label(config, "Provides:", join(&providers, " ").as_str()));
    }
    push_record(config, &mut lines, ver, "Homepage", "Homepage:");
    push_text(&mut lines, label(config, "Download-Size:", size));
    if ver.files.len() > 0 {
        if let Some(archive) = &ver.files[0].file.archive {
            let source = if str_eq(archive.as_str(), "now") {
                local.to_owned()
            } else {
                format_archive(ver, site)
            };
            push_text(&mut lines, label(config, "APT-Sources:", source.as_str()));
        }
    }
    if let Some(deps) = ver.get_depends(DepType::Depends) {
        let depends = format_depends(config, deps);
        push_text(&mut lines, label(config, "Depends:", depends.as_str()));
    }
    push_text(&mut lines, label(config, "Description:", str_or(&ver.description, "Unknown")));
    push_text(&mut lines, "\n".to_owned());
    lines
}

/// What is shown of the first `n` packages.
pub open spec fn all_lines(
    config: Config,
    packages: Seq<Package>,
    sizes: Seq<(String, String)>,
    metadata: Seq<Vec<String>>,
    url: Seq<char>,
    pacstall: Seq<char>,
    n: int,
) -> Seq<Seq<char>>
    decreases n,
{
    if n <= 0 {
        Seq::empty()
    } else {
        let pkg = packages[n - 1];
        all_lines(config, packages, sizes, metadata, url, pacstall, n - 1) + package_lines(
            config,
            pkg,
            sizes[n - 1].0@,
            sizes[n - 1].1@,
            site_of(url, pkg.versions@[0])->0,
            local_text(config, captured(pacstall, metadata[n - 1]@)),
        )
    }
}

/// No package before `n` is without the name of its archive.
pub open spec fn sites_found(packages: Seq<Package>, url: Seq<char>, n: int) -> bool {
    forall|i: int| 0 <= i < n ==> site_of(url, (#[trigger] packages[i]).versions@[0]) is Some
}

/// The show command. Each package is shown by its first version. `sizes` holds
/// the size of each when it is installed and when it is downloaded, and
/// `metadata` what Pacstall keeps of it.
pub fn show(
    config: &Config,
    packages: &Vec<Package>,
    sizes: &Vec<(String, String)>,
    metadata: &Vec<Vec<String>>,
    url: &Pattern,
    pacstall: &Pattern,
) -> (r: Result<Vec<String>, NalaError>)
    requires
        packages@.len() == sizes@.len(),
        packages@.len() == metadata@.len(),
        forall|i: int|
            0 <= i < packages@.len() ==> (#[trigger] packages@[i]).versions@.len() > 0
                && source_complete(packages@[i].versions@[0]),
    ensures
        if !config.vec_map@.dom().contains("pkg_names"@) {
            fails_with(r, "At least one package name must be specified"@)
        } else {
            match r {
                Ok(lines) => sites_found(packages@, url@, packages@.len() as int) && texts(lines@)
                    == all_lines(
                    *config,
                    packages@,
                    sizes@,
                    metadata@,
                    url@,
                    pacstall@,
                    packages@.len() as int,
                ),
                Err(e) => exists|i: int|
                    0 <= i < packages@.len() && sites_found(packages@, url@, i) && site_of(
                        url@,
                        (#[trigger] packages@[i]).versions@[0],
                    ) is None && e.message@ == site_error(packages@[i].versions@[0]),
            }
        },
{
    if config.pkg_names().is_none() {
        return Err(NalaError::new("At least one package name must be specified"));
    }
    let mut lines: Vec<String> = Vec::new();
    let mut i: usize = 0;
    assert(texts(lines@) =~= Seq::empty());
    while i < packages.len()
        invariant
            i <= packages@.len(),
            packages@.len() == sizes@.len(),
            packages@.len() == metadata@.len(),
            config.vec_map@.dom().contains("pkg_names"@),
            forall|k: int|
                0 <= k < packages@.len() ==> (#[trigger] packages@[k]).versions@.len() > 0
                    && source_complete(packages@[k].versions@[0]),
            sites_found(packages@, url@, i as int),
            texts(lines@) == all_lines(
                *config,
                packages@,
                sizes@,
                metadata@,
                url@,
                pacstall@,
                i as int,
            ),
        decreases packages@.len() - i,
    {
        let pkg = &packages[i];
        let site = match archive_site(&pkg.versions[0], url) {
            Ok(site) => site,
            Err(e) => {
                assert(site_of(url@, packages@[i as int].versions@[0]) is None);
                return Err(e);
            },
        };
        let local = format_local(config, pacstall, &metadata[i]);
        let mut part = show_package(
            config,
            pkg,
            sizes[i].0.as_str(),
            sizes[i].1.as_str(),
            site.as_str(),
            local.as_str(),
        );
        let ghost before = lines@;
        let ghost added = part@;
        lines.append(&mut part);
        assert(texts(lines@) =~= texts(before) + texts(added));
        i = i + 1;
    }
    Ok(lines)
}

/// A line with its label.
pub open spec fn line_of(config: Config, label: Seq<char>, value: Seq<char>) -> Seq<char> {
    colored(config, Theme::Highlight, label) + " "@ + value
}

/// What is known, or that it is not.
pub open spec fn known(t: Option<String>) -> Seq<char> {
    match t {
        Some(s) => s@,
        None => "Unknown"@,
    }
}

/// Yes or no.
pub open spec fn answer(b: bool) -> Seq<char> {
    if b {
        "Yes"@
    } else {
        "No"@
    }
}

/// The lines that every package has first.
pub open spec fn first_lines(config: Config, pkg: Package, ver: Version) -> Seq<Seq<char>> {
    seq![
        line_of(config, "Package:"@, colored(config, Theme::Primary, pkg.fullname@)),
        line_of(config, "Version:"@, colored(config, Theme::Secondary, ver.version@)),
        line_of(config, "Architecture:"@, pkg.arch@),
        line_of(config, "Installed:"@, answer(ver.installed)),
        line_of(config, "Priority:"@, known(ver.priority)),
        line_of(config, "Essential:"@, answer(pkg.essential)),
        line_of(config, "Section:"@, known(ver.section)),
        line_of(config, "Source:"@, ver.source_name@),
    ]
}

/// The line of a record, if the version has it.
pub open spec fn record_line(
    config: Config,
    ver: Version,
    field: Seq<char>,
    label: Seq<char>,
) -> Seq<Seq<char>> {
    match ver.record(field) {
        Some(s) => seq![line_of(config, label, s)],
        None => Seq::empty(),
    }
}

/// The line of the origin, if the version is in an index file.
pub open spec fn origin_line(config: Config, ver: Version) -> Seq<Seq<char>> {
    if ver.files@.len() > 0 {
        seq![line_of(config, "Origin:"@, known(ver.files@[0].file.origin))]
    } else {
        Seq::empty()
    }
}

/// The line of what is provided, if anything is.
pub open spec fn provides_line(config: Config, ver: Version) -> Seq<Seq<char>> {
    if ver.provides@.len() > 0 {
        let names = ver.provides@.map_values(|name: String| colored(config, Theme::Primary, name@));
        seq![line_of(config, "Provides:"@, joined(names, " "@))]
    } else {
        Seq::empty()
    }
}

/// The line of the archive, if it is known.
pub open spec fn sources_line(
    config: Config,
    ver: Version,
    site: Seq<char>,
    local: Seq<char>,
) -> Seq<Seq<char>> {
    if ver.files@.len() > 0 && ver.files@[0].file.archive is Some {
        let file = ver.files@[0].file;
        let archive = site + " "@ + file.codename->0@ + "/"@ + file.component->0@ + " "@
            + file.arch->0@ + " Packages"@;
        let text = if file.archive->0@ == "now"@ {
            local
        } else {
            archive
        };
        seq![line_of(config, "APT-Sources:"@, text)]
    } else {
        Seq::empty()
    }
}

/// The line of the dependencies, if there are any.
pub open spec fn depends_line(config: Config, ver: Version) -> Seq<Seq<char>> {
    match depends_of(ver.depends@, DepType::Depends) {
        Some(deps) => seq![
            line_of(config, "Depends:"@, depends_text(config, deps, deps.len() as int)),
        ],
        None => Seq::empty(),
    }
}

proof fn lemma_stages(
    config: Config,
    lines: Seq<Seq<char>>,
    ver: Version,
    field: Seq<char>,
    label: Seq<char>,
    site: Seq<char>,
    local: Seq<char>,
)
    ensures
        with_record(config, lines, ver, field, label) == lines + record_line(
            config,
            ver,
            field,
            label,
        ),
        with_origin(config, lines, ver) == lines + origin_line(config, ver),
        with_provided(config, lines, ver) == lines + provides_line(config, ver),
        with_sources(config, lines, ver, site, local) == lines + sources_line(
            config,
            ver,
            site,
            local,
        ),
        with_depends(config, lines, ver) == lines + depends_line(config, ver),
{
    let names = ver.provides@.map_values(|name: String| colored(config, Theme::Primary, name@));
    assert(provided(config, ver.provides@) =~= names);
    assert(with_record(config, lines, ver, field, label) =~= lines + record_line(
        config,
        ver,
        field,
        label,
    ));
    assert(with_origin(config, lines, ver) =~= lines + origin_line(config, ver));
    assert(with_provided(config, lines, ver) =~= lines + provides_line(config, ver));
    assert(with_sources(config, lines, ver, site, local) =~= lines + sources_line(
        config,
        ver,
        site,
        local,
    ));
    assert(with_depends(config, lines, ver) =~= lines + depends_line(config, ver));
}

proof fn lemma_head(config: Config, pkg: Package, ver: Version)
    ensures
        head_lines(config, pkg, ver) == first_lines(config, pkg, ver) + record_line(
            config,
            ver,
            "Maintainer"@,
            "Maintainer:"@,
        ) + record_line(config, ver, "Original-Maintainer"@, "Original-Maintainer:"@),
{
    let none: Seq<char> = Seq::empty();
    let first = first_lines(config, pkg, ver);
    lemma_stages(config, first, ver, "Maintainer"@, "Maintainer:"@, none, none);
    lemma_stages(
        config,
        first + record_line(config, ver, "Maintainer"@, "Maintainer:"@),
        ver,
        "Original-Maintainer"@,
        "Original-Maintainer:"@,
        none,
        none,
    );
}

/// A package is shown with all that is known of it, each under its label. What is
/// not known is left out, or said to be unknown.
pub proof fn law_package_in_full(
    config: &Config,
    pkg: &Package,
    installed_size: &str,
    size: &str,
    site: &str,
    local: &str,
    r: Vec<String>,
)
    requires
        pkg.versions@.len() > 0,
        source_complete(pkg.versions@[0]),
        call_ensures(show_package, (config, pkg, installed_size, size, site, local), r),
    ensures
        ({
            let ver = pkg.versions@[0];
            texts(r@) == first_lines(*config, *pkg, ver) + record_line(
                *config,
                ver,
                "Maintainer"@,
                "Maintainer:"@,
            ) + record_line(*config, ver, "Original-Maintainer"@, "Original-Maintainer:"@) + seq![
                line_of(*config, "Installed-Size:"@, installed_size@),
            ] + origin_line(*config, ver) + provides_line(*config, ver) + record_line(
                *config,
                ver,
                "Homepage"@,
                "Homepage:"@,
            ) + seq![line_of(*config, "Download-Size:"@, size@)] + sources_line(
                *config,
                ver,
                site@,
                local@,
            ) + depends_line(*config, ver) + seq![
                line_of(*config, "Description:"@, known(ver.description)),
                "\n"@,
            ]
        }),
{
    let ver = pkg.versions@[0];
    let head = head_lines(*config, *pkg, ver);
    lemma_head(*config, *pkg, ver);
    lemma_middle(*config, head, ver, installed_size@);
    lemma_tail(
        *config,
        with_provided(
            *config,
            with_origin(
                *config,
                head.push(labelled(*config, "Installed-Size:"@, installed_size@)),
                ver,
            ),
            ver,
        ),
        ver,
        size@,
        site@,
        local@,
    );
}

proof fn lemma_middle(config: Config, head: Seq<Seq<char>>, ver: Version, installed_size: Seq<char>)
    ensures
        with_provided(
            config,
            with_origin(
                config,
                head.push(labelled(config, "Installed-Size:"@, installed_size)),
                ver,
            ),
            ver,
        ) == head + seq![line_of(config, "Installed-Size:"@, installed_size)] + origin_line(
            config,
            ver,
        ) + provides_line(config, ver),
{
    let none: Seq<char> = Seq::empty();
    let installed = line_of(config, "Installed-Size:"@, installed_size);
    assert(labelled(config, "Installed-Size:"@, installed_size) == installed);
    let c = head + seq![installed];
    assert(head.push(installed) =~= c);
    lemma_stages(config, c, ver, none, none, none, none);
    lemma_stages(config, c + origin_line(config, ver), ver, none, none, none, none);
}

proof fn lemma_tail(
    config: Config,
    lines: Seq<Seq<char>>,
    ver: Version,
    size: Seq<char>,
    site: Seq<char>,
    local: Seq<char>,
)
    ensures
        with_depends(
            config,
            with_sources(
                config,
                with_record(config, lines, ver, "Homepage"@, "Homepage:"@).push(
                    labelled(config, "Download-Size:"@, size),
                ),
                ver,
                site,
                local,
            ),
            ver,
        ).push(
            labelled(config, "Description:"@, text_or_else(ver.description, "Unknown"@)),
        ).push("\n"@) == lines + record_line(config, ver, "Homepage"@, "Homepage:"@) + seq![
            line_of(config, "Download-Size:"@, size),
        ] + sources_line(config, ver, site, local) + depends_line(config, ver) + seq![
            line_of(config, "Description:"@, known(ver.description)),
            "\n"@,
        ],
{
    let none: Seq<char> = Seq::empty();
    lemma_stages(config, lines, ver, "Homepage"@, "Homepage:"@, none, none);
    let f = lines + record_line(config, ver, "Homepage"@, "Homepage:"@);
    let download = line_of(config, "Download-Size:"@, size);
    assert(labelled(config, "Download-Size:"@, size) == download);
    let g = f + seq![download];
    assert(f.push(download) =~= g);
    lemma_stages(config, g, ver, none, none, site, local);
    let h = g + sources_line(config, ver, site, local);
    lemma_stages(config, h, ver, none, none, none, none);
    let i = h + depends_line(config, ver);
    let last = line_of(config, "Description:"@, known(ver.description));
    assert(labelled(config, "Description:"@, text_or_else(ver.description, "Unknown"@)) == last);
    assert(i.push(last).push("\n"@) =~= i + seq![last, "\n"@]);
}

/// Each dependency without alternatives is shown, in order, on a line of its own
/// where there are more than four.
pub proof fn law_depends_are_shown(config: Config, deps: Seq<Dependency>, n: int)
    requires
        0 <= n <= deps.len(),
    ensures
        ({
            let gap = if deps.len() > 4 {
                "\n    "@
            } else {
                Seq::empty()
            };
            depends_text(config, deps, n) == gap + deps.take(n).map_values(
                |d: Dependency|
                    if d.rest@.len() == 0 {
                        " "@ + base_dep_text(config, d.first, Theme::Primary) + gap
                    } else {
                        Seq::empty()
                    },
            ).flatten()
        }),
    decreases n,
{
    let gap = if deps.len() > 4 {
        "\n    "@
    } else {
        Seq::empty()
    };
    let make = |d: Dependency|
        if d.rest@.len() == 0 {
            " "@ + base_dep_text(config, d.first, Theme::Primary) + gap
        } else {
            Seq::empty()
        };
    if n <= 0 {
        assert(deps.take(n).map_values(make) =~= Seq::<Seq<char>>::empty());
        assert(Seq::<Seq<char>>::empty().flatten() =~= Seq::<char>::empty());
        assert(gap + Seq::<char>::empty() =~= gap);
    } else {
        law_depends_are_shown(config, deps, n - 1);
        assert(deps.take(n) =~= deps.take(n - 1).push(deps[n - 1]));
        crate::seqs::lemma_map_push(deps.take(n - 1), deps[n - 1], make);
        let parts = deps.take(n - 1).map_values(make);
        parts.lemma_flatten_push(make(deps[n - 1]));
        assert(gap + parts.flatten() + make(deps[n - 1]) =~= gap + (parts.flatten() + make(
            deps[n - 1],
        )));
        assert(gap + parts.flatten() + Seq::<char>::empty() =~= gap + parts.flatten());
    }
}

proof fn lemma_all_lines(
    config: Config,
    packages: Seq<Package>,
    sizes: Seq<(String, String)>,
    metadata: Seq<Vec<String>>,
    url: Seq<char>,
    pacstall: Seq<char>,
    n: int,
    make: spec_fn(int) -> Seq<Seq<char>>,
)
    requires
        0 <= n,
        forall|i: int| #[trigger]
            make(i) == package_lines(
                config,
                packages[i],
                sizes[i].0@,
                sizes[i].1@,
                site_of(url, packages[i].versions@[0])->0,
                local_text(config, captured(pacstall, metadata[i]@)),
            ),
    ensures
        all_lines(config, packages, sizes, metadata, url, pacstall, n) == Seq::new(
            n as nat,
            make,
        ).flatten(),
    decreases n,
{
    if n <= 0 {
        assert(Seq::new(n as nat, make) =~= Seq::<Seq<Seq<char>>>::empty());
        assert(Seq::<Seq<Seq<char>>>::empty().flatten() =~= Seq::<Seq<char>>::empty());
    } else {
        lemma_all_lines(config, packages, sizes, metadata, url, pacstall, n - 1, make);
        let parts = Seq::new((n - 1) as nat, make);
        assert(Seq::new(n as nat, make) =~= parts.push(make(n - 1)));
        parts.lemma_flatten_push(make(n - 1));
    }
}

/// Every package is shown, in order, if names are given and the archive of each
/// is known.
pub proof fn law_every_package_is_shown(
    config: &Config,
    packages: &Vec<Package>,
    sizes: &Vec<(String, String)>,
    metadata: &Vec<Vec<String>>,
    url: &Pattern,
    pacstall: &Pattern,
    r: Result<Vec<String>, NalaError>,
)
    requires
        packages@.len() == sizes@.len(),
        packages@.len() == metadata@.len(),
        forall|i: int|
            0 <= i < packages@.len() ==> (#[trigger] packages@[i]).versions@.len() > 0
                && source_complete(packages@[i].versions@[0]),
        call_ensures(show, (config, packages, sizes, metadata, url, pacstall), r),
    ensures
        r is Ok <==> config.vec_map@.dom().contains("pkg_names"@) && forall|i: int|
            0 <= i < packages@.len() ==> site_of(
                url@,
                (#[trigger] packages@[i]).versions@[0],
            ) is Some,
        r is Ok ==> texts(r->Ok_0@) == Seq::new(
            packages@.len(),
            |i: int|
                package_lines(
                    *config,
                    packages@[i],
                    sizes@[i].0@,
                    sizes@[i].1@,
                    site_of(url@, packages@[i].versions@[0])->0,
                    local_text(*config, captured(pacstall@, metadata@[i]@)),
                ),
        ).flatten(),
{
    lemma_all_lines(
        *config,
        packages@,
        sizes@,
        metadata@,
        url@,
        pacstall@,
        packages@.len() as int,
        |i: int|
            package_lines(
                *config,
                packages@[i],
                sizes@[i].0@,
                sizes@[i].1@,
                site_of(url@, packages@[i].versions@[0])->0,
                local_text(*config, captured(pacstall@, metadata@[i]@)),
            ),
    );
}

} // verus!

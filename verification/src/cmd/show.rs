//! Showing packages.
use vstd::prelude::*;
use crate::apt::{BaseDep, Dependency, Package, Version};
use crate::cmd::{
    archive_site, entry_lines, pretty_entries, record_names, record_or, site_error, site_of,
    source_complete, ShowVersion, Shown, ShownText,
};
use crate::config::{colored, flag, Config, Theme};
use crate::error::{fails_with, NalaError};
use crate::pattern::{regex_complaint, regex_group, Pattern};
use crate::text::{decimal, decimal_of, joined, text_opt, texts};

verus! {

/// A package that a dependency names, with the version that it must have:
/// `libgnutls30 (>= 3.7.5)`.
pub open spec fn base_dep_text(config: Config, dep: BaseDep, theme: Theme) -> Seq<char> {
    match dep.constraint {
        Some((comp, version)) => colored(config, theme, dep.name@) + " "@ + colored(
            config,
            Theme::Highlight,
            "("@,
        ) + comp@ + " "@ + colored(config, Theme::Secondary, version@) + colored(
            config,
            Theme::Highlight,
            ")"@,
        ),
        None => colored(config, theme, dep.name@),
    }
}

/// A package that a dependency names, with the version that it must have.
pub fn format_dependency(config: &Config, base_dep: &BaseDep, theme: Theme) -> (r: String)
    ensures
        r@ == base_dep_text(*config, *base_dep, theme),
{
    let mut r = config.color(theme, base_dep.name.as_str());
    if let Some((comp, version)) = &base_dep.constraint {
        r.append(" ");
        r.append(config.highlight("(").as_str());
        r.append(comp.as_str());
        r.append(" ");
        r.append(config.color(Theme::Secondary, version.as_str()).as_str());
        r.append(config.highlight(")").as_str());
    }
    r
}

/// What follows a dependency: a line of its own for each of more than four, a
/// comma between fewer.
pub open spec fn footer(total_deps: int, index: int) -> Seq<char> {
    if total_deps > 4 {
        "\n    "@
    } else if index + 1 != total_deps {
        ", "@
    } else {
        " "@
    }
}

/// What follows the dependency at `index`.
pub fn dependency_footer(total_deps: usize, index: usize) -> (r: &'static str)
    requires
        total_deps > 4 || index < usize::MAX,
    ensures
        r@ == footer(total_deps as int, index as int),
{
    if total_deps > 4 {
        return "\n    ";
    }
    // Only add the comma if it isn't the last.
    if index + 1 != total_deps {
        return ", ";
    }
    " "
}

/// The package at a place of a dependency.
pub open spec fn base_dep(dep: Dependency, j: int) -> BaseDep {
    if j == 0 {
        dep.first
    } else {
        dep.rest@[j - 1]
    }
}

/// The first `n` packages of a dependency, with a bar between each two.
pub open spec fn alternatives(config: Config, dep: Dependency, theme: Theme, n: int) -> Seq<char>
    decreases n,
{
    if n <= 0 {
        Seq::empty()
    } else if n == 1 {
        base_dep_text(config, dep.first, theme)
    } else {
        alternatives(config, dep, theme, n - 1) + " | "@ + base_dep_text(
            config,
            base_dep(dep, n - 1),
            theme,
        )
    }
}

/// The first `n` dependencies of a list of `total`.
pub open spec fn dependency_texts(
    config: Config,
    depends: Seq<Dependency>,
    theme: Theme,
    n: int,
) -> Seq<char>
    decreases n,
{
    if n <= 0 {
        if depends.len() > 4 {
            "\n    "@
        } else {
            Seq::empty()
        }
    } else {
        dependency_texts(config, depends, theme, n - 1) + alternatives(
            config,
            depends[n - 1],
            theme,
            (depends[n - 1].rest@.len() + 1) as int,
        ) + footer(depends.len() as int, n - 1)
    }
}

/// Dependencies for a reader.
pub fn show_dependency(config: &Config, depends: &Vec<Dependency>, theme: Theme) -> (r: String)
    ensures
        r@ == dependency_texts(*config, depends@, theme, depends@.len() as int),
{
    let mut r = String::new();
    let total: usize = depends.len();
    if total > 4 {
        r.append("\n    ");
    }
    assert(r@ =~= dependency_texts(*config, depends@, theme, 0));
    let mut i: usize = 0;
    while i < depends.len()
        invariant
            i <= depends@.len(),
            total == depends@.len(),
            r@ == dependency_texts(*config, depends@, theme, i as int),
        decreases depends@.len() - i,
    {
        let dep = &depends[i];
        let mut part = format_dependency(config, &dep.first, theme);
        let mut j: usize = 0;
        let count: usize = dep.rest.len();
        while j < count
            invariant
                j <= count,
                count == dep.rest@.len(),
                part@ == alternatives(*config, *dep, theme, j + 1),
            decreases count - j,
        {
            part.append(" | ");
            part.append(format_dependency(config, &dep.rest[j], theme).as_str());
            assert(base_dep(*dep, j + 1) == dep.rest@[j as int]);
            j = j + 1;
        }
        r.append(part.as_str());
        r.append(dependency_footer(total, i));
        i = i + 1;
    }
    r
}

/// The metadata that Pacstall may keep of a package.
pub open spec fn metadata_paths(pkg_name: Seq<char>) -> Seq<Seq<char>> {
    let stem = "/var/log/pacstall/metadata/"@ + pkg_name;
    seq![stem + ""@, stem + "-deb"@, stem + "-git"@, stem + "-bin"@, stem + "-app"@]
}

fn metadata_path(pkg_name: &str, postfix: &str) -> (r: String)
    ensures
        r@ == "/var/log/pacstall/metadata/"@ + pkg_name@ + postfix@,
{
    let mut path = "/var/log/pacstall/metadata/".to_owned();
    path.append(pkg_name);
    path.append(postfix);
    path
}

/// The files in which Pacstall may keep metadata of a package.
pub fn local_metadata(pkg_name: &str) -> (r: Vec<String>)
    ensures
        texts(r@) == metadata_paths(pkg_name@),
{
    let r = vec![
        metadata_path(pkg_name, ""),
        metadata_path(pkg_name, "-deb"),
        metadata_path(pkg_name, "-git"),
        metadata_path(pkg_name, "-bin"),
        metadata_path(pkg_name, "-app"),
    ];
    assert(texts(r@) =~= metadata_paths(pkg_name@));
    r
}

/// The repositories that metadata names, one after the other. Metadata that
/// names none stands for Pacstall's own.
pub open spec fn repositories(captures: Seq<Option<Seq<char>>>) -> Seq<char>
    decreases captures.len(),
{
    if captures.len() == 0 {
        Seq::empty()
    } else {
        repositories(captures.drop_last()) + match captures.last() {
            Some(repo) => repo,
            None => "https://github.com/pacstall/pacstall-programs"@,
        }
    }
}

/// Where a package that no archive holds comes from, when its metadata name
/// these repositories.
pub open spec fn local_text(config: Config, captures: Seq<Option<Seq<char>>>) -> Seq<char> {
    if repositories(captures).len() == 0 {
        "local install"@
    } else {
        colored(config, Theme::Secondary, repositories(captures))
    }
}

/// The texts of optional strings.
pub open spec fn text_opts(v: Seq<Option<String>>) -> Seq<Option<Seq<char>>> {
    Seq::new(v.len(), |i: int| text_opt(v[i]))
}

/// Where a package that no archive holds comes from. Each of `captures` is the
/// repository that a file of metadata names, or `None` where it names none.
pub fn local_source(config: &Config, captures: &Vec<Option<String>>) -> (r: String)
    ensures
        r@ == local_text(*config, text_opts(captures@)),
{
    let mut repo = String::new();
    let mut i: usize = 0;
    let ghost all = text_opts(captures@);
    assert(all.take(0) =~= Seq::empty());
    assert(repo@ =~= repositories(all.take(0)));
    while i < captures.len()
        invariant
            i <= captures@.len(),
            all == text_opts(captures@),
            repo@ == repositories(all.take(i as int)),
        decreases captures@.len() - i,
    {
        assert(all.take(i + 1).drop_last() =~= all.take(i as int));
        match &captures[i] {
            Some(name) => {
                repo.append(name.as_str());
            },
            None => {
                repo.append("https://github.com/pacstall/pacstall-programs");
            },
        }
        i = i + 1;
    }
    assert(all.take(i as int) =~= all);
    if repo.as_str().is_empty() {
        return "local install".to_owned();
    }
    config.color(Theme::Secondary, repo.as_str())
}

/// The pattern that finds the repository in Pacstall's metadata.
pub open spec fn pacstall_source() -> Seq<char> {
    "_remoterepo=\"(.*?)\""@
}

/// The pattern that finds the repository in Pacstall's metadata.
pub fn pacstall_regex() -> (r: Result<Pattern, NalaError>)
    ensures
        match r {
            Ok(p) => p@ == pacstall_source(),
            Err(e) => regex_complaint(pacstall_source()) == Some(e.message@),
        },
{
    Pattern::new("_remoterepo=\"(.*?)\"")
}

/// What a pattern finds in each text.
pub open spec fn captured(pattern: Seq<char>, metadata: Seq<String>) -> Seq<Option<Seq<char>>> {
    Seq::new(metadata.len(), |i: int| regex_group(pattern, metadata[i]@))
}

/// Where a package that no archive holds comes from, by the metadata that
/// Pacstall keeps of it.
pub fn format_local(config: &Config, pacstall: &Pattern, metadata: &Vec<String>) -> (r: String)
    ensures
        r@ == local_text(*config, captured(pacstall@, metadata@)),
{
    let mut captures: Vec<Option<String>> = Vec::new();
    let mut i: usize = 0;
    while i < metadata.len()
        invariant
            i <= metadata@.len(),
            captures@.len() == i,
            forall|k: int|
                0 <= k < i ==> text_opt(#[trigger] captures@[k]) == regex_group(
                    pacstall@,
                    metadata@[k]@,
                ),
        decreases metadata@.len() - i,
    {
        captures.push(pacstall.capture(metadata[i].as_str()));
        i = i + 1;
    }
    assert(text_opts(captures@) =~= captured(pacstall@, metadata@));
    local_source(config, &captures)
}

/// The pattern that finds the archive in the address of a package file.
pub open spec fn url_source() -> Seq<char> {
    "(https?://.*?/.*?/)"@
}

/// The pattern that finds the archive in the address of a package file.
pub fn url_regex() -> (r: Result<Pattern, NalaError>)
    ensures
        match r {
            Ok(p) => p@ == url_source(),
            Err(e) => regex_complaint(url_source()) == Some(e.message@),
        },
{
    Pattern::new("(https?://.*?/.*?/)")
}

/// How many versions of a package are shown: all of them, or the first.
pub open spec fn shown_count(pkg: Package, all: bool) -> int {
    if all || pkg.versions@.len() == 0 {
        pkg.versions@.len() as int
    } else {
        1
    }
}

/// What is shown of a version.
pub open spec fn version_output(
    config: Config,
    ver: Version,
    url: Seq<char>,
    local: Seq<char>,
) -> ShownText {
    if flag(config, "machine"@, false) {
        ShownText::Json
    } else {
        ShownText::Lines(
            entry_lines(
                config,
                pretty_entries(
                    config,
                    Seq::new(
                        record_names().len(),
                        |i: int| (record_names()[i], record_or(ver, record_names()[i])),
                    ),
                    ver,
                    site_of(url, ver)->0,
                    local,
                ),
            ),
        )
    }
}

/// The first of `n` versions that cannot be shown, because its address names
/// no archive.
pub open spec fn unshown(config: Config, versions: Seq<Version>, url: Seq<char>, n: int) -> Option<
    Version,
>
    decreases n,
{
    if n <= 0 {
        None
    } else {
        match unshown(config, versions, url, n - 1) {
            Some(v) => Some(v),
            None => if !flag(config, "machine"@, false) && site_of(url, versions[n - 1]) is None {
                Some(versions[n - 1])
            } else {
                None
            },
        }
    }
}

/// What is shown of a package.
pub open spec fn package_output(
    config: Config,
    pkg: Package,
    metadata: Seq<String>,
    url: Seq<char>,
    pacstall: Seq<char>,
    all: bool,
) -> Seq<ShownText> {
    Seq::new(
        shown_count(pkg, all) as nat,
        |i: int|
            version_output(
                config,
                pkg.versions@[i],
                url,
                local_text(config, captured(pacstall, metadata)),
            ),
    )
}

/// What is shown, as texts.
pub open spec fn shown_texts(v: Seq<Shown>) -> Seq<ShownText> {
    Seq::new(v.len(), |i: int| v[i]@)
}

/// All that describes the archives of the versions that are shown of a package
/// is known, or not asked for.
pub open spec fn showable(config: Config, pkg: Package, all: bool) -> bool {
    flag(config, "machine"@, false) || forall|i: int|
        0 <= i < shown_count(pkg, all) ==> source_complete(#[trigger] pkg.versions@[i])
}

/// What is shown of a package: its first version, or all of them.
pub fn show_package(
    config: &Config,
    pkg: &Package,
    metadata: &Vec<String>,
    url: &Pattern,
    pacstall: &Pattern,
    all: bool,
) -> (r: Result<Vec<Shown>, NalaError>)
    requires
        showable(*config, *pkg, all),
    ensures
        match unshown(*config, pkg.versions@, url@, shown_count(*pkg, all)) {
            None => r is Ok && shown_texts(r->Ok_0@) == package_output(
                *config,
                *pkg,
                metadata@,
                url@,
                pacstall@,
                all,
            ),
            Some(ver) => fails_with(r, site_error(ver)),
        },
{
    let local = format_local(config, pacstall, metadata);
    let count: usize = if all || pkg.versions.len() == 0 {
        pkg.versions.len()
    } else {
        1
    };
    let machine = config.get_bool("machine", false);
    let ghost output = package_output(*config, *pkg, metadata@, url@, pacstall@, all);
    let mut r: Vec<Shown> = Vec::new();
    let mut i: usize = 0;
    while i < count
        invariant
            i <= count <= pkg.versions@.len(),
            count == shown_count(*pkg, all),
            machine == flag(*config, "machine"@, false),
            showable(*config, *pkg, all),
            local@ == local_text(*config, captured(pacstall@, metadata@)),
            output == package_output(*config, *pkg, metadata@, url@, pacstall@, all),
            unshown(*config, pkg.versions@, url@, i as int) is None,
            shown_texts(r@) == output.take(i as int),
        decreases count - i,
    {
        let shown = ShowVersion::new(&pkg.versions[i]);
        let ghost ver = pkg.versions@[i as int];
        let site = if machine {
            String::new()
        } else {
            match archive_site(&pkg.versions[i], url) {
                Ok(site) => site,
                Err(e) => {
                    proof {
                        lemma_unshown(*config, pkg.versions@, url@, i + 1, count as int);
                    }
                    return Err(e);
                },
            }
        };
        r.push(shown.show(config, site.as_str(), local.as_str()));
        proof {
            assert(r@.last()@ == version_output(*config, ver, url@, local@));
            assert(shown_texts(r@) =~= output.take(i as int).push(output[i as int]));
            assert(output.take(i + 1) =~= output.take(i as int).push(output[i as int]));
        }
        i = i + 1;
    }
    assert(output.take(i as int) =~= output);
    Ok(r)
}

proof fn lemma_unshown(config: Config, versions: Seq<Version>, url: Seq<char>, i: int, n: int)
    requires
        i <= n,
        unshown(config, versions, url, i) is Some,
    ensures
        unshown(config, versions, url, n) == unshown(config, versions, url, i),
    decreases n - i,
{
    if i < n {
        lemma_unshown(config, versions, url, i, n - 1);
    }
}

/// What is shown of the first `n` packages.
pub open spec fn output(
    config: Config,
    packages: Seq<Package>,
    metadata: Seq<Vec<String>>,
    url: Seq<char>,
    pacstall: Seq<char>,
    n: int,
) -> Seq<ShownText>
    decreases n,
{
    if n <= 0 {
        Seq::empty()
    } else {
        output(config, packages, metadata, url, pacstall, n - 1) + package_output(
            config,
            packages[n - 1],
            metadata[n - 1]@,
            url,
            pacstall,
            flag(config, "all_versions"@, false),
        )
    }
}

/// The first version of the first `n` packages that cannot be shown.
pub open spec fn first_unshown(config: Config, packages: Seq<Package>, url: Seq<char>, n: int) -> Option<
    Version,
>
    decreases n,
{
    if n <= 0 {
        None
    } else {
        match first_unshown(config, packages, url, n - 1) {
            Some(v) => Some(v),
            None => unshown(
                config,
                packages[n - 1].versions@,
                url,
                shown_count(packages[n - 1], flag(config, "all_versions"@, false)),
            ),
        }
    }
}

/// How many versions of the first `n` packages are not shown.
pub open spec fn hidden(packages: Seq<Package>, all: bool, n: int) -> int
    decreases n,
{
    if n <= 0 {
        0
    } else {
        hidden(packages, all, n - 1) + packages[n - 1].versions@.len() - shown_count(
            packages[n - 1],
            all,
        )
    }
}

/// What the user is told of versions that are not shown.
pub open spec fn hidden_notice(config: Config, n: int) -> Option<Seq<char>> {
    if n == 0 {
        None
    } else {
        Some(
            "There are "@ + colored(config, Theme::Notice, decimal(n as nat))
                + " additional records. Please use the "@ + colored(config, Theme::Notice, "'-a'"@)
                + " switch to see them."@,
        )
    }
}

proof fn lemma_first_unshown(config: Config, packages: Seq<Package>, url: Seq<char>, i: int, n: int)
    requires
        i <= n,
        first_unshown(config, packages, url, i) is Some,
    ensures
        first_unshown(config, packages, url, n) == first_unshown(config, packages, url, i),
    decreases n - i,
{
    if i < n {
        lemma_first_unshown(config, packages, url, i, n - 1);
    }
}

/// The show command: what is shown of the packages, and the notice of versions
/// that are not shown. For each package `metadata` holds what was read of the
/// files of `local_metadata`.
pub fn show(
    config: &Config,
    packages: &Vec<Package>,
    metadata: &Vec<Vec<String>>,
    url: &Pattern,
    pacstall: &Pattern,
) -> (r: Result<(Vec<Shown>, Option<String>), NalaError>)
    requires
        packages@.len() == metadata@.len(),
        forall|i: int|
            0 <= i < packages@.len() ==> showable(
                *config,
                #[trigger] packages@[i],
                flag(*config, "all_versions"@, false),
            ),
    ensures
        match first_unshown(*config, packages@, url@, packages@.len() as int) {
            None => {
                &&& r is Ok
                &&& shown_texts(r->Ok_0.0@) == output(
                    *config,
                    packages@,
                    metadata@,
                    url@,
                    pacstall@,
                    packages@.len() as int,
                )
                &&& text_opt(r->Ok_0.1) == hidden_notice(
                    *config,
                    hidden(packages@, flag(*config, "all_versions"@, false), packages@.len() as int),
                )
            },
            Some(ver) => fails_with(r, site_error(ver)),
        },
{
    let all = config.get_bool("all_versions", false);
    let mut shown: Vec<Shown> = Vec::new();
    let mut additional: u128 = 0;
    let mut i: usize = 0;
    assert(shown_texts(shown@) =~= Seq::empty());
    while i < packages.len()
        invariant
            i <= packages@.len(),
            packages@.len() == metadata@.len(),
            all == flag(*config, "all_versions"@, false),
            forall|k: int|
                0 <= k < packages@.len() ==> showable(*config, #[trigger] packages@[k], all),
            first_unshown(*config, packages@, url@, i as int) is None,
            shown_texts(shown@) == output(
                *config,
                packages@,
                metadata@,
                url@,
                pacstall@,
                i as int,
            ),
            additional == hidden(packages@, all, i as int),
            additional <= i * 0xffff_ffff_ffff_ffff,
        decreases packages@.len() - i,
    {
        let pkg = &packages[i];
        let mut part = match show_package(config, pkg, &metadata[i], url, pacstall, all) {
            Ok(part) => part,
            Err(e) => {
                proof {
                    lemma_first_unshown(*config, packages@, url@, i + 1, packages@.len() as int);
                }
                return Err(e);
            },
        };
        let ghost before = shown@;
        let ghost added = part@;
        shown.append(&mut part);
        assert(shown_texts(shown@) =~= shown_texts(before) + shown_texts(added));
        if !all && pkg.versions.len() > 0 {
            additional = additional + (pkg.versions.len() - 1) as u128;
        }
        i = i + 1;
    }
    let notice = if additional != 0 {
        let mut text = "There are ".to_owned();
        text.append(config.color(Theme::Notice, decimal_of(additional).as_str()).as_str());
        text.append(" additional records. Please use the ");
        text.append(config.color(Theme::Notice, "'-a'").as_str());
        text.append(" switch to see them.");
        Some(text)
    } else {
        None
    };
    Ok((shown, notice))
}

/// The places of the versions that are shown of the first `n` packages: the
/// place of the package, and that of the version among its versions.
pub open spec fn places(packages: Seq<Package>, all: bool, n: int) -> Seq<(usize, usize)>
    decreases n,
{
    if n <= 0 {
        Seq::empty()
    } else {
        places(packages, all, n - 1) + Seq::new(
            shown_count(packages[n - 1], all) as nat,
            |i: int| ((n - 1) as usize, i as usize),
        )
    }
}

/// The places of the versions that are shown, in the order in which they are.
pub fn shown_places(config: &Config, packages: &Vec<Package>) -> (r: Vec<(usize, usize)>)
    ensures
        r@ == places(packages@, flag(*config, "all_versions"@, false), packages@.len() as int),
{
    let all = config.get_bool("all_versions", false);
    let mut r: Vec<(usize, usize)> = Vec::new();
    let mut i: usize = 0;
    while i < packages.len()
        invariant
            i <= packages@.len(),
            r@ == places(packages@, all, i as int),
        decreases packages@.len() - i,
    {
        let total: usize = packages[i].versions.len();
        let count: usize = if all || total == 0 {
            total
        } else {
            1
        };
        let ghost before = r@;
        let ghost added = Seq::new(count as nat, |k: int| (i, k as usize));
        let mut k: usize = 0;
        assert(before + added.take(0) =~= before);
        while k < count
            invariant
                k <= count,
                added == Seq::new(count as nat, |k: int| (i, k as usize)),
                r@ == before + added.take(k as int),
            decreases count - k,
        {
            r.push((i, k));
            assert(before + added.take(k + 1) =~= (before + added.take(k as int)).push(
                added[k as int],
            ));
            k = k + 1;
        }
        assert(added.take(k as int) =~= added);
        i = i + 1;
    }
    r
}

/// What is shown belongs to the places, one for one: what stands at `k` is what
/// is shown of the version at the place at `k`.
pub proof fn law_shown_at_places(
    config: Config,
    packages: Seq<Package>,
    metadata: Seq<Vec<String>>,
    url: Seq<char>,
    pacstall: Seq<char>,
    n: int,
)
    requires
        0 <= n <= packages.len() <= usize::MAX,
        forall|i: int|
            0 <= i < packages.len() ==> (#[trigger] packages[i]).versions@.len() <= usize::MAX,
    ensures
        ({
            let shown = output(config, packages, metadata, url, pacstall, n);
            let at = places(packages, flag(config, "all_versions"@, false), n);
            &&& shown.len() == at.len()
            &&& forall|k: int|
                0 <= k < at.len() ==> (#[trigger] at[k]).0 < n && at[k].1
                    < packages[at[k].0 as int].versions@.len() && shown[k] == version_output(
                    config,
                    packages[at[k].0 as int].versions@[at[k].1 as int],
                    url,
                    local_text(config, captured(pacstall, metadata[at[k].0 as int]@)),
                )
        }),
    decreases n,
{
    if n > 0 {
        law_shown_at_places(config, packages, metadata, url, pacstall, n - 1);
        let all = flag(config, "all_versions"@, false);
        let before = output(config, packages, metadata, url, pacstall, n - 1);
        let shown = output(config, packages, metadata, url, pacstall, n);
        let front = places(packages, all, n - 1);
        let at = places(packages, all, n);
        let pkg = packages[n - 1];
        assert forall|k: int| 0 <= k < at.len() implies (#[trigger] at[k]).0 < n && at[k].1
            < packages[at[k].0 as int].versions@.len() && shown[k] == version_output(
            config,
            packages[at[k].0 as int].versions@[at[k].1 as int],
            url,
            local_text(config, captured(pacstall, metadata[at[k].0 as int]@)),
        ) by {
            if k < front.len() {
                assert(at[k] == front[k]);
                assert(shown[k] == before[k]);
            } else {
                let i = k - front.len();
                assert(i < shown_count(pkg, all) <= pkg.versions@.len());
                assert(at[k] == ((n - 1) as usize, i as usize));
                assert(shown[k] == package_output(
                    config,
                    pkg,
                    metadata[n - 1]@,
                    url,
                    pacstall,
                    all,
                )[i]);
            }
        }
    }
}

/// With the switch for all versions none is left out.
pub proof fn law_all_versions_hides_none(packages: Seq<Package>, n: int)
    requires
        0 <= n <= packages.len(),
    ensures
        hidden(packages, true, n) == 0,
    decreases n,
{
    if n > 0 {
        law_all_versions_hides_none(packages, n - 1);
    }
}

/// A dependency names its package, and the version that it asks for in brackets.
pub proof fn law_dependency_text(config: &Config, dep: &BaseDep, theme: Theme, r: String)
    requires
        call_ensures(format_dependency, (config, dep, theme), r),
    ensures
        dep.constraint is None ==> r@ == colored(*config, theme, dep.name@),
        dep.constraint matches Some((comp, version)) ==> r@ == colored(*config, theme, dep.name@)
            + " "@ + colored(*config, Theme::Highlight, "("@) + comp@ + " "@ + colored(
            *config,
            Theme::Secondary,
            version@,
        ) + colored(*config, Theme::Highlight, ")"@),
{
}

/// Dependencies stand on lines of their own where there are more than four, and
/// else with commas between them.
pub proof fn law_footers(total_deps: usize, index: usize, r: &'static str)
    requires
        index < total_deps,
        call_ensures(dependency_footer, (total_deps, index), r),
    ensures
        total_deps > 4 ==> r@ == "\n    "@,
        total_deps <= 4 && index + 1 < total_deps ==> r@ == ", "@,
        total_deps <= 4 && index + 1 == total_deps ==> r@ == " "@,
{
}

/// The packages that meet a dependency, the first of which is preferred.
pub open spec fn choices(config: Config, dep: Dependency, theme: Theme) -> Seq<Seq<char>> {
    seq![base_dep_text(config, dep.first, theme)] + dep.rest@.map_values(
        |base: BaseDep| base_dep_text(config, base, theme),
    )
}

proof fn lemma_alternatives(config: Config, dep: Dependency, theme: Theme, n: int)
    requires
        0 < n <= dep.rest@.len() + 1,
    ensures
        alternatives(config, dep, theme, n) == joined(choices(config, dep, theme).take(n), " | "@),
    decreases n,
{
    let all = choices(config, dep, theme);
    assert(all.take(n).last() == all[n - 1]);
    assert(all.take(n).drop_last() =~= all.take(n - 1));
    if n > 1 {
        lemma_alternatives(config, dep, theme, n - 1);
    }
}

proof fn lemma_dependency_texts(
    config: Config,
    depends: Seq<Dependency>,
    theme: Theme,
    n: int,
    make: spec_fn(int) -> Seq<char>,
)
    requires
        0 <= n <= depends.len(),
        forall|i: int|
            0 <= i < depends.len() ==> #[trigger] make(i) == joined(
                choices(config, depends[i], theme),
                " | "@,
            ) + footer(depends.len() as int, i),
    ensures
        dependency_texts(config, depends, theme, n) == (if depends.len() > 4 {
            "\n    "@
        } else {
            Seq::empty()
        }) + Seq::new(n as nat, make).flatten(),
    decreases n,
{
    let gap = if depends.len() > 4 {
        "\n    "@
    } else {
        Seq::empty()
    };
    if n <= 0 {
        assert(Seq::new(n as nat, make) =~= Seq::<Seq<char>>::empty());
        assert(Seq::<Seq<char>>::empty().flatten() =~= Seq::<char>::empty());
        assert(gap + Seq::<char>::empty() =~= gap);
    } else {
        lemma_dependency_texts(config, depends, theme, n - 1, make);
        let parts = Seq::new((n - 1) as nat, make);
        assert(Seq::new(n as nat, make) =~= parts.push(make(n - 1)));
        parts.lemma_flatten_push(make(n - 1));
        let dep = depends[n - 1];
        lemma_alternatives(config, dep, theme, dep.rest@.len() as int + 1);
        assert(choices(config, dep, theme).take(dep.rest@.len() as int + 1) =~= choices(
            config,
            dep,
            theme,
        ));
        let words = joined(choices(config, dep, theme), " | "@);
        let foot = footer(depends.len() as int, n - 1);
        assert(gap + parts.flatten() + words + foot =~= gap + (parts.flatten() + (words + foot)));
    }
}

/// Every dependency is shown, in order, with all the packages that meet it.
pub proof fn law_every_dependency_is_shown(
    config: &Config,
    depends: &Vec<Dependency>,
    theme: Theme,
    r: String,
)
    requires
        call_ensures(show_dependency, (config, depends, theme), r),
    ensures
        ({
            let n = depends@.len();
            let gap = if n > 4 {
                "\n    "@
            } else {
                Seq::empty()
            };
            r@ == gap + Seq::new(
                n,
                |i: int|
                    joined(choices(*config, depends@[i], theme), " | "@) + (if n > 4 {
                        "\n    "@
                    } else if i + 1 < n {
                        ", "@
                    } else {
                        " "@
                    }),
            ).flatten()
        }),
{
    let n = depends@.len();
    lemma_dependency_texts(
        *config,
        depends@,
        theme,
        n as int,
        |i: int|
            joined(choices(*config, depends@[i], theme), " | "@) + (if n > 4 {
                "\n    "@
            } else if i + 1 < n {
                ", "@
            } else {
                " "@
            }),
    );
}

/// The files that tell of a local package.
pub proof fn law_metadata_files(pkg_name: &str, r: Vec<String>)
    requires
        call_ensures(local_metadata, (pkg_name,), r),
    ensures
        ({
            let stem = "/var/log/pacstall/metadata/"@ + pkg_name@;
            &&& r@.len() == 5
            &&& r@[0]@ == stem
            &&& r@[1]@ == stem + "-deb"@
            &&& r@[2]@ == stem + "-git"@
            &&& r@[3]@ == stem + "-bin"@
            &&& r@[4]@ == stem + "-app"@
        }),
{
    reveal_strlit("");
    let stem = "/var/log/pacstall/metadata/"@ + pkg_name@;
    let all = texts(r@);
    assert(all.len() == r@.len());
    assert(stem + ""@ =~= stem);
    assert(all[0] == r@[0]@ && all[1] == r@[1]@ && all[2] == r@[2]@ && all[3] == r@[3]@ && all[4]
        == r@[4]@);
}

proof fn lemma_repositories(captures: Seq<Option<Seq<char>>>, make: spec_fn(Option<Seq<char>>) -> Seq<char>)
    requires
        forall|c: Option<Seq<char>>|
            #[trigger] make(c) == (match c {
                Some(repo) => repo,
                None => "https://github.com/pacstall/pacstall-programs"@,
            }),
    ensures
        repositories(captures) == captures.map_values(make).flatten(),
    decreases captures.len(),
{
    if captures.len() == 0 {
        assert(captures.map_values(make) =~= Seq::<Seq<char>>::empty());
        assert(Seq::<Seq<char>>::empty().flatten() =~= Seq::<char>::empty());
    } else {
        let front = captures.drop_last();
        lemma_repositories(front, make);
        assert(captures =~= front.push(captures.last()));
        crate::seqs::lemma_map_push(front, captures.last(), make);
        front.map_values(make).lemma_flatten_push(make(captures.last()));
    }
}

/// A local package comes from the repositories that its files name, from the
/// usual one where they name none, or from nowhere that is known.
pub proof fn law_local_source(config: &Config, captures: &Vec<Option<String>>, r: String)
    requires
        call_ensures(local_source, (config, captures), r),
    ensures
        ({
            let all = captures@.map_values(
                |c: Option<String>|
                    match c {
                        Some(repo) => repo@,
                        None => "https://github.com/pacstall/pacstall-programs"@,
                    },
            ).flatten();
            &&& all.len() == 0 ==> r@ == "local install"@
            &&& all.len() > 0 ==> r@ == colored(*config, Theme::Secondary, all)
        }),
{
    let make = |c: Option<Seq<char>>|
        match c {
            Some(repo) => repo,
            None => "https://github.com/pacstall/pacstall-programs"@,
        };
    lemma_repositories(text_opts(captures@), make);
    assert(text_opts(captures@).map_values(make) =~= captures@.map_values(
        |c: Option<String>|
            match c {
                Some(repo) => repo@,
                None => "https://github.com/pacstall/pacstall-programs"@,
            },
    ));
}

proof fn lemma_places(packages: Seq<Package>, all: bool, n: int, i: int, k: int)
    requires
        0 <= n <= packages.len() <= usize::MAX,
        0 <= i <= usize::MAX,
        0 <= k <= usize::MAX,
    ensures
        places(packages, all, n).contains((i as usize, k as usize)) <==> i < n && k
            < packages[i].versions@.len() && (all || k == 0),
    decreases n,
{
    if n > 0 {
        lemma_places(packages, all, n - 1, i, k);
        let before = places(packages, all, n - 1);
        assert(packages[n - 1].versions@.len() == packages[n - 1].versions.len());
        let more = Seq::new(
            shown_count(packages[n - 1], all) as nat,
            |i: int| ((n - 1) as usize, i as usize),
        );
        let whole = before + more;
        let x = (i as usize, k as usize);
        if before.contains(x) {
            let p = choose|p: int| 0 <= p < before.len() && before[p] == x;
            assert(whole[p] == x);
        }
        if whole.contains(x) {
            let p = choose|p: int| 0 <= p < whole.len() && whole[p] == x;
            if p < before.len() {
                assert(before[p] == x);
            } else {
                assert(more[p - before.len()] == x);
            }
        }
        if i == n - 1 && k < shown_count(packages[n - 1], all) {
            assert(more[k] == x);
            assert(whole[before.len() + k] == x);
        }
    }
}

/// Of every package all versions are shown where that is asked for, and else the
/// newest. A package without versions is not shown.
pub proof fn law_what_is_shown(
    config: &Config,
    packages: &Vec<Package>,
    r: Vec<(usize, usize)>,
    i: usize,
    k: usize,
)
    requires
        call_ensures(shown_places, (config, packages), r),
    ensures
        r@.contains((i, k)) <==> i < packages@.len() && k < packages@[i as int].versions@.len() && (
        flag(*config, "all_versions"@, false) || k == 0),
{
    assert(packages@.len() == packages.len());
    lemma_places(
        packages@,
        flag(*config, "all_versions"@, false),
        packages@.len() as int,
        i as int,
        k as int,
    );
}

proof fn lemma_none_unshown(config: Config, versions: Seq<Version>, url: Seq<char>, n: int)
    requires
        0 <= n <= versions.len(),
    ensures
        unshown(config, versions, url, n) is None <==> flag(config, "machine"@, false) || forall|
            i: int,
        |
            0 <= i < n ==> site_of(url, #[trigger] versions[i]) is Some,
    decreases n,
{
    if n > 0 {
        lemma_none_unshown(config, versions, url, n - 1);
        if unshown(config, versions, url, n) is Some {
            if unshown(config, versions, url, n - 1) is None {
                assert(site_of(url, versions[n - 1]) is None);
            }
        }
    }
}

/// The versions of a package that are shown have an archive that is known.
pub open spec fn has_sites(url: Seq<char>, pkg: Package, all: bool) -> bool {
    forall|k: int|
        0 <= k < pkg.versions@.len() && (all || k == 0) ==> site_of(
            url,
            #[trigger] pkg.versions@[k],
        ) is Some
}

proof fn lemma_all_shown(config: Config, packages: Seq<Package>, url: Seq<char>, n: int)
    requires
        0 <= n <= packages.len(),
    ensures
        first_unshown(config, packages, url, n) is None <==> flag(config, "machine"@, false)
            || forall|i: int|
            0 <= i < n ==> #[trigger] has_sites(
                url,
                packages[i],
                flag(config, "all_versions"@, false),
            ),
    decreases n,
{
    if n > 0 {
        let all = flag(config, "all_versions"@, false);
        lemma_all_shown(config, packages, url, n - 1);
        let pkg = packages[n - 1];
        lemma_none_unshown(config, pkg.versions@, url, shown_count(pkg, all));
        assert(has_sites(url, pkg, all) <==> forall|i: int|
            0 <= i < shown_count(pkg, all) ==> site_of(url, #[trigger] pkg.versions@[i]) is Some);
        assert(packages[n - 1] == pkg);
    }
}

proof fn lemma_hidden(packages: Seq<Package>, all: bool, n: int)
    requires
        0 <= n <= packages.len(),
    ensures
        hidden(packages, all, n) >= 0,
        all ==> hidden(packages, all, n) == 0,
        !all ==> (hidden(packages, all, n) == 0 <==> forall|i: int|
            0 <= i < n ==> (#[trigger] packages[i]).versions@.len() <= 1),
        !all ==> hidden(packages, all, n) == packages.take(n).map_values(
            |p: Package|
                if p.versions@.len() > 1 {
                    p.versions@.len() - 1
                } else {
                    0
                },
        ).fold_left(0int, |a: int, b: int| a + b),
    decreases n,
{
    let make = |p: Package|
        if p.versions@.len() > 1 {
            p.versions@.len() - 1
        } else {
            0
        };
    let plus = |a: int, b: int| a + b;
    if n > 0 {
        lemma_hidden(packages, all, n - 1);
        assert(packages.take(n) =~= packages.take(n - 1).push(packages[n - 1]));
        crate::seqs::lemma_map_push(packages.take(n - 1), packages[n - 1], make);
        let parts = packages.take(n - 1).map_values(make);
        let longer = parts.push(make(packages[n - 1]));
        assert(longer.drop_last() =~= parts);
        assert(longer.fold_left(0int, plus) == parts.fold_left(0int, plus) + make(packages[n - 1]));
    } else {
        assert(packages.take(n).map_values(make) =~= Seq::<int>::empty());
    }
}

/// Showing succeeds if the archive of everything that is shown is known, or a
/// machine reads it. Then each version is shown at its place, and the user is told
/// how many are not.
pub proof fn law_show(
    config: &Config,
    packages: &Vec<Package>,
    metadata: &Vec<Vec<String>>,
    url: &Pattern,
    pacstall: &Pattern,
    r: Result<(Vec<Shown>, Option<String>), NalaError>,
    at: Vec<(usize, usize)>,
)
    requires
        packages@.len() == metadata@.len(),
        forall|i: int|
            0 <= i < packages@.len() ==> showable(
                *config,
                #[trigger] packages@[i],
                flag(*config, "all_versions"@, false),
            ),
        call_ensures(show, (config, packages, metadata, url, pacstall), r),
        call_ensures(shown_places, (config, packages), at),
    ensures
        r is Ok <==> flag(*config, "machine"@, false) || forall|i: int|
            0 <= i < packages@.len() ==> #[trigger] has_sites(
                url@,
                packages@[i],
                flag(*config, "all_versions"@, false),
            ),
        r is Ok ==> r->Ok_0.0@.len() == at@.len(),
        r is Ok ==> forall|k: int|
            0 <= k < at@.len() ==> (if flag(*config, "machine"@, false) {
                (#[trigger] r->Ok_0.0@[k])@ is Json
            } else {
                r->Ok_0.0@[k]@ is Lines
            }),
        r is Ok && !flag(*config, "all_versions"@, false) ==> {
            let more = packages@.map_values(
                |p: Package|
                    if p.versions@.len() > 1 {
                        p.versions@.len() - 1
                    } else {
                        0
                    },
            ).fold_left(0int, |a: int, b: int| a + b);
            &&& r->Ok_0.1 is Some <==> more > 0
            &&& r->Ok_0.1 is Some ==> r->Ok_0.1->0@ == "There are "@ + colored(
                *config,
                Theme::Notice,
                decimal(more as nat),
            ) + " additional records. Please use the "@ + colored(
                *config,
                Theme::Notice,
                "'-a'"@,
            ) + " switch to see them."@
        },
        r is Ok && flag(*config, "all_versions"@, false) ==> r->Ok_0.1 is None,
{
    let n = packages@.len() as int;
    let all = flag(*config, "all_versions"@, false);
    assert(packages@.len() == packages.len());
    lemma_all_shown(*config, packages@, url@, n);
    lemma_hidden(packages@, all, n);
    assert(packages@.take(n) =~= packages@);
    assert forall|i: int| 0 <= i < packages@.len() implies (
    #[trigger] packages@[i]).versions@.len() <= usize::MAX by {
        assert(packages@[i].versions@.len() == packages@[i].versions.len());
    }
    law_shown_at_places(*config, packages@, metadata@, url@, pacstall@, n);
    if r is Ok {
        let shown = shown_texts(r->Ok_0.0@);
        assert(shown.len() == r->Ok_0.0@.len());
        assert forall|k: int| 0 <= k < at@.len() implies (if flag(*config, "machine"@, false) {
            (#[trigger] r->Ok_0.0@[k])@ is Json
        } else {
            r->Ok_0.0@[k]@ is Lines
        }) by {
            assert(shown[k] == r->Ok_0.0@[k]@);
            let place = at@[k];
            assert(place.0 < n);
        }
    }
}

/// What the files of a local package name as its repository is found in each of
/// them.
pub proof fn law_format_local(
    config: &Config,
    pacstall: &Pattern,
    metadata: &Vec<String>,
    r: String,
)
    requires
        call_ensures(format_local, (config, pacstall, metadata), r),
    ensures
        ({
            let all = metadata@.map_values(
                |file: String|
                    match regex_group(pacstall@, file@) {
                        Some(repo) => repo,
                        None => "https://github.com/pacstall/pacstall-programs"@,
                    },
            ).flatten();
            &&& all.len() == 0 ==> r@ == "local install"@
            &&& all.len() > 0 ==> r@ == colored(*config, Theme::Secondary, all)
        }),
{
    let make = |c: Option<Seq<char>>|
        match c {
            Some(repo) => repo,
            None => "https://github.com/pacstall/pacstall-programs"@,
        };
    let captures = captured(pacstall@, metadata@);
    lemma_repositories(captures, make);
    assert(captures.map_values(make) =~= metadata@.map_values(
        |file: String|
            match regex_group(pacstall@, file@) {
                Some(repo) => repo,
                None => "https://github.com/pacstall/pacstall-programs"@,
            },
    ));
}

} // verus!

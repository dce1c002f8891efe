//! Installing packages.
use vstd::prelude::*;
use crate::apt::{Package, Version};
use crate::cmd::Operation;
use crate::config::{colored, colored_ver, Config, Theme};
use crate::debfile::DebFile;
use crate::downloader::stderr_line;
use crate::error::{fails_with, NalaError};
use crate::glob::{find_version, version_named, FoundPackage};
use crate::text::{ends_with, has_prefix, has_suffix, push_text, starts_with, text_opt, texts};

verus! {

/// What an argument stands for.
#[derive(Debug, Clone, Copy, PartialEq, Eq, Structural)]
pub enum Argument {
    /// An address.
    Http,
    /// A package of the cache.
    Cache,
    /// A package file.
    Deb,
}

/// What an argument stands for: an address, a package file by its suffix, else
/// a package.
pub open spec fn argument_kind(arg: Seq<char>) -> Argument {
    if has_prefix(arg, "http"@) {
        Argument::Http
    } else if has_suffix(arg, ".deb"@) {
        Argument::Deb
    } else {
        Argument::Cache
    }
}

/// What an argument stands for.
pub fn classify(arg: &str) -> (r: Argument)
    ensures
        r == argument_kind(arg@),
{
    if starts_with(arg, "http") {
        return Argument::Http;
    }
    // Treat it as pkg name if it isn't .deb
    if !ends_with(arg, ".deb") {
        return Argument::Cache;
    }
    Argument::Deb
}

/// The arguments, by what they stand for.
#[derive(Debug)]
pub struct Arguments {
    pub http_pkgs: Vec<String>,
    pub deb_files: Vec<String>,
    pub cache_pkgs: Vec<String>,
}

/// The arguments of a kind among the first `n`, in order.
pub open spec fn of_kind(args: Seq<String>, kind: Argument, n: int) -> Seq<Seq<char>>
    decreases n,
{
    if n <= 0 {
        Seq::empty()
    } else if argument_kind(args[n - 1]@) == kind {
        of_kind(args, kind, n - 1).push(args[n - 1]@)
    } else {
        of_kind(args, kind, n - 1)
    }
}

/// Sorts the arguments by what they stand for.
pub fn sort_arguments(args: &Vec<String>) -> (r: Arguments)
    ensures
        texts(r.http_pkgs@) == of_kind(args@, Argument::Http, args@.len() as int),
        texts(r.deb_files@) == of_kind(args@, Argument::Deb, args@.len() as int),
        texts(r.cache_pkgs@) == of_kind(args@, Argument::Cache, args@.len() as int),
{
    let mut http_pkgs: Vec<String> = Vec::new();
    let mut deb_files: Vec<String> = Vec::new();
    let mut cache_pkgs: Vec<String> = Vec::new();
    let mut i: usize = 0;
    assert(texts(http_pkgs@) =~= Seq::empty());
    assert(texts(deb_files@) =~= Seq::empty());
    assert(texts(cache_pkgs@) =~= Seq::empty());
    while i < args.len()
        invariant
            i <= args@.len(),
            texts(http_pkgs@) == of_kind(args@, Argument::Http, i as int),
            texts(deb_files@) == of_kind(args@, Argument::Deb, i as int),
            texts(cache_pkgs@) == of_kind(args@, Argument::Cache, i as int),
        decreases args@.len() - i,
    {
        match classify(args[i].as_str()) {
            Argument::Http => push_text(&mut http_pkgs, args[i].clone()),
            Argument::Deb => push_text(&mut deb_files, args[i].clone()),
            Argument::Cache => push_text(&mut cache_pkgs, args[i].clone()),
        }
        i = i + 1;
    }
    Arguments { http_pkgs, deb_files, cache_pkgs }
}

/// No argument is lost: each is among those of exactly one kind.
pub proof fn law_arguments_are_kept(args: Seq<String>, n: int)
    requires
        0 <= n <= args.len(),
    ensures
        of_kind(args, Argument::Http, n).len() + of_kind(args, Argument::Deb, n).len() + of_kind(
            args,
            Argument::Cache,
            n,
        ).len() == n,
    decreases n,
{
    if n > 0 {
        law_arguments_are_kept(args, n - 1);
    }
}

/// A version that was selected for a package file.
#[derive(Debug)]
pub struct Selected<'a> {
    pub pkg: &'a Package,
    pub version: &'a Version,
}

/// What the user is told when a package stands for a package file.
pub open spec fn selecting(pkg: Package, deb: DebFile) -> Seq<char> {
    "Selecting Package '"@ + pkg.name@ + "' instead of '"@ + deb.path@ + "'"@
}

/// What the user is told when a package stands for a package file. They are told
/// before the version is looked for, also where it is not found.
pub fn selecting_notice(deb: &DebFile, pkg: &Package) -> (r: String)
    ensures
        r@ == selecting(*pkg, *deb),
{
    let mut notice = "Selecting Package '".to_owned();
    notice.append(pkg.name.as_str());
    notice.append("' instead of '");
    notice.append(deb.path.as_str());
    notice.append("'");
    notice
}

/// The version of the cache that a package file holds. `pkg` is the package
/// that has the file's name; a file without one is passed over.
pub fn select_deb<'a>(deb: &DebFile, pkg: Option<&'a Package>) -> (r: Result<
    Option<Selected<'a>>,
    NalaError,
>)
    requires
        deb.wf(),
    ensures
        match pkg {
            None => r is Ok && r->Ok_0 is None,
            Some(p) => {
                let number = deb.tag.tag("Version"@)->0;
                match version_named(p.versions@, number) {
                    Some(v) => {
                        &&& r is Ok
                        &&& r->Ok_0 is Some
                        &&& r->Ok_0->0.pkg == p
                        &&& *r->Ok_0->0.version == v
                    },
                    None => fails_with(
                        r,
                        "Could not find Version '"@ + number + "' for Package '"@ + p.name@ + "'"@,
                    ),
                }
            },
        },
{
    let pkg = match pkg {
        Some(pkg) => pkg,
        None => {
            return Ok(None);
        },
    };
    match find_version(pkg, deb.version()) {
        Some(version) => Ok(Some(Selected { pkg, version })),
        None => {
            let mut message = "Could not find Version '".to_owned();
            message.append(deb.version());
            message.append("' for Package '");
            message.append(pkg.name.as_str());
            message.append("'");
            Err(NalaError::from_string(message))
        },
    }
}

/// What is done about a package.
#[derive(Debug)]
pub enum Step<'a> {
    /// Mark it for installation.
    Install(&'a Package),
    /// Mark it for removal.
    Remove(&'a Package),
    /// Nothing. The notice says why.
    Skip(String),
}

/// What is done about a package, with the notice as a text.
pub enum StepText {
    Install(Package),
    Remove(Package),
    Skip(Seq<char>),
}

impl<'a> View for Step<'a> {
    type V = StepText;

    open spec fn view(&self) -> StepText {
        match self {
            Step::Install(pkg) => StepText::Install(**pkg),
            Step::Remove(pkg) => StepText::Remove(**pkg),
            Step::Skip(s) => StepText::Skip(s@),
        }
    }
}

/// What is done about a package, or what is said against it. Packages are
/// installed unless their removal is asked for.
pub open spec fn step_for(config: Config, pkg: Package, modifier: Option<Operation>) -> Result<
    StepText,
    Seq<char>,
> {
    if modifier == Some(Operation::Remove) {
        if pkg.inst() is None {
            Ok(
                StepText::Skip(
                    stderr_line(config, Theme::Notice, pkg.name@ + " is not installed"@),
                ),
            )
        } else {
            Ok(StepText::Remove(pkg))
        }
    } else {
        match pkg.cand() {
            None => Err(pkg.name@ + " has no install candidate"@),
            Some(cand) => if pkg.inst() is Some && pkg.inst()->0.order == cand.order {
                Ok(
                    StepText::Skip(
                        stderr_line(
                            config,
                            Theme::Notice,
                            colored(config, Theme::Primary, pkg.name@) + colored_ver(
                                config,
                                cand.version@,
                            ) + " is already installed and at the latest version"@,
                        ),
                    ),
                )
            } else {
                Ok(StepText::Install(pkg))
            },
        }
    }
}

/// The modifiers that packages can have here.
pub open spec fn is_handled(modifier: Option<Operation>) -> bool {
    modifier is None || modifier == Some(Operation::Install) || modifier == Some(Operation::Remove)
}

/// What is done about a package.
pub fn decide<'a>(config: &Config, found: &FoundPackage<'a>) -> (r: Result<Step<'a>, NalaError>)
    requires
        is_handled(found.modifier),
    ensures
        match step_for(*config, *found.pkg, found.modifier) {
            Ok(step) => r is Ok && r->Ok_0@ == step,
            Err(message) => fails_with(r, message),
        },
{
    let pkg = found.pkg;
    let remove = match found.modifier {
        Some(Operation::Remove) => true,
        _ => false,
    };
    if remove {
        if pkg.installed().is_none() {
            let mut text = pkg.name.clone();
            text.append(" is not installed");
            return Ok(Step::Skip(config.stderr(Theme::Notice, text.as_str())));
        }
        return Ok(Step::Remove(pkg));
    }
    let cand = match pkg.candidate() {
        Some(cand) => cand,
        None => {
            let mut message = pkg.name.clone();
            message.append(" has no install candidate");
            return Err(NalaError::from_string(message));
        },
    };
    if let Some(inst) = pkg.installed() {
        if inst.order == cand.order {
            let mut text = config.color(Theme::Primary, pkg.name.as_str());
            text.append(config.color_ver(cand.version.as_str()).as_str());
            text.append(" is already installed and at the latest version");
            return Ok(Step::Skip(config.stderr(Theme::Notice, text.as_str())));
        }
    }
    Ok(Step::Install(pkg))
}

/// What is done about the first `n` packages.
pub open spec fn steps_to<'a>(config: Config, found: Seq<FoundPackage<'a>>, n: int) -> Seq<StepText>
    decreases n,
{
    if n <= 0 {
        Seq::empty()
    } else {
        steps_to(config, found, n - 1).push(
            step_for(config, *found[n - 1].pkg, found[n - 1].modifier)->Ok_0,
        )
    }
}

/// Nothing is said against the first `n` packages.
pub open spec fn all_fine<'a>(config: Config, found: Seq<FoundPackage<'a>>, n: int) -> bool {
    forall|i: int|
        0 <= i < n ==> step_for(config, *(#[trigger] found[i]).pkg, found[i].modifier) is Ok
}

/// The steps, with the notices as texts.
pub open spec fn step_texts<'a>(v: Seq<Step<'a>>) -> Seq<StepText> {
    Seq::new(v.len(), |i: int| v[i]@)
}

/// What is done about the packages, up to the first that something is said
/// against.
pub fn install<'a>(config: &Config, found: &Vec<FoundPackage<'a>>) -> (r: (
    Vec<Step<'a>>,
    Option<NalaError>,
))
    requires
        forall|i: int| 0 <= i < found@.len() ==> is_handled((#[trigger] found@[i]).modifier),
    ensures
        all_fine(*config, found@, r.0@.len() as int),
        step_texts(r.0@) == steps_to(*config, found@, r.0@.len() as int),
        match r.1 {
            None => r.0@.len() == found@.len(),
            Some(e) => {
                let i = r.0@.len() as int;
                &&& i < found@.len()
                &&& step_for(*config, *found@[i].pkg, found@[i].modifier) == Err::<
                    StepText,
                    Seq<char>,
                >(e.message@)
            },
        },
{
    let mut steps: Vec<Step<'a>> = Vec::new();
    let mut i: usize = 0;
    assert(step_texts(steps@) =~= Seq::empty());
    while i < found.len()
        invariant
            i <= found@.len(),
            steps@.len() == i,
            forall|k: int| 0 <= k < found@.len() ==> is_handled((#[trigger] found@[k]).modifier),
            all_fine(*config, found@, i as int),
            step_texts(steps@) == steps_to(*config, found@, i as int),
        decreases found@.len() - i,
    {
        let ghost before = step_texts(steps@);
        match decide(config, &found[i]) {
            Ok(step) => {
                steps.push(step);
                assert(step_texts(steps@) =~= before.push(step@));
            },
            Err(e) => {
                return (steps, Some(e));
            },
        }
        i = i + 1;
    }
    (steps, None)
}

/// The files of installed packages that come from a package file on disk.
pub open spec fn local_file(ver: Version, n: int) -> Option<Seq<char>>
    decreases n,
{
    if n <= 0 {
        None
    } else {
        match local_file(ver, n - 1) {
            Some(file) => Some(file),
            None => {
                let file = ver.files@[n - 1].file;
                if file.archive is Some && file.archive->0@ == "local-deb"@ {
                    text_opt(file.filename)
                } else {
                    None
                }
            },
        }
    }
}

/// The package files on disk among the first `n` packages: for each installed
/// package the first.
pub open spec fn local_files(packages: Seq<Package>, n: int) -> Seq<Seq<char>>
    decreases n,
{
    if n <= 0 {
        Seq::empty()
    } else {
        let before = local_files(packages, n - 1);
        match packages[n - 1].inst() {
            Some(ver) => match local_file(ver, ver.files@.len() as int) {
                Some(file) => before.push(file),
                None => before,
            },
            None => before,
        }
    }
}

fn find_local(ver: &Version) -> (r: Option<String>)
    ensures
        text_opt(r) == local_file(*ver, ver.files@.len() as int),
{
    let mut i: usize = 0;
    while i < ver.files.len()
        invariant
            i <= ver.files@.len(),
            local_file(*ver, i as int) is None,
        decreases ver.files@.len() - i,
    {
        let file = &ver.files[i].file;
        if let (Some(archive), Some(filename)) = (&file.archive, &file.filename) {
            if crate::text::str_eq(archive.as_str(), "local-deb") {
                proof {
                    lemma_local_file(*ver, i + 1, ver.files@.len() as int);
                }
                return Some(filename.clone());
            }
        }
        i = i + 1;
    }
    None
}

proof fn lemma_local_file(ver: Version, i: int, n: int)
    requires
        i <= n,
        local_file(ver, i) is Some,
    ensures
        local_file(ver, n) == local_file(ver, i),
    decreases n - i,
{
    if i < n {
        lemma_local_file(ver, i, n - 1);
    }
}

/// The package files on disk that installed packages come from.
pub fn system(packages: &Vec<Package>) -> (r: Vec<String>)
    ensures
        texts(r@) == local_files(packages@, packages@.len() as int),
{
    let mut r: Vec<String> = Vec::new();
    let mut i: usize = 0;
    assert(texts(r@) =~= Seq::empty());
    while i < packages.len()
        invariant
            i <= packages@.len(),
            texts(r@) == local_files(packages@, i as int),
        decreases packages@.len() - i,
    {
        if let Some(ver) = packages[i].installed() {
            if let Some(file) = find_local(ver) {
                push_text(&mut r, file);
            }
        }
        i = i + 1;
    }
    r
}

/// What is done about a package that a command line names. One that is to be
/// removed is removed if it is installed. Any other is installed, unless it has
/// no candidate, or the candidate is what is installed already.
pub proof fn law_decision<'a>(
    config: &Config,
    found: &FoundPackage<'a>,
    r: Result<Step<'a>, NalaError>,
)
    requires
        is_handled(found.modifier),
        call_ensures(decide, (config, found), r),
    ensures
        found.modifier == Some(Operation::Remove) && found.pkg.inst() is Some ==> r is Ok
            && r->Ok_0 == Step::Remove(found.pkg),
        found.modifier == Some(Operation::Remove) && found.pkg.inst() is None ==> r is Ok
            && r->Ok_0 is Skip,
        found.modifier != Some(Operation::Remove) ==> (r is Err <==> found.pkg.cand() is None),
        found.modifier != Some(Operation::Remove) && found.pkg.cand() is Some ==> {
            let current = found.pkg.inst() is Some && found.pkg.inst()->0.order
                == found.pkg.cand()->0.order;
            &&& r->Ok_0 is Skip <==> current
            &&& !current ==> r->Ok_0 == Step::Install(found.pkg)
        },
{
}

/// What the user is told about a package with which nothing is done.
pub proof fn law_notices<'a>(
    config: &Config,
    found: &FoundPackage<'a>,
    r: Result<Step<'a>, NalaError>,
)
    requires
        is_handled(found.modifier),
        call_ensures(decide, (config, found), r),
    ensures
        match r {
            Ok(Step::Skip(notice)) => {
                &&& found.modifier == Some(Operation::Remove) ==> notice@ == stderr_line(
                    *config,
                    Theme::Notice,
                    found.pkg.name@ + " is not installed"@,
                )
                &&& found.modifier != Some(Operation::Remove) ==> notice@ == stderr_line(
                    *config,
                    Theme::Notice,
                    colored(*config, Theme::Primary, found.pkg.name@) + colored_ver(
                        *config,
                        found.pkg.cand()->0.version@,
                    ) + " is already installed and at the latest version"@,
                )
            },
            Ok(_) => true,
            Err(e) => e.message@ == found.pkg.name@ + " has no install candidate"@,
        },
{
}

/// Each package that was found gets its step, in order, up to the first without
/// a candidate that is not to be removed. Where there is none such, all do.
pub proof fn law_every_package_gets_a_step<'a>(
    config: &Config,
    found: &Vec<FoundPackage<'a>>,
    r: (Vec<Step<'a>>, Option<NalaError>),
)
    requires
        forall|i: int| 0 <= i < found@.len() ==> is_handled((#[trigger] found@[i]).modifier),
        call_ensures(install, (config, found), r),
    ensures
        r.1 is None <==> forall|i: int|
            0 <= i < found@.len() ==> (#[trigger] found@[i]).modifier == Some(Operation::Remove)
                || found@[i].pkg.cand() is Some,
        r.1 is None ==> r.0@.len() == found@.len(),
        r.1 is Some ==> r.0@.len() < found@.len() && found@[r.0@.len() as int].pkg.cand() is None
            && found@[r.0@.len() as int].modifier != Some(Operation::Remove),
        forall|i: int|
            0 <= i < r.0@.len() ==> {
                let pkg = found@[i].pkg;
                let remove = found@[i].modifier == Some(Operation::Remove);
                let current = pkg.inst() is Some && pkg.inst()->0.order == pkg.cand()->0.order;
                match #[trigger] r.0@[i] {
                    Step::Remove(p) => *p == *pkg && remove && pkg.inst() is Some,
                    Step::Install(p) => *p == *pkg && !remove && pkg.cand() is Some && !current,
                    Step::Skip(_) => if remove {
                        pkg.inst() is None
                    } else {
                        pkg.cand() is Some && current
                    },
                }
            },
{
    let n = r.0@.len() as int;
    assert forall|i: int| 0 <= i < n implies step_for(
        *config,
        *(#[trigger] found@[i]).pkg,
        found@[i].modifier,
    ) is Ok by {}
    assert forall|i: int| 0 <= i < n implies (#[trigger] r.0@[i])@ == step_for(
        *config,
        *found@[i].pkg,
        found@[i].modifier,
    )->Ok_0 by {
        lemma_steps_at(*config, found@, n, i);
        assert(step_texts(r.0@)[i] == r.0@[i]@);
        assert(is_handled(found@[i].modifier));
    }
    if r.1 is None {
        assert forall|i: int| 0 <= i < found@.len() implies (#[trigger] found@[i]).modifier == Some(
            Operation::Remove,
        ) || found@[i].pkg.cand() is Some by {
            assert(step_for(*config, *found@[i].pkg, found@[i].modifier) is Ok);
        }
    } else {
        assert(is_handled(found@[n].modifier));
    }
}

proof fn lemma_steps_at<'a>(config: Config, found: Seq<FoundPackage<'a>>, n: int, i: int)
    requires
        0 <= i < n,
    ensures
        steps_to(config, found, n).len() == n,
        steps_to(config, found, n)[i] == step_for(config, *found[i].pkg, found[i].modifier)->Ok_0,
    decreases n,
{
    if i < n - 1 {
        lemma_steps_at(config, found, n - 1, i);
    } else if n > 1 {
        lemma_steps_at(config, found, n - 1, 0);
    } else {
        assert(steps_to(config, found, 0).len() == 0);
    }
}

/// An argument stands for an address if it begins like one, for a file if it
/// ends like one, and else for a package. Each group keeps the order of the
/// arguments.
pub proof fn law_arguments_by_kind(args: &Vec<String>, r: Arguments)
    requires
        call_ensures(sort_arguments, (args,), r),
    ensures
        texts(r.http_pkgs@) == args@.map_values(|a: String| a@).filter(
            |a: Seq<char>| has_prefix(a, "http"@),
        ),
        texts(r.deb_files@) == args@.map_values(|a: String| a@).filter(
            |a: Seq<char>| has_suffix(a, ".deb"@) && !has_prefix(a, "http"@),
        ),
        texts(r.cache_pkgs@) == args@.map_values(|a: String| a@).filter(
            |a: Seq<char>| !has_suffix(a, ".deb"@) && !has_prefix(a, "http"@),
        ),
{
    let n = args@.len() as int;
    let all = args@.map_values(|a: String| a@);
    lemma_of_kind(args@, Argument::Http, n, |a: Seq<char>| has_prefix(a, "http"@));
    lemma_of_kind(
        args@,
        Argument::Deb,
        n,
        |a: Seq<char>| has_suffix(a, ".deb"@) && !has_prefix(a, "http"@),
    );
    lemma_of_kind(
        args@,
        Argument::Cache,
        n,
        |a: Seq<char>| !has_suffix(a, ".deb"@) && !has_prefix(a, "http"@),
    );
    assert(all.take(n) =~= all);
}

proof fn lemma_of_kind(args: Seq<String>, kind: Argument, n: int, keep: spec_fn(Seq<char>) -> bool)
    requires
        0 <= n <= args.len(),
        forall|a: Seq<char>| #[trigger] keep(a) == (argument_kind(a) == kind),
    ensures
        of_kind(args, kind, n) == args.map_values(|a: String| a@).take(n).filter(keep),
    decreases n,
{
    let all = args.map_values(|a: String| a@);
    if n <= 0 {
        crate::seqs::lemma_filter_none(all, keep);
    } else {
        lemma_of_kind(args, kind, n - 1, keep);
        crate::seqs::lemma_filter_next(all, n - 1, keep);
    }
}

/// A package file stands for the first version of its package with the number
/// that the file names, and for no other.
pub proof fn law_selected_version<'a>(
    deb: &DebFile,
    pkg: &'a Package,
    r: Result<Option<Selected<'a>>, NalaError>,
)
    requires
        deb.wf(),
        call_ensures(select_deb, (deb, Some(pkg)), r),
    ensures
        ({
            let number = deb.tag.tag("Version"@)->0;
            match r {
                Ok(Some(selected)) => selected.pkg == pkg && exists|i: int|
                    0 <= i < pkg.versions@.len() && #[trigger] pkg.versions@[i]
                        == *selected.version && pkg.versions@[i].version@ == number && forall|
                        j: int,
                    |
                        0 <= j < i ==> (#[trigger] pkg.versions@[j]).version@ != number,
                Ok(None) => false,
                Err(_) => forall|j: int|
                    0 <= j < pkg.versions@.len() ==> (#[trigger] pkg.versions@[j]).version@
                        != number,
            }
        }),
{
    crate::glob::lemma_version_named(pkg.versions@, deb.tag.tag("Version"@)->0, 0);
    assert(pkg.versions@.skip(0) =~= pkg.versions@);
}

/// A file of installed packages comes from a package file on disk.
pub open spec fn is_local(file: crate::apt::PackageFile) -> bool {
    file.archive is Some && file.archive->0@ == "local-deb"@ && file.filename is Some
}

/// Of the packages that are installed from a package file on disk, and of no
/// others, the first such file is given, in order.
pub proof fn law_local_files(packages: &Vec<Package>, r: Vec<String>)
    requires
        call_ensures(system, (packages,), r),
    ensures
        texts(r@) == packages@.filter(
            |p: Package|
                p.inst() is Some && exists|i: int|
                    0 <= i < p.inst()->0.files@.len() && is_local(
                        (#[trigger] p.inst()->0.files@[i]).file,
                    ),
        ).map_values(|p: Package| first_local(p.inst()->0, 0)),
{
    let n = packages@.len() as int;
    let keep = |p: Package|
        p.inst() is Some && exists|i: int|
            0 <= i < p.inst()->0.files@.len() && is_local((#[trigger] p.inst()->0.files@[i]).file);
    let make = |p: Package| first_local(p.inst()->0, 0);
    lemma_local_files(packages@, n, keep, make);
    assert(packages@.take(n) =~= packages@);
}

/// The first file on disk among the files of a version from `i` on.
pub open spec fn first_local(ver: Version, i: int) -> Seq<char>
    decreases ver.files@.len() - i,
{
    if i < 0 || i >= ver.files@.len() {
        Seq::empty()
    } else if is_local(ver.files@[i].file) {
        ver.files@[i].file.filename->0@
    } else {
        first_local(ver, i + 1)
    }
}

proof fn lemma_first_local(ver: Version, i: int)
    requires
        0 <= i <= ver.files@.len(),
        local_file(ver, i) is None,
    ensures
        match local_file(ver, ver.files@.len() as int) {
            Some(file) => file == first_local(ver, i) && exists|k: int|
                i <= k < ver.files@.len() && is_local((#[trigger] ver.files@[k]).file),
            None => forall|k: int|
                i <= k < ver.files@.len() ==> !is_local((#[trigger] ver.files@[k]).file),
        },
    decreases ver.files@.len() - i,
{
    if i < ver.files@.len() {
        let file = ver.files@[i].file;
        if is_local(file) {
            assert(local_file(ver, i + 1) == Some(file.filename->0@));
            lemma_local_file(ver, i + 1, ver.files@.len() as int);
            assert(is_local(ver.files@[i].file));
        } else {
            assert(local_file(ver, i + 1) is None);
            lemma_first_local(ver, i + 1);
        }
    }
}

proof fn lemma_local_files(
    packages: Seq<Package>,
    n: int,
    keep: spec_fn(Package) -> bool,
    make: spec_fn(Package) -> Seq<char>,
)
    requires
        0 <= n <= packages.len(),
        forall|p: Package|
            #[trigger] keep(p) == (p.inst() is Some && exists|i: int|
                0 <= i < p.inst()->0.files@.len() && is_local(
                    (#[trigger] p.inst()->0.files@[i]).file,
                )),
        forall|p: Package| #[trigger] make(p) == first_local(p.inst()->0, 0),
    ensures
        local_files(packages, n) == packages.take(n).filter(keep).map_values(make),
    decreases n,
{
    if n <= 0 {
        crate::seqs::lemma_made_none(packages, keep, make);
    } else {
        lemma_local_files(packages, n - 1, keep, make);
        crate::seqs::lemma_made_next(packages, n - 1, keep, make);
        let p = packages[n - 1];
        if p.inst() is Some {
            lemma_first_local(p.inst()->0, 0);
        }
        assert(keep(p) == (p.inst() is Some && local_file(
            p.inst()->0,
            p.inst()->0.files@.len() as int,
        ) is Some));
    }
}

/// The user is told which package stands for which file.
pub proof fn law_selecting_notice(deb: &DebFile, pkg: &Package, r: String)
    requires
        call_ensures(selecting_notice, (deb, pkg), r),
    ensures
        r@ == "Selecting Package '"@ + pkg.name@ + "' instead of '"@ + deb.path@ + "'"@,
{
}

} // verus!

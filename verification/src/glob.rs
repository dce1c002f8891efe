//! Finding the packages that the command line names.
use vstd::prelude::*;
use crate::apt::{Package, Version};
use crate::cmd::Operation;
use crate::config::{colored, flag, Config, Theme};
use crate::downloader::stderr_line;
use crate::error::{fails_with, NalaError};
use crate::history::HistoryEntry;
use crate::pattern::{glob_accepts, glob_error, regex_complaint, regex_match, GlobPattern, Pattern};
use crate::seqs::{lemma_places_next, places_to};
use crate::sort::{sort, stably_sorted, Ranked};
use crate::text::{
    contains_text, first_at, has_suffix, has_text, lemma_text_le_total, lemma_text_le_transitive,
    push_text, split_once, str_eq, str_le, strip_suffix, text_le, text_opt, texts,
};

verus! {

/// What decides whether a name is meant.
#[derive(Debug)]
pub enum Matcher {
    Glob(GlobPattern),
    Regex(Pattern),
}

/// A name is meant by a matcher.
pub open spec fn means(matcher: Matcher, name: Seq<char>) -> bool {
    match matcher {
        Matcher::Glob(glob) => glob_accepts(glob@, name),
        Matcher::Regex(regex) => regex_match(regex@, name) is Some,
    }
}

/// A package that was found for an argument.
#[derive(Debug)]
pub struct FoundPackage<'a> {
    pub pkg: &'a Package,
    /// The version that was selected.
    pub version: &'a Version,
    pub modifier: Option<Operation>,
}

/// An argument of the command line that names packages.
#[derive(Debug)]
pub struct CliPackage<'a> {
    pub name: String,
    pub version: Option<String>,
    pub modifier: Option<Operation>,
    pub matcher: Matcher,
    pub pkgs: Vec<FoundPackage<'a>>,
}

/// The arguments of the command line that name packages.
#[derive(Debug)]
pub struct CliPackages<'a> {
    pub list: Vec<CliPackage<'a>>,
}

/// What stands against the packages that were asked for: the lines that name
/// those that were not found, and the error.
#[derive(Debug)]
pub struct GlobError {
    pub lines: Vec<String>,
    pub error: NalaError,
}

/// The failure shows `message` and no other line.
pub open spec fn bare_failure<T>(r: Result<T, GlobError>, message: Seq<char>) -> bool {
    r is Err && r->Err_0.error.message@ == message && r->Err_0.lines@.len() == 0
}

fn bare(error: NalaError) -> (r: GlobError)
    ensures
        r.error == error,
        r.lines@.len() == 0,
{
    GlobError { lines: Vec::new(), error }
}

impl<'a> FoundPackage<'a> {
    /// A package that was found for an argument.
    pub fn new(pkg: &'a Package, version: &'a Version, modifier: Option<Operation>) -> (r: FoundPackage<
        'a,
    >)
        ensures
            r.pkg == pkg,
            r.version == version,
            r.modifier == modifier,
    {
        FoundPackage { pkg, version, modifier }
    }
}

/// The first version with a number.
pub open spec fn version_named(versions: Seq<Version>, number: Seq<char>) -> Option<Version>
    decreases versions.len(),
{
    if versions.len() == 0 {
        None
    } else if versions[0].version@ == number {
        Some(versions[0])
    } else {
        version_named(versions.skip(1), number)
    }
}

/// The first version of a package with a number.
pub fn find_version<'a>(pkg: &'a Package, number: &str) -> (r: Option<&'a Version>)
    ensures
        match r {
            Some(v) => version_named(pkg.versions@, number@) == Some(*v),
            None => version_named(pkg.versions@, number@) is None,
        },
{
    let versions = &pkg.versions;
    let mut i: usize = 0;
    assert(versions@.skip(0) =~= versions@);
    while i < versions.len()
        invariant
            i <= versions@.len(),
            versions == pkg.versions,
            version_named(versions@.skip(i as int), number@) == version_named(versions@, number@),
        decreases versions@.len() - i,
    {
        if str_eq(versions[i].version.as_str(), number) {
            return Some(&versions[i]);
        }
        assert(versions@.skip(i as int).skip(1) =~= versions@.skip(i + 1));
        i = i + 1;
    }
    None
}

/// The version of a package that an argument asks for: the one that it names,
/// else the first. Where there is none, what is said about that.
pub open spec fn asked_version(version: Option<Seq<char>>, pkg: Package) -> Result<Version, Seq<char>> {
    match version {
        Some(number) => match version_named(pkg.versions@, number) {
            Some(v) => Ok(v),
            None => Err("Unable to find version '"@ + number + "' for '"@ + pkg.name@ + "'"@),
        },
        None => if pkg.versions@.len() > 0 {
            Ok(pkg.versions@[0])
        } else {
            Err("Unable to find any versions for '"@ + pkg.name@ + "'"@)
        },
    }
}

impl<'a> CliPackage<'a> {
    /// An argument that is a glob.
    pub fn new_glob(name: String) -> (r: Result<CliPackage<'a>, NalaError>)
        ensures
            match glob_error(name@) {
                Some(message) => fails_with(r, message),
                None => r is Ok && is_fresh(r->Ok_0, name@) && r->Ok_0.matcher is Glob
                    && r->Ok_0.matcher->Glob_0@ == name@,
            },
    {
        match GlobPattern::new(name.as_str()) {
            Ok(glob) => Ok(CliPackage::new(name, Matcher::Glob(glob))),
            Err(e) => Err(e),
        }
    }

    /// An argument that is a regular expression.
    pub fn new_regex(name: String) -> (r: Result<CliPackage<'a>, NalaError>)
        ensures
            match regex_complaint(name@) {
                Some(message) => fails_with(r, message),
                None => r is Ok && is_fresh(r->Ok_0, name@) && r->Ok_0.matcher is Regex
                    && r->Ok_0.matcher->Regex_0@ == name@,
            },
    {
        match Pattern::new(name.as_str()) {
            Ok(regex) => Ok(CliPackage::new(name, Matcher::Regex(regex))),
            Err(e) => Err(e),
        }
    }

    /// An argument for which nothing was found yet.
    pub fn new(name: String, matcher: Matcher) -> (r: CliPackage<'a>)
        ensures
            r.name == name,
            r.version is None,
            r.modifier is None,
            r.matcher == matcher,
            r.pkgs@ == Seq::<FoundPackage<'a>>::empty(),
    {
        CliPackage { name, version: None, modifier: None, matcher, pkgs: Vec::new() }
    }

    /// The argument with a modifier.
    pub fn modifier(self, value: Option<Operation>) -> (r: CliPackage<'a>)
        ensures
            r == (CliPackage { modifier: value, ..self }),
    {
        CliPackage {
            name: self.name,
            version: self.version,
            modifier: value,
            matcher: self.matcher,
            pkgs: self.pkgs,
        }
    }

    /// The argument with a package that was found for it.
    pub fn with_pkg(self, pkg: &'a Package, ver: &'a Version) -> (r: CliPackage<'a>)
        ensures
            same_argument(self, r),
            r.pkgs@ == self.pkgs@.push(
                (FoundPackage { pkg: pkg, version: ver, modifier: None }),
            ),
    {
        let mut r = self;
        r.add_no_op(pkg, ver);
        r
    }

    /// Adds a package that was found.
    pub fn add_pkg(&mut self, pkg: &'a Package, ver: &'a Version, op: Option<Operation>)
        ensures
            same_argument(*old(self), *final(self)),
            final(self).pkgs@ == old(self).pkgs@.push(
                (FoundPackage { pkg: pkg, version: ver, modifier: op }),
            ),
    {
        self.pkgs.push(FoundPackage::new(pkg, ver, op));
    }

    /// Adds a package that was found, without a modifier.
    pub fn add_no_op(&mut self, pkg: &'a Package, version: &'a Version)
        ensures
            same_argument(*old(self), *final(self)),
            final(self).pkgs@ == old(self).pkgs@.push(
                (FoundPackage { pkg: pkg, version: version, modifier: None }),
            ),
    {
        self.add_pkg(pkg, version, None);
    }

    /// Sets the version that is asked for.
    pub fn set_ver(&mut self, ver_str: String)
        ensures
            *final(self) == (CliPackage { version: Some(ver_str), ..*old(self) }),
    {
        self.version = Some(ver_str);
    }

    /// The version of a package that the argument asks for.
    pub fn get_version(&self, pkg: &'a Package) -> (r: Result<&'a Version, NalaError>)
        ensures
            match asked_version(text_opt(self.version), *pkg) {
                Ok(v) => r is Ok && *r->Ok_0 == v,
                Err(message) => fails_with(r, message),
            },
    {
        if let Some(ver_str) = &self.version {
            if let Some(ver) = find_version(pkg, ver_str.as_str()) {
                return Ok(ver);
            }
            let mut message = "Unable to find version '".to_owned();
            message.append(ver_str.as_str());
            message.append("' for '");
            message.append(pkg.name.as_str());
            message.append("'");
            return Err(NalaError::from_string(message));
        }
        if pkg.versions.len() > 0 {
            return Ok(&pkg.versions[0]);
        }
        let mut message = "Unable to find any versions for '".to_owned();
        message.append(pkg.name.as_str());
        message.append("'");
        Err(NalaError::from_string(message))
    }

    /// Whether the argument means a name.
    pub fn is_match(&self, other: &str) -> (r: bool)
        ensures
            r == means(self.matcher, other@),
    {
        match &self.matcher {
            Matcher::Glob(glob) => glob.is_match(other),
            Matcher::Regex(regex) => regex.is_match(other),
        }
    }
}

/// An argument for which nothing is known but its name.
pub open spec fn is_fresh<'a>(cli: CliPackage<'a>, name: Seq<char>) -> bool {
    &&& cli.name@ == name
    &&& cli.version is None
    &&& cli.modifier is None
    &&& cli.pkgs@.len() == 0
}

/// The two arguments differ at most in the packages that were found.
pub open spec fn same_argument<'a>(a: CliPackage<'a>, b: CliPackage<'a>) -> bool {
    &&& a.name == b.name
    &&& a.version == b.version
    &&& a.modifier == b.modifier
    &&& a.matcher == b.matcher
}

/// The first argument that means a name.
pub open spec fn argument_for<'a>(list: Seq<CliPackage<'a>>, name: Seq<char>) -> Option<int>
    decreases list.len(),
{
    if list.len() == 0 {
        None
    } else {
        match argument_for(list.drop_last(), name) {
            Some(i) => Some(i),
            None => if means(list.last().matcher, name) {
                Some(list.len() - 1)
            } else {
                None
            },
        }
    }
}

/// The packages that were found for the first `n` arguments.
pub open spec fn found_packages<'a>(list: Seq<CliPackage<'a>>, n: int) -> Seq<FoundPackage<'a>>
    decreases n,
{
    if n <= 0 {
        Seq::empty()
    } else {
        found_packages(list, n - 1) + list[n - 1].pkgs@
    }
}

/// The arguments among the first `n` for which nothing was found.
pub open spec fn missing_lines<'a>(config: Config, list: Seq<CliPackage<'a>>, n: int) -> Seq<Seq<char>>
    decreases n,
{
    if n <= 0 {
        Seq::empty()
    } else {
        let before = missing_lines(config, list, n - 1);
        if list[n - 1].pkgs@.len() == 0 {
            before.push(
                stderr_line(
                    config,
                    Theme::Error,
                    "'"@ + colored(config, Theme::Notice, list[n - 1].name@) + "' was not found"@,
                ),
            )
        } else {
            before
        }
    }
}

/// The name of the first package that was found for an argument.
pub open spec fn sort_name<'a>(cli: CliPackage<'a>) -> Seq<char> {
    if cli.pkgs@.len() > 0 {
        cli.pkgs@[0].pkg.name@
    } else {
        Seq::empty()
    }
}

impl<'a> Ranked for CliPackage<'a> {
    /// The argument whose first package has the smaller name ranks first.
    open spec fn le(self, other: CliPackage<'a>) -> bool {
        text_le(sort_name(self), sort_name(other))
    }

    proof fn total(a: CliPackage<'a>, b: CliPackage<'a>) {
        lemma_text_le_total(sort_name(a), sort_name(b));
    }

    proof fn transitive(a: CliPackage<'a>, b: CliPackage<'a>, c: CliPackage<'a>) {
        lemma_text_le_transitive(sort_name(a), sort_name(b), sort_name(c));
    }

    fn not_after(&self, other: &CliPackage<'a>) -> (r: bool) {
        let a = if self.pkgs.len() > 0 {
            self.pkgs[0].pkg.name.clone()
        } else {
            String::new()
        };
        let b = if other.pkgs.len() > 0 {
            other.pkgs[0].pkg.name.clone()
        } else {
            String::new()
        };
        assert(a@ =~= sort_name(*self));
        assert(b@ =~= sort_name(*other));
        str_le(a.as_str(), b.as_str())
    }
}

impl<'a> CliPackages<'a> {
    /// No arguments.
    pub fn new() -> (r: CliPackages<'a>)
        ensures
            r.list@ == Seq::<CliPackage<'a>>::empty(),
    {
        CliPackages { list: Vec::new() }
    }

    /// The place of the first argument that means a name.
    fn position(&self, haystack: &str) -> (r: Option<usize>)
        ensures
            match r {
                Some(i) => argument_for(self.list@, haystack@) == Some(i as int) && i
                    < self.list@.len(),
                None => argument_for(self.list@, haystack@) is None,
            },
    {
        let list = &self.list;
        let mut i: usize = 0;
        assert(list@.take(0) =~= Seq::empty());
        while i < list.len()
            invariant
                i <= list@.len(),
                list == self.list,
                argument_for(list@.take(i as int), haystack@) is None,
            decreases list@.len() - i,
        {
            assert(list@.take(i + 1).drop_last() =~= list@.take(i as int));
            if list[i].is_match(haystack) {
                proof {
                    lemma_argument_prefix(list@, i + 1, haystack@);
                }
                return Some(i);
            }
            i = i + 1;
        }
        assert(list@.take(i as int) =~= list@);
        None
    }

    /// The first argument that means a name.
    pub fn find_mut(&mut self, haystack: &str) -> (r: Option<&mut CliPackage<'a>>)
        ensures
            match r {
                Some(cli) => {
                    let i = argument_for(old(self).list@, haystack@)->0;
                    &&& argument_for(old(self).list@, haystack@) is Some
                    &&& 0 <= i < old(self).list@.len()
                    &&& *cli == old(self).list@[i]
                    &&& final(self).list@ == old(self).list@.update(i, *final(cli))
                },
                None => argument_for(old(self).list@, haystack@) is None && *final(self) == *old(
                    self,
                ),
            },
    {
        match self.position(haystack) {
            Some(i) => Some(&mut self.list[i]),
            None => None,
        }
    }

    /// Adds an argument.
    pub fn push(&mut self, cli: CliPackage<'a>)
        ensures
            final(self).list@ == old(self).list@.push(cli),
    {
        self.list.push(cli);
    }

    /// Sorts the arguments by the names of the first packages that were found
    /// for them.
    pub fn sort_by_name(&mut self)
        requires
            forall|i: int|
                0 <= i < old(self).list@.len() ==> (#[trigger] old(self).list@[i]).pkgs@.len() > 0,
        ensures
            stably_sorted(old(self).list@, final(self).list@),
    {
        let mut list: Vec<CliPackage<'a>> = Vec::new();
        std::mem::swap(&mut list, &mut self.list);
        self.list = sort(list);
    }

    /// The packages that were found.
    pub fn only_pkgs(&self) -> (r: Vec<&'a Package>)
        ensures
            r@ == Seq::new(
                found_packages(self.list@, self.list@.len() as int).len(),
                |i: int| found_packages(self.list@, self.list@.len() as int)[i].pkg,
            ),
    {
        let found = self.found_as_ref();
        let mut r: Vec<&'a Package> = Vec::new();
        let mut i: usize = 0;
        while i < found.len()
            invariant
                i <= found@.len(),
                r@ == Seq::new(i as nat, |k: int| found@[k].pkg),
            decreases found@.len() - i,
        {
            r.push(found[i].pkg);
            assert(r@ =~= Seq::new((i + 1) as nat, |k: int| found@[k].pkg));
            i = i + 1;
        }
        let ghost all = found_packages(self.list@, self.list@.len() as int);
        assert(r@ =~= Seq::new(all.len(), |k: int| all[k].pkg));
        r
    }

    /// What was found, in the order of the arguments.
    pub fn found(self) -> (r: Vec<FoundPackage<'a>>)
        ensures
            r@ == found_packages(self.list@, self.list@.len() as int),
    {
        let ghost all = self.list@;
        let mut r: Vec<FoundPackage<'a>> = Vec::new();
        for cli in it: self.list
            invariant
                it.seq() == all,
                r@ == found_packages(all, it.index() as int),
        {
            let mut pkgs = cli.pkgs;
            r.append(&mut pkgs);
        }
        r
    }

    /// What was found, in the order of the arguments.
    pub fn found_as_ref(&self) -> (r: Vec<&FoundPackage<'a>>)
        ensures
            r@.len() == found_packages(self.list@, self.list@.len() as int).len(),
            forall|i: int|
                0 <= i < r@.len() ==> *(#[trigger] r@[i]) == found_packages(
                    self.list@,
                    self.list@.len() as int,
                )[i],
    {
        let mut r: Vec<&FoundPackage<'a>> = Vec::new();
        let mut i: usize = 0;
        while i < self.list.len()
            invariant
                i <= self.list@.len(),
                r@.len() == found_packages(self.list@, i as int).len(),
                forall|k: int|
                    0 <= k < r@.len() ==> *(#[trigger] r@[k]) == found_packages(
                        self.list@,
                        i as int,
                    )[k],
            decreases self.list@.len() - i,
        {
            let pkgs = &self.list[i].pkgs;
            let ghost before = found_packages(self.list@, i as int);
            let ghost after = found_packages(self.list@, i + 1);
            let mut j: usize = 0;
            while j < pkgs.len()
                invariant
                    i < self.list@.len(),
                    j <= pkgs@.len(),
                    *pkgs == self.list@[i as int].pkgs,
                    before == found_packages(self.list@, i as int),
                    after == before + pkgs@,
                    r@.len() == before.len() + j,
                    forall|k: int| 0 <= k < r@.len() ==> *(#[trigger] r@[k]) == after[k],
                decreases pkgs@.len() - j,
            {
                r.push(&pkgs[j]);
                j = j + 1;
            }
            i = i + 1;
        }
        r
    }

    /// Fails where nothing was found for an argument. The lines name each such
    /// argument.
    pub fn check_not_found(&self, config: &Config) -> (r: Result<(), GlobError>)
        ensures
            ({
                let lines = missing_lines(*config, self.list@, self.list@.len() as int);
                if lines.len() == 0 {
                    r is Ok
                } else {
                    &&& r is Err
                    &&& texts(r->Err_0.lines@) == lines
                    &&& r->Err_0.error.message@ == "Some packages were not found in the cache"@
                }
            }),
            r is Ok <==> forall|i: int|
                0 <= i < self.list@.len() ==> (#[trigger] self.list@[i]).pkgs@.len() > 0,
    {
        let mut lines: Vec<String> = Vec::new();
        let mut i: usize = 0;
        assert(texts(lines@) =~= Seq::empty());
        while i < self.list.len()
            invariant
                i <= self.list@.len(),
                texts(lines@) == missing_lines(*config, self.list@, i as int),
                lines@.len() == 0 <==> forall|k: int|
                    0 <= k < i ==> (#[trigger] self.list@[k]).pkgs@.len() > 0,
            decreases self.list@.len() - i,
        {
            if self.list[i].pkgs.len() == 0 {
                let mut text = "'".to_owned();
                text.append(config.color(Theme::Notice, self.list[i].name.as_str()).as_str());
                text.append("' was not found");
                push_text(&mut lines, config.stderr(Theme::Error, text.as_str()));
                assert(self.list@[i as int].pkgs@.len() == 0);
            }
            i = i + 1;
        }
        assert(texts(lines@).len() == lines@.len());
        if lines.len() > 0 {
            return Err(
                GlobError {
                    lines,
                    error: NalaError::new("Some packages were not found in the cache"),
                },
            );
        }
        Ok(())
    }
}

proof fn lemma_argument_prefix<'a>(list: Seq<CliPackage<'a>>, n: int, name: Seq<char>)
    requires
        0 <= n <= list.len(),
        argument_for(list.take(n), name) is Some,
    ensures
        argument_for(list, name) == argument_for(list.take(n), name),
    decreases list.len() - n,
{
    if n == list.len() {
        assert(list.take(n) =~= list);
    } else {
        assert(list.take(n + 1).drop_last() =~= list.take(n));
        lemma_argument_prefix(list, n + 1, name);
    }
}

/// The name in an argument: what stands before the first equals sign.
pub open spec fn name_part(s: Seq<char>) -> Seq<char> {
    match crate::text::find_text(s, "="@) {
        Some(i) => s.take(i),
        None => s,
    }
}

/// The version in an argument: what stands after the first equals sign.
pub open spec fn version_part(s: Seq<char>) -> Option<Seq<char>> {
    match crate::text::find_text(s, "="@) {
        Some(i) => Some(s.skip(i + "="@.len())),
        None => None,
    }
}

/// The name and the version in an argument.
pub fn split_version(cli_str: String) -> (r: (String, Option<String>))
    ensures
        r.0@ == name_part(cli_str@),
        text_opt(r.1) == version_part(cli_str@),
        match r.1 {
            Some(version) => cli_str@ == r.0@ + "="@ + version@ && !has_text(r.0@, "="@),
            None => r.0 == cli_str && !has_text(cli_str@, "="@),
        },
{
    match split_once(cli_str.as_str(), "=") {
        Some((name, version)) => {
            proof {
                let s = cli_str@;
                let i = name@.len() as int;
                crate::text::lemma_find_text(s, "="@, i);
                assert(name@ =~= s.take(i));
                assert(version@ =~= s.skip(i + "="@.len()));
                assert forall|k: int| !crate::text::occurs_at(name@, "="@, k) by {
                    if crate::text::occurs_at(name@, "="@, k) {
                        reveal_strlit("=");
                        assert(s.subrange(k, k + "="@.len()) =~= name@.subrange(k, k + "="@.len()));
                        assert(crate::text::occurs_at(s, "="@, k));
                    }
                }
            }
            (name, Some(version))
        },
        None => {
            assert forall|k: int| !first_at(cli_str@, "="@, k) by {}
            (cli_str, None)
        },
    }
}

/// Which packages a list is made of.
#[derive(Debug, Clone, Copy, PartialEq, Eq, Structural)]
pub struct Sorter {
    pub installed: bool,
    pub upgradable: bool,
    pub only_virtual: bool,
}

/// Which packages are asked for.
pub fn get_sorter(config: &Config) -> (r: Sorter)
    ensures
        r.installed == flag(*config, "installed"@, false),
        r.upgradable == flag(*config, "upgradable"@, false),
        r.only_virtual == flag(*config, "virtual"@, false),
{
    Sorter {
        installed: config.get_bool("installed", false),
        upgradable: config.get_bool("upgradable", false),
        only_virtual: config.get_bool("virtual", false),
    }
}

/// An argument of a transaction names a package: as it stands, or without a
/// version and without a modifier that does not remove.
pub open spec fn names_package(arg: Seq<char>, name: Seq<char>) -> bool {
    ||| arg == name
    ||| stripped(arg).1 != Some(Operation::Remove) && name_part(stripped(arg).0) == name
}

/// The user named a package in a transaction that installed it.
pub open spec fn named_and_installed(entry: HistoryEntry, name: Seq<char>) -> bool {
    &&& exists|i: int|
        0 <= i < entry.explicit@.len() && names_package(#[trigger] entry.explicit@[i]@, name)
    &&& entry.operation == Operation::Install || exists|k: int|
        0 <= k < entry.packages@.len() && (#[trigger] entry.packages@[k]).name@ == name
            && entry.packages@[k].operation == Operation::Install
}

/// A package that is installed, and that the user named in a transaction that
/// installed it.
pub open spec fn explicitly_installed(pkg: Package, history: Seq<HistoryEntry>) -> bool {
    pkg.installed is Some && exists|i: int|
        0 <= i < history.len() && named_and_installed(#[trigger] history[i], pkg.name@)
}

fn is_named_in(entry: &HistoryEntry, name: &str) -> (r: bool)
    ensures
        r == named_and_installed(*entry, name@),
{
    let mut named = false;
    let mut i: usize = 0;
    while i < entry.explicit.len()
        invariant
            i <= entry.explicit@.len(),
            named == exists|j: int|
                0 <= j < i && names_package(#[trigger] entry.explicit@[j]@, name@),
        decreases entry.explicit@.len() - i,
    {
        let arg = entry.explicit[i].as_str();
        let (rest, modifier) = strip_modifier(arg);
        let removes = match modifier {
            Some(Operation::Remove) => true,
            _ => false,
        };
        let short = split_version(rest).0;
        let this = str_eq(arg, name) || !removes && str_eq(short.as_str(), name);
        assert(this == names_package(entry.explicit@[i as int]@, name@));
        named = named || this;
        i = i + 1;
    }
    let mut installs = entry.operation == Operation::Install;
    let mut k: usize = 0;
    while k < entry.packages.len()
        invariant
            k <= entry.packages@.len(),
            installs == (entry.operation == Operation::Install || exists|j: int|
                0 <= j < k && (#[trigger] entry.packages@[j]).name@ == name@
                    && entry.packages@[j].operation == Operation::Install),
        decreases entry.packages@.len() - k,
    {
        let pkg = &entry.packages[k];
        assert(*pkg == entry.packages@[k as int]);
        if str_eq(pkg.name.as_str(), name) && pkg.operation == Operation::Install {
            installs = true;
        }
        k = k + 1;
    }
    named && installs
}

fn is_explicit(pkg: &Package, history: &Vec<HistoryEntry>) -> (r: bool)
    ensures
        r == explicitly_installed(*pkg, history@),
{
    if pkg.installed.is_none() {
        return false;
    }
    let mut i: usize = 0;
    while i < history.len()
        invariant
            i <= history@.len(),
            pkg.installed is Some,
            forall|k: int|
                0 <= k < i ==> !named_and_installed(#[trigger] history@[k], pkg.name@),
        decreases history@.len() - i,
    {
        if is_named_in(&history[i], pkg.name.as_str()) {
            assert(named_and_installed(history@[i as int], pkg.name@));
            return true;
        }
        i = i + 1;
    }
    false
}

/// The packages that a list is made of: where that is asked for, only those
/// that were explicitly installed, in their order.
pub fn nala_installed(config: &Config, packages: Vec<Package>, history: &Vec<HistoryEntry>) -> (r:
    Vec<Package>)
    ensures
        r@ == if flag(*config, "nala_installed"@, false) {
            packages@.filter(|pkg: Package| explicitly_installed(pkg, history@))
        } else {
            packages@
        },
{
    if !config.get_bool("nala_installed", false) {
        return packages;
    }
    let ghost all = packages@;
    let ghost keep = |pkg: Package| explicitly_installed(pkg, history@);
    let mut r: Vec<Package> = Vec::new();
    proof {
        reveal(Seq::filter);
        assert(r@ =~= all.take(0).filter(keep));
    }
    for pkg in it: packages
        invariant
            it.seq() == all,
            keep == |pkg: Package| explicitly_installed(pkg, history@),
            r@ == all.take(it.index() as int).filter(keep),
    {
        proof {
            reveal(Seq::filter);
            assert(all.take(it.index() + 1).drop_last() =~= all.take(it.index() as int));
            assert(all.take(it.index() + 1).last() == pkg);
        }
        if is_explicit(&pkg, history) {
            r.push(pkg);
        }
    }
    assert(all.take(all.len() as int) =~= all);
    r
}

/// An argument without the modifier at its end, and the modifier: a minus
/// removes, a plus installs. The plus may stand before the minus, and then
/// decides.
pub open spec fn stripped(arg: Seq<char>) -> (Seq<char>, Option<Operation>) {
    let (rest, remove) = if has_suffix(arg, "-"@) {
        (arg.take(arg.len() - "-"@.len()), Some(Operation::Remove))
    } else {
        (arg, None)
    };
    if has_suffix(rest, "+"@) {
        (rest.take(rest.len() - "+"@.len()), Some(Operation::Install))
    } else {
        (rest, remove)
    }
}

/// An argument without the modifier at its end, and the modifier.
pub fn strip_modifier(arg: &str) -> (r: (String, Option<Operation>))
    ensures
        r.0@ == stripped(arg@).0,
        r.1 == stripped(arg@).1,
{
    let mut pkg = arg.to_owned();
    let mut modifier: Option<Operation> = None;
    if let Some(rest) = strip_suffix(pkg.as_str(), "-") {
        pkg = rest;
        modifier = Some(Operation::Remove);
    }
    if let Some(rest) = strip_suffix(pkg.as_str(), "+") {
        pkg = rest;
        modifier = Some(Operation::Install);
    }
    (pkg, modifier)
}

/// An argument of the command line was read: its name is a glob, and nothing
/// was found for it yet.
pub open spec fn reads<'a>(cli: CliPackage<'a>, arg: Seq<char>) -> bool {
    &&& cli.name@ == name_part(stripped(arg).0)
    &&& text_opt(cli.version) == version_part(stripped(arg).0)
    &&& cli.modifier == stripped(arg).1
    &&& cli.matcher is Glob
    &&& cli.matcher->Glob_0@ == name_part(stripped(arg).0)
    &&& cli.pkgs@.len() == 0
}

/// What is said against the first of the arguments that is no glob.
pub open spec fn first_glob_error(args: Seq<String>) -> Option<Seq<char>>
    decreases args.len(),
{
    if args.len() == 0 {
        None
    } else {
        match glob_error(name_part(stripped(args[0]@).0)) {
            Some(message) => Some(message),
            None => first_glob_error(args.skip(1)),
        }
    }
}

/// Reads the arguments of the command line.
pub fn read_globs<'a>(args: &Vec<String>) -> (r: Result<CliPackages<'a>, NalaError>)
    ensures
        match first_glob_error(args@) {
            Some(message) => fails_with(r, message),
            None => r is Ok && r->Ok_0.list@.len() == args@.len() && forall|i: int|
                0 <= i < args@.len() ==> reads(#[trigger] r->Ok_0.list@[i], args@[i]@),
        },
{
    let mut globs: CliPackages<'a> = CliPackages::new();
    let mut i: usize = 0;
    assert(args@.skip(0) =~= args@);
    while i < args.len()
        invariant
            i <= args@.len(),
            first_glob_error(args@.skip(i as int)) == first_glob_error(args@),
            globs.list@.len() == i,
            forall|k: int| 0 <= k < i ==> reads(#[trigger] globs.list@[k], args@[k]@),
        decreases args@.len() - i,
    {
        let (pkg, modifier) = strip_modifier(args[i].as_str());
        let (name, version) = split_version(pkg);
        let mut glob = match CliPackage::new_glob(name) {
            Ok(glob) => glob.modifier(modifier),
            Err(e) => {
                return Err(e);
            },
        };
        if let Some(ver_str) = version {
            glob.set_ver(ver_str);
        }
        assert(reads(glob, args@[i as int]@));
        let ghost before = globs.list@;
        globs.push(glob);
        assert forall|k: int| 0 <= k < i + 1 implies reads(
            #[trigger] globs.list@[k],
            args@[k]@,
        ) by {
            if k < i {
                assert(globs.list@[k] == before[k]);
            }
        }
        assert(args@.skip(i as int).skip(1) =~= args@.skip(i + 1));
        i = i + 1;
    }
    assert(args@.skip(i as int) =~= Seq::empty());
    Ok(globs)
}

/// A package is of one of the architectures.
pub open spec fn has_arch(pkg: Package, arches: Seq<String>) -> bool {
    texts(arches).contains(pkg.arch@)
}

/// The argument that takes a package: the first that means its name, where its
/// architecture is one of ours.
pub open spec fn taker<'a>(list: Seq<CliPackage<'a>>, arches: Seq<String>, pkg: Package) -> Option<int> {
    if has_arch(pkg, arches) {
        argument_for(list, pkg.name@)
    } else {
        None
    }
}

/// The place of the argument that takes each of the packages.
pub open spec fn takers<'a>(
    list: Seq<CliPackage<'a>>,
    arches: Seq<String>,
    packages: Seq<Package>,
) -> Seq<Option<usize>> {
    packages.map_values(|pkg: Package| as_place(taker(list, arches, pkg)))
}

/// A place as a machine number.
pub open spec fn as_place(place: Option<int>) -> Option<usize> {
    match place {
        Some(k) => Some(k as usize),
        None => None,
    }
}

/// Every place is that of an argument.
pub open spec fn places_of<'a>(takers: Seq<Option<usize>>, list: Seq<CliPackage<'a>>) -> bool {
    forall|i: int|
        0 <= i < takers.len() ==> ((#[trigger] takers[i]) is Some ==> takers[i]->0 < list.len())
}

/// What is said against the first of `n` packages that lacks the version that
/// is asked for.
pub open spec fn version_error<'a>(
    list: Seq<CliPackage<'a>>,
    takers: Seq<Option<usize>>,
    packages: Seq<Package>,
    n: int,
) -> Option<Seq<char>>
    decreases n,
{
    if n <= 0 {
        None
    } else {
        match version_error(list, takers, packages, n - 1) {
            Some(message) => Some(message),
            None => match takers[n - 1] {
                Some(k) => match asked_version(text_opt(list[k as int].version), packages[n - 1]) {
                    Ok(_) => None,
                    Err(message) => Some(message),
                },
                None => None,
            },
        }
    }
}

/// What is found for an argument among the first `n` packages.
pub open spec fn taken_by<'a>(
    list: Seq<CliPackage<'a>>,
    takers: Seq<Option<usize>>,
    packages: Seq<Package>,
    n: int,
    k: int,
) -> Seq<FoundPackage<'a>>
    decreases n,
{
    if n <= 0 {
        Seq::empty()
    } else {
        let before = taken_by(list, takers, packages, n - 1, k);
        if takers[n - 1] is Some && takers[n - 1]->0 == k {
            before.push(
                FoundPackage {
                    pkg: &packages[n - 1],
                    version: &asked_version(text_opt(list[k].version), packages[n - 1])->Ok_0,
                    modifier: list[k].modifier,
                },
            )
        } else {
            before
        }
    }
}

/// The arguments hold what is found for each of them.
pub open spec fn holds_found<'a>(
    list: Seq<CliPackage<'a>>,
    filled: Seq<CliPackage<'a>>,
    takers: Seq<Option<usize>>,
    packages: Seq<Package>,
    n: int,
) -> bool {
    filled.len() == list.len() && forall|k: int|
        0 <= k < filled.len() ==> same_argument(list[k], #[trigger] filled[k]) && filled[k].pkgs@
            == taken_by(list, takers, packages, n, k)
}

proof fn lemma_version_error<'a>(
    list: Seq<CliPackage<'a>>,
    takers: Seq<Option<usize>>,
    packages: Seq<Package>,
    i: int,
    n: int,
)
    requires
        i <= n,
        version_error(list, takers, packages, i) is Some,
    ensures
        version_error(list, takers, packages, n) == version_error(list, takers, packages, i),
    decreases n - i,
{
    if i < n {
        lemma_version_error(list, takers, packages, i, n - 1);
    }
}

/// Finds the argument that takes each of the packages.
pub fn find_takers<'a>(globs: &CliPackages<'a>, packages: &Vec<Package>, arches: &Vec<String>) -> (r:
    Vec<Option<usize>>)
    ensures
        r@ == takers(globs.list@, arches@, packages@),
        places_of(r@, globs.list@),
{
    let mut r: Vec<Option<usize>> = Vec::new();
    let mut i: usize = 0;
    while i < packages.len()
        invariant
            i <= packages@.len(),
            r@.len() == i,
            r@ == takers(globs.list@, arches@, packages@).take(i as int),
            places_of(r@, globs.list@),
        decreases packages@.len() - i,
    {
        let place = if contains_text(arches, packages[i].arch.as_str()) {
            globs.position(packages[i].name.as_str())
        } else {
            None
        };
        r.push(place);
        assert(r@ =~= takers(globs.list@, arches@, packages@).take(i + 1));
        i = i + 1;
    }
    assert(r@ =~= takers(globs.list@, arches@, packages@));
    r
}

/// Gives each package to the argument at its place, with the version that the
/// argument asks for. The first package that lacks it is the error.
#[verifier::loop_isolation(false)]
pub fn hand_out<'a>(globs: CliPackages<'a>, packages: &'a Vec<Package>, takers: &Vec<Option<usize>>) -> (r:
    Result<CliPackages<'a>, NalaError>)
    requires
        forall|k: int| 0 <= k < globs.list@.len() ==> (#[trigger] globs.list@[k]).pkgs@.len() == 0,
        takers@.len() == packages@.len(),
        places_of(takers@, globs.list@),
    ensures
        match version_error(globs.list@, takers@, packages@, packages@.len() as int) {
            Some(message) => fails_with(r, message),
            None => r is Ok && holds_found(
                globs.list@,
                r->Ok_0.list@,
                takers@,
                packages@,
                packages@.len() as int,
            ),
        },
{
    let ghost list = globs.list@;
    let mut globs = globs;
    let mut i: usize = 0;
    assert forall|k: int| 0 <= k < list.len() implies (#[trigger] list[k]).pkgs@ == taken_by(
        list,
        takers@,
        packages@,
        0,
        k,
    ) by {
        assert(list[k].pkgs@ =~= Seq::empty());
    }
    while i < packages.len()
        invariant
            i <= packages@.len(),
            version_error(list, takers@, packages@, i as int) is None,
            holds_found(list, globs.list@, takers@, packages@, i as int),
        decreases packages@.len() - i,
    {
        let pkg = &packages[i];
        let ghost before = globs.list@;
        if let Some(place) = takers[i] {
            assert(same_argument(list[place as int], before[place as int]));
            let cli = &mut globs.list[place];
            let version = match cli.get_version(pkg) {
                Ok(version) => version,
                Err(e) => {
                    proof {
                        lemma_version_error(
                            list,
                            takers@,
                            packages@,
                            i + 1,
                            packages@.len() as int,
                        );
                    }
                    return Err(e);
                },
            };
            let modifier = cli.modifier;
            cli.add_pkg(pkg, version, modifier);
        }
        proof {
            let after = globs.list@;
            assert forall|k: int| 0 <= k < after.len() implies same_argument(
                list[k],
                #[trigger] after[k],
            ) && after[k].pkgs@ == taken_by(list, takers@, packages@, i + 1, k) by {
                assert(same_argument(list[k], before[k]));
                assert(before[k].pkgs@ == taken_by(list, takers@, packages@, i as int, k));
            }
        }
        i = i + 1;
    }
    Ok(globs)
}

/// Finds the packages that the command line names, with the modifiers that it
/// gives them. `packages` are those that `get_sorter` asks for.
pub fn pkgs_with_modifiers<'a>(config: &Config, packages: &'a Vec<Package>) -> (r: Result<
    CliPackages<'a>,
    GlobError,
>)
    ensures
        if !config.vec_map@.dom().contains("pkg_names"@) {
            bare_failure(r, "At least one package name must be specified"@)
        } else {
            let args = config.vec_map@["pkg_names"@]@;
            match first_glob_error(args) {
                Some(message) => bare_failure(r, message),
                None => exists|list: Seq<CliPackage<'a>>|
                    #[trigger] found_for_args(*config, args, packages@, list, r),
            }
        },
{
    let names = match config.pkg_names() {
        Some(names) => names,
        None => {
            return Err(bare(NalaError::new("At least one package name must be specified")));
        },
    };
    let globs = match read_globs(names) {
        Ok(globs) => globs,
        Err(e) => {
            return Err(bare(e));
        },
    };
    let ghost list = globs.list@;
    let places = find_takers(&globs, packages, &config.apt.architectures);
    let mut found = match hand_out(globs, packages, &places) {
        Ok(found) => found,
        Err(e) => {
            let r = Err(bare(e));
            assert(found_for_args(*config, names@, packages@, list, r));
            return r;
        },
    };
    let ghost filled = found.list@;
    match found.check_not_found(config) {
        Ok(()) => {},
        Err(e) => {
            let r = Err(e);
            assert(outcome(*config, filled, r));
            assert(found_for_args(*config, names@, packages@, list, r));
            return r;
        },
    }
    found.sort_by_name();
    let r = Ok(found);
    assert(outcome(*config, filled, r));
    assert(found_for_args(*config, names@, packages@, list, r));
    r
}

/// What comes of arguments that hold what was found for them: all of them,
/// sorted by name, where something was found for each.
pub open spec fn outcome<'a>(
    config: Config,
    filled: Seq<CliPackage<'a>>,
    r: Result<CliPackages<'a>, GlobError>,
) -> bool {
    let missing = missing_lines(config, filled, filled.len() as int);
    if missing.len() == 0 {
        r is Ok && stably_sorted(filled, r->Ok_0.list@)
    } else {
        &&& r is Err
        &&& texts(r->Err_0.lines@) == missing
        &&& r->Err_0.error.message@ == "Some packages were not found in the cache"@
    }
}

/// `list` holds the arguments as they were read, and `r` is what comes of them.
pub open spec fn found_for_args<'a>(
    config: Config,
    args: Seq<String>,
    packages: Seq<Package>,
    list: Seq<CliPackage<'a>>,
    r: Result<CliPackages<'a>, GlobError>,
) -> bool {
    let places = takers(list, config.apt.architectures@, packages);
    &&& list.len() == args.len()
    &&& forall|i: int| 0 <= i < args.len() ==> reads(#[trigger] list[i], args[i]@)
    &&& match version_error(list, places, packages, packages.len() as int) {
        Some(message) => bare_failure(r, message),
        None => exists|filled: Seq<CliPackage<'a>>|
            #[trigger] outcome(config, filled, r) && holds_found(
                list,
                filled,
                places,
                packages,
                packages.len() as int,
            ),
    }
}

/// The description of a package's first version.
#[derive(Debug)]
pub struct Description {
    /// Its place in the index files, where there is a description.
    pub index: Option<u64>,
    pub text: Option<String>,
}

/// A package that is searched.
#[derive(Debug)]
pub struct Row<'a> {
    pub pkg: &'a Package,
    pub version: &'a Version,
    /// The place of its description in the index files.
    pub index: u64,
    pub desc: &'a Option<String>,
}

impl<'a> Ranked for Row<'a> {
    /// The description that stands first ranks first, so that the index files
    /// are read in order.
    open spec fn le(self, other: Row<'a>) -> bool {
        self.index <= other.index
    }

    proof fn total(a: Row<'a>, b: Row<'a>) {
    }

    proof fn transitive(a: Row<'a>, b: Row<'a>, c: Row<'a>) {
    }

    fn not_after(&self, other: &Row<'a>) -> (r: bool) {
        self.index <= other.index
    }
}

/// The packages among the first `n` that are searched: those of the system's
/// own architecture that have a version.
pub open spec fn rows<'a>(
    packages: Seq<Package>,
    descs: Seq<Description>,
    arch: Seq<char>,
    n: int,
) -> Seq<Row<'a>>
    decreases n,
{
    if n <= 0 {
        Seq::empty()
    } else {
        let before = rows(packages, descs, arch, n - 1);
        let pkg = packages[n - 1];
        if pkg.arch@ == arch && pkg.versions@.len() > 0 {
            before.push(
                Row {
                    pkg: &pkg,
                    version: &pkg.versions@[0],
                    index: match descs[n - 1].index {
                        Some(i) => i,
                        None => 0,
                    },
                    desc: &descs[n - 1].text,
                },
            )
        } else {
            before
        }
    }
}

/// The packages that are searched.
pub fn collect_rows<'a>(packages: &'a Vec<Package>, descs: &'a Vec<Description>, arch: &str) -> (r: Vec<
    Row<'a>,
>)
    requires
        packages@.len() == descs@.len(),
    ensures
        r@ == rows(packages@, descs@, arch@, packages@.len() as int),
{
    let mut r: Vec<Row<'a>> = Vec::new();
    let mut i: usize = 0;
    while i < packages.len()
        invariant
            i <= packages@.len(),
            packages@.len() == descs@.len(),
            r@ == rows(packages@, descs@, arch@, i as int),
        decreases packages@.len() - i,
    {
        let pkg = &packages[i];
        if str_eq(pkg.arch.as_str(), arch) && pkg.versions.len() > 0 {
            let index: u64 = match descs[i].index {
                Some(index) => index,
                None => 0,
            };
            r.push(Row { pkg, version: &pkg.versions[0], index, desc: &descs[i].text });
        }
        i = i + 1;
    }
    r
}

/// The argument that takes a package that is searched: the first that means
/// its name, else the first that means its description, unless only names are
/// searched.
pub open spec fn row_taker<'a>(list: Seq<CliPackage<'a>>, names_only: bool, row: Row<'a>) -> Option<int> {
    match argument_for(list, row.pkg.name@) {
        Some(k) => Some(k),
        None => if names_only || *row.desc is None {
            None
        } else {
            argument_for(list, row.desc->0@)
        },
    }
}

/// The place of the argument that takes each of the packages that are searched.
pub open spec fn row_takers<'a>(
    list: Seq<CliPackage<'a>>,
    names_only: bool,
    rows: Seq<Row<'a>>,
) -> Seq<Option<usize>> {
    rows.map_values(|row: Row<'a>| as_place(row_taker(list, names_only, row)))
}

/// What is found for an argument among the first `n` packages that are
/// searched.
pub open spec fn rows_taken_by<'a>(
    takers: Seq<Option<usize>>,
    rows: Seq<Row<'a>>,
    n: int,
    k: int,
) -> Seq<FoundPackage<'a>>
    decreases n,
{
    if n <= 0 {
        Seq::empty()
    } else {
        let before = rows_taken_by(takers, rows, n - 1, k);
        if takers[n - 1] is Some && takers[n - 1]->0 == k {
            before.push(
                FoundPackage {
                    pkg: rows[n - 1].pkg,
                    version: rows[n - 1].version,
                    modifier: None,
                },
            )
        } else {
            before
        }
    }
}

/// The arguments hold what is found for each of them.
pub open spec fn holds_rows<'a>(
    list: Seq<CliPackage<'a>>,
    filled: Seq<CliPackage<'a>>,
    takers: Seq<Option<usize>>,
    rows: Seq<Row<'a>>,
    n: int,
) -> bool {
    filled.len() == list.len() && forall|k: int|
        0 <= k < filled.len() ==> same_argument(list[k], #[trigger] filled[k]) && filled[k].pkgs@
            == rows_taken_by(takers, rows, n, k)
}

/// What is said against the first of the arguments that is no regular
/// expression.
pub open spec fn first_regex_error(args: Seq<String>) -> Option<Seq<char>>
    decreases args.len(),
{
    if args.len() == 0 {
        None
    } else {
        match regex_complaint(args[0]@) {
            Some(message) => Some(message),
            None => first_regex_error(args.skip(1)),
        }
    }
}

/// An argument of the command line was read as a regular expression.
pub open spec fn reads_regex<'a>(cli: CliPackage<'a>, arg: Seq<char>) -> bool {
    is_fresh(cli, arg) && cli.matcher is Regex && cli.matcher->Regex_0@ == arg
}

/// Reads the arguments of the command line as regular expressions.
pub fn read_regexes<'a>(args: &Vec<String>) -> (r: Result<CliPackages<'a>, NalaError>)
    ensures
        match first_regex_error(args@) {
            Some(message) => fails_with(r, message),
            None => r is Ok && r->Ok_0.list@.len() == args@.len() && forall|i: int|
                0 <= i < args@.len() ==> reads_regex(#[trigger] r->Ok_0.list@[i], args@[i]@),
        },
{
    let mut list: CliPackages<'a> = CliPackages::new();
    let mut i: usize = 0;
    assert(args@.skip(0) =~= args@);
    while i < args.len()
        invariant
            i <= args@.len(),
            first_regex_error(args@.skip(i as int)) == first_regex_error(args@),
            list.list@.len() == i,
            forall|k: int| 0 <= k < i ==> reads_regex(#[trigger] list.list@[k], args@[k]@),
        decreases args@.len() - i,
    {
        let ghost before = list.list@;
        match CliPackage::new_regex(args[i].clone()) {
            Ok(cli) => list.push(cli),
            Err(e) => {
                return Err(e);
            },
        }
        assert forall|k: int| 0 <= k < i + 1 implies reads_regex(
            #[trigger] list.list@[k],
            args@[k]@,
        ) by {
            if k < i {
                assert(list.list@[k] == before[k]);
            }
        }
        assert(args@.skip(i as int).skip(1) =~= args@.skip(i + 1));
        i = i + 1;
    }
    assert(args@.skip(i as int) =~= Seq::empty());
    Ok(list)
}

/// Finds the argument that takes each of the packages that are searched.
pub fn find_row_takers<'a>(cli_pkgs: &CliPackages<'a>, rows: &Vec<Row<'a>>, names_only: bool) -> (r:
    Vec<Option<usize>>)
    ensures
        r@ == row_takers(cli_pkgs.list@, names_only, rows@),
        places_of(r@, cli_pkgs.list@),
{
    let mut r: Vec<Option<usize>> = Vec::new();
    let mut i: usize = 0;
    while i < rows.len()
        invariant
            i <= rows@.len(),
            r@.len() == i,
            r@ == row_takers(cli_pkgs.list@, names_only, rows@).take(i as int),
            places_of(r@, cli_pkgs.list@),
        decreases rows@.len() - i,
    {
        let row = &rows[i];
        let mut place = cli_pkgs.position(row.pkg.name.as_str());
        if place.is_none() && !names_only {
            if let Some(desc) = row.desc {
                place = cli_pkgs.position(desc.as_str());
            }
        }
        r.push(place);
        assert(r@ =~= row_takers(cli_pkgs.list@, names_only, rows@).take(i + 1));
        i = i + 1;
    }
    assert(r@ =~= row_takers(cli_pkgs.list@, names_only, rows@));
    r
}

/// Gives each package that is searched to the argument at its place.
#[verifier::loop_isolation(false)]
pub fn hand_out_rows<'a>(
    cli_pkgs: CliPackages<'a>,
    rows: &Vec<Row<'a>>,
    takers: &Vec<Option<usize>>,
) -> (r: CliPackages<'a>)
    requires
        forall|k: int|
            0 <= k < cli_pkgs.list@.len() ==> (#[trigger] cli_pkgs.list@[k]).pkgs@.len() == 0,
        takers@.len() == rows@.len(),
        places_of(takers@, cli_pkgs.list@),
    ensures
        holds_rows(cli_pkgs.list@, r.list@, takers@, rows@, rows@.len() as int),
{
    let ghost list = cli_pkgs.list@;
    let mut cli_pkgs = cli_pkgs;
    let mut i: usize = 0;
    assert forall|k: int| 0 <= k < list.len() implies (#[trigger] list[k]).pkgs@ == rows_taken_by(
        takers@,
        rows@,
        0,
        k,
    ) by {
        assert(list[k].pkgs@ =~= Seq::empty());
    }
    while i < rows.len()
        invariant
            i <= rows@.len(),
            holds_rows(list, cli_pkgs.list@, takers@, rows@, i as int),
        decreases rows@.len() - i,
    {
        let row = &rows[i];
        let ghost before = cli_pkgs.list@;
        if let Some(place) = takers[i] {
            let cli = &mut cli_pkgs.list[place];
            cli.add_no_op(row.pkg, row.version);
        }
        proof {
            let after = cli_pkgs.list@;
            assert forall|k: int| 0 <= k < after.len() implies same_argument(
                list[k],
                #[trigger] after[k],
            ) && after[k].pkgs@ == rows_taken_by(takers@, rows@, i + 1, k) by {
                assert(same_argument(list[k], before[k]));
                assert(before[k].pkgs@ == rows_taken_by(takers@, rows@, i as int, k));
            }
        }
        i = i + 1;
    }
    cli_pkgs
}

/// What comes of regular expressions that hold what was found for them.
pub open spec fn regex_outcome<'a>(
    config: Config,
    filled: Seq<CliPackage<'a>>,
    r: Result<CliPackages<'a>, GlobError>,
) -> bool {
    let missing = missing_lines(config, filled, filled.len() as int);
    if missing.len() == 0 {
        r is Ok && r->Ok_0.list@ == filled
    } else {
        &&& r is Err
        &&& texts(r->Err_0.lines@) == missing
        &&& r->Err_0.error.message@ == "Some packages were not found in the cache"@
    }
}

/// `list` holds the arguments as they were read, `sorted` the packages in the
/// order in which they are searched, `filled` the arguments with what was found
/// for them, and `r` is what comes of that.
pub open spec fn searched_for_args<'a>(
    config: Config,
    args: Seq<String>,
    packages: Seq<Package>,
    descs: Seq<Description>,
    list: Seq<CliPackage<'a>>,
    sorted: Seq<Row<'a>>,
    filled: Seq<CliPackage<'a>>,
    r: Result<CliPackages<'a>, GlobError>,
) -> bool {
    &&& list.len() == args.len()
    &&& forall|i: int| 0 <= i < args.len() ==> reads_regex(#[trigger] list[i], args[i]@)
    &&& stably_sorted(
        rows(packages, descs, config.apt.architectures@[0]@, packages.len() as int),
        sorted,
    )
    &&& holds_rows(
        list,
        filled,
        row_takers(list, flag(config, "names_only"@, false), sorted),
        sorted,
        sorted.len() as int,
    )
    &&& regex_outcome(config, filled, r)
}

/// Finds the packages whose name or description the command line describes.
/// `packages` are those that `get_sorter` asks for, and `descs` their
/// descriptions.
pub fn regex_pkgs<'a>(
    config: &Config,
    packages: &'a Vec<Package>,
    descs: &'a Vec<Description>,
) -> (r: Result<CliPackages<'a>, GlobError>)
    requires
        packages@.len() == descs@.len(),
        config.vec_map@.dom().contains("pkg_names"@) && packages@.len() > 0
            ==> config.apt.architectures@.len() > 0,
    ensures
        if !config.vec_map@.dom().contains("pkg_names"@) {
            bare_failure(r, "At least one package name must be specified"@)
        } else {
            let args = config.vec_map@["pkg_names"@]@;
            match first_regex_error(args) {
                Some(message) => bare_failure(r, message),
                None => exists|
                    list: Seq<CliPackage<'a>>,
                    sorted: Seq<Row<'a>>,
                    filled: Seq<CliPackage<'a>>,
                |
                    #[trigger] searched_for_args(
                        *config,
                        args,
                        packages@,
                        descs@,
                        list,
                        sorted,
                        filled,
                        r,
                    ),
            }
        },
{
    let names = match config.pkg_names() {
        Some(names) => names,
        None => {
            return Err(bare(NalaError::new("At least one package name must be specified")));
        },
    };
    let cli_pkgs = match read_regexes(names) {
        Ok(cli_pkgs) => cli_pkgs,
        Err(e) => {
            return Err(bare(e));
        },
    };
    let ghost list = cli_pkgs.list@;
    // Gather these so it can be sorted by the index of the DescFile
    let filtered = if packages.len() == 0 {
        let none: Vec<Row<'a>> = Vec::new();
        assert(none@ =~= rows(packages@, descs@, config.apt.architectures@[0]@, 0));
        none
    } else {
        collect_rows(packages, descs, config.apt.architectures[0].as_str())
    };
    let sorted = sort(filtered);
    let names_only = config.get_bool("names_only", false);
    let places = find_row_takers(&cli_pkgs, &sorted, names_only);
    let found = hand_out_rows(cli_pkgs, &sorted, &places);
    let ghost filled = found.list@;
    let r = match found.check_not_found(config) {
        Ok(()) => Ok(found),
        Err(e) => Err(e),
    };
    assert(regex_outcome(*config, filled, r));
    assert(searched_for_args(*config, names@, packages@, descs@, list, sorted@, filled, r));
    r
}

/// Every package goes to at most one argument, and to one that means it.
pub proof fn law_taker_means_package<'a>(
    list: Seq<CliPackage<'a>>,
    arches: Seq<String>,
    pkg: Package,
    k: int,
)
    ensures
        taker(list, arches, pkg) == Some(k) ==> 0 <= k < list.len() && means(
            list[k].matcher,
            pkg.name@,
        ) && has_arch(pkg, arches) && forall|j: int|
            0 <= j < k ==> !means((#[trigger] list[j]).matcher, pkg.name@),
{
    lemma_argument_for(list, pkg.name@);
}

proof fn lemma_argument_for<'a>(list: Seq<CliPackage<'a>>, name: Seq<char>)
    ensures
        match argument_for(list, name) {
            Some(k) => 0 <= k < list.len() && means(list[k].matcher, name) && forall|j: int|
                0 <= j < k ==> !means((#[trigger] list[j]).matcher, name),
            None => forall|j: int|
                0 <= j < list.len() ==> !means((#[trigger] list[j]).matcher, name),
        },
    decreases list.len(),
{
    if list.len() > 0 {
        let front = list.drop_last();
        lemma_argument_for(front, name);
        match argument_for(front, name) {
            Some(k) => {
                assert(list[k] == front[k]);
                assert forall|j: int| 0 <= j < k implies !means(
                    (#[trigger] list[j]).matcher,
                    name,
                ) by {
                    assert(front[j] == list[j]);
                }
            },
            None => {
                assert forall|j: int| 0 <= j < list.len() - 1 implies !means(
                    (#[trigger] list[j]).matcher,
                    name,
                ) by {
                    assert(front[j] == list[j]);
                }
            },
        }
    }
}

/// The version with a number is the first with it.
pub proof fn lemma_version_named(versions: Seq<Version>, number: Seq<char>, n: int)
    requires
        0 <= n <= versions.len(),
    ensures
        match version_named(versions.skip(n), number) {
            Some(v) => exists|i: int|
                n <= i < versions.len() && #[trigger] versions[i] == v && versions[i].version@
                    == number && forall|j: int|
                    n <= j < i ==> (#[trigger] versions[j]).version@ != number,
            None => forall|j: int|
                n <= j < versions.len() ==> (#[trigger] versions[j]).version@ != number,
        },
    decreases versions.len() - n,
{
    if n < versions.len() {
        lemma_version_named(versions, number, n + 1);
        assert(versions.skip(n).skip(1) =~= versions.skip(n + 1));
        assert(versions.skip(n)[0] == versions[n]);
        if versions[n].version@ == number {
            assert(versions[n] == version_named(versions.skip(n), number)->0);
        }
    }
}

/// Whether argument `k` takes the package at a place.
pub open spec fn takes(takers: Seq<Option<usize>>, k: int) -> spec_fn(int) -> bool {
    |i: int| takers[i] is Some && takers[i]->0 == k
}

/// The packages that argument `k` takes, by their places.
pub open spec fn places_taken(takers: Seq<Option<usize>>, n: int, k: int) -> Seq<int> {
    places_to(n).filter(takes(takers, k))
}

proof fn lemma_places_taken(takers: Seq<Option<usize>>, n: int, k: int, i: int)
    requires
        0 <= n,
    ensures
        places_taken(takers, n, k).contains(i) <==> 0 <= i < n && takers[i] is Some
            && takers[i]->0 == k,
    decreases n,
{
    let keep = takes(takers, k);
    if n > 0 {
        lemma_places_taken(takers, n - 1, k, i);
        lemma_places_next(n - 1, keep);
        let before = places_taken(takers, n - 1, k);
        let all = places_taken(takers, n, k);
        if before.contains(i) {
            let p = choose|p: int| 0 <= p < before.len() && before[p] == i;
            assert(all[p] == i);
        }
        if all.contains(i) {
            let p = choose|p: int| 0 <= p < all.len() && all[p] == i;
            if p < before.len() {
                assert(before[p] == i);
            }
        }
        if i == n - 1 && keep(i) {
            assert(all[all.len() - 1] == i);
        }
    } else {
        lemma_places_next(0, keep);
        assert(places_to(n) =~= places_to(0));
    }
}

proof fn lemma_taken_by<'a>(
    list: Seq<CliPackage<'a>>,
    takers: Seq<Option<usize>>,
    packages: Seq<Package>,
    n: int,
    k: int,
)
    requires
        0 <= n,
    ensures
        taken_by(list, takers, packages, n, k) == places_taken(takers, n, k).map_values(
            |i: int|
                FoundPackage {
                    pkg: &packages[i],
                    version: &asked_version(text_opt(list[k].version), packages[i])->Ok_0,
                    modifier: list[k].modifier,
                },
        ),
    decreases n,
{
    let keep = takes(takers, k);
    let make = |i: int|
        FoundPackage {
            pkg: &packages[i],
            version: &asked_version(text_opt(list[k].version), packages[i])->Ok_0,
            modifier: list[k].modifier,
        };
    if n > 0 {
        lemma_taken_by(list, takers, packages, n - 1, k);
        lemma_places_next(n - 1, keep);
        if keep(n - 1) {
            crate::seqs::lemma_map_push(places_taken(takers, n - 1, k), n - 1, make);
        }
    } else {
        lemma_places_next(0, keep);
        assert(places_to(n) =~= places_to(0));
        assert(places_taken(takers, n, k).map_values(make) =~= Seq::<FoundPackage<'a>>::empty());
    }
}

proof fn lemma_rows_taken_by<'a>(takers: Seq<Option<usize>>, rows: Seq<Row<'a>>, n: int, k: int)
    requires
        0 <= n,
    ensures
        rows_taken_by(takers, rows, n, k) == places_taken(takers, n, k).map_values(
            |i: int|
                FoundPackage { pkg: rows[i].pkg, version: rows[i].version, modifier: None },
        ),
    decreases n,
{
    let keep = takes(takers, k);
    let make = |i: int|
        FoundPackage { pkg: rows[i].pkg, version: rows[i].version, modifier: None };
    if n > 0 {
        lemma_rows_taken_by(takers, rows, n - 1, k);
        lemma_places_next(n - 1, keep);
        if keep(n - 1) {
            crate::seqs::lemma_map_push(places_taken(takers, n - 1, k), n - 1, make);
        }
    } else {
        lemma_places_next(0, keep);
        assert(places_to(n) =~= places_to(0));
        assert(places_taken(takers, n, k).map_values(make) =~= Seq::<FoundPackage<'a>>::empty());
    }
}

/// An argument without its modifier and its version stands for a package.
pub open spec fn arg_means(arg: Seq<char>, pkg: Package) -> bool {
    glob_accepts(name_part(stripped(arg).0), pkg.name@)
}

/// An argument is the first that stands for a package.
pub open spec fn first_meant(args: Seq<String>, j: int, pkg: Package) -> bool {
    0 <= j < args.len() && arg_means(args[j]@, pkg) && forall|i: int|
        0 <= i < j ==> !arg_means((#[trigger] args[i])@, pkg)
}

/// A package that was found stands for an argument: it has one of the
/// architectures, the first argument that means it gives its modifier, and its
/// version is the one that the argument asks for, or the newest.
pub open spec fn rightly_found<'a>(
    args: Seq<String>,
    arches: Seq<String>,
    packages: Seq<Package>,
    found: FoundPackage<'a>,
    i: int,
    j: int,
) -> bool {
    &&& 0 <= i < packages.len()
    &&& *found.pkg == packages[i]
    &&& texts(arches).contains(packages[i].arch@)
    &&& first_meant(args, j, packages[i])
    &&& found.modifier == stripped(args[j]@).1
    &&& version_part(stripped(args[j]@).0) is None ==> packages[i].versions@.len() > 0
        && *found.version == packages[i].versions@[0]
    &&& version_part(stripped(args[j]@).0) is Some ==> packages[i].versions@.contains(
        *found.version,
    ) && found.version.version@ == version_part(stripped(args[j]@).0)->0
}

/// A package was found rightly, by some argument.
pub open spec fn is_right<'a>(
    args: Seq<String>,
    arches: Seq<String>,
    packages: Seq<Package>,
    found: FoundPackage<'a>,
) -> bool {
    exists|i: int, j: int| #[trigger] rightly_found(args, arches, packages, found, i, j)
}

/// An argument is the first that stands for some package with one of the
/// architectures.
pub open spec fn finds_some(
    args: Seq<String>,
    arches: Seq<String>,
    packages: Seq<Package>,
    j: int,
) -> bool {
    exists|i: int|
        0 <= i < packages.len() && texts(arches).contains(packages[i].arch@)
            && #[trigger] first_meant(args, j, packages[i])
}

proof fn lemma_version_fine<'a>(
    list: Seq<CliPackage<'a>>,
    takers: Seq<Option<usize>>,
    packages: Seq<Package>,
    n: int,
    i: int,
)
    requires
        0 <= i < n,
        version_error(list, takers, packages, n) is None,
        takers[i] is Some,
    ensures
        asked_version(text_opt(list[takers[i]->0 as int].version), packages[i]) is Ok,
    decreases n,
{
    if i < n - 1 {
        lemma_version_fine(list, takers, packages, n - 1, i);
    }
}

proof fn lemma_taker_is_first<'a>(
    args: Seq<String>,
    list: Seq<CliPackage<'a>>,
    arches: Seq<String>,
    packages: Seq<Package>,
    i: int,
)
    requires
        list.len() == args.len() <= usize::MAX,
        forall|i: int| 0 <= i < args.len() ==> reads(#[trigger] list[i], args[i]@),
        0 <= i < packages.len(),
    ensures
        match takers(list, arches, packages)[i] {
            Some(k) => texts(arches).contains(packages[i].arch@) && first_meant(
                args,
                k as int,
                packages[i],
            ),
            None => !texts(arches).contains(packages[i].arch@) || forall|j: int|
                0 <= j < args.len() ==> !arg_means((#[trigger] args[j])@, packages[i]),
        },
{
    let pkg = packages[i];
    lemma_argument_for(list, pkg.name@);
    assert(takers(list, arches, packages)[i] == as_place(taker(list, arches, pkg)));
    assert forall|j: int| 0 <= j < args.len() implies means(list[j].matcher, pkg.name@)
        == arg_means((#[trigger] args[j])@, pkg) by {
        assert(reads(list[j], args[j]@));
    }
    match argument_for(list, pkg.name@) {
        Some(k) => {
            assert(means(list[k].matcher, pkg.name@) == arg_means(args[k]@, pkg));
            assert forall|j: int| 0 <= j < k implies !arg_means((#[trigger] args[j])@, pkg) by {
                assert(!means(list[j].matcher, pkg.name@));
            }
        },
        None => {
            assert forall|j: int| 0 <= j < args.len() implies !arg_means(
                (#[trigger] args[j])@,
                pkg,
            ) by {
                assert(!means(list[j].matcher, pkg.name@));
            }
        },
    }
}

proof fn lemma_holds_found<'a>(
    args: Seq<String>,
    arches: Seq<String>,
    packages: Seq<Package>,
    list: Seq<CliPackage<'a>>,
    filled: Seq<CliPackage<'a>>,
    k: int,
    p: int,
)
    requires
        list.len() == args.len() <= usize::MAX,
        forall|i: int| 0 <= i < args.len() ==> reads(#[trigger] list[i], args[i]@),
        version_error(
            list,
            takers(list, arches, packages),
            packages,
            packages.len() as int,
        ) is None,
        holds_found(
            list,
            filled,
            takers(list, arches, packages),
            packages,
            packages.len() as int,
        ),
        0 <= k < filled.len(),
        0 <= p < filled[k].pkgs@.len(),
    ensures
        exists|i: int, j: int|
            #[trigger] rightly_found(args, arches, packages, filled[k].pkgs@[p], i, j),
{
    let places = takers(list, arches, packages);
    let n = packages.len() as int;
    lemma_taken_by(list, places, packages, n, k);
    assert(same_argument(list[k], filled[k]));
    let i = places_taken(places, n, k)[p];
    assert(places_taken(places, n, k).contains(i));
    lemma_places_taken(places, n, k, i);
    lemma_taker_is_first(args, list, arches, packages, i);
    lemma_version_fine(list, places, packages, n, i);
    assert(reads(list[k], args[k]@));
    let found = filled[k].pkgs@[p];
    let number = version_part(stripped(args[k]@).0);
    if number is Some {
        lemma_version_named(packages[i].versions@, number->0, 0);
        assert(packages[i].versions@.skip(0) =~= packages[i].versions@);
    }
    assert(rightly_found(args, arches, packages, found, i, k));
}

/// A package is among those that were found.
pub open spec fn is_found<'a>(list: Seq<CliPackage<'a>>, pkg: Package) -> bool {
    exists|k: int, p: int|
        0 <= k < list.len() && 0 <= p < list[k].pkgs@.len() && *(#[trigger] list[k].pkgs@[p]).pkg
            == pkg
}

proof fn lemma_all_found<'a>(
    args: Seq<String>,
    arches: Seq<String>,
    packages: Seq<Package>,
    list: Seq<CliPackage<'a>>,
    filled: Seq<CliPackage<'a>>,
    i: int,
    j: int,
)
    requires
        list.len() == args.len() <= usize::MAX,
        forall|i: int| 0 <= i < args.len() ==> reads(#[trigger] list[i], args[i]@),
        holds_found(
            list,
            filled,
            takers(list, arches, packages),
            packages,
            packages.len() as int,
        ),
        0 <= i < packages.len(),
        texts(arches).contains(packages[i].arch@),
        0 <= j < args.len(),
        arg_means(args[j]@, packages[i]),
    ensures
        is_found(filled, packages[i]),
{
    let places = takers(list, arches, packages);
    let n = packages.len() as int;
    lemma_taker_is_first(args, list, arches, packages, i);
    assert(places[i] is Some);
    let k = places[i]->0 as int;
    lemma_taken_by(list, places, packages, n, k);
    assert(same_argument(list[k], filled[k]));
    lemma_places_taken(places, n, k, i);
    let all = places_taken(places, n, k);
    let p = choose|p: int| 0 <= p < all.len() && all[p] == i;
    assert(*filled[k].pkgs@[p].pkg == packages[i]);
}

/// What the arguments of a command line stand for is found, all of it and nothing
/// else. Every package with one of the architectures that an argument means is
/// there, and every package that is there is meant by an argument, whose
/// modifier and version it has. No argument is without a package.
pub proof fn law_arguments_find_their_packages<'a>(
    config: &Config,
    packages: &'a Vec<Package>,
    r: Result<CliPackages<'a>, GlobError>,
)
    requires
        call_ensures(pkgs_with_modifiers, (config, packages), r),
        r is Ok,
    ensures
        config.vec_map@.dom().contains("pkg_names"@),
        ({
            let args = config.vec_map@["pkg_names"@]@;
            let list = r->Ok_0.list@;
            &&& list.len() == args.len()
            &&& forall|i: int, j: int|
                0 <= i < packages@.len() && texts(config.apt.architectures@).contains(
                    packages@[i].arch@,
                ) && 0 <= j < args.len() && #[trigger] arg_means(args[j]@, packages@[i])
                    ==> is_found(list, packages@[i])
            &&& forall|k: int, p: int|
                0 <= k < list.len() && 0 <= p < list[k].pkgs@.len() ==> is_right(
                    args,
                    config.apt.architectures@,
                    packages@,
                    #[trigger] list[k].pkgs@[p],
                )
            &&& forall|k: int| 0 <= k < list.len() ==> (#[trigger] list[k]).pkgs@.len() > 0
            &&& forall|k: int, l: int|
                0 <= k < l < list.len() ==> text_le(
                    (#[trigger] list[k]).pkgs@[0].pkg.name@,
                    (#[trigger] list[l]).pkgs@[0].pkg.name@,
                )
        }),
{
    let args = config.vec_map@["pkg_names"@]@;
    assert(args.len() == config.vec_map@["pkg_names"@].len());
    let arches = config.apt.architectures@;
    let list = choose|list: Seq<CliPackage<'a>>|
        #[trigger] found_for_args(*config, args, packages@, list, r);
    let places = takers(list, arches, packages@);
    let n = packages@.len() as int;
    let filled = choose|filled: Seq<CliPackage<'a>>|
        #[trigger] outcome(*config, filled, r) && holds_found(list, filled, places, packages@, n);
    let result = r->Ok_0.list@;
    lemma_none_missing(*config, filled, filled.len() as int);
    assert forall|i: int, j: int|
        0 <= i < packages@.len() && texts(arches).contains(packages@[i].arch@) && 0 <= j
            < args.len() && #[trigger] arg_means(args[j]@, packages@[i]) implies is_found(
        result,
        packages@[i],
    ) by {
        lemma_all_found(args, arches, packages@, list, filled, i, j);
        let (k, p) = choose|k: int, p: int|
            0 <= k < filled.len() && 0 <= p < filled[k].pkgs@.len() && *(
            #[trigger] filled[k].pkgs@[p]).pkg == packages@[i];
        assert(filled.contains(filled[k]));
        crate::sort::law_sorting_keeps_items(filled, result, filled[k]);
        let m = choose|m: int| 0 <= m < result.len() && result[m] == filled[k];
        assert(*result[m].pkgs@[p].pkg == packages@[i]);
    }
    assert forall|k: int, p: int|
        0 <= k < result.len() && 0 <= p < result[k].pkgs@.len() implies is_right(
        args,
        arches,
        packages@,
        #[trigger] result[k].pkgs@[p],
    ) by {
        assert(result.contains(result[k]));
        crate::sort::law_sorting_keeps_items(filled, result, result[k]);
        let m = choose|m: int| 0 <= m < filled.len() && filled[m] == result[k];
        lemma_holds_found(args, arches, packages@, list, filled, m, p);
    }
    assert forall|k: int| 0 <= k < result.len() implies (#[trigger] result[k]).pkgs@.len() > 0 by {
        assert(result.contains(result[k]));
        crate::sort::law_sorting_keeps_items(filled, result, result[k]);
        let m = choose|m: int| 0 <= m < filled.len() && filled[m] == result[k];
        assert(filled[m].pkgs@.len() > 0);
    }
    assert forall|k: int, l: int| 0 <= k < l < result.len() implies text_le(
        (#[trigger] result[k]).pkgs@[0].pkg.name@,
        (#[trigger] result[l]).pkgs@[0].pkg.name@,
    ) by {
        assert(result[k].le(result[l]));
    }
}

proof fn lemma_none_missing<'a>(config: Config, list: Seq<CliPackage<'a>>, n: int)
    requires
        0 <= n <= list.len(),
    ensures
        missing_lines(config, list, n).len() == 0 <==> forall|i: int|
            0 <= i < n ==> (#[trigger] list[i]).pkgs@.len() > 0,
    decreases n,
{
    if n > 0 {
        lemma_none_missing(config, list, n - 1);
    }
}

proof fn lemma_version_error_at<'a>(
    list: Seq<CliPackage<'a>>,
    takers: Seq<Option<usize>>,
    packages: Seq<Package>,
    n: int,
)
    requires
        version_error(list, takers, packages, n) is Some,
    ensures
        exists|i: int|
            0 <= i < n && (#[trigger] takers[i]) is Some && asked_version(
                text_opt(list[takers[i]->0 as int].version),
                packages[i],
            ) is Err,
    decreases n,
{
    if n > 0 && version_error(list, takers, packages, n - 1) is Some {
        lemma_version_error_at(list, takers, packages, n - 1);
    } else if n > 0 {
        assert(takers[n - 1] is Some);
    }
}

/// A version that an argument asks for, or any where it asks for none, is there.
pub open spec fn version_is_there(arg: Seq<char>, pkg: Package) -> bool {
    match version_part(stripped(arg).0) {
        Some(number) => exists|v: int|
            0 <= v < pkg.versions@.len() && (#[trigger] pkg.versions@[v]).version@ == number,
        None => pkg.versions@.len() > 0,
    }
}

proof fn lemma_first_glob_error(args: Seq<String>)
    ensures
        first_glob_error(args) is None <==> forall|i: int|
            0 <= i < args.len() ==> glob_error(
                name_part(stripped((#[trigger] args[i])@).0),
            ) is None,
    decreases args.len(),
{
    if args.len() > 0 {
        let rest = args.skip(1);
        lemma_first_glob_error(rest);
        if first_glob_error(args) is None {
            assert forall|i: int| 0 <= i < args.len() implies glob_error(
                name_part(stripped((#[trigger] args[i])@).0),
            ) is None by {
                if i > 0 {
                    assert(rest[i - 1] == args[i]);
                }
            }
        }
        if forall|i: int|
            0 <= i < args.len() ==> glob_error(
                name_part(stripped((#[trigger] args[i])@).0),
            ) is None {
            assert(glob_error(name_part(stripped(args[0]@).0)) is None);
            assert forall|i: int| 0 <= i < rest.len() implies glob_error(
                name_part(stripped((#[trigger] rest[i])@).0),
            ) is None by {
                assert(rest[i] == args[i + 1]);
            }
        }
    }
}

/// Finding the packages of a command line succeeds whenever it can: every
/// argument is a glob and the first to mean some package, and each package that
/// is meant has the version that is asked for.
pub proof fn law_arguments_that_can_be_met_are<'a>(
    config: &Config,
    packages: &'a Vec<Package>,
    r: Result<CliPackages<'a>, GlobError>,
)
    requires
        call_ensures(pkgs_with_modifiers, (config, packages), r),
        config.vec_map@.dom().contains("pkg_names"@),
        ({
            let args = config.vec_map@["pkg_names"@]@;
            &&& forall|i: int|
                0 <= i < args.len() ==> glob_error(
                    name_part(stripped((#[trigger] args[i])@).0),
                ) is None
            &&& forall|j: int|
                0 <= j < args.len() ==> #[trigger] finds_some(
                    args,
                    config.apt.architectures@,
                    packages@,
                    j,
                )
            &&& forall|i: int, j: int|
                0 <= i < packages@.len() && #[trigger] first_meant(args, j, packages@[i])
                    ==> version_is_there(args[j]@, packages@[i])
        }),
    ensures
        r is Ok,
{
    let args = config.vec_map@["pkg_names"@]@;
    assert(args.len() == config.vec_map@["pkg_names"@].len());
    lemma_first_glob_error(args);
    let arches = config.apt.architectures@;
    let list = choose|list: Seq<CliPackage<'a>>|
        #[trigger] found_for_args(*config, args, packages@, list, r);
    let places = takers(list, arches, packages@);
    let n = packages@.len() as int;
    if version_error(list, places, packages@, n) is Some {
        lemma_version_error_at(list, places, packages@, n);
        let i = choose|i: int|
            0 <= i < n && (#[trigger] places[i]) is Some && asked_version(
                text_opt(list[places[i]->0 as int].version),
                packages@[i],
            ) is Err;
        lemma_taker_is_first(args, list, arches, packages@, i);
        let k = places[i]->0 as int;
        assert(first_meant(args, k, packages@[i]));
        assert(version_is_there(args[k]@, packages@[i]));
        assert(reads(list[k], args[k]@));
        let number = version_part(stripped(args[k]@).0);
        if number is Some {
            lemma_version_named(packages@[i].versions@, number->0, 0);
            assert(packages@[i].versions@.skip(0) =~= packages@[i].versions@);
        }
    }
    let filled = choose|filled: Seq<CliPackage<'a>>|
        #[trigger] outcome(*config, filled, r) && holds_found(list, filled, places, packages@, n);
    lemma_none_missing(*config, filled, filled.len() as int);
    assert forall|k: int| 0 <= k < filled.len() implies (#[trigger] filled[k]).pkgs@.len() > 0 by {
        assert(finds_some(args, arches, packages@, k));
        let i = choose|i: int|
            0 <= i < packages@.len() && texts(arches).contains(packages@[i].arch@)
                && #[trigger] first_meant(args, k, packages@[i]);
        lemma_taker_is_first(args, list, arches, packages@, i);
        assert(places[i] is Some) by {
            if places[i] is None {
                assert(arg_means(args[k]@, packages@[i]));
            }
        }
        let m = places[i]->0 as int;
        assert(m == k) by {
            if m < k {
                assert(!arg_means(args[m]@, packages@[i]));
            } else if k < m {
                assert(!arg_means(args[k]@, packages@[i]));
            }
        }
        lemma_taken_by(list, places, packages@, n, k);
        lemma_places_taken(places, n, k, i);
        assert(places_taken(places, n, k).len() > 0);
        assert(same_argument(list[k], filled[k]));
    }
}

/// The modifier at the end of an argument: a minus removes, a plus installs, and
/// the plus decides where it stands before the minus.
pub proof fn law_modifiers(arg: &str, r: (String, Option<Operation>), x: Seq<char>)
    requires
        call_ensures(strip_modifier, (arg,), r),
        x.len() > 0 ==> x.last() != '+',
    ensures
        arg@ == x && (x.len() > 0 ==> x.last() != '-') ==> r.0@ == x && r.1 is None,
        arg@ == x.push('-') ==> r.0@ == x && r.1 == Some(Operation::Remove),
        arg@ == x.push('+') ==> r.0@ == x && r.1 == Some(Operation::Install),
        arg@ == x.push('+').push('-') ==> r.0@ == x && r.1 == Some(Operation::Install),
{
    reveal_strlit("-");
    reveal_strlit("+");
    lemma_ends_in(x, '-');
    lemma_ends_in(x, '+');
    lemma_ends_in(x.push('-'), '-');
    lemma_ends_in(x.push('-'), '+');
    lemma_ends_in(x.push('+'), '-');
    lemma_ends_in(x.push('+'), '+');
    lemma_ends_in(x.push('+').push('-'), '-');
    assert("-"@ =~= seq!['-']);
    assert("+"@ =~= seq!['+']);
    assert(x.push('-').take(x.len() as int) =~= x);
    assert(x.push('+').take(x.len() as int) =~= x);
    assert(x.push('+').push('-').take(x.len() as int + 1) =~= x.push('+'));
}

proof fn lemma_ends_in(s: Seq<char>, c: char)
    ensures
        has_suffix(s, seq![c]) <==> s.len() > 0 && s.last() == c,
{
    if s.len() > 0 {
        assert(s.subrange(s.len() - 1, s.len() as int) =~= seq![s.last()]);
        assert(seq![s.last()][0] == s.last());
        assert(seq![c][0] == c);
    }
}

/// The version stands behind the first equals sign of an argument.
pub proof fn law_version_behind_the_sign(
    cli_str: String,
    r: (String, Option<String>),
    name: Seq<char>,
    version: Seq<char>,
)
    requires
        call_ensures(split_version, (cli_str,), r),
        !name.contains('='),
    ensures
        cli_str@ == name ==> r.0@ == name && r.1 is None,
        cli_str@ == name + "="@ + version ==> r.0@ == name && text_opt(r.1) == Some(version),
{
    reveal_strlit("=");
    let sep = "="@;
    let s = name + sep + version;
    assert forall|k: int| !crate::text::occurs_at(name, sep, k) by {
        if crate::text::occurs_at(name, sep, k) {
            assert(name.subrange(k, k + 1)[0] == name[k]);
            assert(name.contains(name[k]));
        }
    }
    assert(crate::text::occurs_at(s, sep, name.len() as int)) by {
        assert(s.subrange(name.len() as int, name.len() as int + 1) =~= sep);
    }
    assert forall|k: int| 0 <= k < name.len() implies !crate::text::occurs_at(s, sep, k) by {
        if crate::text::occurs_at(s, sep, k) {
            assert(s.subrange(k, k + 1)[0] == s[k]);
            assert(name.contains(name[k]));
        }
    }
    crate::text::lemma_found(name, sep);
    crate::text::lemma_find_text(s, sep, name.len() as int);
    assert(s.take(name.len() as int) =~= name);
    assert(s.skip(name.len() as int + 1) =~= version);
}

/// The version that an argument asks for is the first with its number; without a
/// number it is the newest.
pub proof fn law_asked_version<'a>(
    cli: &CliPackage<'a>,
    pkg: &'a Package,
    r: Result<&'a Version, NalaError>,
)
    requires
        call_ensures(CliPackage::get_version, (cli, pkg), r),
    ensures
        cli.version is None ==> (r is Ok <==> pkg.versions@.len() > 0),
        cli.version is None && r is Ok ==> *r->Ok_0 == pkg.versions@[0],
        cli.version is Some ==> (r is Ok <==> exists|i: int|
            0 <= i < pkg.versions@.len() && (#[trigger] pkg.versions@[i]).version@
                == cli.version->0@),
        cli.version is Some && r is Ok ==> exists|i: int|
            0 <= i < pkg.versions@.len() && #[trigger] pkg.versions@[i] == *r->Ok_0
                && pkg.versions@[i].version@ == cli.version->0@ && forall|j: int|
                0 <= j < i ==> (#[trigger] pkg.versions@[j]).version@ != cli.version->0@,
{
    if cli.version is Some {
        lemma_version_named(pkg.versions@, cli.version->0@, 0);
        assert(pkg.versions@.skip(0) =~= pkg.versions@);
    }
}

/// The packages that Nala installed at the user's wish: each that is installed
/// and that an install named is kept, and one is kept only if it is installed and
/// was named.
pub proof fn law_explicitly_installed(
    config: &Config,
    packages: Vec<Package>,
    history: &Vec<HistoryEntry>,
    r: Vec<Package>,
    i: int,
)
    requires
        call_ensures(nala_installed, (config, packages, history), r),
        flag(*config, "nala_installed"@, false),
        0 <= i < packages@.len(),
    ensures
        packages@[i].installed is Some && (exists|e: int, a: int|
            0 <= e < history@.len() && 0 <= a < history@[e].explicit@.len()
                && history@[e].operation == Operation::Install && (
            #[trigger] history@[e].explicit@[a])@ == packages@[i].name@) ==> r@.contains(
            packages@[i],
        ),
        r@.contains(packages@[i]) ==> packages@[i].installed is Some && exists|e: int, a: int|
            0 <= e < history@.len() && 0 <= a < history@[e].explicit@.len() && names_package(
                (#[trigger] history@[e].explicit@[a])@,
                packages@[i].name@,
            ),
{
    let keep = |pkg: Package| explicitly_installed(pkg, history@);
    let pkg = packages@[i];
    let kept = packages@.filter(keep);
    if keep(pkg) {
        packages@.lemma_filter_contains(keep, i);
    }
    if pkg.installed is Some && (exists|e: int, a: int|
        0 <= e < history@.len() && 0 <= a < history@[e].explicit@.len() && history@[e].operation
            == Operation::Install && (#[trigger] history@[e].explicit@[a])@ == pkg.name@) {
        let (e, a) = choose|e: int, a: int|
            0 <= e < history@.len() && 0 <= a < history@[e].explicit@.len()
                && history@[e].operation == Operation::Install && (
            #[trigger] history@[e].explicit@[a])@ == pkg.name@;
        assert(names_package(history@[e].explicit@[a]@, pkg.name@));
        assert(named_and_installed(history@[e], pkg.name@));
        assert(keep(pkg));
    }
    if kept.contains(pkg) {
        let p = choose|p: int| 0 <= p < kept.len() && kept[p] == pkg;
        packages@.lemma_filter_pred(keep, p);
        assert(keep(pkg));
        let e = choose|e: int|
            0 <= e < history@.len() && named_and_installed(#[trigger] history@[e], pkg.name@);
        let a = choose|a: int|
            0 <= a < history@[e].explicit@.len() && names_package(
                #[trigger] history@[e].explicit@[a]@,
                pkg.name@,
            );
        assert(names_package(history@[e].explicit@[a]@, pkg.name@));
    }
}

/// Without the option all packages stay.
pub proof fn law_option_restricts_alone(
    config: &Config,
    packages: Vec<Package>,
    history: &Vec<HistoryEntry>,
    r: Vec<Package>,
)
    requires
        call_ensures(nala_installed, (config, packages, history), r),
        !flag(*config, "nala_installed"@, false),
    ensures
        r@ == packages@,
{
}

/// What was found is told in the order of the arguments, and nothing is lost.
pub proof fn law_found_in_order<'a>(list: Seq<CliPackage<'a>>, n: int)
    requires
        0 <= n <= list.len(),
    ensures
        found_packages(list, n) == list.take(n).map_values(
            |cli: CliPackage<'a>| cli.pkgs@,
        ).flatten(),
    decreases n,
{
    let make = |cli: CliPackage<'a>| cli.pkgs@;
    if n <= 0 {
        assert(list.take(n).map_values(make) =~= Seq::<Seq<FoundPackage<'a>>>::empty());
        assert(Seq::<Seq<FoundPackage<'a>>>::empty().flatten() =~= Seq::<FoundPackage<'a>>::empty());
    } else {
        law_found_in_order(list, n - 1);
        assert(list.take(n) =~= list.take(n - 1).push(list[n - 1]));
        crate::seqs::lemma_map_push(list.take(n - 1), list[n - 1], make);
        list.take(n - 1).map_values(make).lemma_flatten_push(make(list[n - 1]));
    }
}

/// The user is told of every argument without a package, in order.
pub proof fn law_missing_are_told<'a>(
    cli: &CliPackages<'a>,
    config: &Config,
    r: Result<(), GlobError>,
)
    requires
        call_ensures(CliPackages::check_not_found, (cli, config), r),
    ensures
        r is Ok <==> forall|i: int|
            0 <= i < cli.list@.len() ==> (#[trigger] cli.list@[i]).pkgs@.len() > 0,
        r is Err ==> texts(r->Err_0.lines@) == cli.list@.filter(
            |c: CliPackage<'a>| c.pkgs@.len() == 0,
        ).map_values(
            |c: CliPackage<'a>|
                stderr_line(
                    *config,
                    Theme::Error,
                    "'"@ + colored(*config, Theme::Notice, c.name@) + "' was not found"@,
                ),
        ),
{
    let n = cli.list@.len() as int;
    let keep = |c: CliPackage<'a>| c.pkgs@.len() == 0;
    let make = |c: CliPackage<'a>|
        stderr_line(
            *config,
            Theme::Error,
            "'"@ + colored(*config, Theme::Notice, c.name@) + "' was not found"@,
        );
    lemma_missing_lines(*config, cli.list@, n, keep, make);
    assert(cli.list@.take(n) =~= cli.list@);
}

proof fn lemma_missing_lines<'a>(
    config: Config,
    list: Seq<CliPackage<'a>>,
    n: int,
    keep: spec_fn(CliPackage<'a>) -> bool,
    make: spec_fn(CliPackage<'a>) -> Seq<char>,
)
    requires
        0 <= n <= list.len(),
        forall|c: CliPackage<'a>| #[trigger] keep(c) == (c.pkgs@.len() == 0),
        forall|c: CliPackage<'a>| #[trigger]
            make(c) == stderr_line(
                config,
                Theme::Error,
                "'"@ + colored(config, Theme::Notice, c.name@) + "' was not found"@,
            ),
    ensures
        missing_lines(config, list, n) == list.take(n).filter(keep).map_values(make),
    decreases n,
{
    if n <= 0 {
        crate::seqs::lemma_made_none(list, keep, make);
    } else {
        lemma_missing_lines(config, list, n - 1, keep, make);
        crate::seqs::lemma_made_next(list, n - 1, keep, make);
    }
}

/// The options choose the packages that they name.
pub proof fn law_options_choose(config: &Config, r: Sorter)
    requires
        call_ensures(get_sorter, (config,), r),
    ensures
        r.installed <==> flag(*config, "installed"@, false),
        r.upgradable <==> flag(*config, "upgradable"@, false),
        r.only_virtual <==> flag(*config, "virtual"@, false),
{
}

/// The row of a package.
pub open spec fn row_of<'a>(packages: Seq<Package>, descs: Seq<Description>, i: int) -> Row<'a> {
    Row {
        pkg: &packages[i],
        version: &packages[i].versions@[0],
        index: match descs[i].index {
            Some(place) => place,
            None => 0,
        },
        desc: &descs[i].text,
    }
}

proof fn lemma_rows<'a>(
    packages: Seq<Package>,
    descs: Seq<Description>,
    arch: Seq<char>,
    n: int,
    row: Row<'a>,
)
    requires
        0 <= n <= packages.len(),
    ensures
        rows(packages, descs, arch, n).contains(row) <==> exists|i: int|
            0 <= i < n && (#[trigger] packages[i]).arch@ == arch && packages[i].versions@.len() > 0
                && row == row_of(packages, descs, i),
    decreases n,
{
    if n > 0 {
        lemma_rows(packages, descs, arch, n - 1, row);
        let before = rows::<'a>(packages, descs, arch, n - 1);
        let all = rows::<'a>(packages, descs, arch, n);
        if before.contains(row) {
            let p = choose|p: int| 0 <= p < before.len() && before[p] == row;
            assert(all[p] == row);
        }
        if all.contains(row) {
            let p = choose|p: int| 0 <= p < all.len() && all[p] == row;
            if p < before.len() {
                assert(before[p] == row);
            } else {
                assert(row == row_of(packages, descs, n - 1));
            }
        }
        if packages[n - 1].arch@ == arch && packages[n - 1].versions@.len() > 0 && row == row_of(
            packages,
            descs,
            n - 1,
        ) {
            assert(all[all.len() - 1] == row);
        }
    }
}

/// The rows of a search are those of the packages with the machine's architecture
/// that have a version, each with the newest.
pub proof fn law_rows<'a>(
    packages: &'a Vec<Package>,
    descs: &'a Vec<Description>,
    arch: &str,
    r: Vec<Row<'a>>,
    row: Row<'a>,
)
    requires
        packages@.len() == descs@.len(),
        call_ensures(collect_rows, (packages, descs, arch), r),
    ensures
        r@.contains(row) <==> exists|i: int|
            0 <= i < packages@.len() && (#[trigger] packages@[i]).arch@ == arch@
                && packages@[i].versions@.len() > 0 && row == row_of(packages@, descs@, i),
{
    lemma_rows(packages@, descs@, arch@, packages@.len() as int, row);
}

/// An argument is the first expression that a text matches.
pub open spec fn first_match(args: Seq<String>, text: Seq<char>, j: int) -> bool {
    0 <= j < args.len() && regex_match(args[j]@, text) is Some && forall|i: int|
        0 <= i < j ==> regex_match((#[trigger] args[i])@, text) is None
}

/// No expression matches a text.
pub open spec fn no_match(args: Seq<String>, text: Seq<char>) -> bool {
    forall|i: int| 0 <= i < args.len() ==> regex_match((#[trigger] args[i])@, text) is None
}

/// The argument that finds a package by its name, or else by its description.
pub open spec fn finds(
    args: Seq<String>,
    names_only: bool,
    pkg: Package,
    desc: Option<String>,
    j: int,
) -> bool {
    ||| first_match(args, pkg.name@, j)
    ||| no_match(args, pkg.name@) && !names_only && desc is Some && first_match(
        args,
        desc->0@,
        j,
    )
}

proof fn lemma_first_match<'a>(args: Seq<String>, list: Seq<CliPackage<'a>>, text: Seq<char>)
    requires
        list.len() == args.len(),
        forall|i: int| 0 <= i < args.len() ==> reads_regex(#[trigger] list[i], args[i]@),
    ensures
        match argument_for(list, text) {
            Some(k) => first_match(args, text, k),
            None => no_match(args, text),
        },
{
    lemma_argument_for(list, text);
    assert forall|j: int| 0 <= j < args.len() implies means(list[j].matcher, text) == (regex_match(
        (#[trigger] args[j])@,
        text,
    ) is Some) by {
        assert(reads_regex(list[j], args[j]@));
    }
    match argument_for(list, text) {
        Some(k) => {
            assert(means(list[k].matcher, text) == (regex_match(args[k]@, text) is Some));
            assert forall|i: int| 0 <= i < k implies regex_match(
                (#[trigger] args[i])@,
                text,
            ) is None by {
                assert(!means(list[i].matcher, text));
            }
        },
        None => {
            assert forall|i: int| 0 <= i < args.len() implies regex_match(
                (#[trigger] args[i])@,
                text,
            ) is None by {
                assert(!means(list[i].matcher, text));
            }
        },
    }
}

proof fn lemma_row_taker<'a>(
    args: Seq<String>,
    list: Seq<CliPackage<'a>>,
    names_only: bool,
    row: Row<'a>,
    j: int,
)
    requires
        list.len() == args.len(),
        forall|i: int| 0 <= i < args.len() ==> reads_regex(#[trigger] list[i], args[i]@),
    ensures
        row_taker(list, names_only, row) == Some(j) <==> finds(
            args,
            names_only,
            *row.pkg,
            *row.desc,
            j,
        ),
{
    lemma_first_match(args, list, row.pkg.name@);
    if *row.desc is Some {
        lemma_first_match(args, list, row.desc->0@);
        lemma_one_first(args, row.desc->0@);
    }
    lemma_one_first(args, row.pkg.name@);
    if first_match(args, row.pkg.name@, j) {
        assert(!no_match(args, row.pkg.name@));
    }
    if *row.desc is Some {
        if first_match(args, row.desc->0@, j) {
            assert(!no_match(args, row.desc->0@));
        }
    }
}

proof fn lemma_one_first(args: Seq<String>, text: Seq<char>)
    ensures
        forall|i: int, j: int| #[trigger]
            first_match(args, text, i) && #[trigger] first_match(args, text, j) ==> i == j,
{
    assert forall|i: int, j: int| #[trigger]
        first_match(args, text, i) && #[trigger] first_match(args, text, j) implies i == j by {
        if i < j {
            assert(regex_match(args[i]@, text) is None);
        } else if j < i {
            assert(regex_match(args[j]@, text) is None);
        }
    }
}

/// A package was found rightly by a search: it has the machine's architecture, an
/// argument finds it by its name or its description, and its version is the
/// newest.
pub open spec fn rightly_searched<'a>(
    config: Config,
    args: Seq<String>,
    packages: Seq<Package>,
    descs: Seq<Description>,
    found: FoundPackage<'a>,
    i: int,
    j: int,
) -> bool {
    &&& 0 <= i < packages.len()
    &&& *found.pkg == packages[i]
    &&& packages[i].arch@ == config.apt.architectures@[0]@
    &&& packages[i].versions@.len() > 0
    &&& *found.version == packages[i].versions@[0]
    &&& found.modifier is None
    &&& finds(args, flag(config, "names_only"@, false), packages[i], descs[i].text, j)
}

/// A package was found rightly by argument `j` of a search.
pub open spec fn is_right_search<'a>(
    config: Config,
    args: Seq<String>,
    packages: Seq<Package>,
    descs: Seq<Description>,
    found: FoundPackage<'a>,
    j: int,
) -> bool {
    exists|i: int| #[trigger] rightly_searched(config, args, packages, descs, found, i, j)
}

/// A search finds what matches, all of it and nothing else: every package with
/// the machine's architecture and a version that an argument finds is there, and
/// each that is there was found by its argument. No argument is without a
/// package.
pub proof fn law_search_finds_what_matches<'a>(
    config: &Config,
    packages: &'a Vec<Package>,
    descs: &'a Vec<Description>,
    r: Result<CliPackages<'a>, GlobError>,
)
    requires
        packages@.len() == descs@.len(),
        config.apt.architectures@.len() > 0,
        call_ensures(regex_pkgs, (config, packages, descs), r),
        r is Ok,
    ensures
        config.vec_map@.dom().contains("pkg_names"@),
        ({
            let args = config.vec_map@["pkg_names"@]@;
            let list = r->Ok_0.list@;
            &&& list.len() == args.len()
            &&& forall|k: int| 0 <= k < list.len() ==> (#[trigger] list[k]).pkgs@.len() > 0
            &&& forall|k: int| 0 <= k < list.len() ==> (#[trigger] list[k]).name@ == args[k]@
            &&& forall|k: int, p: int|
                0 <= k < list.len() && 0 <= p < list[k].pkgs@.len() ==> is_right_search(
                    *config,
                    args,
                    packages@,
                    descs@,
                    #[trigger] list[k].pkgs@[p],
                    k,
                )
            &&& forall|i: int, j: int|
                0 <= i < packages@.len() && packages@[i].arch@ == config.apt.architectures@[0]@
                    && packages@[i].versions@.len() > 0 && #[trigger] finds(
                    args,
                    flag(*config, "names_only"@, false),
                    packages@[i],
                    descs@[i].text,
                    j,
                ) ==> is_found(list, packages@[i])
        }),
{
    let args = config.vec_map@["pkg_names"@]@;
    assert(args.len() == config.vec_map@["pkg_names"@].len());
    let names_only = flag(*config, "names_only"@, false);
    let arch = config.apt.architectures@[0]@;
    let (list, sorted, filled) = choose|
        list: Seq<CliPackage<'a>>,
        sorted: Seq<Row<'a>>,
        filled: Seq<CliPackage<'a>>,
    | #[trigger]
        searched_for_args(*config, args, packages@, descs@, list, sorted, filled, r);
    let places = row_takers(list, names_only, sorted);
    let n = sorted.len() as int;
    let all = rows::<'a>(packages@, descs@, arch, packages@.len() as int);
    lemma_none_missing(*config, filled, filled.len() as int);
    assert forall|k: int| 0 <= k < filled.len() implies (#[trigger] filled[k]).name@ == args[k]@ by {
        assert(same_argument(list[k], filled[k]));
        assert(reads_regex(list[k], args[k]@));
    }
    assert forall|k: int, p: int|
        0 <= k < filled.len() && 0 <= p < filled[k].pkgs@.len() implies is_right_search(
        *config,
        args,
        packages@,
        descs@,
        #[trigger] filled[k].pkgs@[p],
        k,
    ) by {
        lemma_rows_taken_by(places, sorted, n, k);
        assert(same_argument(list[k], filled[k]));
        let s = places_taken(places, n, k)[p];
        assert(places_taken(places, n, k).contains(s));
        lemma_places_taken(places, n, k, s);
        assert(sorted.contains(sorted[s]));
        crate::sort::law_sorting_keeps_items(all, sorted, sorted[s]);
        lemma_rows(packages@, descs@, arch, packages@.len() as int, sorted[s]);
        let i = choose|i: int|
            0 <= i < packages@.len() && (#[trigger] packages@[i]).arch@ == arch
                && packages@[i].versions@.len() > 0 && sorted[s] == row_of(packages@, descs@, i);
        assert(places[s] == as_place(row_taker(list, names_only, sorted[s])));
        lemma_row_bound(list, names_only, sorted[s]);
        lemma_row_taker(args, list, names_only, sorted[s], k);
        assert(rightly_searched(
            *config,
            args,
            packages@,
            descs@,
            filled[k].pkgs@[p],
            i,
            k,
        ));
    }
    assert forall|i: int, j: int|
        0 <= i < packages@.len() && packages@[i].arch@ == arch && packages@[i].versions@.len() > 0
            && #[trigger] finds(
            args,
            names_only,
            packages@[i],
            descs@[i].text,
            j,
        ) implies is_found(filled, packages@[i]) by {
        let row = row_of::<'a>(packages@, descs@, i);
        lemma_rows(packages@, descs@, arch, packages@.len() as int, row);
        crate::sort::law_sorting_keeps_items(all, sorted, row);
        let s = choose|s: int| 0 <= s < sorted.len() && sorted[s] == row;
        lemma_row_taker(args, list, names_only, row, j);
        lemma_row_bound(list, names_only, row);
        assert(places[s] == as_place(row_taker(list, names_only, row)));
        assert(places[s] == Some(j as usize));
        lemma_rows_taken_by(places, sorted, n, j);
        lemma_places_taken(places, n, j, s);
        let taken = places_taken(places, n, j);
        let p = choose|p: int| 0 <= p < taken.len() && taken[p] == s;
        assert(same_argument(list[j], filled[j]));
        assert(*filled[j].pkgs@[p].pkg == packages@[i]);
    }
}

proof fn lemma_row_bound<'a>(list: Seq<CliPackage<'a>>, names_only: bool, row: Row<'a>)
    ensures
        row_taker(list, names_only, row) matches Some(k) ==> 0 <= k < list.len(),
{
    lemma_argument_for(list, row.pkg.name@);
    if *row.desc is Some {
        lemma_argument_for(list, row.desc->0@);
    }
}

proof fn lemma_places_increase(takers: Seq<Option<usize>>, n: int, k: int)
    requires
        0 <= n,
    ensures
        forall|p: int|
            0 <= p < places_taken(takers, n, k).len() ==> 0 <= #[trigger] places_taken(
                takers,
                n,
                k,
            )[p] < n,
        forall|p: int, q: int|
            0 <= p < q < places_taken(takers, n, k).len() ==> (#[trigger] places_taken(
                takers,
                n,
                k,
            )[p]) < (#[trigger] places_taken(takers, n, k)[q]),
    decreases n,
{
    let keep = takes(takers, k);
    if n > 0 {
        lemma_places_increase(takers, n - 1, k);
        lemma_places_next(n - 1, keep);
        let before = places_taken(takers, n - 1, k);
        let all = places_taken(takers, n, k);
        assert forall|p: int| 0 <= p < all.len() implies 0 <= #[trigger] all[p] < n by {
            if p < before.len() {
                assert(all[p] == before[p]);
            }
        }
        assert forall|p: int, q: int| 0 <= p < q < all.len() implies (#[trigger] all[p]) < (
        #[trigger] all[q]) by {
            assert(all[p] == before[p]);
            if q < before.len() {
                assert(all[q] == before[q]);
            }
        }
    } else {
        lemma_places_next(0, keep);
        assert(places_to(n) =~= places_to(0));
    }
}

/// The place of a description in the index files, or the start.
pub open spec fn place_of(desc: Description) -> int {
    match desc.index {
        Some(place) => place as int,
        None => 0,
    }
}

/// Two packages that were found rightly, the first of which is described no later
/// in the index files than the second.
pub open spec fn in_index_order<'a>(
    config: Config,
    args: Seq<String>,
    packages: Seq<Package>,
    descs: Seq<Description>,
    first: FoundPackage<'a>,
    second: FoundPackage<'a>,
    k: int,
) -> bool {
    exists|i: int, j: int|
        #[trigger] rightly_searched(config, args, packages, descs, first, i, k)
            && #[trigger] rightly_searched(config, args, packages, descs, second, j, k)
            && place_of(descs[i]) <= place_of(descs[j])
}

/// What an argument of a search finds comes in the order of the index files.
pub proof fn law_search_is_in_order<'a>(
    config: &Config,
    packages: &'a Vec<Package>,
    descs: &'a Vec<Description>,
    r: Result<CliPackages<'a>, GlobError>,
    k: int,
    p: int,
    q: int,
)
    requires
        packages@.len() == descs@.len(),
        config.apt.architectures@.len() > 0,
        call_ensures(regex_pkgs, (config, packages, descs), r),
        r is Ok,
        0 <= k < r->Ok_0.list@.len(),
        0 <= p < q < r->Ok_0.list@[k].pkgs@.len(),
    ensures
        in_index_order(
            *config,
            config.vec_map@["pkg_names"@]@,
            packages@,
            descs@,
            r->Ok_0.list@[k].pkgs@[p],
            r->Ok_0.list@[k].pkgs@[q],
            k,
        ),
{
    let args = config.vec_map@["pkg_names"@]@;
    assert(args.len() == config.vec_map@["pkg_names"@].len());
    let names_only = flag(*config, "names_only"@, false);
    let arch = config.apt.architectures@[0]@;
    let (list, sorted, filled) = choose|
        list: Seq<CliPackage<'a>>,
        sorted: Seq<Row<'a>>,
        filled: Seq<CliPackage<'a>>,
    | #[trigger]
        searched_for_args(*config, args, packages@, descs@, list, sorted, filled, r);
    let places = row_takers(list, names_only, sorted);
    let n = sorted.len() as int;
    assert(same_argument(list[k], filled[k]));
    lemma_rows_taken_by(places, sorted, n, k);
    lemma_places_increase(places, n, k);
    let taken = places_taken(places, n, k);
    let s = taken[p];
    let t = taken[q];
    let i = lemma_row_found(*config, args, packages@, descs@, list, sorted, k, s);
    let j = lemma_row_found(*config, args, packages@, descs@, list, sorted, k, t);
    assert(sorted[s].le(sorted[t]));
    assert(rightly_searched(*config, args, packages@, descs@, filled[k].pkgs@[p], i, k));
    assert(rightly_searched(*config, args, packages@, descs@, filled[k].pkgs@[q], j, k));
}

proof fn lemma_row_found<'a>(
    config: Config,
    args: Seq<String>,
    packages: Seq<Package>,
    descs: Seq<Description>,
    list: Seq<CliPackage<'a>>,
    sorted: Seq<Row<'a>>,
    k: int,
    s: int,
) -> (i: int)
    requires
        list.len() == args.len() <= usize::MAX,
        forall|i: int| 0 <= i < args.len() ==> reads_regex(#[trigger] list[i], args[i]@),
        stably_sorted(
            rows(packages, descs, config.apt.architectures@[0]@, packages.len() as int),
            sorted,
        ),
        places_taken(
            row_takers(list, flag(config, "names_only"@, false), sorted),
            sorted.len() as int,
            k,
        ).contains(s),
    ensures
        0 <= s < sorted.len(),
        sorted[s] == row_of::<'a>(packages, descs, i),
        rightly_searched(
            config,
            args,
            packages,
            descs,
            FoundPackage { pkg: sorted[s].pkg, version: sorted[s].version, modifier: None },
            i,
            k,
        ),
{
    let names_only = flag(config, "names_only"@, false);
    let arch = config.apt.architectures@[0]@;
    let all = rows::<'a>(packages, descs, arch, packages.len() as int);
    let places = row_takers(list, names_only, sorted);
    lemma_places_taken(places, sorted.len() as int, k, s);
    assert(sorted.contains(sorted[s]));
    crate::sort::law_sorting_keeps_items(all, sorted, sorted[s]);
    lemma_rows(packages, descs, arch, packages.len() as int, sorted[s]);
    let i = choose|i: int|
        0 <= i < packages.len() && (#[trigger] packages[i]).arch@ == arch
            && packages[i].versions@.len() > 0 && sorted[s] == row_of(packages, descs, i);
    assert(places[s] == as_place(row_taker(list, names_only, sorted[s])));
    lemma_row_bound(list, names_only, sorted[s]);
    lemma_row_taker(args, list, names_only, sorted[s], k);
    i
}

/// A search succeeds whenever it can: every argument is an expression and finds
/// some package with the machine's architecture and a version.
pub proof fn law_searches_that_can_be_met_are<'a>(
    config: &Config,
    packages: &'a Vec<Package>,
    descs: &'a Vec<Description>,
    r: Result<CliPackages<'a>, GlobError>,
)
    requires
        packages@.len() == descs@.len(),
        config.apt.architectures@.len() > 0,
        call_ensures(regex_pkgs, (config, packages, descs), r),
        config.vec_map@.dom().contains("pkg_names"@),
        ({
            let args = config.vec_map@["pkg_names"@]@;
            &&& forall|i: int|
                0 <= i < args.len() ==> regex_complaint((#[trigger] args[i])@) is None
            &&& forall|j: int|
                0 <= j < args.len() ==> #[trigger] searches_some(*config, packages@, descs@, j)
        }),
    ensures
        r is Ok,
{
    let args = config.vec_map@["pkg_names"@]@;
    assert(args.len() == config.vec_map@["pkg_names"@].len());
    let names_only = flag(*config, "names_only"@, false);
    let arch = config.apt.architectures@[0]@;
    lemma_first_regex_error(args);
    let (list, sorted, filled) = choose|
        list: Seq<CliPackage<'a>>,
        sorted: Seq<Row<'a>>,
        filled: Seq<CliPackage<'a>>,
    | #[trigger]
        searched_for_args(*config, args, packages@, descs@, list, sorted, filled, r);
    let places = row_takers(list, names_only, sorted);
    let n = sorted.len() as int;
    let all = rows::<'a>(packages@, descs@, arch, packages@.len() as int);
    lemma_none_missing(*config, filled, filled.len() as int);
    assert forall|k: int| 0 <= k < filled.len() implies (#[trigger] filled[k]).pkgs@.len() > 0 by {
        assert(searches_some(*config, packages@, descs@, k));
        let i = choose|i: int|
            0 <= i < packages@.len() && packages@[i].arch@ == arch && packages@[i].versions@.len()
                > 0 && #[trigger] finds(args, names_only, packages@[i], descs@[i].text, k);
        let row = row_of::<'a>(packages@, descs@, i);
        lemma_rows(packages@, descs@, arch, packages@.len() as int, row);
        crate::sort::law_sorting_keeps_items(all, sorted, row);
        let s = choose|s: int| 0 <= s < sorted.len() && sorted[s] == row;
        lemma_row_taker(args, list, names_only, row, k);
        assert(places[s] == as_place(row_taker(list, names_only, row)));
        lemma_rows_taken_by(places, sorted, n, k);
        lemma_places_taken(places, n, k, s);
        assert(places_taken(places, n, k).len() > 0);
        assert(same_argument(list[k], filled[k]));
    }
}

/// Argument `j` of a search finds some package with the machine's architecture
/// and a version.
pub open spec fn searches_some(
    config: Config,
    packages: Seq<Package>,
    descs: Seq<Description>,
    j: int,
) -> bool {
    exists|i: int|
        0 <= i < packages.len() && packages[i].arch@ == config.apt.architectures@[0]@
            && packages[i].versions@.len() > 0 && #[trigger] finds(
            config.vec_map@["pkg_names"@]@,
            flag(config, "names_only"@, false),
            packages[i],
            descs[i].text,
            j,
        )
}

proof fn lemma_first_regex_error(args: Seq<String>)
    requires
        forall|i: int| 0 <= i < args.len() ==> regex_complaint((#[trigger] args[i])@) is None,
    ensures
        first_regex_error(args) is None,
    decreases args.len(),
{
    if args.len() > 0 {
        let rest = args.skip(1);
        assert forall|i: int| 0 <= i < rest.len() implies regex_complaint(
            (#[trigger] rest[i])@,
        ) is None by {
            assert(rest[i] == args[i + 1]);
        }
        lemma_first_regex_error(rest);
    }
}

/// A name is meant by a glob that accepts it, or by an expression that matches in
/// it.
pub proof fn law_meant<'a>(cli: &CliPackage<'a>, other: &str, r: bool)
    requires
        call_ensures(CliPackage::is_match, (cli, other), r),
    ensures
        cli.matcher matches Matcher::Glob(glob) ==> r == glob_accepts(glob@, other@),
        cli.matcher matches Matcher::Regex(regex) ==> r == (regex_match(
            regex@,
            other@,
        ) is Some),
{
}

} // verus!

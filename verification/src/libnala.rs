//! The changes that a transaction makes, sorted by what happens to each
//! package, and the packages that stand for a virtual one.
use vstd::prelude::*;
use crate::apt::{Marked, Package, PkgCurrentState, Provider, Version};
use crate::cmd::grouped::{group, with_item, Grouped};
use crate::cmd::Operation;
use crate::config::{colored, Config, Theme};
use crate::error::NalaError;
use crate::seqs::{lemma_places_next, places_to};
use crate::text::texts;

verus! {

/// A change of one package.
#[derive(Debug)]
pub struct Change<'a> {
    pub operation: Operation,
    pub version: &'a Version,
    /// The version that is replaced, where one is.
    pub old_version: Option<&'a Version>,
}

/// What a mark on a package comes to.
#[derive(Debug)]
pub enum Verdict<'a> {
    /// The package does not change.
    Skip,
    /// The package has no mark, which apt never leaves it with.
    Impossible,
    Take(Change<'a>),
}

/// What the autoremover does with a package.
#[derive(Debug)]
pub enum Removal<'a> {
    Leave,
    /// Mark the package for deletion; its installed version, where it has one,
    /// counts as removed.
    Delete(Option<&'a Version>),
    /// Mark the package to be kept.
    Keep,
}

/// What stands for a package that may be virtual.
#[derive(Debug)]
pub enum Virtual {
    /// The package has versions of its own.
    Real,
    /// Nothing provides the package. The warning says so.
    Pure(String),
    /// One package provides it: the one at this place. The notice says so.
    Select(usize, String),
    /// Several packages provide it: the notice, the lines that name them, and
    /// the error that asks for a choice.
    Many(String, Vec<String>, NalaError),
}

/// apt takes one of the versions to be equal to `v`.
pub open spec fn among(versions: Seq<&Version>, v: Version) -> bool {
    exists|i: int| 0 <= i < versions.len() && (#[trigger] versions[i]).order == v.order
}

/// What the mark on a package comes to.
pub open spec fn verdict<'a>(pkg: Package, auto_remove: Seq<&'a Version>) -> Verdict<'a> {
    match pkg.marked {
        Marked::NewInstall | Marked::Install | Marked::ReInstall => match pkg.target() {
            Some(v) => Verdict::Take(
                Change {
                    operation: if pkg.marked == Marked::ReInstall {
                        Operation::Reinstall
                    } else {
                        Operation::Install
                    },
                    version: &v,
                    old_version: None,
                },
            ),
            None => Verdict::Skip,
        },
        Marked::Remove | Marked::Purge => match pkg.inst() {
            Some(v) => if among(auto_remove, v) {
                Verdict::Skip
            } else {
                Verdict::Take(
                    Change {
                        operation: if pkg.marked_purge {
                            Operation::Purge
                        } else {
                            Operation::Remove
                        },
                        version: &v,
                        old_version: None,
                    },
                )
            },
            None => Verdict::Skip,
        },
        Marked::Upgrade | Marked::Downgrade => match (pkg.inst(), pkg.cand()) {
            (Some(inst), Some(cand)) => Verdict::Take(
                Change {
                    operation: if pkg.marked == Marked::Upgrade {
                        Operation::Upgrade
                    } else {
                        Operation::Downgrade
                    },
                    version: &cand,
                    old_version: Some(&inst),
                },
            ),
            _ => Verdict::Skip,
        },
        Marked::Held => match pkg.cand() {
            Some(v) => Verdict::Take(
                Change { operation: Operation::Held, version: &v, old_version: None },
            ),
            None => Verdict::Skip,
        },
        Marked::Keep => Verdict::Skip,
        Marked::Unmarked => Verdict::Impossible,
    }
}

/// The changes that verdicts bring, in order.
pub open spec fn taken<'a>(verdicts: Seq<Verdict<'a>>) -> Seq<Change<'a>>
    decreases verdicts.len(),
{
    if verdicts.len() == 0 {
        Seq::empty()
    } else {
        match verdicts.last() {
            Verdict::Take(c) => taken(verdicts.drop_last()).push(c),
            _ => taken(verdicts.drop_last()),
        }
    }
}

/// Changes under their operations, in order.
pub open spec fn by_operation<'a>(changes: Seq<Change<'a>>) -> Map<Operation, Seq<Change<'a>>>
    decreases changes.len(),
{
    if changes.len() == 0 {
        Map::empty()
    } else {
        with_item(by_operation(changes.drop_last()), changes.last().operation, changes.last())
    }
}

/// The verdicts on packages, in order.
pub open spec fn verdicts<'a>(pkgs: Seq<Package>, auto_remove: Seq<&'a Version>) -> Seq<
    Verdict<'a>,
> {
    Seq::new(pkgs.len(), |i: int| verdict(pkgs[i], auto_remove))
}

/// The changes for the versions that are removed automatically.
pub open spec fn auto_removed<'a>(auto_remove: Seq<&'a Version>) -> Seq<Change<'a>> {
    Seq::new(
        auto_remove.len(),
        |i: int|
            Change { operation: Operation::AutoRemove, version: auto_remove[i], old_version: None },
    )
}

/// The place of the first package without a mark.
pub open spec fn first_unmarked(pkgs: Seq<Package>, i: int) -> bool {
    0 <= i < pkgs.len() && pkgs[i].marked == Marked::Unmarked && forall|j: int|
        0 <= j < i ==> (#[trigger] pkgs[j]).marked != Marked::Unmarked
}

/// The groups with those that are removed automatically, where there are any.
pub open spec fn with_auto_removed<'a>(
    m: Map<Operation, Seq<Change<'a>>>,
    auto_remove: Seq<&'a Version>,
) -> Map<Operation, Seq<Change<'a>>> {
    if auto_remove.len() == 0 {
        m
    } else {
        m.insert(Operation::AutoRemove, auto_removed(auto_remove))
    }
}

/// Whether apt takes one of the versions to be equal to `v`.
pub fn contains_version(versions: &Vec<&Version>, v: &Version) -> (r: bool)
    ensures
        r == among(versions@, *v),
{
    let mut i: usize = 0;
    while i < versions.len()
        invariant
            i <= versions@.len(),
            forall|j: int| 0 <= j < i ==> (#[trigger] versions@[j]).order != v.order,
        decreases versions@.len() - i,
    {
        if versions[i].order == v.order {
            assert(versions@[i as int].order == v.order);
            return true;
        }
        i = i + 1;
    }
    false
}

/// What the mark on a package comes to.
pub fn judge<'a>(pkg: &'a Package, auto_remove: &Vec<&'a Version>) -> (r: Verdict<'a>)
    ensures
        r == verdict(*pkg, auto_remove@),
{
    match pkg.marked {
        Marked::NewInstall | Marked::Install | Marked::ReInstall => {
            let operation = match pkg.marked {
                Marked::ReInstall => Operation::Reinstall,
                _ => Operation::Install,
            };
            match pkg.install_version() {
                Some(version) => Verdict::Take(Change { operation, version, old_version: None }),
                None => Verdict::Skip,
            }
        },
        Marked::Remove | Marked::Purge => match pkg.installed() {
            Some(version) => {
                if contains_version(auto_remove, version) {
                    return Verdict::Skip;
                }
                let operation = if pkg.marked_purge {
                    Operation::Purge
                } else {
                    Operation::Remove
                };
                Verdict::Take(Change { operation, version, old_version: None })
            },
            None => Verdict::Skip,
        },
        Marked::Upgrade | Marked::Downgrade => {
            let operation = match pkg.marked {
                Marked::Upgrade => Operation::Upgrade,
                _ => Operation::Downgrade,
            };
            match (pkg.installed(), pkg.candidate()) {
                (Some(inst), Some(version)) => Verdict::Take(
                    Change { operation, version, old_version: Some(inst) },
                ),
                _ => Verdict::Skip,
            }
        },
        Marked::Held => match pkg.candidate() {
            Some(version) => Verdict::Take(
                Change { operation: Operation::Held, version, old_version: None },
            ),
            None => Verdict::Skip,
        },
        Marked::Keep => Verdict::Skip,
        Marked::Unmarked => Verdict::Impossible,
    }
}

/// The changes for the versions that are removed automatically.
pub fn auto_remove_changes<'a>(auto_remove: &Vec<&'a Version>) -> (r: Vec<Change<'a>>)
    ensures
        r@ == auto_removed(auto_remove@),
{
    let mut r: Vec<Change<'a>> = Vec::new();
    let mut i: usize = 0;
    while i < auto_remove.len()
        invariant
            i <= auto_remove@.len(),
            r@ == auto_removed(auto_remove@).take(i as int),
        decreases auto_remove@.len() - i,
    {
        r.push(
            Change { operation: Operation::AutoRemove, version: auto_remove[i], old_version: None },
        );
        assert(r@ =~= auto_removed(auto_remove@).take(i + 1));
        i = i + 1;
    }
    assert(auto_removed(auto_remove@).take(i as int) =~= auto_removed(auto_remove@));
    r
}

/// The error for a package without a mark.
pub open spec fn unmarked_error(name: Seq<char>) -> Seq<char> {
    name + " not marked, this should be impossible"@
}

/// The autoremover keeps what only its configuration files are left of, and
/// deletes the other packages that nothing needs.
pub open spec fn removal<'a>(pkg: Package) -> Removal<'a> {
    if !pkg.auto_removable {
        Removal::Leave
    } else if pkg.current_state != PkgCurrentState::ConfigFiles {
        match pkg.inst() {
            Some(v) => Removal::Delete(Some(&v)),
            None => Removal::Delete(None),
        }
    } else {
        Removal::Keep
    }
}

/// The autoremover, on installed packages only.
pub open spec fn installed_removal<'a>(pkg: Package) -> Removal<'a> {
    if pkg.inst() is None {
        Removal::Leave
    } else {
        removal(pkg)
    }
}

/// The versions that removals take away, in order.
pub open spec fn removed<'a>(removals: Seq<Removal<'a>>) -> Seq<&'a Version>
    decreases removals.len(),
{
    if removals.len() == 0 {
        Seq::empty()
    } else {
        match removals.last() {
            Removal::Delete(Some(v)) => removed(removals.drop_last()).push(v),
            _ => removed(removals.drop_last()),
        }
    }
}

/// What the autoremover does with a package.
pub fn removal_of(pkg: &Package) -> (r: Removal<'_>)
    ensures
        r == removal(*pkg),
{
    if !pkg.auto_removable {
        return Removal::Leave;
    }
    match pkg.current_state {
        PkgCurrentState::ConfigFiles => Removal::Keep,
        _ => Removal::Delete(pkg.installed()),
    }
}

/// The packages of a cache, and those of them that change.
#[derive(Debug)]
pub struct Cache {
    pub packages: Vec<Package>,
    pub changed: Vec<Package>,
}

/// What the cache is asked for.
pub trait NalaCache {
    /// The packages of the cache.
    spec fn all(&self) -> Seq<Package>;

    /// The packages that change.
    spec fn changes(&self) -> Seq<Package>;

    /// Sorts the changes by what happens to each package. Packages that are
    /// removed automatically are listed once, as such.
    fn sort_changes<'a>(&'a self, auto_remove: &Vec<&'a Version>) -> (r: Result<
        Grouped<Change<'a>>,
        NalaError,
    >)
        ensures
            match r {
                Ok(set) => {
                    &&& set.wf()
                    &&& self.changes().len() == 0 ==> set@ == Map::<
                        Operation,
                        Seq<Change<'a>>,
                    >::empty()
                    &&& self.changes().len() > 0 ==> set@ == with_auto_removed(
                        by_operation(taken(verdicts(self.changes(), auto_remove@))),
                        auto_remove@,
                    )
                    &&& forall|i: int|
                        0 <= i < self.changes().len() ==> (#[trigger] self.changes()[i]).marked
                            != Marked::Unmarked
                },
                Err(e) => exists|i: int|
                    #[trigger] first_unmarked(self.changes(), i) && e.message@ == unmarked_error(
                        self.changes()[i].name@,
                    ),
            },
    ;

    /// What the autoremover does with each package, and the versions that it
    /// takes away.
    fn auto_remove<'a>(&'a self) -> (r: (Vec<Removal<'a>>, Vec<&'a Version>))
        ensures
            r.0@ == Seq::new(self.all().len(), |i: int| installed_removal(self.all()[i])),
            r.1@ == removed(r.0@),
    ;
}

impl NalaCache for Cache {
    open spec fn all(&self) -> Seq<Package> {
        self.packages@
    }

    open spec fn changes(&self) -> Seq<Package> {
        self.changed@
    }

    fn sort_changes<'a>(&'a self, auto_remove: &Vec<&'a Version>) -> (r: Result<
        Grouped<Change<'a>>,
        NalaError,
    >) {
        let mut set: Grouped<Change<'a>> = Grouped::new();
        if self.changed.len() == 0 {
            return Ok(set);
        }
        let ghost all = verdicts(self.changed@, auto_remove@);
        let mut i: usize = 0;
        assert(all.take(0) =~= Seq::empty());
        while i < self.changed.len()
            invariant
                i <= self.changed@.len(),
                all == verdicts(self.changed@, auto_remove@),
                set.wf(),
                set@ == by_operation(taken(all.take(i as int))),
                forall|j: int|
                    0 <= j < i ==> (#[trigger] self.changed@[j]).marked != Marked::Unmarked,
            decreases self.changed@.len() - i,
        {
            let ghost before = taken(all.take(i as int));
            assert(all.take(i + 1).drop_last() =~= all.take(i as int));
            assert(all.take(i + 1).last() == verdict(self.changed@[i as int], auto_remove@));
            match judge(&self.changed[i], auto_remove) {
                Verdict::Take(change) => {
                    assert(before.push(change).drop_last() =~= before);
                    set.push(change.operation, change);
                },
                Verdict::Skip => {},
                Verdict::Impossible => {
                    let mut message = self.changed[i].name.clone();
                    message.append(" not marked, this should be impossible");
                    assert(first_unmarked(self.changes(), i as int));
                    return Err(NalaError::from_string(message));
                },
            }
            i = i + 1;
        }
        assert(all.take(i as int) =~= all);
        if auto_remove.len() > 0 {
            set.insert(Operation::AutoRemove, auto_remove_changes(auto_remove));
        }
        Ok(set)
    }

    fn auto_remove<'a>(&'a self) -> (r: (Vec<Removal<'a>>, Vec<&'a Version>)) {
        let mut removals: Vec<Removal<'a>> = Vec::new();
        let mut versions: Vec<&'a Version> = Vec::new();
        let mut i: usize = 0;
        while i < self.packages.len()
            invariant
                i <= self.packages@.len(),
                removals@ == Seq::new(i as nat, |k: int| installed_removal(self.packages@[k])),
                versions@ == removed(removals@),
            decreases self.packages@.len() - i,
        {
            let pkg = &self.packages[i];
            let ghost before = removals@;
            let step = match pkg.installed() {
                None => Removal::Leave,
                Some(_) => removal_of(pkg),
            };
            if let Removal::Delete(Some(v)) = &step {
                versions.push(*v);
            }
            removals.push(step);
            proof {
                assert(removals@.drop_last() =~= before);
                assert(removals@ =~= Seq::new(
                    (i + 1) as nat,
                    |k: int| installed_removal(self.packages@[k]),
                ));
            }
            i = i + 1;
        }
        (removals, versions)
    }
}

/// No earlier provider is the same package as the one at `i`.
pub open spec fn first_of_its_id(providers: Seq<Provider>, i: int) -> bool {
    0 <= i < providers.len() && forall|j: int|
        0 <= j < i ==> (#[trigger] providers[j]).id != providers[i].id
}

/// The places below `n` at which a package is named for the first time.
pub open spec fn distinct_to(providers: Seq<Provider>, n: int) -> Seq<usize>
    decreases n,
{
    if n <= 0 {
        Seq::empty()
    } else if first_of_its_id(providers, n - 1) {
        distinct_to(providers, n - 1).push((n - 1) as usize)
    } else {
        distinct_to(providers, n - 1)
    }
}

/// The places of the providing packages, each once.
pub open spec fn distinct_providers(providers: Seq<Provider>) -> Seq<usize> {
    distinct_to(providers, providers.len() as int)
}

/// The line that offers a provider.
pub open spec fn provider_line(config: Config, p: Provider, version: Seq<char>) -> Seq<char> {
    "    "@ + colored(config, Theme::Primary, p.fullname@) + " "@ + colored(
        config,
        Theme::Secondary,
        version,
    )
}

/// The lines that offer the providers at some places: those that could be
/// installed.
pub open spec fn provider_lines(
    config: Config,
    providers: Seq<Provider>,
    places: Seq<usize>,
) -> Seq<Seq<char>>
    decreases places.len(),
{
    if places.len() == 0 {
        Seq::empty()
    } else {
        let before = provider_lines(config, providers, places.drop_last());
        let p = providers[places.last() as int];
        match p.candidate {
            Some(v) => before.push(provider_line(config, p, v@)),
            None => before,
        }
    }
}

/// What stands for a package that may be virtual.
pub trait NalaPkg {
    /// The package.
    spec fn package(&self) -> Package;

    /// Finds what stands for the package: itself where it has versions, else
    /// its only provider. Several providers are offered for a choice.
    fn filter_virtual(&self, config: &Config) -> (r: Virtual)
        ensures
            ({
                let pkg = self.package();
                let places = distinct_providers(pkg.providers@);
                let name = colored(*config, Theme::Primary, pkg.name@);
                match r {
                    Virtual::Real => pkg.versions@.len() > 0,
                    Virtual::Pure(warning) => pkg.versions@.len() == 0 && places.len() == 0
                        && warning@ == name + " has no providers and is purely virutal"@,
                    Virtual::Select(i, notice) => pkg.versions@.len() == 0 && places == seq![i]
                        && i < pkg.providers@.len() && notice@ == "Selecting "@ + colored(
                        *config,
                        Theme::Primary,
                        pkg.providers@[i as int].long_name@,
                    ) + " instead of virtual package "@ + name,
                    Virtual::Many(notice, lines, error) => pkg.versions@.len() == 0 && places.len()
                        > 1 && notice@ == name + " is a virtual package provided by:"@ && texts(
                        lines@,
                    ) == provider_lines(*config, pkg.providers@, places) && error.message@
                        == "You should select just one."@,
                }
            }),
    ;
}

proof fn lemma_distinct_bounds(providers: Seq<Provider>, n: int)
    requires
        0 <= n <= providers.len() <= usize::MAX,
    ensures
        forall|k: int|
            0 <= k < distinct_to(providers, n).len() ==> #[trigger] distinct_to(providers, n)[k]
                < n,
    decreases n,
{
    if n > 0 {
        lemma_distinct_bounds(providers, n - 1);
        let before = distinct_to(providers, n - 1);
        let all = distinct_to(providers, n);
        assert forall|k: int| 0 <= k < all.len() implies #[trigger] all[k] < n by {
            if k < before.len() {
                assert(all[k] == before[k]);
                assert(before[k] < n - 1);
            }
        }
    }
}

/// The places of the providing packages, each once.
fn distinct_places(providers: &Vec<Provider>) -> (r: Vec<usize>)
    ensures
        r@ == distinct_providers(providers@),
        forall|k: int| 0 <= k < r@.len() ==> #[trigger] r@[k] < providers@.len(),
{
    let mut r: Vec<usize> = Vec::new();
    let mut i: usize = 0;
    while i < providers.len()
        invariant
            i <= providers@.len(),
            r@ == distinct_to(providers@, i as int),
        decreases providers@.len() - i,
    {
        let mut fresh = true;
        let mut j: usize = 0;
        while j < i
            invariant
                j <= i < providers@.len(),
                fresh == forall|k: int|
                    0 <= k < j ==> (#[trigger] providers@[k]).id != providers@[i as int].id,
            decreases i - j,
        {
            if providers[j].id == providers[i].id {
                fresh = false;
            }
            j = j + 1;
        }
        if fresh {
            r.push(i);
        }
        i = i + 1;
    }
    let n: usize = providers.len();
    proof {
        lemma_distinct_bounds(providers@, n as int);
    }
    r
}

impl NalaPkg for Package {
    open spec fn package(&self) -> Package {
        *self
    }

    fn filter_virtual(&self, config: &Config) -> (r: Virtual) {
        if self.versions.len() > 0 {
            return Virtual::Real;
        }
        let places = distinct_places(&self.providers);
        let name = config.color(Theme::Primary, self.name.as_str());
        if places.len() == 0 {
            let mut warning = name;
            warning.append(" has no providers and is purely virutal");
            return Virtual::Pure(warning);
        }
        if places.len() == 1 {
            let i: usize = places[0];
            let mut notice = "Selecting ".to_owned();
            notice.append(
                config.color(Theme::Primary, self.providers[i].long_name.as_str()).as_str(),
            );
            notice.append(" instead of virtual package ");
            notice.append(name.as_str());
            assert(places@ =~= seq![i]);
            return Virtual::Select(i, notice);
        }
        let mut notice = name;
        notice.append(" is a virtual package provided by:");
        let mut lines: Vec<String> = Vec::new();
        let mut k: usize = 0;
        assert(places@.take(0) =~= Seq::empty());
        assert(texts(lines@) =~= provider_lines(*config, self.providers@, places@.take(0)));
        while k < places.len()
            invariant
                k <= places@.len(),
                forall|j: int| 0 <= j < places@.len() ==> #[trigger] places@[j]
                    < self.providers@.len(),
                texts(lines@) == provider_lines(*config, self.providers@, places@.take(k as int)),
            decreases places@.len() - k,
        {
            let p = &self.providers[places[k]];
            let ghost before = texts(lines@);
            assert(places@.take(k + 1).drop_last() =~= places@.take(k as int));
            if let Some(version) = &p.candidate {
                let mut line = "    ".to_owned();
                line.append(config.color(Theme::Primary, p.fullname.as_str()).as_str());
                line.append(" ");
                line.append(config.color(Theme::Secondary, version.as_str()).as_str());
                lines.push(line);
                assert(texts(lines@) =~= before.push(line@));
            }
            k = k + 1;
        }
        assert(places@.take(k as int) =~= places@);
        Virtual::Many(notice, lines, NalaError::new("You should select just one."))
    }
}

/// Each operation's group holds exactly the changes with that operation, in
/// the order in which they came.
pub proof fn law_group_is_the_filter<'a>(changes: Seq<Change<'a>>, op: Operation)
    ensures
        group(by_operation(changes), op) == changes.filter(|c: Change<'a>| c.operation == op),
    decreases changes.len(),
{
    let keep = |c: Change<'a>| c.operation == op;
    reveal(Seq::filter);
    if changes.len() > 0 {
        law_group_is_the_filter(changes.drop_last(), op);
        assert(changes.filter(keep) == if keep(changes.last()) {
            changes.drop_last().filter(keep).push(changes.last())
        } else {
            changes.drop_last().filter(keep)
        });
    } else {
        assert(changes.filter(keep) =~= Seq::empty());
    }
}

/// No version that is removed automatically is listed as removed or purged.
pub proof fn law_auto_removed_is_not_removed<'a>(
    pkgs: Seq<Package>,
    auto_remove: Seq<&'a Version>,
    n: int,
)
    requires
        0 <= n < taken(verdicts(pkgs, auto_remove)).len(),
    ensures
        ({
            let change = taken(verdicts(pkgs, auto_remove))[n];
            (change.operation == Operation::Remove || change.operation == Operation::Purge)
                ==> !among(auto_remove, *change.version)
        }),
    decreases pkgs.len(),
{
    let all = verdicts(pkgs, auto_remove);
    if pkgs.len() > 0 {
        assert(all.drop_last() =~= verdicts(pkgs.drop_last(), auto_remove));
        if n < taken(all.drop_last()).len() {
            law_auto_removed_is_not_removed(pkgs.drop_last(), auto_remove, n);
        }
    }
}

/// The autoremover only ever takes away a version that is installed.
pub proof fn law_only_installed_versions_go(pkgs: Seq<Package>, n: int)
    requires
        0 <= n < removed(Seq::new(pkgs.len(), |i: int| installed_removal(pkgs[i]))).len(),
    ensures
        exists|i: int|
            0 <= i < pkgs.len() && (#[trigger] pkgs[i]).inst() == Some(
                *removed(Seq::new(pkgs.len(), |i: int| installed_removal(pkgs[i])))[n],
            ) && pkgs[i].auto_removable,
    decreases pkgs.len(),
{
    let all = Seq::new(pkgs.len(), |i: int| installed_removal(pkgs[i]));
    if pkgs.len() > 0 {
        let shorter = pkgs.drop_last();
        let front = Seq::new(shorter.len(), |i: int| installed_removal(shorter[i]));
        assert(all.drop_last() =~= front);
        if n < removed(front).len() {
            law_only_installed_versions_go(shorter, n);
            let i = choose|i: int|
                0 <= i < shorter.len() && (#[trigger] shorter[i]).inst() == Some(
                    *removed(front)[n],
                ) && shorter[i].auto_removable;
            assert(pkgs[i] == shorter[i]);
            assert(removed(all)[n] == removed(front)[n]);
        } else {
            assert(pkgs[pkgs.len() - 1].inst() == Some(*removed(all)[n]));
        }
    }
}

/// A group holds these items. A group without items is not there.
pub open spec fn is_group<T>(m: Map<Operation, Seq<T>>, op: Operation, items: Seq<T>) -> bool {
    if items.len() == 0 {
        !m.dom().contains(op)
    } else {
        m.dom().contains(op) && m[op] == items
    }
}

/// The changes that are taken with an operation are those of the packages that
/// are kept for it, in order.
pub proof fn lemma_taken_group<'a>(
    pkgs: Seq<Package>,
    found: Seq<Verdict<'a>>,
    op: Operation,
    keep: spec_fn(Package) -> bool,
    make: spec_fn(Package) -> Change<'a>,
)
    requires
        found.len() == pkgs.len(),
        forall|i: int|
            0 <= i < pkgs.len() ==> (match #[trigger] found[i] {
                Verdict::Take(c) => (c.operation == op) == keep(pkgs[i]) && (c.operation == op ==> c
                    == make(pkgs[i])),
                _ => !keep(pkgs[i]),
            }),
    ensures
        is_group(by_operation(taken(found)), op, pkgs.filter(keep).map_values(make)),
    decreases pkgs.len(),
{
    let all = pkgs.filter(keep).map_values(make);
    reveal(Seq::filter);
    if pkgs.len() == 0 {
        assert(all =~= Seq::<Change<'a>>::empty());
    } else {
        let before = pkgs.drop_last();
        assert forall|i: int| 0 <= i < before.len() implies (match #[trigger] found.drop_last()[i] {
            Verdict::Take(c) => (c.operation == op) == keep(before[i]) && (c.operation == op ==> c
                == make(before[i])),
            _ => !keep(before[i]),
        }) by {
            assert(found.drop_last()[i] == found[i]);
        }
        lemma_taken_group(before, found.drop_last(), op, keep, make);
        let last = pkgs.last();
        assert(found.last() == found[pkgs.len() - 1]);
        if keep(last) {
            assert(pkgs.filter(keep) == before.filter(keep).push(last));
            crate::seqs::lemma_map_push(before.filter(keep), last, make);
        }
        let others = before.filter(keep).map_values(make);
        if others.len() == 0 {
            assert(others =~= Seq::<Change<'a>>::empty());
        }
        match found.last() {
            Verdict::Take(c) => {
                let changes = taken(found.drop_last());
                assert(changes.push(c).drop_last() =~= changes);
                assert(changes.push(c).last() == c);
            },
            _ => {},
        }
    }
}

/// What a transaction does is listed, and nothing else: every package that
/// changes stands under the operation of its mark, with the version that it
/// gets or loses, and the packages of an operation keep their order. Those that
/// are removed automatically are listed as such.
pub proof fn law_every_change_is_listed<'a>(
    cache: &'a Cache,
    auto_remove: &Vec<&'a Version>,
    r: Result<Grouped<Change<'a>>, NalaError>,
)
    requires
        call_ensures(Cache::sort_changes, (cache, auto_remove), r),
    ensures
        r is Ok <==> forall|i: int|
            0 <= i < cache.changed@.len() ==> (#[trigger] cache.changed@[i]).marked
                != Marked::Unmarked,
        r is Ok && cache.changed@.len() == 0 ==> r->Ok_0@.dom() == Set::<Operation>::empty(),
        r is Ok && cache.changed@.len() > 0 ==> {
            let m = r->Ok_0@;
            let pkgs = cache.changed@;
            let gone = |p: Package|
                (p.marked == Marked::Remove || p.marked == Marked::Purge) && p.inst() is Some
                    && forall|k: int|
                    0 <= k < auto_remove@.len() ==> (#[trigger] auto_remove@[k]).order
                        != p.inst()->0.order;
            &&& is_group(
                m,
                Operation::Install,
                pkgs.filter(
                    |p: Package|
                        (p.marked == Marked::NewInstall || p.marked == Marked::Install)
                            && p.target() is Some,
                ).map_values(
                    |p: Package|
                        Change {
                            operation: Operation::Install,
                            version: &p.target()->0,
                            old_version: None,
                        },
                ),
            )
            &&& is_group(
                m,
                Operation::Reinstall,
                pkgs.filter(
                    |p: Package| p.marked == Marked::ReInstall && p.target() is Some,
                ).map_values(
                    |p: Package|
                        Change {
                            operation: Operation::Reinstall,
                            version: &p.target()->0,
                            old_version: None,
                        },
                ),
            )
            &&& is_group(
                m,
                Operation::Remove,
                pkgs.filter(|p: Package| gone(p) && !p.marked_purge).map_values(
                    |p: Package|
                        Change {
                            operation: Operation::Remove,
                            version: &p.inst()->0,
                            old_version: None,
                        },
                ),
            )
            &&& is_group(
                m,
                Operation::Purge,
                pkgs.filter(|p: Package| gone(p) && p.marked_purge).map_values(
                    |p: Package|
                        Change {
                            operation: Operation::Purge,
                            version: &p.inst()->0,
                            old_version: None,
                        },
                ),
            )
            &&& is_group(
                m,
                Operation::Upgrade,
                pkgs.filter(
                    |p: Package|
                        p.marked == Marked::Upgrade && p.inst() is Some && p.cand() is Some,
                ).map_values(
                    |p: Package|
                        Change {
                            operation: Operation::Upgrade,
                            version: &p.cand()->0,
                            old_version: Some(&p.inst()->0),
                        },
                ),
            )
            &&& is_group(
                m,
                Operation::Downgrade,
                pkgs.filter(
                    |p: Package|
                        p.marked == Marked::Downgrade && p.inst() is Some && p.cand() is Some,
                ).map_values(
                    |p: Package|
                        Change {
                            operation: Operation::Downgrade,
                            version: &p.cand()->0,
                            old_version: Some(&p.inst()->0),
                        },
                ),
            )
            &&& is_group(
                m,
                Operation::Held,
                pkgs.filter(|p: Package| p.marked == Marked::Held && p.cand() is Some).map_values(
                    |p: Package|
                        Change {
                            operation: Operation::Held,
                            version: &p.cand()->0,
                            old_version: None,
                        },
                ),
            )
            &&& is_group(
                m,
                Operation::AutoRemove,
                auto_remove@.map_values(
                    |v: &'a Version|
                        Change { operation: Operation::AutoRemove, version: v, old_version: None },
                ),
            )
            &&& !m.dom().contains(Operation::AutoPurge)
        },
{
    let pkgs = cache.changed@;
    let found = verdicts(pkgs, auto_remove@);
    if r is Ok && pkgs.len() > 0 {
        let gone = |p: Package|
            (p.marked == Marked::Remove || p.marked == Marked::Purge) && p.inst() is Some
                && forall|k: int|
                0 <= k < auto_remove@.len() ==> (#[trigger] auto_remove@[k]).order
                    != p.inst()->0.order;
        lemma_taken_group(
            pkgs,
            found,
            Operation::Install,
            |p: Package|
                (p.marked == Marked::NewInstall || p.marked == Marked::Install) && p.target() is Some,
            |p: Package|
                Change {
                    operation: Operation::Install,
                    version: &p.target()->0,
                    old_version: None,
                },
        );
        lemma_taken_group(
            pkgs,
            found,
            Operation::Reinstall,
            |p: Package| p.marked == Marked::ReInstall && p.target() is Some,
            |p: Package|
                Change {
                    operation: Operation::Reinstall,
                    version: &p.target()->0,
                    old_version: None,
                },
        );
        lemma_taken_group(
            pkgs,
            found,
            Operation::Remove,
            |p: Package| gone(p) && !p.marked_purge,
            |p: Package|
                Change { operation: Operation::Remove, version: &p.inst()->0, old_version: None },
        );
        lemma_taken_group(
            pkgs,
            found,
            Operation::Purge,
            |p: Package| gone(p) && p.marked_purge,
            |p: Package|
                Change { operation: Operation::Purge, version: &p.inst()->0, old_version: None },
        );
        lemma_taken_group(
            pkgs,
            found,
            Operation::Upgrade,
            |p: Package| p.marked == Marked::Upgrade && p.inst() is Some && p.cand() is Some,
            |p: Package|
                Change {
                    operation: Operation::Upgrade,
                    version: &p.cand()->0,
                    old_version: Some(&p.inst()->0),
                },
        );
        lemma_taken_group(
            pkgs,
            found,
            Operation::Downgrade,
            |p: Package| p.marked == Marked::Downgrade && p.inst() is Some && p.cand() is Some,
            |p: Package|
                Change {
                    operation: Operation::Downgrade,
                    version: &p.cand()->0,
                    old_version: Some(&p.inst()->0),
                },
        );
        lemma_taken_group(
            pkgs,
            found,
            Operation::Held,
            |p: Package| p.marked == Marked::Held && p.cand() is Some,
            |p: Package|
                Change { operation: Operation::Held, version: &p.cand()->0, old_version: None },
        );
        let none = |p: Package| false;
        let any = |p: Package|
            Change { operation: Operation::Held, version: &p.cand()->0, old_version: None };
        lemma_taken_group(pkgs, found, Operation::AutoRemove, none, any);
        lemma_taken_group(pkgs, found, Operation::AutoPurge, none, any);
        lemma_nothing_kept(pkgs, none);
        assert(auto_removed(auto_remove@) =~= auto_remove@.map_values(
            |v: &'a Version|
                Change { operation: Operation::AutoRemove, version: v, old_version: None },
        ));
    }
}

/// A filter that keeps nothing leaves nothing.
pub proof fn lemma_nothing_kept<T>(s: Seq<T>, keep: spec_fn(T) -> bool)
    requires
        forall|x: T| !#[trigger] keep(x),
    ensures
        s.filter(keep).len() == 0,
    decreases s.len(),
{
    reveal(Seq::filter);
    if s.len() > 0 {
        lemma_nothing_kept(s.drop_last(), keep);
    }
}

/// The versions that are removed are those of the packages that are deleted and
/// have one, in order.
pub proof fn lemma_removed<'a>(
    pkgs: Seq<Package>,
    found: Seq<Removal<'a>>,
    keep: spec_fn(Package) -> bool,
    make: spec_fn(Package) -> &'a Version,
)
    requires
        found.len() == pkgs.len(),
        forall|i: int|
            0 <= i < pkgs.len() ==> (match #[trigger] found[i] {
                Removal::Delete(Some(v)) => keep(pkgs[i]) && v == make(pkgs[i]),
                _ => !keep(pkgs[i]),
            }),
    ensures
        removed(found) == pkgs.filter(keep).map_values(make),
    decreases pkgs.len(),
{
    reveal(Seq::filter);
    if pkgs.len() == 0 {
        assert(pkgs.filter(keep).map_values(make) =~= Seq::<&'a Version>::empty());
    } else {
        let before = pkgs.drop_last();
        assert forall|i: int| 0 <= i < before.len() implies (match #[trigger] found.drop_last()[i] {
            Removal::Delete(Some(v)) => keep(before[i]) && v == make(before[i]),
            _ => !keep(before[i]),
        }) by {
            assert(found.drop_last()[i] == found[i]);
        }
        lemma_removed(before, found.drop_last(), keep, make);
        assert(found.last() == found[pkgs.len() - 1]);
        if keep(pkgs.last()) {
            crate::seqs::lemma_map_push(before.filter(keep), pkgs.last(), make);
        }
    }
}

/// The autoremover deletes every installed package that can go, keeps those of
/// which only configuration files are left, and leaves all others alone. The
/// versions that it takes away are those of the packages that it deletes.
pub proof fn law_autoremover<'a>(cache: &'a Cache, r: (Vec<Removal<'a>>, Vec<&'a Version>))
    requires
        call_ensures(Cache::auto_remove, (cache,), r),
    ensures
        r.0@.len() == cache.packages@.len(),
        forall|i: int|
            0 <= i < cache.packages@.len() ==> {
                let p = #[trigger] cache.packages@[i];
                let orphan = p.inst() is Some && p.auto_removable;
                let only_files = p.current_state == PkgCurrentState::ConfigFiles;
                &&& r.0@[i] is Delete <==> orphan && !only_files
                &&& orphan && !only_files ==> r.0@[i] == Removal::Delete(Some(&p.inst()->0))
                &&& r.0@[i] is Keep <==> orphan && only_files
                &&& r.0@[i] is Leave <==> !orphan
            },
        r.1@ == cache.packages@.filter(
            |p: Package|
                p.inst() is Some && p.auto_removable && p.current_state
                    != PkgCurrentState::ConfigFiles,
        ).map_values(|p: Package| &p.inst()->0),
{
    lemma_removed(
        cache.packages@,
        r.0@,
        |p: Package|
            p.inst() is Some && p.auto_removable && p.current_state != PkgCurrentState::ConfigFiles,
        |p: Package| &p.inst()->0,
    );
}

proof fn lemma_offered(
    config: Config,
    providers: Seq<Provider>,
    n: int,
    keep: spec_fn(int) -> bool,
    line: spec_fn(int) -> Seq<char>,
)
    requires
        0 <= n <= providers.len() <= usize::MAX,
        forall|i: int|
            0 <= i < providers.len() ==> #[trigger] keep(i) == (first_of_its_id(providers, i)
                && providers[i].candidate is Some),
        forall|i: int|
            0 <= i < providers.len() && providers[i].candidate is Some ==> #[trigger] line(i)
                == provider_line(config, providers[i], providers[i].candidate->0@),
    ensures
        provider_lines(config, providers, distinct_to(providers, n)) == places_to(n).filter(
            keep,
        ).map_values(line),
    decreases n,
{
    if n <= 0 {
        lemma_places_next(0, keep);
        assert(places_to(0).filter(keep).map_values(line) =~= Seq::<Seq<char>>::empty());
        assert(places_to(n) =~= places_to(0));
    } else {
        lemma_offered(config, providers, n - 1, keep, line);
        lemma_places_next(n - 1, keep);
        let before = distinct_to(providers, n - 1);
        let k = (n - 1) as usize;
        assert(before.push(k).drop_last() =~= before);
        assert(before.push(k).last() == k);
        assert(keep(n - 1) == (first_of_its_id(providers, n - 1) && providers[n
            - 1].candidate is Some));
        if keep(n - 1) {
            crate::seqs::lemma_map_push(places_to(n - 1).filter(keep), n - 1, line);
            assert(line(n - 1) == provider_line(
                config,
                providers[n - 1],
                providers[n - 1].candidate->0@,
            ));
        }
    }
}

proof fn lemma_distinct_count(providers: Seq<Provider>, n: int)
    requires
        0 <= n <= providers.len() <= usize::MAX,
    ensures
        n > 0 ==> distinct_to(providers, n).len() > 0 && distinct_to(providers, n)[0] == 0,
        distinct_to(providers, n).len() <= 1 <==> forall|i: int|
            0 <= i < n ==> (#[trigger] providers[i]).id == providers[0].id,
    decreases n,
{
    if n > 0 {
        lemma_distinct_count(providers, n - 1);
        let last = providers[n - 1];
        if n > 1 {
            if first_of_its_id(providers, n - 1) {
                assert(providers[0].id != last.id);
            } else {
                let j = choose|j: int|
                    0 <= j < n - 1 && (#[trigger] providers[j]).id == last.id;
                assert(0 <= j < n - 1 && providers[j].id == last.id);
            }
        }
    }
}

/// A package with versions stands for itself. A virtual package leads to the one
/// package that provides it, to a choice where several do, and to a warning
/// where none does. A package that provides it several times counts once, and
/// each with a version to install is offered.
pub proof fn law_virtual_package(pkg: &Package, config: &Config, r: Virtual)
    requires
        call_ensures(Package::filter_virtual, (pkg, config), r),
        pkg.providers@.len() <= usize::MAX,
    ensures
        r is Real <==> pkg.versions@.len() > 0,
        r is Pure <==> pkg.versions@.len() == 0 && pkg.providers@.len() == 0,
        r is Select <==> pkg.versions@.len() == 0 && pkg.providers@.len() > 0 && forall|i: int|
            0 <= i < pkg.providers@.len() ==> (#[trigger] pkg.providers@[i]).id
                == pkg.providers@[0].id,
        match r {
            Virtual::Select(i, _) => i == 0,
            Virtual::Many(_, lines, _) => texts(lines@) == places_to(
                pkg.providers@.len() as int,
            ).filter(
                |i: int|
                    pkg.providers@[i].candidate is Some && forall|j: int|
                        0 <= j < i ==> (#[trigger] pkg.providers@[j]).id != pkg.providers@[i].id,
            ).map_values(
                |i: int|
                    "    "@ + colored(*config, Theme::Primary, pkg.providers@[i].fullname@) + " "@
                        + colored(
                        *config,
                        Theme::Secondary,
                        pkg.providers@[i].candidate->0@,
                    ),
            ),
            _ => true,
        },
{
    let n = pkg.providers@.len() as int;
    lemma_distinct_count(pkg.providers@, n);
    lemma_offered(
        *config,
        pkg.providers@,
        n,
        |i: int|
            pkg.providers@[i].candidate is Some && forall|j: int|
                0 <= j < i ==> (#[trigger] pkg.providers@[j]).id != pkg.providers@[i].id,
        |i: int|
            "    "@ + colored(*config, Theme::Primary, pkg.providers@[i].fullname@) + " "@
                + colored(*config, Theme::Secondary, pkg.providers@[i].candidate->0@),
    );
}

} // verus!

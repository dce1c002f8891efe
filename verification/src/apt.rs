//! What the program reads of apt's package cache, as plain values.
use vstd::prelude::*;
use crate::text::str_eq;

verus! {

/// An index file that a version comes from.
#[derive(Debug)]
pub struct PackageFile {
    /// The archive, such as `stable`; `now` stands for the installed packages.
    pub archive: Option<String>,
    pub origin: Option<String>,
    pub codename: Option<String>,
    pub component: Option<String>,
    pub arch: Option<String>,
    pub filename: Option<String>,
    pub downloadable: bool,
    pub trusted: bool,
}

/// A version in an index file, with the URI that the index gives for it.
#[derive(Debug)]
pub struct VersionFile {
    pub file: PackageFile,
    pub uri: String,
}

/// The kind of a dependency.
#[derive(Debug, Clone, Copy, PartialEq, Eq, Structural)]
pub enum DepType {
    Depends,
    PreDepends,
    Suggests,
    Recommends,
    Conflicts,
    Replaces,
    Obsoletes,
    DpkgBreaks,
    Enhances,
}

impl DepType {
    /// The name of the kind.
    pub open spec fn name(self) -> Seq<char> {
        match self {
            DepType::Depends => "Depends"@,
            DepType::PreDepends => "PreDepends"@,
            DepType::Suggests => "Suggests"@,
            DepType::Recommends => "Recommends"@,
            DepType::Conflicts => "Conflicts"@,
            DepType::Replaces => "Replaces"@,
            DepType::Obsoletes => "Obsoletes"@,
            DepType::DpkgBreaks => "Breaks"@,
            DepType::Enhances => "Enhances"@,
        }
    }

    /// The kinds, in order.
    pub open spec fn kinds() -> Seq<DepType> {
        seq![
            DepType::Depends,
            DepType::PreDepends,
            DepType::Suggests,
            DepType::Recommends,
            DepType::Conflicts,
            DepType::Replaces,
            DepType::Obsoletes,
            DepType::DpkgBreaks,
            DepType::Enhances,
        ]
    }

    /// The kinds, in order.
    pub fn all() -> (r: Vec<DepType>)
        ensures
            r@ == DepType::kinds(),
    {
        vec![
            DepType::Depends,
            DepType::PreDepends,
            DepType::Suggests,
            DepType::Recommends,
            DepType::Conflicts,
            DepType::Replaces,
            DepType::Obsoletes,
            DepType::DpkgBreaks,
            DepType::Enhances,
        ]
    }

    /// The name of the kind.
    pub fn to_str(&self) -> (r: &'static str)
        ensures
            r@ == self.name(),
    {
        match self {
            DepType::Depends => "Depends",
            DepType::PreDepends => "PreDepends",
            DepType::Suggests => "Suggests",
            DepType::Recommends => "Recommends",
            DepType::Conflicts => "Conflicts",
            DepType::Replaces => "Replaces",
            DepType::Obsoletes => "Obsoletes",
            DepType::DpkgBreaks => "Breaks",
            DepType::Enhances => "Enhances",
        }
    }
}

/// One package that a dependency names.
#[derive(Debug)]
pub struct BaseDep {
    pub name: String,
    /// How the version is compared, such as `>=`, and the version.
    pub constraint: Option<(String, String)>,
}

/// A dependency: any one of its packages satisfies it.
#[derive(Debug)]
pub struct Dependency {
    pub first: BaseDep,
    pub rest: Vec<BaseDep>,
}

/// A version of a package.
#[derive(Debug)]
pub struct Version {
    /// The name of the package.
    pub package: String,
    pub version: String,
    /// The place of the version in apt's order of versions: smaller for an
    /// older one, the same for two that apt takes to be equal.
    pub order: u64,
    pub arch: String,
    pub multi_arch: String,
    pub size: u64,
    pub installed_size: u64,
    pub installed: bool,
    pub downloadable: bool,
    pub files: Vec<VersionFile>,
    /// The fields of the version's record.
    pub records: Vec<(String, String)>,
    /// The hashes of the package file, by the name of the algorithm.
    pub hashes: Vec<(String, String)>,
    pub description: Option<String>,
    pub summary: Option<String>,
    pub section: Option<String>,
    pub priority: Option<String>,
    pub source_name: String,
    /// The names that the version provides.
    pub provides: Vec<String>,
    pub depends: Vec<(DepType, Vec<Dependency>)>,
}

/// What is to become of a package.
#[derive(Debug, Clone, Copy, PartialEq, Eq, Structural)]
pub enum Marked {
    NewInstall,
    Install,
    ReInstall,
    Remove,
    Purge,
    Upgrade,
    Downgrade,
    Held,
    Keep,
    Unmarked,
}

/// The state of a package on the system.
#[derive(Debug, Clone, Copy, PartialEq, Eq, Structural)]
pub enum PkgCurrentState {
    NotInstalled,
    UnPacked,
    HalfConfigured,
    HalfInstalled,
    ConfigFiles,
    Installed,
    TriggersAwaited,
    TriggersPending,
}

/// A package that provides a virtual one.
#[derive(Debug)]
pub struct Provider {
    /// The number of the package in the cache.
    pub id: u64,
    /// The name, with the architecture where it is a foreign one.
    pub fullname: String,
    /// The name with the architecture.
    pub long_name: String,
    /// The version that would be installed.
    pub candidate: Option<String>,
}

/// A package.
#[derive(Debug)]
pub struct Package {
    /// The number of the package in the cache.
    pub id: u64,
    pub name: String,
    /// The name, with the architecture where it is a foreign one.
    pub fullname: String,
    /// The name with the architecture.
    pub long_name: String,
    pub arch: String,
    /// The versions, the newest first.
    pub versions: Vec<Version>,
    /// The place of the installed version among the versions.
    pub installed: Option<usize>,
    /// The place of the candidate among the versions.
    pub candidate: Option<usize>,
    /// The place of the version that is to be installed among the versions.
    pub install_version: Option<usize>,
    pub marked: Marked,
    pub marked_install: bool,
    pub marked_upgrade: bool,
    pub marked_delete: bool,
    pub marked_purge: bool,
    pub current_state: PkgCurrentState,
    pub essential: bool,
    pub auto_removable: bool,
    pub auto_installed: bool,
    /// The packages that provide this one.
    pub providers: Vec<Provider>,
}

/// The value under a key: that of the first entry with the key.
pub open spec fn entry(v: Seq<(String, String)>, key: Seq<char>) -> Option<Seq<char>>
    decreases v.len(),
{
    if v.len() == 0 {
        None
    } else if v[0].0@ == key {
        Some(v[0].1@)
    } else {
        entry(v.skip(1), key)
    }
}

/// The value under a key: that of the first entry with the key.
pub fn find_entry<'a>(v: &'a Vec<(String, String)>, key: &str) -> (r: Option<&'a String>)
    ensures
        match r {
            Some(s) => entry(v@, key@) == Some(s@),
            None => entry(v@, key@) is None,
        },
{
    let mut i: usize = 0;
    assert(v@.skip(0) =~= v@);
    while i < v.len()
        invariant
            i <= v@.len(),
            entry(v@.skip(i as int), key@) == entry(v@, key@),
        decreases v@.len() - i,
    {
        if str_eq(v[i].0.as_str(), key) {
            return Some(&v[i].1);
        }
        assert(v@.skip(i as int).skip(1) =~= v@.skip(i + 1));
        i = i + 1;
    }
    None
}

/// The version at a place, where there is one.
pub open spec fn version_at(versions: Seq<Version>, place: Option<usize>) -> Option<Version> {
    match place {
        Some(i) => if i < versions.len() {
            Some(versions[i as int])
        } else {
            None
        },
        None => None,
    }
}

/// The first dependencies of a kind.
pub open spec fn depends_of(v: Seq<(DepType, Vec<Dependency>)>, kind: DepType) -> Option<
    Seq<Dependency>,
>
    decreases v.len(),
{
    if v.len() == 0 {
        None
    } else if v[0].0 == kind {
        Some(v[0].1@)
    } else {
        depends_of(v.skip(1), kind)
    }
}

/// The URIs of the files that can be downloaded, in order.
pub open spec fn uris_of(files: Seq<VersionFile>) -> Seq<Seq<char>>
    decreases files.len(),
{
    if files.len() == 0 {
        Seq::empty()
    } else if files[0].file.downloadable {
        seq![files[0].uri@] + uris_of(files.skip(1))
    } else {
        uris_of(files.skip(1))
    }
}

impl Version {
    /// A field of the record.
    pub open spec fn record(self, key: Seq<char>) -> Option<Seq<char>> {
        entry(self.records@, key)
    }

    /// A field of the record.
    pub fn get_record(&self, key: &str) -> (r: Option<&String>)
        ensures
            match r {
                Some(s) => self.record(key@) == Some(s@),
                None => self.record(key@) is None,
            },
    {
        find_entry(&self.records, key)
    }

    /// The hash of the package file by an algorithm.
    pub fn hash(&self, hash_type: &str) -> (r: Option<&String>)
        ensures
            match r {
                Some(s) => entry(self.hashes@, hash_type@) == Some(s@),
                None => entry(self.hashes@, hash_type@) is None,
            },
    {
        find_entry(&self.hashes, hash_type)
    }

    /// The dependencies of a kind.
    pub fn get_depends(&self, kind: DepType) -> (r: Option<&Vec<Dependency>>)
        ensures
            match r {
                Some(d) => depends_of(self.depends@, kind) == Some(d@),
                None => depends_of(self.depends@, kind) is None,
            },
    {
        let v = &self.depends;
        let mut i: usize = 0;
        assert(v@.skip(0) =~= v@);
        while i < v.len()
            invariant
                i <= v@.len(),
                v == self.depends,
                depends_of(v@.skip(i as int), kind) == depends_of(v@, kind),
            decreases v@.len() - i,
        {
            if v[i].0 == kind {
                return Some(&v[i].1);
            }
            assert(v@.skip(i as int).skip(1) =~= v@.skip(i + 1));
            i = i + 1;
        }
        None
    }

    /// The first URI that the version can be downloaded from.
    pub fn first_uri(&self) -> (r: Option<&String>)
        ensures
            match r {
                Some(u) => uris_of(self.files@).len() > 0 && uris_of(self.files@)[0] == u@,
                None => uris_of(self.files@).len() == 0,
            },
    {
        let v = &self.files;
        let mut i: usize = 0;
        assert(v@.skip(0) =~= v@);
        while i < v.len()
            invariant
                i <= v@.len(),
                v == self.files,
                uris_of(v@.skip(i as int)) == uris_of(v@),
            decreases v@.len() - i,
        {
            if v[i].file.downloadable {
                return Some(&v[i].uri);
            }
            assert(v@.skip(i as int).skip(1) =~= v@.skip(i + 1));
            i = i + 1;
        }
        None
    }
}

impl Package {
    /// The installed version.
    pub open spec fn inst(self) -> Option<Version> {
        version_at(self.versions@, self.installed)
    }

    /// The candidate.
    pub open spec fn cand(self) -> Option<Version> {
        version_at(self.versions@, self.candidate)
    }

    /// The version that is to be installed.
    pub open spec fn target(self) -> Option<Version> {
        version_at(self.versions@, self.install_version)
    }

    fn place(&self, place: Option<usize>) -> (r: Option<&Version>)
        ensures
            match r {
                Some(v) => version_at(self.versions@, place) == Some(*v),
                None => version_at(self.versions@, place) is None,
            },
    {
        match place {
            Some(i) => if i < self.versions.len() {
                Some(&self.versions[i])
            } else {
                None
            },
            None => None,
        }
    }

    /// The installed version.
    pub fn installed(&self) -> (r: Option<&Version>)
        ensures
            match r {
                Some(v) => self.inst() == Some(*v),
                None => self.inst() is None,
            },
    {
        self.place(self.installed)
    }

    /// The candidate.
    pub fn candidate(&self) -> (r: Option<&Version>)
        ensures
            match r {
                Some(v) => self.cand() == Some(*v),
                None => self.cand() is None,
            },
    {
        self.place(self.candidate)
    }

    /// The version that is to be installed.
    pub fn install_version(&self) -> (r: Option<&Version>)
        ensures
            match r {
                Some(v) => self.target() == Some(*v),
                None => self.target() is None,
            },
    {
        self.place(self.install_version)
    }
}

/// The installed version, the candidate and the version to install are those at
/// the places that the package gives.
pub proof fn law_versions_at_their_places(pkg: Package, i: usize)
    requires
        i < pkg.versions@.len(),
    ensures
        pkg.installed == Some(i) ==> pkg.inst() == Some(pkg.versions@[i as int]),
        pkg.candidate == Some(i) ==> pkg.cand() == Some(pkg.versions@[i as int]),
        pkg.install_version == Some(i) ==> pkg.target() == Some(pkg.versions@[i as int]),
        pkg.installed is None ==> pkg.inst() is None,
        pkg.candidate is None ==> pkg.cand() is None,
        pkg.install_version is None ==> pkg.target() is None,
{
}

/// What is found for a key is the value of its first entry.
pub proof fn law_entry_is_the_first(v: Seq<(String, String)>, key: Seq<char>)
    ensures
        match entry(v, key) {
            Some(value) => exists|i: int|
                0 <= i < v.len() && (#[trigger] v[i]).0@ == key && v[i].1@ == value && forall|j: int|
                    0 <= j < i ==> (#[trigger] v[j]).0@ != key,
            None => forall|j: int| 0 <= j < v.len() ==> (#[trigger] v[j]).0@ != key,
        },
    decreases v.len(),
{
    if v.len() > 0 && v[0].0@ != key {
        let rest = v.skip(1);
        law_entry_is_the_first(rest, key);
        match entry(rest, key) {
            Some(value) => {
                let i = choose|i: int|
                    0 <= i < rest.len() && (#[trigger] rest[i]).0@ == key && rest[i].1@ == value
                        && forall|j: int| 0 <= j < i ==> (#[trigger] rest[j]).0@ != key;
                assert(v[i + 1] == rest[i]);
                assert forall|j: int| 0 <= j < i + 1 implies (#[trigger] v[j]).0@ != key by {
                    if j > 0 {
                        assert(v[j] == rest[j - 1]);
                    }
                }
                assert(v[i + 1].0@ == key && v[i + 1].1@ == value);
            },
            None => {
                assert forall|j: int| 0 <= j < v.len() implies (#[trigger] v[j]).0@ != key by {
                    if j > 0 {
                        assert(v[j] == rest[j - 1]);
                    }
                }
            },
        }
    } else if v.len() > 0 {
        assert(v[0].0@ == key && v[0].1@ == entry(v, key)->0);
    }
}

/// The dependencies of a kind are those of its first entry.
pub proof fn law_depends_are_the_first(v: Seq<(DepType, Vec<Dependency>)>, kind: DepType)
    ensures
        match depends_of(v, kind) {
            Some(deps) => exists|i: int|
                0 <= i < v.len() && (#[trigger] v[i]).0 == kind && v[i].1@ == deps && forall|j: int|
                    0 <= j < i ==> (#[trigger] v[j]).0 != kind,
            None => forall|j: int| 0 <= j < v.len() ==> (#[trigger] v[j]).0 != kind,
        },
    decreases v.len(),
{
    if v.len() > 0 && v[0].0 != kind {
        let rest = v.skip(1);
        law_depends_are_the_first(rest, kind);
        match depends_of(rest, kind) {
            Some(deps) => {
                let i = choose|i: int|
                    0 <= i < rest.len() && (#[trigger] rest[i]).0 == kind && rest[i].1@ == deps
                        && forall|j: int| 0 <= j < i ==> (#[trigger] rest[j]).0 != kind;
                assert(v[i + 1] == rest[i]);
                assert forall|j: int| 0 <= j < i + 1 implies (#[trigger] v[j]).0 != kind by {
                    if j > 0 {
                        assert(v[j] == rest[j - 1]);
                    }
                }
                assert(v[i + 1].0 == kind && v[i + 1].1@ == deps);
            },
            None => {
                assert forall|j: int| 0 <= j < v.len() implies (#[trigger] v[j]).0 != kind by {
                    if j > 0 {
                        assert(v[j] == rest[j - 1]);
                    }
                }
            },
        }
    } else if v.len() > 0 {
        assert(v[0].0 == kind && v[0].1@ == depends_of(v, kind)->0);
    }
}

/// The addresses of a version are those of its index files from which it can be
/// downloaded, in order.
pub proof fn law_uris_of_downloadable_files(files: Seq<VersionFile>)
    ensures
        uris_of(files) == files.filter(|f: VersionFile| f.file.downloadable).map_values(
            |f: VersionFile| f.uri@,
        ),
    decreases files.len(),
{
    let keep = |f: VersionFile| f.file.downloadable;
    let make = |f: VersionFile| f.uri@;
    reveal(Seq::filter);
    if files.len() == 0 {
        assert(files.filter(keep).map_values(make) =~= Seq::<Seq<char>>::empty());
    } else {
        let rest = files.skip(1);
        law_uris_of_downloadable_files(rest);
        assert(files =~= seq![files[0]] + rest);
        let first = seq![files[0]];
        Seq::filter_distributes_over_add(first, rest, keep);
        assert(first.drop_last() =~= Seq::<VersionFile>::empty());
        assert(Seq::<VersionFile>::empty().filter(keep) =~= Seq::<VersionFile>::empty());
        assert(first.filter(keep) =~= if keep(files[0]) {
            first
        } else {
            Seq::empty()
        });
        assert(files.filter(keep).map_values(make) =~= first.filter(keep).map_values(make)
            + rest.filter(keep).map_values(make));
        assert(first.map_values(make) =~= seq![files[0].uri@]);
        assert(Seq::<VersionFile>::empty().map_values(make) =~= Seq::<Seq<char>>::empty());
        assert(Seq::<Seq<char>>::empty() + uris_of(rest) =~= uris_of(rest));
    }
}

/// The first address of a version is that of its first index file from which it
/// can be downloaded.
pub proof fn law_first_uri(version: &Version, r: Option<&String>, i: int)
    requires
        call_ensures(Version::first_uri, (version,), r),
        0 <= i <= version.files@.len(),
        forall|j: int| 0 <= j < i ==> !(#[trigger] version.files@[j]).file.downloadable,
    ensures
        i < version.files@.len() && version.files@[i].file.downloadable ==> r is Some && r->0@
            == version.files@[i].uri@,
        i == version.files@.len() ==> r is None,
{
    lemma_first_uri(version.files@, i);
}

proof fn lemma_first_uri(files: Seq<VersionFile>, i: int)
    requires
        0 <= i <= files.len(),
        forall|j: int| 0 <= j < i ==> !(#[trigger] files[j]).file.downloadable,
    ensures
        i < files.len() && files[i].file.downloadable ==> uris_of(files).len() > 0 && uris_of(
            files,
        )[0] == files[i].uri@,
        i == files.len() ==> uris_of(files).len() == 0,
    decreases files.len(),
{
    if files.len() > 0 && i > 0 {
        let rest = files.skip(1);
        assert(!files[0].file.downloadable);
        assert forall|j: int| 0 <= j < i - 1 implies !(#[trigger] rest[j]).file.downloadable by {
            assert(rest[j] == files[j + 1]);
        }
        lemma_first_uri(rest, i - 1);
        if i < files.len() {
            assert(rest[i - 1] == files[i]);
        }
    }
}

/// The kinds of dependencies in the order in which they are shown, each once.
pub proof fn law_kinds_of_dependencies(r: Vec<DepType>)
    requires
        call_ensures(DepType::all, (), r),
    ensures
        r@ == seq![
            DepType::Depends,
            DepType::PreDepends,
            DepType::Suggests,
            DepType::Recommends,
            DepType::Conflicts,
            DepType::Replaces,
            DepType::Obsoletes,
            DepType::DpkgBreaks,
            DepType::Enhances,
        ],
{
}

} // verus!

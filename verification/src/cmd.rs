//! The operations on packages, and the commands.
use indexmap::IndexMap;
use vstd::prelude::*;
use crate::apt::{depends_of, uris_of, DepType, Version};
use crate::cmd::ordered::{
    distinct_keys, entries, insert, inserted, law_inserted_value, lemma_insert_new, list, new_map,
    pairs, value_of,
};
use crate::cmd::show::{dependency_texts, show_dependency};
use crate::config::{colored, flag, Config, Theme};
use crate::error::{fails_with, NalaError};
use crate::pattern::{regex_match, Pattern};
use crate::text::{
    join, joined, push_text, str_eq, str_or, text_or_else, texts, trim_end, trimmed_end,
};

pub mod grouped;
pub mod list;
pub mod ordered;
pub mod show;

verus! {

/// What happens to a package.
#[derive(Debug, Clone, Copy, PartialEq, Eq, Hash, PartialOrd, Ord, Structural)]
pub enum Operation {
    Remove,
    AutoRemove,
    Purge,
    AutoPurge,
    Install,
    Reinstall,
    Upgrade,
    Downgrade,
    Held,
}

impl Operation {
    /// The name of the operation.
    pub open spec fn name(self) -> Seq<char> {
        match self {
            Operation::Remove => "Remove"@,
            Operation::AutoRemove => "AutoRemove"@,
            Operation::Purge => "Purge"@,
            Operation::AutoPurge => "AutoPurge"@,
            Operation::Install => "Install"@,
            Operation::Reinstall => "ReInstall"@,
            Operation::Upgrade => "Upgrade"@,
            Operation::Downgrade => "Downgrade"@,
            Operation::Held => "Held"@,
        }
    }

    /// The theme in which the operation is shown.
    pub open spec fn color(self) -> Theme {
        match self {
            Operation::Remove | Operation::AutoRemove | Operation::Purge
            | Operation::AutoPurge => Theme::Error,
            Operation::Install | Operation::Upgrade => Theme::Secondary,
            Operation::Reinstall | Operation::Downgrade | Operation::Held => Theme::Notice,
        }
    }

    /// The operations that change a package.
    pub fn to_vec() -> (r: Vec<Operation>)
        ensures
            r@ == seq![
                Operation::Remove,
                Operation::AutoRemove,
                Operation::Purge,
                Operation::AutoPurge,
                Operation::Install,
                Operation::Reinstall,
                Operation::Upgrade,
                Operation::Downgrade,
            ],
    {
        vec![
            Operation::Remove,
            Operation::AutoRemove,
            Operation::Purge,
            Operation::AutoPurge,
            Operation::Install,
            Operation::Reinstall,
            Operation::Upgrade,
            Operation::Downgrade,
        ]
    }

    /// The name of the operation.
    pub fn as_str(&self) -> (r: &'static str)
        ensures
            r@ == self.name(),
    {
        match self {
            Operation::Remove => "Remove",
            Operation::AutoRemove => "AutoRemove",
            Operation::Purge => "Purge",
            Operation::AutoPurge => "AutoPurge",
            Operation::Install => "Install",
            Operation::Reinstall => "ReInstall",
            Operation::Upgrade => "Upgrade",
            Operation::Downgrade => "Downgrade",
            Operation::Held => "Held",
        }
    }

    /// The theme in which the operation is shown.
    pub fn theme(&self) -> (r: Theme)
        ensures
            r == self.color(),
    {
        match self {
            Operation::Remove | Operation::AutoRemove | Operation::Purge
            | Operation::AutoPurge => Theme::Error,
            Operation::Install | Operation::Upgrade => Theme::Secondary,
            Operation::Reinstall | Operation::Downgrade | Operation::Held => Theme::Notice,
        }
    }
}

/// No two operations have the same name.
pub proof fn law_operation_names_differ(a: Operation, b: Operation)
    requires
        a.name() == b.name(),
    ensures
        a == b,
{
    reveal_strlit("Remove");
    reveal_strlit("AutoRemove");
    reveal_strlit("Purge");
    reveal_strlit("AutoPurge");
    reveal_strlit("Install");
    reveal_strlit("ReInstall");
    reveal_strlit("Upgrade");
    reveal_strlit("Downgrade");
    reveal_strlit("Held");
    assert("Remove"@.len() == 6 && "AutoRemove"@.len() == 10 && "Purge"@.len() == 5);
    assert("AutoPurge"@.len() == 9 && "AutoPurge"@[0] == 'A');
    assert("ReInstall"@.len() == 9 && "ReInstall"@[0] == 'R');
    assert("Downgrade"@.len() == 9 && "Downgrade"@[0] == 'D');
    assert("Install"@.len() == 7 && "Install"@[0] == 'I');
    assert("Upgrade"@.len() == 7 && "Upgrade"@[0] == 'U');
    assert("Held"@.len() == 4);
}

/// The fields of a record that are shown.
pub open spec fn record_names() -> Seq<Seq<char>> {
    seq![
        "Package"@,
        "Version"@,
        "Architecture"@,
        "Priority"@,
        "Essential"@,
        "Section"@,
        "Source"@,
        "Installed-Size"@,
        "Size"@,
        "Maintainer"@,
        "Original-Maintainer"@,
        "Homepage"@,
        "SHA256"@,
    ]
}

proof fn lemma_record_names()
    ensures
        forall|i: int, j: int|
            0 <= i < j < record_names().len() ==> #[trigger] record_names()[i] != #[trigger] record_names()[j],
{
    reveal_strlit("Package");
    reveal_strlit("Version");
    reveal_strlit("Architecture");
    reveal_strlit("Priority");
    reveal_strlit("Essential");
    reveal_strlit("Section");
    reveal_strlit("Source");
    reveal_strlit("Installed-Size");
    reveal_strlit("Size");
    reveal_strlit("Maintainer");
    reveal_strlit("Original-Maintainer");
    reveal_strlit("Homepage");
    reveal_strlit("SHA256");
    let n = record_names();
    assert forall|i: int, j: int| 0 <= i < j < n.len() implies #[trigger] n[i] != #[trigger] n[j] by {
        if n[i] == n[j] {
            assert(n[i].len() == n[j].len());
            assert(n[i][0] == n[j][0]);
            assert(n[i][1] == n[j][1]);
        }
    }
}

fn shown_fields() -> (r: Vec<&'static str>)
    ensures
        r@.len() == record_names().len(),
        forall|i: int| 0 <= i < r@.len() ==> (#[trigger] r@[i])@ == record_names()[i],
{
    vec![
        "Package",
        "Version",
        "Architecture",
        "Priority",
        "Essential",
        "Section",
        "Source",
        "Installed-Size",
        "Size",
        "Maintainer",
        "Original-Maintainer",
        "Homepage",
        "SHA256",
    ]
}

/// A line of information.
pub open spec fn info_line(config: Config, header: Seq<char>, value: Seq<char>) -> Seq<char> {
    colored(config, Theme::Highlight, header) + colored(config, Theme::Highlight, ":"@) + " "@ + value
}

/// A line of information.
pub fn print_info(config: &Config, header: &str, value: &str) -> (r: String)
    ensures
        r@ == info_line(*config, header@, value@),
{
    let mut r = config.highlight(header);
    r.append(config.highlight(":").as_str());
    r.append(" ");
    r.append(value);
    r
}

/// A field of a version's record, or a word for one that it lacks.
pub open spec fn record_or(ver: Version, key: Seq<char>) -> Seq<char> {
    match ver.record(key) {
        Some(s) => s,
        None => "Unknown"@,
    }
}

/// A version comes from an archive, not only from the installed packages.
pub open spec fn from_archive(ver: Version) -> bool {
    ver.files@.len() > 0 && ver.files@[0].file.archive is Some && ver.files@[0].file.archive->0@
        != "now"@
}

/// All that describes the archive of a version is known.
pub open spec fn source_complete(ver: Version) -> bool {
    from_archive(ver) ==> {
        &&& uris_of(ver.files@).len() > 0
        &&& ver.files@[0].file.codename is Some
        &&& ver.files@[0].file.component is Some
        &&& ver.files@[0].file.arch is Some
    }
}

/// The archive of a version.
pub open spec fn archive_text(ver: Version, site: Seq<char>) -> Seq<char> {
    let file = ver.files@[0].file;
    site + " "@ + file.codename->0@ + "/"@ + file.component->0@ + " "@ + file.arch->0@
        + " Packages"@
}

/// The archive of a version.
pub fn format_archive(ver: &Version, site: &str) -> (r: String)
    requires
        from_archive(*ver),
        source_complete(*ver),
    ensures
        r@ == archive_text(*ver, site@),
{
    let file = &ver.files[0].file;
    let mut r = site.to_owned();
    r.append(" ");
    r.append(str_or(&file.codename, ""));
    r.append("/");
    r.append(str_or(&file.component, ""));
    r.append(" ");
    r.append(str_or(&file.arch, ""));
    r.append(" Packages");
    r
}

/// The colour of the packages in a dependency: those that must be absent stand
/// out.
pub open spec fn dependency_theme(kind: DepType) -> Theme {
    if kind == DepType::Conflicts || kind == DepType::DpkgBreaks {
        Theme::Error
    } else {
        Theme::Primary
    }
}

/// The entries with the first `n` kinds of dependencies that a version has.
pub open spec fn with_depends(
    config: Config,
    e: Seq<(Seq<char>, Seq<char>)>,
    ver: Version,
    n: int,
) -> Seq<(Seq<char>, Seq<char>)>
    decreases n,
{
    if n <= 0 {
        e
    } else {
        let before = with_depends(config, e, ver, n - 1);
        let kind = DepType::kinds()[n - 1];
        match depends_of(ver.depends@, kind) {
            Some(deps) => inserted(
                before,
                kind.name(),
                trimmed_end(
                    dependency_texts(config, deps, dependency_theme(kind), deps.len() as int),
                ),
            ),
            None => before,
        }
    }
}

/// The entries with where a version comes from.
pub open spec fn with_source(
    e: Seq<(Seq<char>, Seq<char>)>,
    ver: Version,
    site: Seq<char>,
    local: Seq<char>,
) -> Seq<(Seq<char>, Seq<char>)> {
    if ver.files@.len() == 0 {
        e
    } else {
        let file = ver.files@[0].file;
        let origin = inserted(e, "Origin"@, text_or_else(file.origin, "Unknown"@));
        if file.archive is None {
            origin
        } else if from_archive(ver) {
            inserted(origin, "APT-Sources"@, archive_text(ver, site))
        } else {
            inserted(origin, "APT-Sources"@, local)
        }
    }
}

/// The names that a version provides, in colour.
pub open spec fn provided(config: Config, provides: Seq<String>) -> Seq<Seq<char>> {
    Seq::new(provides.len(), |i: int| colored(config, Theme::Primary, provides[i]@))
}

/// The entries with the names that a version provides.
pub open spec fn with_provides(config: Config, e: Seq<(Seq<char>, Seq<char>)>, ver: Version) -> Seq<
    (Seq<char>, Seq<char>),
> {
    if ver.provides@.len() == 0 {
        e
    } else {
        inserted(e, "Provides"@, joined(provided(config, ver.provides@), " "@))
    }
}

/// All that is shown of a version: its records, its dependencies, where it
/// comes from, what it provides and its description.
pub open spec fn pretty_entries(
    config: Config,
    records: Seq<(Seq<char>, Seq<char>)>,
    ver: Version,
    site: Seq<char>,
    local: Seq<char>,
) -> Seq<(Seq<char>, Seq<char>)> {
    inserted(
        with_provides(
            config,
            with_source(
                with_depends(config, records, ver, DepType::kinds().len() as int),
                ver,
                site,
                local,
            ),
            ver,
        ),
        "Description"@,
        text_or_else(ver.description, "Unknown"@),
    )
}

/// The lines of entries.
pub open spec fn entry_lines(config: Config, e: Seq<(Seq<char>, Seq<char>)>) -> Seq<Seq<char>> {
    Seq::new(e.len(), |i: int| info_line(config, e[i].0, e[i].1))
}

/// The names that a version provides, in colour.
pub fn color_provides(config: &Config, provides: &Vec<String>) -> (r: Vec<String>)
    ensures
        texts(r@) == provided(*config, provides@),
{
    let mut r: Vec<String> = Vec::new();
    let mut i: usize = 0;
    while i < provides.len()
        invariant
            i <= provides@.len(),
            texts(r@) == provided(*config, provides@).take(i as int),
        decreases provides@.len() - i,
    {
        push_text(&mut r, config.color(Theme::Primary, provides[i].as_str()));
        assert(provided(*config, provides@).take(i as int).push(
            provided(*config, provides@)[i as int],
        ) =~= provided(*config, provides@).take(i + 1));
        i = i + 1;
    }
    assert(provided(*config, provides@).take(i as int) =~= provided(*config, provides@));
    r
}

/// What is shown of a version.
#[derive(Debug)]
pub enum Shown {
    /// The version itself, for a machine.
    Json,
    /// Lines for a reader.
    Lines(Vec<String>),
}

/// What is shown of a version, as texts.
pub enum ShownText {
    Json,
    Lines(Seq<Seq<char>>),
}

impl View for Shown {
    type V = ShownText;

    open spec fn view(&self) -> ShownText {
        match self {
            Shown::Json => ShownText::Json,
            Shown::Lines(v) => ShownText::Lines(texts(v@)),
        }
    }
}

/// A version with the fields of its record.
pub struct ShowVersion<'a> {
    pub ver: &'a Version,
    pub records: IndexMap<String, String>,
}

impl<'a> ShowVersion<'a> {
    /// The fields are distinct.
    pub open spec fn wf(self) -> bool {
        distinct_keys(entries(self.records))
    }

    /// A version with the fields of its record.
    pub fn new(ver: &'a Version) -> (r: ShowVersion<'a>)
        ensures
            r.wf(),
            r.ver == ver,
            entries(r.records) == Seq::new(
                record_names().len(),
                |i: int| (record_names()[i], record_or(*ver, record_names()[i])),
            ),
    {
        let names = shown_fields();
        let mut records = new_map();
        let mut i: usize = 0;
        proof {
            lemma_record_names();
        }
        while i < names.len()
            invariant
                i <= names@.len(),
                names@.len() == record_names().len(),
                forall|k: int| 0 <= k < names@.len() ==> (#[trigger] names@[k])@ == record_names()[k],
                forall|k: int, j: int|
                    0 <= k < j < record_names().len() ==> #[trigger] record_names()[k]
                        != #[trigger] record_names()[j],
                entries(records) == Seq::new(
                    i as nat,
                    |k: int| (record_names()[k], record_or(*ver, record_names()[k])),
                ),
            decreases names@.len() - i,
        {
            let value = match ver.get_record(names[i]) {
                Some(s) => s.clone(),
                None => "Unknown".to_owned(),
            };
            let ghost before = entries(records);
            proof {
                assert forall|k: int| 0 <= k < before.len() implies (#[trigger] before[k]).0
                    != record_names()[i as int] by {
                    assert(before[k].0 == record_names()[k]);
                }
                lemma_insert_new(before, record_names()[i as int], value@);
            }
            insert(&mut records, names[i].to_owned(), value);
            assert(entries(records) =~= Seq::new(
                (i + 1) as nat,
                |k: int| (record_names()[k], record_or(*ver, record_names()[k])),
            ));
            i = i + 1;
        }
        ShowVersion { ver, records }
    }

    /// All that is shown of the version. `site` names its archive, and `local`
    /// says where it comes from when no archive holds it.
    pub fn pretty_map(&self, config: &Config, site: &str, local: &str) -> (r: IndexMap<String, String>)
        requires
            self.wf(),
            source_complete(*self.ver),
        ensures
            entries(r) == pretty_entries(
                *config,
                entries(self.records),
                *self.ver,
                site@,
                local@,
            ),
    {
        let ghost all = entries(self.records);
        let mut map = new_map();
        let records = list(&self.records);
        let mut i: usize = 0;
        assert(all.take(0) =~= Seq::empty());
        assert(records@.len() == all.len());
        while i < records.len()
            invariant
                i <= records@.len(),
                records@.len() == all.len(),
                pairs(records@) == all,
                distinct_keys(all),
                entries(map) == all.take(i as int),
            decreases records@.len() - i,
        {
            assert(pairs(records@)[i as int] == (records@[i as int].0@, records@[i as int].1@));
            proof {
                let before = all.take(i as int);
                assert forall|k: int| 0 <= k < before.len() implies (#[trigger] before[k]).0
                    != all[i as int].0 by {
                    assert(before[k] == all[k]);
                }
                lemma_insert_new(before, all[i as int].0, all[i as int].1);
                assert(all.take(i + 1) =~= before.push(all[i as int]));
            }
            insert(&mut map, records[i].0.clone(), records[i].1.clone());
            i = i + 1;
        }
        assert(all.take(i as int) =~= all);
        let kinds = DepType::all();
        let mut k: usize = 0;
        while k < kinds.len()
            invariant
                k <= kinds@.len(),
                kinds@ == DepType::kinds(),
                entries(map) == with_depends(*config, all, *self.ver, k as int),
            decreases kinds@.len() - k,
        {
            let kind = kinds[k];
            if let Some(deps) = self.ver.get_depends(kind) {
                let theme = match kind {
                    DepType::Conflicts | DepType::DpkgBreaks => Theme::Error,
                    _ => Theme::Primary,
                };
                let shown = show_dependency(config, deps, theme);
                insert(&mut map, kind.to_str().to_owned(), trim_end(shown.as_str()));
            }
            k = k + 1;
        }
        if self.ver.files.len() > 0 {
            let file = &self.ver.files[0].file;
            insert(&mut map, "Origin".to_owned(), str_or(&file.origin, "Unknown").to_owned());
            if let Some(archive) = &file.archive {
                let source = if str_eq(archive.as_str(), "now") {
                    local.to_owned()
                } else {
                    format_archive(self.ver, site)
                };
                insert(&mut map, "APT-Sources".to_owned(), source);
            }
        }
        if self.ver.provides.len() > 0 {
            let providers = color_provides(config, &self.ver.provides);
            insert(&mut map, "Provides".to_owned(), join(&providers, " "));
        }
        insert(
            &mut map,
            "Description".to_owned(),
            str_or(&self.ver.description, "Unknown").to_owned(),
        );
        map
    }

    /// What is shown of the version.
    pub fn show(&self, config: &Config, site: &str, local: &str) -> (r: Shown)
        requires
            self.wf(),
            flag(*config, "machine"@, false) || source_complete(*self.ver),
        ensures
            r@ == if flag(*config, "machine"@, false) {
                ShownText::Json
            } else {
                ShownText::Lines(
                    entry_lines(
                        *config,
                        pretty_entries(
                            *config,
                            entries(self.records),
                            *self.ver,
                            site@,
                            local@,
                        ),
                    ),
                )
            },
    {
        if config.get_bool("machine", false) {
            return Shown::Json;
        }
        let map = self.pretty_map(config, site, local);
        let shown = list(&map);
        let ghost all = entries(map);
        let mut lines: Vec<String> = Vec::new();
        let mut i: usize = 0;
        assert(shown@.len() == all.len());
        while i < shown.len()
            invariant
                i <= shown@.len(),
                shown@.len() == all.len(),
                pairs(shown@) == all,
                texts(lines@) == entry_lines(*config, all).take(i as int),
            decreases shown@.len() - i,
        {
            assert(pairs(shown@)[i as int] == (shown@[i as int].0@, shown@[i as int].1@));
            push_text(&mut lines, print_info(config, shown[i].0.as_str(), shown[i].1.as_str()));
            assert(entry_lines(*config, all).take(i as int).push(
                entry_lines(*config, all)[i as int],
            ) =~= entry_lines(*config, all).take(i + 1));
            i = i + 1;
        }
        assert(entry_lines(*config, all).take(i as int) =~= entry_lines(*config, all));
        Shown::Lines(lines)
    }
}

/// The part of a version's address that names its archive, as the pattern
/// finds it. Empty for a version that comes from no archive.
pub open spec fn site_of(url: Seq<char>, ver: Version) -> Option<Seq<char>> {
    if from_archive(ver) {
        regex_match(url, uris_of(ver.files@)[0])
    } else {
        Some(Seq::empty())
    }
}

/// The part of a version's address that names its archive.
pub fn archive_site(ver: &Version, url: &Pattern) -> (r: Result<String, NalaError>)
    requires
        source_complete(*ver),
    ensures
        match site_of(url@, *ver) {
            Some(site) => r is Ok && r->Ok_0@ == site,
            None => fails_with(r, site_error(*ver)),
        },
{
    if ver.files.len() == 0 {
        return Ok(String::new());
    }
    match &ver.files[0].file.archive {
        Some(archive) => {
            if str_eq(archive.as_str(), "now") {
                return Ok(String::new());
            }
        },
        None => {
            return Ok(String::new());
        },
    }
    match ver.first_uri() {
        Some(uri) => {
            let found = url.find(uri.as_str());
            found_site(uri.as_str(), found)
        },
        None => Ok(String::new()),
    }
}

/// The error for an address that names no archive.
pub open spec fn no_site(uri: Seq<char>) -> Seq<char> {
    uri + " is not the address of an archive"@
}

/// The error for a version whose address names no archive.
pub open spec fn site_error(ver: Version) -> Seq<char> {
    no_site(uris_of(ver.files@)[0])
}

/// The part of an address that names its archive. Where none was found, that is
/// the error.
pub fn found_site(uri: &str, found: Option<String>) -> (r: Result<String, NalaError>)
    ensures
        match found {
            Some(site) => r is Ok && r->Ok_0@ == site@,
            None => fails_with(r, no_site(uri@)),
        },
{
    match found {
        Some(site) => Ok(site),
        None => {
            let mut message = uri.to_owned();
            message.append(" is not the address of an archive");
            Err(NalaError::from_string(message))
        },
    }
}

/// The records of a version are shown in their order, each with its value or as
/// unknown.
pub proof fn law_records_of_a_version<'a>(ver: &'a Version, r: ShowVersion<'a>)
    requires
        call_ensures(ShowVersion::new, (ver,), r),
    ensures
        r.ver == ver,
        entries(r.records).map_values(|e: (Seq<char>, Seq<char>)| e.0) == seq![
            "Package"@,
            "Version"@,
            "Architecture"@,
            "Priority"@,
            "Essential"@,
            "Section"@,
            "Source"@,
            "Installed-Size"@,
            "Size"@,
            "Maintainer"@,
            "Original-Maintainer"@,
            "Homepage"@,
            "SHA256"@,
        ],
        forall|i: int|
            0 <= i < entries(r.records).len() ==> (#[trigger] entries(r.records)[i]).1
                == match ver.record(entries(r.records)[i].0) {
                Some(value) => value,
                None => "Unknown"@,
            },
{
    assert(entries(r.records).map_values(|e: (Seq<char>, Seq<char>)| e.0) =~= record_names());
}

/// The lines for a reader: one for each entry, in order, with the key as its
/// label. A machine gets the version itself.
pub proof fn law_shown<'a>(
    version: &ShowVersion<'a>,
    config: &Config,
    site: &str,
    local: &str,
    r: Shown,
    map: IndexMap<String, String>,
)
    requires
        version.wf(),
        source_complete(*version.ver),
        call_ensures(ShowVersion::show, (version, config, site, local), r),
        call_ensures(ShowVersion::pretty_map, (version, config, site, local), map),
    ensures
        r is Json <==> flag(*config, "machine"@, false),
        r matches Shown::Lines(lines) ==> texts(lines@) == entries(map).map_values(
            |e: (Seq<char>, Seq<char>)|
                colored(*config, Theme::Highlight, e.0) + colored(
                    *config,
                    Theme::Highlight,
                    ":"@,
                ) + " "@ + e.1,
        ),
{
    match r {
        Shown::Lines(lines) => {
            assert(r@ == ShownText::Lines(texts(lines@)));
            assert(texts(lines@) =~= entries(map).map_values(
                |e: (Seq<char>, Seq<char>)|
                    colored(*config, Theme::Highlight, e.0) + colored(
                        *config,
                        Theme::Highlight,
                        ":"@,
                    ) + " "@ + e.1,
            ));
        },
        Shown::Json => {},
    }
}

proof fn lemma_kind_names(a: DepType, b: DepType)
    ensures
        a.name() == b.name() ==> a == b,
        a.name() != "Description"@,
        a.name() != "Provides"@,
        a.name() != "Origin"@,
        a.name() != "APT-Sources"@,
{
    reveal_strlit("Depends");
    reveal_strlit("PreDepends");
    reveal_strlit("Suggests");
    reveal_strlit("Recommends");
    reveal_strlit("Conflicts");
    reveal_strlit("Replaces");
    reveal_strlit("Obsoletes");
    reveal_strlit("Breaks");
    reveal_strlit("Enhances");
    reveal_strlit("Description");
    reveal_strlit("Provides");
    reveal_strlit("Origin");
    reveal_strlit("APT-Sources");
    let x = a.name();
    let y = b.name();
    assert(x.len() > 3 && y.len() > 3);
    if x == y {
        assert(x[0] == y[0] && x[1] == y[1] && x[2] == y[2] && x[3] == y[3]);
    }
    if x == "Description"@ {
        assert(x[2] == 's');
    }
    if x == "Provides"@ {
        assert(x[2] == 'o' && x[0] == 'P' && x[1] == 'r');
    }
    if x == "Origin"@ {
        assert(x[0] == 'O' && x[1] == 'r');
    }
    if x == "APT-Sources"@ {
        assert(x[0] == 'A');
    }
}

/// No kind of dependency has this name.
spec fn names_no_kind(key: Seq<char>) -> bool {
    forall|k: DepType| #[trigger] k.name() != key
}

/// A key that none of the added entries has.
spec fn is_other_key(key: Seq<char>) -> bool {
    &&& key != "Description"@
    &&& key != "Provides"@
    &&& key != "Origin"@
    &&& key != "APT-Sources"@
    &&& names_no_kind(key)
}

proof fn lemma_depends_values(
    config: Config,
    e: Seq<(Seq<char>, Seq<char>)>,
    ver: Version,
    n: int,
    kind: DepType,
)
    requires
        0 <= n <= DepType::kinds().len(),
    ensures
        forall|key: Seq<char>|
            names_no_kind(key) ==> #[trigger] value_of(with_depends(config, e, ver, n), key)
                == value_of(e, key),
        (exists|i: int| 0 <= i < n && #[trigger] DepType::kinds()[i] == kind) && depends_of(
            ver.depends@,
            kind,
        ) is Some ==> value_of(with_depends(config, e, ver, n), kind.name()) == Some(
            trimmed_end(
                dependency_texts(
                    config,
                    depends_of(ver.depends@, kind)->0,
                    dependency_theme(kind),
                    depends_of(ver.depends@, kind)->0.len() as int,
                ),
            ),
        ),
        depends_of(ver.depends@, kind) is None ==> value_of(
            with_depends(config, e, ver, n),
            kind.name(),
        ) == value_of(e, kind.name()),
    decreases n,
{
    if n > 0 {
        lemma_depends_values(config, e, ver, n - 1, kind);
        let before = with_depends(config, e, ver, n - 1);
        let last = DepType::kinds()[n - 1];
        match depends_of(ver.depends@, last) {
            Some(deps) => {
                let text = trimmed_end(
                    dependency_texts(config, deps, dependency_theme(last), deps.len() as int),
                );
                law_inserted_value(before, last.name(), text, kind.name());
                lemma_kind_names(last, kind);
                assert forall|key: Seq<char>| names_no_kind(key) implies #[trigger] value_of(
                    with_depends(config, e, ver, n),
                    key,
                ) == value_of(e, key) by {
                    assert(last.name() != key);
                    law_inserted_value(before, last.name(), text, key);
                    assert(value_of(before, key) == value_of(e, key));
                }
            },
            None => {},
        }
    }
}

/// What is shown of a version besides its records: its dependencies of each
/// kind, where it comes from, what it provides and its description.
pub proof fn law_pretty_map<'a>(
    version: &ShowVersion<'a>,
    config: &Config,
    site: &str,
    local: &str,
    map: IndexMap<String, String>,
    kind: DepType,
)
    requires
        version.wf(),
        source_complete(*version.ver),
        call_ensures(ShowVersion::pretty_map, (version, config, site, local), map),
    ensures
        ({
            let ver = *version.ver;
            let e = entries(map);
            let file = ver.files@[0].file;
            &&& value_of(e, "Description"@) == Some(
                match ver.description {
                    Some(s) => s@,
                    None => "Unknown"@,
                },
            )
            &&& ver.files@.len() == 0 || file.archive is None ==> value_of(e, "APT-Sources"@)
                == value_of(entries(version.records), "APT-Sources"@)
            &&& ver.provides@.len() > 0 ==> value_of(e, "Provides"@) == Some(
                joined(
                    ver.provides@.map_values(
                        |name: String| colored(*config, Theme::Primary, name@),
                    ),
                    " "@,
                ),
            )
            &&& ver.files@.len() > 0 ==> value_of(e, "Origin"@) == Some(
                match file.origin {
                    Some(s) => s@,
                    None => "Unknown"@,
                },
            )
            &&& ver.files@.len() > 0 && file.archive is Some && file.archive->0@ == "now"@
                ==> value_of(e, "APT-Sources"@) == Some(local@)
            &&& ver.files@.len() > 0 && file.archive is Some && file.archive->0@ != "now"@
                ==> value_of(e, "APT-Sources"@) == Some(
                site@ + " "@ + file.codename->0@ + "/"@ + file.component->0@ + " "@ + file.arch->0@
                    + " Packages"@,
            )
            &&& depends_of(ver.depends@, kind) matches Some(deps) ==> value_of(e, kind.name())
                == Some(
                trimmed_end(
                    dependency_texts(
                        *config,
                        deps,
                        if kind == DepType::Conflicts || kind == DepType::DpkgBreaks {
                            Theme::Error
                        } else {
                            Theme::Primary
                        },
                        deps.len() as int,
                    ),
                ),
            )
            &&& value_of(e, "Package"@) == value_of(entries(version.records), "Package"@)
            &&& value_of(e, "Version"@) == value_of(entries(version.records), "Version"@)
            &&& value_of(e, "Maintainer"@) == value_of(entries(version.records), "Maintainer"@)
        }),
{
    let ver = *version.ver;
    let records = entries(version.records);
    let n = DepType::kinds().len() as int;
    let a = with_depends(*config, records, ver, n);
    lemma_depends_values(*config, records, ver, n, kind);
    lemma_kind_is_listed(kind);
    assert(names_no_kind("APT-Sources"@)) by {
        assert forall|k: DepType| #[trigger] k.name() != "APT-Sources"@ by {
            lemma_kind_names(k, k);
        }
    }
    let b = with_source(a, ver, site@, local@);
    let c = with_provides(*config, b, ver);
    lemma_kind_names(kind, kind);
    lemma_other_keys();
    lemma_source_values(a, ver, site@, local@, kind.name());
    lemma_source_values(a, ver, site@, local@, "Package"@);
    lemma_source_values(a, ver, site@, local@, "Version"@);
    lemma_source_values(a, ver, site@, local@, "Maintainer"@);
    lemma_provides_values(*config, b, ver, "Origin"@);
    lemma_provides_values(*config, b, ver, "APT-Sources"@);
    lemma_provides_values(*config, b, ver, kind.name());
    lemma_provides_values(*config, b, ver, "Package"@);
    lemma_provides_values(*config, b, ver, "Version"@);
    lemma_provides_values(*config, b, ver, "Maintainer"@);
    let text = text_or_else(ver.description, "Unknown"@);
    law_inserted_value(c, "Description"@, text, "Provides"@);
    law_inserted_value(c, "Description"@, text, "Origin"@);
    law_inserted_value(c, "Description"@, text, "APT-Sources"@);
    law_inserted_value(c, "Description"@, text, kind.name());
    law_inserted_value(c, "Description"@, text, "Package"@);
    law_inserted_value(c, "Description"@, text, "Version"@);
    law_inserted_value(c, "Description"@, text, "Maintainer"@);
}

proof fn lemma_kind_is_listed(kind: DepType)
    ensures
        exists|i: int|
            0 <= i < DepType::kinds().len() && #[trigger] DepType::kinds()[i] == kind,
{
    let all = DepType::kinds();
    assert(all[0] == DepType::Depends && all[1] == DepType::PreDepends && all[2]
        == DepType::Suggests && all[3] == DepType::Recommends && all[4] == DepType::Conflicts
        && all[5] == DepType::Replaces && all[6] == DepType::Obsoletes && all[7]
        == DepType::DpkgBreaks && all[8] == DepType::Enhances);
}

proof fn lemma_other_keys()
    ensures
        "Provides"@ != "Description"@,
        "Origin"@ != "Description"@,
        "APT-Sources"@ != "Description"@,
        "Origin"@ != "Provides"@,
        "APT-Sources"@ != "Provides"@,
        "Origin"@ != "APT-Sources"@,
        is_other_key("Package"@),
        is_other_key("Version"@),
        is_other_key("Maintainer"@),
{
    reveal_strlit("Depends");
    reveal_strlit("PreDepends");
    reveal_strlit("Suggests");
    reveal_strlit("Recommends");
    reveal_strlit("Conflicts");
    reveal_strlit("Replaces");
    reveal_strlit("Obsoletes");
    reveal_strlit("Breaks");
    reveal_strlit("Enhances");
    reveal_strlit("Description");
    reveal_strlit("Provides");
    reveal_strlit("Origin");
    reveal_strlit("APT-Sources");
    reveal_strlit("Package");
    reveal_strlit("Version");
    reveal_strlit("Maintainer");
    assert("Provides"@[0] == 'P' && "Description"@[0] == 'D' && "Origin"@[0] == 'O'
        && "APT-Sources"@[0] == 'A' && "Package"@[0] == 'P' && "Version"@[0] == 'V'
        && "Maintainer"@[0] == 'M');
    assert("Provides"@[1] == 'r' && "Package"@[1] == 'a');
    assert forall|k: DepType| #[trigger] k.name() != "Package"@ by {
        assert(k.name()[1] != 'a');
    }
    assert forall|k: DepType| #[trigger] k.name() != "Version"@ by {
        assert(k.name()[0] != 'V');
    }
    assert forall|k: DepType| #[trigger] k.name() != "Maintainer"@ by {
        assert(k.name()[0] != 'M');
    }
}

proof fn lemma_source_values(
    e: Seq<(Seq<char>, Seq<char>)>,
    ver: Version,
    site: Seq<char>,
    local: Seq<char>,
    key: Seq<char>,
)
    ensures
        ({
            let after = with_source(e, ver, site, local);
            let file = ver.files@[0].file;
            &&& key != "Origin"@ && key != "APT-Sources"@ ==> value_of(after, key) == value_of(
                e,
                key,
            )
            &&& ver.files@.len() > 0 ==> value_of(after, "Origin"@) == Some(
                text_or_else(file.origin, "Unknown"@),
            )
            &&& ver.files@.len() == 0 ==> after == e
            &&& ver.files@.len() > 0 && file.archive is None ==> value_of(after, "APT-Sources"@)
                == value_of(e, "APT-Sources"@)
            &&& ver.files@.len() > 0 && file.archive is Some ==> value_of(after, "APT-Sources"@)
                == Some(
                if from_archive(ver) {
                    archive_text(ver, site)
                } else {
                    local
                },
            )
        }),
{
    lemma_other_keys();
    let file = ver.files@[0].file;
    let origin_text = text_or_else(file.origin, "Unknown"@);
    let origin = inserted(e, "Origin"@, origin_text);
    law_inserted_value(e, "Origin"@, origin_text, key);
    law_inserted_value(e, "Origin"@, origin_text, "APT-Sources"@);
    law_inserted_value(origin, "APT-Sources"@, archive_text(ver, site), key);
    law_inserted_value(origin, "APT-Sources"@, archive_text(ver, site), "Origin"@);
    law_inserted_value(origin, "APT-Sources"@, local, key);
    law_inserted_value(origin, "APT-Sources"@, local, "Origin"@);
}

proof fn lemma_provides_values(
    config: Config,
    e: Seq<(Seq<char>, Seq<char>)>,
    ver: Version,
    key: Seq<char>,
)
    ensures
        ({
            let after = with_provides(config, e, ver);
            &&& key != "Provides"@ ==> value_of(after, key) == value_of(e, key)
            &&& ver.provides@.len() > 0 ==> value_of(after, "Provides"@) == Some(
                joined(
                    ver.provides@.map_values(
                        |name: String| colored(config, Theme::Primary, name@),
                    ),
                    " "@,
                ),
            )
        }),
{
    let names = ver.provides@.map_values(|name: String| colored(config, Theme::Primary, name@));
    assert(provided(config, ver.provides@) =~= names);
    law_inserted_value(e, "Provides"@, joined(names, " "@), key);
}

/// An operation has the name and the colour of what it does: errors for what goes
/// away, notices for what stays or goes back.
pub proof fn law_names_and_colours(operation: &Operation, name: &'static str, theme: Theme)
    requires
        call_ensures(Operation::as_str, (operation,), name),
        call_ensures(Operation::theme, (operation,), theme),
    ensures
        *operation is Remove ==> name@ == "Remove"@ && theme is Error,
        *operation is AutoRemove ==> name@ == "AutoRemove"@ && theme is Error,
        *operation is Purge ==> name@ == "Purge"@ && theme is Error,
        *operation is AutoPurge ==> name@ == "AutoPurge"@ && theme is Error,
        *operation is Install ==> name@ == "Install"@ && theme is Secondary,
        *operation is Reinstall ==> name@ == "ReInstall"@ && theme is Notice,
        *operation is Upgrade ==> name@ == "Upgrade"@ && theme is Secondary,
        *operation is Downgrade ==> name@ == "Downgrade"@ && theme is Notice,
        *operation is Held ==> name@ == "Held"@ && theme is Notice,
{
}

/// The archive of a version is found in its first address, if it comes from one.
pub proof fn law_archive_site(ver: &Version, url: &Pattern, r: Result<String, NalaError>)
    requires
        source_complete(*ver),
        call_ensures(archive_site, (ver, url), r),
    ensures
        ver.files@.len() == 0 || ver.files@[0].file.archive is None
            || ver.files@[0].file.archive->0@ == "now"@ ==> r is Ok && r->Ok_0@.len() == 0,
        ver.files@.len() > 0 && ver.files@[0].file.archive is Some
            && ver.files@[0].file.archive->0@ != "now"@ ==> {
            let found = regex_match(url@, uris_of(ver.files@)[0]);
            &&& r is Ok <==> found is Some
            &&& r is Ok ==> r->Ok_0@ == found->0
        },
{
}

/// A line of information has its header in colour, and a provided name is in
/// colour.
pub proof fn law_information_lines(
    config: &Config,
    header: &str,
    value: &str,
    line: String,
    provides: &Vec<String>,
    names: Vec<String>,
)
    requires
        call_ensures(print_info, (config, header, value), line),
        call_ensures(color_provides, (config, provides), names),
    ensures
        line@ == colored(*config, Theme::Highlight, header@) + colored(
            *config,
            Theme::Highlight,
            ":"@,
        ) + " "@ + value@,
        texts(names@) == provides@.map_values(|name: String| colored(*config, Theme::Primary, name@)),
{
    assert(texts(names@) =~= provides@.map_values(
        |name: String| colored(*config, Theme::Primary, name@),
    ));
}

/// The operations come in the order in which they are shown, each once.
pub proof fn law_order_of_operations(r: Vec<Operation>)
    requires
        call_ensures(Operation::to_vec, (), r),
    ensures
        r@.no_duplicates(),
        r@.len() == 8,
        !r@.contains(Operation::Held),
        r@[0] == Operation::Remove,
        r@[7] == Operation::Downgrade,
{
}

} // verus!

//! Removing what was downloaded.
use vstd::prelude::*;
use crate::config::{flag, Config};

verus! {

/// What is removed.
#[derive(Debug)]
pub enum Target {
    /// The files in a directory. Directories in it stay.
    FilesIn(String),
    /// A file.
    File(String),
}

/// What is removed, as a text.
pub enum TargetText {
    FilesIn(Seq<char>),
    File(Seq<char>),
}

impl View for Target {
    type V = TargetText;

    open spec fn view(&self) -> TargetText {
        match self {
            Target::FilesIn(s) => TargetText::FilesIn(s@),
            Target::File(s) => TargetText::File(s@),
        }
    }
}

/// What is removed, as texts.
pub open spec fn targets(v: Seq<Target>) -> Seq<TargetText> {
    Seq::new(v.len(), |i: int| v[i]@)
}

/// What the clean command removes: the package lists, the sources file that the
/// fetch command generated, or the archive of package files.
pub fn clean(config: &Config) -> (r: Vec<Target>)
    ensures
        targets(r@) == if flag(*config, "lists"@, false) {
            seq![
                TargetText::FilesIn("/var/lib/apt/lists/"@),
                TargetText::FilesIn("/var/lib/apt/lists/partial/"@),
            ]
        } else if flag(*config, "fetch"@, false) {
            seq![TargetText::File("/etc/apt/sources.list.d/nala-sources.list"@)]
        } else {
            seq![
                TargetText::FilesIn("/var/cache/apt/archives/"@),
                TargetText::FilesIn("/var/cache/apt/lists/partial/"@),
            ]
        },
{
    let ghost lists = seq![
        TargetText::FilesIn("/var/lib/apt/lists/"@),
        TargetText::FilesIn("/var/lib/apt/lists/partial/"@),
    ];
    let ghost fetched = seq![TargetText::File("/etc/apt/sources.list.d/nala-sources.list"@)];
    let ghost archives = seq![
        TargetText::FilesIn("/var/cache/apt/archives/"@),
        TargetText::FilesIn("/var/cache/apt/lists/partial/"@),
    ];
    if config.get_bool("lists", false) {
        let r = vec![
            Target::FilesIn("/var/lib/apt/lists/".to_owned()),
            Target::FilesIn("/var/lib/apt/lists/partial/".to_owned()),
        ];
        assert(targets(r@) =~= lists);
        return r;
    }
    if config.get_bool("fetch", false) {
        let r = vec![Target::File("/etc/apt/sources.list.d/nala-sources.list".to_owned())];
        assert(targets(r@) =~= fetched);
        return r;
    }
    let r = vec![
        Target::FilesIn("/var/cache/apt/archives/".to_owned()),
        Target::FilesIn("/var/cache/apt/lists/partial/".to_owned()),
    ];
    assert(targets(r@) =~= archives);
    r
}

/// What is cleaned is what is asked for: the lists, the file of sources, or else
/// the packages. Nothing is removed that was not asked for.
pub proof fn law_only_what_is_asked_for(config: &Config, r: Vec<Target>)
    requires
        call_ensures(clean, (config,), r),
    ensures
        flag(*config, "lists"@, false) ==> r@.len() == 2 && r@[0]@ == TargetText::FilesIn(
            "/var/lib/apt/lists/"@,
        ) && r@[1]@ == TargetText::FilesIn("/var/lib/apt/lists/partial/"@),
        !flag(*config, "lists"@, false) && flag(*config, "fetch"@, false) ==> r@.len() == 1
            && r@[0]@ == TargetText::File("/etc/apt/sources.list.d/nala-sources.list"@),
        !flag(*config, "lists"@, false) && !flag(*config, "fetch"@, false) ==> r@.len() == 2
            && r@[0]@ == TargetText::FilesIn("/var/cache/apt/archives/"@) && r@[1]@
            == TargetText::FilesIn("/var/cache/apt/lists/partial/"@),
{
    assert(targets(r@).len() == r@.len());
    if r@.len() > 0 {
        assert(targets(r@)[0] == r@[0]@);
    }
    if r@.len() > 1 {
        assert(targets(r@)[1] == r@[1]@);
    }
}

} // verus!

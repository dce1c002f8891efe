//! What a transaction is about to do, and the steps of carrying it out.
use vstd::prelude::*;
use crate::apt::{Package, Version};
use crate::cmd::Operation;
use crate::config::{colored, flag, Config, Theme};
use crate::text::{decimal, decimal_of, push_text, texts};

verus! {

/// What the transaction does to the disk.
#[derive(Debug, Clone, Copy, PartialEq, Eq, Structural)]
pub enum DiskSpace {
    /// So many bytes are taken.
    Require(u64),
    /// So many bytes are freed.
    Free(u64),
}

/// The packages of an operation: the cells of each row of its table.
#[derive(Debug)]
pub struct SummaryGroup {
    pub operation: Operation,
    pub rows: Vec<Vec<String>>,
}

/// The headings of a table. A row with more than three cells has an old
/// version.
pub open spec fn headings(cells: int) -> Seq<Seq<char>> {
    if cells > 3 {
        seq!["Package:"@, "Old Version:"@, "New Version:"@, "Size:"@]
    } else {
        seq!["Package:"@, "Version:"@, "Size:"@]
    }
}

/// The headings of a group's table.
pub fn table_headings(group: &SummaryGroup) -> (r: Vec<String>)
    requires
        group.rows@.len() > 0,
    ensures
        texts(r@) == headings(group.rows@[0]@.len() as int),
{
    if group.rows[0].len() > 3 {
        let r = vec![
            "Package:".to_owned(),
            "Old Version:".to_owned(),
            "New Version:".to_owned(),
            "Size:".to_owned(),
        ];
        assert(texts(r@) =~= headings(4));
        r
    } else {
        let r = vec!["Package:".to_owned(), "Version:".to_owned(), "Size:".to_owned()];
        assert(texts(r@) =~= headings(3));
        r
    }
}

/// A line across the terminal.
pub open spec fn separator(width: nat) -> Seq<char> {
    Seq::new(width, |i: int| '=')
}

fn separator_of(width: usize) -> (r: String)
    ensures
        r@ == separator(width as nat),
{
    let mut r = String::new();
    let mut i: usize = 0;
    assert(r@ =~= separator(0));
    while i < width
        invariant
            i <= width,
            r@ == separator(i as nat),
        decreases width - i,
    {
        r.push('=');
        assert(separator((i + 1) as nat) =~= separator(i as nat).push('='));
        i = i + 1;
    }
    r
}

/// The tables of the first `n` groups, each under its heading.
pub open spec fn table_lines(
    config: Config,
    groups: Seq<SummaryGroup>,
    tables: Seq<String>,
    sep: Seq<char>,
    n: int,
) -> Seq<Seq<char>>
    decreases n,
{
    if n <= 0 {
        Seq::empty()
    } else {
        table_lines(config, groups, tables, sep, n - 1).push(sep).push(
            " "@ + colored(config, Theme::Highlight, groups[n - 1].operation.name()),
        ).push(sep).push(tables[n - 1]@)
    }
}

/// How many packages each of the first `n` groups has, below `lines`.
pub open spec fn with_counts(lines: Seq<Seq<char>>, groups: Seq<SummaryGroup>, n: int) -> Seq<Seq<char>>
    decreases n,
{
    if n <= 0 {
        lines
    } else {
        with_counts(lines, groups, n - 1).push(
            " "@ + groups[n - 1].operation.name() + " "@ + decimal(groups[n - 1].rows@.len()),
        )
    }
}

/// The line for the disk.
pub open spec fn disk_line(disk: DiskSpace, text: Seq<char>) -> Seq<char> {
    match disk {
        DiskSpace::Require(_) => " Disk space required: "@ + text,
        DiskSpace::Free(_) => " Disk space to free: "@ + text,
    }
}

/// The summary of a transaction. The sizes come for a reader.
pub open spec fn summary_lines(
    config: Config,
    groups: Seq<SummaryGroup>,
    tables: Seq<String>,
    width: nat,
    download_size: u64,
    download: Seq<char>,
    disk: DiskSpace,
    space: Seq<char>,
) -> Seq<Seq<char>> {
    let sep = separator(width);
    let head = table_lines(config, groups, tables, sep, groups.len() as int).push(sep).push(
        " Summary"@,
    ).push(sep);
    let counted = with_counts(head, groups, groups.len() as int).push(""@);
    let sized = if download_size > 0 {
        counted.push(" Total download size: "@ + download)
    } else {
        counted
    };
    sized.push(disk_line(disk, space)).push(""@)
}

/// The summary of a transaction: the table of each operation, how many packages
/// it has, and what is downloaded and stored. `tables` holds the tables of the
/// groups as texts.
pub fn display_summary(
    config: &Config,
    groups: &Vec<SummaryGroup>,
    tables: &Vec<String>,
    width: usize,
    download_size: u64,
    download: &str,
    disk: DiskSpace,
    space: &str,
) -> (r: Vec<String>)
    requires
        groups@.len() == tables@.len(),
    ensures
        texts(r@) == summary_lines(
            *config,
            groups@,
            tables@,
            width as nat,
            download_size,
            download@,
            disk,
            space@,
        ),
{
    let sep = separator_of(width);
    let mut lines: Vec<String> = Vec::new();
    let mut i: usize = 0;
    assert(texts(lines@) =~= Seq::empty());
    while i < groups.len()
        invariant
            i <= groups@.len(),
            groups@.len() == tables@.len(),
            texts(lines@) == table_lines(*config, groups@, tables@, sep@, i as int),
        decreases groups@.len() - i,
    {
        let mut title = " ".to_owned();
        title.append(config.highlight(groups[i].operation.as_str()).as_str());
        push_text(&mut lines, sep.clone());
        push_text(&mut lines, title);
        push_text(&mut lines, sep.clone());
        push_text(&mut lines, tables[i].clone());
        i = i + 1;
    }
    push_text(&mut lines, sep.clone());
    push_text(&mut lines, " Summary".to_owned());
    push_text(&mut lines, sep.clone());
    let ghost head = texts(lines@);
    let mut k: usize = 0;
    while k < groups.len()
        invariant
            k <= groups@.len(),
            texts(lines@) == with_counts(head, groups@, k as int),
        decreases groups@.len() - k,
    {
        let mut line = " ".to_owned();
        line.append(groups[k].operation.as_str());
        line.append(" ");
        line.append(decimal_of(groups[k].rows.len() as u128).as_str());
        push_text(&mut lines, line);
        k = k + 1;
    }
    push_text(&mut lines, "".to_owned());
    if download_size > 0 {
        let mut line = " Total download size: ".to_owned();
        line.append(download);
        push_text(&mut lines, line);
    }
    let mut line = match disk {
        DiskSpace::Require(_) => " Disk space required: ".to_owned(),
        DiskSpace::Free(_) => " Disk space to free: ".to_owned(),
    };
    line.append(space);
    push_text(&mut lines, line);
    push_text(&mut lines, "".to_owned());
    lines
}

/// The versions that are to be installed among the first `n` packages.
pub open spec fn install_versions_to(packages: Seq<Package>, n: int) -> Seq<Version>
    decreases n,
{
    if n <= 0 {
        Seq::empty()
    } else {
        match packages[n - 1].target() {
            Some(v) => install_versions_to(packages, n - 1).push(v),
            None => install_versions_to(packages, n - 1),
        }
    }
}

/// The versions that a transaction installs, and so downloads.
pub fn install_versions<'a>(changed: &'a Vec<Package>) -> (r: Vec<&'a Version>)
    ensures
        r@.len() == install_versions_to(changed@, changed@.len() as int).len(),
        forall|i: int|
            0 <= i < r@.len() ==> *(#[trigger] r@[i]) == install_versions_to(
                changed@,
                changed@.len() as int,
            )[i],
{
    let mut r: Vec<&'a Version> = Vec::new();
    let mut i: usize = 0;
    while i < changed.len()
        invariant
            i <= changed@.len(),
            r@.len() == install_versions_to(changed@, i as int).len(),
            forall|k: int|
                0 <= k < r@.len() ==> *(#[trigger] r@[k]) == install_versions_to(
                    changed@,
                    i as int,
                )[k],
        decreases changed@.len() - i,
    {
        if let Some(version) = changed[i].install_version() {
            r.push(version);
        }
        i = i + 1;
    }
    r
}

/// A step of a transaction.
#[derive(Debug, Clone, Copy, PartialEq, Eq, Structural)]
pub enum Action {
    /// Say that there is nothing to do.
    NothingToDo,
    /// Find the addresses of what is installed.
    AddVersions,
    /// Print the addresses.
    PrintUris,
    /// Show the summary and ask for consent.
    AskConsent,
    /// Download what is installed.
    Download,
    /// Write the transaction into the history.
    WriteHistory,
    /// Run the scripts that come before.
    PreInvoke,
    /// Tell the hooks.
    RunHooks,
    /// Run dpkg.
    RunInstall,
    /// Run the scripts that come after.
    PostInvoke,
    /// The end.
    Done,
}

/// What is known of a transaction.
#[derive(Debug, Clone, Copy, PartialEq, Eq, Structural)]
pub struct Facts {
    /// Something changes.
    pub changes: bool,
    /// The user consents to the summary.
    pub consent: bool,
    /// Something has to be downloaded.
    pub downloads: bool,
}

/// The first step of a transaction.
pub open spec fn first_action(facts: Facts) -> Action {
    if facts.changes {
        Action::AddVersions
    } else {
        Action::NothingToDo
    }
}

/// The step after a step.
pub open spec fn action_after(config: Config, facts: Facts, action: Action) -> Action {
    let after_download = if flag(config, "download_only"@, false) {
        Action::Done
    } else {
        Action::WriteHistory
    };
    match action {
        Action::NothingToDo | Action::PrintUris | Action::PostInvoke | Action::Done => Action::Done,
        Action::AddVersions => if flag(config, "print_uris"@, false) {
            Action::PrintUris
        } else {
            Action::AskConsent
        },
        Action::AskConsent => if !facts.consent {
            Action::Done
        } else if facts.downloads {
            Action::Download
        } else {
            after_download
        },
        Action::Download => after_download,
        Action::WriteHistory => Action::PreInvoke,
        Action::PreInvoke => Action::RunHooks,
        Action::RunHooks => Action::RunInstall,
        Action::RunInstall => Action::PostInvoke,
    }
}

/// The first step of a transaction.
pub fn begin(facts: Facts) -> (r: Action)
    ensures
        r == first_action(facts),
{
    if facts.changes {
        Action::AddVersions
    } else {
        Action::NothingToDo
    }
}

/// The step after a step.
pub fn commit(config: &Config, facts: Facts, action: Action) -> (r: Action)
    ensures
        r == action_after(*config, facts, action),
{
    match action {
        Action::NothingToDo | Action::PrintUris | Action::PostInvoke | Action::Done => Action::Done,
        Action::AddVersions => if config.get_bool("print_uris", false) {
            Action::PrintUris
        } else {
            Action::AskConsent
        },
        Action::AskConsent => {
            if !facts.consent {
                return Action::Done;
            }
            // Only download if needed
            if facts.downloads {
                return Action::Download;
            }
            if config.get_bool("download_only", false) {
                return Action::Done;
            }
            Action::WriteHistory
        },
        Action::Download => if config.get_bool("download_only", false) {
            Action::Done
        } else {
            Action::WriteHistory
        },
        Action::WriteHistory => Action::PreInvoke,
        Action::PreInvoke => Action::RunHooks,
        Action::RunHooks => Action::RunInstall,
        Action::RunInstall => Action::PostInvoke,
    }
}

/// The step that comes after `n` others.
pub open spec fn nth_action(config: Config, facts: Facts, n: nat) -> Action
    decreases n,
{
    if n == 0 {
        first_action(facts)
    } else {
        action_after(config, facts, nth_action(config, facts, (n - 1) as nat))
    }
}

/// The transaction goes as far as its history and its scripts.
pub open spec fn is_carried_out(action: Action) -> bool {
    action == Action::WriteHistory || action == Action::PreInvoke || action == Action::RunHooks
        || action == Action::RunInstall || action == Action::PostInvoke
}

/// Nothing is installed, and nothing written into the history, without the
/// user's consent, or where only the addresses or the downloads are asked for.
pub proof fn law_install_needs_consent(config: Config, facts: Facts, n: nat)
    ensures
        is_carried_out(nth_action(config, facts, n)) ==> facts.changes && facts.consent && !flag(
            config,
            "print_uris"@,
            false,
        ) && !flag(config, "download_only"@, false),
        nth_action(config, facts, n) == Action::Download ==> facts.changes && facts.consent
            && facts.downloads && !flag(config, "print_uris"@, false),
        nth_action(config, facts, n) == Action::AskConsent ==> facts.changes && !flag(
            config,
            "print_uris"@,
            false,
        ),
        nth_action(config, facts, n) == Action::AddVersions ==> facts.changes,
    decreases n,
{
    if n > 0 {
        law_install_needs_consent(config, facts, (n - 1) as nat);
    }
}

/// Every transaction comes to its end, and stays there.
pub proof fn law_transaction_ends(config: Config, facts: Facts, n: nat)
    requires
        n >= 8,
    ensures
        nth_action(config, facts, n) == Action::Done,
    decreases n,
{
    if n > 8 {
        law_transaction_ends(config, facts, (n - 1) as nat);
    } else {
        reveal_with_fuel(nth_action, 9);
    }
}

/// The step at `i` is not the last, and `commit` gives the next for it.
pub open spec fn goes_on(config: &Config, facts: Facts, steps: Seq<Action>, i: int) -> bool {
    steps[i] != Action::Done && call_ensures(commit, (config, facts, steps[i]), steps[i + 1])
}

/// The steps of a transaction, as `begin` and `commit` give them in turn, until
/// the end.
pub open spec fn is_run(config: &Config, facts: Facts, steps: Seq<Action>) -> bool {
    &&& steps.len() > 0
    &&& call_ensures(begin, (facts,), steps[0])
    &&& forall|i: int| 0 <= i < steps.len() - 1 ==> #[trigger] goes_on(config, facts, steps, i)
    &&& steps.last() == Action::Done
}

/// A transaction that the user consents to is carried out, whether or not
/// something has to be downloaded first: the download alone is passed over where
/// nothing has to be.
pub proof fn law_consent_leads_to_dpkg(config: &Config, facts: Facts, steps: Seq<Action>)
    requires
        is_run(config, facts, steps),
        facts.changes && facts.consent,
        !flag(*config, "print_uris"@, false),
        !flag(*config, "download_only"@, false),
    ensures
        steps == seq![Action::AddVersions, Action::AskConsent] + (if facts.downloads {
            seq![Action::Download]
        } else {
            seq![]
        }) + seq![
            Action::WriteHistory,
            Action::PreInvoke,
            Action::RunHooks,
            Action::RunInstall,
            Action::PostInvoke,
            Action::Done,
        ],
        steps.contains(Action::Download) == facts.downloads,
{
    let end = seq![
        Action::WriteHistory,
        Action::PreInvoke,
        Action::RunHooks,
        Action::RunInstall,
        Action::PostInvoke,
        Action::Done,
    ];
    let start = seq![Action::AddVersions, Action::AskConsent];
    lemma_steps(config, facts, steps, 0);
    lemma_steps(config, facts, steps, 1);
    lemma_steps(config, facts, steps, 2);
    lemma_steps(config, facts, steps, 3);
    lemma_steps(config, facts, steps, 4);
    lemma_steps(config, facts, steps, 5);
    lemma_steps(config, facts, steps, 6);
    lemma_steps(config, facts, steps, 7);
    if facts.downloads {
        lemma_steps(config, facts, steps, 8);
        assert(steps =~= start + seq![Action::Download] + end);
        assert(steps[2] == Action::Download);
    } else {
        assert(steps =~= start + seq![] + end);
    }
}

/// What else becomes of a transaction: without changes, consent or the wish to
/// install it ends after what was asked for, and not before.
pub proof fn law_other_transactions_end_early(config: &Config, facts: Facts, steps: Seq<Action>)
    requires
        is_run(config, facts, steps),
    ensures
        !facts.changes ==> steps == seq![Action::NothingToDo, Action::Done],
        facts.changes && flag(*config, "print_uris"@, false) ==> steps == seq![
            Action::AddVersions,
            Action::PrintUris,
            Action::Done,
        ],
        facts.changes && !flag(*config, "print_uris"@, false) && !facts.consent ==> steps == seq![
            Action::AddVersions,
            Action::AskConsent,
            Action::Done,
        ],
        facts.changes && !flag(*config, "print_uris"@, false) && facts.consent && flag(
            *config,
            "download_only"@,
            false,
        ) ==> steps == seq![Action::AddVersions, Action::AskConsent] + (if facts.downloads {
            seq![Action::Download]
        } else {
            seq![]
        }) + seq![Action::Done],
{
    lemma_steps(config, facts, steps, 0);
    lemma_steps(config, facts, steps, 1);
    if !facts.changes {
        assert(steps =~= seq![Action::NothingToDo, Action::Done]);
    } else {
        lemma_steps(config, facts, steps, 2);
        if flag(*config, "print_uris"@, false) {
            assert(steps =~= seq![Action::AddVersions, Action::PrintUris, Action::Done]);
        } else if !facts.consent {
            assert(steps =~= seq![Action::AddVersions, Action::AskConsent, Action::Done]);
        } else if flag(*config, "download_only"@, false) {
            let start = seq![Action::AddVersions, Action::AskConsent];
            if facts.downloads {
                lemma_steps(config, facts, steps, 3);
                assert(steps =~= start + seq![Action::Download] + seq![Action::Done]);
            } else {
                assert(steps =~= start + seq![] + seq![Action::Done]);
            }
        }
    }
}

proof fn lemma_steps(config: &Config, facts: Facts, steps: Seq<Action>, i: int)
    requires
        is_run(config, facts, steps),
        0 <= i < steps.len(),
    ensures
        steps[0] == first_action(facts),
        steps[i] != Action::Done ==> i + 1 < steps.len() && steps[i + 1] == action_after(
            *config,
            facts,
            steps[i],
        ),
        steps[i] == Action::Done ==> i + 1 == steps.len(),
{
    if i + 1 < steps.len() {
        assert(goes_on(config, facts, steps, i));
    }
}

/// A transaction downloads the version that each package gets, in order, and
/// nothing for the packages that get none.
pub proof fn law_every_target_is_downloaded<'a>(changed: &'a Vec<Package>, r: Vec<&'a Version>)
    requires
        call_ensures(install_versions, (changed,), r),
    ensures
        r@.map_values(|v: &'a Version| *v) == changed@.filter(
            |p: Package| p.target() is Some,
        ).map_values(|p: Package| p.target()->0),
{
    let n = changed@.len() as int;
    let keep = |p: Package| p.target() is Some;
    let make = |p: Package| p.target()->0;
    lemma_targets(changed@, n, keep, make);
    assert(changed@.take(n) =~= changed@);
    assert(r@.map_values(|v: &'a Version| *v) =~= install_versions_to(changed@, n));
}

proof fn lemma_targets(
    packages: Seq<Package>,
    n: int,
    keep: spec_fn(Package) -> bool,
    make: spec_fn(Package) -> Version,
)
    requires
        0 <= n <= packages.len(),
        forall|p: Package| #[trigger] keep(p) == (p.target() is Some),
        forall|p: Package| #[trigger] make(p) == p.target()->0,
    ensures
        install_versions_to(packages, n) == packages.take(n).filter(keep).map_values(make),
    decreases n,
{
    if n <= 0 {
        crate::seqs::lemma_made_none(packages, keep, make);
    } else {
        lemma_targets(packages, n - 1, keep, make);
        crate::seqs::lemma_made_next(packages, n - 1, keep, make);
    }
}

/// A table has a heading for each of its columns, and tells the old version from
/// the new one where a row has both.
pub proof fn law_headings(group: &SummaryGroup, r: Vec<String>)
    requires
        group.rows@.len() > 0,
        call_ensures(table_headings, (group,), r),
    ensures
        group.rows@[0]@.len() == 3 || group.rows@[0]@.len() == 4 ==> r@.len()
            == group.rows@[0]@.len(),
        texts(r@)[0] == "Package:"@,
        texts(r@).last() == "Size:"@,
        group.rows@[0]@.len() <= 3 ==> texts(r@)[1] == "Version:"@,
        group.rows@[0]@.len() > 3 ==> texts(r@)[1] == "Old Version:"@ && texts(r@)[2]
            == "New Version:"@,
{
    assert(texts(r@).len() == r@.len());
}

/// A summary shows the table of every operation under its name, then how many
/// packages each has, then what is downloaded, if anything is, and what becomes
/// of the disk.
pub proof fn law_summary_is_complete(
    config: &Config,
    groups: &Vec<SummaryGroup>,
    tables: &Vec<String>,
    width: usize,
    download_size: u64,
    download: &str,
    disk: DiskSpace,
    space: &str,
    r: Vec<String>,
)
    requires
        groups@.len() == tables@.len(),
        call_ensures(
            display_summary,
            (config, groups, tables, width, download_size, download, disk, space),
            r,
        ),
    ensures
        ({
            let g = groups@.len() as int;
            let lines = texts(r@);
            let sep = Seq::new(width as nat, |i: int| '=');
            let size_lines: int = if download_size > 0 {
                1
            } else {
                0
            };
            &&& lines.len() == 5 * g + 6 + size_lines
            &&& forall|i: int|
                0 <= i < g ==> {
                    &&& lines[4 * i] == sep
                    &&& lines[4 * i + 1] == " "@ + colored(
                        *config,
                        Theme::Highlight,
                        (#[trigger] groups@[i]).operation.name(),
                    )
                    &&& lines[4 * i + 2] == sep
                    &&& lines[4 * i + 3] == tables@[i]@
                    &&& lines[4 * g + 3 + i] == " "@ + groups@[i].operation.name() + " "@ + decimal(
                        groups@[i].rows@.len(),
                    )
                }
            &&& lines[4 * g] == sep
            &&& lines[4 * g + 1] == " Summary"@
            &&& lines[4 * g + 2] == sep
            &&& lines[5 * g + 3] == ""@
            &&& download_size > 0 ==> lines[5 * g + 4] == " Total download size: "@ + download@
            &&& lines[5 * g + 4 + size_lines] == (match disk {
                DiskSpace::Require(_) => " Disk space required: "@ + space@,
                DiskSpace::Free(_) => " Disk space to free: "@ + space@,
            })
            &&& lines[5 * g + 5 + size_lines] == ""@
        }),
{
    let g = groups@.len() as int;
    let sep = separator(width as nat);
    let tabled = table_lines(*config, groups@, tables@, sep, g);
    lemma_tables(*config, groups@, tables@, sep, g);
    let head = tabled.push(sep).push(" Summary"@).push(sep);
    lemma_counts(head, groups@, g);
    let counted = with_counts(head, groups@, g);
    assert(head[4 * g + 1] == " Summary"@);
    assert(counted[4 * g] == head[4 * g]);
    assert(counted[4 * g + 1] == head[4 * g + 1]);
    assert(counted[4 * g + 2] == head[4 * g + 2]);
    assert forall|i: int| 0 <= i < g implies {
        &&& counted[4 * i] == sep
        &&& counted[4 * i + 1] == " "@ + colored(
            *config,
            Theme::Highlight,
            (#[trigger] groups@[i]).operation.name(),
        )
        &&& counted[4 * i + 2] == sep
        &&& counted[4 * i + 3] == tables@[i]@
    } by {
        assert(counted[4 * i] == head[4 * i] && head[4 * i] == tabled[4 * i]);
        assert(counted[4 * i + 1] == head[4 * i + 1] && head[4 * i + 1] == tabled[4 * i + 1]);
        assert(counted[4 * i + 2] == head[4 * i + 2] && head[4 * i + 2] == tabled[4 * i + 2]);
        assert(counted[4 * i + 3] == head[4 * i + 3] && head[4 * i + 3] == tabled[4 * i + 3]);
    }
}

proof fn lemma_tables(
    config: Config,
    groups: Seq<SummaryGroup>,
    tables: Seq<String>,
    sep: Seq<char>,
    n: int,
)
    requires
        0 <= n <= groups.len(),
        groups.len() == tables.len(),
    ensures
        table_lines(config, groups, tables, sep, n).len() == 4 * n,
        forall|i: int|
            0 <= i < n ==> {
                let lines = table_lines(config, groups, tables, sep, n);
                &&& lines[4 * i] == sep
                &&& lines[4 * i + 1] == " "@ + colored(
                    config,
                    Theme::Highlight,
                    (#[trigger] groups[i]).operation.name(),
                )
                &&& lines[4 * i + 2] == sep
                &&& lines[4 * i + 3] == tables[i]@
            },
    decreases n,
{
    if n > 0 {
        lemma_tables(config, groups, tables, sep, n - 1);
    }
}

proof fn lemma_counts(lines: Seq<Seq<char>>, groups: Seq<SummaryGroup>, n: int)
    requires
        0 <= n <= groups.len(),
    ensures
        with_counts(lines, groups, n).len() == lines.len() + n,
        forall|i: int| 0 <= i < lines.len() ==> #[trigger] with_counts(lines, groups, n)[i] == lines[i],
        forall|i: int|
            0 <= i < n ==> with_counts(lines, groups, n)[lines.len() + i] == " "@ + (
            #[trigger] groups[i]).operation.name() + " "@ + decimal(groups[i].rows@.len()),
    decreases n,
{
    if n > 0 {
        lemma_counts(lines, groups, n - 1);
    }
}

} // verus!

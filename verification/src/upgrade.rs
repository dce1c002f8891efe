//! Upgrading: what changes, the scripts that run around it and what apt's
//! hooks are told.
use vstd::prelude::*;
use crate::apt::{Marked, Package, PkgCurrentState, Version};
use crate::cmd::grouped::Grouped;
use crate::cmd::Operation;
use crate::config::{flag, path_of, value_or, Config, Paths};
use crate::error::{fails_with, NalaError};
use crate::libnala::{
    among, auto_remove_changes, auto_removed, by_operation, contains_version, first_unmarked,
    is_group, lemma_nothing_kept, lemma_removed, lemma_taken_group, removal, removal_of, removed,
    taken, unmarked_error, Change, Removal, Verdict,
};
use crate::newdownload::{get_pkg_name, has_file_name, pkg_file_name};
use crate::seqs::{lemma_places_next, places_to};
use crate::text::{
    bool_text, decimal_i32, join_path, path_in, signed_decimal, split_whitespace, str_eq, texts,
    words_of,
};

verus! {

/// What the autoremover does with each package, and the versions that it
/// takes away.
pub fn auto_remover<'a>(packages: &'a Vec<Package>) -> (r: (Vec<Removal<'a>>, Vec<&'a Version>))
    ensures
        r.0@ == Seq::new(packages@.len(), |i: int| removal(packages@[i])),
        r.1@ == removed(r.0@),
{
    let mut removals: Vec<Removal<'a>> = Vec::new();
    let mut versions: Vec<&'a Version> = Vec::new();
    let mut i: usize = 0;
    while i < packages.len()
        invariant
            i <= packages@.len(),
            removals@ == Seq::new(i as nat, |k: int| removal(packages@[k])),
            versions@ == removed(removals@),
        decreases packages@.len() - i,
    {
        let ghost before = removals@;
        let step = removal_of(&packages[i]);
        if let Removal::Delete(Some(v)) = &step {
            versions.push(*v);
        }
        removals.push(step);
        proof {
            assert(removals@.drop_last() =~= before);
            assert(removals@ =~= Seq::new((i + 1) as nat, |k: int| removal(packages@[k])));
        }
        i = i + 1;
    }
    (removals, versions)
}

/// How far an upgrade goes.
#[derive(Debug, Clone, Copy, PartialEq, Eq, Structural)]
pub enum UpgradeKind {
    /// Packages may be installed and removed.
    Full,
    /// Nothing is installed or removed.
    Safe,
    /// Packages may be installed, but not removed.
    Upgrade,
}

/// How far an upgrade goes: all the way, unless the configuration says
/// otherwise. A safe upgrade takes precedence.
pub fn upgrade_kind(config: &Config) -> (r: UpgradeKind)
    ensures
        r == if flag(*config, "safe"@, false) {
            UpgradeKind::Safe
        } else if !flag(*config, "no_full"@, false) && flag(*config, "full"@, true) {
            UpgradeKind::Full
        } else {
            UpgradeKind::Upgrade
        },
{
    if config.get_bool("safe", false) {
        return UpgradeKind::Safe;
    }
    proof {
        reveal_strlit("no_");
        reveal_strlit("full");
        reveal_strlit("no_full");
        assert("no_"@ + "full"@ =~= "no_full"@);
    }
    if config.get_no_bool("full", true) {
        UpgradeKind::Full
    } else {
        UpgradeKind::Upgrade
    }
}

/// What the mark on a package comes to in an upgrade.
pub open spec fn upgrade_verdict<'a>(pkg: Package, auto_remove: Seq<&'a Version>) -> Verdict<'a> {
    match pkg.marked {
        Marked::NewInstall | Marked::Install | Marked::ReInstall
        | Marked::Downgrade => match pkg.target() {
            Some(v) => Verdict::Take(
                Change {
                    operation: if pkg.marked == Marked::ReInstall {
                        Operation::Reinstall
                    } else if pkg.marked == Marked::Downgrade {
                        Operation::Downgrade
                    } else {
                        Operation::Install
                    },
                    version: &v,
                    old_version: None,
                },
            ),
            None => Verdict::Skip,
        },
        Marked::Remove | Marked::Purge => match pkg.inst() {
            Some(v) => if among(auto_remove, v) {
                Verdict::Skip
            } else {
                Verdict::Take(
                    Change {
                        operation: if pkg.marked_purge {
                            Operation::Purge
                        } else {
                            Operation::Remove
                        },
                        version: &v,
                        old_version: None,
                    },
                )
            },
            None => Verdict::Skip,
        },
        Marked::Upgrade => match (pkg.inst(), pkg.cand()) {
            (Some(inst), Some(cand)) => Verdict::Take(
                Change {
                    operation: Operation::Upgrade,
                    version: &cand,
                    old_version: Some(&inst),
                },
            ),
            _ => Verdict::Skip,
        },
        Marked::Held => match pkg.cand() {
            Some(v) => Verdict::Take(
                Change { operation: Operation::Held, version: &v, old_version: None },
            ),
            None => Verdict::Skip,
        },
        Marked::Keep => Verdict::Skip,
        Marked::Unmarked => Verdict::Impossible,
    }
}

/// The verdicts on packages, in order.
pub open spec fn upgrade_verdicts<'a>(pkgs: Seq<Package>, auto_remove: Seq<&'a Version>) -> Seq<
    Verdict<'a>,
> {
    Seq::new(pkgs.len(), |i: int| upgrade_verdict(pkgs[i], auto_remove))
}

fn judge_upgrade<'a>(pkg: &'a Package, auto_remove: &Vec<&'a Version>) -> (r: Verdict<'a>)
    ensures
        r == upgrade_verdict(*pkg, auto_remove@),
{
    match pkg.marked {
        Marked::NewInstall | Marked::Install | Marked::ReInstall | Marked::Downgrade => {
            let operation = match pkg.marked {
                Marked::ReInstall => Operation::Reinstall,
                Marked::Downgrade => Operation::Downgrade,
                _ => Operation::Install,
            };
            match pkg.install_version() {
                Some(version) => Verdict::Take(Change { operation, version, old_version: None }),
                None => Verdict::Skip,
            }
        },
        Marked::Remove | Marked::Purge => match pkg.installed() {
            Some(version) => {
                if contains_version(auto_remove, version) {
                    return Verdict::Skip;
                }
                let operation = if pkg.marked_purge {
                    Operation::Purge
                } else {
                    Operation::Remove
                };
                Verdict::Take(Change { operation, version, old_version: None })
            },
            None => Verdict::Skip,
        },
        Marked::Upgrade => match (pkg.installed(), pkg.candidate()) {
            (Some(inst), Some(version)) => Verdict::Take(
                Change { operation: Operation::Upgrade, version, old_version: Some(inst) },
            ),
            _ => Verdict::Skip,
        },
        Marked::Held => match pkg.candidate() {
            Some(version) => Verdict::Take(
                Change { operation: Operation::Held, version, old_version: None },
            ),
            None => Verdict::Skip,
        },
        Marked::Keep => Verdict::Skip,
        Marked::Unmarked => Verdict::Impossible,
    }
}

/// Sorts the changes of an upgrade by what happens to each package. The group
/// of packages that are removed automatically is there even when it is empty.
pub fn upgrade<'a>(changed: &'a Vec<Package>, auto_remove: &Vec<&'a Version>) -> (r: Result<
    Grouped<Change<'a>>,
    NalaError,
>)
    ensures
        match r {
            Ok(set) => {
                &&& set.wf()
                &&& set@ == by_operation(taken(upgrade_verdicts(changed@, auto_remove@))).insert(
                    Operation::AutoRemove,
                    auto_removed(auto_remove@),
                )
                &&& forall|i: int|
                    0 <= i < changed@.len() ==> (#[trigger] changed@[i]).marked != Marked::Unmarked
            },
            Err(e) => exists|i: int|
                #[trigger] first_unmarked(changed@, i) && e.message@ == unmarked_error(
                    changed@[i].name@,
                ),
        },
{
    let mut set: Grouped<Change<'a>> = Grouped::new();
    let ghost all = upgrade_verdicts(changed@, auto_remove@);
    let mut i: usize = 0;
    assert(all.take(0) =~= Seq::empty());
    while i < changed.len()
        invariant
            i <= changed@.len(),
            all == upgrade_verdicts(changed@, auto_remove@),
            set.wf(),
            set@ == by_operation(taken(all.take(i as int))),
            forall|j: int| 0 <= j < i ==> (#[trigger] changed@[j]).marked != Marked::Unmarked,
        decreases changed@.len() - i,
    {
        let ghost before = taken(all.take(i as int));
        assert(all.take(i + 1).drop_last() =~= all.take(i as int));
        assert(all.take(i + 1).last() == upgrade_verdict(changed@[i as int], auto_remove@));
        match judge_upgrade(&changed[i], auto_remove) {
            Verdict::Take(change) => {
                assert(before.push(change).drop_last() =~= before);
                set.push(change.operation, change);
            },
            Verdict::Skip => {},
            Verdict::Impossible => {
                let mut message = changed[i].name.clone();
                message.append(" not marked, this should be impossible");
                assert(first_unmarked(changed@, i as int));
                return Err(NalaError::from_string(message));
            },
        }
        i = i + 1;
    }
    assert(all.take(i as int) =~= all);
    set.insert(Operation::AutoRemove, auto_remove_changes(auto_remove));
    Ok(set)
}

/// In an upgrade, too, no version that is removed automatically is listed as
/// removed or purged.
pub proof fn law_auto_removed_is_not_removed<'a>(
    pkgs: Seq<Package>,
    auto_remove: Seq<&'a Version>,
    n: int,
)
    requires
        0 <= n < taken(upgrade_verdicts(pkgs, auto_remove)).len(),
    ensures
        ({
            let change = taken(upgrade_verdicts(pkgs, auto_remove))[n];
            (change.operation == Operation::Remove || change.operation == Operation::Purge)
                ==> !among(auto_remove, *change.version)
        }),
    decreases pkgs.len(),
{
    let all = upgrade_verdicts(pkgs, auto_remove);
    if pkgs.len() > 0 {
        assert(all.drop_last() =~= upgrade_verdicts(pkgs.drop_last(), auto_remove));
        if n < taken(all.drop_last()).len() {
            law_auto_removed_is_not_removed(pkgs.drop_last(), auto_remove, n);
        }
    }
}

/// The code that the program exits with after a script, or `None` where it
/// goes on. A script that a signal ended has no code.
pub fn script_failure(code: i32) -> (r: Option<i32>)
    ensures
        r == if code == 0 {
            None
        } else {
            Some(code)
        },
{
    if code == 0 {
        None
    } else {
        Some(code)
    }
}

/// How the current version compares with the candidate.
pub open spec fn comparison(current: Option<Version>, cand: Version) -> Seq<char> {
    match current {
        Some(v) => if v.order < cand.order {
            "<"@
        } else if v.order == cand.order {
            "="@
        } else {
            ">"@
        },
        None => "<"@,
    }
}

/// The value that `o` refers to.
pub open spec fn referent(o: Option<&Version>) -> Option<Version> {
    match o {
        Some(v) => Some(*v),
        None => None,
    }
}

/// How the current version compares with the candidate.
pub fn set_comp(current: Option<&Version>, cand: &Version) -> (r: &'static str)
    ensures
        r@ == comparison(referent(current), *cand),
{
    match current {
        Some(v) => if v.order < cand.order {
            "<"
        } else if v.order == cand.order {
            "="
        } else {
            ">"
        },
        None => "<",
    }
}

/// What a hook is told of a version's architecture: nothing below version 3.
pub open spec fn multi_arch(version: Version, hook_ver: i32) -> Seq<char> {
    if hook_ver < 3 {
        Seq::empty()
    } else {
        version.arch@ + " "@ + version.multi_arch@ + " "@
    }
}

/// What a hook is told of a version's architecture.
pub fn set_multi_arch(version: &Version, hook_ver: i32) -> (r: String)
    ensures
        r@ == multi_arch(*version, hook_ver),
{
    if hook_ver < 3 {
        return String::new();
    }
    let mut r = version.arch.clone();
    r.append(" ");
    r.append(version.multi_arch.as_str());
    r.append(" ");
    r
}

/// A version comes from the archive of installed packages.
pub open spec fn is_now(version: Version) -> bool {
    exists|i: int|
        0 <= i < version.files@.len() && (#[trigger] version.files@[i]).file.archive is Some
            && version.files@[i].file.archive->0@ == "now"@
}

/// The first version that comes from the archive of installed packages.
pub open spec fn now_version(versions: Seq<Version>) -> Option<Version>
    decreases versions.len(),
{
    if versions.len() == 0 {
        None
    } else if is_now(versions[0]) {
        Some(versions[0])
    } else {
        now_version(versions.skip(1))
    }
}

/// The first version that comes from the archive of installed packages.
pub fn get_now_version(pkg: &Package) -> (r: Option<&Version>)
    ensures
        referent(r) == now_version(pkg.versions@),
{
    let versions = &pkg.versions;
    let mut i: usize = 0;
    assert(versions@.skip(0) =~= versions@);
    while i < versions.len()
        invariant
            i <= versions@.len(),
            versions == pkg.versions,
            now_version(versions@.skip(i as int)) == now_version(versions@),
        decreases versions@.len() - i,
    {
        let ver = &versions[i];
        let mut j: usize = 0;
        while j < ver.files.len()
            invariant
                i < versions@.len(),
                j <= ver.files@.len(),
                ver == versions@[i as int],
                versions == pkg.versions,
                now_version(versions@.skip(i as int)) == now_version(versions@),
                forall|k: int|
                    0 <= k < j ==> (#[trigger] ver.files@[k]).file.archive is None
                        || ver.files@[k].file.archive->0@ != "now"@,
            decreases ver.files@.len() - j,
        {
            if let Some(archive) = &ver.files[j].file.archive {
                if str_eq(archive.as_str(), "now") {
                    assert(ver.files@[j as int].file.archive->0@ == "now"@);
                    assert(is_now(*ver));
                    assert(versions@.skip(i as int)[0] == *ver);
                    return Some(ver);
                }
            }
            j = j + 1;
        }
        assert(!is_now(versions@[i as int]));
        assert(versions@.skip(i as int).skip(1) =~= versions@.skip(i + 1));
        i = i + 1;
    }
    None
}

/// The version that a hook takes to be the current one: the installed one,
/// else one from the archive of installed packages.
pub open spec fn current_of(pkg: Package) -> Option<Version> {
    match pkg.inst() {
        Some(v) => Some(v),
        None => now_version(pkg.versions@),
    }
}

/// The version whose file a hook is told of.
pub open spec fn hook_version(pkg: Package) -> Option<Version> {
    match pkg.cand() {
        Some(v) => Some(v),
        None => current_of(pkg),
    }
}

/// The end of what a hook is told of a package: its file, or what happens to
/// it.
pub open spec fn hook_action(pkg: Package, archive: Seq<char>) -> Seq<char> {
    if pkg.marked_install || pkg.marked_upgrade {
        match hook_version(pkg) {
            Some(v) => path_in(archive, pkg_file_name(v)->0) + "\n"@,
            None => "**ERROR**\n"@,
        }
    } else if pkg.marked_delete {
        "**REMOVE**\n"@
    } else if pkg.current_state == PkgCurrentState::ConfigFiles {
        "**CONFIGURE**\n"@
    } else {
        bool_text(pkg.marked_upgrade) + "\n"@
    }
}

/// What a hook is told of a package.
pub open spec fn hook_info(pkg: Package, hook_ver: i32, archive: Seq<char>) -> Seq<char> {
    pkg.name@ + " "@ + (match current_of(pkg) {
        Some(v) => v.version@ + " "@ + multi_arch(v, hook_ver),
        None => if hook_ver < 3 {
            "- "@
        } else {
            "- - none "@
        },
    }) + (match pkg.cand() {
        Some(c) => comparison(current_of(pkg), c) + " "@ + c.version@ + " "@ + multi_arch(
            c,
            hook_ver,
        ),
        None => if hook_ver < 3 {
            "> - "@
        } else {
            "> - - none "@
        },
    }) + hook_action(pkg, archive)
}

/// The file of the version that a hook is told of has a name, where it is
/// asked for.
pub open spec fn hook_file_named(pkg: Package) -> bool {
    (pkg.marked_install || pkg.marked_upgrade) && hook_version(pkg) is Some ==> pkg_file_name(
        hook_version(pkg)->0,
    ) is Some
}

/// What a hook is told of a package.
pub fn pkg_info(pkg: &Package, hook_ver: i32, archive: &str) -> (r: String)
    requires
        hook_file_named(*pkg),
    ensures
        r@ == hook_info(*pkg, hook_ver, archive@),
{
    let current = match pkg.installed() {
        Some(v) => Some(v),
        None => get_now_version(pkg),
    };
    assert(referent(current) == current_of(*pkg));
    let mut string = pkg.name.clone();
    string.append(" ");
    let ghost s1 = string@;
    let mut part = String::new();
    match current {
        Some(ver) => {
            part.append(ver.version.as_str());
            part.append(" ");
            part.append(set_multi_arch(ver, hook_ver).as_str());
            assert(part@ =~= ver.version@ + " "@ + multi_arch(*ver, hook_ver));
        },
        None => {
            part.append(
                if hook_ver < 3 {
                    "- "
                } else {
                    "- - none "
                },
            );
            assert(part@ =~= if hook_ver < 3 {
                "- "@
            } else {
                "- - none "@
            });
        },
    }
    string.append(part.as_str());
    let mut second = String::new();
    match pkg.candidate() {
        Some(cand) => {
            second.append(set_comp(current, cand));
            second.append(" ");
            second.append(cand.version.as_str());
            second.append(" ");
            second.append(set_multi_arch(cand, hook_ver).as_str());
            assert(second@ =~= comparison(current_of(*pkg), *cand) + " "@ + cand.version@ + " "@
                + multi_arch(*cand, hook_ver));
        },
        None => {
            second.append(
                if hook_ver < 3 {
                    "> - "
                } else {
                    "> - - none "
                },
            );
            assert(second@ =~= if hook_ver < 3 {
                "> - "@
            } else {
                "> - - none "@
            });
        },
    }
    string.append(second.as_str());
    let ghost s2 = string@;
    if pkg.marked_install || pkg.marked_upgrade {
        let version = match pkg.candidate() {
            Some(v) => Some(v),
            None => current,
        };
        assert(referent(version) == hook_version(*pkg));
        match version {
            Some(v) => {
                let name = get_pkg_name(v);
                string.append(join_path(archive, name.as_str()).as_str());
                string.append("\n");
                assert(string@ =~= s2 + (path_in(archive@, name@) + "\n"@));
            },
            None => {
                string.append("**ERROR**\n");
            },
        }
    } else if pkg.marked_delete {
        string.append("**REMOVE**\n");
    } else {
        match pkg.current_state {
            PkgCurrentState::ConfigFiles => {
                string.append("**CONFIGURE**\n");
            },
            _ => {
                string.append(
                    if pkg.marked_upgrade {
                        "true"
                    } else {
                        "false"
                    },
                );
                string.append("\n");
                assert(string@ =~= s2 + (bool_text(pkg.marked_upgrade) + "\n"@));
            },
        }
    }
    string
}

/// A node of apt's configuration tree.
#[derive(Debug)]
pub struct ConfigNode {
    pub tag: Option<String>,
    pub value: Option<String>,
    /// The tag and the value as apt quotes them for a hook.
    pub quoted_tag: String,
    pub quoted_value: String,
    pub child: Option<Box<ConfigNode>>,
    pub sibling: Option<Box<ConfigNode>>,
}

/// The line of a node, where it has a tag and a value.
pub open spec fn node_line(node: ConfigNode) -> Seq<char> {
    if node.tag is Some && node.value is Some && node.value->0@.len() > 0 {
        node.quoted_tag@ + "="@ + node.quoted_value@ + "\n"@
    } else {
        Seq::empty()
    }
}

/// The lines of a node, of what is below it and of the nodes beside it.
pub open spec fn node_lines(node: ConfigNode) -> Seq<char>
    decreases node,
{
    node_line(node) + (match node.child {
        Some(b) => node_lines(*b),
        None => Seq::empty(),
    }) + (match node.sibling {
        Some(b) => node_lines(*b),
        None => Seq::empty(),
    })
}

spec fn optional_lines(node: Option<Box<ConfigNode>>) -> Seq<char> {
    match node {
        Some(b) => node_lines(*b),
        None => Seq::empty(),
    }
}

spec fn optional_size(node: Option<Box<ConfigNode>>) -> nat {
    match node {
        Some(b) => node_size(*b),
        None => 0,
    }
}

spec fn node_size(node: ConfigNode) -> nat
    decreases node,
{
    1 + (match node.child {
        Some(b) => node_size(*b),
        None => 0,
    }) + (match node.sibling {
        Some(b) => node_size(*b),
        None => 0,
    })
}

/// The lines of the nodes on a stack, the topmost first.
spec fn stack_lines(stack: Seq<&ConfigNode>) -> Seq<char>
    decreases stack.len(),
{
    if stack.len() == 0 {
        Seq::empty()
    } else {
        node_lines(*stack.last()) + stack_lines(stack.drop_last())
    }
}

spec fn stack_size(stack: Seq<&ConfigNode>) -> nat
    decreases stack.len(),
{
    if stack.len() == 0 {
        0
    } else {
        node_size(*stack.last()) + stack_size(stack.drop_last())
    }
}

proof fn lemma_stack_push(stack: Seq<&ConfigNode>, node: Option<Box<ConfigNode>>, next: Seq<&ConfigNode>)
    requires
        match node {
            Some(b) => next == stack.push(&*b),
            None => next == stack,
        },
    ensures
        stack_lines(next) == optional_lines(node) + stack_lines(stack),
        stack_size(next) == optional_size(node) + stack_size(stack),
{
    if node is Some {
        assert(next.drop_last() =~= stack);
    } else {
        assert(optional_lines(node) + stack_lines(stack) =~= stack_lines(stack));
    }
}

proof fn lemma_regroup(a: Seq<char>, b: Seq<char>, c: Seq<char>, d: Seq<char>, e: Seq<char>)
    ensures
        a + (b + c + d + e) == (a + b) + (c + (d + e)),
{
    assert(a + (b + c + d + e) =~= (a + b) + (c + (d + e)));
}

/// What a hook is told of the configuration: the version that it speaks, each
/// setting, and an empty line.
pub open spec fn config_info(tree: ConfigNode, hook_ver: i32) -> Seq<char> {
    (if hook_ver <= 3 {
        "VERSION "@ + signed_decimal(hook_ver as int) + "\n"@
    } else {
        "VERSION 3\n"@
    }) + node_lines(tree) + "\n"@
}

/// What a hook is told of the configuration.
pub fn write_config_info(tree: Option<&ConfigNode>, hook_ver: i32) -> (r: Result<String, NalaError>)
    ensures
        match tree {
            Some(node) => r is Ok && r->Ok_0@ == config_info(*node, hook_ver),
            None => fails_with(r, "No config tree!"@),
        },
{
    let root = match tree {
        Some(node) => node,
        None => {
            return Err(NalaError::new("No config tree!"));
        },
    };
    let mut out = String::new();
    if hook_ver <= 3 {
        out.append("VERSION ");
        out.append(decimal_i32(hook_ver).as_str());
        out.append("\n");
    } else {
        out.append("VERSION 3\n");
    }
    let ghost head = out@;
    assert(head =~= if hook_ver <= 3 {
        "VERSION "@ + signed_decimal(hook_ver as int) + "\n"@
    } else {
        "VERSION 3\n"@
    });
    let mut stack: Vec<&ConfigNode> = Vec::new();
    stack.push(root);
    proof {
        assert(stack@.drop_last() =~= Seq::empty());
        assert(stack_lines(stack@.drop_last()) =~= Seq::<char>::empty());
        assert(stack_lines(stack@) =~= node_lines(*root));
        assert(out@ + stack_lines(stack@) =~= head + node_lines(*root));
    }
    while stack.len() > 0
        invariant
            out@ + stack_lines(stack@) == head + node_lines(*root),
        decreases stack_size(stack@),
    {
        let ghost before = stack@;
        let ghost written = out@;
        let node: &ConfigNode = match stack.pop() {
            Some(n) => n,
            None => {
                assert(false);
                return Err(NalaError::new(""));
            },
        };
        let ghost rest = stack@;
        assert(rest =~= before.drop_last());
        assert(stack_lines(before) == node_lines(*node) + stack_lines(rest));
        if let Some(item) = &node.sibling {
            stack.push(&**item);
            assert(stack@.drop_last() =~= rest);
        }
        let ghost middle = stack@;
        if let Some(item) = &node.child {
            stack.push(&**item);
            assert(stack@.drop_last() =~= middle);
        }
        if let (Some(_), Some(value)) = (&node.tag, &node.value) {
            if !value.as_str().is_empty() {
                out.append(node.quoted_tag.as_str());
                out.append("=");
                out.append(node.quoted_value.as_str());
                out.append("\n");
            }
        }
        proof {
            assert(out@ =~= written + node_line(*node));
            lemma_stack_push(rest, node.sibling, middle);
            lemma_stack_push(middle, node.child, stack@);
            lemma_regroup(
                written,
                node_line(*node),
                optional_lines(node.child),
                optional_lines(node.sibling),
                stack_lines(rest),
            );
        }
    }
    assert(stack_lines(stack@) =~= Seq::<char>::empty());
    assert(out@ =~= head + node_lines(*root));
    out.append("\n");
    Ok(out)
}

/// A line for a hook. With a file, it is written only where the file exists.
#[derive(Debug)]
pub struct HookLine {
    pub text: String,
    pub only_if: Option<String>,
}

/// What is run for a hook and what it is told of packages. `hook_input` gives
/// all that it is told.
#[derive(Debug)]
pub struct HookPlan {
    /// The command.
    pub hook: String,
    /// The program that the command runs.
    pub prog: String,
    /// The version that the program speaks.
    pub version: i32,
    /// The file descriptor that the program reads from.
    pub info_fd: i32,
    pub lines: Vec<HookLine>,
}

/// The text and the file of a line.
pub open spec fn line_view(line: HookLine) -> (Seq<char>, Option<Seq<char>>) {
    (line.text@, crate::text::text_opt(line.only_if))
}

/// The texts and the files of lines.
pub open spec fn line_views(lines: Seq<HookLine>) -> Seq<(Seq<char>, Option<Seq<char>>)> {
    Seq::new(lines.len(), |i: int| line_view(lines[i]))
}

/// A hook that speaks version 1 is told of a package: one that is marked both
/// for installation and for upgrade, and has a candidate.
pub open spec fn told_of(pkg: Package) -> bool {
    pkg.marked_install && pkg.marked_upgrade && pkg.cand() is Some
}

/// What a hook is told of packages. Above version 1 that is their state, else
/// the files of those that are installed.
pub open spec fn hook_lines(pkgs: Seq<Package>, version: i32, archive: Seq<char>) -> Seq<
    (Seq<char>, Option<Seq<char>>),
>
    decreases pkgs.len(),
{
    if pkgs.len() == 0 {
        Seq::empty()
    } else {
        let before = hook_lines(pkgs.drop_last(), version, archive);
        let pkg = pkgs.last();
        if version > 1 {
            before.push((hook_info(pkg, version, archive), None))
        } else if told_of(pkg) {
            let path = path_in(archive, pkg_file_name(pkg.cand()->0)->0);
            before.push((path + "\n"@, Some(path)))
        } else {
            before
        }
    }
}

/// The hooks that name a program, in order.
pub open spec fn with_program(hooks: Seq<String>) -> Seq<String>
    decreases hooks.len(),
{
    if hooks.len() == 0 {
        Seq::empty()
    } else if words_of(hooks.last()@).len() > 0 {
        with_program(hooks.drop_last()).push(hooks.last())
    } else {
        with_program(hooks.drop_last())
    }
}

/// The key of an option that apt keeps for a program.
pub open spec fn tool_option(prog: Seq<char>, option: Seq<char>) -> Seq<char> {
    "DPkg::Tools::Options::"@ + prog + option
}

/// The plan belongs to the hook: its program is the first word, and its
/// version and descriptor are what the configuration says of that program.
pub open spec fn plans_hook(plan: HookPlan, hook: Seq<char>, config: Config, pkgs: Seq<Package>) -> bool {
    &&& plan.hook@ == hook
    &&& plan.prog@ == words_of(hook)[0]
    &&& plan.version == value_or(
        config.apt.ints@,
        tool_option(words_of(hook)[0], "::VERSION"@),
        1i32,
    )
    &&& plan.info_fd == value_or(
        config.apt.ints@,
        tool_option(words_of(hook)[0], "::InfoFD"@),
        0i32,
    )
    &&& line_views(plan.lines@) == hook_lines(pkgs, plan.version, path_of(config, Paths::Archive))
}

/// The hooks that run before packages are installed.
pub open spec fn install_hooks(config: Config) -> Seq<String> {
    if config.apt.vectors@.dom().contains("DPkg::Pre-Install-Pkgs"@) {
        config.apt.vectors@["DPkg::Pre-Install-Pkgs"@]@
    } else {
        Seq::empty()
    }
}

/// The version that the program of a hook speaks.
pub open spec fn spoken(config: Config, hook: Seq<char>) -> i32 {
    value_or(config.apt.ints@, tool_option(words_of(hook)[0], "::VERSION"@), 1i32)
}

/// The file of a package has a name, where a hook of some version is told of
/// it.
pub open spec fn line_named(pkg: Package, version: i32) -> bool {
    if version > 1 {
        hook_file_named(pkg)
    } else {
        told_of(pkg) ==> pkg_file_name(pkg.cand()->0) is Some
    }
}

/// The files of packages have names, where a hook of some version is told of
/// them.
pub open spec fn lines_named(pkgs: Seq<Package>, version: i32) -> bool {
    forall|i: int| 0 <= i < pkgs.len() ==> line_named(#[trigger] pkgs[i], version)
}

/// The files of packages have names, where one of the hooks is told of them.
pub open spec fn hooks_named(pkgs: Seq<Package>, config: Config) -> bool {
    forall|k: int|
        0 <= k < with_program(install_hooks(config)).len() ==> lines_named(
            pkgs,
            spoken(config, (#[trigger] with_program(install_hooks(config))[k])@),
        )
}

/// What a hook of some version is told of packages.
fn lines_for(pkgs: &Vec<Package>, version: i32, archive: &str) -> (r: Vec<HookLine>)
    requires
        lines_named(pkgs@, version),
    ensures
        line_views(r@) == hook_lines(pkgs@, version, archive@),
{
    let mut r: Vec<HookLine> = Vec::new();
    let mut i: usize = 0;
    assert(pkgs@.take(0) =~= Seq::empty());
    assert(line_views(r@) =~= hook_lines(pkgs@.take(0), version, archive@));
    while i < pkgs.len()
        invariant
            i <= pkgs@.len(),
            lines_named(pkgs@, version),
            line_views(r@) == hook_lines(pkgs@.take(i as int), version, archive@),
        decreases pkgs@.len() - i,
    {
        let pkg = &pkgs[i];
        let ghost before = line_views(r@);
        assert(pkgs@.take(i + 1).drop_last() =~= pkgs@.take(i as int));
        assert(line_named(pkgs@[i as int], version));
        if version > 1 {
            r.push(HookLine { text: pkg_info(pkg, version, archive), only_if: None });
            assert(line_views(r@) =~= before.push(line_view(r@.last())));
        } else if pkg.marked_install && pkg.marked_upgrade {
            if let Some(cand) = pkg.candidate() {
                let path = join_path(archive, get_pkg_name(cand).as_str());
                let mut text = path.clone();
                text.append("\n");
                r.push(HookLine { text, only_if: Some(path) });
                assert(line_views(r@) =~= before.push(line_view(r@.last())));
            }
        }
        i = i + 1;
    }
    assert(pkgs@.take(i as int) =~= pkgs@);
    r
}

/// Plans the hooks that run before packages are installed.
pub fn apt_hook_with_pkgs(pkgs: &Vec<Package>, config: &Config) -> (r: Vec<HookPlan>)
    requires
        hooks_named(pkgs@, *config),
    ensures
        r@.len() == with_program(install_hooks(*config)).len(),
        forall|i: int|
            0 <= i < r@.len() ==> plans_hook(
                #[trigger] r@[i],
                with_program(install_hooks(*config))[i]@,
                *config,
                pkgs@,
            ),
{
    let hooks = config.apt.find_vector("DPkg::Pre-Install-Pkgs");
    assert(hooks@ == install_hooks(*config));
    let archive = config.get_path(&Paths::Archive);
    let mut r: Vec<HookPlan> = Vec::new();
    let mut i: usize = 0;
    assert(hooks@.take(0) =~= Seq::empty());
    while i < hooks.len()
        invariant
            i <= hooks@.len(),
            archive@ == path_of(*config, Paths::Archive),
            hooks@ == install_hooks(*config),
            hooks_named(pkgs@, *config),
            r@.len() == with_program(hooks@.take(i as int)).len(),
            forall|k: int|
                0 <= k < r@.len() ==> plans_hook(
                    #[trigger] r@[k],
                    with_program(hooks@.take(i as int))[k]@,
                    *config,
                    pkgs@,
                ),
        decreases hooks@.len() - i,
    {
        assert(hooks@.take(i + 1).drop_last() =~= hooks@.take(i as int));
        let words = split_whitespace(hooks[i].as_str());
        assert(texts(words@).len() == words@.len());
        if words.len() > 0 {
            let prog = words[0].clone();
            assert(texts(words@)[0] == prog@);
            let mut version_key = "DPkg::Tools::Options::".to_owned();
            version_key.append(prog.as_str());
            version_key.append("::VERSION");
            let version: i32 = config.apt.number(version_key.as_str(), 1);
            let mut fd_key = "DPkg::Tools::Options::".to_owned();
            fd_key.append(prog.as_str());
            fd_key.append("::InfoFD");
            let info_fd: i32 = config.apt.number(fd_key.as_str(), 0);
            proof {
                let place = with_program(hooks@.take(i as int)).len() as int;
                lemma_with_program(hooks@, i + 1);
                assert(with_program(hooks@)[place] == hooks@[i as int]);
                assert(version == spoken(*config, hooks@[i as int]@));
            }
            let lines = lines_for(pkgs, version, archive.as_str());
            let ghost before = r@;
            let plan = HookPlan { hook: hooks[i].clone(), prog, version, info_fd, lines };
            r.push(plan);
            assert forall|k: int| 0 <= k < r@.len() implies plans_hook(
                #[trigger] r@[k],
                with_program(hooks@.take(i + 1))[k]@,
                *config,
                pkgs@,
            ) by {
                if k < before.len() {
                    assert(r@[k] == before[k]);
                }
            }
        }
        i = i + 1;
    }
    assert(hooks@.take(i as int) =~= hooks@);
    r
}

proof fn lemma_with_program(hooks: Seq<String>, n: int)
    requires
        0 <= n <= hooks.len(),
    ensures
        with_program(hooks.take(n)).len() <= with_program(hooks).len(),
        forall|k: int|
            0 <= k < with_program(hooks.take(n)).len() ==> with_program(hooks.take(n))[k]
                == #[trigger] with_program(hooks)[k],
    decreases hooks.len() - n,
{
    if n == hooks.len() {
        assert(hooks.take(n) =~= hooks);
    } else {
        assert(hooks.take(n + 1).drop_last() =~= hooks.take(n));
        lemma_with_program(hooks, n + 1);
    }
}

/// Whether the files of packages have names, where one of the hooks is told of
/// them.
pub fn names_known(pkgs: &Vec<Package>, config: &Config) -> (r: bool)
    ensures
        r == hooks_named(pkgs@, *config),
{
    let hooks = config.apt.find_vector("DPkg::Pre-Install-Pkgs");
    assert(hooks@ == install_hooks(*config));
    let mut i: usize = 0;
    assert(hooks@.take(0) =~= Seq::empty());
    while i < hooks.len()
        invariant
            i <= hooks@.len(),
            hooks@ == install_hooks(*config),
            forall|k: int|
                0 <= k < with_program(hooks@.take(i as int)).len() ==> lines_named(
                    pkgs@,
                    spoken(*config, (#[trigger] with_program(hooks@.take(i as int))[k])@),
                ),
        decreases hooks@.len() - i,
    {
        let ghost before = with_program(hooks@.take(i as int));
        assert(hooks@.take(i + 1).drop_last() =~= hooks@.take(i as int));
        let words = split_whitespace(hooks[i].as_str());
        assert(texts(words@).len() == words@.len());
        if words.len() > 0 {
            assert(texts(words@)[0] == words@[0]@);
            let mut key = "DPkg::Tools::Options::".to_owned();
            key.append(words[0].as_str());
            key.append("::VERSION");
            let version: i32 = config.apt.number(key.as_str(), 1);
            assert(version == spoken(*config, hooks@[i as int]@));
            if !lines_have_names(pkgs, version) {
                proof {
                    lemma_with_program(hooks@, i + 1);
                    assert(with_program(hooks@.take(i + 1))[before.len() as int]
                        == hooks@[i as int]);
                    assert(with_program(hooks@)[before.len() as int] == hooks@[i as int]);
                }
                return false;
            }
        }
        proof {
            let after = with_program(hooks@.take(i + 1));
            assert forall|k: int| 0 <= k < after.len() implies lines_named(
                pkgs@,
                spoken(*config, (#[trigger] after[k])@),
            ) by {
                if k < before.len() {
                    assert(after[k] == before[k]);
                }
            }
        }
        i = i + 1;
    }
    assert(hooks@.take(i as int) =~= hooks@);
    true
}

fn lines_have_names(pkgs: &Vec<Package>, version: i32) -> (r: bool)
    ensures
        r == lines_named(pkgs@, version),
{
    let mut i: usize = 0;
    while i < pkgs.len()
        invariant
            i <= pkgs@.len(),
            forall|k: int| 0 <= k < i ==> line_named(#[trigger] pkgs@[k], version),
        decreases pkgs@.len() - i,
    {
        let pkg = &pkgs[i];
        let used = if version > 1 {
            pkg.marked_install || pkg.marked_upgrade
        } else {
            pkg.marked_install && pkg.marked_upgrade
        };
        if used {
            let current = if version > 1 {
                match pkg.installed() {
                    Some(v) => Some(v),
                    None => get_now_version(pkg),
                }
            } else {
                None
            };
            let file = match pkg.candidate() {
                Some(v) => Some(v),
                None => current,
            };
            if let Some(v) = file {
                if !has_file_name(v) {
                    assert(!line_named(pkgs@[i as int], version));
                    return false;
                }
            }
        }
        assert(line_named(pkgs@[i as int], version));
        i = i + 1;
    }
    true
}

/// The first `n` lines that a hook is told. A line that depends on a file is
/// left out where the file is not present.
pub open spec fn written_lines(lines: Seq<HookLine>, present: Seq<bool>, n: int) -> Seq<char>
    decreases n,
{
    if n <= 0 {
        Seq::empty()
    } else {
        let before = written_lines(lines, present, n - 1);
        if lines[n - 1].only_if is None || present[n - 1] {
            before + lines[n - 1].text@
        } else {
            before
        }
    }
}

/// All that a hook is told. From version 2 on the configuration comes first.
pub open spec fn hook_text(
    plan: HookPlan,
    tree: Option<ConfigNode>,
    present: Seq<bool>,
) -> Result<Seq<char>, Seq<char>> {
    let lines = written_lines(plan.lines@, present, plan.lines@.len() as int);
    if plan.version < 2 {
        Ok(lines)
    } else {
        match tree {
            Some(node) => Ok(config_info(node, plan.version) + lines),
            None => Err("No config tree!"@),
        }
    }
}

/// The node that `o` refers to.
pub open spec fn node_of(o: Option<&ConfigNode>) -> Option<ConfigNode> {
    match o {
        Some(node) => Some(*node),
        None => None,
    }
}

/// All that a hook is told. `tree` is the configuration, and `present` says of
/// each line whether the file that it depends on is there.
pub fn hook_input(plan: &HookPlan, tree: Option<&ConfigNode>, present: &Vec<bool>) -> (r: Result<
    String,
    NalaError,
>)
    requires
        present@.len() == plan.lines@.len(),
    ensures
        match hook_text(*plan, node_of(tree), present@) {
            Ok(text) => r is Ok && r->Ok_0@ == text,
            Err(message) => fails_with(r, message),
        },
{
    let mut text = String::new();
    if plan.version >= 2 {
        match write_config_info(tree, plan.version) {
            Ok(info) => {
                text = info;
            },
            Err(e) => {
                return Err(e);
            },
        }
    }
    let ghost head = text@;
    let mut i: usize = 0;
    assert(head + Seq::<char>::empty() =~= head);
    while i < plan.lines.len()
        invariant
            i <= plan.lines@.len(),
            present@.len() == plan.lines@.len(),
            text@ == head + written_lines(plan.lines@, present@, i as int),
        decreases plan.lines@.len() - i,
    {
        let ghost before = written_lines(plan.lines@, present@, i as int);
        if plan.lines[i].only_if.is_none() || present[i] {
            text.append(plan.lines[i].text.as_str());
            assert((head + before) + plan.lines@[i as int].text@ =~= head + (before
                + plan.lines@[i as int].text@));
        }
        i = i + 1;
    }
    proof {
        if plan.version < 2 {
            assert(head =~= Seq::empty());
            assert(text@ =~= written_lines(plan.lines@, present@, i as int));
        }
    }
    Ok(text)
}

/// What a hook of some version is told of all the packages, one after the
/// other.
pub open spec fn all_infos(pkgs: Seq<Package>, version: i32, archive: Seq<char>) -> Seq<char>
    decreases pkgs.len(),
{
    if pkgs.len() == 0 {
        Seq::empty()
    } else {
        all_infos(pkgs.drop_last(), version, archive) + hook_info(pkgs.last(), version, archive)
    }
}

/// A hook whose program speaks version 2 or more is told the configuration and
/// then of every package in order, none left out, whatever files are present.
pub proof fn law_hook_hears_of_every_package(
    plan: HookPlan,
    hook: Seq<char>,
    config: Config,
    pkgs: Seq<Package>,
    tree: ConfigNode,
    present: Seq<bool>,
)
    requires
        plans_hook(plan, hook, config, pkgs),
        plan.version >= 2,
    ensures
        hook_text(plan, Some(tree), present) == Ok::<Seq<char>, Seq<char>>(
            config_info(tree, plan.version) + all_infos(
                pkgs,
                plan.version,
                path_of(config, Paths::Archive),
            ),
        ),
{
    lemma_all_lines(plan.lines@, pkgs, plan.version, path_of(config, Paths::Archive), present);
}

proof fn lemma_all_lines(
    lines: Seq<HookLine>,
    pkgs: Seq<Package>,
    version: i32,
    archive: Seq<char>,
    present: Seq<bool>,
)
    requires
        version >= 2,
        line_views(lines) == hook_lines(pkgs, version, archive),
    ensures
        written_lines(lines, present, lines.len() as int) == all_infos(pkgs, version, archive),
    decreases pkgs.len(),
{
    let views = line_views(lines);
    assert(views.len() == lines.len());
    if pkgs.len() > 0 {
        let last = lines.len() - 1;
        assert(views[last] == line_view(lines[last]));
        assert(views[last] == (hook_info(pkgs.last(), version, archive), None::<Seq<char>>));
        assert(line_views(lines.drop_last()) =~= hook_lines(pkgs.drop_last(), version, archive))
            by {
            assert(views.drop_last() =~= hook_lines(pkgs.drop_last(), version, archive));
            assert(line_views(lines.drop_last()) =~= views.drop_last());
        }
        lemma_all_lines(lines.drop_last(), pkgs.drop_last(), version, archive, present);
        lemma_written_prefix(lines, present, last);
    }
}

proof fn lemma_written_prefix(lines: Seq<HookLine>, present: Seq<bool>, n: int)
    requires
        0 <= n < lines.len(),
    ensures
        written_lines(lines.drop_last(), present, n) == written_lines(lines, present, n),
    decreases n,
{
    if n > 0 {
        lemma_written_prefix(lines, present, n - 1);
    }
}

/// What is done next about the hooks.
#[derive(Debug, Clone, Copy, PartialEq, Eq, Structural)]
pub enum HookStep {
    /// Run the hook at this place.
    Run(usize),
    /// Exit with this code.
    Exit(i32),
    Done,
}

/// What is done next about `count` hooks: they run in order, and one that fails
/// ends the program with its code. `ended` is the place of the hook that has
/// just ended, with its code. A hook that a signal ended has none.
pub fn next_hook(count: usize, ended: Option<(usize, Option<i32>)>) -> (r: HookStep)
    requires
        match ended {
            Some((place, _)) => place < count,
            None => true,
        },
    ensures
        r == match ended {
            None => if count > 0 {
                HookStep::Run(0)
            } else {
                HookStep::Done
            },
            Some((place, code)) => if code is Some && code->0 != 0 {
                HookStep::Exit(code->0)
            } else if place + 1 < count {
                HookStep::Run((place + 1) as usize)
            } else {
                HookStep::Done
            },
        },
{
    match ended {
        None => if count > 0 {
            HookStep::Run(0)
        } else {
            HookStep::Done
        },
        Some((place, code)) => {
            if let Some(code) = code {
                if let Some(code) = script_failure(code) {
                    return HookStep::Exit(code);
                }
            }
            if place + 1 < count {
                HookStep::Run(place + 1)
            } else {
                HookStep::Done
            }
        },
    }
}

/// What an upgrade does is listed, and nothing else: every package that
/// changes stands under the operation of its mark, with the version that it
/// gets or loses, and the packages of an operation keep their order. Those that
/// are removed automatically are listed as such, in a group that is always there.
pub proof fn law_every_upgrade_change_is_listed<'a>(
    changed: &'a Vec<Package>,
    auto_remove: &Vec<&'a Version>,
    r: Result<Grouped<Change<'a>>, NalaError>,
)
    requires
        call_ensures(upgrade, (changed, auto_remove), r),
    ensures
        r is Ok <==> forall|i: int|
            0 <= i < changed@.len() ==> (#[trigger] changed@[i]).marked
                != Marked::Unmarked,
        r is Ok ==> {
            let m = r->Ok_0@;
            let pkgs = changed@;
            let gone = |p: Package|
                (p.marked == Marked::Remove || p.marked == Marked::Purge) && p.inst() is Some
                    && forall|k: int|
                    0 <= k < auto_remove@.len() ==> (#[trigger] auto_remove@[k]).order
                        != p.inst()->0.order;
            &&& is_group(
                m,
                Operation::Install,
                pkgs.filter(
                    |p: Package|
                        (p.marked == Marked::NewInstall || p.marked == Marked::Install)
                            && p.target() is Some,
                ).map_values(
                    |p: Package|
                        Change {
                            operation: Operation::Install,
                            version: &p.target()->0,
                            old_version: None,
                        },
                ),
            )
            &&& is_group(
                m,
                Operation::Reinstall,
                pkgs.filter(
                    |p: Package| p.marked == Marked::ReInstall && p.target() is Some,
                ).map_values(
                    |p: Package|
                        Change {
                            operation: Operation::Reinstall,
                            version: &p.target()->0,
                            old_version: None,
                        },
                ),
            )
            &&& is_group(
                m,
                Operation::Remove,
                pkgs.filter(|p: Package| gone(p) && !p.marked_purge).map_values(
                    |p: Package|
                        Change {
                            operation: Operation::Remove,
                            version: &p.inst()->0,
                            old_version: None,
                        },
                ),
            )
            &&& is_group(
                m,
                Operation::Purge,
                pkgs.filter(|p: Package| gone(p) && p.marked_purge).map_values(
                    |p: Package|
                        Change {
                            operation: Operation::Purge,
                            version: &p.inst()->0,
                            old_version: None,
                        },
                ),
            )
            &&& is_group(
                m,
                Operation::Upgrade,
                pkgs.filter(
                    |p: Package|
                        p.marked == Marked::Upgrade && p.inst() is Some && p.cand() is Some,
                ).map_values(
                    |p: Package|
                        Change {
                            operation: Operation::Upgrade,
                            version: &p.cand()->0,
                            old_version: Some(&p.inst()->0),
                        },
                ),
            )
            &&& is_group(
                m,
                Operation::Downgrade,
                pkgs.filter(
                    |p: Package| p.marked == Marked::Downgrade && p.target() is Some,
                ).map_values(
                    |p: Package|
                        Change {
                            operation: Operation::Downgrade,
                            version: &p.target()->0,
                            old_version: None,
                        },
                ),
            )
            &&& is_group(
                m,
                Operation::Held,
                pkgs.filter(|p: Package| p.marked == Marked::Held && p.cand() is Some).map_values(
                    |p: Package|
                        Change {
                            operation: Operation::Held,
                            version: &p.cand()->0,
                            old_version: None,
                        },
                ),
            )
            &&& m.dom().contains(Operation::AutoRemove)
            &&& m[Operation::AutoRemove] == auto_remove@.map_values(
                |v: &'a Version|
                    Change { operation: Operation::AutoRemove, version: v, old_version: None },
            )
            &&& !m.dom().contains(Operation::AutoPurge)
        },
{
    let pkgs = changed@;
    let found = upgrade_verdicts(pkgs, auto_remove@);
    if r is Ok {
        let gone = |p: Package|
            (p.marked == Marked::Remove || p.marked == Marked::Purge) && p.inst() is Some
                && forall|k: int|
                0 <= k < auto_remove@.len() ==> (#[trigger] auto_remove@[k]).order
                    != p.inst()->0.order;
        lemma_taken_group(
            pkgs,
            found,
            Operation::Install,
            |p: Package|
                (p.marked == Marked::NewInstall || p.marked == Marked::Install) && p.target() is Some,
            |p: Package|
                Change {
                    operation: Operation::Install,
                    version: &p.target()->0,
                    old_version: None,
                },
        );
        lemma_taken_group(
            pkgs,
            found,
            Operation::Reinstall,
            |p: Package| p.marked == Marked::ReInstall && p.target() is Some,
            |p: Package|
                Change {
                    operation: Operation::Reinstall,
                    version: &p.target()->0,
                    old_version: None,
                },
        );
        lemma_taken_group(
            pkgs,
            found,
            Operation::Remove,
            |p: Package| gone(p) && !p.marked_purge,
            |p: Package|
                Change { operation: Operation::Remove, version: &p.inst()->0, old_version: None },
        );
        lemma_taken_group(
            pkgs,
            found,
            Operation::Purge,
            |p: Package| gone(p) && p.marked_purge,
            |p: Package|
                Change { operation: Operation::Purge, version: &p.inst()->0, old_version: None },
        );
        lemma_taken_group(
            pkgs,
            found,
            Operation::Upgrade,
            |p: Package| p.marked == Marked::Upgrade && p.inst() is Some && p.cand() is Some,
            |p: Package|
                Change {
                    operation: Operation::Upgrade,
                    version: &p.cand()->0,
                    old_version: Some(&p.inst()->0),
                },
        );
        lemma_taken_group(
            pkgs,
            found,
            Operation::Downgrade,
            |p: Package| p.marked == Marked::Downgrade && p.target() is Some,
            |p: Package|
                Change {
                    operation: Operation::Downgrade,
                    version: &p.target()->0,
                    old_version: None,
                },
        );
        lemma_taken_group(
            pkgs,
            found,
            Operation::Held,
            |p: Package| p.marked == Marked::Held && p.cand() is Some,
            |p: Package|
                Change { operation: Operation::Held, version: &p.cand()->0, old_version: None },
        );
        let none = |p: Package| false;
        let any = |p: Package|
            Change { operation: Operation::Held, version: &p.cand()->0, old_version: None };
        lemma_taken_group(pkgs, found, Operation::AutoRemove, none, any);
        lemma_taken_group(pkgs, found, Operation::AutoPurge, none, any);
        lemma_nothing_kept(pkgs, none);
        assert(auto_removed(auto_remove@) =~= auto_remove@.map_values(
            |v: &'a Version|
                Change { operation: Operation::AutoRemove, version: v, old_version: None },
        ));
    }
}


/// The autoremover deletes every package that can go, installed or not, but for
/// those of which only configuration files are left. The versions that it takes
/// away are the installed ones of the packages that it deletes.
pub proof fn law_autoremover<'a>(
    packages: &'a Vec<Package>,
    r: (Vec<Removal<'a>>, Vec<&'a Version>),
)
    requires
        call_ensures(auto_remover, (packages,), r),
    ensures
        r.0@.len() == packages@.len(),
        forall|i: int|
            0 <= i < packages@.len() ==> {
                let p = #[trigger] packages@[i];
                let only_files = p.current_state == PkgCurrentState::ConfigFiles;
                &&& r.0@[i] is Delete <==> p.auto_removable && !only_files
                &&& r.0@[i] is Keep <==> p.auto_removable && only_files
                &&& r.0@[i] is Leave <==> !p.auto_removable
                &&& r.0@[i] is Delete ==> r.0@[i] == match p.inst() {
                    Some(v) => Removal::Delete(Some(&v)),
                    None => Removal::Delete(None),
                }
            },
        r.1@ == packages@.filter(
            |p: Package|
                p.inst() is Some && p.auto_removable && p.current_state
                    != PkgCurrentState::ConfigFiles,
        ).map_values(|p: Package| &p.inst()->0),
{
    lemma_removed(
        packages@,
        r.0@,
        |p: Package|
            p.inst() is Some && p.auto_removable && p.current_state != PkgCurrentState::ConfigFiles,
        |p: Package| &p.inst()->0,
    );
}

/// A safe upgrade is one wherever that is asked for. Otherwise an upgrade goes
/// all the way, unless the configuration says in either way that it must not.
pub proof fn law_upgrade_kinds(config: &Config, r: UpgradeKind)
    requires
        call_ensures(upgrade_kind, (config,), r),
    ensures
        r == UpgradeKind::Safe <==> flag(*config, "safe"@, false),
        r == UpgradeKind::Full <==> !flag(*config, "safe"@, false) && !flag(
            *config,
            "no_full"@,
            false,
        ) && flag(*config, "full"@, true),
{
}

/// A script ends the program where it fails, with the script's own code.
pub proof fn law_failed_script_ends(code: i32, r: Option<i32>)
    requires
        call_ensures(script_failure, (code,), r),
    ensures
        r is None <==> code == 0,
        r is Some ==> r == Some(code),
{
}

/// How the version that a hook hears of compares: the sign points the way of
/// apt's order, and a package that is not there is older than all versions.
pub proof fn law_comparison_follows_order(current: Option<&Version>, cand: &Version, r: &'static str)
    requires
        call_ensures(set_comp, (current, cand), r),
    ensures
        current is None ==> r@ == "<"@,
        current is Some && current->0.order < cand.order ==> r@ == "<"@,
        current is Some && current->0.order == cand.order ==> r@ == "="@,
        current is Some && current->0.order > cand.order ==> r@ == ">"@,
{
}

/// The version that stands for what is installed is the first one that an index
/// file of the installed packages holds.
pub proof fn law_now_version_is_the_first(pkg: &Package, r: Option<&Version>)
    requires
        call_ensures(get_now_version, (pkg,), r),
    ensures
        r is Some ==> exists|i: int|
            0 <= i < pkg.versions@.len() && #[trigger] pkg.versions@[i] == *r->0 && in_now(
                pkg.versions@[i],
            ) && forall|j: int| 0 <= j < i ==> !in_now(#[trigger] pkg.versions@[j]),
        r is None ==> forall|j: int|
            0 <= j < pkg.versions@.len() ==> !in_now(#[trigger] pkg.versions@[j]),
{
    lemma_now_version(pkg.versions@, 0);
    assert(pkg.versions@.skip(0) =~= pkg.versions@);
}

/// An index file of the installed packages holds the version.
pub open spec fn in_now(version: Version) -> bool {
    exists|i: int|
        0 <= i < version.files@.len() && match (#[trigger] version.files@[i]).file.archive {
            Some(archive) => archive@ == "now"@,
            None => false,
        }
}

proof fn lemma_now_version(versions: Seq<Version>, n: int)
    requires
        0 <= n <= versions.len(),
    ensures
        match now_version(versions.skip(n)) {
            Some(v) => exists|i: int|
                n <= i < versions.len() && #[trigger] versions[i] == v && in_now(versions[i])
                    && forall|j: int| n <= j < i ==> !in_now(#[trigger] versions[j]),
            None => forall|j: int| n <= j < versions.len() ==> !in_now(#[trigger] versions[j]),
        },
    decreases versions.len() - n,
{
    if n < versions.len() {
        lemma_now_version(versions, n + 1);
        assert(versions.skip(n).skip(1) =~= versions.skip(n + 1));
        assert(versions.skip(n)[0] == versions[n]);
        assert(is_now(versions[n]) == in_now(versions[n])) by {
            if is_now(versions[n]) {
                let i = choose|i: int|
                    0 <= i < versions[n].files@.len() && (
                    #[trigger] versions[n].files@[i]).file.archive is Some
                        && versions[n].files@[i].file.archive->0@ == "now"@;
                assert(versions[n].files@[i].file.archive->0@ == "now"@);
            }
            if in_now(versions[n]) {
                let i = choose|i: int|
                    0 <= i < versions[n].files@.len() && match (
                    #[trigger] versions[n].files@[i]).file.archive {
                        Some(archive) => archive@ == "now"@,
                        None => false,
                    };
                assert(versions[n].files@[i].file.archive is Some);
            }
        }
        if is_now(versions[n]) {
            assert(versions[n] == now_version(versions.skip(n))->0);
        }
    }
}

/// The hooks that are run one after another, as `next_hook` gives them. The
/// hook at place `i` ends with `codes[i]`.
pub open spec fn hook_runs(count: usize, codes: Seq<Option<i32>>, steps: Seq<HookStep>) -> bool {
    &&& codes.len() == count
    &&& steps.len() > 0
    &&& call_ensures(next_hook, (count, None), steps[0])
    &&& forall|i: int|
        0 <= i < steps.len() - 1 ==> (#[trigger] steps[i] matches HookStep::Run(place)
            && call_ensures(next_hook, (count, Some((place, codes[place as int]))), steps[i + 1]))
    &&& !(steps.last() is Run)
}

/// The hooks run in their order, each once. The first that fails ends the
/// program with its code; where none fails, all are run.
pub proof fn law_hooks_run_in_order(count: usize, codes: Seq<Option<i32>>, steps: Seq<HookStep>)
    requires
        hook_runs(count, codes, steps),
    ensures
        forall|i: int| 0 <= i < steps.len() - 1 ==> #[trigger] steps[i] == HookStep::Run(i as usize),
        steps.len() - 1 <= count,
        forall|i: int|
            0 <= i < steps.len() - 2 ==> (#[trigger] codes[i]) is None || codes[i]->0 == 0,
        match steps.last() {
            HookStep::Done => steps.len() - 1 == count && forall|i: int|
                0 <= i < count ==> (#[trigger] codes[i]) is None || codes[i]->0 == 0,
            HookStep::Exit(code) => steps.len() >= 2 && codes[steps.len() - 2] == Some(code) && code
                != 0,
            HookStep::Run(_) => false,
        },
{
    lemma_hooks_run_to(count, codes, steps, steps.len() - 1);
    if steps.len() >= 2 {
        lemma_hooks_run_to(count, codes, steps, steps.len() - 2);
        assert(steps[steps.len() - 2] == HookStep::Run((steps.len() - 2) as usize));
    }
}

proof fn lemma_hooks_run_to(count: usize, codes: Seq<Option<i32>>, steps: Seq<HookStep>, n: int)
    requires
        hook_runs(count, codes, steps),
        0 <= n < steps.len(),
    ensures
        n <= count,
        forall|i: int| 0 <= i < n ==> #[trigger] steps[i] == HookStep::Run(i as usize),
        forall|i: int| 0 <= i < n - 1 ==> (#[trigger] codes[i]) is None || codes[i]->0 == 0,
        steps[n] matches HookStep::Run(place) ==> place == n && n < count,
        steps[n] is Run && n > 0 ==> codes[n - 1] is None || codes[n - 1]->0 == 0,
    decreases n,
{
    if n > 0 {
        lemma_hooks_run_to(count, codes, steps, n - 1);
        assert(steps[n - 1] is Run);
    }
}

/// Every hook that names a program is told, in order, and the others are passed
/// over.
pub proof fn law_every_hook_is_told(pkgs: &Vec<Package>, config: &Config, r: Vec<HookPlan>)
    requires
        call_ensures(apt_hook_with_pkgs, (pkgs, config), r),
        config.apt.vectors@.dom().contains("DPkg::Pre-Install-Pkgs"@),
    ensures
        r@.map_values(|plan: HookPlan| plan.hook@)
            == config.apt.vectors@["DPkg::Pre-Install-Pkgs"@]@.filter(
            |hook: String| words_of(hook@).len() > 0,
        ).map_values(|hook: String| hook@),
{
    let hooks = config.apt.vectors@["DPkg::Pre-Install-Pkgs"@]@;
    let keep = |hook: String| words_of(hook@).len() > 0;
    lemma_programs_kept(hooks, keep);
    assert forall|i: int| 0 <= i < r@.len() implies (#[trigger] r@[i]).hook@ == with_program(
        hooks,
    )[i]@ by {
        assert(plans_hook(r@[i], with_program(install_hooks(*config))[i]@, *config, pkgs@));
    }
    assert(r@.map_values(|plan: HookPlan| plan.hook@) =~= hooks.filter(keep).map_values(
        |hook: String| hook@,
    ));
}

proof fn lemma_programs_kept(hooks: Seq<String>, keep: spec_fn(String) -> bool)
    requires
        forall|hook: String| #[trigger] keep(hook) == (words_of(hook@).len() > 0),
    ensures
        with_program(hooks) == hooks.filter(keep),
    decreases hooks.len(),
{
    reveal(Seq::filter);
    if hooks.len() > 0 {
        lemma_programs_kept(hooks.drop_last(), keep);
    } else {
        assert(hooks.filter(keep) =~= Seq::<String>::empty());
    }
}

/// A hook that speaks the first version of the language hears of the file of
/// each package that is installed and upgraded, and of no other.
pub proof fn law_first_version_hears_of_files(
    pkgs: &Vec<Package>,
    config: &Config,
    r: Vec<HookPlan>,
    k: int,
)
    requires
        call_ensures(apt_hook_with_pkgs, (pkgs, config), r),
        0 <= k < r@.len(),
        r@[k].version <= 1,
    ensures
        r@[k].lines@.map_values(|line: HookLine| (line.text@, crate::text::text_opt(line.only_if)))
            == pkgs@.filter(
            |p: Package| p.marked_install && p.marked_upgrade && p.cand() is Some,
        ).map_values(
            |p: Package|
                {
                    let path = path_in(
                        path_of(*config, Paths::Archive),
                        pkg_file_name(p.cand()->0)->0,
                    );
                    (path + "\n"@, Some(path))
                },
        ),
{
    let archive = path_of(*config, Paths::Archive);
    assert(plans_hook(r@[k], with_program(install_hooks(*config))[k]@, *config, pkgs@));
    let keep = |p: Package| p.marked_install && p.marked_upgrade && p.cand() is Some;
    let make = |p: Package|
        {
            let path = path_in(archive, pkg_file_name(p.cand()->0)->0);
            (path + "\n"@, Some(path))
        };
    lemma_first_lines(pkgs@, r@[k].version, archive, keep, make);
    assert(r@[k].lines@.map_values(
        |line: HookLine| (line.text@, crate::text::text_opt(line.only_if)),
    ) =~= line_views(r@[k].lines@));
    assert(pkgs@.filter(keep).map_values(make) =~= pkgs@.filter(
        |p: Package| p.marked_install && p.marked_upgrade && p.cand() is Some,
    ).map_values(
        |p: Package|
            {
                let path = path_in(
                    path_of(*config, Paths::Archive),
                    pkg_file_name(p.cand()->0)->0,
                );
                (path + "\n"@, Some(path))
            },
    ));
}

proof fn lemma_first_lines(
    pkgs: Seq<Package>,
    version: i32,
    archive: Seq<char>,
    keep: spec_fn(Package) -> bool,
    make: spec_fn(Package) -> (Seq<char>, Option<Seq<char>>),
)
    requires
        version <= 1,
        forall|p: Package|
            #[trigger] keep(p) == (p.marked_install && p.marked_upgrade && p.cand() is Some),
        forall|p: Package| #[trigger]
            make(p) == ({
                let path = path_in(archive, pkg_file_name(p.cand()->0)->0);
                (path + "\n"@, Some(path))
            }),
    ensures
        hook_lines(pkgs, version, archive) == pkgs.filter(keep).map_values(make),
    decreases pkgs.len(),
{
    reveal(Seq::filter);
    if pkgs.len() == 0 {
        assert(pkgs.filter(keep).map_values(make) =~= Seq::<
            (Seq<char>, Option<Seq<char>>),
        >::empty());
    } else {
        lemma_first_lines(pkgs.drop_last(), version, archive, keep, make);
        if keep(pkgs.last()) {
            crate::seqs::lemma_map_push(pkgs.drop_last().filter(keep), pkgs.last(), make);
        }
    }
}

/// A hook that speaks a later version of the language hears of every package,
/// one line each, in order.
pub proof fn law_later_versions_hear_of_packages(
    pkgs: &Vec<Package>,
    config: &Config,
    r: Vec<HookPlan>,
    k: int,
)
    requires
        call_ensures(apt_hook_with_pkgs, (pkgs, config), r),
        0 <= k < r@.len(),
        r@[k].version > 1,
    ensures
        r@[k].lines@.len() == pkgs@.len(),
        forall|i: int|
            0 <= i < pkgs@.len() ==> (#[trigger] r@[k].lines@[i]).text@ == hook_info(
                pkgs@[i],
                r@[k].version,
                path_of(*config, Paths::Archive),
            ) && r@[k].lines@[i].only_if is None,
{
    let archive = path_of(*config, Paths::Archive);
    assert(plans_hook(r@[k], with_program(install_hooks(*config))[k]@, *config, pkgs@));
    let views = line_views(r@[k].lines@);
    lemma_later_lines(pkgs@, r@[k].version, archive);
    assert(views.len() == r@[k].lines@.len());
    assert(views == hook_lines(pkgs@, r@[k].version, archive));
    assert forall|i: int| 0 <= i < pkgs@.len() implies (#[trigger] r@[k].lines@[i]).text@
        == hook_info(pkgs@[i], r@[k].version, archive) && r@[k].lines@[i].only_if is None by {
        assert(views[i] == line_view(r@[k].lines@[i]));
        assert(hook_lines(pkgs@, r@[k].version, archive)[i] == (
            hook_info(pkgs@[i], r@[k].version, archive),
            None::<Seq<char>>,
        ));
    }
}

proof fn lemma_later_lines(pkgs: Seq<Package>, version: i32, archive: Seq<char>)
    requires
        version > 1,
    ensures
        hook_lines(pkgs, version, archive) == pkgs.map_values(
            |p: Package| (hook_info(p, version, archive), None::<Seq<char>>),
        ),
    decreases pkgs.len(),
{
    let make = |p: Package| (hook_info(p, version, archive), None::<Seq<char>>);
    if pkgs.len() > 0 {
        lemma_later_lines(pkgs.drop_last(), version, archive);
        assert(pkgs =~= pkgs.drop_last().push(pkgs.last()));
        crate::seqs::lemma_map_push(pkgs.drop_last(), pkgs.last(), make);
    } else {
        assert(pkgs.map_values(make) =~= Seq::<(Seq<char>, Option<Seq<char>>)>::empty());
    }
}

/// What a hook is told of a package that is installed in one version and gets
/// another: both versions, how they compare, and the file that it comes from.
pub proof fn law_hook_line_of_an_upgrade(pkg: &Package, hook_ver: i32, archive: &str, r: String)
    requires
        call_ensures(pkg_info, (pkg, hook_ver, archive), r),
        pkg.marked_install || pkg.marked_upgrade,
        pkg.cand() is Some,
    ensures
        pkg.inst() is Some ==> {
            let inst = pkg.inst()->0;
            let cand = pkg.cand()->0;
            let sign = if inst.order < cand.order {
                "<"@
            } else if inst.order > cand.order {
                ">"@
            } else {
                "="@
            };
            let path = path_in(archive@, pkg_file_name(cand)->0);
            &&& hook_ver < 3 ==> r@ == pkg.name@ + " "@ + (inst.version@ + " "@) + (sign + " "@
                + cand.version@ + " "@) + (path + "\n"@)
            &&& hook_ver >= 3 ==> r@ == pkg.name@ + " "@ + (inst.version@ + " "@ + (inst.arch@
                + " "@ + inst.multi_arch@ + " "@)) + (sign + " "@ + cand.version@ + " "@ + (
            cand.arch@ + " "@ + cand.multi_arch@ + " "@)) + (path + "\n"@)
        },
        now_version(pkg.versions@) is None && pkg.inst() is None ==> {
            let cand = pkg.cand()->0;
            let path = path_in(archive@, pkg_file_name(cand)->0);
            &&& hook_ver < 3 ==> r@ == pkg.name@ + " "@ + "- "@ + ("<"@ + " "@ + cand.version@
                + " "@) + (path + "\n"@)
            &&& hook_ver >= 3 ==> r@ == pkg.name@ + " "@ + "- - none "@ + ("<"@ + " "@
                + cand.version@ + " "@ + (cand.arch@ + " "@ + cand.multi_arch@ + " "@)) + (path
                + "\n"@)
        },
{
    let empty: Seq<char> = Seq::empty();
    if pkg.inst() is Some {
        assert(pkg.inst()->0.version@ + " "@ + empty =~= pkg.inst()->0.version@ + " "@);
    }
    let cand = pkg.cand()->0;
    let sign = comparison(current_of(*pkg), cand);
    assert(sign + " "@ + cand.version@ + " "@ + empty =~= sign + " "@ + cand.version@ + " "@);
}

/// What a hook is told to do with a package that is not installed or upgraded:
/// to remove it where it is deleted, else to configure what is left of it.
pub proof fn law_hook_line_of_a_removal(pkg: &Package, hook_ver: i32, archive: &str, r: String)
    requires
        call_ensures(pkg_info, (pkg, hook_ver, archive), r),
        !pkg.marked_install && !pkg.marked_upgrade,
        pkg.inst() is Some,
        pkg.cand() is None,
    ensures
        ({
            let inst = pkg.inst()->0;
            let action = if pkg.marked_delete {
                "**REMOVE**\n"@
            } else if pkg.current_state == PkgCurrentState::ConfigFiles {
                "**CONFIGURE**\n"@
            } else {
                bool_text(false) + "\n"@
            };
            &&& hook_ver < 3 ==> r@ == pkg.name@ + " "@ + (inst.version@ + " "@) + "> - "@ + action
            &&& hook_ver >= 3 ==> r@ == pkg.name@ + " "@ + (inst.version@ + " "@ + (inst.arch@
                + " "@ + inst.multi_arch@ + " "@)) + "> - - none "@ + action
        }),
{
    let empty: Seq<char> = Seq::empty();
    assert(pkg.inst()->0.version@ + " "@ + empty =~= pkg.inst()->0.version@ + " "@);
}

/// What goes to a hook: the first version of the language gets the lines alone,
/// a later one the configuration before them, and fails without it. A line that
/// speaks of a file is left out where the file is not there.
pub proof fn law_hook_gets_its_lines(
    plan: &HookPlan,
    tree: Option<&ConfigNode>,
    present: &Vec<bool>,
    r: Result<String, NalaError>,
)
    requires
        call_ensures(hook_input, (plan, tree, present), r),
        present@.len() == plan.lines@.len(),
    ensures
        r is Ok <==> plan.version < 2 || tree is Some,
        ({
            let told = places_to(plan.lines@.len() as int).filter(
                |i: int| plan.lines@[i].only_if is None || present@[i],
            ).map_values(|i: int| plan.lines@[i].text@);
            &&& plan.version < 2 ==> r->Ok_0@ == told.flatten()
            &&& plan.version >= 2 && tree is Some ==> r->Ok_0@ == config_info(
                *tree->0,
                plan.version,
            ) + told.flatten()
        }),
{
    let n = plan.lines@.len() as int;
    let keep = |i: int| plan.lines@[i].only_if is None || present@[i];
    let text = |i: int| plan.lines@[i].text@;
    lemma_written(plan.lines@, present@, n, keep, text);
    assert(places_to(n).filter(keep).map_values(text) =~= places_to(n).filter(
        |i: int| plan.lines@[i].only_if is None || present@[i],
    ).map_values(|i: int| plan.lines@[i].text@));
}

proof fn lemma_written(
    lines: Seq<HookLine>,
    present: Seq<bool>,
    n: int,
    keep: spec_fn(int) -> bool,
    text: spec_fn(int) -> Seq<char>,
)
    requires
        0 <= n <= lines.len(),
        forall|i: int| #[trigger] keep(i) == (lines[i].only_if is None || present[i]),
        forall|i: int| #[trigger] text(i) == lines[i].text@,
    ensures
        written_lines(lines, present, n) == places_to(n).filter(keep).map_values(text).flatten(),
    decreases n,
{
    if n <= 0 {
        lemma_places_next(0, keep);
        assert(places_to(n) =~= places_to(0));
        assert(places_to(0).filter(keep).map_values(text) =~= Seq::<Seq<char>>::empty());
        assert(Seq::<Seq<char>>::empty().flatten() =~= Seq::<char>::empty());
    } else {
        lemma_written(lines, present, n - 1, keep, text);
        lemma_places_next(n - 1, keep);
        if keep(n - 1) {
            let before = places_to(n - 1).filter(keep);
            crate::seqs::lemma_map_push(before, n - 1, text);
            let parts = before.map_values(text);
            parts.lemma_flatten_push(text(n - 1));
            assert(parts.push(text(n - 1)).flatten() =~= parts.flatten() + text(n - 1));
        }
    }
}

/// What a hook is told of the configuration begins with the version of the
/// language, the third at most, and ends with an empty line.
pub proof fn law_configuration_has_a_head(tree: &ConfigNode, hook_ver: i32, r: Result<String, NalaError>)
    requires
        call_ensures(write_config_info, (Some(tree), hook_ver), r),
    ensures
        r is Ok,
        hook_ver <= 3 ==> r->Ok_0@ == "VERSION "@ + signed_decimal(hook_ver as int) + "\n"@
            + node_lines(*tree) + "\n"@,
        hook_ver > 3 ==> r->Ok_0@ == "VERSION 3\n"@ + node_lines(*tree) + "\n"@,
{
}

/// Every setting with a value is told: a node's own line comes first, then those
/// of its children, then those of the nodes beside it.
pub proof fn law_every_setting_is_told(node: ConfigNode)
    ensures
        ({
            let rest = (match node.child {
                Some(b) => node_lines(*b),
                None => Seq::empty(),
            }) + (match node.sibling {
                Some(b) => node_lines(*b),
                None => Seq::empty(),
            });
            if node.tag is Some && node.value is Some && node.value->0@ != Seq::<char>::empty() {
                node_lines(node) == node.quoted_tag@ + "="@ + node.quoted_value@ + "\n"@ + rest
            } else {
                node_lines(node) == rest
            }
        }),
{
    let child = match node.child {
        Some(b) => node_lines(*b),
        None => Seq::empty(),
    };
    let sibling = match node.sibling {
        Some(b) => node_lines(*b),
        None => Seq::empty(),
    };
    assert(node_line(node) + child + sibling =~= node_line(node) + (child + sibling));
    if node.value is Some {
        if node.value->0@.len() == 0 {
            assert(node.value->0@ =~= Seq::<char>::empty());
        }
    }
    assert(Seq::<char>::empty() + (child + sibling) =~= child + sibling);
}

/// What a hook is told of a package: its name, the version that it has, how that
/// compares with the candidate, the candidate, and what is done. The version that
/// it has is the installed one, or else the first that an index of the installed
/// packages holds.
pub proof fn law_hook_line(pkg: &Package, hook_ver: i32, archive: &str, r: String)
    requires
        call_ensures(pkg_info, (pkg, hook_ver, archive), r),
    ensures
        ({
            let arch = |v: Version|
                if hook_ver >= 3 {
                    v.arch@ + " "@ + v.multi_arch@ + " "@
                } else {
                    Seq::empty()
                };
            let current = if pkg.inst() is Some {
                pkg.inst()
            } else {
                now_version(pkg.versions@)
            };
            let first = match current {
                Some(v) => v.version@ + " "@ + arch(v),
                None => if hook_ver >= 3 {
                    "- - none "@
                } else {
                    "- "@
                },
            };
            let second = match pkg.cand() {
                Some(c) => (if current is Some && current->0.order == c.order {
                    "="@
                } else if current is Some && current->0.order > c.order {
                    ">"@
                } else {
                    "<"@
                }) + " "@ + c.version@ + " "@ + arch(c),
                None => if hook_ver >= 3 {
                    "> - - none "@
                } else {
                    "> - "@
                },
            };
            let file = if pkg.cand() is Some {
                pkg.cand()
            } else {
                current
            };
            let action = if pkg.marked_install || pkg.marked_upgrade {
                if file is Some {
                    path_in(archive@, pkg_file_name(file->0)->0)
                } else {
                    "**ERROR**"@
                }
            } else if pkg.marked_delete {
                "**REMOVE**"@
            } else if pkg.current_state == PkgCurrentState::ConfigFiles {
                "**CONFIGURE**"@
            } else {
                "false"@
            };
            r@ == pkg.name@ + " "@ + first + second + (action + "\n"@)
        }),
{
    reveal_strlit("**ERROR**");
    reveal_strlit("**ERROR**\n");
    reveal_strlit("**REMOVE**");
    reveal_strlit("**REMOVE**\n");
    reveal_strlit("**CONFIGURE**");
    reveal_strlit("**CONFIGURE**\n");
    reveal_strlit("\n");
    assert("**ERROR**"@ + "\n"@ =~= "**ERROR**\n"@);
    assert("**REMOVE**"@ + "\n"@ =~= "**REMOVE**\n"@);
    assert("**CONFIGURE**"@ + "\n"@ =~= "**CONFIGURE**\n"@);
}

/// A hook is run by the first word of its command. The version that it speaks and
/// the descriptor that it reads from are what apt's settings for that program
/// say, or else the first version and the standard input.
pub proof fn law_hook_settings(
    pkgs: &Vec<Package>,
    config: &Config,
    r: Vec<HookPlan>,
    k: int,
)
    requires
        call_ensures(apt_hook_with_pkgs, (pkgs, config), r),
        0 <= k < r@.len(),
    ensures
        ({
            let plan = r@[k];
            let prog = words_of(plan.hook@)[0];
            let version = "DPkg::Tools::Options::"@ + prog + "::VERSION"@;
            let info = "DPkg::Tools::Options::"@ + prog + "::InfoFD"@;
            let ints = config.apt.ints@;
            &&& plan.prog@ == prog
            &&& plan.version == if ints.dom().contains(version) {
                ints[version]
            } else {
                1i32
            }
            &&& plan.info_fd == if ints.dom().contains(info) {
                ints[info]
            } else {
                0i32
            }
        }),
{
    assert(plans_hook(r@[k], with_program(install_hooks(*config))[k]@, *config, pkgs@));
}

/// The names of the files that the hooks hear of are known exactly if each hook
/// hears of no file without a name.
pub proof fn law_names_known(pkgs: &Vec<Package>, config: &Config, r: bool, k: int, i: int)
    requires
        call_ensures(names_known, (pkgs, config), r),
        r,
        0 <= k < with_program(install_hooks(*config)).len(),
        0 <= i < pkgs@.len(),
    ensures
        ({
            let pkg = pkgs@[i];
            let version = spoken(*config, with_program(install_hooks(*config))[k]@);
            &&& version <= 1 && pkg.marked_install && pkg.marked_upgrade && pkg.cand() is Some
                ==> pkg_file_name(pkg.cand()->0) is Some
            &&& version > 1 && (pkg.marked_install || pkg.marked_upgrade) && pkg.cand() is Some
                ==> pkg_file_name(pkg.cand()->0) is Some
        }),
{
    let version = spoken(*config, with_program(install_hooks(*config))[k]@);
    assert(lines_named(pkgs@, version));
    assert(line_named(pkgs@[i], version));
}

} // verus!

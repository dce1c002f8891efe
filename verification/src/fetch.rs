//! Choosing mirrors.
use vstd::prelude::*;
use vstd::utf8::encode_utf8;
use crate::apt::Package;
use crate::config::{flag, Config};
use crate::error::{fails_with, NalaError};
use crate::pattern::{regex_group, Pattern};
use crate::sort::{sort, stably_sorted, Ranked};
use crate::tagfile::TagSection;
use crate::text::{
    add_text, contains, contains_text, decimal, decimal_of, ends_with, has_suffix, has_text, lines,
    lines_of, lowercase, push_text, replace, replaced, split, split_on, split_whitespace, str_eq,
    strip_suffix, text_opt, texts, to_lower, to_upper, trim, trimmed_end, trimmed_start, uppercase,
    with_text, words_of,
};
use crate::util::NalaRegex;

verus! {

/// The distribution and the release that a package comes from: the origin and
/// the codename of its candidate's first file.
pub open spec fn origin_codename(pkg: Option<Package>) -> Option<(Seq<char>, Seq<char>)> {
    match pkg {
        Some(p) => match p.cand() {
            Some(c) => if c.files@.len() > 0 && c.files@[0].file.origin is Some
                && c.files@[0].file.codename is Some {
                Some((c.files@[0].file.origin->0@, c.files@[0].file.codename->0@))
            } else {
                None
            },
            None => None,
        },
        None => None,
    }
}

/// The distribution and the release that a package comes from.
pub fn get_origin_codename(pkg: &Option<Package>) -> (r: Option<(String, String)>)
    ensures
        match r {
            Some((origin, codename)) => origin_codename(*pkg) == Some((origin@, codename@)),
            None => origin_codename(*pkg) is None,
        },
{
    let pkg = match pkg {
        Some(pkg) => pkg,
        None => {
            return None;
        },
    };
    let candidate = match pkg.candidate() {
        Some(candidate) => candidate,
        None => {
            return None;
        },
    };
    if candidate.files.len() == 0 {
        return None;
    }
    let file = &candidate.files[0].file;
    if let (Some(origin), Some(codename)) = (&file.origin, &file.codename) {
        return Some((origin.clone(), codename.clone()));
    }
    None
}

/// The packages that tell the distribution, the surest first.
pub open spec fn keyring_names() -> Seq<Seq<char>> {
    seq!["devuan-keyring"@, "debian-archive-keyring"@, "ubuntu-keyring"@, "apt"@]
}

/// The packages that tell the distribution, the surest first.
pub fn keyrings() -> (r: Vec<String>)
    ensures
        texts(r@) == keyring_names(),
{
    let r = vec![
        "devuan-keyring".to_owned(),
        "debian-archive-keyring".to_owned(),
        "ubuntu-keyring".to_owned(),
        "apt".to_owned(),
    ];
    assert(texts(r@) =~= keyring_names());
    r
}

/// What was given for a key on the command line.
pub open spec fn given(config: Config, key: Seq<char>) -> Option<Seq<char>> {
    if config.vec_map@.dom().contains(key) && config.vec_map@[key]@.len() > 0 {
        Some(config.vec_map@[key]@[0]@)
    } else {
        None
    }
}

/// The distribution and the release that were given on the command line.
pub open spec fn given_release(config: Config) -> Option<(Seq<char>, Seq<char>)> {
    if given(config, "debian"@) is Some {
        Some(("debian"@, lowercase(given(config, "debian"@)->0)))
    } else if given(config, "ubuntu"@) is Some {
        Some(("ubuntu"@, lowercase(given(config, "ubuntu"@)->0)))
    } else if given(config, "devuan"@) is Some {
        Some(("devuan"@, lowercase(given(config, "devuan"@)->0)))
    } else {
        None
    }
}

/// The first of the packages that tells the distribution and the release.
pub open spec fn told_release(packages: Seq<Option<Package>>) -> Option<(Seq<char>, Seq<char>)>
    decreases packages.len(),
{
    if packages.len() == 0 {
        None
    } else {
        match origin_codename(packages[0]) {
            Some((origin, codename)) => Some((lowercase(origin), lowercase(codename))),
            None => told_release(packages.skip(1)),
        }
    }
}

/// The distribution and the release: those that were given, else those that
/// the packages of `keyrings` tell.
pub fn detect_release(config: &Config, packages: &Vec<Option<Package>>) -> (r: Result<
    (String, String),
    NalaError,
>)
    ensures
        match given_release(*config) {
            Some((distro, release)) => r is Ok && r->Ok_0.0@ == distro && r->Ok_0.1@ == release,
            None => match told_release(packages@) {
                Some((distro, release)) => r is Ok && r->Ok_0.0@ == distro && r->Ok_0.1@ == release,
                None => fails_with(r, "There was an issue detecting release."@),
            },
        },
{
    if let Some(value) = config.get_str("debian") {
        return Ok(("debian".to_owned(), to_lower(value)));
    }
    if let Some(value) = config.get_str("ubuntu") {
        return Ok(("ubuntu".to_owned(), to_lower(value)));
    }
    if let Some(value) = config.get_str("devuan") {
        return Ok(("devuan".to_owned(), to_lower(value)));
    }
    let mut i: usize = 0;
    assert(packages@.skip(0) =~= packages@);
    while i < packages.len()
        invariant
            i <= packages@.len(),
            given_release(*config) is None,
            told_release(packages@.skip(i as int)) == told_release(packages@),
        decreases packages@.len() - i,
    {
        if let Some((origin, codename)) = get_origin_codename(&packages[i]) {
            return Ok((to_lower(origin.as_str()), to_lower(codename.as_str())));
        }
        assert(packages@.skip(i as int).skip(1) =~= packages@.skip(i + 1));
        i = i + 1;
    }
    Err(NalaError::new("There was an issue detecting release."))
}

/// The components of a distribution's archive.
pub open spec fn component_of(config: Config, distro: Seq<char>) -> Option<Seq<char>> {
    if distro == "devuan"@ || distro == "debian"@ {
        if flag(config, "non_free"@, false) {
            Some("main"@ + " contrib non-free"@)
        } else {
            Some("main"@)
        }
    } else if distro == "ubuntu"@ {
        Some("main"@ + " restricted universe multiverse"@)
    } else {
        None
    }
}

/// The components of a distribution's archive.
pub fn get_component(config: &Config, distro: &str) -> (r: Result<String, NalaError>)
    ensures
        match component_of(*config, distro@) {
            Some(component) => r is Ok && r->Ok_0@ == component,
            None => fails_with(r, distro@ + " is unsupported."@),
        },
{
    let mut component = "main".to_owned();
    if str_eq(distro, "devuan") || str_eq(distro, "debian") {
        if config.get_bool("non_free", false) {
            component.append(" contrib non-free");
        }
        return Ok(component);
    }
    if str_eq(distro, "ubuntu") {
        component.append(" restricted universe multiverse");
        return Ok(component);
    }
    let mut message = distro.to_owned();
    message.append(" is unsupported.");
    Err(NalaError::from_string(message))
}

/// A mirror in the list.
#[derive(Debug)]
pub struct FetchItem {
    pub url: String,
    pub score: String,
    pub selected: bool,
}

impl FetchItem {
    /// The lines for the mirror and its score.
    pub fn to_list_items(&self) -> (r: (String, String))
        ensures
            r.0@ == (if self.selected {
                "\u{2713} "@
            } else {
                "\u{2610} "@
            }) + self.url@,
            r.1@ == self.score@,
    {
        let mut line = if self.selected {
            "\u{2713} ".to_owned()
        } else {
            "\u{2610} ".to_owned()
        };
        line.append(self.url.as_str());
        (line, self.score.clone())
    }
}

/// A list of mirrors, one of which may be under the cursor.
#[derive(Debug)]
pub struct StatefulList {
    /// The place of the cursor.
    pub selected: Option<usize>,
    pub items: Vec<FetchItem>,
    /// The widths of the columns.
    pub align: (usize, usize),
    pub last_selected: Option<usize>,
}

/// A score for a reader.
pub open spec fn score_text(score: u128) -> Seq<char> {
    decimal(score as nat) + " ms"@
}

/// How many bytes the longest address takes.
pub open spec fn url_width(scored: Seq<(String, u128)>) -> nat
    decreases scored.len(),
{
    if scored.len() == 0 {
        0
    } else {
        let before = url_width(scored.drop_last());
        let width = encode_utf8(scored.last().0@).len();
        if width > before {
            width
        } else {
            before
        }
    }
}

/// How many bytes the longest score takes.
pub open spec fn score_width(scored: Seq<(String, u128)>) -> nat
    decreases scored.len(),
{
    if scored.len() == 0 {
        0
    } else {
        let before = score_width(scored.drop_last());
        let width = encode_utf8(score_text(scored.last().1)).len();
        if width > before {
            width
        } else {
            before
        }
    }
}

/// The items are those of the scores, none of them selected.
pub open spec fn lists(items: Seq<FetchItem>, scored: Seq<(String, u128)>) -> bool {
    items.len() == scored.len() && forall|i: int|
        0 <= i < items.len() ==> (#[trigger] items[i]).url@ == scored[i].0@ && items[i].score@
            == score_text(scored[i].1) && !items[i].selected
}

/// Where the cursor goes: one down, and from the end to the start.
pub open spec fn after(selected: Option<usize>, last: Option<usize>, len: int) -> int {
    match selected {
        Some(i) => if i >= len - 1 {
            0
        } else {
            i + 1
        },
        None => match last {
            Some(i) => i as int,
            None => 0,
        },
    }
}

/// Where the cursor goes: one up, and from the start to the end.
pub open spec fn before(selected: Option<usize>, last: Option<usize>, len: int) -> int {
    match selected {
        Some(i) => if i == 0 {
            len - 1
        } else {
            i - 1
        },
        None => match last {
            Some(i) => i as int,
            None => 0,
        },
    }
}

impl StatefulList {
    /// The cursor is on an item, where it is anywhere.
    pub open spec fn wf(self) -> bool {
        &&& self.selected is Some ==> self.selected->0 < self.items@.len()
        &&& self.last_selected is Some ==> self.last_selected->0 < self.items@.len()
    }

    /// A list of scored mirrors.
    pub fn new(scored: Vec<(String, u128)>) -> (r: StatefulList)
        ensures
            r.wf(),
            lists(r.items@, scored@),
            r.align.0 == url_width(scored@),
            r.align.1 == score_width(scored@),
            r.selected is None,
            r.last_selected is None,
    {
        let mut items: Vec<FetchItem> = Vec::new();
        let mut align: usize = 0;
        let mut score_align: usize = 0;
        let ghost all = scored@;
        assert(all.take(0) =~= Seq::empty());
        for pair in it: scored
            invariant
                it.seq() == all,
                lists(items@, all.take(it.index() as int)),
                align == url_width(all.take(it.index() as int)),
                score_align == score_width(all.take(it.index() as int)),
        {
            let ghost n = it.index() as int;
            assert(all.take(n + 1).drop_last() =~= all.take(n));
            let (url, u_score) = pair;
            // Calculate alignment
            let width: usize = url.as_str().as_bytes().len();
            if width > align {
                align = width;
            }
            let mut score = decimal_of(u_score);
            score.append(" ms");
            let score_len: usize = score.as_str().as_bytes().len();
            if score_len > score_align {
                score_align = score_len;
            }
            let ghost front = items@;
            items.push(FetchItem { url, score, selected: false });
            assert forall|i: int| 0 <= i < items@.len() implies (#[trigger] items@[i]).url@
                == all.take(n + 1)[i].0@ && items@[i].score@ == score_text(all.take(n + 1)[i].1)
                && !items@[i].selected by {
                if i < n {
                    assert(items@[i] == front[i]);
                    assert(all.take(n + 1)[i] == all.take(n)[i]);
                }
            }
        }
        assert(all.take(all.len() as int) =~= all);
        StatefulList { selected: None, items, align: (align, score_align), last_selected: None }
    }

    /// Moves the cursor one down, and from the end to the start.
    pub fn next(&mut self)
        requires
            old(self).selected is Some ==> old(self).items@.len() > 0,
        ensures
            final(self).selected is Some,
            final(self).selected->0 == after(
                old(self).selected,
                old(self).last_selected,
                old(self).items@.len() as int,
            ),
            final(self).items == old(self).items,
            final(self).align == old(self).align,
            final(self).last_selected == old(self).last_selected,
            old(self).wf() && old(self).items@.len() > 0 ==> final(self).wf(),
    {
        let i: usize = match self.selected {
            Some(i) => if i >= self.items.len() - 1 {
                0
            } else {
                i + 1
            },
            None => match self.last_selected {
                Some(i) => i,
                None => 0,
            },
        };
        self.selected = Some(i);
    }

    /// Moves the cursor one up, and from the start to the end.
    pub fn previous(&mut self)
        requires
            old(self).selected is Some ==> old(self).items@.len() > 0,
        ensures
            final(self).selected is Some,
            final(self).selected->0 == before(
                old(self).selected,
                old(self).last_selected,
                old(self).items@.len() as int,
            ),
            final(self).items == old(self).items,
            final(self).align == old(self).align,
            final(self).last_selected == old(self).last_selected,
            old(self).wf() && old(self).items@.len() > 0 ==> final(self).wf(),
    {
        let i: usize = match self.selected {
            Some(i) => if i == 0 {
                self.items.len() - 1
            } else {
                i - 1
            },
            None => match self.last_selected {
                Some(i) => i,
                None => 0,
            },
        };
        self.selected = Some(i);
    }
}

/// Down and up undo each other.
pub proof fn law_down_and_up(i: usize, last: Option<usize>, len: int)
    requires
        0 <= i < len <= usize::MAX,
    ensures
        before(Some(after(Some(i), last, len) as usize), last, len) == i,
        after(Some(before(Some(i), last, len) as usize), last, len) == i,
{
}

/// Where the cursor is after it went down `n` times.
pub open spec fn nth_down(start: usize, last: Option<usize>, len: int, n: nat) -> int
    decreases n,
{
    if n == 0 {
        start as int
    } else {
        after(Some(nth_down(start, last, len, (n - 1) as nat) as usize), last, len)
    }
}

/// Going down as often as there are items comes back to where it began.
pub proof fn law_down_goes_round(start: usize, last: Option<usize>, len: int)
    requires
        0 <= start < len <= usize::MAX,
    ensures
        nth_down(start, last, len, len as nat) == start,
{
    lemma_nth_down(start, last, len, (len - start - 1) as nat);
    let m = (len - start) as nat;
    assert(nth_down(start, last, len, m) == 0);
    lemma_nth_down_from(start, last, len, m, start as nat);
}

proof fn lemma_nth_down(start: usize, last: Option<usize>, len: int, n: nat)
    requires
        start + n < len <= usize::MAX,
    ensures
        nth_down(start, last, len, n) == start + n,
    decreases n,
{
    if n > 0 {
        lemma_nth_down(start, last, len, (n - 1) as nat);
    }
}

proof fn lemma_nth_down_from(start: usize, last: Option<usize>, len: int, m: nat, n: nat)
    requires
        nth_down(start, last, len, m) == 0,
        n < len <= usize::MAX,
    ensures
        nth_down(start, last, len, m + n) == n,
    decreases n,
{
    if n > 0 {
        lemma_nth_down_from(start, last, len, m, (n - 1) as nat);
    }
}

/// A key that was pressed.
#[derive(Debug, Clone, Copy, PartialEq, Eq, Structural)]
pub enum Key {
    Char(char),
    Enter,
    Down,
    Up,
    Home,
    End,
    Other,
}

/// The list in which the user chooses mirrors.
#[derive(Debug)]
pub struct FetchTui {
    pub items: StatefulList,
}

/// The addresses of the items that are selected, in order.
pub open spec fn chosen_urls(items: Seq<FetchItem>) -> Seq<Seq<char>>
    decreases items.len(),
{
    if items.len() == 0 {
        Seq::empty()
    } else if items.last().selected {
        chosen_urls(items.drop_last()).push(items.last().url@)
    } else {
        chosen_urls(items.drop_last())
    }
}

/// The item with the other status.
pub open spec fn flipped(item: FetchItem) -> FetchItem {
    FetchItem { url: item.url, score: item.score, selected: !item.selected }
}

/// The items, with the one at the cursor changed.
pub open spec fn flipped_at(items: Seq<FetchItem>, cursor: Option<usize>) -> Seq<FetchItem> {
    match cursor {
        Some(i) => items.update(i as int, flipped(items[i as int])),
        None => items,
    }
}

/// The key ends the choice.
pub open spec fn leaves(key: Key) -> bool {
    key == Key::Char('q') || key == Key::Enter
}

/// Where the cursor is after a key.
pub open spec fn cursor_after(list: StatefulList, key: Key) -> Option<usize> {
    if key == Key::Char('j') || key == Key::Down {
        Some(after(list.selected, list.last_selected, list.items@.len() as int) as usize)
    } else if key == Key::Char('k') || key == Key::Up {
        Some(before(list.selected, list.last_selected, list.items@.len() as int) as usize)
    } else if key == Key::Char('g') || key == Key::Home {
        Some(0)
    } else if key == Key::Char('G') || key == Key::End {
        Some((list.items@.len() - 1) as usize)
    } else {
        list.selected
    }
}

impl FetchTui {
    /// The list of scored mirrors.
    pub fn new(scored: Vec<(String, u128)>) -> (r: Self)
        ensures
            r.items.wf(),
            lists(r.items.items@, scored@),
            r.items.align.0 == url_width(scored@),
            r.items.align.1 == score_width(scored@),
            r.items.selected is None,
            r.items.last_selected is None,
    {
        FetchTui { items: StatefulList::new(scored) }
    }

    /// Changes the status of the selected list item.
    pub fn change_status(&mut self)
        requires
            old(self).items.wf(),
        ensures
            final(self).items.wf(),
            final(self).items.items@ == flipped_at(old(self).items.items@, old(self).items.selected),
            final(self).items.selected == old(self).items.selected,
            final(self).items.align == old(self).items.align,
            final(self).items.last_selected == old(self).items.last_selected,
    {
        if let Some(i) = self.items.selected {
            let ghost before = self.items.items@;
            let item = self.items.items.remove(i);
            self.items.items.insert(
                i,
                FetchItem { url: item.url, score: item.score, selected: !item.selected },
            );
            assert(self.items.items@ =~= before.update(i as int, flipped(before[i as int])));
        }
    }

    /// Moves the cursor to the first item.
    pub fn go_top(&mut self)
        ensures
            final(self).items.selected == Some(0usize),
            final(self).items.items == old(self).items.items,
            final(self).items.align == old(self).items.align,
            final(self).items.last_selected == old(self).items.last_selected,
    {
        self.items.selected = Some(0);
    }

    /// Moves the cursor to the last item.
    pub fn go_bottom(&mut self)
        requires
            old(self).items.items@.len() > 0,
        ensures
            final(self).items.selected is Some,
            final(self).items.selected->0 == old(self).items.items@.len() - 1,
            final(self).items.items == old(self).items.items,
            final(self).items.align == old(self).items.align,
            final(self).items.last_selected == old(self).items.last_selected,
    {
        self.items.selected = Some(self.items.items.len() - 1);
    }

    /// The addresses of the items that are selected.
    pub fn chosen(&self) -> (r: Vec<String>)
        ensures
            texts(r@) == chosen_urls(self.items.items@),
    {
        let items = &self.items.items;
        let mut r: Vec<String> = Vec::new();
        let mut i: usize = 0;
        assert(items@.take(0) =~= Seq::empty());
        assert(texts(r@) =~= Seq::empty());
        while i < items.len()
            invariant
                i <= items@.len(),
                texts(r@) == chosen_urls(items@.take(i as int)),
            decreases items@.len() - i,
        {
            assert(items@.take(i + 1).drop_last() =~= items@.take(i as int));
            if items[i].selected {
                push_text(&mut r, items[i].url.clone());
            }
            i = i + 1;
        }
        assert(items@.take(i as int) =~= items@);
        r
    }

    /// Takes a key. When the choice ends, returns the addresses of the items
    /// that are selected.
    pub fn run(&mut self, key: Key) -> (r: Option<Vec<String>>)
        requires
            old(self).items.wf(),
            key == Key::Char('G') || key == Key::End ==> old(self).items.items@.len() > 0,
        ensures
            old(self).items.items@.len() > 0 ==> final(self).items.wf(),
            final(self).items.items@.len() == old(self).items.items@.len(),
            final(self).items.align == old(self).items.align,
            final(self).items.last_selected == old(self).items.last_selected,
            final(self).items.selected == cursor_after(old(self).items, key),
            final(self).items.items@ == if key == Key::Char(' ') {
                flipped_at(old(self).items.items@, old(self).items.selected)
            } else {
                old(self).items.items@
            },
            match r {
                Some(urls) => leaves(key) && texts(urls@) == chosen_urls(old(self).items.items@),
                None => !leaves(key),
            },
    {
        match key {
            Key::Char('q') | Key::Enter => {
                return Some(self.chosen());
            },
            Key::Char('j') | Key::Down => self.items.next(),
            Key::Char('k') | Key::Up => self.items.previous(),
            Key::Char(' ') => self.change_status(),
            Key::Char('g') | Key::Home => self.go_top(),
            Key::Char('G') | Key::End => self.go_bottom(),
            _ => {},
        }
        None
    }
}

/// Changing the status twice leaves the items as they were.
pub proof fn law_two_changes_cancel(items: Seq<FetchItem>, cursor: Option<usize>)
    requires
        cursor is Some ==> cursor->0 < items.len(),
    ensures
        flipped_at(flipped_at(items, cursor), cursor) == items,
{
    if cursor is Some {
        let i = cursor->0 as int;
        assert(flipped(flipped(items[i])) == items[i]);
        assert(flipped_at(flipped_at(items, cursor), cursor) =~= items);
    }
}

/// The domain that a line of a source list names: none in a comment or an
/// empty line.
pub open spec fn list_domain(pattern: Seq<char>, line: Seq<char>) -> Option<Seq<char>> {
    if line.len() == 0 || line[0] == '#' {
        None
    } else {
        regex_group(pattern, line)
    }
}

/// The domain that a line of a source list names.
pub fn domain_from_list(regex: &Pattern, line: &str) -> (r: Option<String>)
    ensures
        text_opt(r) == list_domain(regex@, line@),
{
    let chars = crate::text::chars_of(line);
    if chars.len() == 0 || chars[0] == '#' {
        return None;
    }
    regex_string(regex, line)
}

/// What the first group of a pattern holds.
pub fn regex_string(regex: &Pattern, line: &str) -> (r: Option<String>)
    ensures
        text_opt(r) == regex_group(regex@, line@),
{
    regex.capture(line)
}

/// What a file of sources holds.
#[derive(Debug, Clone, Copy, PartialEq, Eq, Structural)]
pub enum SourceKind {
    /// Lines.
    List,
    /// Sections of tags.
    Sections,
}

/// What a file of sources holds, by its name. `None` for the file that is
/// going to be overwritten, and for files that hold no sources.
pub open spec fn kind_of_source(filename: Seq<char>) -> Option<SourceKind> {
    if has_text(filename, "nala-sources"@) {
        None
    } else if has_suffix(filename, ".sources"@) {
        Some(SourceKind::Sections)
    } else if has_suffix(filename, ".list"@) {
        Some(SourceKind::List)
    } else {
        None
    }
}

/// What a file of sources holds, by its name.
pub fn source_kind(filename: &str) -> (r: Option<SourceKind>)
    ensures
        r == kind_of_source(filename@),
{
    // Don't consider nala-sources as it'll be overwritten
    if contains(filename, "nala-sources") {
        return None;
    }
    if ends_with(filename, ".sources") {
        return Some(SourceKind::Sections);
    }
    if ends_with(filename, ".list") {
        return Some(SourceKind::List);
    }
    None
}

/// A file of sources that was read.
#[derive(Debug)]
pub enum SourcePart {
    List(String),
    Sections(Vec<TagSection>),
}

/// The domains with one more, where there is one.
pub open spec fn with_domain(domains: Seq<Seq<char>>, domain: Option<Seq<char>>) -> Seq<Seq<char>> {
    match domain {
        Some(d) => with_text(domains, d),
        None => domains,
    }
}

/// The domains with those of lines.
pub open spec fn with_lines(
    pattern: Seq<char>,
    domains: Seq<Seq<char>>,
    lines: Seq<Seq<char>>,
) -> Seq<Seq<char>>
    decreases lines.len(),
{
    if lines.len() == 0 {
        domains
    } else {
        with_domain(
            with_lines(pattern, domains, lines.drop_last()),
            list_domain(pattern, lines.last()),
        )
    }
}

/// The domains with those of addresses.
pub open spec fn with_uris(
    pattern: Seq<char>,
    domains: Seq<Seq<char>>,
    uris: Seq<Seq<char>>,
) -> Seq<Seq<char>>
    decreases uris.len(),
{
    if uris.len() == 0 {
        domains
    } else {
        with_domain(
            with_uris(pattern, domains, uris.drop_last()),
            regex_group(pattern, uris.last()),
        )
    }
}

/// A word, in lower case, that switches a section off.
pub open spec fn means_off(lower: Seq<char>) -> bool {
    lower == "no"@ || lower == "false"@ || lower == "0"@
}

/// A section is switched off.
pub open spec fn is_disabled(section: TagSection) -> bool {
    means_off(
        lowercase(
            match section.tag("Enabled"@) {
                Some(s) => s,
                None => "yes"@,
            },
        ),
    )
}

/// The domains with those of a section, unless it is switched off.
pub open spec fn with_section(
    pattern: Seq<char>,
    domains: Seq<Seq<char>>,
    section: TagSection,
) -> Seq<Seq<char>> {
    if is_disabled(section) {
        domains
    } else {
        match section.tag("URIs"@) {
            Some(uris) => with_uris(pattern, domains, words_of(uris)),
            None => domains,
        }
    }
}

/// The domains with those of sections.
pub open spec fn with_sections(
    pattern: Seq<char>,
    domains: Seq<Seq<char>>,
    sections: Seq<TagSection>,
) -> Seq<Seq<char>>
    decreases sections.len(),
{
    if sections.len() == 0 {
        domains
    } else {
        with_section(
            pattern,
            with_sections(pattern, domains, sections.drop_last()),
            sections.last(),
        )
    }
}

/// The domains with those of a file.
pub open spec fn with_part(pattern: Seq<char>, domains: Seq<Seq<char>>, part: SourcePart) -> Seq<
    Seq<char>,
> {
    match part {
        SourcePart::List(data) => with_lines(pattern, domains, lines_of(data@)),
        SourcePart::Sections(sections) => with_sections(pattern, domains, sections@),
    }
}

/// The domains with those of files.
pub open spec fn with_parts(
    pattern: Seq<char>,
    domains: Seq<Seq<char>>,
    parts: Seq<SourcePart>,
) -> Seq<Seq<char>>
    decreases parts.len(),
{
    if parts.len() == 0 {
        domains
    } else {
        with_part(pattern, with_parts(pattern, domains, parts.drop_last()), parts.last())
    }
}

/// Whether a word, in lower case, switches a section off.
pub fn switches_off(lower: &str) -> (r: bool)
    ensures
        r == means_off(lower@),
{
    str_eq(lower, "no") || str_eq(lower, "false") || str_eq(lower, "0")
}

/// Adds the domain that was found, unless it is known already.
pub fn add_found(domains: &mut Vec<String>, found: Option<String>)
    ensures
        texts(final(domains)@) == with_domain(texts(old(domains)@), text_opt(found)),
        texts(old(domains)@).no_duplicates() ==> texts(final(domains)@).no_duplicates(),
{
    if let Some(domain) = found {
        add_text(domains, domain);
    }
}

fn add_lines(regex: &Pattern, domains: &mut Vec<String>, data: &str)
    ensures
        texts(final(domains)@) == with_lines(regex@, texts(old(domains)@), lines_of(data@)),
        texts(old(domains)@).no_duplicates() ==> texts(final(domains)@).no_duplicates(),
{
    let ghost base = texts(domains@);
    let all = lines(data);
    let ghost given = texts(all@);
    let mut i: usize = 0;
    assert(given.take(0) =~= Seq::empty());
    while i < all.len()
        invariant
            i <= all@.len(),
            given == texts(all@),
            texts(domains@) == with_lines(regex@, base, given.take(i as int)),
            base == texts(old(domains)@),
            base.no_duplicates() ==> texts(domains@).no_duplicates(),
        decreases all@.len() - i,
    {
        assert(given.take(i + 1).drop_last() =~= given.take(i as int));
        assert(given.take(i + 1).last() == all@[i as int]@);
        add_found(domains, domain_from_list(regex, all[i].as_str()));
        i = i + 1;
    }
    assert(given.take(i as int) =~= given);
}

fn add_section(regex: &Pattern, domains: &mut Vec<String>, section: &TagSection)
    ensures
        texts(final(domains)@) == with_section(regex@, texts(old(domains)@), *section),
        texts(old(domains)@).no_duplicates() ==> texts(final(domains)@).no_duplicates(),
{
    let enabled = to_lower(section.get_default("Enabled", "yes"));
    if switches_off(enabled.as_str()) {
        return ;
    }
    let uris = match section.get("URIs") {
        Some(uris) => split_whitespace(uris.as_str()),
        None => {
            return ;
        },
    };
    let ghost base = texts(domains@);
    let ghost given = texts(uris@);
    let mut i: usize = 0;
    assert(given.take(0) =~= Seq::empty());
    while i < uris.len()
        invariant
            i <= uris@.len(),
            given == texts(uris@),
            texts(domains@) == with_uris(regex@, base, given.take(i as int)),
            base == texts(old(domains)@),
            base.no_duplicates() ==> texts(domains@).no_duplicates(),
        decreases uris@.len() - i,
    {
        assert(given.take(i + 1).drop_last() =~= given.take(i as int));
        assert(given.take(i + 1).last() == uris@[i as int]@);
        add_found(domains, regex_string(regex, uris[i].as_str()));
        i = i + 1;
    }
    assert(given.take(i as int) =~= given);
}

/// The domains of the sources on disk, each once: those of the main list and
/// of the other files, in the order in which they were read.
pub fn parse_sources(regex: &Pattern, main: &str, parts: &Vec<SourcePart>) -> (r: Vec<String>)
    ensures
        texts(r@) == with_parts(
            regex@,
            with_lines(regex@, Seq::empty(), lines_of(main@)),
            parts@,
        ),
        texts(r@).no_duplicates(),
{
    let mut domains: Vec<String> = Vec::new();
    assert(texts(domains@) =~= Seq::empty());
    add_lines(regex, &mut domains, main);
    let ghost base = texts(domains@);
    let mut i: usize = 0;
    assert(parts@.take(0) =~= Seq::empty());
    while i < parts.len()
        invariant
            i <= parts@.len(),
            texts(domains@) == with_parts(regex@, base, parts@.take(i as int)),
            texts(domains@).no_duplicates(),
        decreases parts@.len() - i,
    {
        assert(parts@.take(i + 1).drop_last() =~= parts@.take(i as int));
        match &parts[i] {
            SourcePart::List(data) => add_lines(regex, &mut domains, data.as_str()),
            SourcePart::Sections(sections) => {
                let ghost before = texts(domains@);
                let mut k: usize = 0;
                assert(sections@.take(0) =~= Seq::empty());
                while k < sections.len()
                    invariant
                        k <= sections@.len(),
                        texts(domains@) == with_sections(
                            regex@,
                            before,
                            sections@.take(k as int),
                        ),
                        texts(domains@).no_duplicates(),
                    decreases sections@.len() - k,
                {
                    assert(sections@.take(k + 1).drop_last() =~= sections@.take(k as int));
                    add_section(regex, &mut domains, &sections[k]);
                    k = k + 1;
                }
                assert(sections@.take(k as int) =~= sections@);
            },
        }
        i = i + 1;
    }
    assert(parts@.take(i as int) =~= parts@);
    domains
}

/// The countries that were given, in upper case, each once.
pub open spec fn upper_countries(values: Seq<String>) -> Seq<Seq<char>>
    decreases values.len(),
{
    if values.len() == 0 {
        Seq::empty()
    } else {
        with_text(upper_countries(values.drop_last()), uppercase(values.last()@))
    }
}

/// The countries that mirrors must be in, where any were given.
pub fn wanted_countries(config: &Config) -> (r: Option<Vec<String>>)
    ensures
        match r {
            Some(v) => config.vec_map@.dom().contains("countries"@) && texts(v@)
                == upper_countries(config.vec_map@["countries"@]@) && texts(v@).no_duplicates(),
            None => !config.vec_map@.dom().contains("countries"@),
        },
{
    let values = match config.countries() {
        Some(values) => values,
        None => {
            return None;
        },
    };
    let mut r: Vec<String> = Vec::new();
    let mut i: usize = 0;
    assert(values@.take(0) =~= Seq::empty());
    assert(texts(r@) =~= Seq::empty());
    while i < values.len()
        invariant
            i <= values@.len(),
            texts(r@) == upper_countries(values@.take(i as int)),
            texts(r@).no_duplicates(),
        decreases values@.len() - i,
    {
        assert(values@.take(i + 1).drop_last() =~= values@.take(i as int));
        add_text(&mut r, to_upper(values[i].as_str()));
        i = i + 1;
    }
    assert(values@.take(i as int) =~= values@);
    Some(r)
}

/// The texts of an optional list.
pub open spec fn texts_opt(v: Option<Vec<String>>) -> Option<Seq<Seq<char>>> {
    match v {
        Some(list) => Some(texts(list@)),
        None => None,
    }
}

/// A mirror of Debian is in one of the countries: the first word of its
/// country names it.
pub open spec fn debian_country(countries: Option<Seq<Seq<char>>>, section: TagSection) -> bool {
    match countries {
        None => true,
        Some(wanted) => match section.tag("Country"@) {
            Some(country) => words_of(country).len() > 0 && wanted.contains(words_of(country)[0]),
            None => false,
        },
    }
}

/// A mirror holds packages for all the architectures.
pub open spec fn serves(archs: Seq<char>, wanted: Seq<String>) -> bool {
    forall|i: int| 0 <= i < wanted.len() ==> has_text(archs, #[trigger] wanted[i]@)
}

/// The address of a mirror of Debian that serves the countries and the
/// architectures.
pub open spec fn debian_mirror(
    countries: Option<Seq<Seq<char>>>,
    section: TagSection,
    arches: Seq<String>,
) -> Option<Seq<char>> {
    if !debian_country(countries, section) {
        None
    } else {
        match (
            section.tag("Archive-architecture"@),
            section.tag("Site"@),
            section.tag("Archive-http"@),
        ) {
            (Some(served), Some(site), Some(path)) => if serves(served, arches) {
                Some("http://"@ + site + path)
            } else {
                None
            },
            _ => None,
        }
    }
}

/// The address of a mirror of Debian that serves the countries and the
/// architectures.
pub fn debian_url(countries: &Option<Vec<String>>, section: &TagSection, arches: &Vec<String>) -> (r:
    Option<String>)
    ensures
        text_opt(r) == debian_mirror(texts_opt(*countries), *section, arches@),
{
    // If there are countries provided
    if let Some(wanted) = countries {
        let words = match section.get("Country") {
            Some(country) => split_whitespace(country.as_str()),
            None => {
                return None;
            },
        };
        assert(texts(words@).len() == words@.len());
        if words.len() == 0 {
            return None;
        }
        assert(texts(words@)[0] == words@[0]@);
        // If it doesn't match any provided return None
        if !contains_text(wanted, words[0].as_str()) {
            return None;
        }
    }
    // There were either no countries provided or there was a match
    let served = match section.get("Archive-architecture") {
        Some(served) => served,
        None => {
            return None;
        },
    };
    let mut i: usize = 0;
    while i < arches.len()
        invariant
            i <= arches@.len(),
            debian_country(texts_opt(*countries), *section),
            section.tag("Archive-architecture"@) == Some(served@),
            forall|k: int| 0 <= k < i ==> has_text(served@, #[trigger] arches@[k]@),
        decreases arches@.len() - i,
    {
        if !contains(served.as_str(), arches[i].as_str()) {
            assert(!has_text(served@, arches@[i as int]@));
            return None;
        }
        i = i + 1;
    }
    let site = match section.get("Site") {
        Some(site) => site,
        None => {
            return None;
        },
    };
    let path = match section.get("Archive-http") {
        Some(path) => path,
        None => {
            return None;
        },
    };
    let mut url = "http://".to_owned();
    url.append(site.as_str());
    url.append(path.as_str());
    Some(url)
}

/// Ports are wanted: one of the architectures is neither of the two main ones.
pub open spec fn wants_ports(arches: Seq<String>) -> bool {
    exists|i: int|
        0 <= i < arches.len() && (#[trigger] arches[i])@ != "amd64"@ && arches[i]@ != "i386"@
}

/// The address of a mirror of Ubuntu that serves the countries, and the ports
/// where they are wanted. `country` and `url` are what the patterns find.
pub open spec fn ubuntu_mirror(
    countries: Option<Seq<Seq<char>>>,
    arches: Seq<String>,
    mirror: Seq<char>,
    country: Option<Seq<char>>,
    url: Option<Seq<char>>,
) -> Option<Seq<char>> {
    if has_text(mirror, "<title>Ubuntu Archive Mirrors Status</title>"@) {
        None
    } else if countries is Some && !(country is Some && countries->0.contains(country->0)) {
        None
    } else {
        match url {
            Some(u) => if wants_ports(arches) == has_text(u, "ubuntu-ports"@) {
                Some(u)
            } else {
                None
            },
            None => None,
        }
    }
}

/// The address of a mirror of Ubuntu, when the patterns find `country` and
/// `url` in its entry.
pub fn ubuntu_choice(
    arches: &Vec<String>,
    countries: &Option<Vec<String>>,
    mirror: &str,
    country: &Option<String>,
    url: Option<String>,
) -> (r: Option<String>)
    ensures
        text_opt(r) == ubuntu_mirror(
            texts_opt(*countries),
            arches@,
            mirror@,
            text_opt(*country),
            text_opt(url),
        ),
{
    if contains(mirror, "<title>Ubuntu Archive Mirrors Status</title>") {
        return None;
    }
    let mut only_ports = false;
    let mut i: usize = 0;
    while i < arches.len()
        invariant
            i <= arches@.len(),
            only_ports == exists|k: int|
                0 <= k < i && (#[trigger] arches@[k])@ != "amd64"@ && arches@[k]@ != "i386"@,
        decreases arches@.len() - i,
    {
        let ghost was = only_ports;
        if !str_eq(arches[i].as_str(), "amd64") && !str_eq(arches[i].as_str(), "i386") {
            only_ports = true;
            assert(arches@[i as int]@ != "amd64"@);
        }
        i = i + 1;
    }
    assert(only_ports == wants_ports(arches@));
    if let Some(wanted) = countries {
        match country {
            Some(name) => {
                if !contains_text(wanted, name.as_str()) {
                    return None;
                }
            },
            None => {
                return None;
            },
        }
    }
    let url = match url {
        Some(url) => url,
        None => {
            return None;
        },
    };
    let is_ports = contains(url.as_str(), "ubuntu-ports");
    // Don't return non ports if we only want ports
    if only_ports && !is_ports {
        return None;
    }
    // Don't return ports if we don't want only_ports
    if !only_ports && is_ports {
        return None;
    }
    Some(url)
}

/// The address of a mirror of Ubuntu, from its entry in the list.
pub fn ubuntu_url(
    config: &Config,
    countries: &Option<Vec<String>>,
    regex: &NalaRegex,
    mirror: &str,
) -> (r: Option<String>)
    ensures
        text_opt(r) == ubuntu_mirror(
            texts_opt(*countries),
            config.apt.architectures@,
            mirror@,
            regex_group(regex.ubuntu_country@, mirror@),
            regex_group(regex.ubuntu_url@, mirror@),
        ),
{
    let country = regex_string(&regex.ubuntu_country, mirror);
    let url = regex_string(&regex.ubuntu_url, mirror);
    ubuntu_choice(&config.apt.architectures, countries, mirror, &country, url)
}

/// A mirror of Devuan is in a country.
pub open spec fn in_country(section: TagSection, country: Seq<char>) -> bool {
    match section.tag("CountryCode"@) {
        Some(codes) => has_text(codes, country),
        None => false,
    }
}

/// A mirror of Devuan is in all of the countries.
pub open spec fn in_all(section: TagSection, wanted: Seq<Seq<char>>) -> bool {
    forall|i: int| 0 <= i < wanted.len() ==> in_country(section, #[trigger] wanted[i])
}

/// A mirror of Devuan is in all of the countries.
pub open spec fn devuan_country(countries: Option<Seq<Seq<char>>>, section: TagSection) -> bool {
    match countries {
        None => true,
        Some(wanted) => in_all(section, wanted),
    }
}

/// The address of a mirror of Devuan that serves HTTP and the countries.
pub open spec fn devuan_mirror(countries: Option<Seq<Seq<char>>>, section: TagSection) -> Option<
    Seq<char>,
> {
    match (section.tag("Protocols"@), section.tag("BaseURL"@)) {
        (Some(protocols), Some(base)) => if has_text(protocols, "HTTP"@) && devuan_country(
            countries,
            section,
        ) {
            Some("http://"@ + trimmed_start(trimmed_end(base)) + "/devuan"@)
        } else {
            None
        },
        _ => None,
    }
}

/// The address of a mirror of Devuan that serves HTTP and the countries.
pub fn devuan_url(countries: &Option<Vec<String>>, section: &TagSection) -> (r: Option<String>)
    ensures
        text_opt(r) == devuan_mirror(texts_opt(*countries), *section),
{
    match section.get("Protocols") {
        Some(protocols) => {
            if !contains(protocols.as_str(), "HTTP") {
                return None;
            }
        },
        None => {
            return None;
        },
    }
    if let Some(wanted) = countries {
        let ghost all = texts(wanted@);
        let mut i: usize = 0;
        while i < wanted.len()
            invariant
                i <= wanted@.len(),
                all == texts(wanted@),
                texts_opt(*countries) == Some(all),
                forall|k: int| 0 <= k < i ==> in_country(*section, #[trigger] all[k]),
            decreases wanted@.len() - i,
        {
            let found = match section.get("CountryCode") {
                Some(codes) => contains(codes.as_str(), wanted[i].as_str()),
                None => false,
            };
            assert(all[i as int] == wanted@[i as int]@);
            assert(found == in_country(*section, all[i as int]));
            if !found {
                assert(texts_opt(*countries)->0 == all);
                assert(!in_all(*section, all));
                assert(!devuan_country(texts_opt(*countries), *section));
                return None;
            }
            i = i + 1;
        }
    }
    match section.get("BaseURL") {
        Some(base) => {
            let mut url = "http://".to_owned();
            url.append(trim(base.as_str()).as_str());
            url.append("/devuan");
            Some(url)
        },
        None => None,
    }
}

/// Where the list of a distribution's mirrors is.
pub open spec fn mirror_list(distro: Seq<char>) -> Option<Seq<char>> {
    if distro == "debian"@ {
        Some("https://mirror-master.debian.org/status/Mirrors.masterlist"@)
    } else if distro == "ubuntu"@ {
        Some("https://launchpad.net/ubuntu/+archivemirrors-rss"@)
    } else if distro == "devuan"@ {
        Some("https://pkgmaster.devuan.org/mirror_list.txt"@)
    } else {
        None
    }
}

/// Where the list of a distribution's mirrors is.
pub fn mirror_list_url(distro: &str) -> (r: Option<String>)
    ensures
        text_opt(r) == mirror_list(distro@),
{
    if str_eq(distro, "debian") {
        Some("https://mirror-master.debian.org/status/Mirrors.masterlist".to_owned())
    } else if str_eq(distro, "ubuntu") {
        Some("https://launchpad.net/ubuntu/+archivemirrors-rss".to_owned())
    } else if str_eq(distro, "devuan") {
        Some("https://pkgmaster.devuan.org/mirror_list.txt".to_owned())
    } else {
        None
    }
}

/// The mirrors of Debian among the first `n` sections, each once.
pub open spec fn debian_mirrors(
    countries: Option<Seq<Seq<char>>>,
    sections: Seq<TagSection>,
    arches: Seq<String>,
    n: int,
) -> Seq<Seq<char>>
    decreases n,
{
    if n <= 0 {
        Seq::empty()
    } else {
        with_domain(
            debian_mirrors(countries, sections, arches, n - 1),
            debian_mirror(countries, sections[n - 1], arches),
        )
    }
}

/// The mirrors of Devuan among the first `n` sections, each once.
pub open spec fn devuan_mirrors(
    countries: Option<Seq<Seq<char>>>,
    sections: Seq<TagSection>,
    n: int,
) -> Seq<Seq<char>>
    decreases n,
{
    if n <= 0 {
        Seq::empty()
    } else {
        with_domain(
            devuan_mirrors(countries, sections, n - 1),
            devuan_mirror(countries, sections[n - 1]),
        )
    }
}

/// The mirrors of Ubuntu among the first `n` entries, each once.
pub open spec fn ubuntu_mirrors(
    countries: Option<Seq<Seq<char>>>,
    arches: Seq<String>,
    country: Seq<char>,
    url: Seq<char>,
    entries: Seq<Seq<char>>,
    n: int,
) -> Seq<Seq<char>>
    decreases n,
{
    if n <= 0 {
        Seq::empty()
    } else {
        with_domain(
            ubuntu_mirrors(countries, arches, country, url, entries, n - 1),
            ubuntu_mirror(
                countries,
                arches,
                entries[n - 1],
                regex_group(country, entries[n - 1]),
                regex_group(url, entries[n - 1]),
            ),
        )
    }
}

/// The mirrors of a distribution, each once, from its list: `sections` holds
/// the sections of the lists of Debian and Devuan, `response` the list of
/// Ubuntu.
pub fn fetch_mirrors(
    config: &Config,
    countries: &Option<Vec<String>>,
    regex: &NalaRegex,
    distro: &str,
    response: &str,
    sections: &Vec<TagSection>,
) -> (r: Vec<String>)
    ensures
        texts(r@) == if distro@ == "debian"@ {
            debian_mirrors(
                texts_opt(*countries),
                sections@,
                config.apt.architectures@,
                sections@.len() as int,
            )
        } else if distro@ == "ubuntu"@ {
            ubuntu_mirrors(
                texts_opt(*countries),
                config.apt.architectures@,
                regex.ubuntu_country@,
                regex.ubuntu_url@,
                split_on(response@, "<item>"@),
                split_on(response@, "<item>"@).len() as int,
            )
        } else if distro@ == "devuan"@ {
            devuan_mirrors(texts_opt(*countries), sections@, sections@.len() as int)
        } else {
            Seq::empty()
        },
        texts(r@).no_duplicates(),
{
    let mut net_select: Vec<String> = Vec::new();
    assert(texts(net_select@) =~= Seq::empty());
    let mut i: usize = 0;
    if str_eq(distro, "debian") {
        while i < sections.len()
            invariant
                i <= sections@.len(),
                texts(net_select@).no_duplicates(),
                texts(net_select@) == debian_mirrors(
                    texts_opt(*countries),
                    sections@,
                    config.apt.architectures@,
                    i as int,
                ),
            decreases sections@.len() - i,
        {
            if let Some(url) = debian_url(countries, &sections[i], &config.apt.architectures) {
                add_text(&mut net_select, url);
            }
            i = i + 1;
        }
    } else if str_eq(distro, "ubuntu") {
        let mirrors = split(response, "<item>");
        let ghost all = texts(mirrors@);
        while i < mirrors.len()
            invariant
                i <= mirrors@.len(),
                all == texts(mirrors@),
                texts(net_select@).no_duplicates(),
                texts(net_select@) == ubuntu_mirrors(
                    texts_opt(*countries),
                    config.apt.architectures@,
                    regex.ubuntu_country@,
                    regex.ubuntu_url@,
                    all,
                    i as int,
                ),
            decreases mirrors@.len() - i,
        {
            assert(all[i as int] == mirrors@[i as int]@);
            if let Some(url) = ubuntu_url(config, countries, regex, mirrors[i].as_str()) {
                add_text(&mut net_select, url);
            }
            i = i + 1;
        }
    } else if str_eq(distro, "devuan") {
        while i < sections.len()
            invariant
                i <= sections@.len(),
                texts(net_select@).no_duplicates(),
                texts(net_select@) == devuan_mirrors(
                    texts_opt(*countries),
                    sections@,
                    i as int,
                ),
            decreases sections@.len() - i,
        {
            if let Some(url) = devuan_url(countries, &sections[i]) {
                add_text(&mut net_select, url);
            }
            i = i + 1;
        }
    }
    net_select
}

/// A mirror is among the sources on disk: its address holds the domain of one.
pub open spec fn is_known(mirror: Seq<char>, sources: Seq<Seq<char>>) -> bool {
    exists|i: int| 0 <= i < sources.len() && has_text(mirror, #[trigger] sources[i])
}

/// The mirrors that are not among the sources on disk.
pub open spec fn unknown_mirrors(mirrors: Seq<Seq<char>>, sources: Seq<Seq<char>>) -> Seq<Seq<char>>
    decreases mirrors.len(),
{
    if mirrors.len() == 0 {
        Seq::empty()
    } else if is_known(mirrors.last(), sources) {
        unknown_mirrors(mirrors.drop_last(), sources)
    } else {
        unknown_mirrors(mirrors.drop_last(), sources).push(mirrors.last())
    }
}

fn in_sources(mirror: &str, sources: &Vec<String>) -> (r: bool)
    ensures
        r == is_known(mirror@, texts(sources@)),
{
    let ghost all = texts(sources@);
    let mut i: usize = 0;
    while i < sources.len()
        invariant
            i <= sources@.len(),
            all == texts(sources@),
            forall|k: int| 0 <= k < i ==> !has_text(mirror@, #[trigger] all[k]),
        decreases sources@.len() - i,
    {
        assert(all[i as int] == sources@[i as int]@);
        if contains(mirror, sources[i].as_str()) {
            return true;
        }
        i = i + 1;
    }
    false
}

/// Removes the mirrors that are already defined on disk.
pub fn remove_known(mirrors: &Vec<String>, sources: &Vec<String>) -> (r: Vec<String>)
    ensures
        texts(r@) == unknown_mirrors(texts(mirrors@), texts(sources@)),
        texts(mirrors@).no_duplicates() ==> texts(r@).no_duplicates(),
{
    let ghost all = texts(mirrors@);
    let ghost known = texts(sources@);
    let mut r: Vec<String> = Vec::new();
    let mut i: usize = 0;
    assert(all.take(0) =~= Seq::empty());
    assert(texts(r@) =~= Seq::empty());
    while i < mirrors.len()
        invariant
            i <= mirrors@.len(),
            all == texts(mirrors@),
            known == texts(sources@),
            texts(r@) == unknown_mirrors(all.take(i as int), known),
        decreases mirrors@.len() - i,
    {
        assert(all.take(i + 1).drop_last() =~= all.take(i as int));
        assert(all.take(i + 1).last() == mirrors@[i as int]@);
        if !in_sources(mirrors[i].as_str(), sources) {
            push_text(&mut r, mirrors[i].clone());
        }
        i = i + 1;
    }
    assert(all.take(i as int) =~= all);
    proof {
        lemma_kept_once(all, known);
    }
    r
}

proof fn lemma_kept_once(mirrors: Seq<Seq<char>>, sources: Seq<Seq<char>>)
    ensures
        mirrors.no_duplicates() ==> unknown_mirrors(mirrors, sources).no_duplicates(),
    decreases mirrors.len(),
{
    if mirrors.len() > 0 && mirrors.no_duplicates() {
        let front = mirrors.drop_last();
        lemma_kept_once(front, sources);
        law_no_duplicate_sources(front, sources, mirrors.last());
    }
}

/// No source on disk is offered again: no mirror that is kept holds the domain
/// of one, and every mirror that holds none is kept.
pub proof fn law_no_duplicate_sources(mirrors: Seq<Seq<char>>, sources: Seq<Seq<char>>, mirror: Seq<char>)
    ensures
        unknown_mirrors(mirrors, sources).contains(mirror) <==> mirrors.contains(mirror) && !is_known(
            mirror,
            sources,
        ),
    decreases mirrors.len(),
{
    let kept = unknown_mirrors(mirrors, sources);
    if mirrors.len() > 0 {
        let front = mirrors.drop_last();
        let before = unknown_mirrors(front, sources);
        law_no_duplicate_sources(front, sources, mirror);
        assert(mirrors =~= front.push(mirrors.last()));
        if kept.contains(mirror) {
            let i = choose|i: int| 0 <= i < kept.len() && kept[i] == mirror;
            if i < before.len() {
                assert(before[i] == mirror);
                let k = choose|k: int| 0 <= k < front.len() && front[k] == mirror;
                assert(mirrors[k] == mirror);
            } else {
                assert(mirrors[mirrors.len() - 1] == mirror);
            }
        }
        if mirrors.contains(mirror) && !is_known(mirror, sources) {
            let k = choose|k: int| 0 <= k < mirrors.len() && mirrors[k] == mirror;
            if k < front.len() {
                assert(front[k] == mirror);
                let i = choose|i: int| 0 <= i < before.len() && before[i] == mirror;
                assert(kept[i] == mirror);
            } else {
                assert(kept[kept.len() - 1] == mirror);
            }
        }
    }
}

/// The address that is scored: without a slash at its end.
pub fn score_url(url: &str) -> (r: String)
    ensures
        r@ == if has_suffix(url@, "/"@) {
            url@.take(url@.len() - "/"@.len())
        } else {
            url@
        },
{
    match strip_suffix(url, "/") {
        Some(stripped) => stripped,
        None => url.to_owned(),
    }
}

/// The addresses at which a mirror is tried, in order: https, and http where
/// that is allowed and the mirror is not https alone.
pub open spec fn attempts(url: Seq<char>, https_only: bool) -> Seq<Seq<char>> {
    let https = replaced(url, "http://"@, "https://"@);
    if !https_only && !has_text(url, "https://"@) {
        seq![https, url]
    } else {
        seq![https]
    }
}

/// The addresses at which a mirror is tried, in order.
pub fn score_attempts(url: &str, https_only: bool) -> (r: Vec<String>)
    ensures
        texts(r@) == attempts(url@, https_only),
{
    let mut r: Vec<String> = Vec::new();
    r.push(replace(url, "http://", "https://"));
    assert(texts(r@) =~= seq![replaced(url@, "http://"@, "https://"@)]);
    // We don't need to check http if it's https-only or if its only https
    if !https_only && !contains(url, "https://") {
        push_text(&mut r, url.to_owned());
        assert(texts(r@) =~= attempts(url@, https_only));
    }
    r
}

/// With https alone no other address is tried than the https one.
pub proof fn law_https_only(url: Seq<char>)
    ensures
        attempts(url, true) == seq![replaced(url, "http://"@, "https://"@)],
{
}

/// An attempt succeeded.
pub open spec fn got_through(results: Seq<Option<u128>>) -> bool {
    exists|i: int| 0 <= i < results.len() && (#[trigger] results[i]) is Some
}

/// The address that is tried next, after attempts with these results: the next
/// in order, until one has succeeded or none is left.
pub fn next_attempt(url: &str, https_only: bool, results: &Vec<Option<u128>>) -> (r: Option<
    String,
>)
    requires
        results@.len() <= attempts(url@, https_only).len(),
    ensures
        match r {
            Some(address) => !got_through(results@) && results@.len() < attempts(
                url@,
                https_only,
            ).len() && address@ == attempts(url@, https_only)[results@.len() as int],
            None => got_through(results@) || results@.len() == attempts(url@, https_only).len(),
        },
{
    let mut i: usize = 0;
    while i < results.len()
        invariant
            i <= results@.len(),
            forall|k: int| 0 <= k < i ==> (#[trigger] results@[k]) is None,
        decreases results@.len() - i,
    {
        if results[i].is_some() {
            assert(results@[i as int] is Some);
            return None;
        }
        i = i + 1;
    }
    let tried = score_attempts(url, https_only);
    let ghost all = texts(tried@);
    assert(all.len() == tried@.len());
    if results.len() < tried.len() {
        assert(all[results@.len() as int] == tried@[results@.len() as int]@);
        Some(tried[results.len()].clone())
    } else {
        None
    }
}

/// Scores the mirror by its attempts: the first that succeeded counts. Each of
/// `results` is the time that an attempt took, or `None` where it failed. None is left to try.
pub fn net_select_score(url: &str, https_only: bool, results: &Vec<Option<u128>>) -> (r: Result<
    (String, u128),
    NalaError,
>)
    requires
        results@.len() <= attempts(url@, https_only).len(),
        got_through(results@) || results@.len() == attempts(url@, https_only).len(),
    ensures
        match r {
            Ok((address, score)) => exists|i: int|
                0 <= i < results@.len() && #[trigger] results@[i] == Some(score) && address@
                    == attempts(url@, https_only)[i] && forall|k: int|
                    0 <= k < i ==> (#[trigger] results@[k]) is None,
            Err(e) => (forall|k: int| 0 <= k < results@.len() ==> (#[trigger] results@[k]) is None)
                && e.message@ == "Could not get to '"@ + url@ + "'"@,
        },
{
    let tried = score_attempts(url, https_only);
    let ghost all = texts(tried@);
    assert(all.len() == tried@.len());
    let mut i: usize = 0;
    while i < results.len()
        invariant
            i <= results@.len(),
            all == texts(tried@),
            all == attempts(url@, https_only),
            results@.len() <= tried@.len(),
            forall|k: int| 0 <= k < i ==> (#[trigger] results@[k]) is None,
        decreases results@.len() - i,
    {
        if let Some(score) = results[i] {
            assert(all[i as int] == tried@[i as int]@);
            assert(results@[i as int] == Some(score));
            return Ok((tried[i].clone(), score));
        }
        i = i + 1;
    }
    let mut message = "Could not get to '".to_owned();
    message.append(url);
    message.append("'");
    Err(NalaError::from_string(message))
}

/// The file by which a mirror is scored.
pub fn release_url(base_url: &str, release: &str) -> (r: String)
    ensures
        r@ == base_url@ + "/dists/"@ + release@ + "/Release"@,
{
    let mut r = base_url.to_owned();
    r.append("/dists/");
    r.append(release);
    r.append("/Release");
    r
}

impl Ranked for (String, u128) {
    /// The better score ranks first.
    open spec fn le(self, other: (String, u128)) -> bool {
        self.1 <= other.1
    }

    proof fn total(a: (String, u128), b: (String, u128)) {
    }

    proof fn transitive(a: (String, u128), b: (String, u128), c: (String, u128)) {
    }

    fn not_after(&self, other: &(String, u128)) -> (r: bool) {
        self.1 <= other.1
    }
}

/// Sorts mirrors by their scores, the best first. Mirrors with the same score
/// keep their order.
pub fn score_handler(scored: Vec<(String, u128)>) -> (r: Vec<(String, u128)>)
    ensures
        stably_sorted(scored@, r@),
{
    sort(scored)
}

/// The addresses that tell whether mirrors hold firmware that is not free.
pub fn non_free_urls(chosen: &Vec<String>, release: &str) -> (r: Vec<String>)
    ensures
        texts(r@) == Seq::new(
            chosen@.len(),
            |i: int| chosen@[i]@ + "/dists/"@ + release@ + "/non-free-firmware/"@,
        ),
{
    let ghost all = Seq::new(
        chosen@.len(),
        |i: int| chosen@[i]@ + "/dists/"@ + release@ + "/non-free-firmware/"@,
    );
    let mut r: Vec<String> = Vec::new();
    let mut i: usize = 0;
    assert(texts(r@) =~= all.take(0));
    while i < chosen.len()
        invariant
            i <= chosen@.len(),
            all == Seq::new(
                chosen@.len(),
                |k: int| chosen@[k]@ + "/dists/"@ + release@ + "/non-free-firmware/"@,
            ),
            texts(r@) == all.take(i as int),
        decreases chosen@.len() - i,
    {
        let mut url = chosen[i].clone();
        url.append("/dists/");
        url.append(release);
        url.append("/non-free-firmware/");
        push_text(&mut r, url);
        assert(all.take(i + 1) =~= all.take(i as int).push(all[i as int]));
        i = i + 1;
    }
    assert(all.take(i as int) =~= all);
    r
}

/// Every mirror has what it was asked for.
pub open spec fn all_have_it(values: Seq<bool>) -> bool {
    forall|i: int| 0 <= i < values.len() ==> #[trigger] values[i]
}

/// The components, with firmware that is not free where that is wanted and all
/// the mirrors hold it. Each of `values` says whether a mirror does.
pub fn check_non_free(config: &Config, component: String, values: &Vec<bool>) -> (r: String)
    ensures
        r@ == if flag(*config, "non_free"@, false) && all_have_it(values@) {
            component@ + " non-free-firmware"@
        } else {
            component@
        },
{
    if !config.get_bool("non_free", false) {
        return component;
    }
    let mut i: usize = 0;
    while i < values.len()
        invariant
            i <= values@.len(),
            forall|k: int| 0 <= k < i ==> #[trigger] values@[k],
        decreases values@.len() - i,
    {
        if !values[i] {
            assert(!values@[i as int]);
            return component;
        }
        i = i + 1;
    }
    let mut r = component;
    r.append(" non-free-firmware");
    r
}

/// The mirrors that are offered. None at all is a failure.
pub fn check_scored(scored: Vec<(String, u128)>) -> (r: Result<Vec<(String, u128)>, NalaError>)
    ensures
        if scored@.len() == 0 {
            fails_with(r, "Nala was unable to find any mirrors."@)
        } else {
            r == Ok::<Vec<(String, u128)>, NalaError>(scored)
        },
{
    if scored.len() == 0 {
        return Err(NalaError::new("Nala was unable to find any mirrors."));
    }
    Ok(scored)
}

fn choose_all(scored: &Vec<(String, u128)>) -> (r: Vec<String>)
    ensures
        texts(r@) == Seq::new(scored@.len(), |i: int| scored@[i].0@),
{
    let ghost all = Seq::new(scored@.len(), |i: int| scored@[i].0@);
    let mut r: Vec<String> = Vec::new();
    let mut i: usize = 0;
    assert(texts(r@) =~= all.take(0));
    while i < scored.len()
        invariant
            i <= scored@.len(),
            all == Seq::new(scored@.len(), |k: int| scored@[k].0@),
            texts(r@) == all.take(i as int),
        decreases scored@.len() - i,
    {
        push_text(&mut r, scored[i].0.clone());
        assert(all.take(i + 1) =~= all.take(i as int).push(all[i as int]));
        i = i + 1;
    }
    assert(all.take(i as int) =~= all);
    r
}

/// The addresses that are chosen without asking the user: those of all the
/// mirrors, where the configuration says so. Otherwise the user chooses.
pub fn choose_unasked(config: &Config, scored: &Vec<(String, u128)>) -> (r: Option<Vec<String>>)
    ensures
        match r {
            Some(urls) => config.auto is Some && texts(urls@) == Seq::new(
                scored@.len(),
                |i: int| scored@[i].0@,
            ),
            None => config.auto is None,
        },
{
    match config.auto {
        Some(_) => Some(choose_all(scored)),
        None => None,
    }
}

/// How many of the chosen mirrors are written: as many as were asked for.
pub open spec fn written(config: Config, chosen: Seq<String>) -> int {
    match config.auto {
        Some(auto) => if auto < chosen.len() {
            auto as int
        } else {
            chosen.len() as int
        },
        None => chosen.len() as int,
    }
}

/// The first `n` mirrors, one below the other.
pub open spec fn uri_lines(chosen: Seq<String>, n: int) -> Seq<char>
    decreases n,
{
    if n <= 0 {
        Seq::empty()
    } else if n == 1 {
        chosen[0]@ + "\n"@
    } else {
        uri_lines(chosen, n - 1) + "      "@ + chosen[n - 1]@ + "\n"@
    }
}

/// The file of sources for the chosen mirrors.
pub open spec fn sources_text(
    config: Config,
    chosen: Seq<String>,
    release: Seq<char>,
    component: Seq<char>,
) -> Seq<char> {
    "# Sources file built for nala\n\n"@ + (if flag(config, "sources"@, false) {
        "Types: deb\n"@
    } else {
        "Types: deb deb-src\n"@
    }) + "URIs: "@ + uri_lines(chosen, written(config, chosen)) + "Suites: "@ + release + "\n"@
        + "Components: "@ + component + "\n"@
}

/// The file of sources for the chosen mirrors. None chosen is a failure.
pub fn fetch(config: &Config, chosen: &Vec<String>, release: &str, component: &str) -> (r: Result<
    String,
    NalaError,
>)
    ensures
        if chosen@.len() == 0 {
            fails_with(r, "No mirrors were selected."@)
        } else {
            r is Ok && r->Ok_0@ == sources_text(*config, chosen@, release@, component@)
        },
{
    if chosen.len() == 0 {
        return Err(NalaError::new("No mirrors were selected."));
    }
    let mut text = "# Sources file built for nala\n\n".to_owned();
    text.append(
        if config.get_bool("sources", false) {
            "Types: deb\n"
        } else {
            "Types: deb deb-src\n"
        },
    );
    text.append("URIs: ");
    let count: usize = match config.auto {
        Some(auto) => if (auto as usize) < chosen.len() {
            auto as usize
        } else {
            chosen.len()
        },
        None => chosen.len(),
    };
    let mut uris = String::new();
    let mut i: usize = 0;
    assert(uris@ =~= uri_lines(chosen@, 0));
    while i < count
        invariant
            i <= count <= chosen@.len(),
            uris@ == uri_lines(chosen@, i as int),
        decreases count - i,
    {
        let ghost before = uris@;
        if i > 0 {
            uris.append("      ");
        }
        uris.append(chosen[i].as_str());
        uris.append("\n");
        if i == 0 {
            assert(before =~= Seq::empty());
            assert(uris@ =~= chosen@[0]@ + "\n"@);
        }
        i = i + 1;
    }
    text.append(uris.as_str());
    text.append("Suites: ");
    text.append(release);
    text.append("\n");
    text.append("Components: ");
    text.append(component);
    text.append("\n");
    Ok(text)
}

/// A package tells the distribution and the release by the first index file of
/// its candidate, if that names both.
pub proof fn law_origin_of_a_package(pkg: &Option<Package>, r: Option<(String, String)>)
    requires
        call_ensures(get_origin_codename, (pkg,), r),
    ensures
        r is Some <==> *pkg is Some && (*pkg)->0.cand() is Some && (
        *pkg)->0.cand()->0.files@.len() > 0 && (*pkg)->0.cand()->0.files@[0].file.origin is Some
            && (*pkg)->0.cand()->0.files@[0].file.codename is Some,
        r matches Some((origin, codename)) ==> origin@ == (
        *pkg)->0.cand()->0.files@[0].file.origin->0@ && codename@ == (
        *pkg)->0.cand()->0.files@[0].file.codename->0@,
{
}

proof fn lemma_told_release(packages: Seq<Option<Package>>, n: int)
    requires
        0 <= n <= packages.len(),
    ensures
        match told_release(packages.skip(n)) {
            Some((distro, release)) => exists|i: int|
                n <= i < packages.len() && match origin_codename(#[trigger] packages[i]) {
                    Some((origin, codename)) => distro == lowercase(origin) && release == lowercase(
                        codename,
                    ),
                    None => false,
                } && forall|j: int|
                    n <= j < i ==> origin_codename(#[trigger] packages[j]) is None,
            None => forall|j: int|
                n <= j < packages.len() ==> origin_codename(#[trigger] packages[j]) is None,
        },
    decreases packages.len() - n,
{
    if n < packages.len() {
        lemma_told_release(packages, n + 1);
        assert(packages.skip(n).skip(1) =~= packages.skip(n + 1));
        assert(packages.skip(n)[0] == packages[n]);
        match origin_codename(packages[n]) {
            Some((origin, codename)) => {
                assert(told_release(packages.skip(n)) == Some(
                    (lowercase(origin), lowercase(codename)),
                ));
            },
            None => {},
        }
    }
}

/// A release that is given counts before what the packages tell, Debian's before
/// Ubuntu's, and Ubuntu's before Devuan's.
pub proof fn law_given_release_counts(
    config: &Config,
    packages: &Vec<Option<Package>>,
    r: Result<(String, String), NalaError>,
)
    requires
        call_ensures(detect_release, (config, packages), r),
    ensures
        ({
            let is_given = |key: Seq<char>|
                config.vec_map@.dom().contains(key) && config.vec_map@[key]@.len() > 0;
            let named = |key: Seq<char>|
                r is Ok && r->Ok_0.0@ == key && r->Ok_0.1@ == lowercase(
                    config.vec_map@[key]@[0]@,
                );
            &&& is_given("debian"@) ==> named("debian"@)
            &&& !is_given("debian"@) && is_given("ubuntu"@) ==> named("ubuntu"@)
            &&& !is_given("debian"@) && !is_given("ubuntu"@) && is_given("devuan"@) ==> named(
                "devuan"@,
            )
        }),
{
}

/// Without a release that is given, the first package that tells one decides, and
/// it is an error if none does.
pub proof fn law_first_package_tells(
    config: &Config,
    packages: &Vec<Option<Package>>,
    r: Result<(String, String), NalaError>,
)
    requires
        call_ensures(detect_release, (config, packages), r),
        forall|key: Seq<char>|
            key == "debian"@ || key == "ubuntu"@ || key == "devuan"@ ==> !(
            #[trigger] config.vec_map@.dom().contains(key)) || config.vec_map@[key]@.len() == 0,
    ensures
        match r {
            Ok((distro, release)) => exists|i: int|
                0 <= i < packages@.len() && match origin_codename(#[trigger] packages@[i]) {
                    Some((origin, codename)) => distro@ == lowercase(origin) && release@
                        == lowercase(codename),
                    None => false,
                } && forall|j: int| 0 <= j < i ==> origin_codename(#[trigger] packages@[j]) is None,
            Err(_) => forall|j: int|
                0 <= j < packages@.len() ==> origin_codename(#[trigger] packages@[j]) is None,
        },
{
    lemma_told_release(packages@, 0);
    assert(packages@.skip(0) =~= packages@);
    assert(given(*config, "debian"@) is None) by {
        assert(!config.vec_map@.dom().contains("debian"@)
            || config.vec_map@["debian"@]@.len() == 0);
    }
    assert(given(*config, "ubuntu"@) is None) by {
        assert(!config.vec_map@.dom().contains("ubuntu"@)
            || config.vec_map@["ubuntu"@]@.len() == 0);
    }
    assert(given(*config, "devuan"@) is None) by {
        assert(!config.vec_map@.dom().contains("devuan"@)
            || config.vec_map@["devuan"@]@.len() == 0);
    }
}

/// The components of each distribution. What is not free is added only where it
/// is wanted, and other distributions are refused.
pub proof fn law_components(config: &Config, distro: &str, r: Result<String, NalaError>)
    requires
        call_ensures(get_component, (config, distro), r),
    ensures
        r is Ok <==> distro@ == "debian"@ || distro@ == "devuan"@ || distro@ == "ubuntu"@,
        distro@ == "debian"@ || distro@ == "devuan"@ ==> r->Ok_0@ == if flag(
            *config,
            "non_free"@,
            false,
        ) {
            "main contrib non-free"@
        } else {
            "main"@
        },
        distro@ == "ubuntu"@ ==> r->Ok_0@ == "main restricted universe multiverse"@,
{
    reveal_strlit("main");
    reveal_strlit(" contrib non-free");
    reveal_strlit("main contrib non-free");
    reveal_strlit(" restricted universe multiverse");
    reveal_strlit("main restricted universe multiverse");
    reveal_strlit("debian");
    reveal_strlit("devuan");
    reveal_strlit("ubuntu");
    assert("main"@ + " contrib non-free"@ =~= "main contrib non-free"@);
    assert("main"@ + " restricted universe multiverse"@ =~= "main restricted universe multiverse"@);
    assert("ubuntu"@[0] != "debian"@[0]);
    assert("ubuntu"@[0] != "devuan"@[0]);
}

proof fn lemma_url_width(scored: Seq<(String, u128)>)
    ensures
        forall|i: int|
            0 <= i < scored.len() ==> encode_utf8((#[trigger] scored[i]).0@).len() <= url_width(
                scored,
            ),
        scored.len() > 0 ==> exists|i: int|
            0 <= i < scored.len() && encode_utf8((#[trigger] scored[i]).0@).len() == url_width(
                scored,
            ),
    decreases scored.len(),
{
    if scored.len() > 0 {
        let front = scored.drop_last();
        let n = scored.len() - 1;
        lemma_url_width(front);
        assert forall|i: int| 0 <= i < scored.len() implies encode_utf8(
            (#[trigger] scored[i]).0@,
        ).len() <= url_width(scored) by {
            if i < front.len() {
                assert(front[i] == scored[i]);
            }
        }
        if encode_utf8(scored[n].0@).len() != url_width(scored) {
            let i = choose|i: int|
                0 <= i < front.len() && encode_utf8((#[trigger] front[i]).0@).len() == url_width(
                    front,
                );
            assert(front[i] == scored[i]);
        }
    }
}

proof fn lemma_score_width(scored: Seq<(String, u128)>)
    ensures
        forall|i: int|
            0 <= i < scored.len() ==> encode_utf8(score_text((#[trigger] scored[i]).1)).len()
                <= score_width(scored),
        scored.len() > 0 ==> exists|i: int|
            0 <= i < scored.len() && encode_utf8(score_text((#[trigger] scored[i]).1)).len()
                == score_width(scored),
    decreases scored.len(),
{
    if scored.len() > 0 {
        let front = scored.drop_last();
        let n = scored.len() - 1;
        lemma_score_width(front);
        assert forall|i: int| 0 <= i < scored.len() implies encode_utf8(
            score_text((#[trigger] scored[i]).1),
        ).len() <= score_width(scored) by {
            if i < front.len() {
                assert(front[i] == scored[i]);
            }
        }
        if encode_utf8(score_text(scored[n].1)).len() != score_width(scored) {
            let i = choose|i: int|
                0 <= i < front.len() && encode_utf8(score_text((#[trigger] front[i]).1)).len()
                    == score_width(front);
            assert(front[i] == scored[i]);
        }
    }
}

/// The list shows every mirror with its score, in order, none of them chosen, in
/// columns that are as wide as their widest cell.
pub proof fn law_list_of_mirrors(scored: Vec<(String, u128)>, r: FetchTui)
    requires
        call_ensures(FetchTui::new, (scored,), r),
    ensures
        r.items.items@.len() == scored@.len(),
        forall|i: int|
            0 <= i < scored@.len() ==> (#[trigger] r.items.items@[i]).url@ == scored@[i].0@
                && r.items.items@[i].score@ == decimal(scored@[i].1 as nat) + " ms"@
                && !r.items.items@[i].selected && encode_utf8(r.items.items@[i].url@).len()
                <= r.items.align.0 && encode_utf8(r.items.items@[i].score@).len()
                <= r.items.align.1,
        scored@.len() > 0 ==> (exists|i: int|
            0 <= i < scored@.len() && encode_utf8((#[trigger] scored@[i]).0@).len()
                == r.items.align.0) && (exists|i: int|
            0 <= i < scored@.len() && encode_utf8(
                decimal((#[trigger] scored@[i]).1 as nat) + " ms"@,
            ).len() == r.items.align.1),
        r.items.selected is None,
{
    lemma_url_width(scored@);
    lemma_score_width(scored@);
    assert forall|i: int| 0 <= i < scored@.len() implies (#[trigger] r.items.items@[i]).url@
        == scored@[i].0@ && r.items.items@[i].score@ == decimal(scored@[i].1 as nat) + " ms"@
        && !r.items.items@[i].selected && encode_utf8(r.items.items@[i].url@).len()
        <= r.items.align.0 && encode_utf8(r.items.items@[i].score@).len() <= r.items.align.1 by {
        assert(encode_utf8(scored@[i].0@).len() <= url_width(scored@));
    }
    if scored@.len() > 0 {
        let i = choose|i: int|
            0 <= i < scored@.len() && encode_utf8(score_text((#[trigger] scored@[i]).1)).len()
                == score_width(scored@);
        assert(encode_utf8(decimal(scored@[i].1 as nat) + " ms"@).len() == r.items.align.1);
    }
}

/// A mirror that is chosen has its mark, and one that is not has the other.
pub proof fn law_marks(item: &FetchItem, r: (String, String))
    requires
        call_ensures(FetchItem::to_list_items, (item,), r),
    ensures
        item.selected ==> r.0@ == "\u{2713} "@ + item.url@,
        !item.selected ==> r.0@ == "\u{2610} "@ + item.url@,
        r.1@ == item.score@,
{
}

/// The cursor goes down by one and from the end to the start, or up by one and
/// from the start to the end. From nowhere it goes where it was last, or to the
/// start.
pub proof fn law_cursor_moves(down: &mut StatefulList, up: &mut StatefulList, r: (), s: ())
    requires
        old(down).selected is Some ==> old(down).items@.len() > 0,
        old(up).selected is Some ==> old(up).items@.len() > 0,
        call_ensures(StatefulList::next, (down,), r),
        call_ensures(StatefulList::previous, (up,), s),
    ensures
        old(down).selected matches Some(i) ==> final(down).selected == if i + 1
            < old(down).items@.len() {
            Some((i + 1) as usize)
        } else {
            Some(0usize)
        },
        old(up).selected matches Some(i) ==> final(up).selected == if i > 0 {
            Some((i - 1) as usize)
        } else {
            Some((old(up).items@.len() - 1) as usize)
        },
        old(down).selected is None && old(down).last_selected is None ==> final(down).selected
            == Some(0usize),
        old(down).selected is None && old(down).last_selected is Some ==> final(down).selected
            == old(down).last_selected,
        final(down).items@ == old(down).items@,
        final(up).items@ == old(up).items@,
{
    assert(old(up).items@.len() == old(up).items.len());
}

proof fn lemma_chosen(
    items: Seq<FetchItem>,
    keep: spec_fn(FetchItem) -> bool,
    make: spec_fn(FetchItem) -> Seq<char>,
)
    requires
        forall|item: FetchItem| #[trigger] keep(item) == item.selected,
        forall|item: FetchItem| #[trigger] make(item) == item.url@,
    ensures
        chosen_urls(items) == items.filter(keep).map_values(make),
    decreases items.len(),
{
    reveal(Seq::filter);
    if items.len() == 0 {
        assert(items.filter(keep).map_values(make) =~= Seq::<Seq<char>>::empty());
    } else {
        lemma_chosen(items.drop_last(), keep, make);
        if keep(items.last()) {
            crate::seqs::lemma_map_push(items.drop_last().filter(keep), items.last(), make);
        }
    }
}

/// Enter and `q` leave with the mirrors that are chosen, in the order of the
/// list, and no other key does. The space bar changes the choice of the mirror
/// under the cursor alone, and other keys change none.
pub proof fn law_keys(tui: &mut FetchTui, key: Key, r: Option<Vec<String>>)
    requires
        old(tui).items.wf(),
        key == Key::Char('G') || key == Key::End ==> old(tui).items.items@.len() > 0,
        call_ensures(FetchTui::run, (tui, key), r),
    ensures
        r is Some <==> key == Key::Enter || key == Key::Char('q'),
        r is Some ==> texts(r->0@) == old(tui).items.items@.filter(
            |item: FetchItem| item.selected,
        ).map_values(|item: FetchItem| item.url@),
        final(tui).items.items@.len() == old(tui).items.items@.len(),
        forall|i: int|
            0 <= i < old(tui).items.items@.len() ==> {
                let was = old(tui).items.items@[i];
                let is = #[trigger] final(tui).items.items@[i];
                &&& is.url == was.url
                &&& is.score == was.score
                &&& is.selected == (was.selected != (key == Key::Char(' ') && old(tui).items.selected == Some(i as usize)))
            },
        key == Key::Home || key == Key::Char('g') ==> final(tui).items.selected == Some(0usize),
        key == Key::End || key == Key::Char('G') ==> final(tui).items.selected == Some(
            (old(tui).items.items@.len() - 1) as usize,
        ),
        (key == Key::Down || key == Key::Char('j')) && old(tui).items.selected is Some ==> final(tui).items.selected == if old(tui).items.selected->0 + 1 < old(tui).items.items@.len() {
            Some((old(tui).items.selected->0 + 1) as usize)
        } else {
            Some(0usize)
        },
        (key == Key::Up || key == Key::Char('k')) && old(tui).items.selected is Some ==> final(tui).items.selected == if old(tui).items.selected->0 > 0 {
            Some((old(tui).items.selected->0 - 1) as usize)
        } else {
            Some((old(tui).items.items@.len() - 1) as usize)
        },
        key == Key::Other || key == Key::Char(' ') ==> final(tui).items.selected == old(tui).items.selected,
{
    let keep = |item: FetchItem| item.selected;
    let make = |item: FetchItem| item.url@;
    lemma_chosen(old(tui).items.items@, keep, make);
    assert(old(tui).items.items@.len() == old(tui).items.items.len());
}

/// A line names a domain unless it is empty or a comment.
pub proof fn law_comments_name_no_domain(regex: &Pattern, line: &str, r: Option<String>)
    requires
        call_ensures(domain_from_list, (regex, line), r),
    ensures
        line@.len() == 0 || line@[0] == '#' ==> r is None,
        line@.len() > 0 && line@[0] != '#' ==> text_opt(r) == regex_group(regex@, line@),
{
}

/// The files of sources are told by their suffixes. The file that is written
/// here is none of them.
pub proof fn law_files_of_sources(filename: &str, r: Option<SourceKind>)
    requires
        call_ensures(source_kind, (filename,), r),
    ensures
        has_text(filename@, "nala-sources"@) ==> r is None,
        r == Some(SourceKind::Sections) <==> !has_text(filename@, "nala-sources"@) && has_suffix(
            filename@,
            ".sources"@,
        ),
        r == Some(SourceKind::List) <==> !has_text(filename@, "nala-sources"@) && has_suffix(
            filename@,
            ".list"@,
        ) && !has_suffix(filename@, ".sources"@),
{
}

/// A line of a list of sources names a domain.
pub open spec fn line_names(pattern: Seq<char>, line: Seq<char>, domain: Seq<char>) -> bool {
    line.len() > 0 && line[0] != '#' && regex_group(pattern, line) == Some(domain)
}

/// A section of sources that is not switched off names a domain.
pub open spec fn section_names(pattern: Seq<char>, section: TagSection, domain: Seq<char>) -> bool {
    let enabled = lowercase(
        match section.tag("Enabled"@) {
            Some(s) => s,
            None => "yes"@,
        },
    );
    &&& enabled != "no"@ && enabled != "false"@ && enabled != "0"@
    &&& section.tag("URIs"@) is Some
    &&& exists|i: int|
        0 <= i < words_of(section.tag("URIs"@)->0).len() && regex_group(
            pattern,
            #[trigger] words_of(section.tag("URIs"@)->0)[i],
        ) == Some(domain)
}

/// A file of sources names a domain.
pub open spec fn part_names(pattern: Seq<char>, part: SourcePart, domain: Seq<char>) -> bool {
    match part {
        SourcePart::List(data) => exists|i: int|
            0 <= i < lines_of(data@).len() && line_names(
                pattern,
                #[trigger] lines_of(data@)[i],
                domain,
            ),
        SourcePart::Sections(sections) => exists|i: int|
            0 <= i < sections@.len() && section_names(pattern, #[trigger] sections@[i], domain),
    }
}

proof fn lemma_with_domain(domains: Seq<Seq<char>>, found: Option<Seq<char>>, d: Seq<char>)
    ensures
        with_domain(domains, found).contains(d) <==> domains.contains(d) || found == Some(d),
{
    match found {
        Some(s) => {
            crate::text::law_each_once(domains, s);
            if with_text(domains, s).contains(d) && !domains.contains(d) {
                let all = domains.push(s);
                let i = choose|i: int| 0 <= i < all.len() && all[i] == d;
                if i < domains.len() {
                    assert(domains[i] == d);
                }
            }
        },
        None => {},
    }
}

proof fn lemma_lines_named(
    pattern: Seq<char>,
    domains: Seq<Seq<char>>,
    lines: Seq<Seq<char>>,
    d: Seq<char>,
)
    ensures
        with_lines(pattern, domains, lines).contains(d) <==> domains.contains(d) || exists|i: int|
            0 <= i < lines.len() && line_names(pattern, #[trigger] lines[i], d),
    decreases lines.len(),
{
    if lines.len() > 0 {
        let front = lines.drop_last();
        lemma_lines_named(pattern, domains, front, d);
        lemma_with_domain(
            with_lines(pattern, domains, front),
            list_domain(pattern, lines.last()),
            d,
        );
        assert(lines.last() == lines[lines.len() - 1]);
        assert((exists|i: int| 0 <= i < lines.len() && line_names(pattern, #[trigger] lines[i], d))
            <==> (exists|i: int|
            0 <= i < front.len() && line_names(pattern, #[trigger] front[i], d)) || line_names(
            pattern,
            lines.last(),
            d,
        )) by {
            if exists|i: int| 0 <= i < front.len() && line_names(pattern, #[trigger] front[i], d) {
                let i = choose|i: int|
                    0 <= i < front.len() && line_names(pattern, #[trigger] front[i], d);
                assert(lines[i] == front[i]);
            }
            if exists|i: int| 0 <= i < lines.len() && line_names(pattern, #[trigger] lines[i], d) {
                let i = choose|i: int|
                    0 <= i < lines.len() && line_names(pattern, #[trigger] lines[i], d);
                if i < front.len() {
                    assert(lines[i] == front[i]);
                }
            }
        }
    }
}

proof fn lemma_uris_named(
    pattern: Seq<char>,
    domains: Seq<Seq<char>>,
    uris: Seq<Seq<char>>,
    d: Seq<char>,
)
    ensures
        with_uris(pattern, domains, uris).contains(d) <==> domains.contains(d) || exists|i: int|
            0 <= i < uris.len() && regex_group(pattern, #[trigger] uris[i]) == Some(d),
    decreases uris.len(),
{
    if uris.len() > 0 {
        let front = uris.drop_last();
        lemma_uris_named(pattern, domains, front, d);
        lemma_with_domain(
            with_uris(pattern, domains, front),
            regex_group(pattern, uris.last()),
            d,
        );
        assert(uris.last() == uris[uris.len() - 1]);
        assert((exists|i: int|
            0 <= i < uris.len() && regex_group(pattern, #[trigger] uris[i]) == Some(d)) <==> (
        exists|i: int|
            0 <= i < front.len() && regex_group(pattern, #[trigger] front[i]) == Some(d))
            || regex_group(pattern, uris.last()) == Some(d)) by {
            if exists|i: int|
                0 <= i < front.len() && regex_group(pattern, #[trigger] front[i]) == Some(d) {
                let i = choose|i: int|
                    0 <= i < front.len() && regex_group(pattern, #[trigger] front[i]) == Some(d);
                assert(uris[i] == front[i]);
            }
            if exists|i: int|
                0 <= i < uris.len() && regex_group(pattern, #[trigger] uris[i]) == Some(d) {
                let i = choose|i: int|
                    0 <= i < uris.len() && regex_group(pattern, #[trigger] uris[i]) == Some(d);
                if i < front.len() {
                    assert(uris[i] == front[i]);
                }
            }
        }
    }
}

proof fn lemma_sections_named(
    pattern: Seq<char>,
    domains: Seq<Seq<char>>,
    sections: Seq<TagSection>,
    d: Seq<char>,
)
    ensures
        with_sections(pattern, domains, sections).contains(d) <==> domains.contains(d) || exists|
            i: int,
        |
            0 <= i < sections.len() && section_names(pattern, #[trigger] sections[i], d),
    decreases sections.len(),
{
    if sections.len() > 0 {
        let front = sections.drop_last();
        let last = sections[sections.len() - 1];
        lemma_sections_named(pattern, domains, front, d);
        let before = with_sections(pattern, domains, front);
        assert(sections.last() == last);
        if last.tag("URIs"@) is Some {
            lemma_uris_named(pattern, before, words_of(last.tag("URIs"@)->0), d);
        }
        assert(with_section(pattern, before, last).contains(d) <==> before.contains(d)
            || section_names(pattern, last, d));
        assert((exists|i: int|
            0 <= i < sections.len() && section_names(pattern, #[trigger] sections[i], d)) <==> (
        exists|i: int| 0 <= i < front.len() && section_names(pattern, #[trigger] front[i], d))
            || section_names(pattern, last, d)) by {
            if exists|i: int|
                0 <= i < front.len() && section_names(pattern, #[trigger] front[i], d) {
                let i = choose|i: int|
                    0 <= i < front.len() && section_names(pattern, #[trigger] front[i], d);
                assert(sections[i] == front[i]);
            }
            if exists|i: int|
                0 <= i < sections.len() && section_names(pattern, #[trigger] sections[i], d) {
                let i = choose|i: int|
                    0 <= i < sections.len() && section_names(pattern, #[trigger] sections[i], d);
                if i < front.len() {
                    assert(sections[i] == front[i]);
                }
            }
        }
    }
}

proof fn lemma_parts_named(
    pattern: Seq<char>,
    domains: Seq<Seq<char>>,
    parts: Seq<SourcePart>,
    d: Seq<char>,
)
    ensures
        with_parts(pattern, domains, parts).contains(d) <==> domains.contains(d) || exists|i: int|
            0 <= i < parts.len() && part_names(pattern, #[trigger] parts[i], d),
    decreases parts.len(),
{
    if parts.len() > 0 {
        let front = parts.drop_last();
        let last = parts[parts.len() - 1];
        lemma_parts_named(pattern, domains, front, d);
        let before = with_parts(pattern, domains, front);
        assert(parts.last() == last);
        match last {
            SourcePart::List(data) => {
                lemma_lines_named(pattern, before, lines_of(data@), d);
            },
            SourcePart::Sections(sections) => {
                lemma_sections_named(pattern, before, sections@, d);
            },
        }
        assert((exists|i: int|
            0 <= i < parts.len() && part_names(pattern, #[trigger] parts[i], d)) <==> (exists|
            i: int,
        |
            0 <= i < front.len() && part_names(pattern, #[trigger] front[i], d)) || part_names(
            pattern,
            last,
            d,
        )) by {
            if exists|i: int| 0 <= i < front.len() && part_names(pattern, #[trigger] front[i], d) {
                let i = choose|i: int|
                    0 <= i < front.len() && part_names(pattern, #[trigger] front[i], d);
                assert(parts[i] == front[i]);
            }
            if exists|i: int| 0 <= i < parts.len() && part_names(pattern, #[trigger] parts[i], d) {
                let i = choose|i: int|
                    0 <= i < parts.len() && part_names(pattern, #[trigger] parts[i], d);
                if i < front.len() {
                    assert(parts[i] == front[i]);
                }
            }
        }
    }
}

/// The domains of the sources on disk are those that a line of the main file or
/// one of the other files names, each once.
pub proof fn law_domains_of_sources(
    regex: &Pattern,
    main: &str,
    parts: &Vec<SourcePart>,
    r: Vec<String>,
    domain: Seq<char>,
)
    requires
        call_ensures(parse_sources, (regex, main, parts), r),
    ensures
        texts(r@).contains(domain) <==> (exists|i: int|
            0 <= i < lines_of(main@).len() && line_names(
                regex@,
                #[trigger] lines_of(main@)[i],
                domain,
            )) || (exists|i: int|
            0 <= i < parts@.len() && part_names(regex@, #[trigger] parts@[i], domain)),
        texts(r@).no_duplicates(),
{
    let none: Seq<Seq<char>> = Seq::empty();
    lemma_lines_named(regex@, none, lines_of(main@), domain);
    lemma_parts_named(regex@, with_lines(regex@, none, lines_of(main@)), parts@, domain);
    assert(!none.contains(domain));
}

proof fn lemma_countries(values: Seq<String>, country: Seq<char>)
    ensures
        upper_countries(values).contains(country) <==> exists|i: int|
            0 <= i < values.len() && uppercase((#[trigger] values[i])@) == country,
    decreases values.len(),
{
    if values.len() > 0 {
        let front = values.drop_last();
        let last = values[values.len() - 1];
        lemma_countries(front, country);
        assert(values.last() == last);
        lemma_with_domain(upper_countries(front), Some(uppercase(last@)), country);
        if exists|i: int| 0 <= i < front.len() && uppercase((#[trigger] front[i])@) == country {
            let i = choose|i: int|
                0 <= i < front.len() && uppercase((#[trigger] front[i])@) == country;
            assert(values[i] == front[i]);
        }
        if exists|i: int| 0 <= i < values.len() && uppercase((#[trigger] values[i])@) == country {
            let i = choose|i: int|
                0 <= i < values.len() && uppercase((#[trigger] values[i])@) == country;
            if i < front.len() {
                assert(values[i] == front[i]);
            }
        }
    }
}

/// The countries that are wanted are those that are given, in capitals.
pub proof fn law_wanted_countries(config: &Config, r: Option<Vec<String>>, country: Seq<char>)
    requires
        call_ensures(wanted_countries, (config,), r),
    ensures
        r is Some <==> config.vec_map@.dom().contains("countries"@),
        r is Some ==> (texts(r->0@).contains(country) <==> exists|i: int|
            0 <= i < config.vec_map@["countries"@]@.len() && uppercase(
                (#[trigger] config.vec_map@["countries"@]@[i])@,
            ) == country),
{
    if r is Some {
        lemma_countries(config.vec_map@["countries"@]@, country);
    }
}

/// The mirrors of Debian: each with an address, in a wanted country if any is
/// wanted, that holds every architecture.
pub proof fn law_debian_mirrors(
    countries: &Option<Vec<String>>,
    section: &TagSection,
    arches: &Vec<String>,
    r: Option<String>,
)
    requires
        call_ensures(debian_url, (countries, section, arches), r),
    ensures
        r is Some <==> {
            &&& *countries is Some ==> section.tag("Country"@) is Some && words_of(
                section.tag("Country"@)->0,
            ).len() > 0 && exists|i: int|
                0 <= i < (*countries)->0@.len() && (#[trigger] (*countries)->0@[i])@ == words_of(
                    section.tag("Country"@)->0,
                )[0]
            &&& section.tag("Site"@) is Some
            &&& section.tag("Archive-http"@) is Some
            &&& section.tag("Archive-architecture"@) is Some
            &&& forall|i: int|
                0 <= i < arches@.len() ==> has_text(
                    section.tag("Archive-architecture"@)->0,
                    (#[trigger] arches@[i])@,
                )
        },
        r is Some ==> r->0@ == "http://"@ + section.tag("Site"@)->0 + section.tag(
            "Archive-http"@,
        )->0,
{
    if *countries is Some && section.tag("Country"@) is Some {
        lemma_texts_contain((*countries)->0@, words_of(section.tag("Country"@)->0)[0]);
    }
}

proof fn lemma_texts_contain(v: Seq<String>, s: Seq<char>)
    ensures
        texts(v).contains(s) <==> exists|i: int| 0 <= i < v.len() && (#[trigger] v[i])@ == s,
{
    if texts(v).contains(s) {
        let i = choose|i: int| 0 <= i < texts(v).len() && texts(v)[i] == s;
        assert(v[i]@ == s);
    }
    if exists|i: int| 0 <= i < v.len() && (#[trigger] v[i])@ == s {
        let i = choose|i: int| 0 <= i < v.len() && (#[trigger] v[i])@ == s;
        assert(texts(v)[i] == s);
    }
}

/// An address of Ubuntu is for the wanted architectures: for the ports exactly
/// if one of the others than the two main ones is wanted.
pub open spec fn fits_arches(arches: Seq<String>, url: Seq<char>) -> bool {
    has_text(url, "ubuntu-ports"@) <==> exists|i: int|
        0 <= i < arches.len() && (#[trigger] arches[i])@ != "amd64"@ && arches[i]@ != "i386"@
}

/// The mirrors of Ubuntu: an entry gives its address unless it is the title, its
/// country is not wanted, or the address is for other architectures. Without
/// wanted countries every country is.
pub proof fn law_ubuntu_choice(
    arches: &Vec<String>,
    countries: &Option<Vec<String>>,
    mirror: &str,
    country: &Option<String>,
    url: Option<String>,
    r: Option<String>,
)
    requires
        call_ensures(ubuntu_choice, (arches, countries, mirror, country, url), r),
    ensures
        r is Some <==> {
            &&& !has_text(mirror@, "<title>Ubuntu Archive Mirrors Status</title>"@)
            &&& *countries is Some ==> *country is Some && exists|i: int|
                0 <= i < (*countries)->0@.len() && (#[trigger] (*countries)->0@[i])@ == (
                *country)->0@
            &&& url is Some
            &&& fits_arches(arches@, url->0@)
        },
        r is Some ==> r->0@ == url->0@,
{
    if *countries is Some && *country is Some {
        lemma_texts_contain((*countries)->0@, (*country)->0@);
    }
}

/// The mirrors of Ubuntu, by what the expressions find in an entry.
pub proof fn law_ubuntu_mirrors(
    config: &Config,
    countries: &Option<Vec<String>>,
    regex: &NalaRegex,
    mirror: &str,
    r: Option<String>,
)
    requires
        call_ensures(ubuntu_url, (config, countries, regex, mirror), r),
    ensures
        ({
            let country = regex_group(regex.ubuntu_country@, mirror@);
            let url = regex_group(regex.ubuntu_url@, mirror@);
            &&& r is Some <==> {
                &&& !has_text(mirror@, "<title>Ubuntu Archive Mirrors Status</title>"@)
                &&& *countries is Some ==> country is Some && exists|i: int|
                    0 <= i < (*countries)->0@.len() && (#[trigger] (*countries)->0@[i])@
                        == country->0
                &&& url is Some
                &&& fits_arches(config.apt.architectures@, url->0)
            }
            &&& r is Some ==> r->0@ == url->0
        }),
{
    let country = regex_group(regex.ubuntu_country@, mirror@);
    if *countries is Some && country is Some {
        lemma_texts_contain((*countries)->0@, country->0);
    }
}

/// The country codes of a section hold every wanted country.
pub open spec fn codes_hold(section: TagSection, wanted: Seq<String>) -> bool {
    forall|i: int|
        0 <= i < wanted.len() ==> section.tag("CountryCode"@) is Some && has_text(
            section.tag("CountryCode"@)->0,
            (#[trigger] wanted[i])@,
        )
}

/// The mirrors of Devuan: each that speaks HTTP and is in all of the wanted
/// countries.
pub proof fn law_devuan_mirrors(
    countries: &Option<Vec<String>>,
    section: &TagSection,
    r: Option<String>,
)
    requires
        call_ensures(devuan_url, (countries, section), r),
    ensures
        r is Some <==> {
            &&& section.tag("Protocols"@) is Some
            &&& has_text(section.tag("Protocols"@)->0, "HTTP"@)
            &&& section.tag("BaseURL"@) is Some
            &&& *countries is Some ==> codes_hold(*section, (*countries)->0@)
        },
        r is Some ==> r->0@ == "http://"@ + trimmed_start(
            trimmed_end(section.tag("BaseURL"@)->0),
        ) + "/devuan"@,
{
    if *countries is Some {
        lemma_codes(*section, (*countries)->0@);
    }
    let wanted = texts_opt(*countries);
    assert(text_opt(r) == devuan_mirror(wanted, *section));
    assert(devuan_mirror(wanted, *section) is Some <==> section.tag("Protocols"@) is Some
        && section.tag("BaseURL"@) is Some && has_text(section.tag("Protocols"@)->0, "HTTP"@)
        && devuan_country(wanted, *section));
}

proof fn lemma_codes(section: TagSection, list: Seq<String>)
    ensures
        codes_hold(section, list) == in_all(section, texts(list)),
{
    let all = texts(list);
    if in_all(section, all) {
        assert forall|i: int| 0 <= i < list.len() implies section.tag("CountryCode"@) is Some
            && has_text(section.tag("CountryCode"@)->0, (#[trigger] list[i])@) by {
            assert(all[i] == list[i]@);
            assert(in_country(section, all[i]));
        }
        if list.len() > 0 {
            assert(all[0] == list[0]@);
            assert(in_country(section, all[0]));
        }
        assert(codes_hold(section, list));
    }
    if codes_hold(section, list) {
        assert forall|i: int| 0 <= i < all.len() implies in_country(section, #[trigger] all[i]) by {
            assert(all[i] == list[i]@);
        }
        assert(in_all(section, all));
    }
}

proof fn lemma_debian_mirrors(
    countries: Option<Seq<Seq<char>>>,
    sections: Seq<TagSection>,
    arches: Seq<String>,
    n: int,
    m: Seq<char>,
)
    ensures
        debian_mirrors(countries, sections, arches, n).contains(m) <==> exists|i: int|
            0 <= i < n && debian_mirror(countries, #[trigger] sections[i], arches) == Some(m),
    decreases n,
{
    if n > 0 {
        lemma_debian_mirrors(countries, sections, arches, n - 1, m);
        lemma_with_domain(
            debian_mirrors(countries, sections, arches, n - 1),
            debian_mirror(countries, sections[n - 1], arches),
            m,
        );
    }
}

proof fn lemma_devuan_mirrors(
    countries: Option<Seq<Seq<char>>>,
    sections: Seq<TagSection>,
    n: int,
    m: Seq<char>,
)
    ensures
        devuan_mirrors(countries, sections, n).contains(m) <==> exists|i: int|
            0 <= i < n && devuan_mirror(countries, #[trigger] sections[i]) == Some(m),
    decreases n,
{
    if n > 0 {
        lemma_devuan_mirrors(countries, sections, n - 1, m);
        lemma_with_domain(
            devuan_mirrors(countries, sections, n - 1),
            devuan_mirror(countries, sections[n - 1]),
            m,
        );
    }
}

proof fn lemma_ubuntu_mirrors(
    countries: Option<Seq<Seq<char>>>,
    arches: Seq<String>,
    country: Seq<char>,
    url: Seq<char>,
    entries: Seq<Seq<char>>,
    n: int,
    m: Seq<char>,
)
    ensures
        ubuntu_mirrors(countries, arches, country, url, entries, n).contains(m) <==> exists|i: int|
            0 <= i < n && ubuntu_mirror(
                countries,
                arches,
                #[trigger] entries[i],
                regex_group(country, entries[i]),
                regex_group(url, entries[i]),
            ) == Some(m),
    decreases n,
{
    if n > 0 {
        lemma_ubuntu_mirrors(countries, arches, country, url, entries, n - 1, m);
        lemma_with_domain(
            ubuntu_mirrors(countries, arches, country, url, entries, n - 1),
            ubuntu_mirror(
                countries,
                arches,
                entries[n - 1],
                regex_group(country, entries[n - 1]),
                regex_group(url, entries[n - 1]),
            ),
            m,
        );
    }
}

/// The mirrors of a distribution are those that its list gives, all of them and
/// each once.
pub proof fn law_every_mirror_is_found(
    config: &Config,
    countries: &Option<Vec<String>>,
    regex: &NalaRegex,
    distro: &str,
    response: &str,
    sections: &Vec<TagSection>,
    r: Vec<String>,
    m: Seq<char>,
)
    requires
        call_ensures(fetch_mirrors, (config, countries, regex, distro, response, sections), r),
    ensures
        texts(r@).no_duplicates(),
        distro@ == "debian"@ ==> (texts(r@).contains(m) <==> exists|i: int|
            0 <= i < sections@.len() && debian_mirror(
                texts_opt(*countries),
                #[trigger] sections@[i],
                config.apt.architectures@,
            ) == Some(m)),
        distro@ == "devuan"@ ==> (texts(r@).contains(m) <==> exists|i: int|
            0 <= i < sections@.len() && devuan_mirror(
                texts_opt(*countries),
                #[trigger] sections@[i],
            ) == Some(m)),
        distro@ == "ubuntu"@ ==> (texts(r@).contains(m) <==> exists|i: int|
            0 <= i < split_on(response@, "<item>"@).len() && ubuntu_mirror(
                texts_opt(*countries),
                config.apt.architectures@,
                #[trigger] split_on(response@, "<item>"@)[i],
                regex_group(regex.ubuntu_country@, split_on(response@, "<item>"@)[i]),
                regex_group(regex.ubuntu_url@, split_on(response@, "<item>"@)[i]),
            ) == Some(m)),
{
    reveal_strlit("debian");
    reveal_strlit("devuan");
    reveal_strlit("ubuntu");
    assert("ubuntu"@[0] != "debian"@[0]);
    assert("ubuntu"@[0] != "devuan"@[0]);
    assert("devuan"@[2] != "debian"@[2]);
    let entries = split_on(response@, "<item>"@);
    lemma_debian_mirrors(
        texts_opt(*countries),
        sections@,
        config.apt.architectures@,
        sections@.len() as int,
        m,
    );
    lemma_devuan_mirrors(texts_opt(*countries), sections@, sections@.len() as int, m);
    lemma_ubuntu_mirrors(
        texts_opt(*countries),
        config.apt.architectures@,
        regex.ubuntu_country@,
        regex.ubuntu_url@,
        entries,
        entries.len() as int,
        m,
    );
}

/// The mirrors that are not among the sources yet are kept, in order, and no
/// others.
pub proof fn law_new_mirrors_are_kept(mirrors: &Vec<String>, sources: &Vec<String>, r: Vec<String>)
    requires
        call_ensures(remove_known, (mirrors, sources), r),
    ensures
        texts(r@) == texts(mirrors@).filter(
            |m: Seq<char>|
                forall|i: int|
                    0 <= i < sources@.len() ==> !has_text(m, (#[trigger] sources@[i])@),
        ),
{
    let keep = |m: Seq<char>|
        forall|i: int| 0 <= i < sources@.len() ==> !has_text(m, (#[trigger] sources@[i])@);
    assert forall|m: Seq<char>| #[trigger] keep(m) == !is_known(m, texts(sources@)) by {
        if is_known(m, texts(sources@)) {
            let i = choose|i: int|
                0 <= i < texts(sources@).len() && has_text(m, #[trigger] texts(sources@)[i]);
            assert(has_text(m, sources@[i]@));
        } else {
            assert forall|i: int| 0 <= i < sources@.len() implies !has_text(
                m,
                (#[trigger] sources@[i])@,
            ) by {
                assert(texts(sources@)[i] == sources@[i]@);
            }
        }
    }
    lemma_unknown_mirrors(texts(mirrors@), texts(sources@), keep);
}

proof fn lemma_unknown_mirrors(
    mirrors: Seq<Seq<char>>,
    sources: Seq<Seq<char>>,
    keep: spec_fn(Seq<char>) -> bool,
)
    requires
        forall|m: Seq<char>| #[trigger] keep(m) == !is_known(m, sources),
    ensures
        unknown_mirrors(mirrors, sources) == mirrors.filter(keep),
    decreases mirrors.len(),
{
    reveal(Seq::filter);
    if mirrors.len() > 0 {
        lemma_unknown_mirrors(mirrors.drop_last(), sources, keep);
        assert(keep(mirrors.last()) == !is_known(mirrors.last(), sources));
    } else {
        assert(mirrors.filter(keep) =~= Seq::<Seq<char>>::empty());
    }
}

/// A mirror is tried over https first, and then as it is given, unless https
/// alone is allowed. A mirror that is given with https is tried once.
pub proof fn law_attempts(url: &str, https_only: bool, r: Vec<String>, rest: Seq<char>)
    requires
        call_ensures(score_attempts, (url, https_only), r),
    ensures
        r@.len() > 0,
        r@.len() == 2 <==> !https_only && !has_text(url@, "https://"@),
        r@.len() == 2 ==> r@[1]@ == url@,
        r@.len() <= 2,
        url@ == "http://"@ + rest && !has_text(rest, "http://"@) && crate::text::first_at(
            url@,
            "http://"@,
            0,
        ) ==> r@[0]@ == "https://"@ + rest,
        !has_text(url@, "http://"@) ==> r@[0]@ == url@,
{
    reveal_strlit("http://");
    let none: Seq<char> = Seq::empty();
    let all = texts(r@);
    assert(all.len() == r@.len());
    assert(all[0] == r@[0]@);
    if r@.len() == 2 {
        assert(all[1] == r@[1]@);
    }
    crate::text::law_replaced(url@, none, "http://"@, "https://"@);
    crate::text::law_replaced(none, rest, "http://"@, "https://"@);
    crate::text::law_replaced(rest, none, "http://"@, "https://"@);
    assert(none + "http://"@ + rest =~= "http://"@ + rest);
    assert(none + "https://"@ + rest =~= "https://"@ + rest);
}

/// The attempts go on with the next address until one succeeds or all were
/// tried, and the score is that of the one that succeeded.
pub proof fn law_attempts_go_on(
    url: &str,
    https_only: bool,
    all: Vec<String>,
    results: &Vec<Option<u128>>,
    next: Option<String>,
)
    requires
        call_ensures(score_attempts, (url, https_only), all),
        results@.len() <= all@.len(),
        call_ensures(next_attempt, (url, https_only, results), next),
    ensures
        next is Some <==> results@.len() < all@.len() && forall|i: int|
            0 <= i < results@.len() ==> (#[trigger] results@[i]) is None,
        next is Some ==> next->0@ == all@[results@.len() as int]@,
{
    assert(texts(all@).len() == all@.len());
    if results@.len() < all@.len() {
        assert(texts(all@)[results@.len() as int] == all@[results@.len() as int]@);
    }
    if !got_through(results@) {
        assert forall|i: int| 0 <= i < results@.len() implies (#[trigger] results@[i]) is None by {
            if results@[i] is Some {
                assert(got_through(results@));
            }
        }
    }
}

/// A mirror has the score of the first attempt that succeeded, and cannot be
/// reached if none did.
pub proof fn law_score(
    url: &str,
    https_only: bool,
    all: Vec<String>,
    results: &Vec<Option<u128>>,
    r: Result<(String, u128), NalaError>,
)
    requires
        call_ensures(score_attempts, (url, https_only), all),
        results@.len() <= all@.len(),
        results@.len() == all@.len() || exists|i: int|
            0 <= i < results@.len() && (#[trigger] results@[i]) is Some,
        call_ensures(net_select_score, (url, https_only, results), r),
    ensures
        r is Ok <==> exists|i: int| 0 <= i < results@.len() && (#[trigger] results@[i]) is Some,
        r matches Ok((address, score)) ==> exists|i: int|
            0 <= i < results@.len() && #[trigger] results@[i] == Some(score) && address@ == all@[i]@
                && forall|k: int| 0 <= k < i ==> (#[trigger] results@[k]) is None,
{
    let tried = texts(all@);
    assert(tried.len() == all@.len());
    match r {
        Ok((address, score)) => {
            let i = choose|i: int|
                0 <= i < results@.len() && #[trigger] results@[i] == Some(score) && address@
                    == attempts(url@, https_only)[i] && forall|k: int|
                    0 <= k < i ==> (#[trigger] results@[k]) is None;
            assert(tried[i] == all@[i]@);
            assert(results@[i] == Some(score) && address@ == all@[i]@);
        },
        Err(_) => {},
    }
}

/// The slash at the end of an address does not count.
pub proof fn law_scored_address(url: &str, r: String, rest: Seq<char>)
    requires
        call_ensures(score_url, (url,), r),
    ensures
        url@ == rest.push('/') ==> r@ == rest,
        url@.len() == 0 || url@.last() != '/' ==> r@ == url@,
{
    reveal_strlit("/");
    if url@ == rest.push('/') {
        assert(url@.subrange(url@.len() - 1, url@.len() as int) =~= "/"@);
        assert(url@.take(url@.len() - 1) =~= rest);
    }
    if url@.len() == 0 || url@.last() != '/' {
        if has_suffix(url@, "/"@) {
            assert(url@.subrange(url@.len() - 1, url@.len() as int)[0] == url@.last());
        }
    }
}

/// The mirrors come by their scores, the best first. None is lost, and those
/// with the same score keep their order.
pub proof fn law_best_mirrors_first(
    scored: Vec<(String, u128)>,
    r: Vec<(String, u128)>,
    x: (String, u128),
)
    requires
        call_ensures(score_handler, (scored,), r),
    ensures
        forall|i: int, j: int| 0 <= i < j < r@.len() ==> (#[trigger] r@[i]).1 <= (#[trigger] r@[j]).1,
        r@.to_multiset() == scored@.to_multiset(),
        r@.filter(|m: (String, u128)| m.1 == x.1) == scored@.filter(
            |m: (String, u128)| m.1 == x.1,
        ),
{
    crate::sort::lemma_stable(scored@, r@, x, |m: (String, u128)| m.1 == x.1);
}

/// A mirror that was chosen is asked for firmware in the directory of the
/// release.
pub proof fn law_addresses_of_firmware(chosen: &Vec<String>, release: &str, r: Vec<String>)
    requires
        call_ensures(non_free_urls, (chosen, release), r),
    ensures
        r@.len() == chosen@.len(),
        forall|i: int|
            0 <= i < chosen@.len() ==> (#[trigger] r@[i])@ == chosen@[i]@ + "/dists/"@ + release@
                + "/non-free-firmware/"@,
{
    assert(texts(r@).len() == r@.len());
    assert forall|i: int| 0 <= i < chosen@.len() implies (#[trigger] r@[i])@ == chosen@[i]@
        + "/dists/"@ + release@ + "/non-free-firmware/"@ by {
        assert(texts(r@)[i] == r@[i]@);
    }
}

/// Firmware is added to the components exactly if it is wanted and every mirror
/// has it.
pub proof fn law_firmware(config: &Config, component: String, values: &Vec<bool>, r: String)
    requires
        call_ensures(check_non_free, (config, component, values), r),
    ensures
        flag(*config, "non_free"@, false) && !values@.contains(false) ==> r@ == component@
            + " non-free-firmware"@,
        !flag(*config, "non_free"@, false) || values@.contains(false) ==> r@ == component@,
{
    if !values@.contains(false) {
        assert forall|i: int| 0 <= i < values@.len() implies #[trigger] values@[i] by {
            assert(values@.contains(values@[i]));
        }
    } else {
        let i = choose|i: int| 0 <= i < values@.len() && values@[i] == false;
        assert(!values@[i]);
    }
}

/// It is an error if no mirror is left, and nothing changes otherwise.
pub proof fn law_some_mirror_is_needed(
    scored: Vec<(String, u128)>,
    r: Result<Vec<(String, u128)>, NalaError>,
)
    requires
        call_ensures(check_scored, (scored,), r),
    ensures
        r is Ok <==> scored@.len() > 0,
        r is Ok ==> r->Ok_0 == scored,
{
}

/// The user is not asked exactly if the choice is automatic. All mirrors are
/// taken then, in order.
pub proof fn law_automatic_choice(
    config: &Config,
    scored: &Vec<(String, u128)>,
    r: Option<Vec<String>>,
)
    requires
        call_ensures(choose_unasked, (config, scored), r),
    ensures
        r is Some <==> config.auto is Some,
        r is Some ==> texts(r->0@) == scored@.map_values(|m: (String, u128)| m.0@),
{
    if r is Some {
        assert(texts(r->0@) =~= scored@.map_values(|m: (String, u128)| m.0@));
    }
}

proof fn lemma_uri_lines(chosen: Seq<String>, n: int)
    requires
        0 < n <= chosen.len(),
    ensures
        uri_lines(chosen, n) == crate::text::joined(texts(chosen).take(n), "\n      "@) + "\n"@,
    decreases n,
{
    reveal_strlit("\n      ");
    reveal_strlit("      ");
    reveal_strlit("\n");
    let all = texts(chosen);
    assert(all.take(n).last() == chosen[n - 1]@);
    assert(all.take(n).drop_last() =~= all.take(n - 1));
    if n > 1 {
        lemma_uri_lines(chosen, n - 1);
        let before = crate::text::joined(all.take(n - 1), "\n      "@);
        assert("\n"@ + "      "@ =~= "\n      "@);
        assert(before + "\n"@ + "      "@ + chosen[n - 1]@ + "\n"@ =~= before + "\n      "@
            + chosen[n - 1]@ + "\n"@);
    }
}

/// The file of sources names the mirrors that were chosen, in order: all of
/// them, or as many as were asked for. Without any there is no file.
pub proof fn law_file_of_sources(
    config: &Config,
    chosen: &Vec<String>,
    release: &str,
    component: &str,
    r: Result<String, NalaError>,
)
    requires
        call_ensures(fetch, (config, chosen, release, component), r),
    ensures
        r is Ok <==> chosen@.len() > 0,
        r is Ok && (config.auto is Some ==> config.auto->0 > 0) ==> {
            let n = if config.auto is Some && config.auto->0 < chosen@.len() {
                config.auto->0 as int
            } else {
                chosen@.len() as int
            };
            let types = if flag(*config, "sources"@, false) {
                "Types: deb\n"@
            } else {
                "Types: deb deb-src\n"@
            };
            r->Ok_0@ == "# Sources file built for nala\n\n"@ + types + "URIs: "@ + (
            crate::text::joined(texts(chosen@).take(n), "\n      "@) + "\n"@) + "Suites: "@
                + release@ + "\n"@ + "Components: "@ + component@ + "\n"@
        },
{
    if r is Ok && (config.auto is Some ==> config.auto->0 > 0) {
        lemma_uri_lines(chosen@, written(*config, chosen@));
    }
}

/// The addresses of the lists of mirrors, one for each distribution.
pub proof fn law_list_for_each_distribution(distro: &str, r: Option<String>)
    requires
        call_ensures(mirror_list_url, (distro,), r),
    ensures
        r is Some <==> distro@ == "debian"@ || distro@ == "ubuntu"@ || distro@ == "devuan"@,
        distro@ == "debian"@ ==> r->0@
            == "https://mirror-master.debian.org/status/Mirrors.masterlist"@,
        distro@ == "ubuntu"@ ==> r->0@ == "https://launchpad.net/ubuntu/+archivemirrors-rss"@,
        distro@ == "devuan"@ ==> r->0@ == "https://pkgmaster.devuan.org/mirror_list.txt"@,
{
    reveal_strlit("debian");
    reveal_strlit("devuan");
    reveal_strlit("ubuntu");
    assert("ubuntu"@[0] != "debian"@[0]);
    assert("ubuntu"@[0] != "devuan"@[0]);
    assert("devuan"@[2] != "debian"@[2]);
}

/// A mirror is scored by the release file of the release.
pub proof fn law_file_to_score(base_url: &str, release: &str, r: String)
    requires
        call_ensures(release_url, (base_url, release), r),
    ensures
        r@ == base_url@ + "/dists/"@ + release@ + "/Release"@,
{
}

/// The packages that can tell the distribution.
pub proof fn law_keyrings(r: Vec<String>)
    requires
        call_ensures(keyrings, (), r),
    ensures
        r@.len() == 4,
        r@[0]@ == "devuan-keyring"@,
        r@[1]@ == "debian-archive-keyring"@,
        r@[2]@ == "ubuntu-keyring"@,
        r@[3]@ == "apt"@,
{
    let all = texts(r@);
    assert(all.len() == r@.len());
    assert(all[0] == r@[0]@ && all[1] == r@[1]@ && all[2] == r@[2]@ && all[3] == r@[3]@);
}

/// A section is switched off by the three words for that, and by no other.
pub proof fn law_switched_off(lower: &str, r: bool)
    requires
        call_ensures(switches_off, (lower,), r),
    ensures
        r <==> lower@ == "no"@ || lower@ == "false"@ || lower@ == "0"@,
{
}

} // verus!

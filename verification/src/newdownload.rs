//! Downloading packages into the current directory.
use vstd::hash_map::StringHashMap;
use vstd::prelude::*;
use crate::apt::{entry, Version};
use crate::config::{colored, Config, Theme};
use crate::downloader::{
    allows_untrusted, complete_line, has_untrusted, is_untrusted, judge_untrusted,
    lemma_untrusted_step, lemma_with_text, listed_uris, no_hash, no_hash_error, stderr_line,
    untrusted_lines, written_line, wrong_checksum, DownloadPlan, Hasher, Trust,
};
use crate::error::{fails_with, NalaError};
use crate::mirror::{
    comes_from, find_mirror, mirror_name, mirror_source, mirrored, mirrored_uris, MirrorSource,
};
use crate::text::{
    add_text, decimal, decimal_of, find_text, has_prefix, push_text, replace_first, replaced_first,
    same_texts, sort_dedup, split_ended, split_on, split_terminator, starts_with, str_eq, strictly_sorted,
    text_opt, texts, with_text,
};
use crate::util::NalaRegex;

verus! {

/// The name of a version's package file: the last part of its path in the
/// archive, with the epoch of the version, where it has one, after the first
/// underscore. `None` where the record names no file.
pub open spec fn pkg_file_name(version: Version) -> Option<Seq<char>> {
    match version.record("Filename"@) {
        Some(path) => {
            let parts = split_ended(path, "/"@);
            if parts.len() == 0 {
                None
            } else {
                match find_text(version.version@, ":"@) {
                    Some(i) => Some(
                        replaced_first(
                            parts.last(),
                            "_"@,
                            "_"@ + version.version@.take(i) + "%3a"@,
                        ),
                    ),
                    None => Some(parts.last()),
                }
            }
        },
        None => None,
    }
}

/// Whether the record of a version names a file.
pub fn has_file_name(version: &Version) -> (r: bool)
    ensures
        r == (pkg_file_name(*version) is Some),
{
    match version.get_record("Filename") {
        Some(path) => {
            let parts = split_terminator(path.as_str(), "/");
            assert(texts(parts@).len() == parts@.len());
            parts.len() > 0
        },
        None => false,
    }
}

/// The name of a version's package file. The epoch is put in where it is
/// needed.
pub fn get_pkg_name(version: &Version) -> (r: String)
    requires
        pkg_file_name(*version) is Some,
    ensures
        pkg_file_name(*version) == Some(r@),
{
    let path = match version.get_record("Filename") {
        Some(p) => p,
        None => {
            return String::new();
        },
    };
    let parts = split_terminator(path.as_str(), "/");
    assert(texts(parts@).len() == parts@.len());
    let last: usize = parts.len() - 1;
    assert(texts(parts@).last() == parts@[last as int]@);
    match crate::text::find(version.version.as_str(), ":") {
        Some(i) => {
            let chars = crate::text::chars_of(version.version.as_str());
            let mut epoch = "_".to_owned();
            let number = crate::text::text_of(&chars, 0, i);
            assert(number@ =~= version.version@.take(i as int));
            epoch.append(number.as_str());
            epoch.append("%3a");
            replace_first(parts[last].as_str(), "_", epoch.as_str())
        },
        None => parts[last].clone(),
    }
}

/// The name of a package file holds no slash, unless the epoch of the version
/// does: it names a file in one directory.
pub proof fn law_file_name_has_no_slash(version: Version)
    requires
        pkg_file_name(version) is Some,
        match find_text(version.version@, ":"@) {
            Some(i) => !version.version@.take(i).contains('/'),
            None => true,
        },
    ensures
        !pkg_file_name(version)->0.contains('/'),
{
    reveal_strlit("/");
    reveal_strlit("_");
    reveal_strlit("%3a");
    let parts = split_ended(version.record("Filename"@)->0, "/"@);
    let pieces = split_on(version.record("Filename"@)->0, "/"@);
    lemma_pieces_lack_slash(version.record("Filename"@)->0);
    let last = parts.last();
    assert(last == pieces[parts.len() - 1]);
    assert(!last.contains('/'));
    if let Some(i) = find_text(version.version@, ":"@) {
        let number = version.version@.take(i);
        let epoch = "_"@ + number + "%3a"@;
        assert forall|k: int| 0 <= k < epoch.len() implies epoch[k] != '/' by {
            if 1 <= k < 1 + number.len() {
                assert(epoch[k] == number[k - 1]);
            }
        }
        if let Some(j) = find_text(last, "_"@) {
            crate::text::lemma_found(last, "_"@);
            let name = last.take(j) + epoch + last.skip(j + "_"@.len());
            assert forall|k: int| 0 <= k < name.len() implies name[k] != '/' by {
                if k < j {
                    assert(name[k] == last[k]);
                } else if k >= j + epoch.len() {
                    assert(name[k] == last[k - epoch.len() + 1]);
                }
            }
        }
    }
}

proof fn lemma_pieces_lack_slash(s: Seq<char>)
    ensures
        split_on(s, "/"@).len() > 0,
        forall|i: int|
            0 <= i < split_on(s, "/"@).len() ==> !(#[trigger] split_on(s, "/"@)[i]).contains('/'),
    decreases s.len(),
{
    reveal_strlit("/");
    crate::text::lemma_found(s, "/"@);
    match find_text(s, "/"@) {
        Some(i) => {
            let rest = s.skip(i + 1);
            lemma_pieces_lack_slash(rest);
            let first = s.take(i);
            assert forall|k: int| 0 <= k < first.len() implies first[k] != '/' by {
                if first[k] == '/' {
                    assert(s.subrange(k, k + 1) =~= "/"@);
                    assert(crate::text::occurs_at(s, "/"@, k));
                }
            }
            let pieces = split_on(s, "/"@);
            assert(pieces == seq![first] + split_on(rest, "/"@));
            assert forall|k: int| 0 <= k < pieces.len() implies !(#[trigger] pieces[k]).contains('/')
                by {
                if k > 0 {
                    assert(pieces[k] == split_on(rest, "/"@)[k - 1]);
                }
            }
        },
        None => {
            assert forall|k: int| 0 <= k < s.len() implies s[k] != '/' by {
                if s[k] == '/' {
                    assert(s.subrange(k, k + 1) =~= "/"@);
                    assert(crate::text::occurs_at(s, "/"@, k));
                }
            }
        },
    }
}

/// Turns what the index files say of a version into addresses that can be
/// downloaded from.
pub struct UriFilter {
    /// The lists of mirrors that were read, by their names.
    pub mirrors: StringHashMap<String>,
    pub regex: NalaRegex,
    /// The packages that cannot be authenticated, in colour, each once.
    pub untrusted: Vec<String>,
}

/// How far the files of a version have been worked through.
#[derive(Debug)]
pub struct UriWalk {
    /// The file that is next.
    pub place: usize,
    /// The addresses of the files before it.
    pub filtered: Vec<String>,
}

/// What the files of a version need next.
#[derive(Debug)]
pub enum UriStep {
    /// Read a list of mirrors, add it under its name, and go on.
    Mirror { name: String, source: MirrorSource },
    /// Nothing: the addresses are complete.
    Finished,
}

/// The addresses of one file of a version. A file on this machine has none.
/// `None` where it needs a list of mirrors that has not been read.
pub open spec fn file_uris(
    mirrors: Map<Seq<char>, String>,
    pattern: Seq<char>,
    version: Version,
    i: int,
) -> Option<Seq<Seq<char>>> {
    let uri = version.files@[i].uri@;
    if !version.files@[i].file.downloadable || has_prefix(uri, "file:"@) {
        Some(Seq::empty())
    } else {
        match mirror_name(pattern, uri) {
            Some(name) => if !mirrors.dom().contains(name) {
                None
            } else {
                match mirrored(mirrors[name]@, version) {
                    Some(uris) => Some(uris),
                    None => Some(seq![uri]),
                }
            },
            None => Some(seq![uri]),
        }
    }
}

/// The addresses of the files of a version from `from` up to `to`.
pub open spec fn uris_between(
    mirrors: Map<Seq<char>, String>,
    pattern: Seq<char>,
    version: Version,
    from: int,
    to: int,
) -> Option<Seq<Seq<char>>>
    decreases to - from,
{
    if to <= from {
        Some(Seq::empty())
    } else {
        match (
            uris_between(mirrors, pattern, version, from, to - 1),
            file_uris(mirrors, pattern, version, to - 1),
        ) {
            (Some(before), Some(uris)) => Some(before + uris),
            _ => None,
        }
    }
}

/// What is done about the next file of a version, and how far the walk is then.
/// `list` is the list of mirrors that the file's address stands for.
pub open spec fn file_taken(
    mirrors: Map<Seq<char>, String>,
    version: Version,
    list: Option<Seq<char>>,
    walk: UriWalk,
    r: Option<UriStep>,
    after: UriWalk,
) -> bool {
    let file = version.files@[walk.place as int].file;
    let uri = version.files@[walk.place as int].uri@;
    let remote = file.downloadable && !has_prefix(uri, "file:"@);
    if remote && list is Some && !mirrors.dom().contains(list->0) {
        &&& after == walk
        &&& r is Some
        &&& r->0 is Mirror
        &&& r->0->name@ == list->0
        &&& comes_from(r->0->source, uri, list->0)
    } else {
        &&& r is None
        &&& after.place == walk.place + 1
        &&& texts(after.filtered@) == texts(walk.filtered@) + if remote {
            listed_uris(mirrors, version, list, uri)
        } else {
            Seq::empty()
        }
    }
}

impl UriWalk {
    /// The start of a version's files.
    pub fn new() -> (r: UriWalk)
        ensures
            r.place == 0,
            texts(r.filtered@) == Seq::<Seq<char>>::empty(),
    {
        let r = UriWalk { place: 0, filtered: Vec::new() };
        assert(texts(r.filtered@) =~= Seq::empty());
        r
    }
}

impl UriFilter {
    /// No package is recorded twice.
    pub open spec fn wf(self) -> bool {
        texts(self.untrusted@).no_duplicates()
    }

    /// A filter that has read no list of mirrors.
    pub fn new(regex: NalaRegex) -> (r: UriFilter)
        ensures
            r.wf(),
            r.mirrors@ == Map::<Seq<char>, String>::empty(),
            r.regex == regex,
            texts(r.untrusted@) == Seq::<Seq<char>>::empty(),
    {
        let r = UriFilter { mirrors: StringHashMap::new(), regex, untrusted: Vec::new() };
        assert(texts(r.untrusted@) =~= Seq::empty());
        r
    }

    /// Adds the addresses of a version on the mirrors of a list. Nothing is
    /// added and `None` is returned where the list is not known, or names
    /// mirrors and the version has no file on them.
    pub fn get_from_mirrors(&self, version: &Version, uris: &mut Vec<String>, filename: &str) -> (r:
        Option<()>)
        ensures
            r is Some <==> self.mirrors@.dom().contains(filename@) && mirrored(
                self.mirrors@[filename@]@,
                *version,
            ) is Some,
            texts(final(uris)@) == if r is Some {
                texts(old(uris)@) + mirrored(self.mirrors@[filename@]@, *version)->0
            } else {
                texts(old(uris)@)
            },
    {
        let list = match self.mirrors.get(filename) {
            Some(list) => list,
            None => {
                return None;
            },
        };
        match mirrored_uris(list.as_str(), version) {
            Some(mut found) => {
                let ghost before = uris@;
                let ghost added = found@;
                uris.append(&mut found);
                assert(texts(uris@) =~= texts(before) + texts(added));
                Some(())
            },
            None => None,
        }
    }

    /// Records a list of mirrors that was read.
    pub fn add_to_mirrors(&mut self, filename: String, list: String)
        ensures
            old(self).wf() ==> final(self).wf(),
            final(self).mirrors@ == old(self).mirrors@.insert(filename@, list),
            final(self).regex == old(self).regex,
            final(self).untrusted == old(self).untrusted,
    {
        self.mirrors.insert(filename, list);
    }

    /// Deals with the next file of a version. `found` is the list of mirrors that
    /// its address stands for. A list that has not been read is asked for, and
    /// the file stays the next.
    pub fn take_file(
        &mut self,
        version: &Version,
        config: &Config,
        walk: &mut UriWalk,
        found: Option<String>,
    ) -> (r: Option<UriStep>)
        requires
            old(walk).place < version.files@.len(),
        ensures
            old(self).wf() ==> final(self).wf(),
            final(self).mirrors == old(self).mirrors,
            final(self).regex == old(self).regex,
            texts(final(self).untrusted@) == if is_untrusted(
                version.files@[old(walk).place as int].file,
            ) {
                with_text(
                    texts(old(self).untrusted@),
                    colored(*config, Theme::Error, version.package@),
                )
            } else {
                texts(old(self).untrusted@)
            },
            file_taken(
                old(self).mirrors@,
                *version,
                text_opt(found),
                *old(walk),
                r,
                *final(walk),
            ),
    {
        let ghost before = *walk;
        let place: usize = walk.place;
        let total: usize = version.files.len();
        assert(place < total);
        let vf = &version.files[place];
        assert(texts(before.filtered@) + Seq::<Seq<char>>::empty() =~= texts(before.filtered@));
        if !vf.file.downloadable {
            walk.place = place + 1;
            return None;
        }
        // Make sure the File is trusted. Erroring is handled later.
        if !vf.file.trusted {
            let item = config.color(Theme::Error, version.package.as_str());
            add_text(&mut self.untrusted, item);
        }
        // Sending a file path through the downloader will cause it to lock up
        if starts_with(vf.uri.as_str(), "file:") {
            walk.place = place + 1;
            return None;
        }
        let mut uris: Vec<String> = Vec::new();
        assert(texts(uris@) =~= Seq::empty());
        let mut known = false;
        if let Some(filename) = found {
            if !self.mirrors.contains_key(filename.as_str()) {
                let source = mirror_source(vf.uri.as_str(), filename.as_str());
                return Some(UriStep::Mirror { name: filename, source });
            }
            known = self.get_from_mirrors(version, &mut uris, filename.as_str()).is_some();
        }
        // If none of the conditions meet then we just add it to the uris
        if !known {
            push_text(&mut uris, vf.uri.clone());
            assert(texts(uris@) =~= seq![vf.uri@]);
        }
        let ghost added = uris@;
        walk.filtered.append(&mut uris);
        assert(texts(walk.filtered@) =~= texts(before.filtered@) + texts(added));
        walk.place = place + 1;
        None
    }

    /// Works through the files of a version until one needs a list of mirrors,
    /// or all of them have their addresses. Packages that cannot be
    /// authenticated are recorded.
    pub fn uris(&mut self, version: &Version, config: &Config, walk: &mut UriWalk) -> (r: UriStep)
        requires
            old(walk).place <= version.files@.len(),
        ensures
            old(self).wf() ==> final(self).wf(),
            old(walk).place <= final(walk).place <= version.files@.len(),
            final(self).mirrors == old(self).mirrors,
            final(self).regex == old(self).regex,
            ({
                let mirrors = old(self).mirrors@;
                let pattern = old(self).regex.mirror@;
                let place = final(walk).place as int;
                let added = uris_between(mirrors, pattern, *version, old(walk).place as int, place);
                &&& added is Some
                &&& texts(final(walk).filtered@) == texts(old(walk).filtered@) + added->0
                &&& match r {
                    UriStep::Finished => place == version.files@.len(),
                    UriStep::Mirror { name, source } => {
                        let uri = version.files@[place].uri@;
                        &&& place < version.files@.len()
                        &&& file_uris(mirrors, pattern, *version, place) is None
                        &&& mirror_name(pattern, uri) == Some(name@)
                        &&& comes_from(source, uri, name@)
                    },
                }
                &&& texts(final(self).untrusted@) == if has_untrusted(
                    *version,
                    old(walk).place as int,
                    if place < version.files@.len() {
                        place + 1
                    } else {
                        place
                    },
                ) {
                    with_text(
                        texts(old(self).untrusted@),
                        colored(*config, Theme::Error, version.package@),
                    )
                } else {
                    texts(old(self).untrusted@)
                }
            }),
    {
        let ghost start = *walk;
        let ghost known = texts(self.untrusted@);
        let ghost name = colored(*config, Theme::Error, version.package@);
        let ghost mirrors = self.mirrors@;
        let ghost pattern = self.regex.mirror@;
        assert(!has_untrusted(*version, start.place as int, start.place as int));
        assert(texts(walk.filtered@) + Seq::<Seq<char>>::empty() =~= texts(walk.filtered@));
        while walk.place < version.files.len()
            invariant
                old(self).wf() ==> self.wf(),
                start == *old(walk),
                start.place <= walk.place <= version.files@.len(),
                uris_between(
                    mirrors,
                    pattern,
                    *version,
                    start.place as int,
                    walk.place as int,
                ) is Some,
                texts(walk.filtered@) == texts(start.filtered@) + uris_between(
                    mirrors,
                    pattern,
                    *version,
                    start.place as int,
                    walk.place as int,
                )->0,
                self.mirrors == old(self).mirrors,
                self.regex == old(self).regex,
                mirrors == self.mirrors@,
                pattern == self.regex.mirror@,
                known == texts(old(self).untrusted@),
                name == colored(*config, Theme::Error, version.package@),
                texts(self.untrusted@) == if has_untrusted(
                    *version,
                    start.place as int,
                    walk.place as int,
                ) {
                    with_text(known, name)
                } else {
                    known
                },
            decreases version.files@.len() - walk.place,
        {
            let place: usize = walk.place;
            let ghost done = uris_between(
                mirrors,
                pattern,
                *version,
                start.place as int,
                place as int,
            )->0;
            proof {
                lemma_untrusted_step(*version, start.place as int, place as int);
                lemma_with_text(known, name);
            }
            let found = if version.files[place].file.downloadable {
                find_mirror(&self.regex.mirror, version.files[place].uri.as_str())
            } else {
                None
            };
            if let Some(step) = self.take_file(version, config, walk, found) {
                return step;
            }
            proof {
                let added = file_uris(mirrors, pattern, *version, place as int);
                assert(added is Some);
                assert((texts(start.filtered@) + done) + added->0 =~= texts(start.filtered@) + (done
                    + added->0));
            }
        }
        UriStep::Finished
    }

    /// If there are any packages that cannot be authenticated, checks whether
    /// fetching them is allowed.
    pub fn maybe_untrusted_error(&self, config: &Config) -> (r: Trust)
        ensures
            match r {
                Trust::Trusted => self.untrusted@.len() == 0,
                Trust::Allowed(lines) => self.untrusted@.len() > 0 && allows_untrusted(*config)
                    && texts(lines@) == untrusted_lines(*config, texts(self.untrusted@)).push(
                    stderr_line(
                        *config,
                        Theme::Notice,
                        "Configuration is set to allow installation of unauthenticated packages."@,
                    ),
                ),
                Trust::Refused(lines, error) => self.untrusted@.len() > 0 && !allows_untrusted(
                    *config,
                ) && texts(lines@) == untrusted_lines(*config, texts(self.untrusted@))
                    && error.message@ == "Some packages were unable to be authenticated."@,
            },
    {
        judge_untrusted(
            config,
            &self.untrusted,
            NalaError::new("Some packages were unable to be authenticated."),
        )
    }
}

/// A file on this machine is never among the addresses that are downloaded.
pub proof fn law_no_local_files(
    mirrors: Map<Seq<char>, String>,
    pattern: Seq<char>,
    version: Version,
    i: int,
)
    requires
        0 <= i < version.files@.len(),
        has_prefix(version.files@[i].uri@, "file:"@),
    ensures
        file_uris(mirrors, pattern, version, i) == Some(Seq::<Seq<char>>::empty()),
{
}

/// A list of mirrors that is read later leaves the addresses that are known as
/// they are.
pub proof fn law_more_mirrors_keep_uris(
    mirrors: Map<Seq<char>, String>,
    pattern: Seq<char>,
    version: Version,
    from: int,
    to: int,
    name: Seq<char>,
    list: String,
)
    requires
        !mirrors.dom().contains(name),
    ensures
        uris_between(mirrors, pattern, version, from, to) is Some ==> uris_between(
            mirrors.insert(name, list),
            pattern,
            version,
            from,
            to,
        ) == uris_between(mirrors, pattern, version, from, to),
    decreases to - from,
{
    if from < to {
        law_more_mirrors_keep_uris(mirrors, pattern, version, from, to - 1, name, list);
    }
}

/// A package that is to be downloaded.
#[derive(Debug)]
pub struct Uri {
    pub uris: Vec<String>,
    pub size: u64,
    /// Where the package goes.
    pub archive: String,
    /// Where the package is written while it is being downloaded.
    pub destination: String,
    pub hash_type: String,
    pub hash_value: String,
    pub filename: String,
}

/// The algorithm and the hash that a version is checked by: the strongest that
/// there is.
pub open spec fn hash_pair(version: Version) -> Option<(Seq<char>, Seq<char>)> {
    match entry(version.hashes@, "sha512"@) {
        Some(hash) => Some(("sha512"@, hash)),
        None => match entry(version.hashes@, "sha256"@) {
            Some(hash) => Some(("sha256"@, hash)),
            None => None,
        },
    }
}

/// The algorithm and the hash that a version is checked by. Only SHA-512 and
/// SHA-256 are fit for that.
pub fn get_hash(config: &Config, version: &Version) -> (r: Result<(String, String), NalaError>)
    ensures
        match hash_pair(*version) {
            Some((hash_type, hash)) => r is Ok && r->Ok_0.0@ == hash_type && r->Ok_0.1@ == hash,
            None => fails_with(r, no_hash(*config, *version)),
        },
{
    if let Some(hash) = version.hash("sha512") {
        return Ok(("sha512".to_owned(), hash.clone()));
    }
    if let Some(hash) = version.hash("sha256") {
        return Ok(("sha256".to_owned(), hash.clone()));
    }
    Err(no_hash_error(config, version))
}

impl Uri {
    /// The download of a version. `uris` are its addresses.
    pub fn from_version(version: &Version, config: &Config, uris: Vec<String>, archive: &str) -> (r:
        Result<Uri, NalaError>)
        requires
            pkg_file_name(*version) is Some,
        ensures
            match hash_pair(*version) {
                Some((hash_type, hash)) => {
                    let filename = pkg_file_name(*version)->0;
                    &&& r is Ok
                    &&& r->Ok_0.uris == uris
                    &&& r->Ok_0.size == version.size
                    &&& r->Ok_0.archive@ == archive@ + filename
                    &&& r->Ok_0.destination@ == archive@ + "/partial/"@ + filename
                    &&& r->Ok_0.hash_type@ == hash_type
                    &&& r->Ok_0.hash_value@ == hash
                    &&& r->Ok_0.filename@ == filename
                },
                None => fails_with(r, no_hash(*config, *version)),
            },
    {
        let (hash_type, hash_value) = match get_hash(config, version) {
            Ok(pair) => pair,
            Err(e) => {
                return Err(e);
            },
        };
        let filename = get_pkg_name(version);
        let mut destination = archive.to_owned();
        destination.append("/partial/");
        destination.append(filename.as_str());
        let mut path = archive.to_owned();
        path.append(filename.as_str());
        Ok(
            Uri {
                uris,
                size: version.size,
                archive: path,
                destination,
                hash_type,
                hash_value,
                filename,
            },
        )
    }

    /// Checks the hash of what was downloaded.
    pub fn check_hash(&self, other: &str) -> (r: Result<(), NalaError>)
        ensures
            if other@ == self.hash_value@ {
                r is Ok
            } else {
                fails_with(r, wrong_checksum(self.filename@))
            },
    {
        if str_eq(other, self.hash_value.as_str()) {
            return Ok(());
        }
        let mut message = "Checksum did not match for ".to_owned();
        message.append(self.filename.as_str());
        Err(NalaError::from_string(message))
    }

    /// What hashes the download: SHA-256 where that is asked for, else SHA-512.
    pub fn hasher(&self) -> (r: Hasher)
        ensures
            r@ == Seq::<u8>::empty(),
            r.is_long() == (self.hash_type@ != "sha256"@),
    {
        Hasher::new(!str_eq(self.hash_type.as_str(), "sha256"))
    }
}

/// What happens in a download, for the one who watches it.
#[derive(Debug, Clone, Copy, PartialEq, Eq, Structural)]
pub enum Message {
    Finished,
    Error,
    Update(u64),
}

/// What a download that has ended says.
pub fn init_download(result: &Result<(), NalaError>) -> (r: Message)
    ensures
        r == if *result is Ok {
            Message::Finished
        } else {
            Message::Error
        },
{
    match result {
        Ok(()) => Message::Finished,
        Err(_) => Message::Error,
    }
}

/// What is done about a message.
#[derive(Debug, Clone, Copy, PartialEq, Eq, Structural)]
pub enum RunAction {
    Nothing,
    /// Move the progress bar on by so many bytes.
    Advance(u64),
    /// Stop.
    Stop,
}

/// How many downloads have finished.
#[derive(Debug, Clone, Copy, PartialEq, Eq, Structural)]
pub struct Downloader {
    pub current: usize,
    pub total: usize,
}

impl Downloader {
    /// A run of so many downloads.
    pub fn new(total: usize) -> (r: Downloader)
        ensures
            r.current == 0,
            r.total == total,
    {
        Downloader { current: 0, total }
    }

    /// Takes a message from a download. The run stops when all have finished,
    /// or one has failed.
    pub fn run(&mut self, message: Message) -> (r: RunAction)
        requires
            old(self).current < usize::MAX,
        ensures
            final(self).total == old(self).total,
            final(self).current == if message == Message::Finished {
                old(self).current + 1
            } else {
                old(self).current as int
            },
            r == match message {
                Message::Update(bytes) => RunAction::Advance(bytes),
                Message::Finished => if final(self).current == final(self).total {
                    RunAction::Stop
                } else {
                    RunAction::Nothing
                },
                Message::Error => RunAction::Stop,
            },
    {
        match message {
            Message::Update(bytes) => RunAction::Advance(bytes),
            Message::Finished => {
                self.current = self.current + 1;
                if self.current == self.total {
                    RunAction::Stop
                } else {
                    RunAction::Nothing
                }
            },
            Message::Error => RunAction::Stop,
        }
    }

    /// What stands beside the progress bar.
    pub fn status(&self) -> (r: Vec<String>)
        ensures
            texts(r@) == seq![
                "Total Packages:"@,
                " "@ + decimal(self.current as nat) + "/"@ + decimal(self.total as nat) + ", "@,
            ],
    {
        let mut counts = " ".to_owned();
        counts.append(decimal_of(self.current as u128).as_str());
        counts.append("/");
        counts.append(decimal_of(self.total as u128).as_str());
        counts.append(", ");
        let r = vec!["Total Packages:".to_owned(), counts];
        assert(texts(r@) =~= seq![
            "Total Packages:"@,
            " "@ + decimal(self.current as nat) + "/"@ + decimal(self.total as nat) + ", "@,
        ]);
        r
    }
}

/// The names that are downloaded: each once, in order. A package that is given
/// twice would be downloaded twice.
pub fn download(config: &Config) -> (r: Result<Vec<String>, NalaError>)
    ensures
        if config.vec_map@.dom().contains("pkg_names"@) {
            &&& r is Ok
            &&& strictly_sorted(texts(r->Ok_0@))
            &&& same_texts(texts(r->Ok_0@), texts(config.vec_map@["pkg_names"@]@))
        } else {
            fails_with(r, "You must specify a package"@)
        },
{
    match config.pkg_names() {
        Some(names) => Ok(sort_dedup(names)),
        None => Err(NalaError::new("You must specify a package")),
    }
}

/// The errors for names that stand for no package.
pub open spec fn missing_lines(config: Config, not_found: Seq<Seq<char>>) -> Seq<Seq<char>> {
    Seq::new(
        not_found.len(),
        |i: int| stderr_line(config, Theme::Error, not_found[i] + " not found"@),
    )
}

/// The errors for names that stand for no package. A download is only begun
/// when there are none.
pub fn check_found(config: &Config, plan: &DownloadPlan) -> (r: Result<(), (Vec<String>, NalaError)>)
    ensures
        if plan.not_found@.len() == 0 {
            r is Ok
        } else {
            &&& r is Err
            &&& texts(r->Err_0.0@) == missing_lines(*config, texts(plan.not_found@))
            &&& r->Err_0.1.message@ == "Some packages were not found."@
        },
{
    if plan.not_found.len() == 0 {
        return Ok(());
    }
    let ghost all = missing_lines(*config, texts(plan.not_found@));
    let mut lines: Vec<String> = Vec::new();
    let mut i: usize = 0;
    assert(texts(lines@) =~= all.take(0));
    while i < plan.not_found.len()
        invariant
            i <= plan.not_found@.len(),
            all == missing_lines(*config, texts(plan.not_found@)),
            texts(lines@) == all.take(i as int),
        decreases plan.not_found@.len() - i,
    {
        let mut text = plan.not_found[i].clone();
        text.append(" not found");
        push_text(&mut lines, config.stderr(Theme::Error, text.as_str()));
        assert(all.take(i + 1) =~= all.take(i as int).push(all[i as int]));
        i = i + 1;
    }
    assert(all.take(i as int) =~= all);
    Err((lines, NalaError::new("Some packages were not found.")))
}

/// What the user is told when the downloads are complete.
pub fn download_summary(config: &Config, finished: &Vec<Uri>) -> (r: Vec<String>)
    ensures
        texts(r@) == seq!["Downloads Complete:"@] + Seq::new(
            finished@.len(),
            |i: int| complete_line(*config, finished@[i].filename@, finished@[i].archive@),
        ),
{
    let mut r: Vec<String> = Vec::new();
    let ghost lines = Seq::new(
        finished@.len(),
        |i: int| complete_line(*config, finished@[i].filename@, finished@[i].archive@),
    );
    r.push("Downloads Complete:".to_owned());
    assert(texts(r@) =~= seq!["Downloads Complete:"@] + lines.take(0));
    let mut i: usize = 0;
    while i < finished.len()
        invariant
            i <= finished@.len(),
            lines == Seq::new(
                finished@.len(),
                |k: int| complete_line(*config, finished@[k].filename@, finished@[k].archive@),
            ),
            texts(r@) == seq!["Downloads Complete:"@] + lines.take(i as int),
        decreases finished@.len() - i,
    {
        push_text(
            &mut r,
            written_line(config, finished[i].filename.as_str(), finished[i].archive.as_str()),
        );
        assert(seq!["Downloads Complete:"@] + lines.take(i + 1) =~= (seq!["Downloads Complete:"@]
            + lines.take(i as int)).push(lines[i as int]));
        i = i + 1;
    }
    assert(lines.take(i as int) =~= lines);
    r
}

/// The file of a version has the name that the archive gives it. The epoch of
/// the version, which the archive leaves out, is put in before the version.
pub proof fn law_file_name_of_a_version(
    version: &Version,
    r: String,
    dir: Seq<char>,
    name: Seq<char>,
    rest: Seq<char>,
    epoch: Seq<char>,
    number: Seq<char>,
)
    requires
        pkg_file_name(*version) is Some,
        call_ensures(get_pkg_name, (version,), r),
        version.record("Filename"@) == Some(dir + "/"@ + (name + "_"@ + rest)),
        !name.contains('/') && !rest.contains('/') && !name.contains('_'),
        !epoch.contains(':'),
    ensures
        version.version@ == epoch + ":"@ + number ==> r@ == name + ("_"@ + epoch + "%3a"@) + rest,
        !version.version@.contains(':') ==> r@ == name + "_"@ + rest,
{
    reveal_strlit("/");
    reveal_strlit("_");
    reveal_strlit(":");
    let file = name + "_"@ + rest;
    let none: Seq<char> = Seq::empty();
    assert(!file.contains('/')) by {
        if file.contains('/') {
            let i = choose|i: int| 0 <= i < file.len() && file[i] == '/';
            if i < name.len() {
                assert(name[i] == '/');
            } else if i > name.len() {
                assert(rest[i - name.len() - 1] == '/');
            }
        }
    }
    crate::text::lemma_split_last(dir, file, "/"@);
    crate::text::law_split_at_the_first(file, none, "/"@);
    let parts = crate::text::split_on(dir + "/"@ + file, "/"@);
    assert(parts.last() == file);
    lemma_first_mark(name, rest, "_"@);
    assert(file.take(name.len() as int) =~= name);
    assert(file.skip(name.len() as int + 1) =~= rest);
    if version.version@ == epoch + ":"@ + number {
        lemma_first_mark(epoch, number, ":"@);
        assert(version.version@.take(epoch.len() as int) =~= epoch);
    }
    if !version.version@.contains(':') {
        crate::text::lemma_found(version.version@, ":"@);
        assert(find_text(version.version@, ":"@) is None) by {
            if find_text(version.version@, ":"@) is Some {
                let i = find_text(version.version@, ":"@)->0;
                assert(version.version@.subrange(i, i + 1)[0] == version.version@[i]);
                assert(version.version@.contains(version.version@[i]));
            }
        }
    }
}

proof fn lemma_first_mark(a: Seq<char>, b: Seq<char>, sep: Seq<char>)
    requires
        sep.len() == 1,
        !a.contains(sep[0]),
    ensures
        find_text(a + sep + b, sep) == Some(a.len() as int),
{
    let s = a + sep + b;
    assert(crate::text::occurs_at(s, sep, a.len() as int)) by {
        assert(s.subrange(a.len() as int, 1 + a.len() as int) =~= sep);
    }
    assert forall|j: int| 0 <= j < a.len() implies !crate::text::occurs_at(s, sep, j) by {
        if crate::text::occurs_at(s, sep, j) {
            assert(s.subrange(j, j + 1)[0] == s[j]);
            assert(a.contains(a[j]));
        }
    }
    crate::text::lemma_find_text(s, sep, a.len() as int);
}

/// The addresses of a file of a version, where the lists of mirrors that it names
/// are known. A file on this machine has none.
pub open spec fn addresses(
    mirrors: Map<Seq<char>, String>,
    pattern: Seq<char>,
    version: Version,
    file: crate::apt::VersionFile,
) -> Seq<Seq<char>> {
    if !file.file.downloadable || has_prefix(file.uri@, "file:"@) {
        Seq::empty()
    } else {
        match mirror_name(pattern, file.uri@) {
            Some(name) => match mirrored(mirrors[name]@, version) {
                Some(uris) => uris,
                None => seq![file.uri@],
            },
            None => seq![file.uri@],
        }
    }
}

/// The addresses of a version are those of its files, one after another.
pub proof fn law_addresses_of_files(
    mirrors: Map<Seq<char>, String>,
    pattern: Seq<char>,
    version: Version,
    n: int,
)
    requires
        0 <= n <= version.files@.len(),
    ensures
        uris_between(mirrors, pattern, version, 0, n) is Some <==> forall|i: int|
            0 <= i < n && (#[trigger] version.files@[i]).file.downloadable && !has_prefix(
                version.files@[i].uri@,
                "file:"@,
            ) && mirror_name(pattern, version.files@[i].uri@) is Some ==> mirrors.dom().contains(
                mirror_name(pattern, version.files@[i].uri@)->0,
            ),
        uris_between(mirrors, pattern, version, 0, n) is Some ==> uris_between(
            mirrors,
            pattern,
            version,
            0,
            n,
        ) == Some(
            version.files@.take(n).map_values(
                |f: crate::apt::VersionFile| addresses(mirrors, pattern, version, f),
            ).flatten(),
        ),
    decreases n,
{
    let make = |f: crate::apt::VersionFile| addresses(mirrors, pattern, version, f);
    let files = version.files@;
    if n <= 0 {
        assert(files.take(n).map_values(make) =~= Seq::<Seq<Seq<char>>>::empty());
        assert(Seq::<Seq<Seq<char>>>::empty().flatten() =~= Seq::<Seq<char>>::empty());
    } else {
        law_addresses_of_files(mirrors, pattern, version, n - 1);
        assert(files.take(n) =~= files.take(n - 1).push(files[n - 1]));
        crate::seqs::lemma_map_push(files.take(n - 1), files[n - 1], make);
        let parts = files.take(n - 1).map_values(make);
        parts.lemma_flatten_push(make(files[n - 1]));
        if uris_between(mirrors, pattern, version, 0, n) is None {
            if uris_between(mirrors, pattern, version, 0, n - 1) is Some {
                assert(file_uris(mirrors, pattern, version, n - 1) is None);
                assert(files[n - 1].file.downloadable);
            }
        }
    }
}

/// A version whose files are on ordinary servers or on this machine is found at
/// once, at the address of each file on a server that can be downloaded, in
/// order.
pub proof fn law_ordinary_addresses(
    filter: &mut UriFilter,
    version: &Version,
    config: &Config,
    walk: &mut UriWalk,
    r: UriStep,
)
    requires
        old(walk).place == 0,
        texts(old(walk).filtered@).len() == 0,
        forall|i: int|
            0 <= i < version.files@.len() ==> !crate::mirror::is_mirror(
                (#[trigger] version.files@[i]).uri@,
            ),
        call_ensures(UriFilter::uris, (filter, version, config, walk), r),
    ensures
        r is Finished,
        texts(final(walk).filtered@) == version.files@.filter(
            |f: crate::apt::VersionFile| f.file.downloadable && !has_prefix(f.uri@, "file:"@),
        ).map_values(|f: crate::apt::VersionFile| f.uri@),
{
    let mirrors = old(filter).mirrors@;
    let pattern = old(filter).regex.mirror@;
    let n = version.files@.len() as int;
    let place = final(walk).place as int;
    if place < n {
        assert(!crate::mirror::is_mirror(version.files@[place].uri@));
    }
    law_addresses_of_files(mirrors, pattern, *version, n);
    let make = |f: crate::apt::VersionFile| addresses(mirrors, pattern, *version, f);
    let keep = |f: crate::apt::VersionFile|
        f.file.downloadable && !has_prefix(f.uri@, "file:"@);
    let text = |f: crate::apt::VersionFile| f.uri@;
    assert forall|i: int| 0 <= i < n implies make(#[trigger] version.files@[i]) == if keep(
        version.files@[i],
    ) {
        seq![text(version.files@[i])]
    } else {
        Seq::empty()
    } by {}
    crate::downloader::lemma_plain_flatten(version.files@, keep, text, make);
    assert(version.files@.take(n) =~= version.files@);
    assert(texts(old(walk).filtered@) =~= Seq::<Seq<char>>::empty());
    assert(Seq::<Seq<char>>::empty() + version.files@.filter(keep).map_values(text)
        =~= version.files@.filter(keep).map_values(text));
}

/// A list of mirrors that is not known is read, and the walk waits for it.
pub proof fn law_lists_are_read(
    filter: &mut UriFilter,
    version: &Version,
    config: &Config,
    walk: &mut UriWalk,
    r: UriStep,
)
    requires
        old(walk).place < version.files@.len(),
        version.files@[old(walk).place as int].file.downloadable,
        !has_prefix(version.files@[old(walk).place as int].uri@, "file:"@),
        call_ensures(UriFilter::uris, (filter, version, config, walk), r),
    ensures
        ({
            let uri = version.files@[old(walk).place as int].uri@;
            let name = mirror_name(old(filter).regex.mirror@, uri);
            name is Some && !old(filter).mirrors@.dom().contains(name->0) ==> {
                &&& r is Mirror
                &&& r->name@ == name->0
                &&& final(walk).place == old(walk).place
            }
        }),
{
    let place = old(walk).place as int;
    let mirrors = old(filter).mirrors@;
    let pattern = old(filter).regex.mirror@;
    if final(walk).place > place {
        lemma_first_is_known(mirrors, pattern, *version, place, final(walk).place as int);
    }
}

proof fn lemma_first_is_known(
    mirrors: Map<Seq<char>, String>,
    pattern: Seq<char>,
    version: Version,
    from: int,
    to: int,
)
    requires
        from < to,
        uris_between(mirrors, pattern, version, from, to) is Some,
    ensures
        file_uris(mirrors, pattern, version, from) is Some,
    decreases to - from,
{
    if from < to - 1 {
        lemma_first_is_known(mirrors, pattern, version, from, to - 1);
    }
}

/// What a version is checked with: its SHA-512, else its SHA-256.
pub proof fn law_strongest_hash(
    config: &Config,
    version: &Version,
    r: Result<(String, String), NalaError>,
)
    requires
        call_ensures(get_hash, (config, version), r),
    ensures
        entry(version.hashes@, "sha512"@) is Some ==> r is Ok && r->Ok_0.0@ == "sha512"@
            && r->Ok_0.1@ == entry(version.hashes@, "sha512"@)->0,
        entry(version.hashes@, "sha512"@) is None && entry(version.hashes@, "sha256"@) is Some
            ==> r is Ok && r->Ok_0.0@ == "sha256"@ && r->Ok_0.1@ == entry(
            version.hashes@,
            "sha256"@,
        )->0,
        r is Err <==> entry(version.hashes@, "sha512"@) is None && entry(
            version.hashes@,
            "sha256"@,
        ) is None,
{
}

/// The download of a version with a hash: its addresses, its size, its hash, and
/// where its file goes.
pub proof fn law_download_of_a_version(
    version: &Version,
    config: &Config,
    uris: Vec<String>,
    archive: &str,
    r: Result<Uri, NalaError>,
)
    requires
        pkg_file_name(*version) is Some,
        call_ensures(Uri::from_version, (version, config, uris, archive), r),
    ensures
        r is Ok <==> entry(version.hashes@, "sha512"@) is Some || entry(
            version.hashes@,
            "sha256"@,
        ) is Some,
        r is Ok ==> {
            let uri = r->Ok_0;
            &&& uri.uris == uris
            &&& uri.size == version.size
            &&& uri.filename@ == pkg_file_name(*version)->0
            &&& uri.archive@ == archive@ + uri.filename@
            &&& uri.destination@ == archive@ + "/partial/"@ + uri.filename@
            &&& entry(version.hashes@, uri.hash_type@) == Some(uri.hash_value@)
            &&& uri.hash_type@ == "sha512"@ || (uri.hash_type@ == "sha256"@ && entry(
                version.hashes@,
                "sha512"@,
            ) is None)
        },
{
}

/// A file is good exactly if its hash is the one that is expected.
pub proof fn law_hash_is_checked(uri: &Uri, other: &str, r: Result<(), NalaError>)
    requires
        call_ensures(Uri::check_hash, (uri, other), r),
    ensures
        r is Ok <==> other@ == uri.hash_value@,
{
}

/// A file is hashed by the algorithm of the hash that is expected.
pub proof fn law_hashed_as_expected(uri: &Uri, r: Hasher)
    requires
        call_ensures(Uri::hasher, (uri,), r),
    ensures
        uri.hash_type@ == "sha256"@ ==> !r.is_long(),
        uri.hash_type@ == "sha512"@ ==> r.is_long(),
        r@.len() == 0,
{
    reveal_strlit("sha512");
    reveal_strlit("sha256");
    assert("sha512"@[3] != "sha256"@[3]);
}

/// A run stops when the last download is finished, or at the first error, and
/// not before.
pub proof fn law_run_stops(downloader: &mut Downloader, message: Message, r: RunAction)
    requires
        old(downloader).current < usize::MAX,
        call_ensures(Downloader::run, (downloader, message), r),
    ensures
        message is Finished ==> final(downloader).current == old(downloader).current + 1,
        !(message is Finished) ==> final(downloader).current == old(downloader).current,
        r is Stop <==> message is Error || (message is Finished && old(downloader).current + 1
            == old(downloader).total),
        message is Update ==> r == RunAction::Advance(message->Update_0),
{
}

/// A download that fails is told as an error, and one that does not as finished.
pub proof fn law_result_is_told(result: &Result<(), NalaError>, r: Message)
    requires
        call_ensures(init_download, (result,), r),
    ensures
        r == Message::Finished <==> *result is Ok,
        r == Message::Error <==> *result is Err,
{
}

/// The names to download are those that were given, each once.
pub proof fn law_names_to_download(
    config: &Config,
    r: Result<Vec<String>, NalaError>,
    name: Seq<char>,
)
    requires
        call_ensures(download, (config,), r),
    ensures
        r is Ok <==> config.vec_map@.dom().contains("pkg_names"@),
        r is Ok ==> (texts(r->Ok_0@).contains(name) <==> texts(
            config.vec_map@["pkg_names"@]@,
        ).contains(name)),
        r is Ok ==> texts(r->Ok_0@).no_duplicates(),
{
    if r is Ok {
        let all = texts(r->Ok_0@);
        assert forall|i: int, j: int| 0 <= i < all.len() && 0 <= j < all.len() && i != j implies all[i]
            != all[j] by {
            if i < j {
                assert(text_differ(all, i, j));
            } else {
                assert(text_differ(all, j, i));
            }
        }
    }
}

spec fn text_differ(all: Seq<Seq<char>>, i: int, j: int) -> bool {
    all[i] != all[j]
}

/// The user is told of each name that stands for no package, and that is an
/// error.
pub proof fn law_missing_are_told(
    config: &Config,
    plan: &DownloadPlan,
    r: Result<(), (Vec<String>, NalaError)>,
)
    requires
        call_ensures(check_found, (config, plan), r),
    ensures
        r is Ok <==> plan.not_found@.len() == 0,
        r is Err ==> texts(r->Err_0.0@) == texts(plan.not_found@).map_values(
            |name: Seq<char>| stderr_line(*config, Theme::Error, name + " not found"@),
        ),
{
    if r is Err {
        assert(texts(r->Err_0.0@) =~= texts(plan.not_found@).map_values(
            |name: Seq<char>| stderr_line(*config, Theme::Error, name + " not found"@),
        ));
    }
}

/// What is finished is named, each file with the place that it was written to.
pub proof fn law_finished_files_are_named(config: &Config, finished: &Vec<Uri>, r: Vec<String>)
    requires
        call_ensures(download_summary, (config, finished), r),
    ensures
        r@.len() == finished@.len() + 1,
        r@[0]@ == "Downloads Complete:"@,
        forall|i: int|
            0 <= i < finished@.len() ==> r@[i + 1]@ == "  "@ + colored(
                *config,
                Theme::Primary,
                (#[trigger] finished@[i]).filename@,
            ) + " was written to "@ + colored(*config, Theme::Primary, finished@[i].archive@),
{
    let lines = texts(r@);
    assert(lines.len() == r@.len());
    assert(lines[0] == r@[0]@);
    assert forall|i: int| 0 <= i < finished@.len() implies r@[i + 1]@ == "  "@ + colored(
        *config,
        Theme::Primary,
        (#[trigger] finished@[i]).filename@,
    ) + " was written to "@ + colored(*config, Theme::Primary, finished@[i].archive@) by {
        assert(lines[i + 1] == r@[i + 1]@);
    }
}

/// Packages that cannot be authenticated are refused, unless the configuration
/// allows them.
pub proof fn law_untrusted_packages_are_refused(filter: &UriFilter, config: &Config, r: Trust)
    requires
        call_ensures(UriFilter::maybe_untrusted_error, (filter, config), r),
    ensures
        r is Trusted <==> filter.untrusted@.len() == 0,
        r is Refused <==> filter.untrusted@.len() > 0 && !allows_untrusted(*config),
{
}

/// A version has a file name exactly if its record names a file.
pub proof fn law_file_name_is_there(version: &Version, r: bool)
    requires
        call_ensures(has_file_name, (version,), r),
    ensures
        version.record("Filename"@) is None ==> !r,
        version.record("Filename"@) matches Some(path) ==> (r <==> split_ended(path, "/"@).len()
            > 0),
{
}

} // verus!

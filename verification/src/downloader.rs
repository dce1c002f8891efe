//! Downloading packages into the archive.
use std::collections::VecDeque;
use vstd::hash_map::StringHashMap;
use vstd::prelude::*;
use vstd::utf8::encode_utf8;
use crate::apt::{entry, Package, PackageFile, Version};
use crate::config::{colored, flag, is_verbose, path_of, stderr_header, value_or, Config, Paths, Theme};
use crate::error::{fails_with, NalaError};
use crate::mirror::{
    comes_from, find_mirror, mirror_name, mirror_source, mirrored, mirrored_uris, MirrorSource,
};
use crate::newdownload::{get_pkg_name, pkg_file_name};
use crate::pattern::{regex_group, Pattern};
use crate::seqs::{lemma_places_next, places_to};
use crate::text::{
    add_text, decimal, decimal_of, file_name, file_name_of, has_prefix, hex_of, hex_text, join,
    join_path, joined, lemma_hex_len, number_of, parse_u64, path_in, push_text, quote, quoted,
    split_ended, split_terminator, str_eq, strip_prefix, text_opt, texts, with_text,
};
use crate::util::NalaRegex;

verus! {

/// Turns what the index files say of a version into addresses that can be
/// downloaded from.
pub struct UriFilter {
    /// The lists of mirrors that were read, by their names.
    pub mirrors: StringHashMap<String>,
    pub regex: NalaRegex,
    /// The packages that cannot be authenticated, in colour, each once.
    pub untrusted: Vec<String>,
}

/// How far the files of a version have been worked through.
#[derive(Debug)]
pub struct UriWalk {
    /// The file that is next.
    pub place: usize,
    /// The file that is next has been copied into the archive.
    pub copied: bool,
    /// The addresses of the files before it.
    pub filtered: VecDeque<String>,
}

/// What the files of a version need next.
#[derive(Debug)]
pub enum UriStep {
    /// Copy a file, and go on.
    Copy { from: String, to: String },
    /// Read a list of mirrors, add it under its name, and go on.
    Mirror { name: String, source: MirrorSource },
    /// Nothing: the addresses are complete.
    Finished,
    Failed(NalaError),
}

/// The addresses of one file of a version. `None` where it needs a list of
/// mirrors that has not been read.
pub open spec fn file_uris(
    mirrors: Map<Seq<char>, String>,
    pattern: Seq<char>,
    version: Version,
    i: int,
) -> Option<Seq<Seq<char>>> {
    let uri = version.files@[i].uri@;
    if !version.files@[i].file.downloadable {
        Some(Seq::empty())
    } else {
        match mirror_name(pattern, uri) {
            Some(name) => if !mirrors.dom().contains(name) {
                None
            } else {
                match mirrored(mirrors[name]@, version) {
                    Some(uris) => Some(uris),
                    None => Some(seq![uri]),
                }
            },
            None => Some(seq![uri]),
        }
    }
}

/// The addresses of the files of a version from `from` up to `to`.
pub open spec fn uris_between(
    mirrors: Map<Seq<char>, String>,
    pattern: Seq<char>,
    version: Version,
    from: int,
    to: int,
) -> Option<Seq<Seq<char>>>
    decreases to - from,
{
    if to <= from {
        Some(Seq::empty())
    } else {
        match (
            uris_between(mirrors, pattern, version, from, to - 1),
            file_uris(mirrors, pattern, version, to - 1),
        ) {
            (Some(before), Some(uris)) => Some(before + uris),
            _ => None,
        }
    }
}

/// The file at `i` is on this machine.
pub open spec fn is_local(version: Version, i: int) -> bool {
    version.files@[i].file.downloadable && has_prefix(version.files@[i].uri@, "file:"@)
}

/// The file at `i` needs a list of mirrors that has not been read.
pub open spec fn lacks_mirror(
    mirrors: Map<Seq<char>, String>,
    pattern: Seq<char>,
    version: Version,
    i: int,
) -> bool {
    version.files@[i].file.downloadable && match mirror_name(pattern, version.files@[i].uri@) {
        Some(name) => !mirrors.dom().contains(name),
        None => false,
    }
}

/// The file at `i` cannot be dealt with before something is done for it.
pub open spec fn needs_work(
    mirrors: Map<Seq<char>, String>,
    pattern: Seq<char>,
    version: Version,
    walk: UriWalk,
    i: int,
) -> bool {
    ||| is_local(version, i) && !(i == walk.place && walk.copied)
    ||| lacks_mirror(mirrors, pattern, version, i)
}

/// A file from `from` up to `to` can be downloaded but not trusted.
pub open spec fn has_untrusted(version: Version, from: int, to: int) -> bool {
    exists|i: int|
        from <= i < to && (#[trigger] version.files@[i]).file.downloadable
            && !version.files@[i].file.trusted
}

/// A file can be downloaded but not trusted.
pub open spec fn is_untrusted(file: PackageFile) -> bool {
    file.downloadable && !file.trusted
}

/// The addresses of a file of a version, where `list` is the list of mirrors
/// that its address stands for.
pub open spec fn listed_uris(
    mirrors: Map<Seq<char>, String>,
    version: Version,
    list: Option<Seq<char>>,
    uri: Seq<char>,
) -> Seq<Seq<char>> {
    match list {
        Some(name) => match mirrored(mirrors[name]@, version) {
            Some(uris) => uris,
            None => seq![uri],
        },
        None => seq![uri],
    }
}

/// What is done about the next file of a version, and how far the walk is then.
/// `list` is the list of mirrors that the file's address stands for.
pub open spec fn file_taken(
    config: Config,
    mirrors: Map<Seq<char>, String>,
    version: Version,
    list: Option<Seq<char>>,
    walk: UriWalk,
    r: Option<UriStep>,
    after: UriWalk,
) -> bool {
    let uri = version.files@[walk.place as int].uri@;
    let path = uri.skip("file:"@.len() as int);
    if version.files@[walk.place as int].file.downloadable && has_prefix(uri, "file:"@)
        && !walk.copied {
        &&& after.place == walk.place
        &&& after.filtered == walk.filtered
        &&& match file_name_of(path) {
            Some(filename) => {
                &&& r is Some
                &&& r->0 is Copy
                &&& r->0->from@ == path
                &&& r->0->to@ == path_in(path_of(config, Paths::Archive), filename)
                &&& after.copied
            },
            None => {
                &&& r is Some
                &&& r->0 is Failed
                &&& r->0->Failed_0.message@ == quoted(path) + " Does not have a valid filename!"@
                &&& !after.copied
            },
        }
    } else if version.files@[walk.place as int].file.downloadable && list is Some
        && !mirrors.dom().contains(list->0) {
        &&& after == walk
        &&& r is Some
        &&& r->0 is Mirror
        &&& r->0->name@ == list->0
        &&& comes_from(r->0->source, uri, list->0)
    } else {
        &&& r is None
        &&& after.place == walk.place + 1
        &&& !after.copied
        &&& texts(after.filtered@) == texts(walk.filtered@)
            + if version.files@[walk.place as int].file.downloadable {
            listed_uris(mirrors, version, list, uri)
        } else {
            Seq::empty()
        }
    }
}

impl UriWalk {
    /// The start of a version's files.
    pub fn new() -> (r: UriWalk)
        ensures
            r.place == 0,
            !r.copied,
            texts(r.filtered@) == Seq::<Seq<char>>::empty(),
    {
        let r = UriWalk { place: 0, copied: false, filtered: VecDeque::new() };
        assert(texts(r.filtered@) =~= Seq::empty());
        r
    }
}

fn push_back(queue: &mut VecDeque<String>, s: String)
    ensures
        final(queue)@ == old(queue)@.push(s),
        texts(final(queue)@) == texts(old(queue)@).push(s@),
{
    queue.push_back(s);
    assert(texts(queue@) =~= texts(old(queue)@).push(s@));
}

impl UriFilter {
    /// No package is recorded twice.
    pub open spec fn wf(self) -> bool {
        texts(self.untrusted@).no_duplicates()
    }

    /// A filter that has read no list of mirrors.
    pub fn new(regex: NalaRegex) -> (r: UriFilter)
        ensures
            r.wf(),
            r.mirrors@ == Map::<Seq<char>, String>::empty(),
            r.regex == regex,
            texts(r.untrusted@) == Seq::<Seq<char>>::empty(),
    {
        let r = UriFilter { mirrors: StringHashMap::new(), regex, untrusted: Vec::new() };
        assert(texts(r.untrusted@) =~= Seq::empty());
        r
    }

    /// Records a package that cannot be authenticated.
    pub fn add_untrusted(&mut self, config: &Config, item: &str)
        ensures
            old(self).wf() ==> final(self).wf(),
            texts(final(self).untrusted@) == with_text(
                texts(old(self).untrusted@),
                colored(*config, Theme::Error, item@),
            ),
            final(self).mirrors == old(self).mirrors,
            final(self).regex == old(self).regex,
    {
        let name = config.color(Theme::Error, item);
        add_text(&mut self.untrusted, name);
    }

    /// Adds the addresses of a version on the mirrors of a list. Nothing is
    /// added and `None` is returned where the list is not known, or names
    /// mirrors and the version has no file on them.
    pub fn get_from_mirrors(
        &self,
        version: &Version,
        uris: &mut VecDeque<String>,
        filename: &str,
    ) -> (r: Option<()>)
        ensures
            r is Some <==> self.mirrors@.dom().contains(filename@) && mirrored(
                self.mirrors@[filename@]@,
                *version,
            ) is Some,
            texts(final(uris)@) == if r is Some {
                texts(old(uris)@) + mirrored(self.mirrors@[filename@]@, *version)->0
            } else {
                texts(old(uris)@)
            },
    {
        let list = match self.mirrors.get(filename) {
            Some(list) => list,
            None => {
                return None;
            },
        };
        let found = match mirrored_uris(list.as_str(), version) {
            Some(found) => found,
            None => {
                return None;
            },
        };
        let ghost before = texts(uris@);
        let ghost all = texts(found@);
        let mut i: usize = 0;
        assert(before + all.take(0) =~= before);
        while i < found.len()
            invariant
                i <= found@.len(),
                all == texts(found@),
                texts(uris@) == before + all.take(i as int),
            decreases found@.len() - i,
        {
            push_back(uris, found[i].clone());
            assert(before + all.take(i as int).push(all[i as int]) =~= (before + all.take(
                i as int,
            )).push(all[i as int]));
            assert(all.take(i + 1) =~= all.take(i as int).push(all[i as int]));
            i = i + 1;
        }
        assert(all.take(i as int) =~= all);
        Some(())
    }

    /// Records a list of mirrors that was read.
    pub fn add_to_mirrors(&mut self, filename: String, list: String)
        ensures
            old(self).wf() ==> final(self).wf(),
            final(self).mirrors@ == old(self).mirrors@.insert(filename@, list),
            final(self).regex == old(self).regex,
            final(self).untrusted == old(self).untrusted,
    {
        self.mirrors.insert(filename, list);
    }

    /// Deals with the next file of a version. `found` is the list of mirrors that
    /// its address stands for. Where something has to be done for the file first,
    /// that is returned, and the file stays the next.
    pub fn take_file(
        &mut self,
        version: &Version,
        config: &Config,
        walk: &mut UriWalk,
        found: Option<String>,
    ) -> (r: Option<UriStep>)
        requires
            old(walk).place < version.files@.len(),
        ensures
            old(self).wf() ==> final(self).wf(),
            final(self).mirrors == old(self).mirrors,
            final(self).regex == old(self).regex,
            texts(final(self).untrusted@) == if is_untrusted(
                version.files@[old(walk).place as int].file,
            ) {
                with_text(
                    texts(old(self).untrusted@),
                    colored(*config, Theme::Error, version.package@),
                )
            } else {
                texts(old(self).untrusted@)
            },
            file_taken(
                *config,
                old(self).mirrors@,
                *version,
                text_opt(found),
                *old(walk),
                r,
                *final(walk),
            ),
    {
        let ghost before = *walk;
        let place: usize = walk.place;
        let total: usize = version.files.len();
        assert(place < total);
        let vf = &version.files[place];
        if !vf.file.downloadable {
            assert(texts(walk.filtered@) + Seq::<Seq<char>>::empty() =~= texts(walk.filtered@));
            walk.place = place + 1;
            walk.copied = false;
            return None;
        }
        // Make sure the File is trusted. Erroring is handled later.
        if !vf.file.trusted {
            self.add_untrusted(config, version.package.as_str());
        }
        // Any real files should be copied into the Archive directory for use
        if !walk.copied {
            if let Some(path) = strip_prefix(vf.uri.as_str(), "file:") {
                assert(text_opt(Some(path)) == Some(path@));
                let filename = match file_name(path.as_str()) {
                    Some(filename) => filename,
                    None => {
                        let mut message = quote(path.as_str());
                        message.append(" Does not have a valid filename!");
                        return Some(UriStep::Failed(NalaError::from_string(message)));
                    },
                };
                let archive = config.get_path(&Paths::Archive);
                walk.copied = true;
                return Some(
                    UriStep::Copy {
                        from: path,
                        to: join_path(archive.as_str(), filename.as_str()),
                    },
                );
            }
        }
        let mut uris: VecDeque<String> = VecDeque::new();
        assert(texts(uris@) =~= Seq::empty());
        let mut known = false;
        if let Some(filename) = found {
            if !self.mirrors.contains_key(filename.as_str()) {
                let source = mirror_source(vf.uri.as_str(), filename.as_str());
                return Some(UriStep::Mirror { name: filename, source });
            }
            known = self.get_from_mirrors(version, &mut uris, filename.as_str()).is_some();
        }
        // If none of the conditions meet then we just add it to the uris
        if !known {
            push_back(&mut uris, vf.uri.clone());
            assert(texts(uris@) =~= seq![vf.uri@]);
        }
        let ghost added = uris@;
        walk.filtered.append(&mut uris);
        assert(texts(walk.filtered@) =~= texts(before.filtered@) + texts(added));
        walk.place = place + 1;
        walk.copied = false;
        None
    }

    /// Works through the files of a version until something has to be done for
    /// one of them, or all of them have their addresses. Packages that cannot
    /// be authenticated are recorded.
    pub fn uris(&mut self, version: &Version, config: &Config, walk: &mut UriWalk) -> (r: UriStep)
        requires
            old(walk).place <= version.files@.len(),
        ensures
            old(self).wf() ==> final(self).wf(),
            old(walk).place <= final(walk).place <= version.files@.len(),
            final(self).mirrors == old(self).mirrors,
            final(self).regex == old(self).regex,
            ({
                let mirrors = old(self).mirrors@;
                let pattern = old(self).regex.mirror@;
                let place = final(walk).place as int;
                let uri = version.files@[place].uri@;
                let added = uris_between(mirrors, pattern, *version, old(walk).place as int, place);
                &&& added is Some
                &&& texts(final(walk).filtered@) == texts(old(walk).filtered@) + added->0
                &&& forall|i: int|
                    old(walk).place <= i < place ==> !needs_work(
                        mirrors,
                        pattern,
                        *version,
                        *old(walk),
                        i,
                    )
                &&& place < version.files@.len() ==> needs_work(
                    mirrors,
                    pattern,
                    *version,
                    *old(walk),
                    place,
                )
                &&& match r {
                    UriStep::Finished => place == version.files@.len(),
                    UriStep::Copy { from, to } => {
                        &&& place < version.files@.len()
                        &&& is_local(*version, place)
                        &&& from@ == uri.skip("file:"@.len() as int)
                        &&& file_name_of(from@) is Some
                        &&& to@ == path_in(path_of(*config, Paths::Archive), file_name_of(from@)->0)
                        &&& final(walk).copied
                    },
                    UriStep::Failed(e) => {
                        &&& place < version.files@.len()
                        &&& is_local(*version, place)
                        &&& file_name_of(uri.skip("file:"@.len() as int)) is None
                        &&& e.message@ == quoted(uri.skip("file:"@.len() as int))
                            + " Does not have a valid filename!"@
                    },
                    UriStep::Mirror { name, source } => {
                        &&& place < version.files@.len()
                        &&& mirror_name(pattern, uri) == Some(name@)
                        &&& !mirrors.dom().contains(name@)
                        &&& comes_from(source, uri, name@)
                    },
                }
                &&& texts(final(self).untrusted@) == if has_untrusted(
                    *version,
                    old(walk).place as int,
                    if place < version.files@.len() {
                        place + 1
                    } else {
                        place
                    },
                ) {
                    with_text(
                        texts(old(self).untrusted@),
                        colored(*config, Theme::Error, version.package@),
                    )
                } else {
                    texts(old(self).untrusted@)
                }
            }),
    {
        let ghost start = *walk;
        let ghost known = texts(self.untrusted@);
        let ghost name = colored(*config, Theme::Error, version.package@);
        let ghost mirrors = self.mirrors@;
        let ghost pattern = self.regex.mirror@;
        assert(!has_untrusted(*version, start.place as int, start.place as int));
        assert(texts(walk.filtered@) + Seq::<Seq<char>>::empty() =~= texts(walk.filtered@));
        while walk.place < version.files.len()
            invariant
                old(self).wf() ==> self.wf(),
                start == *old(walk),
                start.place <= walk.place <= version.files@.len(),
                uris_between(
                    mirrors,
                    pattern,
                    *version,
                    start.place as int,
                    walk.place as int,
                ) is Some,
                texts(walk.filtered@) == texts(start.filtered@) + uris_between(
                    mirrors,
                    pattern,
                    *version,
                    start.place as int,
                    walk.place as int,
                )->0,
                walk.place > start.place ==> !walk.copied,
                walk.place == start.place ==> walk.copied == start.copied,
                self.mirrors == old(self).mirrors,
                self.regex == old(self).regex,
                mirrors == self.mirrors@,
                pattern == self.regex.mirror@,
                known == texts(old(self).untrusted@),
                name == colored(*config, Theme::Error, version.package@),
                forall|i: int|
                    start.place <= i < walk.place ==> !needs_work(
                        mirrors,
                        pattern,
                        *version,
                        start,
                        i,
                    ),
                texts(self.untrusted@) == if has_untrusted(
                    *version,
                    start.place as int,
                    walk.place as int,
                ) {
                    with_text(known, name)
                } else {
                    known
                },
            decreases version.files@.len() - walk.place,
        {
            let place: usize = walk.place;
            proof {
                lemma_untrusted_step(*version, start.place as int, place as int);
                lemma_with_text(known, name);
            }
            let found = if version.files[place].file.downloadable {
                find_mirror(&self.regex.mirror, version.files[place].uri.as_str())
            } else {
                None
            };
            if let Some(step) = self.take_file(version, config, walk, found) {
                assert(needs_work(mirrors, pattern, *version, start, place as int));
                return step;
            }
            proof {
                let done = uris_between(
                    mirrors,
                    pattern,
                    *version,
                    start.place as int,
                    place as int,
                )->0;
                let added = file_uris(mirrors, pattern, *version, place as int);
                assert(!needs_work(mirrors, pattern, *version, start, place as int));
                assert(added is Some);
                assert((texts(start.filtered@) + done) + added->0 =~= texts(start.filtered@) + (done
                    + added->0));
            }
        }
        UriStep::Finished
    }
}

pub(crate) proof fn lemma_untrusted_step(version: Version, from: int, place: int)
    requires
        from <= place < version.files@.len(),
    ensures
        has_untrusted(version, from, place + 1) == (has_untrusted(version, from, place) || (
        version.files@[place].file.downloadable && !version.files@[place].file.trusted)),
{
    if has_untrusted(version, from, place + 1) {
        let i = choose|i: int|
            from <= i < place + 1 && (#[trigger] version.files@[i]).file.downloadable
                && !version.files@[i].file.trusted;
        if i < place {
            assert(has_untrusted(version, from, place));
        }
    }
    if has_untrusted(version, from, place) {
        let i = choose|i: int|
            from <= i < place && (#[trigger] version.files@[i]).file.downloadable
                && !version.files@[i].file.trusted;
        assert(has_untrusted(version, from, place + 1));
    }
}

pub(crate) proof fn lemma_with_text(v: Seq<Seq<char>>, s: Seq<char>)
    ensures
        with_text(with_text(v, s), s) == with_text(v, s),
{
    if !v.contains(s) {
        assert(v.push(s)[v.len() as int] == s);
    }
}

/// A list of mirrors that is read later leaves the addresses that are known as
/// they are.
pub proof fn law_more_mirrors_keep_uris(
    mirrors: Map<Seq<char>, String>,
    pattern: Seq<char>,
    version: Version,
    from: int,
    to: int,
    name: Seq<char>,
    list: String,
)
    requires
        !mirrors.dom().contains(name),
    ensures
        uris_between(mirrors, pattern, version, from, to) is Some ==> uris_between(
            mirrors.insert(name, list),
            pattern,
            version,
            from,
            to,
        ) == uris_between(mirrors, pattern, version, from, to),
    decreases to - from,
{
    if from < to {
        law_more_mirrors_keep_uris(mirrors, pattern, version, from, to - 1, name, list);
    }
}

/// The addresses of some files and of those that follow are together the
/// addresses of all of them, so a walk may stop and go on at any file.
pub proof fn law_walks_compose(
    mirrors: Map<Seq<char>, String>,
    pattern: Seq<char>,
    version: Version,
    from: int,
    middle: int,
    to: int,
)
    requires
        from <= middle <= to,
    ensures
        match (
            uris_between(mirrors, pattern, version, from, middle),
            uris_between(mirrors, pattern, version, middle, to),
        ) {
            (Some(a), Some(b)) => uris_between(mirrors, pattern, version, from, to) == Some(a + b),
            _ => uris_between(mirrors, pattern, version, from, to) is None,
        },
    decreases to - middle,
{
    if middle < to {
        law_walks_compose(mirrors, pattern, version, from, middle, to - 1);
        if let (Some(a), Some(b), Some(c)) = (
            uris_between(mirrors, pattern, version, from, middle),
            uris_between(mirrors, pattern, version, middle, to - 1),
            file_uris(mirrors, pattern, version, to - 1),
        ) {
            assert((a + b) + c =~= a + (b + c));
        }
    } else {
        if let Some(a) = uris_between(mirrors, pattern, version, from, middle) {
            assert(a + Seq::<Seq<char>>::empty() =~= a);
        }
    }
}

/// The SHA-512 digest of bytes.
pub uninterp spec fn sha512_of(data: Seq<u8>) -> Seq<u8>;

/// The SHA-256 digest of bytes.
pub uninterp spec fn sha256_of(data: Seq<u8>) -> Seq<u8>;

/// `sha2::Sha512::digest`: the digest depends on the bytes alone and has 64
/// bytes.
#[verifier::external_body]
fn digest_sha512(data: &[u8]) -> (r: Vec<u8>)
    ensures
        r@ == sha512_of(data@),
        r@.len() == 64,
{
    <sha2::Sha512 as sha2::Digest>::digest(data).to_vec()
}

/// `sha2::Sha256::digest`: the digest depends on the bytes alone and has 32
/// bytes.
#[verifier::external_body]
fn digest_sha256(data: &[u8]) -> (r: Vec<u8>)
    ensures
        r@ == sha256_of(data@),
        r@.len() == 32,
{
    <sha2::Sha256 as sha2::Digest>::digest(data).to_vec()
}

/// The bytes in lower-case hexadecimal, two digits for each.
pub fn bytes_to_hex_string(bytes: &[u8]) -> (r: String)
    ensures
        r@ == hex_of(bytes@),
{
    hex_text(bytes)
}

/// The hash of a file, by the algorithm that made it.
#[derive(Debug, PartialEq, Eq)]
pub enum HashSum {
    Sha512(String),
    Sha256(String),
}

/// The error for an algorithm that is not known.
pub open spec fn unsupported(hash_type: Seq<char>) -> Seq<char> {
    "Hash Type: "@ + hash_type + " is not supported"@
}

fn unsupported_error(hash_type: &str) -> (r: NalaError)
    ensures
        r.message@ == unsupported(hash_type@),
{
    let mut message = "Hash Type: ".to_owned();
    message.append(hash_type);
    message.append(" is not supported");
    NalaError::from_string(message)
}

impl HashSum {
    /// The name of the algorithm.
    pub open spec fn algorithm(self) -> Seq<char> {
        match self {
            HashSum::Sha512(_) => "sha512"@,
            HashSum::Sha256(_) => "sha256"@,
        }
    }

    /// The hash.
    pub open spec fn value(self) -> Seq<char> {
        match self {
            HashSum::Sha512(s) => s@,
            HashSum::Sha256(s) => s@,
        }
    }

    /// The two hashes are equal: the same algorithm and the same text.
    pub open spec fn agrees(self, other: HashSum) -> bool {
        match (self, other) {
            (HashSum::Sha512(a), HashSum::Sha512(b)) => a@ == b@,
            (HashSum::Sha256(a), HashSum::Sha256(b)) => a@ == b@,
            _ => false,
        }
    }

    /// A hash whose algorithm follows from the length of its text.
    pub fn from_str_len(hash_type: usize, hash: String) -> (r: Result<Self, NalaError>)
        ensures
            if hash_type == 128 {
                r == Ok::<HashSum, NalaError>(HashSum::Sha512(hash))
            } else if hash_type == 64 {
                r == Ok::<HashSum, NalaError>(HashSum::Sha256(hash))
            } else {
                fails_with(r, unsupported(decimal(hash_type as nat)))
            },
    {
        match hash_type {
            128 => Ok(HashSum::Sha512(hash)),
            64 => Ok(HashSum::Sha256(hash)),
            anything_else => Err(unsupported_error(decimal_of(anything_else as u128).as_str())),
        }
    }

    /// A hash by the name of its algorithm.
    pub fn from_str(hash_type: &str, hash: String) -> (r: Result<Self, NalaError>)
        ensures
            if hash_type@ == "sha512"@ {
                r == Ok::<HashSum, NalaError>(HashSum::Sha512(hash))
            } else if hash_type@ == "sha256"@ {
                r == Ok::<HashSum, NalaError>(HashSum::Sha256(hash))
            } else {
                fails_with(r, unsupported(hash_type@))
            },
    {
        if str_eq(hash_type, "sha512") {
            Ok(HashSum::Sha512(hash))
        } else if str_eq(hash_type, "sha256") {
            Ok(HashSum::Sha256(hash))
        } else {
            Err(unsupported_error(hash_type))
        }
    }

    /// The hash of bytes by an algorithm.
    pub fn from_bytes(data: &[u8], hash_type: &str) -> (r: Result<Self, NalaError>)
        ensures
            if hash_type@ == "sha512"@ {
                r is Ok && r->Ok_0 is Sha512 && r->Ok_0.value() == hex_of(sha512_of(data@))
            } else if hash_type@ == "sha256"@ {
                r is Ok && r->Ok_0 is Sha256 && r->Ok_0.value() == hex_of(sha256_of(data@))
            } else {
                fails_with(r, unsupported(hash_type@))
            },
            r is Ok ==> r->Ok_0.value().len() == if r->Ok_0 is Sha512 {
                128int
            } else {
                64int
            },
    {
        let mut hasher = match get_hasher(hash_type) {
            Ok(hasher) => hasher,
            Err(e) => {
                return Err(e);
            },
        };
        hasher.update(data);
        assert(Seq::<u8>::empty() + data@ =~= data@);
        let digest = hasher.finish();
        proof {
            lemma_hex_len(digest@);
        }
        HashSum::from_str(hash_type, bytes_to_hex_string(digest.as_slice()))
    }

    /// The name of the algorithm.
    pub fn str_type(&self) -> (r: &'static str)
        ensures
            r@ == self.algorithm(),
    {
        match self {
            HashSum::Sha512(_) => "sha512",
            HashSum::Sha256(_) => "sha256",
        }
    }

    /// Whether two hashes are equal.
    pub fn equals(&self, other: &HashSum) -> (r: bool)
        ensures
            r == self.agrees(*other),
    {
        match (self, other) {
            (HashSum::Sha512(a), HashSum::Sha512(b)) => str_eq(a.as_str(), b.as_str()),
            (HashSum::Sha256(a), HashSum::Sha256(b)) => str_eq(a.as_str(), b.as_str()),
            _ => false,
        }
    }
}

/// Bytes that are to be hashed, piece by piece.
#[derive(Debug)]
pub struct Hasher {
    /// By SHA-512, else by SHA-256.
    long: bool,
    data: Vec<u8>,
}

impl View for Hasher {
    type V = Seq<u8>;

    /// The bytes so far.
    closed spec fn view(&self) -> Seq<u8> {
        self.data@
    }
}

impl Hasher {
    /// The hash is made by SHA-512, else by SHA-256.
    pub closed spec fn is_long(self) -> bool {
        self.long
    }

    /// No bytes, to be hashed by SHA-512, else by SHA-256.
    pub fn new(long: bool) -> (r: Hasher)
        ensures
            r.is_long() == long,
            r@ == Seq::<u8>::empty(),
    {
        Hasher { long, data: Vec::new() }
    }

    /// Adds bytes at the end.
    pub fn update(&mut self, chunk: &[u8])
        ensures
            final(self)@ == old(self)@ + chunk@,
            final(self).is_long() == old(self).is_long(),
    {
        self.data.extend_from_slice(chunk);
    }

    /// The digest of all the bytes.
    pub fn finish(self) -> (r: Vec<u8>)
        ensures
            r@ == if self.is_long() {
                sha512_of(self@)
            } else {
                sha256_of(self@)
            },
            r@.len() == if self.is_long() {
                64int
            } else {
                32int
            },
    {
        if self.long {
            digest_sha512(self.data.as_slice())
        } else {
            digest_sha256(self.data.as_slice())
        }
    }
}

/// What hashes bytes by an algorithm.
pub fn get_hasher(hash_type: &str) -> (r: Result<Hasher, NalaError>)
    ensures
        if hash_type@ == "sha512"@ {
            r is Ok && r->Ok_0.is_long() && r->Ok_0@ == Seq::<u8>::empty()
        } else if hash_type@ == "sha256"@ {
            r is Ok && !r->Ok_0.is_long() && r->Ok_0@ == Seq::<u8>::empty()
        } else {
            fails_with(r, unsupported(hash_type@))
        },
{
    if str_eq(hash_type, "sha512") {
        Ok(Hasher::new(true))
    } else if str_eq(hash_type, "sha256") {
        Ok(Hasher::new(false))
    } else {
        Err(unsupported_error(hash_type))
    }
}

/// Different algorithms have different names, and two hashes are equal just
/// where the names of their algorithms and their texts are.
pub proof fn law_algorithm_names(hash: HashSum, other: HashSum)
    ensures
        hash.algorithm() == other.algorithm() <==> (hash is Sha512 <==> other is Sha512),
        hash.agrees(other) <==> hash.algorithm() == other.algorithm() && hash.value()
            == other.value(),
{
    reveal_strlit("sha512");
    reveal_strlit("sha256");
    assert("sha512"@[3] == '5');
    assert("sha256"@[3] == '2');
}

/// The hash that a version is checked by: the strongest that there is.
pub open spec fn version_hash(version: Version) -> Option<(bool, Seq<char>)> {
    match entry(version.hashes@, "sha512"@) {
        Some(hash) => Some((true, hash)),
        None => match entry(version.hashes@, "sha256"@) {
            Some(hash) => Some((false, hash)),
            None => None,
        },
    }
}

/// The error for a version without a hash.
pub open spec fn no_hash(config: Config, version: Version) -> Seq<char> {
    colored(config, Theme::Notice, version.package@) + " "@ + colored(
        config,
        Theme::Notice,
        version.version@,
    )
        + " can't be checked for integrity.\nThere are no hashes available for this package."@
}

pub(crate) fn no_hash_error(config: &Config, version: &Version) -> (r: NalaError)
    ensures
        r.message@ == no_hash(*config, *version),
{
    let mut message = config.color(Theme::Notice, version.package.as_str());
    message.append(" ");
    message.append(config.color(Theme::Notice, version.version.as_str()).as_str());
    message.append(
        " can't be checked for integrity.\nThere are no hashes available for this package.",
    );
    NalaError::from_string(message)
}

/// The hash that a version is checked by. Only SHA-512 and SHA-256 are fit for
/// that.
pub fn get_hash(config: &Config, version: &Version) -> (r: Result<HashSum, NalaError>)
    ensures
        match version_hash(*version) {
            Some((long, hash)) => r is Ok && (r->Ok_0 is Sha512 <==> long) && r->Ok_0.value()
                == hash,
            None => fails_with(r, no_hash(*config, *version)),
        },
{
    proof {
        reveal_strlit("sha512");
        reveal_strlit("sha256");
        assert("sha512"@[3] == '5');
        assert("sha256"@[3] == '2');
    }
    if let Some(hash) = version.hash("sha512") {
        return HashSum::from_str("sha512", hash.clone());
    }
    if let Some(hash) = version.hash("sha256") {
        return HashSum::from_str("sha256", hash.clone());
    }
    Err(no_hash_error(config, version))
}

/// How many connections are open to a domain.
pub open spec fn connections(domains: Map<Seq<char>, u8>, domain: Seq<char>) -> u8 {
    value_or(domains, domain, 0u8)
}

/// No domain has more than three connections.
pub open spec fn few_connections(domains: Map<Seq<char>, u8>) -> bool {
    forall|d: Seq<char>| domains.dom().contains(d) ==> #[trigger] domains[d] <= 3
}

/// The domains with one more connection.
pub open spec fn opened(domains: Map<Seq<char>, u8>, domain: Seq<char>) -> Map<Seq<char>, u8> {
    domains.insert(domain, (connections(domains, domain) + 1) as u8)
}

/// The domains with one connection less.
pub open spec fn closed_one(domains: Map<Seq<char>, u8>, domain: Seq<char>) -> Map<Seq<char>, u8> {
    if connections(domains, domain) > 0 {
        domains.insert(domain, (connections(domains, domain) - 1) as u8)
    } else {
        domains
    }
}

/// Opens a connection to a domain, unless three are open.
pub fn add_domain(domain: String, domains: &mut StringHashMap<u8>) -> (r: bool)
    ensures
        few_connections(old(domains)@) ==> few_connections(final(domains)@),
        r == (connections(old(domains)@, domain@) < 3),
        final(domains)@ == if r {
            opened(old(domains)@, domain@)
        } else {
            old(domains)@
        },
{
    let count: u8 = match domains.get(domain.as_str()) {
        Some(n) => *n,
        None => 0,
    };
    if count < 3 {
        domains.insert(domain, count + 1);
        return true;
    }
    false
}

/// Closes a connection to a domain.
pub fn remove_domain(domain: &str, domains: &mut StringHashMap<u8>)
    ensures
        few_connections(old(domains)@) ==> few_connections(final(domains)@),
        final(domains)@ == closed_one(old(domains)@, domain@),
{
    let count: u8 = match domains.get(domain) {
        Some(n) => *n,
        None => 0,
    };
    if count > 0 {
        domains.insert(domain.to_owned(), count - 1);
    }
}

/// Closing a connection undoes opening it: every domain has as many as before.
pub proof fn law_closing_undoes_opening(
    domains: Map<Seq<char>, u8>,
    domain: Seq<char>,
    other: Seq<char>,
)
    requires
        connections(domains, domain) < 3,
    ensures
        connections(closed_one(opened(domains, domain), domain), other) == connections(
            domains,
            other,
        ),
{
}

/// A package that is to be downloaded.
#[derive(Debug)]
pub struct Uri {
    /// The addresses that are left to try.
    pub uris: VecDeque<String>,
    pub size: u64,
    /// Where the package goes.
    pub archive: String,
    /// Where the package is written while it is being downloaded.
    pub partial: String,
    pub hash: Option<HashSum>,
    pub filename: String,
}

/// What happens in a download, for the one who watches it.
#[derive(Debug)]
pub enum Message {
    Exit,
    Finished,
    Debug(String),
    Verbose(String),
    /// An error after which the download goes on, and the size that is to be
    /// downloaded again.
    NonFatal((String, u64)),
    Update(u64),
}

/// What is done about a package that may be on disk.
#[derive(Debug, Clone, Copy, PartialEq, Eq, Structural)]
pub enum OnDisk {
    /// It is not there.
    Download,
    /// It is there and is the right one.
    Keep,
    /// Something else is there: remove that, and download.
    Replace,
}

/// What is done about the next address.
#[derive(Debug)]
pub enum Attempt {
    /// The address has no domain. It is dropped.
    Skipped(String),
    /// The domain has too many connections. The address is tried again after
    /// the others.
    Busy(String),
    /// A connection to the domain is open: say so, and download from the
    /// address.
    Start { url: String, domain: String, message: Message },
    /// No address is left.
    Exhausted(NalaError),
}

/// What is done when a download has ended.
#[derive(Debug)]
pub enum Outcome {
    /// The file is good: move it to the archive, say so, and close the
    /// connection.
    Archive(Message),
    /// The file is bad: remove it and give up.
    Reject(NalaError),
    /// Nothing came: say so, close the connection, and try the next address.
    Retry(Message),
}

/// The error when no address is left.
pub open spec fn exhausted(filename: Seq<char>) -> Seq<char> {
    "No URIs could be downloaded for "@ + filename
}

/// The error for a file with the wrong hash.
pub open spec fn wrong_checksum(filename: Seq<char>) -> Seq<char> {
    "Checksum did not match for "@ + filename
}

/// The queue without its first address.
pub open spec fn without_first(queue: Seq<String>) -> Seq<String> {
    queue.skip(1)
}

/// The two downloads differ at most in the addresses that are left.
pub open spec fn same_download(a: Uri, b: Uri) -> bool {
    &&& a.size == b.size
    &&& a.archive == b.archive
    &&& a.partial == b.partial
    &&& a.hash == b.hash
    &&& a.filename == b.filename
}

/// What becomes of the first address of a queue, in which `domain` was found:
/// without a domain it is dropped, a domain with too many connections puts it
/// off, and otherwise a connection is opened.
pub open spec fn attempted(
    queue: Seq<String>,
    domain: Option<Seq<char>>,
    domains: Map<Seq<char>, u8>,
    r: Attempt,
    queue_after: Seq<String>,
    domains_after: Map<Seq<char>, u8>,
) -> bool {
    match domain {
        None => {
            &&& r is Skipped
            &&& r->Skipped_0 == queue[0]
            &&& queue_after == without_first(queue)
            &&& domains_after == domains
        },
        Some(name) => if connections(domains, name) < 3 {
            &&& r is Start
            &&& r->url == queue[0]
            &&& r->domain@ == name
            &&& r->message is Verbose
            &&& r->message->Verbose_0@ == "Starting: "@ + queue[0]@
            &&& queue_after == without_first(queue)
            &&& domains_after == opened(domains, name)
        } else {
            &&& r is Busy
            &&& r->Busy_0@ == queue[0]@
            &&& queue_after == without_first(queue).push(queue[0])
            &&& domains_after == domains
        },
    }
}

impl Uri {
    /// The download of a version. `uris` are its addresses.
    pub fn from_version(
        version: &Version,
        config: &Config,
        uris: VecDeque<String>,
        archive: &str,
    ) -> (r: Result<Uri, NalaError>)
        requires
            pkg_file_name(*version) is Some,
        ensures
            match version_hash(*version) {
                Some((long, hash)) => {
                    let filename = pkg_file_name(*version)->0;
                    &&& r is Ok
                    &&& r->Ok_0.uris == uris
                    &&& r->Ok_0.size == version.size
                    &&& r->Ok_0.archive@ == path_in(archive@, filename)
                    &&& r->Ok_0.partial@ == path_in(path_in(archive@, "partial"@), filename)
                    &&& r->Ok_0.filename@ == filename
                    &&& r->Ok_0.hash is Some
                    &&& r->Ok_0.hash->0 is Sha512 <==> long
                    &&& r->Ok_0.hash->0.value() == hash
                },
                None => fails_with(r, no_hash(*config, *version)),
            },
    {
        let filename = get_pkg_name(version);
        let partial_dir = join_path(archive, "partial");
        let hash = match get_hash(config, version) {
            Ok(hash) => hash,
            Err(e) => {
                return Err(e);
            },
        };
        Ok(
            Uri {
                uris,
                size: version.size,
                archive: join_path(archive, filename.as_str()),
                partial: join_path(partial_dir.as_str(), filename.as_str()),
                hash: Some(hash),
                filename,
            },
        )
    }

    /// Checks the hash of what was downloaded. Without a known hash nothing is
    /// checked.
    pub fn check_hash(&self, other: &HashSum) -> (r: Result<(), NalaError>)
        ensures
            match self.hash {
                Some(hash) => if other.agrees(hash) {
                    r is Ok
                } else {
                    fails_with(r, wrong_checksum(self.filename@))
                },
                None => r is Ok,
            },
    {
        if let Some(hash) = &self.hash {
            if !other.equals(hash) {
                let mut message = "Checksum did not match for ".to_owned();
                message.append(self.filename.as_str());
                return Err(NalaError::from_string(message));
            }
        }
        Ok(())
    }

    /// What is done when a download from `url` has ended, with the hash of what
    /// came or the reason why nothing did.
    pub fn settle(&self, url: &str, result: Result<HashSum, String>) -> (r: Outcome)
        ensures
            match result {
                Ok(other) => if self.hash is None || other.agrees(self.hash->0) {
                    r is Archive && r->Archive_0 is Verbose && r->Archive_0->Verbose_0@
                        == "Finished: "@ + url@
                } else {
                    r is Reject && r->Reject_0.message@ == wrong_checksum(self.filename@)
                },
                Err(reason) => r is Retry && r->Retry_0 == Message::NonFatal((reason, self.size)),
            },
    {
        match result {
            Ok(other) => match self.check_hash(&other) {
                Ok(()) => {
                    let mut text = "Finished: ".to_owned();
                    text.append(url);
                    Outcome::Archive(Message::Verbose(text))
                },
                Err(e) => Outcome::Reject(e),
            },
            Err(reason) => Outcome::Retry(Message::NonFatal((reason, self.size))),
        }
    }

    /// What is done about the package before anything is downloaded. `found`
    /// is the hash of the file in its place, where there is one.
    pub fn on_disk(&self, present: bool, found: &Option<HashSum>) -> (r: OnDisk)
        ensures
            r == if !present {
                OnDisk::Download
            } else {
                match (self.hash, *found) {
                    (Some(hash), Some(other)) => if hash.agrees(other) {
                        OnDisk::Keep
                    } else {
                        OnDisk::Replace
                    },
                    _ => OnDisk::Replace,
                }
            },
    {
        if !present {
            return OnDisk::Download;
        }
        match (&self.hash, found) {
            (Some(hash), Some(other)) => if hash.equals(other) {
                OnDisk::Keep
            } else {
                OnDisk::Replace
            },
            _ => OnDisk::Replace,
        }
    }

    /// The algorithm by which a download is hashed.
    pub fn hash_type(&self) -> (r: &'static str)
        ensures
            r@ == match self.hash {
                Some(hash) => hash.algorithm(),
                None => "sha512"@,
            },
    {
        match &self.hash {
            Some(hash) => hash.str_type(),
            None => "sha512",
        }
    }

    /// Takes the first address, in which `domain` was found. A connection is
    /// opened where the domain allows one more.
    pub fn attempt(&mut self, domain: Option<String>, domains: &mut StringHashMap<u8>) -> (r: Attempt)
        requires
            old(self).uris@.len() > 0,
        ensures
            few_connections(old(domains)@) ==> few_connections(final(domains)@),
            same_download(*old(self), *final(self)),
            attempted(
                old(self).uris@,
                text_opt(domain),
                old(domains)@,
                r,
                final(self).uris@,
                final(domains)@,
            ),
    {
        let ghost queue = self.uris@;
        let url = match self.uris.pop_front() {
            Some(url) => url,
            None => {
                assert(false);
                return Attempt::Skipped(String::new());
            },
        };
        assert(self.uris@ =~= without_first(queue));
        let domain = match domain {
            Some(domain) => domain,
            None => {
                return Attempt::Skipped(url);
            },
        };
        if !add_domain(domain.clone(), domains) {
            // Too many connections to this domain.
            // Add the URL back to the queue and move to the next.
            let shown = url.clone();
            self.uris.push_back(url);
            return Attempt::Busy(shown);
        }
        let mut text = "Starting: ".to_owned();
        text.append(url.as_str());
        Attempt::Start { url, domain, message: Message::Verbose(text) }
    }

    /// Takes the next address. A connection is opened where its domain, as the
    /// pattern finds it, allows one more.
    pub fn download(&mut self, domains: &mut StringHashMap<u8>, regex: &Pattern) -> (r: Attempt)
        ensures
            few_connections(old(domains)@) ==> few_connections(final(domains)@),
            same_download(*old(self), *final(self)),
            if old(self).uris@.len() == 0 {
                &&& r is Exhausted
                &&& r->Exhausted_0.message@ == exhausted(old(self).filename@)
                &&& final(self).uris@ == old(self).uris@
                &&& final(domains)@ == old(domains)@
            } else {
                attempted(
                    old(self).uris@,
                    regex_group(regex@, old(self).uris@[0]@),
                    old(domains)@,
                    r,
                    final(self).uris@,
                    final(domains)@,
                )
            },
    {
        if self.uris.len() == 0 {
            let mut message = "No URIs could be downloaded for ".to_owned();
            message.append(self.filename.as_str());
            return Attempt::Exhausted(NalaError::from_string(message));
        }
        let domain = regex.capture(self.uris[0].as_str());
        self.attempt(domain, domains)
    }
}

/// Taking the first address off the queue leaves every other one there, and
/// putting it back at the end leaves the same addresses as before.
pub proof fn law_queue_keeps_addresses(queue: Seq<String>)
    requires
        queue.len() > 0,
    ensures
        without_first(queue).to_multiset().insert(queue[0]) == queue.to_multiset(),
        without_first(queue).push(queue[0]).to_multiset() == queue.to_multiset(),
{
    broadcast use vstd::seq_lib::group_to_multiset_ensures;

    assert(queue =~= seq![queue[0]] + without_first(queue));
    assert(queue.remove(0) =~= without_first(queue));
    vstd::seq_lib::to_multiset_remove(queue, 0);
    assert(without_first(queue).to_multiset().insert(queue[0]) =~= queue.to_multiset());
}

/// What `reqwest::Url::parse` makes of a text: the address in its normal form,
/// or what it says against the text.
pub uninterp spec fn parsed_url(text: Seq<char>) -> Result<Seq<char>, Seq<char>>;

/// `reqwest::Url::parse` and `reqwest::Url::as_str`: the address in its normal
/// form, or the error's text. Both depend on the text alone.
#[verifier::external_body]
fn parse_url(text: &str) -> (r: Result<String, String>)
    ensures
        match r {
            Ok(url) => parsed_url(text@) == Ok::<Seq<char>, Seq<char>>(url@),
            Err(e) => parsed_url(text@) == Err::<Seq<char>, Seq<char>>(e@),
        },
{
    match reqwest::Url::parse(text) {
        Ok(url) => Ok(url.as_str().to_string()),
        Err(e) => Err(e.to_string()),
    }
}

/// How addresses of a domain, or of a scheme, are reached.
#[derive(Debug, PartialEq, Eq, Hash)]
pub enum Proto {
    /// Over a proxy for http.
    Http(String),
    /// Over a proxy for https.
    Https(String),
    /// Without a proxy.
    Direct,
}

/// How addresses are reached, with the proxy's address as a text.
pub enum Route {
    Http(Seq<char>),
    Https(Seq<char>),
    Direct,
}

impl View for Proto {
    type V = Route;

    open spec fn view(&self) -> Route {
        match self {
            Proto::Http(s) => Route::Http(s@),
            Proto::Https(s) => Route::Https(s@),
            Proto::Direct => Route::Direct,
        }
    }
}

/// The route over a proxy for a protocol.
pub open spec fn route(proto: Seq<char>, proxy: Seq<char>) -> Route {
    if proto == "http"@ {
        Route::Http(proxy)
    } else {
        Route::Https(proxy)
    }
}

/// The proxy of a route for an address with some scheme. A proxy for one of
/// http and https does not serve the other; any other scheme is served.
pub open spec fn route_for(route: Route, scheme: Seq<char>) -> Option<Seq<char>> {
    match route {
        Route::Http(proxy) => if scheme == "https"@ {
            None
        } else {
            Some(proxy)
        },
        Route::Https(proxy) => if scheme == "http"@ {
            None
        } else {
            Some(proxy)
        },
        Route::Direct => None,
    }
}

/// The proxy of a route for any address.
pub open spec fn route_proxy(route: Route) -> Option<Seq<char>> {
    match route {
        Route::Http(proxy) => Some(proxy),
        Route::Https(proxy) => Some(proxy),
        Route::Direct => None,
    }
}

impl Proto {
    /// The route over a proxy for `http` or `https`.
    pub fn new(proto: &str, domain: String) -> (r: Self)
        requires
            proto@ == "http"@ || proto@ == "https"@,
        ensures
            r@ == route(proto@, domain@),
    {
        if str_eq(proto, "http") {
            Proto::Http(domain)
        } else {
            Proto::Https(domain)
        }
    }

    /// The proxy for an address with some scheme.
    pub fn maybe_proxy(&self, scheme: &str) -> (r: Option<String>)
        ensures
            text_opt(r) == route_for(self@, scheme@),
    {
        match self {
            Proto::Http(proxy) => if str_eq(scheme, "https") {
                None
            } else {
                Some(proxy.clone())
            },
            Proto::Https(proxy) => if str_eq(scheme, "http") {
                None
            } else {
                Some(proxy.clone())
            },
            Proto::Direct => None,
        }
    }

    /// The proxy for any address.
    pub fn proxy(&self) -> (r: Option<String>)
        ensures
            text_opt(r) == route_proxy(self@),
    {
        match self {
            Proto::Http(proxy) => Some(proxy.clone()),
            Proto::Https(proxy) => Some(proxy.clone()),
            Proto::Direct => None,
        }
    }
}

/// What apt's configuration says of the proxies for a protocol.
#[derive(Debug)]
pub struct ProxyConfig {
    /// The proxy for everything.
    pub value: Option<String>,
    /// The proxies for single domains.
    pub domains: Vec<(Option<String>, Option<String>)>,
}

/// The routes of a map.
pub open spec fn routes(map: Map<Seq<char>, Proto>) -> Map<Seq<char>, Route> {
    map.map_values(|p: Proto| p@)
}

/// A word, in lower case, that asks for no proxy.
pub open spec fn means_direct(lower: Seq<char>) -> bool {
    lower == "direct"@ || lower == "false"@
}

/// A domain is reached without a proxy.
pub open spec fn is_direct(proxy: Seq<char>) -> bool {
    means_direct(crate::text::lowercase(proxy))
}

/// Whether a word, in lower case, asks for no proxy.
pub fn asks_direct(lower: &str) -> (r: bool)
    ensures
        r == means_direct(lower@),
{
    str_eq(lower, "direct") || str_eq(lower, "false")
}

/// The routes with one more, over a proxy.
pub open spec fn with_proxy(
    map: Map<Seq<char>, Route>,
    key: Seq<char>,
    proto: Seq<char>,
    proxy: Seq<char>,
) -> Result<Map<Seq<char>, Route>, Seq<char>> {
    match parsed_url(proxy) {
        Ok(url) => Ok(map.insert(key, route(proto, url))),
        Err(e) => Err(e),
    }
}

/// The routes with that of a domain. An entry without a domain or a proxy is
/// passed over.
pub open spec fn with_domain(
    map: Map<Seq<char>, Route>,
    proto: Seq<char>,
    node: (Option<String>, Option<String>),
) -> Result<Map<Seq<char>, Route>, Seq<char>> {
    match node {
        (Some(domain), Some(proxy)) => if is_direct(proxy@) {
            Ok(map.insert(domain@, Route::Direct))
        } else {
            with_proxy(map, domain@, proto, proxy@)
        },
        _ => Ok(map),
    }
}

/// The routes with those of domains, one after the other.
pub open spec fn with_domains(
    map: Map<Seq<char>, Route>,
    proto: Seq<char>,
    nodes: Seq<(Option<String>, Option<String>)>,
) -> Result<Map<Seq<char>, Route>, Seq<char>>
    decreases nodes.len(),
{
    if nodes.len() == 0 {
        Ok(map)
    } else {
        match with_domains(map, proto, nodes.drop_last()) {
            Ok(before) => with_domain(before, proto, nodes.last()),
            Err(e) => Err(e),
        }
    }
}

/// The routes with all that is said of a protocol.
pub open spec fn with_protocol(
    map: Map<Seq<char>, Route>,
    proto: Seq<char>,
    config: Option<ProxyConfig>,
) -> Result<Map<Seq<char>, Route>, Seq<char>> {
    match config {
        None => Ok(map),
        Some(c) => match c.value {
            None => with_domains(map, proto, c.domains@),
            Some(proxy) => match with_proxy(map, proto, proto, proxy@) {
                Ok(all) => with_domains(all, proto, c.domains@),
                Err(e) => Err(e),
            },
        },
    }
}

/// The routes that apt's configuration asks for.
pub open spec fn proxy_routes(http: Option<ProxyConfig>, https: Option<ProxyConfig>) -> Result<
    Map<Seq<char>, Route>,
    Seq<char>,
> {
    match with_protocol(Map::empty(), "http"@, http) {
        Ok(map) => with_protocol(map, "https"@, https),
        Err(e) => Err(e),
    }
}

fn put_route(map: &mut StringHashMap<Proto>, key: String, proto: Proto)
    ensures
        routes(final(map)@) == routes(old(map)@).insert(key@, proto@),
{
    map.insert(key, proto);
    assert(routes(map@) =~= routes(old(map)@).insert(key@, proto@));
}

/// Puts the route over a proxy under a domain or a scheme. What stands against
/// the proxy's address is the error, and the routes stay as they are.
pub fn set_proxy(
    map: &mut StringHashMap<Proto>,
    key: String,
    proto: &str,
    parsed: Result<String, String>,
) -> (r: Result<(), NalaError>)
    requires
        proto@ == "http"@ || proto@ == "https"@,
    ensures
        match parsed {
            Ok(url) => r is Ok && routes(final(map)@) == routes(old(map)@).insert(
                key@,
                route(proto@, url@),
            ),
            Err(e) => fails_with(r, e@) && *final(map) == *old(map),
        },
{
    match parsed {
        Ok(url) => {
            put_route(map, key, Proto::new(proto, url));
            Ok(())
        },
        Err(e) => Err(NalaError::from_string(e)),
    }
}

fn add_proxy(map: &mut StringHashMap<Proto>, key: String, proto: &str, proxy: &str) -> (r: Result<
    (),
    NalaError,
>)
    requires
        proto@ == "http"@ || proto@ == "https"@,
    ensures
        match with_proxy(routes(old(map)@), key@, proto@, proxy@) {
            Ok(after) => r is Ok && routes(final(map)@) == after,
            Err(e) => fails_with(r, e),
        },
{
    let parsed = parse_url(proxy);
    set_proxy(map, key, proto, parsed)
}

fn add_protocol(map: &mut StringHashMap<Proto>, proto: &str, config: &Option<ProxyConfig>) -> (r:
    Result<(), NalaError>)
    requires
        proto@ == "http"@ || proto@ == "https"@,
    ensures
        match with_protocol(routes(old(map)@), proto@, *config) {
            Ok(after) => r is Ok && routes(final(map)@) == after,
            Err(e) => fails_with(r, e),
        },
{
    let proxies = match config {
        Some(proxies) => proxies,
        None => {
            return Ok(());
        },
    };
    // Check first for a proxy for everything
    if let Some(proxy) = &proxies.value {
        let key = proto.to_owned();
        match add_proxy(map, key, proto, proxy.as_str()) {
            Ok(()) => {},
            Err(e) => {
                return Err(e);
            },
        }
    }
    // Check for specific domain proxies
    let ghost base = routes(map@);
    let nodes = &proxies.domains;
    let mut i: usize = 0;
    assert(nodes@.take(0) =~= Seq::empty());
    while i < nodes.len()
        invariant
            i <= nodes@.len(),
            proto@ == "http"@ || proto@ == "https"@,
            *config is Some,
            *nodes == config->0.domains,
            with_protocol(routes(old(map)@), proto@, *config) == with_domains(base, proto@, nodes@),
            with_domains(base, proto@, nodes@.take(i as int)) == Ok::<
                Map<Seq<char>, Route>,
                Seq<char>,
            >(routes(map@)),
        decreases nodes@.len() - i,
    {
        assert(nodes@.take(i + 1).drop_last() =~= nodes@.take(i as int));
        if let (Some(domain), Some(proxy)) = (&nodes[i].0, &nodes[i].1) {
            let lower = crate::text::to_lower(proxy.as_str());
            if asks_direct(lower.as_str()) {
                put_route(map, domain.clone(), Proto::Direct);
            } else {
                match add_proxy(map, domain.clone(), proto, proxy.as_str()) {
                    Ok(()) => {},
                    Err(e) => {
                        proof {
                            lemma_domains_error(base, proto@, nodes@, i + 1);
                        }
                        return Err(e);
                    },
                }
            }
        }
        i = i + 1;
    }
    assert(nodes@.take(i as int) =~= nodes@);
    Ok(())
}

proof fn lemma_domains_error(
    map: Map<Seq<char>, Route>,
    proto: Seq<char>,
    nodes: Seq<(Option<String>, Option<String>)>,
    i: int,
)
    requires
        0 <= i <= nodes.len(),
        with_domains(map, proto, nodes.take(i)) is Err,
    ensures
        with_domains(map, proto, nodes) == with_domains(map, proto, nodes.take(i)),
    decreases nodes.len() - i,
{
    if i == nodes.len() {
        assert(nodes.take(i) =~= nodes);
    } else {
        assert(nodes.take(i + 1).drop_last() =~= nodes.take(i));
        lemma_domains_error(map, proto, nodes, i + 1);
    }
}

/// The routes that apt's configuration asks for, by domain and by scheme. The
/// first proxy that is no address is the error.
pub fn build_proxy(http: &Option<ProxyConfig>, https: &Option<ProxyConfig>) -> (r: Result<
    StringHashMap<Proto>,
    NalaError,
>)
    ensures
        match proxy_routes(*http, *https) {
            Ok(map) => r is Ok && routes(r->Ok_0@) == map,
            Err(e) => fails_with(r, e),
        },
{
    let mut map: StringHashMap<Proto> = StringHashMap::new();
    assert(routes(map@) =~= Map::empty());
    match add_protocol(&mut map, "http", http) {
        Ok(()) => {},
        Err(e) => {
            return Err(e);
        },
    }
    match add_protocol(&mut map, "https", https) {
        Ok(()) => Ok(map),
        Err(e) => Err(e),
    }
}

/// The proxy for an address: that of its domain where the domain has one for
/// its scheme, else that of the scheme. A domain that is reached directly has
/// none.
pub open spec fn proxy_for(map: Map<Seq<char>, Route>, domain: Seq<char>, scheme: Seq<char>) -> Option<
    Seq<char>,
> {
    let default = if map.dom().contains(scheme) {
        route_proxy(map[scheme])
    } else {
        None
    };
    if map.dom().contains(domain) {
        if map[domain] is Direct {
            None
        } else {
            match route_for(map[domain], scheme) {
                Some(proxy) => Some(proxy),
                None => default,
            }
        }
    } else {
        default
    }
}

/// The proxy for an address.
pub fn get_proxy(map: &StringHashMap<Proto>, domain: &str, scheme: &str) -> (r: Option<String>)
    ensures
        text_opt(r) == proxy_for(routes(map@), domain@, scheme@),
{
    if let Some(proto) = map.get(domain) {
        assert(routes(map@)[domain@] == proto@);
        if let Proto::Direct = proto {
            // This domain is specifically set to not use a proxy.
            return None;
        }
        // We have to check the maybe proxy as it is based on
        // the protocol of the URL matching the config.
        if let Some(proxy) = proto.maybe_proxy(scheme) {
            return Some(proxy);
        }
    }
    // Check for http/s default proxy.
    match map.get(scheme) {
        Some(proto) => {
            assert(routes(map@)[scheme@] == proto@);
            proto.proxy()
        },
        None => None,
    }
}

/// An address of a domain that is set to be reached directly never goes over a
/// proxy, whatever its scheme.
pub proof fn law_direct_domain_has_no_proxy(
    map: Map<Seq<char>, Route>,
    domain: Seq<char>,
    scheme: Seq<char>,
)
    requires
        map.dom().contains(domain),
        map[domain] is Direct,
    ensures
        proxy_for(map, domain, scheme) is None,
{
}

/// The configuration of one domain leaves every other domain as it is.
pub proof fn law_domains_are_independent(
    map: Map<Seq<char>, Route>,
    proto: Seq<char>,
    node: (Option<String>, Option<String>),
    domain: Seq<char>,
    scheme: Seq<char>,
)
    requires
        node.0 is Some ==> node.0->0@ != domain && node.0->0@ != scheme,
    ensures
        with_domain(map, proto, node) is Ok ==> proxy_for(
            with_domain(map, proto, node)->Ok_0,
            domain,
            scheme,
        ) == proxy_for(map, domain, scheme),
{
}

/// What comes of packages that cannot be authenticated.
#[derive(Debug)]
pub enum Trust {
    /// There are none.
    Trusted,
    /// The configuration allows them. The lines warn of them.
    Allowed(Vec<String>),
    /// They are refused. The lines warn of them.
    Refused(Vec<String>, NalaError),
}

/// A message on the error stream.
pub open spec fn stderr_line(config: Config, theme: Theme, text: Seq<char>) -> Seq<char> {
    colored(config, theme, stderr_header(theme)) + " "@ + text
}

/// The warning of packages that cannot be authenticated.
pub open spec fn untrusted_lines(config: Config, untrusted: Seq<Seq<char>>) -> Seq<Seq<char>> {
    seq![
        stderr_line(config, Theme::Warning, "The Following packages cannot be authenticated!"@),
        "  "@ + joined(untrusted, ", "@),
    ]
}

/// The configuration allows packages that cannot be authenticated.
pub open spec fn allows_untrusted(config: Config) -> bool {
    value_or(config.apt.bools@, "APT::Get::AllowUnauthenticated"@, false)
}

/// What comes of packages that cannot be authenticated, with the error for
/// those that are refused.
pub(crate) fn judge_untrusted(config: &Config, untrusted: &Vec<String>, refusal: NalaError) -> (r:
    Trust)
    ensures
        match r {
            Trust::Trusted => untrusted@.len() == 0,
            Trust::Allowed(lines) => untrusted@.len() > 0 && allows_untrusted(*config) && texts(
                lines@,
            ) == untrusted_lines(*config, texts(untrusted@)).push(
                stderr_line(
                    *config,
                    Theme::Notice,
                    "Configuration is set to allow installation of unauthenticated packages."@,
                ),
            ),
            Trust::Refused(lines, error) => untrusted@.len() > 0 && !allows_untrusted(*config)
                && texts(lines@) == untrusted_lines(*config, texts(untrusted@)) && error == refusal,
        },
{
    if untrusted.len() == 0 {
        return Trust::Trusted;
    }
    let mut lines: Vec<String> = Vec::new();
    assert(texts(lines@) =~= Seq::empty());
    push_text(
        &mut lines,
        config.stderr(Theme::Warning, "The Following packages cannot be authenticated!"),
    );
    let mut names = "  ".to_owned();
    names.append(join(untrusted, ", ").as_str());
    push_text(&mut lines, names);
    assert(texts(lines@) =~= untrusted_lines(*config, texts(untrusted@)));
    if !config.apt.bool("APT::Get::AllowUnauthenticated", false) {
        return Trust::Refused(lines, refusal);
    }
    push_text(
        &mut lines,
        config.stderr(
            Theme::Notice,
            "Configuration is set to allow installation of unauthenticated packages.",
        ),
    );
    Trust::Allowed(lines)
}

/// If there are any packages that cannot be authenticated, checks whether
/// fetching them is allowed. Each of `untrusted` is a package name or an
/// address.
pub fn untrusted_error(config: &Config, untrusted: &Vec<String>) -> (r: Trust)
    ensures
        match r {
            Trust::Trusted => untrusted@.len() == 0,
            Trust::Allowed(lines) => untrusted@.len() > 0 && allows_untrusted(*config) && texts(
                lines@,
            ) == untrusted_lines(*config, texts(untrusted@)).push(
                stderr_line(
                    *config,
                    Theme::Notice,
                    "Configuration is set to allow installation of unauthenticated packages."@,
                ),
            ),
            Trust::Refused(lines, error) => untrusted@.len() > 0 && !allows_untrusted(*config)
                && texts(lines@) == untrusted_lines(*config, texts(untrusted@)) && error.message@
                == "Some packages were unable to be authenticated.\n  If you're sure use "@ + colored(
                *config,
                Theme::Notice,
                "--allow-unauthenticated"@,
            ),
        },
{
    let mut message =
        "Some packages were unable to be authenticated.\n  If you're sure use ".to_owned();
    message.append(config.color(Theme::Notice, "--allow-unauthenticated").as_str());
    judge_untrusted(config, untrusted, NalaError::from_string(message))
}

/// An address from the command line.
#[derive(Debug)]
pub struct CliUri {
    pub uri: String,
    pub hash: Option<HashSum>,
    /// What the user is warned of.
    pub warning: Option<String>,
}

/// The address in parts of the command line: the first two.
pub open spec fn cli_uri(parts: Seq<Seq<char>>) -> Seq<char> {
    parts[0] + ":"@ + parts[1]
}

/// Reads an address from the command line: a protocol, the rest of the address
/// and its hash, with colons between them. The length of the hash tells its
/// algorithm.
pub fn parse_cmdline(text: &str) -> (r: Result<CliUri, NalaError>)
    ensures
        ({
            let parts = split_ended(text@, ":"@);
            if parts.len() == 0 {
                fails_with(r, "No protocol was defined"@)
            } else if parts.len() == 1 {
                fails_with(r, "No uri was defined"@)
            } else if parts.len() == 2 {
                &&& r is Ok
                &&& r->Ok_0.uri@ == cli_uri(parts)
                &&& r->Ok_0.hash is None
                &&& text_opt(r->Ok_0.warning) == Some("No Hash Found for '"@ + cli_uri(parts) + "'"@)
            } else {
                let len = encode_utf8(parts[2]).len();
                if len == 128 || len == 64 {
                    &&& r is Ok
                    &&& r->Ok_0.uri@ == cli_uri(parts)
                    &&& r->Ok_0.hash is Some
                    &&& r->Ok_0.hash->0 is Sha512 <==> len == 128
                    &&& r->Ok_0.hash->0.value() == parts[2]
                    &&& r->Ok_0.warning is None
                } else {
                    fails_with(r, unsupported(decimal(len)))
                }
            }
        }),
{
    let parts = split_terminator(text, ":");
    let ghost all = texts(parts@);
    assert(all.len() == parts@.len());
    if parts.len() == 0 {
        return Err(NalaError::new("No protocol was defined"));
    }
    if parts.len() == 1 {
        return Err(NalaError::new("No uri was defined"));
    }
    assert(all[0] == parts@[0]@ && all[1] == parts@[1]@);
    // Rebuild the string to maintain order
    let mut uri = parts[0].clone();
    uri.append(":");
    uri.append(parts[1].as_str());
    if parts.len() == 2 {
        let mut warning = "No Hash Found for '".to_owned();
        warning.append(uri.as_str());
        warning.append("'");
        return Ok(CliUri { uri, hash: None, warning: Some(warning) });
    }
    assert(all[2] == parts@[2]@);
    let len: usize = parts[2].as_str().as_bytes().len();
    match HashSum::from_str_len(len, parts[2].clone()) {
        Ok(hash) => Ok(CliUri { uri, hash: Some(hash), warning: None }),
        Err(e) => Err(e),
    }
}

/// The downloads of one run.
pub struct Downloader {
    pub uris: Vec<Uri>,
    pub filter: UriFilter,
    pub archive_dir: String,
    pub partial_dir: String,
    /// Used to count how many connections are open to a domain.
    /// Only 3 at a time are allowed per domain.
    pub domains: StringHashMap<u8>,
}

/// The names of the downloads among the first `n` that have no hash are added
/// to those that cannot be authenticated.
pub open spec fn with_unhashed(
    config: Config,
    untrusted: Seq<Seq<char>>,
    uris: Seq<Uri>,
    n: int,
) -> Seq<Seq<char>>
    decreases n,
{
    if n <= 0 {
        untrusted
    } else {
        let before = with_unhashed(config, untrusted, uris, n - 1);
        if uris[n - 1].hash is None {
            with_text(before, colored(config, Theme::Error, uris[n - 1].filename@))
        } else {
            before
        }
    }
}

impl Downloader {
    /// A run without downloads.
    pub fn new(config: &Config, regex: NalaRegex) -> (r: Downloader)
        ensures
            r.filter.wf(),
            r.uris@ == Seq::<Uri>::empty(),
            r.filter.mirrors@ == Map::<Seq<char>, String>::empty(),
            r.filter.regex == regex,
            texts(r.filter.untrusted@) == Seq::<Seq<char>>::empty(),
            r.archive_dir@ == path_of(*config, Paths::Archive),
            r.partial_dir@ == path_in(path_of(*config, Paths::Archive), "partial"@),
            r.domains@ == Map::<Seq<char>, u8>::empty(),
            few_connections(r.domains@),
    {
        let archive_dir = config.get_path(&Paths::Archive);
        let partial_dir = join_path(archive_dir.as_str(), "partial");
        Downloader {
            uris: Vec::new(),
            filter: UriFilter::new(regex),
            archive_dir,
            partial_dir,
            domains: StringHashMap::new(),
        }
    }

    /// Adds the download of a version. `uris` are its addresses.
    pub fn add_version(&mut self, version: &Version, config: &Config, uris: VecDeque<String>) -> (r:
        Result<(), NalaError>)
        requires
            pkg_file_name(*version) is Some,
        ensures
            final(self).filter == old(self).filter,
            final(self).archive_dir == old(self).archive_dir,
            final(self).partial_dir == old(self).partial_dir,
            final(self).domains == old(self).domains,
            match version_hash(*version) {
                Some((long, hash)) => {
                    let filename = pkg_file_name(*version)->0;
                    let uri = final(self).uris@.last();
                    &&& r is Ok
                    &&& final(self).uris@ == old(self).uris@.push(uri)
                    &&& uri.uris == uris
                    &&& uri.size == version.size
                    &&& uri.archive@ == path_in(old(self).archive_dir@, filename)
                    &&& uri.partial@ == path_in(
                        path_in(old(self).archive_dir@, "partial"@),
                        filename,
                    )
                    &&& uri.filename@ == filename
                    &&& uri.hash is Some
                    &&& uri.hash->0 is Sha512 <==> long
                    &&& uri.hash->0.value() == hash
                },
                None => fails_with(r, no_hash(*config, *version)) && final(self).uris@ == old(
                    self,
                ).uris@,
            },
    {
        match Uri::from_version(version, config, uris, self.archive_dir.as_str()) {
            Ok(uri) => {
                self.uris.push(uri);
                Ok(())
            },
            Err(e) => Err(e),
        }
    }

    /// Adds the download of an address from the command line. `headers` is what
    /// the server said of it, and `content_len` the size among that.
    pub fn add_from_cmdline(&mut self, cli: CliUri, content_len: Option<&str>, headers: &str) -> (r:
        Result<(), NalaError>)
        ensures
            final(self).filter == old(self).filter,
            final(self).archive_dir == old(self).archive_dir,
            final(self).partial_dir == old(self).partial_dir,
            final(self).domains == old(self).domains,
            r is Err ==> final(self).uris@ == old(self).uris@,
            match content_len {
                None => fails_with(r, "content-length does not exist in "@ + headers@),
                Some(text) => match number_of(text@) {
                    None => fails_with(r, "Parsing content-len to usize "@ + headers@),
                    Some(size) => {
                        let parts = split_ended(cli.uri@, "/"@);
                        if parts.len() == 0 {
                            fails_with(r, "'"@ + cli.uri@ + "' is malformed!"@)
                        } else {
                            let uri = final(self).uris@.last();
                            &&& r is Ok
                            &&& final(self).uris@ == old(self).uris@.push(uri)
                            &&& texts(uri.uris@) == seq![cli.uri@]
                            &&& uri.size == size
                            &&& uri.archive@ == path_in(old(self).archive_dir@, parts.last())
                            &&& uri.partial@ == path_in(old(self).partial_dir@, parts.last())
                            &&& uri.hash == cli.hash
                            &&& uri.filename@ == parts.last()
                        }
                    },
                },
            },
    {
        let text = match content_len {
            Some(text) => text,
            None => {
                let mut message = "content-length does not exist in ".to_owned();
                message.append(headers);
                return Err(NalaError::from_string(message));
            },
        };
        let size: u64 = match parse_u64(text) {
            Some(size) => size,
            None => {
                let mut message = "Parsing content-len to usize ".to_owned();
                message.append(headers);
                return Err(NalaError::from_string(message));
            },
        };
        let parts = split_terminator(cli.uri.as_str(), "/");
        assert(texts(parts@).len() == parts@.len());
        if parts.len() == 0 {
            let mut message = "'".to_owned();
            message.append(cli.uri.as_str());
            message.append("' is malformed!");
            return Err(NalaError::from_string(message));
        }
        let filename = parts[parts.len() - 1].clone();
        assert(texts(parts@).last() == filename@);
        let mut uris: VecDeque<String> = VecDeque::new();
        uris.push_back(cli.uri);
        assert(texts(uris@) =~= seq![cli.uri@]);
        self.uris.push(
            Uri {
                uris,
                size,
                archive: join_path(self.archive_dir.as_str(), filename.as_str()),
                partial: join_path(self.partial_dir.as_str(), filename.as_str()),
                hash: cli.hash,
                filename,
            },
        );
        Ok(())
    }

    /// The downloads.
    pub fn uris(&self) -> (r: &Vec<Uri>)
        ensures
            *r == self.uris,
    {
        &self.uris
    }

    /// Takes the downloads, which are started from the last to the first.
    pub fn download(&mut self) -> (r: Vec<Uri>)
        ensures
            r@ == old(self).uris@.reverse(),
            final(self).uris@ == Seq::<Uri>::empty(),
            final(self).filter == old(self).filter,
            final(self).archive_dir == old(self).archive_dir,
            final(self).partial_dir == old(self).partial_dir,
            final(self).domains == old(self).domains,
    {
        let ghost all = self.uris@;
        let mut r: Vec<Uri> = Vec::new();
        while self.uris.len() > 0
            invariant
                all == old(self).uris@,
                self.filter == old(self).filter,
                self.archive_dir == old(self).archive_dir,
                self.partial_dir == old(self).partial_dir,
                self.domains == old(self).domains,
                self.uris@.len() <= all.len(),
                self.uris@ == all.take(self.uris@.len() as int),
                r@ == all.reverse().take(all.len() - self.uris@.len()),
            decreases self.uris@.len(),
        {
            let ghost n = self.uris@.len() as int;
            if let Some(uri) = self.uris.pop() {
                assert(uri == all[n - 1]);
                r.push(uri);
            }
            assert(self.uris@ =~= all.take(n - 1));
            assert(r@ =~= all.reverse().take(all.len() - n + 1));
        }
        assert(r@ =~= all.reverse());
        r
    }

    /// Records the downloads that have no hash as ones that cannot be
    /// authenticated, and checks whether such downloads are allowed.
    pub fn check_trust(&mut self, config: &Config) -> (r: Trust)
        ensures
            old(self).filter.wf() ==> final(self).filter.wf(),
            final(self).uris == old(self).uris,
            final(self).archive_dir == old(self).archive_dir,
            final(self).partial_dir == old(self).partial_dir,
            final(self).domains == old(self).domains,
            final(self).filter.mirrors == old(self).filter.mirrors,
            final(self).filter.regex == old(self).filter.regex,
            texts(final(self).filter.untrusted@) == with_unhashed(
                *config,
                texts(old(self).filter.untrusted@),
                old(self).uris@,
                old(self).uris@.len() as int,
            ),
            ({
                let untrusted = texts(final(self).filter.untrusted@);
                match r {
                    Trust::Trusted => untrusted.len() == 0,
                    Trust::Allowed(lines) => untrusted.len() > 0 && allows_untrusted(*config)
                        && texts(lines@) == untrusted_lines(*config, untrusted).push(
                        stderr_line(
                            *config,
                            Theme::Notice,
                            "Configuration is set to allow installation of unauthenticated packages."@,
                        ),
                    ),
                    Trust::Refused(lines, error) => untrusted.len() > 0 && !allows_untrusted(
                        *config,
                    ) && texts(lines@) == untrusted_lines(*config, untrusted) && error.message@
                        == "Some packages were unable to be authenticated.\n  If you're sure use "@
                        + colored(*config, Theme::Notice, "--allow-unauthenticated"@),
                }
            }),
    {
        let ghost known = texts(self.filter.untrusted@);
        let mut i: usize = 0;
        while i < self.uris.len()
            invariant
                i <= self.uris@.len(),
                old(self).filter.wf() ==> self.filter.wf(),
                self.uris == old(self).uris,
                self.archive_dir == old(self).archive_dir,
                self.partial_dir == old(self).partial_dir,
                self.domains == old(self).domains,
                self.filter.mirrors == old(self).filter.mirrors,
                self.filter.regex == old(self).filter.regex,
                known == texts(old(self).filter.untrusted@),
                texts(self.filter.untrusted@) == with_unhashed(
                    *config,
                    known,
                    self.uris@,
                    i as int,
                ),
            decreases self.uris@.len() - i,
        {
            if self.uris[i].hash.is_none() {
                let filename = self.uris[i].filename.clone();
                self.filter.add_untrusted(config, filename.as_str());
            }
            i = i + 1;
        }
        untrusted_error(config, &self.filter.untrusted)
    }
}

/// How many downloads have finished.
#[derive(Debug, Clone, Copy, PartialEq, Eq, Structural)]
pub struct Run {
    pub current: usize,
    pub total: usize,
}

/// What is done about a message.
#[derive(Debug)]
pub enum RunAction {
    Nothing,
    /// Move the progress bar on by so many bytes.
    Advance(u64),
    /// Print a line for solving issues.
    Debug(String),
    /// Print a line.
    Print(String),
    /// Print a line, and move the progress bar so many bytes before its end.
    Rewind(String, u64),
    /// Stop.
    Stop,
}

impl Run {
    /// All downloads have finished.
    pub fn done(&self) -> (r: bool)
        ensures
            r == (self.current == self.total),
    {
        self.current == self.total
    }

    /// Takes a message from a download.
    pub fn handle(&mut self, config: &Config, msg: Message) -> (r: RunAction)
        requires
            old(self).current < usize::MAX,
        ensures
            final(self).total == old(self).total,
            final(self).current == if msg is Finished {
                old(self).current + 1
            } else {
                old(self).current as int
            },
            match msg {
                Message::Update(bytes) => r == RunAction::Advance(bytes),
                Message::Finished => r == RunAction::Nothing,
                Message::Exit => r == RunAction::Stop,
                Message::Debug(text) => r == if flag(*config, "debug"@, false) {
                    RunAction::Debug(text)
                } else {
                    RunAction::Nothing
                },
                Message::Verbose(text) => r == if is_verbose(*config) {
                    RunAction::Print(text)
                } else {
                    RunAction::Nothing
                },
                Message::NonFatal((err, size)) => r is Rewind && r->Rewind_0@ == "Error: "@ + err@
                    && r->Rewind_1 == size,
            },
    {
        match msg {
            Message::Update(bytes) => RunAction::Advance(bytes),
            Message::Finished => {
                self.current = self.current + 1;
                RunAction::Nothing
            },
            Message::Exit => RunAction::Stop,
            Message::Debug(text) => if config.debug() {
                RunAction::Debug(text)
            } else {
                RunAction::Nothing
            },
            Message::Verbose(text) => if config.verbose() {
                RunAction::Print(text)
            } else {
                RunAction::Nothing
            },
            Message::NonFatal((err, size)) => {
                let mut text = "Error: ".to_owned();
                text.append(err.as_str());
                RunAction::Rewind(text, size)
            },
        }
    }

    /// What stands beside the progress bar. `domains` lists the connections.
    pub fn status(&self, domains: &str) -> (r: Vec<String>)
        ensures
            texts(r@) == seq![
                "Total Packages:"@,
                " "@ + decimal(self.current as nat) + "/"@ + decimal(self.total as nat) + ", "@,
                "Connections:"@,
                " "@ + domains@,
            ],
    {
        let mut counts = " ".to_owned();
        counts.append(decimal_of(self.current as u128).as_str());
        counts.append("/");
        counts.append(decimal_of(self.total as u128).as_str());
        counts.append(", ");
        let mut open = " ".to_owned();
        open.append(domains);
        let r = vec!["Total Packages:".to_owned(), counts, "Connections:".to_owned(), open];
        assert(texts(r@) =~= seq![
            "Total Packages:"@,
            " "@ + decimal(self.current as nat) + "/"@ + decimal(self.total as nat) + ", "@,
            "Connections:"@,
            " "@ + domains@,
        ]);
        r
    }
}

/// The first of the downloads from `i` on that failed.
pub open spec fn first_failure<T>(outcomes: Seq<Result<T, NalaError>>, i: int) -> Option<int>
    decreases outcomes.len() - i,
{
    if i < 0 || i >= outcomes.len() {
        None
    } else if outcomes[i] is Err {
        Some(i)
    } else {
        first_failure(outcomes, i + 1)
    }
}

/// The downloads, none of which failed.
pub open spec fn successes<T>(outcomes: Seq<Result<T, NalaError>>) -> Seq<T> {
    Seq::new(outcomes.len(), |i: int| outcomes[i]->Ok_0)
}

/// All the downloads, by what came of each. The first that failed is the error.
pub fn finish<T>(outcomes: Vec<Result<T, NalaError>>) -> (r: Result<Vec<T>, NalaError>)
    ensures
        match first_failure(outcomes@, 0) {
            Some(i) => r == Err::<Vec<T>, NalaError>(outcomes@[i]->Err_0),
            None => r is Ok && r->Ok_0@ == successes(outcomes@),
        },
{
    let ghost all = outcomes@;
    let mut finished: Vec<T> = Vec::new();
    for outcome in it: outcomes
        invariant
            it.seq() == all,
            first_failure(all, it.index() as int) == first_failure(all, 0),
            finished@ == successes(all).take(it.index() as int),
    {
        match outcome {
            Ok(uri) => {
                finished.push(uri);
                assert(finished@ =~= successes(all).take(it.index() + 1));
            },
            Err(e) => {
                return Err(e);
            },
        }
    }
    assert(finished@ =~= successes(all));
    Ok(finished)
}

/// What a run comes to: nothing where the user asked to exit. Otherwise one
/// download that failed fails the run, and so does a run without downloads.
pub open spec fn run_ends(
    outcomes: Seq<Result<Uri, NalaError>>,
    exit: bool,
    r: Result<Vec<Uri>, NalaError>,
) -> bool {
    if exit {
        r is Ok && r->Ok_0@ == Seq::<Uri>::empty()
    } else {
        match first_failure(outcomes, 0) {
            Some(i) => r == Err::<Vec<Uri>, NalaError>(outcomes[i]->Err_0),
            None => if outcomes.len() == 0 {
                fails_with(r, "Downloads Failed"@)
            } else {
                r is Ok && r->Ok_0@ == successes(outcomes)
            },
        }
    }
}

/// What a run comes to, by what came of each download, in the order in which
/// they ended. `exit` says that the user asked to exit before the end.
pub fn run(outcomes: Vec<Result<Uri, NalaError>>, exit: bool) -> (r: Result<Vec<Uri>, NalaError>)
    ensures
        run_ends(outcomes@, exit, r),
{
    if exit {
        return Ok(Vec::new());
    }
    let finished = match finish(outcomes) {
        Ok(finished) => finished,
        Err(e) => {
            return Err(e);
        },
    };
    if finished.len() == 0 {
        return Err(NalaError::new("Downloads Failed"));
    }
    Ok(finished)
}

/// The places from 0 up to `n`, each once, in some order.
pub open spec fn is_order(order: Seq<int>, n: int) -> bool {
    &&& order.len() == n
    &&& order.no_duplicates()
    &&& forall|q: int| 0 <= q < n ==> #[trigger] order.contains(q)
}

/// Each outcome is that of the queued download whose place stands in `order`.
pub open spec fn answers(
    queued: Seq<Uri>,
    order: Seq<int>,
    outcomes: Seq<Result<Uri, NalaError>>,
) -> bool {
    &&& is_order(order, queued.len() as int)
    &&& outcomes.len() == order.len()
    &&& forall|i: int|
        0 <= i < outcomes.len() ==> ((#[trigger] outcomes[i]) is Ok ==> same_download(
            queued[order[i]],
            outcomes[i]->Ok_0,
        ))
}

/// A run that succeeds, and that the user did not leave, gives every download
/// that was queued exactly once, and no other. One failure fails it.
pub proof fn law_run_is_complete(
    queued: Seq<Uri>,
    order: Seq<int>,
    outcomes: Seq<Result<Uri, NalaError>>,
    r: Result<Vec<Uri>, NalaError>,
    q: int,
)
    requires
        answers(queued, order, outcomes),
        run_ends(outcomes, false, r),
        0 <= q < queued.len(),
    ensures
        r is Ok <==> forall|i: int| 0 <= i < outcomes.len() ==> (#[trigger] outcomes[i]) is Ok,
        r is Ok ==> r->Ok_0@.len() == queued.len(),
        r is Ok ==> exists|i: int|
            0 <= i < r->Ok_0@.len() && order[i] == q && same_download(
                queued[q],
                #[trigger] r->Ok_0@[i],
            ) && forall|j: int|
                0 <= j < r->Ok_0@.len() && #[trigger] order[j] == q ==> j == i,
{
    lemma_first_failure(outcomes, 0);
    assert(order.contains(q));
    let i = choose|i: int| 0 <= i < order.len() && order[i] == q;
    if r is Ok {
        assert(r->Ok_0@[i] == outcomes[i]->Ok_0);
    }
}

proof fn lemma_first_failure<T>(outcomes: Seq<Result<T, NalaError>>, i: int)
    requires
        0 <= i <= outcomes.len(),
    ensures
        match first_failure(outcomes, i) {
            Some(k) => i <= k < outcomes.len() && outcomes[k] is Err,
            None => forall|k: int| i <= k < outcomes.len() ==> (#[trigger] outcomes[k]) is Ok,
        },
    decreases outcomes.len() - i,
{
    if i < outcomes.len() {
        lemma_first_failure(outcomes, i + 1);
    }
}

/// The first version from place `i` on that can be downloaded.
pub open spec fn first_downloadable(versions: Seq<Version>, i: int) -> Option<int>
    decreases versions.len() - i,
{
    if i >= versions.len() || i < 0 {
        None
    } else if versions[i].downloadable {
        Some(i)
    } else {
        first_downloadable(versions, i + 1)
    }
}

/// The warning of a version that cannot be downloaded.
pub open spec fn no_source(pkg: Package, ver: Version) -> Seq<char> {
    "Can't find a source to download version '"@ + ver.version@ + "' of '"@ + pkg.long_name@ + "'"@
}

/// The version of a package that is downloaded: the first that can be. The
/// versions before it are warned of.
pub fn select_version(pkg: &Package) -> (r: (Option<usize>, Vec<String>))
    ensures
        match first_downloadable(pkg.versions@, 0) {
            Some(i) => r.0 == Some(i as usize) && 0 <= i < pkg.versions@.len() && r.1@.len() == i,
            None => r.0 is None && r.1@.len() == pkg.versions@.len(),
        },
        forall|k: int|
            0 <= k < r.1@.len() ==> (#[trigger] r.1@[k])@ == no_source(*pkg, pkg.versions@[k]),
{
    let mut warnings: Vec<String> = Vec::new();
    let mut i: usize = 0;
    while i < pkg.versions.len()
        invariant
            i <= pkg.versions@.len(),
            first_downloadable(pkg.versions@, i as int) == first_downloadable(pkg.versions@, 0),
            warnings@.len() == i,
            forall|k: int|
                0 <= k < i ==> (#[trigger] warnings@[k])@ == no_source(*pkg, pkg.versions@[k]),
        decreases pkg.versions@.len() - i,
    {
        if pkg.versions[i].downloadable {
            return (Some(i), warnings);
        }
        let mut warning = "Can't find a source to download version '".to_owned();
        warning.append(pkg.versions[i].version.as_str());
        warning.append("' of '");
        warning.append(pkg.long_name.as_str());
        warning.append("'");
        warnings.push(warning);
        i = i + 1;
    }
    (None, warnings)
}

/// What the download command does.
#[derive(Debug)]
pub struct DownloadPlan {
    /// The packages and the versions that are downloaded, by their places.
    pub picks: Vec<(usize, usize)>,
    pub warnings: Vec<String>,
    /// The names that stand for no package, in colour.
    pub not_found: Vec<String>,
}

/// The names among the first `n` that stand for no package.
pub open spec fn unknown_names(
    config: Config,
    names: Seq<String>,
    found: Seq<Option<Package>>,
    n: int,
) -> Seq<Seq<char>>
    decreases n,
{
    if n <= 0 {
        Seq::empty()
    } else {
        let before = unknown_names(config, names, found, n - 1);
        if found[n - 1] is None {
            before.push(colored(config, Theme::Notice, names[n - 1]@))
        } else {
            before
        }
    }
}

/// The versions that are picked for the first `n` names.
pub open spec fn picked(found: Seq<Option<Package>>, n: int) -> Seq<(usize, usize)>
    decreases n,
{
    if n <= 0 {
        Seq::empty()
    } else {
        let before = picked(found, n - 1);
        match found[n - 1] {
            Some(pkg) => match first_downloadable(pkg.versions@, 0) {
                Some(i) => before.push(((n - 1) as usize, i as usize)),
                None => before,
            },
            None => before,
        }
    }
}

/// The versions of a package that are warned of.
pub open spec fn sourceless(pkg: Package) -> Seq<Seq<char>> {
    Seq::new(
        match first_downloadable(pkg.versions@, 0) {
            Some(i) => i as nat,
            None => pkg.versions@.len(),
        },
        |k: int| no_source(pkg, pkg.versions@[k]),
    )
}

/// The warnings for the first `n` names.
pub open spec fn download_warnings(found: Seq<Option<Package>>, n: int) -> Seq<Seq<char>>
    decreases n,
{
    if n <= 0 {
        Seq::empty()
    } else {
        match found[n - 1] {
            Some(pkg) => download_warnings(found, n - 1) + sourceless(pkg),
            None => download_warnings(found, n - 1),
        }
    }
}

/// Picks what is downloaded: for each name a package, where there is one, and
/// of that its first version that can be downloaded.
pub fn plan_downloads(config: &Config, names: &Vec<String>, found: &Vec<Option<Package>>) -> (r:
    DownloadPlan)
    requires
        names@.len() == found@.len(),
    ensures
        r.picks@ == picked(found@, found@.len() as int),
        texts(r.warnings@) == download_warnings(found@, found@.len() as int),
        texts(r.not_found@) == unknown_names(*config, names@, found@, found@.len() as int),
{
    let mut picks: Vec<(usize, usize)> = Vec::new();
    let mut warnings: Vec<String> = Vec::new();
    let mut not_found: Vec<String> = Vec::new();
    let mut i: usize = 0;
    assert(texts(warnings@) =~= Seq::empty());
    assert(texts(not_found@) =~= Seq::empty());
    while i < found.len()
        invariant
            i <= found@.len(),
            names@.len() == found@.len(),
            picks@ == picked(found@, i as int),
            texts(warnings@) == download_warnings(found@, i as int),
            texts(not_found@) == unknown_names(*config, names@, found@, i as int),
        decreases found@.len() - i,
    {
        match &found[i] {
            Some(pkg) => {
                let (version, mut lines) = select_version(pkg);
                let ghost before = warnings@;
                let ghost added = lines@;
                assert(texts(added) =~= sourceless(*pkg));
                warnings.append(&mut lines);
                assert(texts(warnings@) =~= texts(before) + texts(added));
                if let Some(place) = version {
                    picks.push((i, place));
                }
            },
            None => {
                push_text(&mut not_found, config.color(Theme::Notice, names[i].as_str()));
            },
        }
        i = i + 1;
    }
    DownloadPlan { picks, warnings, not_found }
}

/// A download is only begun when every name stands for a package.
pub fn check_found(plan: &DownloadPlan) -> (r: Result<(), NalaError>)
    ensures
        if plan.not_found@.len() == 0 {
            r is Ok
        } else {
            fails_with(r, "Some packages were not found."@)
        },
{
    if plan.not_found.len() == 0 {
        Ok(())
    } else {
        Err(NalaError::new("Some packages were not found."))
    }
}

/// The line for a download that is complete.
pub open spec fn complete_line(config: Config, filename: Seq<char>, archive: Seq<char>) -> Seq<char> {
    "  "@ + colored(config, Theme::Primary, filename) + " was written to "@ + colored(
        config,
        Theme::Primary,
        archive,
    )
}

/// The line for a download that is complete.
pub fn written_line(config: &Config, filename: &str, archive: &str) -> (r: String)
    ensures
        r@ == complete_line(*config, filename@, archive@),
{
    let mut r = "  ".to_owned();
    r.append(config.color(Theme::Primary, filename).as_str());
    r.append(" was written to ");
    r.append(config.color(Theme::Primary, archive).as_str());
    r
}

/// What the user is told when the downloads are complete.
pub fn download(config: &Config, finished: &Vec<Uri>) -> (r: Vec<String>)
    ensures
        texts(r@) == seq!["Downloads Complete:"@] + Seq::new(
            finished@.len(),
            |i: int| complete_line(*config, finished@[i].filename@, finished@[i].archive@),
        ),
{
    let mut r: Vec<String> = Vec::new();
    let ghost lines = Seq::new(
        finished@.len(),
        |i: int| complete_line(*config, finished@[i].filename@, finished@[i].archive@),
    );
    r.push("Downloads Complete:".to_owned());
    assert(texts(r@) =~= seq!["Downloads Complete:"@] + lines.take(0));
    let mut i: usize = 0;
    while i < finished.len()
        invariant
            i <= finished@.len(),
            lines == Seq::new(
                finished@.len(),
                |k: int| complete_line(*config, finished@[k].filename@, finished@[k].archive@),
            ),
            texts(r@) == seq!["Downloads Complete:"@] + lines.take(i as int),
        decreases finished@.len() - i,
    {
        push_text(
            &mut r,
            written_line(config, finished[i].filename.as_str(), finished[i].archive.as_str()),
        );
        assert(seq!["Downloads Complete:"@] + lines.take(i + 1) =~= (seq!["Downloads Complete:"@]
            + lines.take(i as int)).push(lines[i as int]));
        i = i + 1;
    }
    assert(lines.take(i as int) =~= lines);
    r
}

/// A package whose every version is without a source is not downloaded, and
/// each of its versions is warned of.
pub proof fn law_no_source_no_download(found: Seq<Option<Package>>, n: int)
    requires
        0 < n <= found.len(),
        found[n - 1] is Some,
        first_downloadable(found[n - 1]->0.versions@, 0) is None,
    ensures
        picked(found, n) == picked(found, n - 1),
        sourceless(found[n - 1]->0).len() == found[n - 1]->0.versions@.len(),
{
}

/// A package has a version that can be downloaded.
pub open spec fn has_source(pkg: Package) -> bool {
    exists|k: int| 0 <= k < pkg.versions@.len() && (#[trigger] pkg.versions@[k]).downloadable
}

proof fn lemma_first_downloadable(versions: Seq<Version>, i: int)
    requires
        0 <= i <= versions.len(),
    ensures
        match first_downloadable(versions, i) {
            Some(k) => i <= k < versions.len() && versions[k].downloadable && forall|j: int|
                i <= j < k ==> !(#[trigger] versions[j]).downloadable,
            None => forall|j: int| i <= j < versions.len() ==> !(#[trigger] versions[j]).downloadable,
        },
    decreases versions.len() - i,
{
    if i < versions.len() && !versions[i].downloadable {
        lemma_first_downloadable(versions, i + 1);
    }
}

/// The version of a package that is downloaded is the first that can be, and the
/// user is warned of each version before it.
pub proof fn law_first_source_is_taken(pkg: &Package, r: (Option<usize>, Vec<String>))
    requires
        call_ensures(select_version, (pkg,), r),
    ensures
        r.0 is Some <==> has_source(*pkg),
        match r.0 {
            Some(k) => k < pkg.versions@.len() && pkg.versions@[k as int].downloadable && r.1@.len()
                == k,
            None => r.1@.len() == pkg.versions@.len(),
        },
        forall|k: int|
            0 <= k < r.1@.len() ==> !(#[trigger] pkg.versions@[k]).downloadable && r.1@[k]@
                == "Can't find a source to download version '"@ + pkg.versions@[k].version@
                + "' of '"@ + pkg.long_name@ + "'"@,
{
    assert(pkg.versions@.len() == pkg.versions.len());
    lemma_first_downloadable(pkg.versions@, 0);
    match first_downloadable(pkg.versions@, 0) {
        Some(k) => {
            assert(pkg.versions@[k].downloadable);
        },
        None => {},
    }
}

/// Every name is answered for. Of each package that was found and has a version
/// that can be downloaded, the first such version is downloaded, and nothing
/// else is. The packages keep the order of the names.
pub proof fn law_every_name_is_answered_for(
    config: &Config,
    names: &Vec<String>,
    found: &Vec<Option<Package>>,
    r: DownloadPlan,
)
    requires
        names@.len() == found@.len(),
        call_ensures(plan_downloads, (config, names, found), r),
    ensures
        forall|p: int|
            0 <= p < r.picks@.len() ==> {
                let (i, k) = #[trigger] r.picks@[p];
                &&& i < found@.len()
                &&& found@[i as int] is Some
                &&& k < found@[i as int]->0.versions@.len()
                &&& found@[i as int]->0.versions@[k as int].downloadable
                &&& forall|j: int|
                    0 <= j < k ==> !(#[trigger] found@[i as int]->0.versions@[j]).downloadable
            },
        r.picks@.map_values(|pick: (usize, usize)| pick.0 as int) == places_to(
            found@.len() as int,
        ).filter(|i: int| found@[i] is Some && has_source(found@[i]->0)),
        texts(r.not_found@) == places_to(found@.len() as int).filter(
            |i: int| found@[i] is None,
        ).map_values(|i: int| colored(*config, Theme::Notice, names@[i]@)),
{
    let n = found@.len() as int;
    let keep = |i: int| found@[i] is Some && has_source(found@[i]->0);
    assert(found@.len() == found.len());
    lemma_picked(found@, n, keep);
    let lost = |i: int| found@[i] is None;
    let name = |i: int| colored(*config, Theme::Notice, names@[i]@);
    lemma_unknown(*config, names@, found@, n, lost, name);
    assert(places_to(n).filter(lost).map_values(name) =~= places_to(n).filter(
        |i: int| found@[i] is None,
    ).map_values(|i: int| colored(*config, Theme::Notice, names@[i]@)));
}

proof fn lemma_picked(found: Seq<Option<Package>>, n: int, keep: spec_fn(int) -> bool)
    requires
        0 <= n <= found.len() <= usize::MAX,
        forall|i: int| #[trigger] keep(i) == (found[i] is Some && has_source(found[i]->0)),
    ensures
        picked(found, n).map_values(|pick: (usize, usize)| pick.0 as int) == places_to(n).filter(
            keep,
        ),
        forall|p: int|
            0 <= p < picked(found, n).len() ==> {
                let (i, k) = #[trigger] picked(found, n)[p];
                &&& i < n
                &&& found[i as int] is Some
                &&& k < found[i as int]->0.versions@.len()
                &&& found[i as int]->0.versions@[k as int].downloadable
                &&& forall|j: int|
                    0 <= j < k ==> !(#[trigger] found[i as int]->0.versions@[j]).downloadable
            },
    decreases n,
{
    let place = |pick: (usize, usize)| pick.0 as int;
    if n <= 0 {
        lemma_places_next(0, keep);
        assert(places_to(n) =~= places_to(0));
        assert(picked(found, n).map_values(place) =~= Seq::<int>::empty());
    } else {
        lemma_picked(found, n - 1, keep);
        lemma_places_next(n - 1, keep);
        let before = picked(found, n - 1);
        match found[n - 1] {
            Some(pkg) => {
                assert(pkg.versions@.len() == pkg.versions.len());
                lemma_first_downloadable(pkg.versions@, 0);
                match first_downloadable(pkg.versions@, 0) {
                    Some(k) => {
                        assert(pkg.versions@[k].downloadable);
                        assert(keep(n - 1));
                        let pick = ((n - 1) as usize, k as usize);
                        crate::seqs::lemma_map_push(before, pick, place);
                        assert(picked(found, n) == before.push(pick));
                        assert forall|p: int| 0 <= p < picked(found, n).len() implies {
                            let (i, k) = #[trigger] picked(found, n)[p];
                            &&& i < n
                            &&& found[i as int] is Some
                            &&& k < found[i as int]->0.versions@.len()
                            &&& found[i as int]->0.versions@[k as int].downloadable
                            &&& forall|j: int|
                                0 <= j < k ==> !(
                                #[trigger] found[i as int]->0.versions@[j]).downloadable
                        } by {
                            if p < before.len() {
                                assert(picked(found, n)[p] == before[p]);
                            }
                        }
                    },
                    None => {
                        assert(!keep(n - 1));
                    },
                }
            },
            None => {
                assert(!keep(n - 1));
            },
        }
    }
}

proof fn lemma_unknown(
    config: Config,
    names: Seq<String>,
    found: Seq<Option<Package>>,
    n: int,
    lost: spec_fn(int) -> bool,
    name: spec_fn(int) -> Seq<char>,
)
    requires
        0 <= n <= found.len(),
        forall|i: int| #[trigger] lost(i) == (found[i] is None),
        forall|i: int| #[trigger] name(i) == colored(config, Theme::Notice, names[i]@),
    ensures
        unknown_names(config, names, found, n) == places_to(n).filter(lost).map_values(name),
    decreases n,
{
    if n <= 0 {
        lemma_places_next(0, lost);
        assert(places_to(n) =~= places_to(0));
        assert(places_to(0).filter(lost).map_values(name) =~= Seq::<Seq<char>>::empty());
    } else {
        lemma_unknown(config, names, found, n - 1, lost, name);
        lemma_places_next(n - 1, lost);
        if lost(n - 1) {
            crate::seqs::lemma_map_push(places_to(n - 1).filter(lost), n - 1, name);
        }
    }
}

/// The user is warned of every version that is passed over: of each package that
/// was found, those before the first that can be downloaded, or all.
pub proof fn law_every_missing_source_is_told(
    config: &Config,
    names: &Vec<String>,
    found: &Vec<Option<Package>>,
    r: DownloadPlan,
)
    requires
        names@.len() == found@.len(),
        call_ensures(plan_downloads, (config, names, found), r),
    ensures
        texts(r.warnings@) == found@.map_values(
            |pkg: Option<Package>|
                match pkg {
                    Some(p) => sourceless(p),
                    None => Seq::empty(),
                },
        ).flatten(),
        forall|i: int|
            0 <= i < found@.len() && (#[trigger] found@[i]) is Some ==> {
                let pkg = found@[i]->0;
                let lines = sourceless(pkg);
                &&& lines.len() <= pkg.versions@.len()
                &&& lines.len() < pkg.versions@.len() ==> pkg.versions@[lines.len() as int].downloadable
                &&& forall|k: int|
                    0 <= k < lines.len() ==> !(#[trigger] pkg.versions@[k]).downloadable && lines[k]
                        == "Can't find a source to download version '"@ + pkg.versions@[k].version@
                        + "' of '"@ + pkg.long_name@ + "'"@
            },
{
    let tell = |pkg: Option<Package>|
        match pkg {
            Some(p) => sourceless(p),
            None => Seq::empty(),
        };
    let n = found@.len() as int;
    lemma_warnings(found@, n, tell);
    assert(found@.take(n) =~= found@);
    assert forall|i: int| 0 <= i < found@.len() && (#[trigger] found@[i]) is Some implies ({
        let pkg = found@[i]->0;
        let lines = sourceless(pkg);
        &&& lines.len() <= pkg.versions@.len()
        &&& lines.len() < pkg.versions@.len() ==> pkg.versions@[lines.len() as int].downloadable
        &&& forall|k: int|
            0 <= k < lines.len() ==> !(#[trigger] pkg.versions@[k]).downloadable && lines[k]
                == "Can't find a source to download version '"@ + pkg.versions@[k].version@
                + "' of '"@ + pkg.long_name@ + "'"@
    }) by {
        lemma_first_downloadable(found@[i]->0.versions@, 0);
    }
}

proof fn lemma_warnings(
    found: Seq<Option<Package>>,
    n: int,
    tell: spec_fn(Option<Package>) -> Seq<Seq<char>>,
)
    requires
        0 <= n <= found.len(),
        forall|pkg: Option<Package>|
            #[trigger] tell(pkg) == (match pkg {
                Some(p) => sourceless(p),
                None => Seq::empty(),
            }),
    ensures
        download_warnings(found, n) == found.take(n).map_values(tell).flatten(),
    decreases n,
{
    if n <= 0 {
        assert(found.take(n).map_values(tell) =~= Seq::<Seq<Seq<char>>>::empty());
        assert(Seq::<Seq<Seq<char>>>::empty().flatten() =~= Seq::<Seq<char>>::empty());
    } else {
        lemma_warnings(found, n - 1, tell);
        assert(found.take(n) =~= found.take(n - 1).push(found[n - 1]));
        crate::seqs::lemma_map_push(found.take(n - 1), found[n - 1], tell);
        let parts = found.take(n - 1).map_values(tell);
        parts.lemma_flatten_push(tell(found[n - 1]));
        assert(download_warnings(found, n) =~= parts.flatten() + tell(found[n - 1]));
    }
}

/// Names that stand for no package are an error, and nothing else is.
pub proof fn law_unknown_names_are_an_error(plan: &DownloadPlan, r: Result<(), NalaError>)
    requires
        call_ensures(check_found, (plan,), r),
    ensures
        r is Ok <==> plan.not_found@.len() == 0,
        r is Err ==> r->Err_0.message@ == "Some packages were not found."@,
{
}

/// A run that is not left succeeds if something was downloaded and nothing
/// failed, and gives back what was downloaded, in order. Else it fails with the
/// first error. A run that is left gives nothing.
pub proof fn law_run_gives_all_or_fails(
    outcomes: Vec<Result<Uri, NalaError>>,
    exit: bool,
    r: Result<Vec<Uri>, NalaError>,
)
    requires
        call_ensures(run, (outcomes, exit), r),
    ensures
        exit ==> r is Ok && r->Ok_0@.len() == 0,
        !exit ==> (r is Ok <==> outcomes@.len() > 0 && forall|i: int|
            0 <= i < outcomes@.len() ==> (#[trigger] outcomes@[i]) is Ok),
        !exit && r is Ok ==> r->Ok_0@.len() == outcomes@.len() && forall|i: int|
            0 <= i < outcomes@.len() ==> #[trigger] outcomes@[i] == Ok::<Uri, NalaError>(
                r->Ok_0@[i],
            ),
        !exit && r is Err && outcomes@.len() == 0 ==> r->Err_0.message@ == "Downloads Failed"@,
        !exit && r is Err && outcomes@.len() > 0 ==> exists|i: int|
            0 <= i < outcomes@.len() && #[trigger] outcomes@[i] == Err::<Uri, NalaError>(r->Err_0)
                && forall|j: int| 0 <= j < i ==> (#[trigger] outcomes@[j]) is Ok,
{
    lemma_failure_is_first(outcomes@, 0);
    match first_failure(outcomes@, 0) {
        Some(i) => {
            assert(outcomes@[i] is Err);
        },
        None => {},
    }
}

proof fn lemma_failure_is_first<T>(outcomes: Seq<Result<T, NalaError>>, i: int)
    requires
        0 <= i <= outcomes.len(),
    ensures
        match first_failure(outcomes, i) {
            Some(k) => i <= k < outcomes.len() && outcomes[k] is Err && forall|j: int|
                i <= j < k ==> (#[trigger] outcomes[j]) is Ok,
            None => forall|j: int| i <= j < outcomes.len() ==> (#[trigger] outcomes[j]) is Ok,
        },
    decreases outcomes.len() - i,
{
    if i < outcomes.len() && outcomes[i] is Ok {
        lemma_failure_is_first(outcomes, i + 1);
    }
}

/// What is finished is all or the first error, for every kind of download.
pub proof fn law_finish_gives_all_or_fails<T>(
    outcomes: Vec<Result<T, NalaError>>,
    r: Result<Vec<T>, NalaError>,
)
    requires
        call_ensures(finish::<T>, (outcomes,), r),
    ensures
        r is Ok <==> forall|i: int| 0 <= i < outcomes@.len() ==> (#[trigger] outcomes@[i]) is Ok,
        r is Ok ==> r->Ok_0@.len() == outcomes@.len() && forall|i: int|
            0 <= i < outcomes@.len() ==> #[trigger] outcomes@[i] == Ok::<T, NalaError>(r->Ok_0@[i]),
        r is Err ==> exists|i: int|
            0 <= i < outcomes@.len() && #[trigger] outcomes@[i] == Err::<T, NalaError>(r->Err_0)
                && forall|j: int| 0 <= j < i ==> (#[trigger] outcomes@[j]) is Ok,
{
    lemma_failure_is_first(outcomes@, 0);
    match first_failure(outcomes@, 0) {
        Some(i) => {
            assert(outcomes@[i] is Err);
        },
        None => {},
    }
}

/// What a version is checked with: its SHA-512, else its SHA-256. A version with
/// neither is an error.
pub proof fn law_strongest_hash(config: &Config, version: &Version, r: Result<HashSum, NalaError>)
    requires
        call_ensures(get_hash, (config, version), r),
    ensures
        entry(version.hashes@, "sha512"@) is Some ==> r is Ok && r->Ok_0 is Sha512
            && r->Ok_0->Sha512_0@ == entry(version.hashes@, "sha512"@)->0,
        entry(version.hashes@, "sha512"@) is None && entry(version.hashes@, "sha256"@) is Some
            ==> r is Ok && r->Ok_0 is Sha256 && r->Ok_0->Sha256_0@ == entry(
            version.hashes@,
            "sha256"@,
        )->0,
        r is Err <==> entry(version.hashes@, "sha512"@) is None && entry(
            version.hashes@,
            "sha256"@,
        ) is None,
{
}

/// The download of a version: its addresses in order, its size, its hash, and a
/// file of its name in the archive, and before that in the directory for what
/// is not complete.
pub proof fn law_download_of_a_version(
    version: &Version,
    config: &Config,
    uris: VecDeque<String>,
    archive: &str,
    r: Result<Uri, NalaError>,
)
    requires
        pkg_file_name(*version) is Some,
        call_ensures(Uri::from_version, (version, config, uris, archive), r),
        entry(version.hashes@, "sha512"@) is Some || entry(version.hashes@, "sha256"@) is Some,
    ensures
        r is Ok,
        r->Ok_0.uris@ == uris@,
        r->Ok_0.size == version.size,
        r->Ok_0.filename@ == pkg_file_name(*version)->0,
        r->Ok_0.archive@ == path_in(archive@, pkg_file_name(*version)->0),
        r->Ok_0.partial@ == path_in(path_in(archive@, "partial"@), pkg_file_name(*version)->0),
        match r->Ok_0.hash {
            Some(HashSum::Sha512(hash)) => entry(version.hashes@, "sha512"@) == Some(hash@),
            Some(HashSum::Sha256(hash)) => entry(version.hashes@, "sha512"@) is None && entry(
                version.hashes@,
                "sha256"@,
            ) == Some(hash@),
            None => false,
        },
{
}

/// Two hashes are the same: of the same algorithm, and with the same digits.
pub open spec fn same_hash(a: HashSum, b: HashSum) -> bool {
    ||| a is Sha512 && b is Sha512 && a->Sha512_0@ == b->Sha512_0@
    ||| a is Sha256 && b is Sha256 && a->Sha256_0@ == b->Sha256_0@
}

/// A file goes into the archive exactly if it came and its hash is the one that
/// is expected, or none is. A file with another hash is refused for good, and
/// one that did not come is tried again elsewhere.
pub proof fn law_only_good_files_are_archived(
    uri: &Uri,
    url: &str,
    result: Result<HashSum, String>,
    r: Outcome,
)
    requires
        call_ensures(Uri::settle, (uri, url, result), r),
    ensures
        r is Archive <==> result is Ok && (uri.hash is None || same_hash(
            uri.hash->0,
            result->Ok_0,
        )),
        r is Reject <==> result is Ok && uri.hash is Some && !same_hash(uri.hash->0, result->Ok_0),
        r is Retry <==> result is Err,
        r is Retry ==> r->Retry_0 == Message::NonFatal((result->Err_0, uri.size)),
        r is Reject ==> r->Reject_0.message@ == "Checksum did not match for "@ + uri.filename@,
        r is Archive ==> r->Archive_0 is Verbose && r->Archive_0->Verbose_0@ == "Finished: "@
            + url@,
{
}

/// A hash is right exactly if it is the one that is expected, or none is.
pub proof fn law_hash_is_checked(uri: &Uri, other: &HashSum, r: Result<(), NalaError>)
    requires
        call_ensures(Uri::check_hash, (uri, other), r),
    ensures
        r is Ok <==> uri.hash is None || same_hash(uri.hash->0, *other),
        r is Err ==> r->Err_0.message@ == "Checksum did not match for "@ + uri.filename@,
{
}

/// A file on disk is kept exactly if its hash is the one that is expected. One
/// whose hash is not known is replaced.
pub proof fn law_only_good_files_are_kept(
    uri: &Uri,
    present: bool,
    found: &Option<HashSum>,
    r: OnDisk,
)
    requires
        call_ensures(Uri::on_disk, (uri, present, found), r),
    ensures
        r == OnDisk::Download <==> !present,
        r == OnDisk::Keep <==> present && uri.hash is Some && *found is Some && same_hash(
            uri.hash->0,
            (*found)->0,
        ),
{
}

/// The hash of bytes has the algorithm that is asked for, and bytes with the
/// same hash have the same digest.
pub proof fn law_hash_of_bytes(
    data: &[u8],
    other: &[u8],
    hash_type: &str,
    r: Result<HashSum, NalaError>,
    s: Result<HashSum, NalaError>,
)
    requires
        call_ensures(HashSum::from_bytes, (data, hash_type), r),
        call_ensures(HashSum::from_bytes, (other, hash_type), s),
    ensures
        r is Ok <==> hash_type@ == "sha512"@ || hash_type@ == "sha256"@,
        r is Ok && hash_type@ == "sha512"@ ==> r->Ok_0 is Sha512 && (same_hash(r->Ok_0, s->Ok_0)
            <==> sha512_of(data@) == sha512_of(other@)),
        r is Ok && hash_type@ == "sha256"@ ==> r->Ok_0 is Sha256 && (same_hash(r->Ok_0, s->Ok_0)
            <==> sha256_of(data@) == sha256_of(other@)),
{
    reveal_strlit("sha512");
    reveal_strlit("sha256");
    assert("sha512"@[3] != "sha256"@[3]);
    if r is Ok && r->Ok_0.value() == s->Ok_0.value() {
        if hash_type@ == "sha512"@ {
            crate::text::lemma_hex_injective(sha512_of(data@), sha512_of(other@));
        } else {
            crate::text::lemma_hex_injective(sha256_of(data@), sha256_of(other@));
        }
    }
}

/// A hash from the command line is taken for what its length says.
pub proof fn law_hash_by_length(hash_type: usize, hash: String, r: Result<HashSum, NalaError>)
    requires
        call_ensures(HashSum::from_str_len, (hash_type, hash), r),
    ensures
        r is Ok <==> hash_type == 128 || hash_type == 64,
        hash_type == 128 ==> r->Ok_0 == HashSum::Sha512(hash),
        hash_type == 64 ==> r->Ok_0 == HashSum::Sha256(hash),
{
}

/// A hash is taken for the algorithm that is named, and back.
pub proof fn law_hash_by_name(hash: HashSum, name: &'static str, text: String, r: Result<HashSum, NalaError>)
    requires
        call_ensures(HashSum::str_type, (&hash,), name),
        call_ensures(HashSum::from_str, (name, text), r),
    ensures
        r is Ok,
        r->Ok_0 is Sha512 <==> hash is Sha512,
        text@ == hash.value() ==> same_hash(r->Ok_0, hash),
{
    reveal_strlit("sha512");
    reveal_strlit("sha256");
    assert("sha512"@[3] != "sha256"@[3]);
}

/// The addresses of a file of a version, where the lists of mirrors that it names
/// are known.
pub open spec fn addresses(
    mirrors: Map<Seq<char>, String>,
    pattern: Seq<char>,
    version: Version,
    file: crate::apt::VersionFile,
) -> Seq<Seq<char>> {
    if !file.file.downloadable {
        Seq::empty()
    } else {
        match mirror_name(pattern, file.uri@) {
            Some(name) => match mirrored(mirrors[name]@, version) {
                Some(uris) => uris,
                None => seq![file.uri@],
            },
            None => seq![file.uri@],
        }
    }
}

/// The addresses of a version are those of its files, one after another.
pub proof fn law_addresses_of_files(
    mirrors: Map<Seq<char>, String>,
    pattern: Seq<char>,
    version: Version,
    n: int,
)
    requires
        0 <= n <= version.files@.len(),
    ensures
        uris_between(mirrors, pattern, version, 0, n) is Some <==> forall|i: int|
            0 <= i < n && (#[trigger] version.files@[i]).file.downloadable && mirror_name(
                pattern,
                version.files@[i].uri@,
            ) is Some ==> mirrors.dom().contains(mirror_name(pattern, version.files@[i].uri@)->0),
        uris_between(mirrors, pattern, version, 0, n) is Some ==> uris_between(
            mirrors,
            pattern,
            version,
            0,
            n,
        ) == Some(
            version.files@.take(n).map_values(
                |f: crate::apt::VersionFile| addresses(mirrors, pattern, version, f),
            ).flatten(),
        ),
    decreases n,
{
    let make = |f: crate::apt::VersionFile| addresses(mirrors, pattern, version, f);
    let files = version.files@;
    if n <= 0 {
        assert(files.take(n).map_values(make) =~= Seq::<Seq<Seq<char>>>::empty());
        assert(Seq::<Seq<Seq<char>>>::empty().flatten() =~= Seq::<Seq<char>>::empty());
    } else {
        law_addresses_of_files(mirrors, pattern, version, n - 1);
        assert(files.take(n) =~= files.take(n - 1).push(files[n - 1]));
        crate::seqs::lemma_map_push(files.take(n - 1), files[n - 1], make);
        let parts = files.take(n - 1).map_values(make);
        parts.lemma_flatten_push(make(files[n - 1]));
        if uris_between(mirrors, pattern, version, 0, n) is None {
            if uris_between(mirrors, pattern, version, 0, n - 1) is Some {
                assert(file_uris(mirrors, pattern, version, n - 1) is None);
                assert(files[n - 1].file.downloadable);
            }
        }
    }
}

/// Files that have one address or none have the addresses of those with one.
pub proof fn lemma_plain_flatten(
    files: Seq<crate::apt::VersionFile>,
    keep: spec_fn(crate::apt::VersionFile) -> bool,
    text: spec_fn(crate::apt::VersionFile) -> Seq<char>,
    make: spec_fn(crate::apt::VersionFile) -> Seq<Seq<char>>,
)
    requires
        forall|i: int|
            0 <= i < files.len() ==> make(#[trigger] files[i]) == if keep(files[i]) {
                seq![text(files[i])]
            } else {
                Seq::empty()
            },
    ensures
        files.map_values(make).flatten() == files.filter(keep).map_values(text),
    decreases files.len(),
{
    reveal(Seq::filter);
    if files.len() == 0 {
        assert(files.map_values(make) =~= Seq::<Seq<Seq<char>>>::empty());
        assert(files.map_values(make).flatten() =~= Seq::<Seq<char>>::empty());
        assert(files.filter(keep).map_values(text) =~= Seq::<Seq<char>>::empty());
    } else {
        let before = files.drop_last();
        let last = files.last();
        assert(last == files[files.len() - 1]);
        assert forall|i: int| 0 <= i < before.len() implies make(#[trigger] before[i]) == if keep(
            before[i],
        ) {
            seq![text(before[i])]
        } else {
            Seq::empty()
        } by {
            assert(before[i] == files[i]);
        }
        lemma_plain_flatten(before, keep, text, make);
        assert(files =~= before.push(last));
        crate::seqs::lemma_map_push(before, last, make);
        before.map_values(make).lemma_flatten_push(make(last));
        if keep(last) {
            crate::seqs::lemma_map_push(before.filter(keep), last, text);
            assert(before.map_values(make).flatten() + seq![text(last)]
                =~= before.map_values(make).flatten().push(text(last)));
        } else {
            assert(before.map_values(make).flatten() + Seq::<Seq<char>>::empty()
                =~= before.map_values(make).flatten());
        }
    }
}

/// A version whose files are on ordinary servers is found at once, at the
/// address of each file that can be downloaded, in order.
pub proof fn law_ordinary_addresses(
    filter: &mut UriFilter,
    version: &Version,
    config: &Config,
    walk: &mut UriWalk,
    r: UriStep,
)
    requires
        old(walk).place == 0,
        texts(old(walk).filtered@).len() == 0,
        forall|i: int|
            0 <= i < version.files@.len() ==> !has_prefix(
                (#[trigger] version.files@[i]).uri@,
                "file:"@,
            ) && !crate::mirror::is_mirror(version.files@[i].uri@),
        call_ensures(UriFilter::uris, (filter, version, config, walk), r),
    ensures
        r is Finished,
        texts(final(walk).filtered@) == version.files@.filter(
            |f: crate::apt::VersionFile| f.file.downloadable,
        ).map_values(|f: crate::apt::VersionFile| f.uri@),
{
    let mirrors = old(filter).mirrors@;
    let pattern = old(filter).regex.mirror@;
    let n = version.files@.len() as int;
    let place = final(walk).place as int;
    if place < n {
        assert(!has_prefix(version.files@[place].uri@, "file:"@));
        assert(needs_work(mirrors, pattern, *version, *old(walk), place));
    }
    law_addresses_of_files(mirrors, pattern, *version, n);
    let make = |f: crate::apt::VersionFile| addresses(mirrors, pattern, *version, f);
    let keep = |f: crate::apt::VersionFile| f.file.downloadable;
    let text = |f: crate::apt::VersionFile| f.uri@;
    assert forall|i: int| 0 <= i < n implies make(#[trigger] version.files@[i]) == if keep(
        version.files@[i],
    ) {
        seq![text(version.files@[i])]
    } else {
        Seq::empty()
    } by {}
    lemma_plain_flatten(version.files@, keep, text, make);
    assert(version.files@.take(n) =~= version.files@);
    assert(texts(old(walk).filtered@) =~= Seq::<Seq<char>>::empty());
    assert(Seq::<Seq<char>>::empty() + version.files@.filter(keep).map_values(text)
        =~= version.files@.filter(keep).map_values(text));
}

/// A file on this machine is copied into the archive before anything else is
/// done with it, once; a list of mirrors that is not known is read.
pub proof fn law_files_and_lists_come_first(
    filter: &mut UriFilter,
    version: &Version,
    config: &Config,
    walk: &mut UriWalk,
    r: UriStep,
)
    requires
        old(walk).place < version.files@.len(),
        version.files@[old(walk).place as int].file.downloadable,
        call_ensures(UriFilter::uris, (filter, version, config, walk), r),
    ensures
        ({
            let uri = version.files@[old(walk).place as int].uri@;
            let path = uri.skip("file:"@.len() as int);
            let name = regex_group(old(filter).regex.mirror@, uri);
            let local = has_prefix(uri, "file:"@) && !old(walk).copied;
            &&& local && file_name_of(path) is Some ==> {
                &&& r is Copy
                &&& r->from@ == path
                &&& r->to@ == path_in(path_of(*config, Paths::Archive), file_name_of(path)->0)
                &&& final(walk).copied
                &&& final(walk).place == old(walk).place
            }
            &&& local && file_name_of(path) is None ==> r is Failed
            &&& !local && (has_prefix(uri, "mirror:"@) || has_prefix(uri, "mirror+file:"@))
                && name is Some && !old(filter).mirrors@.dom().contains(name->0) ==> {
                &&& r is Mirror
                &&& r->name@ == name->0
                &&& final(walk).place == old(walk).place
            }
        }),
{
    reveal_strlit("file:");
    reveal_strlit("mirror:");
    reveal_strlit("mirror+file:");
    let place = old(walk).place as int;
    let uri = version.files@[place].uri@;
    if has_prefix(uri, "file:"@) {
        assert(uri[0] == 'f') by {
            assert(uri.subrange(0, 5)[0] == uri[0]);
        }
    }
    if has_prefix(uri, "mirror:"@) {
        assert(uri[0] == 'm') by {
            assert(uri.subrange(0, 7)[0] == uri[0]);
        }
    }
    if has_prefix(uri, "mirror+file:"@) {
        assert(uri[0] == 'm') by {
            assert(uri.subrange(0, 12)[0] == uri[0]);
        }
    }
    let mirrors = old(filter).mirrors@;
    let pattern = old(filter).regex.mirror@;
    if needs_work(mirrors, pattern, *version, *old(walk), place) {
        if final(walk).place > place {
            assert(!needs_work(mirrors, pattern, *version, *old(walk), place));
        }
    }
}

/// The packages with a file that cannot be authenticated are noted, once each.
pub proof fn law_untrusted_packages_are_noted(
    filter: &mut UriFilter,
    version: &Version,
    config: &Config,
    walk: &mut UriWalk,
    r: UriStep,
)
    requires
        old(walk).place == 0,
        call_ensures(UriFilter::uris, (filter, version, config, walk), r),
        r is Finished,
    ensures
        ({
            let name = colored(*config, Theme::Error, version.package@);
            let before = texts(old(filter).untrusted@);
            let after = texts(final(filter).untrusted@);
            let odd = exists|i: int|
                0 <= i < version.files@.len() && (#[trigger] version.files@[i]).file.downloadable
                    && !version.files@[i].file.trusted;
            &&& odd ==> after.contains(name)
            &&& odd && before.contains(name) ==> after == before
            &&& odd && !before.contains(name) ==> after == before.push(name)
            &&& !odd ==> after == before
        }),
{
    crate::text::law_each_once(
        texts(old(filter).untrusted@),
        colored(*config, Theme::Error, version.package@),
    );
}

/// The connections that are open to a domain.
pub open spec fn open_to(domains: Map<Seq<char>, u8>, domain: Seq<char>) -> int {
    if domains.dom().contains(domain) {
        domains[domain] as int
    } else {
        0
    }
}

/// The address that is tried is the first of the queue. With fewer than three
/// connections to its domain it is downloaded from, over one connection more;
/// else it waits behind the others. An address without a domain is dropped. No
/// other domain is touched.
pub proof fn law_attempts(
    uri: &mut Uri,
    domains: &mut StringHashMap<u8>,
    regex: &Pattern,
    r: Attempt,
    other: Seq<char>,
)
    requires
        call_ensures(Uri::download, (uri, domains, regex), r),
    ensures
        r is Exhausted <==> old(uri).uris@.len() == 0,
        old(uri).uris@.len() > 0 ==> {
            let first = old(uri).uris@[0];
            let domain = regex_group(regex@, first@);
            let busy = domain is Some && open_to(old(domains)@, domain->0) >= 3;
            &&& r is Skipped <==> domain is None
            &&& r is Busy <==> busy
            &&& r is Start <==> domain is Some && !busy
            &&& r is Start ==> r->url == first && r->domain@ == domain->0
            &&& final(uri).uris@ == if busy {
                old(uri).uris@.skip(1).push(first)
            } else {
                old(uri).uris@.skip(1)
            }
            &&& open_to(final(domains)@, other) == open_to(old(domains)@, other) + (if r is Start
                && other == domain->0 {
                1int
            } else {
                0
            })
        },
        final(uri).size == old(uri).size,
        final(uri).archive == old(uri).archive,
        final(uri).partial == old(uri).partial,
        final(uri).hash == old(uri).hash,
        final(uri).filename == old(uri).filename,
{
}

/// A domain takes three connections and no more, and closing one makes room.
pub proof fn law_three_connections(
    domain: String,
    domains: &mut StringHashMap<u8>,
    r: bool,
    other: Seq<char>,
)
    requires
        call_ensures(add_domain, (domain, domains), r),
    ensures
        r <==> open_to(old(domains)@, domain@) < 3,
        open_to(final(domains)@, other) == open_to(old(domains)@, other) + (if r && other
            == domain@ {
            1int
        } else {
            0
        }),
{
}

/// Closing a connection leaves one fewer to its domain, and the others as they
/// are.
pub proof fn law_closing(domain: &str, domains: &mut StringHashMap<u8>, r: (), other: Seq<char>)
    requires
        call_ensures(remove_domain, (domain, domains), r),
    ensures
        open_to(final(domains)@, other) == open_to(old(domains)@, other) - (if other == domain@
            && open_to(old(domains)@, domain@) > 0 {
            1int
        } else {
            0
        }),
{
}

/// A message moves the run on: a download that is finished counts, and is the
/// only thing that does. Lines for a reader are printed where they are wanted.
pub proof fn law_messages(run: &mut Run, config: &Config, msg: Message, r: RunAction)
    requires
        old(run).current < usize::MAX,
        call_ensures(Run::handle, (run, config, msg), r),
    ensures
        final(run).total == old(run).total,
        msg is Finished ==> final(run).current == old(run).current + 1 && r is Nothing,
        !(msg is Finished) ==> final(run).current == old(run).current,
        r is Stop <==> msg is Exit,
        msg is Update ==> r == RunAction::Advance(msg->Update_0),
        msg is Verbose && is_verbose(*config) ==> r == RunAction::Print(msg->Verbose_0),
        msg is Verbose && !is_verbose(*config) ==> r is Nothing,
        msg is Debug && flag(*config, "debug"@, false) ==> r == RunAction::Debug(msg->Debug_0),
        msg is Debug && !flag(*config, "debug"@, false) ==> r is Nothing,
        msg matches Message::NonFatal((err, size)) ==> r is Rewind && r->Rewind_0@ == "Error: "@
            + err@ && r->Rewind_1 == size,
{
}

/// A run is done when every download is finished.
pub proof fn law_done(run: &Run, r: bool)
    requires
        call_ensures(Run::done, (run,), r),
    ensures
        r <==> run.current == run.total,
{
}

/// Everything in the queue is downloaded, the last first, and the queue is
/// empty then.
pub proof fn law_queue_is_emptied(downloader: &mut Downloader, r: Vec<Uri>)
    requires
        call_ensures(Downloader::download, (downloader,), r),
    ensures
        r@.len() == old(downloader).uris@.len(),
        forall|i: int|
            0 <= i < r@.len() ==> #[trigger] r@[i] == old(downloader).uris@[r@.len() - 1 - i],
        final(downloader).uris@.len() == 0,
{
}

/// Packages that cannot be authenticated are refused, unless the configuration
/// allows them; either way the user is told which they are.
pub proof fn law_untrusted_packages_are_refused(config: &Config, untrusted: &Vec<String>, r: Trust)
    requires
        call_ensures(untrusted_error, (config, untrusted), r),
    ensures
        r is Trusted <==> untrusted@.len() == 0,
        r is Refused <==> untrusted@.len() > 0 && !allows_untrusted(*config),
        match r {
            Trust::Trusted => true,
            Trust::Allowed(lines) => lines@.len() == 3 && lines@[1]@ == "  "@ + joined(
                texts(untrusted@),
                ", "@,
            ),
            Trust::Refused(lines, _) => lines@.len() == 2 && lines@[1]@ == "  "@ + joined(
                texts(untrusted@),
                ", "@,
            ),
        },
{
    match r {
        Trust::Trusted => {},
        Trust::Allowed(lines) => {
            assert(texts(lines@).len() == lines@.len());
            assert(texts(lines@)[1] == lines@[1]@);
        },
        Trust::Refused(lines, _) => {
            assert(texts(lines@).len() == lines@.len());
            assert(texts(lines@)[1] == lines@[1]@);
        },
    }
}

proof fn lemma_unhashed(config: Config, untrusted: Seq<Seq<char>>, uris: Seq<Uri>, n: int)
    requires
        0 <= n <= uris.len(),
    ensures
        with_unhashed(config, untrusted, uris, n).len() == 0 <==> untrusted.len() == 0 && forall|
            i: int,
        |
            0 <= i < n ==> (#[trigger] uris[i]).hash is Some,
        forall|i: int|
            0 <= i < n && (#[trigger] uris[i]).hash is None ==> with_unhashed(
                config,
                untrusted,
                uris,
                n,
            ).contains(colored(config, Theme::Error, uris[i].filename@)),
        forall|s: Seq<char>|
            untrusted.contains(s) ==> #[trigger] with_unhashed(config, untrusted, uris, n).contains(
                s,
            ),
    decreases n,
{
    if n > 0 {
        lemma_unhashed(config, untrusted, uris, n - 1);
        let before = with_unhashed(config, untrusted, uris, n - 1);
        let name = colored(config, Theme::Error, uris[n - 1].filename@);
        crate::text::law_each_once(before, name);
        let after = with_unhashed(config, untrusted, uris, n);
        assert forall|i: int| 0 <= i < n && (#[trigger] uris[i]).hash is None implies after.contains(
            colored(config, Theme::Error, uris[i].filename@),
        ) by {
            if i < n - 1 {
                assert(before.contains(colored(config, Theme::Error, uris[i].filename@)));
            }
        }
        if uris[n - 1].hash is None {
            assert(after.contains(name));
            assert(after.len() > 0);
        }
    }
}

/// A download without a hash cannot be authenticated either: everything is
/// trusted only if nothing was noted before and every download has a hash.
pub proof fn law_downloads_without_a_hash(downloader: &mut Downloader, config: &Config, r: Trust)
    requires
        call_ensures(Downloader::check_trust, (downloader, config), r),
    ensures
        ({
            let trusted = old(downloader).filter.untrusted@.len() == 0 && forall|i: int|
                0 <= i < old(downloader).uris@.len() ==> (
                #[trigger] old(downloader).uris@[i]).hash is Some;
            &&& r is Trusted <==> trusted
            &&& r is Refused <==> !trusted && !allows_untrusted(*config)
            &&& r is Allowed <==> !trusted && allows_untrusted(*config)
        }),
        forall|i: int|
            0 <= i < old(downloader).uris@.len() && (
            #[trigger] old(downloader).uris@[i]).hash is None ==> texts(
                final(downloader).filter.untrusted@,
            ).contains(colored(*config, Theme::Error, old(downloader).uris@[i].filename@)),
{
    let untrusted = texts(old(downloader).filter.untrusted@);
    assert(untrusted.len() == old(downloader).filter.untrusted@.len());
    lemma_unhashed(
        *config,
        untrusted,
        old(downloader).uris@,
        old(downloader).uris@.len() as int,
    );
}

/// A file that is hashed in pieces has the hash of the whole.
pub proof fn law_pieces_hash_like_the_whole(hasher: &mut Hasher, chunk: &[u8], done: (), r: Vec<u8>)
    requires
        call_ensures(Hasher::update, (hasher, chunk), done),
        call_ensures(Hasher::finish, (*final(hasher),), r),
    ensures
        old(hasher).is_long() ==> r@ == sha512_of(old(hasher)@ + chunk@),
        !old(hasher).is_long() ==> r@ == sha256_of(old(hasher)@ + chunk@),
{
}

/// What is finished is named, each file with the place that it was written to.
pub proof fn law_finished_files_are_named(config: &Config, finished: &Vec<Uri>, r: Vec<String>)
    requires
        call_ensures(download, (config, finished), r),
    ensures
        r@.len() == finished@.len() + 1,
        r@[0]@ == "Downloads Complete:"@,
        forall|i: int|
            0 <= i < finished@.len() ==> r@[i + 1]@ == "  "@ + colored(
                *config,
                Theme::Primary,
                (#[trigger] finished@[i]).filename@,
            ) + " was written to "@ + colored(*config, Theme::Primary, finished@[i].archive@),
{
    let lines = texts(r@);
    assert(lines.len() == r@.len());
    assert(lines[0] == r@[0]@);
    assert forall|i: int| 0 <= i < finished@.len() implies r@[i + 1]@ == "  "@ + colored(
        *config,
        Theme::Primary,
        (#[trigger] finished@[i]).filename@,
    ) + " was written to "@ + colored(*config, Theme::Primary, finished@[i].archive@) by {
        assert(lines[i + 1] == r@[i + 1]@);
    }
}

/// An address on the command line is taken as it stands, with a warning that it
/// cannot be checked. A hash may follow it, and is told by its length. What has
/// no address or no protocol is refused.
pub proof fn law_command_line_addresses(
    text: &str,
    r: Result<CliUri, NalaError>,
    protocol: Seq<char>,
    place: Seq<char>,
    hash: Seq<char>,
)
    requires
        call_ensures(parse_cmdline, (text,), r),
        !protocol.contains(':'),
        !place.contains(':'),
        !hash.contains(':'),
        protocol.len() > 0,
        place.len() > 0,
        hash.len() > 0,
    ensures
        text@.len() == 0 ==> r is Err,
        text@ == protocol ==> r is Err,
        text@ == protocol + ":"@ + place ==> r is Ok && r->Ok_0.uri@ == text@
            && r->Ok_0.hash is None && r->Ok_0.warning is Some,
        text@ == protocol + ":"@ + (place + ":"@ + hash) ==> {
            let len = encode_utf8(hash).len();
            &&& r is Ok <==> len == 128 || len == 64
            &&& r is Ok ==> r->Ok_0.uri@ == protocol + ":"@ + place && r->Ok_0.warning is None
            &&& len == 128 ==> r->Ok_0.hash is Some && r->Ok_0.hash->0 is Sha512
                && r->Ok_0.hash->0->Sha512_0@ == hash
            &&& len == 64 ==> r->Ok_0.hash is Some && r->Ok_0.hash->0 is Sha256
                && r->Ok_0.hash->0->Sha256_0@ == hash
        },
{
    reveal_strlit(":");
    let sep = ":"@;
    let none: Seq<char> = Seq::empty();
    crate::text::law_split_at_the_first(none, none, sep);
    crate::text::law_split_at_the_first(protocol, place, sep);
    crate::text::law_split_at_the_first(place, hash, sep);
    crate::text::law_split_at_the_first(hash, none, sep);
    crate::text::law_split_at_the_first(protocol, place + sep + hash, sep);
    if text@.len() == 0 {
        assert(text@ =~= none);
    }
    assert(crate::text::split_on(protocol + sep + place, sep) =~= seq![protocol, place]);
    assert(crate::text::split_on(place + sep + hash, sep) =~= seq![place, hash]);
    assert(crate::text::split_on(protocol + sep + (place + sep + hash), sep) =~= seq![
        protocol,
        place,
        hash,
    ]);
}

/// A download from the command line goes under the last part of its address into
/// the archive, with the size that the server gives.
pub proof fn law_command_line_downloads(
    downloader: &mut Downloader,
    cli: CliUri,
    content_len: Option<&str>,
    headers: &str,
    r: Result<(), NalaError>,
    base: Seq<char>,
    name: Seq<char>,
)
    requires
        call_ensures(Downloader::add_from_cmdline, (downloader, cli, content_len, headers), r),
        cli.uri@ == base + "/"@ + name,
        name.len() > 0,
        !name.contains('/'),
    ensures
        r is Ok <==> content_len is Some && number_of(content_len->0@) is Some,
        r is Ok ==> {
            let uri = final(downloader).uris@.last();
            &&& final(downloader).uris@ == old(downloader).uris@.push(uri)
            &&& texts(uri.uris@) == seq![cli.uri@]
            &&& uri.size == number_of(content_len->0@)->0
            &&& uri.hash == cli.hash
            &&& uri.filename@ == name
            &&& uri.archive@ == path_in(old(downloader).archive_dir@, name)
            &&& uri.partial@ == path_in(old(downloader).partial_dir@, name)
        },
        r is Err ==> final(downloader).uris@ == old(downloader).uris@,
{
    reveal_strlit("/");
    let none: Seq<char> = Seq::empty();
    crate::text::lemma_split_last(base, name, "/"@);
    crate::text::law_split_at_the_first(name, none, "/"@);
    let parts = crate::text::split_on(cli.uri@, "/"@);
    assert(parts.last() == name);
}

/// A node gives a domain its route.
pub open spec fn names_domain(node: (Option<String>, Option<String>), domain: Seq<char>) -> bool {
    node.0 is Some && node.1 is Some && node.0->0@ == domain
}

proof fn lemma_unnamed_domain(
    map: Map<Seq<char>, Route>,
    proto: Seq<char>,
    nodes: Seq<(Option<String>, Option<String>)>,
    domain: Seq<char>,
)
    requires
        forall|j: int| 0 <= j < nodes.len() ==> !names_domain(#[trigger] nodes[j], domain),
        with_domains(map, proto, nodes) is Ok,
    ensures
        ({
            let after = with_domains(map, proto, nodes)->Ok_0;
            &&& after.dom().contains(domain) == map.dom().contains(domain)
            &&& map.dom().contains(domain) ==> after[domain] == map[domain]
        }),
    decreases nodes.len(),
{
    if nodes.len() > 0 {
        let before = nodes.drop_last();
        assert forall|j: int| 0 <= j < before.len() implies !names_domain(
            #[trigger] before[j],
            domain,
        ) by {
            assert(before[j] == nodes[j]);
        }
        assert(!names_domain(nodes[nodes.len() - 1], domain));
        lemma_unnamed_domain(map, proto, before, domain);
    }
}

proof fn lemma_named_domain(
    map: Map<Seq<char>, Route>,
    proto: Seq<char>,
    nodes: Seq<(Option<String>, Option<String>)>,
    k: int,
    domain: Seq<char>,
)
    requires
        0 <= k < nodes.len(),
        names_domain(nodes[k], domain),
        forall|j: int| k < j < nodes.len() ==> !names_domain(#[trigger] nodes[j], domain),
        with_domains(map, proto, nodes) is Ok,
    ensures
        ({
            let after = with_domains(map, proto, nodes)->Ok_0;
            let proxy = nodes[k].1->0@;
            &&& after.dom().contains(domain)
            &&& is_direct(proxy) ==> after[domain] is Direct
            &&& !is_direct(proxy) ==> parsed_url(proxy) is Ok && after[domain] == route(
                proto,
                parsed_url(proxy)->Ok_0,
            )
        }),
    decreases nodes.len(),
{
    let before = nodes.drop_last();
    if k < nodes.len() - 1 {
        assert forall|j: int| k < j < before.len() implies !names_domain(
            #[trigger] before[j],
            domain,
        ) by {
            assert(before[j] == nodes[j]);
        }
        assert(before[k] == nodes[k]);
        assert(!names_domain(nodes[nodes.len() - 1], domain));
        lemma_named_domain(map, proto, before, k, domain);
    } else {
        assert(nodes.last() == nodes[k]);
    }
}

/// What is configured for http is what is used for http: the proxy of a domain
/// where it has one, none where it is to be reached directly, else the proxy for
/// everything. Where several are given for a domain, the last counts. Over https
/// none of them is used.
pub proof fn law_http_proxies(
    config: ProxyConfig,
    map: StringHashMap<Proto>,
    domain: &str,
    plain: Option<String>,
    secure: Option<String>,
    k: int,
)
    requires
        call_ensures(build_proxy, (&Some(config), &None), Ok(map)),
        call_ensures(get_proxy, (&map, domain, "http"), plain),
        call_ensures(get_proxy, (&map, domain, "https"), secure),
        domain@ != "http"@,
        domain@ != "https"@,
        forall|j: int|
            0 <= j < config.domains@.len() ==> !names_domain(
                #[trigger] config.domains@[j],
                "http"@,
            ) && !names_domain(config.domains@[j], "https"@),
        forall|j: int|
            k < j < config.domains@.len() ==> !names_domain(#[trigger] config.domains@[j], domain@),
    ensures
        0 <= k < config.domains@.len() && names_domain(config.domains@[k], domain@) ==> {
            let proxy = config.domains@[k].1->0@;
            let lower = crate::text::lowercase(proxy);
            let direct = lower == "direct"@ || lower == "false"@;
            &&& direct ==> plain is None
            &&& !direct ==> parsed_url(proxy) is Ok && text_opt(plain) == Some(
                parsed_url(proxy)->Ok_0,
            )
        },
        k < 0 && config.value is Some ==> parsed_url(config.value->0@) is Ok && text_opt(plain)
            == Some(parsed_url(config.value->0@)->Ok_0),
        k < 0 && config.value is None ==> plain is None,
        secure is None,
{
    reveal_strlit("http");
    reveal_strlit("https");
    assert("http"@.len() != "https"@.len());
    let empty = Map::<Seq<char>, Route>::empty();
    let proto = "http"@;
    let start = match config.value {
        Some(proxy) => with_proxy(empty, proto, proto, proxy@)->Ok_0,
        None => empty,
    };
    let nodes = config.domains@;
    lemma_unnamed_domain(start, proto, nodes, "http"@);
    lemma_unnamed_domain(start, proto, nodes, "https"@);
    if 0 <= k < nodes.len() && names_domain(nodes[k], domain@) {
        lemma_named_domain(start, proto, nodes, k, domain@);
    } else if k < 0 {
        assert forall|j: int| 0 <= j < nodes.len() implies !names_domain(
            #[trigger] nodes[j],
            domain@,
        ) by {}
        lemma_unnamed_domain(start, proto, nodes, domain@);
    }
    if exists|j: int| 0 <= j < nodes.len() && names_domain(#[trigger] nodes[j], domain@) {
        lemma_last_naming(nodes, domain@, nodes.len() as int);
        let last = choose|j: int|
            0 <= j < nodes.len() && names_domain(#[trigger] nodes[j], domain@) && forall|i: int|
                j < i < nodes.len() ==> !names_domain(#[trigger] nodes[i], domain@);
        lemma_named_domain(start, proto, nodes, last, domain@);
    } else {
        lemma_unnamed_domain(start, proto, nodes, domain@);
    }
}

proof fn lemma_last_naming(nodes: Seq<(Option<String>, Option<String>)>, domain: Seq<char>, n: int)
    requires
        0 <= n <= nodes.len(),
        exists|j: int| 0 <= j < n && names_domain(#[trigger] nodes[j], domain),
    ensures
        exists|j: int|
            0 <= j < n && names_domain(#[trigger] nodes[j], domain) && forall|i: int|
                j < i < n ==> !names_domain(#[trigger] nodes[i], domain),
    decreases n,
{
    if !names_domain(nodes[n - 1], domain) {
        lemma_last_naming(nodes, domain, n - 1);
        let j = choose|j: int|
            0 <= j < n - 1 && names_domain(#[trigger] nodes[j], domain) && forall|i: int|
                j < i < n - 1 ==> !names_domain(#[trigger] nodes[i], domain);
        assert(names_domain(nodes[j], domain));
    }
}

/// What is configured for https is what is used for https, whatever is configured
/// for http: the proxy of a domain where it has one, none where it is to be
/// reached directly.
pub proof fn law_https_proxies(
    http: Option<ProxyConfig>,
    config: ProxyConfig,
    map: StringHashMap<Proto>,
    domain: &str,
    secure: Option<String>,
    k: int,
)
    requires
        call_ensures(build_proxy, (&http, &Some(config)), Ok(map)),
        call_ensures(get_proxy, (&map, domain, "https"), secure),
        0 <= k < config.domains@.len(),
        names_domain(config.domains@[k], domain@),
        forall|j: int|
            k < j < config.domains@.len() ==> !names_domain(#[trigger] config.domains@[j], domain@),
    ensures
        ({
            let proxy = config.domains@[k].1->0@;
            let lower = crate::text::lowercase(proxy);
            let direct = lower == "direct"@ || lower == "false"@;
            &&& direct ==> secure is None
            &&& !direct ==> parsed_url(proxy) is Ok && text_opt(secure) == Some(
                parsed_url(proxy)->Ok_0,
            )
        }),
{
    reveal_strlit("http");
    reveal_strlit("https");
    assert("http"@.len() != "https"@.len());
    let proto = "https"@;
    let before = with_protocol(Map::empty(), "http"@, http)->Ok_0;
    let start = match config.value {
        Some(proxy) => with_proxy(before, proto, proto, proxy@)->Ok_0,
        None => before,
    };
    lemma_named_domain(start, proto, config.domains@, k, domain@);
}

/// A proxy for everything over https is used for https, but for the domains with
/// a route of their own.
pub proof fn law_https_proxy_for_everything(
    http: Option<ProxyConfig>,
    config: ProxyConfig,
    map: StringHashMap<Proto>,
    domain: &str,
    secure: Option<String>,
)
    requires
        call_ensures(build_proxy, (&http, &Some(config)), Ok(map)),
        call_ensures(get_proxy, (&map, domain, "https"), secure),
        config.value is Some,
        domain@ != "http"@,
        domain@ != "https"@,
        forall|j: int|
            0 <= j < config.domains@.len() ==> !names_domain(
                #[trigger] config.domains@[j],
                domain@,
            ) && !names_domain(config.domains@[j], "https"@),
        http is Some ==> forall|j: int|
            0 <= j < http->0.domains@.len() ==> !names_domain(
                #[trigger] http->0.domains@[j],
                domain@,
            ),
    ensures
        parsed_url(config.value->0@) is Ok,
        text_opt(secure) == Some(parsed_url(config.value->0@)->Ok_0),
{
    reveal_strlit("http");
    reveal_strlit("https");
    assert("http"@.len() != "https"@.len());
    let proto = "https"@;
    let before = with_protocol(Map::empty(), "http"@, http)->Ok_0;
    let start = with_proxy(before, proto, proto, config.value->0@)->Ok_0;
    lemma_unnamed_domain(start, proto, config.domains@, domain@);
    lemma_unnamed_domain(start, proto, config.domains@, proto);
    if http is Some {
        let empty = Map::<Seq<char>, Route>::empty();
        let first = match http->0.value {
            Some(proxy) => with_proxy(empty, "http"@, "http"@, proxy@)->Ok_0,
            None => empty,
        };
        lemma_unnamed_domain(first, "http"@, http->0.domains@, domain@);
    }
}

/// The proxies can be used unless one of them is no address.
pub proof fn law_proxies_must_be_addresses(
    config: ProxyConfig,
    r: Result<StringHashMap<Proto>, NalaError>,
)
    requires
        call_ensures(build_proxy, (&Some(config), &None), r),
    ensures
        r is Ok <==> (config.value is Some ==> parsed_url(config.value->0@) is Ok) && forall|j: int|
            0 <= j < config.domains@.len() && (#[trigger] config.domains@[j]).0 is Some
                && config.domains@[j].1 is Some && !is_direct(config.domains@[j].1->0@)
                ==> parsed_url(config.domains@[j].1->0@) is Ok,
{
    let empty = Map::<Seq<char>, Route>::empty();
    let start = match config.value {
        Some(proxy) => with_proxy(empty, "http"@, "http"@, proxy@)->Ok_0,
        None => empty,
    };
    lemma_domains_ok(start, "http"@, config.domains@);
}

proof fn lemma_domains_ok(
    map: Map<Seq<char>, Route>,
    proto: Seq<char>,
    nodes: Seq<(Option<String>, Option<String>)>,
)
    ensures
        with_domains(map, proto, nodes) is Ok <==> forall|j: int|
            0 <= j < nodes.len() && (#[trigger] nodes[j]).0 is Some && nodes[j].1 is Some
                && !is_direct(nodes[j].1->0@) ==> parsed_url(nodes[j].1->0@) is Ok,
    decreases nodes.len(),
{
    if nodes.len() > 0 {
        let before = nodes.drop_last();
        lemma_domains_ok(map, proto, before);
        let last = nodes[nodes.len() - 1];
        assert(nodes.last() == last);
        if with_domains(map, proto, nodes) is Ok {
            assert forall|j: int|
                0 <= j < nodes.len() && (#[trigger] nodes[j]).0 is Some && nodes[j].1 is Some
                    && !is_direct(nodes[j].1->0@) implies parsed_url(nodes[j].1->0@) is Ok by {
                if j < before.len() {
                    assert(before[j] == nodes[j]);
                }
            }
        } else {
            if with_domains(map, proto, before) is Ok {
                assert(last.0 is Some && last.1 is Some && !is_direct(last.1->0@));
            } else {
                let j = choose|j: int|
                    0 <= j < before.len() && (#[trigger] before[j]).0 is Some && before[j].1 is Some
                        && !is_direct(before[j].1->0@) && !(parsed_url(before[j].1->0@) is Ok);
                assert(before[j] == nodes[j]);
            }
        }
    }
}

/// Packages that cannot be authenticated are allowed exactly where apt's own
/// setting for that is on.
pub proof fn law_setting_that_allows(config: Config)
    ensures
        allows_untrusted(config) <==> config.apt.bools@.dom().contains(
            "APT::Get::AllowUnauthenticated"@,
        ) && config.apt.bools@["APT::Get::AllowUnauthenticated"@],
{
}

/// What the user is told of packages that cannot be authenticated: that there are
/// some, which they are, and why they go in or how they could.
pub proof fn law_what_is_told_of_untrusted(config: &Config, untrusted: &Vec<String>, r: Trust)
    requires
        call_ensures(untrusted_error, (config, untrusted), r),
    ensures
        ({
            let head = stderr_line(
                *config,
                Theme::Warning,
                "The Following packages cannot be authenticated!"@,
            );
            match r {
                Trust::Trusted => true,
                Trust::Allowed(lines) => lines@[0]@ == head && lines@[2]@ == stderr_line(
                    *config,
                    Theme::Notice,
                    "Configuration is set to allow installation of unauthenticated packages."@,
                ),
                Trust::Refused(lines, error) => lines@[0]@ == head && error.message@
                    == "Some packages were unable to be authenticated.\n  If you're sure use "@
                    + colored(*config, Theme::Notice, "--allow-unauthenticated"@),
            }
        }),
{
    match r {
        Trust::Trusted => {},
        Trust::Allowed(lines) => {
            assert(texts(lines@).len() == lines@.len());
            assert(texts(lines@)[0] == lines@[0]@);
            assert(texts(lines@)[2] == lines@[2]@);
        },
        Trust::Refused(lines, _) => {
            assert(texts(lines@).len() == lines@.len());
            assert(texts(lines@)[0] == lines@[0]@);
        },
    }
}

/// A version that is added is behind the others in the queue, with what is
/// needed to download it. One without a hash is refused, and the queue stays.
pub proof fn law_added_version(
    downloader: &mut Downloader,
    version: &Version,
    config: &Config,
    uris: VecDeque<String>,
    r: Result<(), NalaError>,
)
    requires
        pkg_file_name(*version) is Some,
        call_ensures(Downloader::add_version, (downloader, version, config, uris), r),
    ensures
        r is Ok <==> entry(version.hashes@, "sha512"@) is Some || entry(
            version.hashes@,
            "sha256"@,
        ) is Some,
        r is Err ==> final(downloader).uris@ == old(downloader).uris@,
        r is Ok ==> {
            let uri = final(downloader).uris@.last();
            let name = pkg_file_name(*version)->0;
            &&& final(downloader).uris@ == old(downloader).uris@.push(uri)
            &&& uri.uris == uris
            &&& uri.size == version.size
            &&& uri.filename@ == name
            &&& uri.archive@ == path_in(old(downloader).archive_dir@, name)
            &&& uri.partial@ == path_in(path_in(old(downloader).archive_dir@, "partial"@), name)
            &&& match uri.hash {
                Some(HashSum::Sha512(hash)) => entry(version.hashes@, "sha512"@) == Some(hash@),
                Some(HashSum::Sha256(hash)) => entry(version.hashes@, "sha512"@) is None && entry(
                    version.hashes@,
                    "sha256"@,
                ) == Some(hash@),
                None => false,
            }
        },
{
}

/// A new downloader has an empty queue and writes into apt's archive.
pub proof fn law_new_downloader(config: &Config, regex: NalaRegex, r: Downloader)
    requires
        call_ensures(Downloader::new, (config, regex), r),
    ensures
        r.uris@.len() == 0,
        r.filter.untrusted@.len() == 0,
        r.archive_dir@ == path_of(*config, Paths::Archive),
        r.partial_dir@ == path_in(path_of(*config, Paths::Archive), "partial"@),
{
    assert(texts(r.filter.untrusted@).len() == r.filter.untrusted@.len());
}

/// A list of mirrors that was added gives its addresses for a version, behind
/// those that are there.
pub proof fn law_added_list_is_used(
    filter: &mut UriFilter,
    name: String,
    list: String,
    added: (),
    key: &str,
    version: &Version,
    uris: &mut VecDeque<String>,
    r: Option<()>,
)
    requires
        call_ensures(UriFilter::add_to_mirrors, (filter, name, list), added),
        call_ensures(
            UriFilter::get_from_mirrors,
            (&*final(filter), version, uris, key),
            r,
        ),
        key@ == name@,
    ensures
        r is Some <==> mirrored(list@, *version) is Some,
        r is Some ==> texts(final(uris)@) == texts(old(uris)@) + mirrored(list@, *version)->0,
        r is None ==> texts(final(uris)@) == texts(old(uris)@),
{
}

/// A hasher for an algorithm hashes by it, and there is none for others.
pub proof fn law_hasher_of_an_algorithm(hash_type: &str, r: Result<Hasher, NalaError>)
    requires
        call_ensures(get_hasher, (hash_type,), r),
    ensures
        r is Ok <==> hash_type@ == "sha512"@ || hash_type@ == "sha256"@,
        r is Ok ==> (r->Ok_0.is_long() <==> hash_type@ == "sha512"@) && r->Ok_0@.len() == 0,
{
    reveal_strlit("sha512");
    reveal_strlit("sha256");
    assert("sha512"@[3] != "sha256"@[3]);
}

/// A download is hashed by the algorithm of its hash, or else by the strongest.
pub proof fn law_algorithm_of_a_download(uri: &Uri, r: &'static str)
    requires
        call_ensures(Uri::hash_type, (uri,), r),
    ensures
        uri.hash is None || uri.hash->0 is Sha512 ==> r@ == "sha512"@,
        uri.hash is Some && uri.hash->0 is Sha256 ==> r@ == "sha256"@,
{
}

/// The status counts the packages that are finished, and shows the connections.
pub proof fn law_status(run: &Run, domains: &str, r: Vec<String>)
    requires
        call_ensures(Run::status, (run, domains), r),
    ensures
        r@.len() == 4,
        r@[0]@ == "Total Packages:"@,
        r@[1]@ == " "@ + decimal(run.current as nat) + "/"@ + decimal(run.total as nat) + ", "@,
        r@[2]@ == "Connections:"@,
        r@[3]@ == " "@ + domains@,
{
    let all = texts(r@);
    assert(all.len() == r@.len());
    assert(all[0] == r@[0]@ && all[1] == r@[1]@ && all[2] == r@[2]@ && all[3] == r@[3]@);
}

/// A domain with a proxy of its own for http is reached over https by the proxy
/// for everything over https.
pub proof fn law_other_protocol_uses_its_own(
    http: ProxyConfig,
    https: ProxyConfig,
    map: StringHashMap<Proto>,
    domain: &str,
    secure: Option<String>,
    k: int,
)
    requires
        call_ensures(build_proxy, (&Some(http), &Some(https)), Ok(map)),
        call_ensures(get_proxy, (&map, domain, "https"), secure),
        https.value is Some,
        domain@ != "http"@,
        domain@ != "https"@,
        0 <= k < http.domains@.len(),
        names_domain(http.domains@[k], domain@),
        forall|j: int|
            k < j < http.domains@.len() ==> !names_domain(#[trigger] http.domains@[j], domain@),
        forall|j: int|
            0 <= j < https.domains@.len() ==> !names_domain(
                #[trigger] https.domains@[j],
                domain@,
            ) && !names_domain(https.domains@[j], "https"@),
    ensures
        ({
            let lower = crate::text::lowercase(http.domains@[k].1->0@);
            let direct = lower == "direct"@ || lower == "false"@;
            &&& direct ==> secure is None
            &&& !direct ==> parsed_url(https.value->0@) is Ok && text_opt(secure) == Some(
                parsed_url(https.value->0@)->Ok_0,
            )
        }),
{
    reveal_strlit("http");
    reveal_strlit("https");
    assert("http"@.len() != "https"@.len());
    let empty = Map::<Seq<char>, Route>::empty();
    let first = match http.value {
        Some(proxy) => with_proxy(empty, "http"@, "http"@, proxy@)->Ok_0,
        None => empty,
    };
    lemma_named_domain(first, "http"@, http.domains@, k, domain@);
    let before = with_domains(first, "http"@, http.domains@)->Ok_0;
    let start = with_proxy(before, "https"@, "https"@, https.value->0@)->Ok_0;
    lemma_unnamed_domain(start, "https"@, https.domains@, domain@);
    lemma_unnamed_domain(start, "https"@, https.domains@, "https"@);
}

} // verus!

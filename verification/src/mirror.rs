//! Addresses that stand for a list of mirrors.
use vstd::prelude::*;
use crate::apt::Version;
use crate::pattern::{regex_group, Pattern};
use crate::text::{has_prefix, lines, lines_of, push_text, starts_with, text_opt, texts};

verus! {

/// Where a list of mirrors is read from.
#[derive(Debug, PartialEq, Eq)]
pub enum MirrorSource {
    /// A file on disk.
    File(String),
    /// An address.
    Url(String),
}

/// An address stands for a list of mirrors.
pub open spec fn is_mirror(uri: Seq<char>) -> bool {
    has_prefix(uri, "mirror+file:"@) || has_prefix(uri, "mirror:"@)
}

/// The list of mirrors that an address stands for, as the pattern finds it.
pub open spec fn mirror_name(pattern: Seq<char>, uri: Seq<char>) -> Option<Seq<char>> {
    if is_mirror(uri) {
        regex_group(pattern, uri)
    } else {
        None
    }
}

/// The list of mirrors that an address stands for.
pub fn find_mirror(pattern: &Pattern, uri: &str) -> (r: Option<String>)
    ensures
        text_opt(r) == mirror_name(pattern@, uri@),
{
    if starts_with(uri, "mirror+file:") || starts_with(uri, "mirror:") {
        pattern.capture(uri)
    } else {
        None
    }
}

/// A list comes from a file where the address says so, else from the network.
pub open spec fn comes_from(source: MirrorSource, uri: Seq<char>, name: Seq<char>) -> bool {
    match source {
        MirrorSource::File(path) => has_prefix(uri, "mirror+file:"@) && path@ == name,
        MirrorSource::Url(url) => !has_prefix(uri, "mirror+file:"@) && url@ == "http://"@ + name,
    }
}

/// Where the list of mirrors of an address is read from.
pub fn mirror_source(uri: &str, name: &str) -> (r: MirrorSource)
    ensures
        comes_from(r, uri@, name@),
{
    if starts_with(uri, "mirror+file:") {
        MirrorSource::File(name.to_owned())
    } else {
        let mut url = "http://".to_owned();
        url.append(name);
        MirrorSource::Url(url)
    }
}

/// A line of a list names a mirror: it is neither empty nor a comment.
pub open spec fn names_mirror(line: Seq<char>) -> bool {
    line.len() > 0 && line[0] != '#'
}

/// The lines that name a mirror, in order.
pub open spec fn mirror_lines(lines: Seq<Seq<char>>) -> Seq<Seq<char>>
    decreases lines.len(),
{
    if lines.len() == 0 {
        Seq::empty()
    } else if names_mirror(lines.last()) {
        mirror_lines(lines.drop_last()).push(lines.last())
    } else {
        mirror_lines(lines.drop_last())
    }
}

/// The addresses of a file on mirrors.
pub open spec fn on_mirrors(mirrors: Seq<Seq<char>>, file: Seq<char>) -> Seq<Seq<char>> {
    Seq::new(mirrors.len(), |i: int| mirrors[i] + "/"@ + file)
}

/// The addresses of a version on the mirrors of a list. `None` where the list
/// names mirrors and the version has no file on them.
pub open spec fn mirrored(list: Seq<char>, version: Version) -> Option<Seq<Seq<char>>> {
    let mirrors = mirror_lines(lines_of(list));
    if mirrors.len() == 0 {
        Some(Seq::empty())
    } else {
        match version.record("Filename"@) {
            Some(file) => Some(on_mirrors(mirrors, file)),
            None => None,
        }
    }
}

/// The addresses of a version on the mirrors of a list.
pub fn mirrored_uris(list: &str, version: &Version) -> (r: Option<Vec<String>>)
    ensures
        match r {
            Some(uris) => mirrored(list@, *version) == Some(texts(uris@)),
            None => mirrored(list@, *version) is None,
        },
{
    let all = lines(list);
    let ghost given = texts(all@);
    let mut mirrors: Vec<String> = Vec::new();
    let mut i: usize = 0;
    assert(given.take(0) =~= Seq::empty());
    assert(texts(mirrors@) =~= Seq::empty());
    while i < all.len()
        invariant
            i <= all@.len(),
            given == texts(all@),
            texts(mirrors@) == mirror_lines(given.take(i as int)),
        decreases all@.len() - i,
    {
        assert(given.take(i + 1).drop_last() =~= given.take(i as int));
        assert(given.take(i + 1).last() == all@[i as int]@);
        let chars = crate::text::chars_of(all[i].as_str());
        if chars.len() > 0 && chars[0] != '#' {
            push_text(&mut mirrors, all[i].clone());
        }
        i = i + 1;
    }
    assert(given.take(i as int) =~= given);
    let ghost named = texts(mirrors@);
    assert(named.len() == mirrors@.len());
    if mirrors.len() == 0 {
        assert(texts(mirrors@) =~= Seq::empty());
        return Some(mirrors);
    }
    let file = match version.get_record("Filename") {
        Some(f) => f,
        None => {
            return None;
        },
    };
    let mut uris: Vec<String> = Vec::new();
    let mut k: usize = 0;
    while k < mirrors.len()
        invariant
            k <= mirrors@.len(),
            named == texts(mirrors@),
            texts(uris@) == on_mirrors(named, file@).take(k as int),
        decreases mirrors@.len() - k,
    {
        let mut uri = mirrors[k].clone();
        uri.append("/");
        uri.append(file.as_str());
        push_text(&mut uris, uri);
        assert(on_mirrors(named, file@).take(k as int).push(on_mirrors(named, file@)[k as int])
            =~= on_mirrors(named, file@).take(k + 1));
        k = k + 1;
    }
    assert(on_mirrors(named, file@).take(k as int) =~= on_mirrors(named, file@));
    Some(uris)
}

/// A version is on every mirror of the list, in order, under its file name. What
/// is empty or a comment is no mirror. Without a file name there is no address,
/// unless there is no mirror either.
pub proof fn law_every_mirror_is_used(list: &str, version: &Version, r: Option<Vec<String>>)
    requires
        call_ensures(mirrored_uris, (list, version), r),
    ensures
        ({
            let mirrors = lines_of(list@).filter(|l: Seq<char>| l.len() > 0 && l[0] != '#');
            let file = version.record("Filename"@);
            &&& r is None <==> mirrors.len() > 0 && file is None
            &&& r is Some ==> texts(r->0@) == mirrors.map_values(
                |m: Seq<char>| m + "/"@ + file->0,
            )
        }),
{
    let keep = |l: Seq<char>| l.len() > 0 && l[0] != '#';
    lemma_mirror_lines(lines_of(list@), keep);
    let mirrors = lines_of(list@).filter(keep);
    let file = version.record("Filename"@);
    if r is Some {
        assert(texts(r->0@) =~= mirrors.map_values(|m: Seq<char>| m + "/"@ + file->0));
    }
}

proof fn lemma_mirror_lines(lines: Seq<Seq<char>>, keep: spec_fn(Seq<char>) -> bool)
    requires
        forall|l: Seq<char>| #[trigger] keep(l) == (l.len() > 0 && l[0] != '#'),
    ensures
        mirror_lines(lines) == lines.filter(keep),
    decreases lines.len(),
{
    reveal(Seq::filter);
    if lines.len() > 0 {
        lemma_mirror_lines(lines.drop_last(), keep);
    } else {
        assert(lines.filter(keep) =~= Seq::<Seq<char>>::empty());
    }
}

/// Only the two kinds of addresses that begin so name a list of mirrors. The
/// list is a file or comes over http, by the kind.
pub proof fn law_lists_of_mirrors(
    pattern: &Pattern,
    uri: &str,
    found: Option<String>,
    name: &str,
    source: MirrorSource,
)
    requires
        call_ensures(find_mirror, (pattern, uri), found),
        call_ensures(mirror_source, (uri, name), source),
    ensures
        found is Some ==> has_prefix(uri@, "mirror+file:"@) || has_prefix(uri@, "mirror:"@),
        has_prefix(uri@, "mirror+file:"@) || has_prefix(uri@, "mirror:"@) ==> text_opt(found)
            == regex_group(pattern@, uri@),
        match source {
            MirrorSource::File(path) => has_prefix(uri@, "mirror+file:"@) && path@ == name@,
            MirrorSource::Url(url) => !has_prefix(uri@, "mirror+file:"@) && url@ == "http://"@
                + name@,
        },
{
}

} // verus!

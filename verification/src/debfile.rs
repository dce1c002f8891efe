//! Package files on disk.
use vstd::prelude::*;
use vstd::slice::slice_subrange;
use vstd::utf8::{decode_utf8, valid_utf8};
use crate::error::{fails_with, NalaError};
use crate::tagfile::TagSection;
use crate::text::{contains, has_text, number_of, parse_u64, trim_end, trimmed_end};

verus! {

/// The number in a field: decimal digits, with or without a plus sign, with
/// white space behind them.
pub open spec fn field_value(f: Seq<u8>) -> Option<nat> {
    if valid_utf8(f) {
        number_of(trimmed_end(decode_utf8(f)))
    } else {
        None
    }
}

/// A field without the spaces behind it.
pub open spec fn unpadded(f: Seq<u8>) -> Seq<u8>
    decreases f.len(),
{
    if f.len() > 0 && f.last() == 32 {
        unpadded(f.drop_last())
    } else {
        f
    }
}

/// The kinds of ar archives. Each has its own way to write long names.
#[derive(Debug, Clone, Copy, PartialEq, Eq, Structural)]
pub enum Flavor {
    Common,
    Bsd,
    Gnu,
}

/// A place in an archive where a header stands, with what the headers before
/// it told: the kind of the archive, and how long its table of names is.
pub struct Place {
    pub pos: int,
    pub flavor: Flavor,
    pub table: nat,
}

/// Where an archive begins, behind its signature.
pub open spec fn archive_start() -> Place {
    Place { pos: 8, flavor: Flavor::Common, table: 0 }
}

/// The name in the header at `pos`.
pub open spec fn header_name(data: Seq<u8>, pos: int) -> Seq<u8> {
    unpadded(data.subrange(pos, pos + 16))
}

/// A name begins with a slash, as the special names of GNU archives do.
pub open spec fn is_gnu_name(name: Seq<u8>) -> bool {
    name.len() > 0 && name[0] == 47
}

/// The kind of an archive after a common name: a slash behind the name is GNU's.
pub open spec fn flavor_after(name: Seq<u8>, flavor: Flavor) -> Flavor {
    if flavor != Flavor::Bsd && name.len() > 0 && name.last() == 47 {
        Flavor::Gnu
    } else {
        flavor
    }
}

/// A name begins with `#1/`, as the long names of BSD archives do.
pub open spec fn is_bsd_name(name: Seq<u8>) -> bool {
    name.len() >= 3 && name[0] == 35 && name[1] == 49 && name[2] == 47
}

/// The header after the one at a place. `None` where the header cannot be read
/// safely: the length of its member is not a number, a table or a long name
/// does not fit into the archive, or a name lies outside the table.
pub open spec fn next_place(data: Seq<u8>, p: Place) -> Option<Place> {
    let name = header_name(data, p.pos);
    match field_value(data.subrange(p.pos + 48, p.pos + 58)) {
        None => None,
        Some(size) => {
            let next = p.pos + 60 + size + size % 2;
            if p.flavor != Flavor::Bsd && is_gnu_name(name) {
                if name.len() == 1 {
                    Some(Place { pos: next, flavor: Flavor::Gnu, table: p.table })
                } else if name.len() == 2 && name[1] == 47 {
                    if p.pos + 60 + size <= data.len() {
                        Some(Place { pos: next, flavor: Flavor::Gnu, table: size })
                    } else {
                        None
                    }
                } else {
                    match field_value(data.subrange(p.pos + 1, p.pos + 16)) {
                        Some(index) => if index <= p.table {
                            Some(Place { pos: next, flavor: Flavor::Gnu, table: p.table })
                        } else {
                            None
                        },
                        None => None,
                    }
                }
            } else if flavor_after(name, p.flavor) != Flavor::Gnu && is_bsd_name(name) {
                match field_value(data.subrange(p.pos + 3, p.pos + 16)) {
                    Some(len) => if len <= size && p.pos + 60 + len <= data.len() {
                        Some(
                            Place {
                                pos: p.pos + 60 + size + (size - len) % 2,
                                flavor: Flavor::Bsd,
                                table: p.table,
                            },
                        )
                    } else {
                        None
                    },
                    None => None,
                }
            } else {
                Some(Place { pos: next, flavor: flavor_after(name, p.flavor), table: p.table })
            }
        },
    }
}

/// Every header from a place on can be read safely.
pub open spec fn readable_from(data: Seq<u8>, p: Place) -> bool
    decreases data.len() - p.pos,
{
    if p.pos < 0 || p.pos + 60 > data.len() {
        true
    } else {
        match next_place(data, p) {
            None => false,
            Some(q) => q.pos > data.len() || readable_from(data, q),
        }
    }
}

/// Where the first header from a place on stands that cannot be read safely,
/// or the end of the archive.
pub open spec fn readable_end(data: Seq<u8>, p: Place) -> int
    decreases data.len() - p.pos,
{
    if p.pos < 0 || p.pos + 60 > data.len() {
        data.len() as int
    } else {
        match next_place(data, p) {
            None => p.pos,
            Some(q) => if q.pos > data.len() {
                data.len() as int
            } else {
                readable_end(data, q)
            },
        }
    }
}

/// The headers lead from `p` to `q`, and each on the way can be read safely.
spec fn reaches(data: Seq<u8>, p: Place, q: Place) -> bool
    decreases q.pos - p.pos,
{
    p == q || (0 <= p.pos && p.pos + 60 <= data.len() && match next_place(data, p) {
        Some(n) => n.pos <= q.pos && reaches(data, n, q),
        None => false,
    })
}

proof fn lemma_reach_step(data: Seq<u8>, p: Place, q: Place)
    requires
        reaches(data, p, q),
        0 <= p.pos <= q.pos,
        q.pos + 60 <= data.len(),
        next_place(data, q) is Some,
    ensures
        reaches(data, p, next_place(data, q)->0),
    decreases q.pos - p.pos,
{
    let next = next_place(data, q)->0;
    assert(reaches(data, next, next));
    if p != q {
        lemma_reach_step(data, next_place(data, p)->0, q);
    }
}

proof fn lemma_reach_end(data: Seq<u8>, p: Place, q: Place)
    requires
        reaches(data, p, q),
        0 <= p.pos <= q.pos,
        q.pos + 60 > data.len(),
    ensures
        readable_from(data, p),
    decreases q.pos - p.pos,
{
    if p != q {
        lemma_reach_end(data, next_place(data, p)->0, q);
    }
}

proof fn lemma_reach_prefix(data: Seq<u8>, p: Place, q: Place)
    requires
        reaches(data, p, q),
        0 <= p.pos <= q.pos <= data.len(),
    ensures
        readable_from(data.take(q.pos), p),
    decreases q.pos - p.pos,
{
    let front = data.take(q.pos);
    if p != q {
        let next = next_place(data, p)->0;
        lemma_reach_prefix(data, next, q);
        assert(front.subrange(p.pos + 48, p.pos + 58) =~= data.subrange(p.pos + 48, p.pos + 58));
        assert(front.subrange(p.pos, p.pos + 16) =~= data.subrange(p.pos, p.pos + 16));
        assert(front.subrange(p.pos + 1, p.pos + 16) =~= data.subrange(p.pos + 1, p.pos + 16));
        assert(front.subrange(p.pos + 3, p.pos + 16) =~= data.subrange(p.pos + 3, p.pos + 16));
        assert(next_place(front, p) == Some(next));
    }
}

/// How long a field of `width` bytes at `start` is without the spaces behind it.
fn unpadded_len(data: &[u8], start: usize, width: usize) -> (r: usize)
    requires
        start + width <= data@.len(),
    ensures
        r <= width,
        unpadded(data@.subrange(start as int, start + width)) == data@.subrange(
            start as int,
            start + r,
        ),
        r > 0 ==> data@[start + r - 1] != 32,
{
    let ghost field = data@.subrange(start as int, start + width);
    let all: usize = data.len();
    let mut len: usize = width;
    assert(field.take(width as int) =~= field);
    while len > 0 && data[start + len - 1] == 32
        invariant
            len <= width,
            start + width <= all,
            all == data@.len(),
            field == data@.subrange(start as int, start + width),
            unpadded(field.take(len as int)) == unpadded(field),
        decreases len,
    {
        assert(field.take(len as int).drop_last() =~= field.take(len - 1));
        assert(field.take(len as int).last() == data@[start + len - 1]);
        len = len - 1;
    }
    proof {
        let front = field.take(len as int);
        assert(front =~= data@.subrange(start as int, start + len));
        if len > 0 {
            assert(front.last() == data@[start + len - 1]);
        }
    }
    len
}

/// The number in the field of `width` bytes at `start`.
fn parse_field(data: &[u8], start: usize, width: usize) -> (r: Option<u64>)
    requires
        start + width <= data@.len(),
    ensures
        match r {
            Some(n) => field_value(data@.subrange(start as int, start + width)) == Some(n as nat),
            None => field_value(data@.subrange(start as int, start + width)) is None,
        },
{
    let all: usize = data.len();
    assert(start + width <= all);
    let mut field: Vec<u8> = Vec::new();
    field.extend_from_slice(slice_subrange(data, start, start + width));
    assert(field@ =~= data@.subrange(start as int, start + width));
    match utf8_text(field) {
        Some(text) => parse_u64(trim_end(text.as_str()).as_str()),
        None => None,
    }
}

/// The header after the one at `pos`: where it stands, the kind of the archive
/// and the length of its table of names.
fn read_header(data: &[u8], pos: usize, flavor: Flavor, table: u64) -> (r: Option<
    (u128, Flavor, u64),
>)
    requires
        pos + 60 <= data@.len(),
    ensures
        ({
            let p = Place { pos: pos as int, flavor, table: table as nat };
            match r {
                Some((step, after, len)) => next_place(data@, p) == Some(
                    Place { pos: pos + step, flavor: after, table: len as nat },
                ) && 60 <= step,
                None => next_place(data@, p) is None,
            }
        }),
{
    let all: usize = data.len();
    let room: u64 = (all - pos - 60) as u64;
    let size: u64 = match parse_field(data, pos + 48, 10) {
        Some(size) => size,
        None => {
            return None;
        },
    };
    let step: u128 = 60 + size as u128 + (size % 2) as u128;
    let len: usize = unpadded_len(data, pos, 16);
    let ghost name = header_name(data@, pos as int);
    assert(name =~= data@.subrange(pos as int, pos + len));
    assert(name.len() == len);
    assert(forall|k: int| 0 <= k < len ==> #[trigger] name[k] == data@[pos + k]);
    let bsd = match flavor {
        Flavor::Bsd => true,
        _ => false,
    };
    if !bsd && len > 0 && data[pos] == 47 {
        assert(is_gnu_name(name));
        if len == 1 {
            return Some((step, Flavor::Gnu, table));
        }
        if len == 2 && data[pos + 1] == 47 {
            return if size <= room {
                Some((step, Flavor::Gnu, size))
            } else {
                None
            };
        }
        return match parse_field(data, pos + 1, 15) {
            Some(index) => if index <= table {
                Some((step, Flavor::Gnu, table))
            } else {
                None
            },
            None => None,
        };
    }
    assert(!(flavor != Flavor::Bsd && is_gnu_name(name)));
    let after = if !bsd && len > 0 && data[pos + len - 1] == 47 {
        Flavor::Gnu
    } else {
        flavor
    };
    assert(after == flavor_after(name, flavor));
    let gnu = match after {
        Flavor::Gnu => true,
        _ => false,
    };
    if !gnu && len >= 3 && data[pos] == 35 && data[pos + 1] == 49 && data[pos + 2] == 47 {
        assert(is_bsd_name(name));
        return match parse_field(data, pos + 3, 13) {
            Some(long) => if long <= size && long <= room {
                let rest: u64 = (size - long) % 2;
                Some((60 + size as u128 + rest as u128, Flavor::Bsd, table))
            } else {
                None
            },
            None => None,
        };
    }
    Some((step, after, table))
}

/// How far the archive can be read safely.
fn readable_len(data: &[u8]) -> (r: usize)
    ensures
        r == readable_end(data@, archive_start()),
        r <= data@.len(),
        readable_from(data@.take(r as int), archive_start()),
{
    let len: usize = data.len();
    if len < 8 {
        assert(data@.take(len as int) =~= data@);
        return len;
    }
    let mut pos: usize = 8;
    let mut flavor = Flavor::Common;
    let mut table: u64 = 0;
    let ghost start = archive_start();
    assert(reaches(data@, start, Place { pos: pos as int, flavor, table: table as nat }));
    while len >= 60 && pos <= len - 60
        invariant
            8 <= pos,
            len == data@.len(),
            len >= 8,
            start == archive_start(),
            reaches(data@, start, Place { pos: pos as int, flavor, table: table as nat }),
            readable_end(data@, start) == readable_end(
                data@,
                Place { pos: pos as int, flavor, table: table as nat },
            ),
        decreases len - pos,
    {
        let ghost p = Place { pos: pos as int, flavor, table: table as nat };
        let (step, after, names) = match read_header(data, pos, flavor, table) {
            Some(next) => next,
            None => {
                proof {
                    lemma_reach_prefix(data@, start, p);
                }
                return pos;
            },
        };
        let ghost q = next_place(data@, p)->0;
        proof {
            lemma_reach_step(data@, start, p);
        }
        if step > (len - pos) as u128 {
            proof {
                lemma_reach_end(data@, start, q);
                assert(data@.take(len as int) =~= data@);
            }
            return len;
        }
        pos = pos + step as usize;
        flavor = after;
        table = names;
    }
    proof {
        lemma_reach_end(data@, start, Place { pos: pos as int, flavor, table: table as nat });
        assert(data@.take(len as int) =~= data@);
    }
    len
}

/// The members of an ar archive as the ar crate reads them, each with its
/// identifier and its contents. `None` stands for an error, which ends the
/// archive.
pub uninterp spec fn ar_members_of(data: Seq<u8>) -> Seq<Option<(Seq<u8>, Seq<u8>)>>;

/// The bytes of members.
pub open spec fn member_views(v: Seq<Option<(Vec<u8>, Vec<u8>)>>) -> Seq<
    Option<(Seq<u8>, Seq<u8>)>,
> {
    Seq::new(
        v.len(),
        |i: int|
            match v[i] {
                Some((name, contents)) => Some((name@, contents@)),
                None => None,
            },
    )
}

/// `ar::Archive::next_entry` until it ends or fails, with `ar::Header::identifier`
/// and the contents of each entry: they depend on the bytes alone. The crate
/// panics where a name lies outside the table of names, and sets aside as much
/// memory as a header asks for, so archives with such headers are left out.
#[verifier::external_body]
fn ar_members(data: &[u8]) -> (r: Vec<Option<(Vec<u8>, Vec<u8>)>>)
    requires
        readable_from(data@, archive_start()),
    ensures
        member_views(r@) == ar_members_of(data@),
{
    let mut archive = ar::Archive::new(data);
    std::iter::from_fn(|| {
        let mut entry = match archive.next_entry()? {
            Ok(entry) => entry,
            Err(_) => return Some(None),
        };
        let name = entry.header().identifier().to_vec();
        let mut contents = Vec::new();
        Some(std::io::Read::read_to_end(&mut entry, &mut contents).ok().map(|_| (name, contents)))
    })
    .collect()
}

/// How decompressing a stream ended.
#[derive(Debug, Clone, Copy, PartialEq, Eq, Structural)]
pub enum StreamEnd {
    /// The stream is complete.
    Complete,
    /// More bytes follow.
    More,
    /// What follows cannot be decompressed.
    Broken,
}

/// The first bytes of an xz stream, at most `limit` of them, as
/// `xz2::read::XzDecoder` gives them one by one, and what follows them.
pub uninterp spec fn unxz_of(data: Seq<u8>, limit: usize) -> (Seq<u8>, StreamEnd);

/// `xz2::read::XzDecoder`, read byte by byte: at most `limit` bytes, up to the
/// first error, and what the read after them gives. All of it depends on the
/// stream and the limit alone.
#[verifier::external_body]
fn unxz(data: &[u8], limit: usize) -> (r: (Vec<u8>, StreamEnd))
    ensures
        (r.0@, r.1) == unxz_of(data@, limit),
{
    let mut decoder = xz2::read::XzDecoder::new(data);
    let bytes = std::io::Read::bytes(std::io::Read::by_ref(&mut decoder));
    let plain = bytes.take(limit).map_while(Result::ok).collect();
    let end = match std::io::Read::bytes(decoder).next() {
        None => StreamEnd::Complete,
        Some(Ok(_)) => StreamEnd::More,
        Some(Err(_)) => StreamEnd::Broken,
    };
    (plain, end)
}

/// The size in a header of a tar archive, as the tar crate reads it. `None`
/// where it cannot.
pub uninterp spec fn entry_size_of(block: Seq<u8>) -> Option<u64>;

/// `tar::Header::entry_size` of a header, which has 512 bytes: it depends on
/// the bytes alone.
#[verifier::external_body]
fn entry_size(block: &[u8]) -> (r: Option<u64>)
    requires
        block@.len() == 512,
    ensures
        r == entry_size_of(block@),
{
    tar::Header::from_byte_slice(block).entry_size().ok()
}

/// The keys and values in the contents of an extended header of a tar archive,
/// as the tar crate reads them. `None` stands for an error.
pub uninterp spec fn pax_records_of(data: Seq<u8>) -> Seq<Option<(Seq<u8>, Seq<u8>)>>;

/// `tar::PaxExtensions`, with `tar::PaxExtension::key_bytes` and `value_bytes`
/// of each record: they depend on the bytes alone.
#[verifier::external_body]
fn pax_records(data: &[u8]) -> (r: Vec<Option<(Vec<u8>, Vec<u8>)>>)
    ensures
        member_views(r@) == pax_records_of(data@),
{
    tar::PaxExtensions::new(data)
        .map(|record| record.ok().map(|r| (r.key_bytes().to_vec(), r.value_bytes().to_vec())))
        .collect()
}

/// The key under which an extended header gives the size of the next file.
pub open spec fn size_key() -> Seq<u8> {
    seq![115u8, 105, 122, 101]
}

/// The size that the records from `i` on give to the next file.
pub open spec fn pax_size(records: Seq<Option<(Seq<u8>, Seq<u8>)>>, i: int) -> Option<nat>
    decreases records.len() - i,
{
    if i < 0 || i >= records.len() {
        None
    } else {
        match records[i] {
            None => None,
            Some((key, value)) => if key != size_key() {
                pax_size(records, i + 1)
            } else if valid_utf8(value) {
                number_of(decode_utf8(value))
            } else {
                None
            },
        }
    }
}

/// The header at `p` is in GNU's format.
pub open spec fn is_gnu_header(data: Seq<u8>, p: int) -> bool {
    data.subrange(p + 257, p + 265) == seq![117u8, 115, 116, 97, 114, 32, 32, 0]
}

/// The header at `p` is in the ustar format.
pub open spec fn is_ustar_header(data: Seq<u8>, p: int) -> bool {
    data.subrange(p + 257, p + 265) == seq![117u8, 115, 116, 97, 114, 0, 48, 48]
}

/// The block at `p` is empty, and so ends the archive.
pub open spec fn is_zero_block(data: Seq<u8>, p: int) -> bool {
    forall|i: int| p <= i < p + 512 ==> #[trigger] data[i] == 0
}

/// How many blocks from `q` on continue the header of a sparse file. Each says
/// whether another follows.
pub open spec fn extensions(data: Seq<u8>, q: int) -> nat
    decreases data.len() - q,
{
    if q < 0 || q + 512 > data.len() {
        0
    } else if data[q + 504] == 1 {
        1 + extensions(data, q + 512)
    } else {
        1
    }
}

/// What follows a header of a tar archive.
pub enum TarStep {
    /// Nothing: the archive ends here, or is malformed.
    End,
    /// The sizes in the header of a sparse file add up to more than a number can
    /// hold.
    Overflow,
    /// The header at this place. An extended header may have told of it.
    Next(int, Option<Seq<u8>>),
}

/// What follows the header at `p`. `pending` is the contents of an extended
/// header that comes before it.
pub open spec fn tar_step(data: Seq<u8>, p: int, pending: Option<Seq<u8>>) -> TarStep {
    let kind = data[p + 156];
    let known = is_gnu_header(data, p) || is_ustar_header(data, p);
    if p < 0 || p + 512 > data.len() || is_zero_block(data, p) {
        TarStep::End
    } else {
        match entry_size_of(data.subrange(p, p + 512)) {
            None => TarStep::End,
            Some(own) => {
                let size = file_size(own, kind, pending);
                let base = p + 512 + (size + 511) / 512 * 512;
                if size + 511 > u64::MAX || base > u64::MAX {
                    TarStep::End
                } else if known && (kind == 76 || kind == 75) {
                    TarStep::Next(base, pending)
                } else if known && kind == 120 {
                    let end = if p + 512 + size <= data.len() {
                        p + 512 + size
                    } else {
                        data.len() as int
                    };
                    TarStep::Next(base, Some(data.subrange(p + 512, end)))
                } else if kind != 83 {
                    TarStep::Next(base, None)
                } else if !is_gnu_header(data, p) {
                    TarStep::End
                } else if data[p + 482] != 1 {
                    TarStep::Next(base, None)
                } else if base + 512 * extensions(data, p + 512) > u64::MAX {
                    TarStep::Overflow
                } else {
                    TarStep::Next(base + 512 * extensions(data, p + 512), None)
                }
            },
        }
    }
}

/// The size of the file behind a header, by the header's own size, its kind and
/// the extended header before it. Headers that only tell of others, of the kinds
/// `L`, `K`, `x` and `g`, keep their own.
pub open spec fn file_size(own: u64, kind: u8, pending: Option<Seq<u8>>) -> nat {
    if kind == 76 || kind == 75 || kind == 120 || kind == 103 || pending is None {
        own as nat
    } else {
        match pax_size(pax_records_of(pending->0), 0) {
            Some(size) => size,
            None => own as nat,
        }
    }
}

/// Where the first header from `p` on stands whose sizes overflow, or the end
/// of the archive.
pub open spec fn tar_end(data: Seq<u8>, p: int, pending: Option<Seq<u8>>) -> int
    decreases data.len() - p,
{
    match tar_step(data, p, pending) {
        TarStep::End => data.len() as int,
        TarStep::Overflow => p,
        TarStep::Next(q, told) => if p < q <= data.len() {
            tar_end(data, q, told)
        } else {
            data.len() as int
        },
    }
}

/// In no header of a tar archive do the sizes overflow.
pub open spec fn readable_tar(data: Seq<u8>) -> bool {
    tar_end(data, 0, None) == data.len()
}

/// A member of a tar archive.
#[derive(Debug)]
pub struct TarMember {
    pub path: Vec<u8>,
    /// Its size, with the holes of a sparse file.
    pub size: u64,
    pub sparse: bool,
}

/// The members of a tar archive as the tar crate reads them, each with its path,
/// its size and whether it is a sparse file. `None` stands for an error, which
/// ends the archive.
pub uninterp spec fn tar_members_of(data: Seq<u8>) -> Seq<Option<(Seq<u8>, u64, bool)>>;

/// The size of the member of a tar archive at a place, and its contents, as the
/// tar crate reads them. `None` where there is no such member, or an error.
pub uninterp spec fn tar_file_of(data: Seq<u8>, place: usize) -> Option<(u64, Seq<u8>)>;

/// The bytes of members.
pub open spec fn tar_views(v: Seq<Option<TarMember>>) -> Seq<Option<(Seq<u8>, u64, bool)>> {
    Seq::new(
        v.len(),
        |i: int|
            match v[i] {
                Some(m) => Some((m.path@, m.size, m.sparse)),
                None => None,
            },
    )
}

/// The member at a place is a sparse file with more bytes than fit into memory.
pub open spec fn is_endless(members: Seq<Option<(Seq<u8>, u64, bool)>>, place: usize) -> bool {
    place < members.len() && match members[place as int] {
        Some((_, size, sparse)) => sparse && size > usize::MAX / 2,
        None => false,
    }
}

/// `tar::Archive::entries`, with `tar::Header::path_bytes`, `tar::Entry::size`
/// and `tar::EntryType::is_gnu_sparse` of each entry: they depend on the bytes
/// alone. The crate adds up the sizes in the headers of a sparse file without a
/// check, so archives in which the sum overflows are left out.
#[verifier::external_body]
fn tar_members(data: &[u8]) -> (r: Vec<Option<TarMember>>)
    requires
        readable_tar(data@),
    ensures
        tar_views(r@) == tar_members_of(data@),
{
    let mut archive = tar::Archive::new(data);
    let entries = match archive.entries() {
        Ok(entries) => entries,
        Err(_) => return vec![None],
    };
    entries
        .map(|entry| {
            entry.ok().map(|entry| TarMember {
                path: entry.header().path_bytes().to_vec(),
                size: entry.size(),
                sparse: entry.header().entry_type().is_gnu_sparse(),
            })
        })
        .collect()
}

/// `tar::Archive::entries`, `tar::Entry::size` and the contents of the entry at
/// a place, which alone is read: they depend on the bytes alone. Archives are
/// left out as for `tar_members`, and so are contents that never end.
#[verifier::external_body]
fn tar_file(data: &[u8], place: usize) -> (r: Option<(u64, Vec<u8>)>)
    requires
        readable_tar(data@),
        !is_endless(tar_members_of(data@), place),
    ensures
        match r {
            Some((size, contents)) => tar_file_of(data@, place) == Some((size, contents@)),
            None => tar_file_of(data@, place) is None,
        },
{
    let mut archive = tar::Archive::new(data);
    let mut entry = archive.entries().ok()?.nth(place)?.ok()?;
    let size = entry.size();
    let mut contents = Vec::new();
    std::io::Read::read_to_end(&mut entry, &mut contents).ok()?;
    Some((size, contents))
}

fn magic_at(data: &[u8], p: usize, a: u8, b: u8, c: u8) -> (r: bool)
    requires
        p + 512 <= data@.len(),
    ensures
        r == (data@.subrange(p + 257, p + 265) == seq![117u8, 115, 116, 97, 114, a, b, c]),
{
    let all: usize = data.len();
    assert(p + 512 <= all);
    let ghost magic = data@.subrange(p + 257, p + 265);
    let r = data[p + 257] == 117 && data[p + 258] == 115 && data[p + 259] == 116 && data[p + 260]
        == 97 && data[p + 261] == 114 && data[p + 262] == a && data[p + 263] == b && data[p + 264]
        == c;
    proof {
        let wanted = seq![117u8, 115, 116, 97, 114, a, b, c];
        assert(magic[0] == data@[p + 257] && magic[1] == data@[p + 258] && magic[2] == data@[p
            + 259] && magic[3] == data@[p + 260] && magic[4] == data@[p + 261] && magic[5]
            == data@[p + 262] && magic[6] == data@[p + 263] && magic[7] == data@[p + 264]);
        if r {
            assert(magic =~= wanted);
        }
        if magic == wanted {
            assert(magic[0] == 117 && magic[1] == 115 && magic[2] == 116 && magic[3] == 97
                && magic[4] == 114 && magic[5] == a && magic[6] == b && magic[7] == c);
        }
    }
    r
}

fn zero_block(data: &[u8], p: usize) -> (r: bool)
    requires
        p + 512 <= data@.len(),
    ensures
        r == is_zero_block(data@, p as int),
{
    let all: usize = data.len();
    let mut i: usize = p;
    while i < p + 512
        invariant
            p <= i <= p + 512 <= all,
            all == data@.len(),
            forall|k: int| p <= k < i ==> #[trigger] data@[k] == 0,
        decreases p + 512 - i,
    {
        if data[i] != 0 {
            assert(data@[i as int] != 0);
            return false;
        }
        i = i + 1;
    }
    true
}

fn count_extensions(data: &[u8], start: usize) -> (r: usize)
    requires
        start <= data@.len(),
    ensures
        r == extensions(data@, start as int),
        start + 512 * r <= data@.len(),
{
    let all: usize = data.len();
    let mut q: usize = start;
    let mut n: usize = 0;
    while all - q >= 512
        invariant
            start <= q <= all,
            all == data@.len(),
            q == start + 512 * n,
            extensions(data@, start as int) == n + extensions(data@, q as int),
        decreases all - q,
    {
        n = n + 1;
        if data[q + 504] != 1 {
            return n;
        }
        q = q + 512;
    }
    n
}

fn size_in(records: &Vec<Option<(Vec<u8>, Vec<u8>)>>) -> (r: Option<u64>)
    ensures
        match r {
            Some(n) => pax_size(member_views(records@), 0) == Some(n as nat),
            None => pax_size(member_views(records@), 0) is None,
        },
{
    let wanted: Vec<u8> = vec![115, 105, 122, 101];
    assert(wanted@ =~= size_key());
    let ghost all = member_views(records@);
    let mut i: usize = 0;
    while i < records.len()
        invariant
            i <= records@.len(),
            all == member_views(records@),
            wanted@ == size_key(),
            pax_size(all, i as int) == pax_size(all, 0),
        decreases records@.len() - i,
    {
        match &records[i] {
            None => {
                return None;
            },
            Some((key, value)) => {
                if same_bytes(key, &wanted) {
                    return match utf8_text(copy_bytes(value)) {
                        Some(text) => parse_u64(text.as_str()),
                        None => None,
                    };
                }
            },
        }
        i = i + 1;
    }
    None
}

/// The bytes of optional contents.
spec fn bytes_opt(v: Option<Vec<u8>>) -> Option<Seq<u8>> {
    match v {
        Some(bytes) => Some(bytes@),
        None => None,
    }
}

/// How far a tar archive can be read safely.
fn tar_len(data: &[u8]) -> (r: usize)
    ensures
        r == tar_end(data@, 0, None),
        r <= data@.len(),
        readable_tar(data@.take(r as int)),
{
    let len: usize = data.len();
    let mut p: usize = 0;
    let mut pending: Option<Vec<u8>> = None;
    loop
        invariant
            len == data@.len(),
            p <= len,
            tar_end(data@, 0, None) == tar_end(data@, p as int, bytes_opt(pending)),
        decreases len - p,
    {
        proof {
            lemma_tar_prefix(data@, 0, None);
        }
        if len - p < 512 || zero_block(data, p) {
            return len;
        }
        let block = slice_subrange(data, p, p + 512);
        assert(block@ =~= data@.subrange(p as int, p + 512));
        let own: u64 = match entry_size(block) {
            Some(own) => own,
            None => {
                return len;
            },
        };
        let kind: u8 = data[p + 156];
        let mut size: u64 = own;
        if kind != 76 && kind != 75 && kind != 120 && kind != 103 {
            if let Some(contents) = &pending {
                if let Some(told) = size_in(&pax_records(contents.as_slice())) {
                    size = told;
                }
            }
        }
        assert(size == file_size(own, kind, bytes_opt(pending)));
        let rounded: u128 = (size as u128 + 511) / 512 * 512;
        let base: u128 = p as u128 + 512 + rounded;
        if size as u128 + 511 > u64::MAX as u128 || base > u64::MAX as u128 {
            return len;
        }
        let gnu = magic_at(data, p, 32, 32, 0);
        let known = gnu || magic_at(data, p, 0, 48, 48);
        let mut next: u128 = base;
        if known && kind == 120 {
            let rest: usize = len - p - 512;
            let end: usize = if size as u128 <= rest as u128 {
                p + 512 + size as usize
            } else {
                len
            };
            let mut contents: Vec<u8> = Vec::new();
            contents.extend_from_slice(slice_subrange(data, p + 512, end));
            assert(contents@ =~= data@.subrange(p + 512, end as int));
            pending = Some(contents);
        } else if !known || kind != 76 && kind != 75 {
            pending = None;
            if kind == 83 {
                if !gnu {
                    return len;
                }
                if data[p + 482] == 1 {
                    let more: usize = count_extensions(data, p + 512);
                    next = base + 512 * more as u128;
                    if next > u64::MAX as u128 {
                        return p;
                    }
                }
            }
        }
        if next > len as u128 {
            return len;
        }
        p = next as usize;
    }
}

proof fn lemma_tar_end_bound(data: Seq<u8>, p: int, pending: Option<Seq<u8>>)
    requires
        0 <= p <= data.len(),
    ensures
        p <= tar_end(data, p, pending) <= data.len(),
    decreases data.len() - p,
{
    if let TarStep::Next(q, told) = tar_step(data, p, pending) {
        if p < q <= data.len() {
            lemma_tar_end_bound(data, q, told);
        }
    }
}

proof fn lemma_extensions_prefix(data: Seq<u8>, n: int, q: int)
    requires
        0 <= q,
        0 <= n <= data.len(),
        q + 512 * extensions(data, q) <= n,
    ensures
        extensions(data.take(n), q) == extensions(data, q),
    decreases data.len() - q,
{
    if q + 512 <= data.len() && data[q + 504] == 1 {
        lemma_extensions_prefix(data, n, q + 512);
    }
}

proof fn lemma_same_block(data: Seq<u8>, other: Seq<u8>, p: int)
    requires
        0 <= p,
        p + 512 <= data.len(),
        p + 512 <= other.len(),
        data.subrange(p, p + 512) == other.subrange(p, p + 512),
    ensures
        data[p + 156] == other[p + 156],
        data[p + 482] == other[p + 482],
        is_gnu_header(data, p) == is_gnu_header(other, p),
        is_ustar_header(data, p) == is_ustar_header(other, p),
        is_zero_block(data, p) == is_zero_block(other, p),
{
    let block = data.subrange(p, p + 512);
    assert forall|i: int| p <= i < p + 512 implies #[trigger] data[i] == other[i] by {
        assert(block[i - p] == data[i]);
        assert(block[i - p] == other[i]);
    }
    assert(data.subrange(p + 257, p + 265) =~= other.subrange(p + 257, p + 265));
    if is_zero_block(data, p) {
        assert forall|i: int| p <= i < p + 512 implies #[trigger] other[i] == 0 by {
            assert(data[i] == other[i]);
        }
    }
    if is_zero_block(other, p) {
        assert forall|i: int| p <= i < p + 512 implies #[trigger] data[i] == 0 by {
            assert(data[i] == other[i]);
        }
    }
}

proof fn lemma_tar_prefix(data: Seq<u8>, p: int, pending: Option<Seq<u8>>)
    requires
        0 <= p <= data.len(),
    ensures
        ({
            let n = tar_end(data, p, pending);
            &&& p <= n <= data.len()
            &&& tar_end(data.take(n), p, pending) == n
        }),
    decreases data.len() - p,
{
    let n = tar_end(data, p, pending);
    let front = data.take(n);
    lemma_tar_end_bound(data, p, pending);
    if n == data.len() {
        assert(front =~= data);
    } else if let TarStep::Next(q, told) = tar_step(data, p, pending) {
        lemma_tar_end_bound(data, q, told);
        lemma_tar_prefix(data, q, told);
        assert(q <= n);
        assert(front.subrange(p, p + 512) =~= data.subrange(p, p + 512));
        lemma_same_block(front, data, p);
        let size = file_size(entry_size_of(data.subrange(p, p + 512))->0, data[p + 156], pending);
        assert(p + 512 + size <= q);
        assert(front.subrange(p + 512, p + 512 + size) =~= data.subrange(p + 512, p + 512 + size));
        if data[p + 156] == 83 && data[p + 482] == 1 {
            if is_gnu_header(data, p) {
                lemma_extensions_prefix(data, n, p + 512);
            }
        }
        assert(tar_step(front, p, pending) == tar_step(data, p, pending));
    }
}

proof fn lemma_extensions_push(data: Seq<u8>, b: u8, q: int)
    requires
        0 <= q,
        q % 512 == 0,
        data.len() % 512 == 0,
    ensures
        extensions(data.push(b), q) == extensions(data, q),
    decreases data.len() - q,
{
    if q + 512 <= data.len() && data[q + 504] == 1 {
        lemma_extensions_push(data, b, q + 512);
    }
}

proof fn lemma_tar_push(data: Seq<u8>, b: u8, p: int, pending: Option<Seq<u8>>)
    requires
        0 <= p <= data.len(),
        p % 512 == 0,
        data.len() % 512 == 0,
        tar_end(data, p, pending) == data.len(),
    ensures
        tar_end(data.push(b), p, pending) == data.len() + 1,
    decreases data.len() - p,
{
    let longer = data.push(b);
    if p + 512 <= data.len() {
        assert(longer.subrange(p, p + 512) =~= data.subrange(p, p + 512));
        lemma_same_block(longer, data, p);
        lemma_extensions_push(data, b, p + 512);
        match tar_step(data, p, pending) {
            TarStep::Next(q, told) => {
                assert(q % 512 == 0);
                let size = file_size(
                    entry_size_of(data.subrange(p, p + 512))->0,
                    data[p + 156],
                    pending,
                );
                assert(p + 512 + size <= q);
                if q <= data.len() {
                    assert(longer.subrange(p + 512, p + 512 + size) =~= data.subrange(
                        p + 512,
                        p + 512 + size,
                    ));
                    assert(tar_step(longer, p, pending) == tar_step(data, p, pending));
                    lemma_tar_push(data, b, q, told);
                } else {
                    assert(q > longer.len());
                    assert(tar_step(longer, p, pending) matches TarStep::Next(r, _) && r == q);
                }
            },
            _ => {},
        }
    }
}

/// `String::from_utf8` of std: the text of bytes that are UTF-8, and nothing
/// else.
#[verifier::external_body]
fn utf8_text(bytes: Vec<u8>) -> (r: Option<String>)
    ensures
        match r {
            Some(s) => valid_utf8(bytes@) && s@ == decode_utf8(bytes@),
            None => !valid_utf8(bytes@),
        },
{
    String::from_utf8(bytes).ok()
}

/// What was found of the control file.
#[derive(Debug)]
pub enum ControlFile {
    Text(String),
    Absent,
    /// What was looked through could not be read.
    Malformed,
}

/// What was found of the control file, as a text.
pub enum ControlText {
    Text(Seq<char>),
    Absent,
    Malformed,
}

impl View for ControlFile {
    type V = ControlText;

    open spec fn view(&self) -> ControlText {
        match self {
            ControlFile::Text(s) => ControlText::Text(s@),
            ControlFile::Absent => ControlText::Absent,
            ControlFile::Malformed => ControlText::Malformed,
        }
    }
}

/// The path of the control file among the control members.
pub open spec fn control_path() -> Seq<u8> {
    seq![46u8, 47, 99, 111, 110, 116, 114, 111, 108]
}

/// Where the control file stands among the members of a tar archive.
#[derive(Debug, Clone, Copy, PartialEq, Eq, Structural)]
pub enum ControlPlace {
    At(usize),
    Absent,
    /// An error comes before it.
    Malformed,
}

/// Where the control file stands among the members from `i` on: at the first
/// with its path, unless an error comes before it.
pub open spec fn control_place(
    members: Seq<Option<(Seq<u8>, u64, bool)>>,
    i: int,
) -> ControlPlace
    decreases members.len() - i,
{
    if i < 0 || i >= members.len() {
        ControlPlace::Absent
    } else {
        match members[i] {
            None => ControlPlace::Malformed,
            Some((path, _, _)) => if path == control_path() {
                ControlPlace::At(i as usize)
            } else {
                control_place(members, i + 1)
            },
        }
    }
}

/// The text of the control file, by its size and contents. `sure` says that the
/// archive is complete, so that contents that are too short are all there is.
/// `None` where the archive has to be read further.
pub open spec fn control_contents(file: Option<(u64, Seq<u8>)>, sure: bool) -> Option<ControlText> {
    match file {
        None => if sure {
            Some(ControlText::Malformed)
        } else {
            None
        },
        Some((size, contents)) => if !sure && contents.len() < size {
            None
        } else if valid_utf8(contents) {
            Some(ControlText::Text(decode_utf8(contents)))
        } else {
            Some(ControlText::Malformed)
        },
    }
}

/// The archive in which members are looked for. One that is not complete must not
/// look as if it ended behind its last block, so a byte follows that.
pub open spec fn with_tail(front: Seq<u8>, sure: bool) -> Seq<u8> {
    if !sure && front.len() % 512 == 0 {
        front.push(0)
    } else {
        front
    }
}

/// The control file in the first bytes of a tar archive, which are all of it
/// where `whole` says so. `None` where the archive has to be read further.
pub open spec fn control_within(plain: Seq<u8>, whole: bool) -> Option<ControlText> {
    let front = plain.take(tar_end(plain, 0, None));
    let sure = whole && front.len() == plain.len();
    match control_place(tar_members_of(with_tail(front, sure)), 0) {
        ControlPlace::Absent => Some(ControlText::Absent),
        ControlPlace::Malformed => if sure {
            Some(ControlText::Malformed)
        } else {
            None
        },
        ControlPlace::At(i) => control_contents(
            if is_endless(tar_members_of(front), i) {
                None
            } else {
                tar_file_of(front, i)
            },
            sure,
        ),
    }
}

/// The control file in an xz-compressed tar archive. The first `limit` bytes
/// are looked through, and twice as many each time that these are not enough.
pub open spec fn control_stream(data: Seq<u8>, limit: usize) -> ControlText
    decreases usize::MAX - limit,
{
    let (plain, end) = unxz_of(data, limit);
    match control_within(plain, end == StreamEnd::Complete) {
        Some(found) => found,
        None => if end == StreamEnd::More && tar_end(plain, 0, None) == plain.len() && 0 < limit
            <= usize::MAX / 2 {
            control_stream(data, (limit * 2) as usize)
        } else {
            ControlText::Malformed
        },
    }
}

/// How much of a control archive is looked through at first.
pub const FIRST_LOOK: usize = 65536;

fn same_bytes(a: &Vec<u8>, b: &Vec<u8>) -> (r: bool)
    ensures
        r == (a@ == b@),
{
    if a.len() != b.len() {
        return false;
    }
    let mut i: usize = 0;
    while i < a.len()
        invariant
            i <= a@.len(),
            a@.len() == b@.len(),
            forall|k: int| 0 <= k < i ==> a@[k] == b@[k],
        decreases a@.len() - i,
    {
        if a[i] != b[i] {
            return false;
        }
        i = i + 1;
    }
    assert(a@ =~= b@);
    true
}

fn copy_bytes(v: &Vec<u8>) -> (r: Vec<u8>)
    ensures
        r@ == v@,
{
    let mut r: Vec<u8> = Vec::new();
    r.extend_from_slice(v.as_slice());
    assert(r@ =~= v@);
    r
}

/// Where the control file stands among the members of a tar archive.
pub fn find_control(members: &Vec<Option<TarMember>>) -> (r: ControlPlace)
    ensures
        r == control_place(tar_views(members@), 0),
{
    let wanted: Vec<u8> = vec![46, 47, 99, 111, 110, 116, 114, 111, 108];
    assert(wanted@ =~= control_path());
    let ghost all = tar_views(members@);
    let mut i: usize = 0;
    while i < members.len()
        invariant
            i <= members@.len(),
            all == tar_views(members@),
            wanted@ == control_path(),
            control_place(all, i as int) == control_place(all, 0),
        decreases members@.len() - i,
    {
        match &members[i] {
            None => {
                return ControlPlace::Malformed;
            },
            Some(member) => {
                if same_bytes(&member.path, &wanted) {
                    return ControlPlace::At(i);
                }
            },
        }
        i = i + 1;
    }
    ControlPlace::Absent
}

/// The text of a file, as a view.
pub open spec fn file_view(file: Option<(u64, Vec<u8>)>) -> Option<(u64, Seq<u8>)> {
    match file {
        Some((size, contents)) => Some((size, contents@)),
        None => None,
    }
}

/// What was found of the control file, where that is known.
pub open spec fn found_view(found: Option<ControlFile>) -> Option<ControlText> {
    match found {
        Some(file) => Some(file@),
        None => None,
    }
}

/// The text of the control file, by its size and contents. `None` where the
/// archive, of which `sure` says that it is complete, has to be read further.
pub fn read_control(file: Option<(u64, Vec<u8>)>, sure: bool) -> (r: Option<ControlFile>)
    ensures
        found_view(r) == control_contents(file_view(file), sure),
{
    match file {
        None => if sure {
            Some(ControlFile::Malformed)
        } else {
            None
        },
        Some((size, contents)) => {
            if !sure && (contents.len() as u64) < size {
                return None;
            }
            match utf8_text(contents) {
                Some(text) => Some(ControlFile::Text(text)),
                None => Some(ControlFile::Malformed),
            }
        },
    }
}

fn endless(members: &Vec<Option<TarMember>>, place: usize) -> (r: bool)
    ensures
        r == is_endless(tar_views(members@), place),
{
    if place >= members.len() {
        return false;
    }
    match &members[place] {
        Some(member) => member.sparse && member.size as u128 > (usize::MAX / 2) as u128,
        None => false,
    }
}

/// The control file in the first bytes of a tar archive.
fn look_within(plain: &[u8], whole: bool) -> (r: (Option<ControlFile>, bool))
    ensures
        found_view(r.0) == control_within(plain@, whole),
        r.1 == (tar_end(plain@, 0, None) == plain@.len()),
{
    let n: usize = tar_len(plain);
    let complete = n == plain.len();
    let front = slice_subrange(plain, 0, n);
    let sure = whole && complete;
    assert(front@ =~= plain@.take(tar_end(plain@, 0, None)));
    let here = tar_members(front);
    let members = if !sure && n % 512 == 0 {
        let mut tail: Vec<u8> = Vec::new();
        tail.extend_from_slice(front);
        tail.push(0);
        assert(tail@ =~= front@.push(0));
        proof {
            lemma_tar_push(front@, 0, 0, None);
        }
        tar_members(tail.as_slice())
    } else {
        tar_members(front)
    };
    let found = match find_control(&members) {
        ControlPlace::Absent => Some(ControlFile::Absent),
        ControlPlace::Malformed => if sure {
            Some(ControlFile::Malformed)
        } else {
            None
        },
        ControlPlace::At(i) => {
            let file = if endless(&here, i) {
                None
            } else {
                tar_file(front, i)
            };
            read_control(file, sure)
        },
    };
    (found, complete)
}

/// The control file in an xz-compressed tar archive.
fn look_through(data: &[u8]) -> (r: ControlFile)
    ensures
        r@ == control_stream(data@, FIRST_LOOK),
{
    let mut limit: usize = FIRST_LOOK;
    loop
        invariant
            0 < limit,
            control_stream(data@, limit) == control_stream(data@, FIRST_LOOK),
        decreases usize::MAX - limit,
    {
        let (plain, end) = unxz(data, limit);
        let whole = match end {
            StreamEnd::Complete => true,
            _ => false,
        };
        let more = match end {
            StreamEnd::More => true,
            _ => false,
        };
        let (found, readable) = look_within(plain.as_slice(), whole);
        if let Some(file) = found {
            return file;
        }
        if !more || !readable || limit > usize::MAX / 2 {
            return ControlFile::Malformed;
        }
        limit = limit * 2;
    }
}

/// The control file in a member of a package file: in one with `control.tar` in
/// its name.
pub open spec fn member_control(member: Option<(Seq<u8>, Seq<u8>)>) -> ControlText {
    match member {
        None => ControlText::Malformed,
        Some((name, contents)) => if !valid_utf8(name) {
            ControlText::Malformed
        } else if has_text(decode_utf8(name), "control.tar"@) {
            control_stream(contents, FIRST_LOOK)
        } else {
            ControlText::Absent
        },
    }
}

fn control_in(member: &Option<(Vec<u8>, Vec<u8>)>) -> (r: ControlFile)
    ensures
        r@ == member_control(
            match *member {
                Some((name, contents)) => Some((name@, contents@)),
                None => None,
            },
        ),
{
    match member {
        None => ControlFile::Malformed,
        Some((name, contents)) => match utf8_text(copy_bytes(name)) {
            None => ControlFile::Malformed,
            Some(filename) => if contains(filename.as_str(), "control.tar") {
                look_through(contents.as_slice())
            } else {
                ControlFile::Absent
            },
        },
    }
}

/// The first thing that was found of the control file.
pub open spec fn first_found(found: Seq<ControlText>) -> ControlText
    decreases found.len(),
{
    if found.len() == 0 {
        ControlText::Absent
    } else if found[0] is Absent {
        first_found(found.skip(1))
    } else {
        found[0]
    }
}

/// What was found, as texts.
pub open spec fn control_texts(v: Seq<ControlFile>) -> Seq<ControlText> {
    Seq::new(v.len(), |i: int| v[i]@)
}

/// The control file of a package file, by what was found in its members.
/// `complete` says that all of its members were looked through.
pub fn judge_control(found: Vec<ControlFile>, complete: bool) -> (r: Result<String, NalaError>)
    ensures
        match first_found(control_texts(found@)) {
            ControlText::Text(s) => r is Ok && r->Ok_0@ == s,
            ControlText::Malformed => fails_with(r, "The archive is malformed"@),
            ControlText::Absent => fails_with(
                r,
                if complete {
                    "Could not determine valid deb file"@
                } else {
                    "The archive is malformed"@
                },
            ),
        },
{
    let ghost all = control_texts(found@);
    assert(all.skip(0) =~= all);
    for file in it: found
        invariant
            all == control_texts(it.seq()),
            first_found(all.skip(it.index() as int)) == first_found(all),
    {
        assert(all.skip(it.index() as int)[0] == file@);
        match file {
            ControlFile::Text(text) => {
                return Ok(text);
            },
            ControlFile::Malformed => {
                return Err(NalaError::new("The archive is malformed"));
            },
            ControlFile::Absent => {},
        }
        assert(all.skip(it.index() as int).skip(1) =~= all.skip(it.index() + 1));
    }
    assert(all.skip(all.len() as int) =~= Seq::empty());
    if complete {
        Err(NalaError::new("Could not determine valid deb file"))
    } else {
        Err(NalaError::new("The archive is malformed"))
    }
}

/// What each member holds of the control file.
pub open spec fn controls_in(members: Seq<Option<(Seq<u8>, Seq<u8>)>>) -> Seq<ControlText> {
    Seq::new(members.len(), |i: int| member_control(members[i]))
}

/// The text of the control file of a package file. What stands behind a header
/// that cannot be read safely is not looked through.
pub fn read_archive(data: &[u8]) -> (r: Result<String, NalaError>)
    ensures
        match first_found(controls_in(ar_members_of(data@.take(readable_end(data@, archive_start()))))) {
            ControlText::Text(s) => r is Ok && r->Ok_0@ == s,
            ControlText::Malformed => fails_with(r, "The archive is malformed"@),
            ControlText::Absent => fails_with(
                r,
                if readable_end(data@, archive_start()) == data@.len() {
                    "Could not determine valid deb file"@
                } else {
                    "The archive is malformed"@
                },
            ),
        },
{
    let n: usize = readable_len(data);
    let front = slice_subrange(data, 0, n);
    assert(front@ =~= data@.take(n as int));
    let members = ar_members(front);
    let ghost views = member_views(members@);
    let mut found: Vec<ControlFile> = Vec::new();
    let mut i: usize = 0;
    while i < members.len()
        invariant
            i <= members@.len(),
            views == member_views(members@),
            control_texts(found@) == controls_in(views).take(i as int),
        decreases members@.len() - i,
    {
        let ghost before = control_texts(found@);
        let control = control_in(&members[i]);
        assert(control@ == member_control(views[i as int]));
        found.push(control);
        assert(control_texts(found@) =~= before.push(control@));
        assert(controls_in(views).take(i + 1) =~= controls_in(views).take(i as int).push(
            controls_in(views)[i as int],
        ));
        i = i + 1;
    }
    assert(controls_in(views).take(i as int) =~= controls_in(views));
    let complete = n == data.len();
    judge_control(found, complete)
}

/// A package file, with the tags of its control file.
#[derive(Debug)]
pub struct DebFile {
    pub path: String,
    pub tag: TagSection,
}

impl DebFile {
    /// The package and its version are named.
    pub open spec fn wf(self) -> bool {
        self.tag.tag("Package"@) is Some && self.tag.tag("Version"@) is Some
    }

    /// The package file at a path, by the tags of its control file.
    pub fn new(path: String, tag: TagSection) -> (r: Result<DebFile, NalaError>)
        ensures
            if tag.tag("Package"@) is Some && tag.tag("Version"@) is Some {
                r is Ok && r->Ok_0.wf() && r->Ok_0.path == path && r->Ok_0.tag == tag
            } else {
                fails_with(r, "Not a valid DebFile"@)
            },
    {
        if tag.get("Package").is_some() && tag.get("Version").is_some() {
            return Ok(DebFile { path, tag });
        }
        Err(NalaError::new("Not a valid DebFile"))
    }

    /// The name of the package.
    pub fn name(&self) -> (r: &str)
        requires
            self.wf(),
        ensures
            self.tag.tag("Package"@) == Some(r@),
    {
        self.tag.get_default("Package", "")
    }

    /// The version of the package.
    pub fn version(&self) -> (r: &str)
        requires
            self.wf(),
        ensures
            self.tag.tag("Version"@) == Some(r@),
    {
        self.tag.get_default("Version", "")
    }
}

/// The path of a member of a tar archive.
pub open spec fn path_in_tar(member: Option<(Seq<u8>, u64, bool)>) -> Seq<u8> {
    match member {
        Some((path, _, _)) => path,
        None => Seq::empty(),
    }
}

/// The contents of a file.
pub open spec fn bytes_of(file: Option<(u64, Seq<u8>)>) -> Seq<u8> {
    match file {
        Some((_, contents)) => contents,
        None => Seq::empty(),
    }
}

/// The name of a member of a package file.
pub open spec fn member_name(member: Option<(Seq<u8>, Seq<u8>)>) -> Seq<u8> {
    match member {
        Some((name, _)) => name,
        None => Seq::empty(),
    }
}

/// The contents of a member of a package file.
pub open spec fn member_bytes(member: Option<(Seq<u8>, Seq<u8>)>) -> Seq<u8> {
    match member {
        Some((_, contents)) => contents,
        None => Seq::empty(),
    }
}

proof fn lemma_control_place(members: Seq<Option<(Seq<u8>, u64, bool)>>, i: int)
    requires
        0 <= i <= members.len() <= usize::MAX,
    ensures
        match control_place(members, i) {
            ControlPlace::At(k) => i <= k < members.len() && members[k as int] is Some
                && path_in_tar(members[k as int]) == control_path() && forall|j: int|
                i <= j < k ==> (#[trigger] members[j]) is Some && path_in_tar(members[j]) != control_path(),
            ControlPlace::Malformed => exists|k: int|
                i <= k < members.len() && (#[trigger] members[k]) is None && forall|j: int|
                    i <= j < k ==> (#[trigger] members[j]) is Some && path_in_tar(members[j])
                        != control_path(),
            ControlPlace::Absent => forall|j: int|
                i <= j < members.len() ==> (#[trigger] members[j]) is Some && path_in_tar(members[j])
                    != control_path(),
        },
    decreases members.len() - i,
{
    if i < members.len() {
        if members[i] is None {
            assert(members[i] is None);
        } else if path_in_tar(members[i]) != control_path() {
            lemma_control_place(members, i + 1);
        }
    }
}

/// The control file is the first member with its path. It is not found where an
/// error comes before it, or there is none.
pub proof fn law_first_control_file(members: &Vec<Option<TarMember>>, r: ControlPlace)
    requires
        call_ensures(find_control, (members,), r),
    ensures
        ({
            let path = seq![46u8, 47, 99, 111, 110, 116, 114, 111, 108];
            match r {
                ControlPlace::At(k) => k < members@.len() && members@[k as int] is Some
                    && members@[k as int]->0.path@ == path && forall|j: int|
                    0 <= j < k ==> (#[trigger] members@[j]) is Some && members@[j]->0.path@ != path,
                ControlPlace::Malformed => exists|k: int|
                    0 <= k < members@.len() && (#[trigger] members@[k]) is None && forall|j: int|
                        0 <= j < k ==> (#[trigger] members@[j]) is Some && members@[j]->0.path@
                            != path,
                ControlPlace::Absent => forall|j: int|
                    0 <= j < members@.len() ==> (#[trigger] members@[j]) is Some
                        && members@[j]->0.path@ != path,
            }
        }),
{
    let all = tar_views(members@);
    assert(members@.len() == members.len());
    lemma_control_place(all, 0);
    assert forall|j: int| 0 <= j < all.len() implies (all[j] is Some == members@[j] is Some) && (
    all[j] is Some ==> path_in_tar(all[j]) == (#[trigger] members@[j])->0.path@) by {}
    match r {
        ControlPlace::At(k) => {
            assert forall|j: int| 0 <= j < k implies (#[trigger] members@[j]) is Some
                && members@[j]->0.path@ != control_path() by {
                assert(all[j] is Some);
            }
        },
        ControlPlace::Malformed => {
            let k = choose|k: int|
                0 <= k < all.len() && (#[trigger] all[k]) is None && forall|j: int|
                    0 <= j < k ==> (#[trigger] all[j]) is Some && path_in_tar(all[j]) != control_path();
            assert(members@[k] is None);
            assert forall|j: int| 0 <= j < k implies (#[trigger] members@[j]) is Some
                && members@[j]->0.path@ != control_path() by {
                assert(all[j] is Some);
            }
        },
        ControlPlace::Absent => {
            assert forall|j: int| 0 <= j < members@.len() implies (#[trigger] members@[j]) is Some
                && members@[j]->0.path@ != control_path() by {
                assert(all[j] is Some);
            }
        },
    }
}

/// A control file is read if its bytes are text and all there. Where more bytes
/// may come, one that is not complete is not judged yet.
pub proof fn law_control_file_is_read(
    file: Option<(u64, Vec<u8>)>,
    sure: bool,
    r: Option<ControlFile>,
)
    requires
        call_ensures(read_control, (file, sure), r),
    ensures
        file is None && !sure ==> r is None,
        file is None && sure ==> r is Some && r->0@ is Malformed,
        file matches Some((size, contents)) ==> {
            let complete = sure || contents@.len() >= size;
            &&& !complete ==> r is None
            &&& complete && valid_utf8(contents@) ==> r is Some && r->0@ == ControlText::Text(
                decode_utf8(contents@),
            )
            &&& complete && !valid_utf8(contents@) ==> r is Some && r->0@ is Malformed
        },
{
}

proof fn lemma_first_found(found: Seq<ControlText>, i: int)
    requires
        0 <= i <= found.len(),
        forall|j: int| 0 <= j < i ==> (#[trigger] found[j]) is Absent,
    ensures
        i < found.len() && !(found[i] is Absent) ==> first_found(found) == found[i],
        i == found.len() ==> first_found(found) is Absent,
    decreases found.len(),
{
    if found.len() > 0 && i > 0 {
        let rest = found.skip(1);
        assert(found[0] is Absent);
        assert forall|j: int| 0 <= j < i - 1 implies (#[trigger] rest[j]) is Absent by {
            assert(rest[j] == found[j + 1]);
        }
        lemma_first_found(rest, i - 1);
        if i < found.len() {
            assert(rest[i - 1] == found[i]);
        }
    }
}

/// The first of the members that hold a control file, or should, decides.
pub proof fn law_first_member_decides(
    found: Vec<ControlFile>,
    complete: bool,
    r: Result<String, NalaError>,
    i: int,
)
    requires
        call_ensures(judge_control, (found, complete), r),
        0 <= i <= found@.len(),
        forall|j: int| 0 <= j < i ==> (#[trigger] found@[j])@ is Absent,
    ensures
        i < found@.len() && found@[i]@ is Text ==> r is Ok && r->Ok_0@ == found@[i]@->Text_0,
        i < found@.len() && found@[i]@ is Malformed ==> r is Err && r->Err_0.message@
            == "The archive is malformed"@,
        i == found@.len() && complete ==> r is Err && r->Err_0.message@
            == "Could not determine valid deb file"@,
        i == found@.len() && !complete ==> r is Err && r->Err_0.message@
            == "The archive is malformed"@,
{
    let all = control_texts(found@);
    assert forall|j: int| 0 <= j < i implies (#[trigger] all[j]) is Absent by {
        assert(all[j] == found@[j]@);
    }
    if i < found@.len() {
        assert(all[i] == found@[i]@);
    }
    lemma_first_found(all, i);
}

/// The name of a member is text without the words that mark the control archive.
pub open spec fn is_passed_over(member: Option<(Seq<u8>, Seq<u8>)>) -> bool {
    member is Some && valid_utf8(member_name(member)) && !has_text(
        decode_utf8(member_name(member)),
        "control.tar"@,
    )
}

/// A package file gives its control file: the text of `./control` in the first
/// member that is named as its control archive. A small archive is decompressed
/// at once.
pub proof fn law_control_file_of_a_package(
    data: &[u8],
    r: Result<String, NalaError>,
    i: int,
    k: usize,
)
    requires
        call_ensures(read_archive, (data,), r),
        readable_end(data@, archive_start()) == data@.len(),
        ({
            let members = ar_members_of(data@);
            let (plain, end) = unxz_of(member_bytes(members[i]), 65536);
            let inner = tar_members_of(plain);
            &&& 0 <= i < members.len()
            &&& forall|j: int| 0 <= j < i ==> is_passed_over(#[trigger] members[j])
            &&& members[i] is Some
            &&& valid_utf8(member_name(members[i]))
            &&& has_text(decode_utf8(member_name(members[i])), "control.tar"@)
            &&& end == StreamEnd::Complete
            &&& readable_tar(plain)
            &&& k < inner.len() <= usize::MAX
            &&& inner[k as int] is Some
            &&& path_in_tar(inner[k as int]) == control_path()
            &&& forall|j: int|
                0 <= j < k ==> (#[trigger] inner[j]) is Some && path_in_tar(inner[j]) != control_path()
            &&& !is_endless(inner, k)
            &&& tar_file_of(plain, k) is Some
        }),
    ensures
        ({
            let plain = unxz_of(member_bytes(ar_members_of(data@)[i]), 65536).0;
            let contents = bytes_of(tar_file_of(plain, k));
            &&& r is Ok <==> valid_utf8(contents)
            &&& r is Ok ==> r->Ok_0@ == decode_utf8(contents)
        }),
{
    let members = ar_members_of(data@);
    assert(data@.take(data@.len() as int) =~= data@);
    let found = controls_in(members);
    assert forall|j: int| 0 <= j < i implies (#[trigger] found[j]) is Absent by {
        assert(is_passed_over(members[j]));
    }
    let (plain, end) = unxz_of(member_bytes(members[i]), 65536);
    assert(plain.take(plain.len() as int) =~= plain);
    let inner = tar_members_of(plain);
    lemma_control_place(inner, 0);
    assert(control_place(inner, 0) == ControlPlace::At(k)) by {
        match control_place(inner, 0) {
            ControlPlace::At(m) => {
                if m < k {
                    assert(path_in_tar(inner[m as int]) != control_path());
                } else if k < m {
                    assert(path_in_tar(inner[k as int]) != control_path());
                }
            },
            ControlPlace::Malformed => {
                let m = choose|m: int|
                    0 <= m < inner.len() && (#[trigger] inner[m]) is None && forall|j: int|
                        0 <= j < m ==> (#[trigger] inner[j]) is Some && path_in_tar(inner[j])
                            != control_path();
                if m < k {
                    assert(inner[m] is Some);
                } else {
                    assert(path_in_tar(inner[k as int]) != control_path());
                }
            },
            ControlPlace::Absent => {
                assert(path_in_tar(inner[k as int]) != control_path());
            },
        }
    }
    assert(found[i] == member_control(members[i]));
    assert(found[i] == control_stream(member_bytes(members[i]), FIRST_LOOK));
    lemma_first_found(found, i);
}

/// A package file without a control archive is no package file.
pub proof fn law_no_control_archive(data: &[u8], r: Result<String, NalaError>)
    requires
        call_ensures(read_archive, (data,), r),
        readable_end(data@, archive_start()) == data@.len(),
        forall|j: int|
            0 <= j < ar_members_of(data@).len() ==> is_passed_over(
                #[trigger] ar_members_of(data@)[j],
            ),
    ensures
        r is Err,
        r->Err_0.message@ == "Could not determine valid deb file"@,
{
    let members = ar_members_of(data@);
    assert(data@.take(data@.len() as int) =~= data@);
    let found = controls_in(members);
    assert forall|j: int| 0 <= j < found.len() implies (#[trigger] found[j]) is Absent by {
        assert(is_passed_over(members[j]));
    }
    lemma_first_found(found, found.len() as int);
}

/// A tar archive is read to its end unless it holds the header of a sparse file.
pub proof fn law_only_sparse_files_cut(data: Seq<u8>, p: int, pending: Option<Seq<u8>>)
    requires
        0 <= p <= data.len(),
        forall|i: int| 0 <= i < data.len() - 356 ==> #[trigger] data[i + 156] != 83,
    ensures
        tar_end(data, p, pending) == data.len(),
    decreases data.len() - p,
{
    if p + 512 <= data.len() {
        assert(data[p + 156] != 83);
    }
    if let TarStep::Next(q, told) = tar_step(data, p, pending) {
        if p < q <= data.len() {
            law_only_sparse_files_cut(data, q, told);
        }
    }
}

/// A header is cut off only where the sizes of a sparse file add up to more than a
/// number can hold.
pub proof fn law_cut_means_overflow(data: Seq<u8>, p: int, pending: Option<Seq<u8>>)
    requires
        0 <= p,
        tar_step(data, p, pending) is Overflow,
    ensures
        p + 512 <= data.len(),
        data[p + 156] == 83,
        data[p + 482] == 1,
        ({
            let own = entry_size_of(data.subrange(p, p + 512))->0;
            let size = if pending is Some {
                match pax_size(pax_records_of(pending->0), 0) {
                    Some(told) => told,
                    None => own as nat,
                }
            } else {
                own as nat
            };
            p + 512 + size + 511 + 512 * extensions(data, p + 512) > u64::MAX
        }),
{
}

/// Behind an ordinary header the next stands at the next block after the file.
pub proof fn law_ordinary_header(data: Seq<u8>, p: int)
    requires
        0 <= p,
        p + 512 <= data.len() <= u64::MAX - 1024,
        !is_zero_block(data, p),
        data[p + 156] == 48,
        entry_size_of(data.subrange(p, p + 512)) is Some,
        entry_size_of(data.subrange(p, p + 512))->0 <= data.len(),
        p + 1024 + data.len() <= u64::MAX,
    ensures
        ({
            let size = entry_size_of(data.subrange(p, p + 512))->0;
            let step = tar_step(data, p, None);
            &&& step is Next
            &&& step->Next_0 >= p + 512 + size
            &&& step->Next_0 < p + 512 + size + 512
            &&& (step->Next_0 - p) % 512 == 0
        }),
{
}

/// Behind an ordinary member of a package file the next stands at the next even
/// place.
pub proof fn law_ordinary_member(data: Seq<u8>, p: Place, size: nat)
    requires
        0 <= p.pos,
        p.pos + 60 <= data.len(),
        p.flavor == Flavor::Common,
        field_value(data.subrange(p.pos + 48, p.pos + 58)) == Some(size),
        header_name(data, p.pos).len() > 0,
        header_name(data, p.pos)[0] != 47,
        header_name(data, p.pos)[0] != 35,
        header_name(data, p.pos).last() != 47,
    ensures
        ({
            let next = next_place(data, p);
            &&& next is Some
            &&& next->0.flavor == Flavor::Common
            &&& next->0.pos == p.pos + 60 + size || next->0.pos == p.pos + 60 + size + 1
            &&& (next->0.pos - p.pos) % 2 == 0
        }),
{
}

/// A package file must name its package and its version.
pub proof fn law_package_file_names_itself(
    path: String,
    tag: TagSection,
    r: Result<DebFile, NalaError>,
)
    requires
        call_ensures(DebFile::new, (path, tag), r),
    ensures
        r is Ok <==> tag.tag("Package"@) is Some && tag.tag("Version"@) is Some,
        r is Ok ==> r->Ok_0.path == path && r->Ok_0.tag == tag,
{
}

/// A control archive that is decompressed in part is looked through as far as it
/// goes: a control file that is complete there is taken.
pub proof fn law_control_file_in_the_first_bytes(plain: Seq<u8>, k: usize)
    requires
        readable_tar(plain),
        plain.len() % 512 != 0,
        ({
            let inner = tar_members_of(plain);
            &&& k < inner.len() <= usize::MAX
            &&& inner[k as int] is Some
            &&& path_in_tar(inner[k as int]) == control_path()
            &&& forall|j: int|
                0 <= j < k ==> (#[trigger] inner[j]) is Some && path_in_tar(inner[j])
                    != control_path()
            &&& !is_endless(inner, k)
        }),
        tar_file_of(plain, k) matches Some((size, contents)) && contents.len() == size
            && valid_utf8(contents),
    ensures
        control_within(plain, false) == Some(
            ControlText::Text(decode_utf8(bytes_of(tar_file_of(plain, k)))),
        ),
        control_within(plain, true) == control_within(plain, false),
{
    assert(plain.take(plain.len() as int) =~= plain);
    let inner = tar_members_of(plain);
    lemma_control_place(inner, 0);
    match control_place(inner, 0) {
        ControlPlace::At(m) => {
            if m < k {
                assert(path_in_tar(inner[m as int]) != control_path());
            } else if k < m {
                assert(path_in_tar(inner[k as int]) != control_path());
            }
        },
        ControlPlace::Malformed => {
            let m = choose|m: int|
                0 <= m < inner.len() && (#[trigger] inner[m]) is None && forall|j: int|
                    0 <= j < m ==> (#[trigger] inner[j]) is Some && path_in_tar(inner[j])
                        != control_path();
            if m < k {
                assert(inner[m] is Some);
            } else {
                assert(path_in_tar(inner[k as int]) != control_path());
            }
        },
        ControlPlace::Absent => {
            assert(path_in_tar(inner[k as int]) != control_path());
        },
    }
}

/// Where the first bytes do not decide and more follow, twice as many are looked
/// through.
pub proof fn law_looks_further(data: Seq<u8>, limit: usize)
    requires
        0 < limit <= usize::MAX / 2,
        ({
            let (plain, end) = unxz_of(data, limit);
            &&& end == StreamEnd::More
            &&& readable_tar(plain)
            &&& control_within(plain, false) is None
        }),
    ensures
        control_stream(data, limit) == control_stream(data, (2 * limit) as usize),
{
}

/// A number in a header may have white space behind it.
pub proof fn law_number_in_a_header(field: Seq<u8>, n: nat, blanks: Seq<char>)
    requires
        valid_utf8(field),
        n <= u64::MAX,
        decode_utf8(field) == crate::text::decimal(n) + blanks || decode_utf8(field) == seq!['+']
            + crate::text::decimal(n) + blanks,
        forall|i: int| 0 <= i < blanks.len() ==> crate::text::white_space(#[trigger] blanks[i]),
    ensures
        field_value(field) == Some(n),
{
    crate::text::law_number_is_read_back(n);
    crate::text::lemma_decimal(n);
    let digits = crate::text::decimal(n);
    lemma_trimmed(digits, blanks);
    lemma_trimmed(seq!['+'] + digits, blanks);
}

proof fn lemma_trimmed(s: Seq<char>, blanks: Seq<char>)
    requires
        s.len() > 0,
        '0' <= s.last() <= '9',
        forall|i: int| 0 <= i < blanks.len() ==> crate::text::white_space(#[trigger] blanks[i]),
    ensures
        trimmed_end(s + blanks) == s,
    decreases blanks.len(),
{
    let all = s + blanks;
    if blanks.len() == 0 {
        assert(all =~= s);
    } else {
        assert(all.last() == blanks[blanks.len() - 1]);
        assert(all.drop_last() =~= s + blanks.drop_last());
        assert forall|i: int| 0 <= i < blanks.drop_last().len() implies crate::text::white_space(
            #[trigger] blanks.drop_last()[i],
        ) by {
            assert(blanks.drop_last()[i] == blanks[i]);
        }
        lemma_trimmed(s, blanks.drop_last());
    }
}

/// The blanks behind a name do not count, all of them and nothing else.
pub proof fn law_unpadded(f: Seq<u8>)
    ensures
        ({
            let name = unpadded(f);
            &&& name.len() <= f.len()
            &&& name == f.take(name.len() as int)
            &&& forall|i: int| name.len() <= i < f.len() ==> #[trigger] f[i] == 32
            &&& name.len() > 0 ==> name.last() != 32
        }),
    decreases f.len(),
{
    assert(f.take(f.len() as int) =~= f);
    if f.len() > 0 && f.last() == 32 {
        let front = f.drop_last();
        law_unpadded(front);
        let name = unpadded(front);
        assert(name =~= f.take(name.len() as int));
        assert forall|i: int| name.len() <= i < f.len() implies #[trigger] f[i] == 32 by {
            if i < front.len() {
                assert(front[i] == f[i]);
            }
        }
    }
}

/// The names of GNU archives: one that ends in a slash makes the archive one of
/// them, a table of names must be there in full, and a name in the table must lie
/// within it.
pub proof fn law_gnu_names(data: Seq<u8>, p: Place, size: nat)
    requires
        0 <= p.pos,
        p.pos + 60 <= data.len(),
        p.flavor != Flavor::Bsd,
        field_value(data.subrange(p.pos + 48, p.pos + 58)) == Some(size),
        header_name(data, p.pos).len() > 0,
    ensures
        ({
            let name = header_name(data, p.pos);
            let next = next_place(data, p);
            let index = field_value(data.subrange(p.pos + 1, p.pos + 16));
            &&& name.last() == 47 && name[0] != 47 ==> next is Some && next->0.flavor
                == Flavor::Gnu && next->0.table == p.table
            &&& name.len() == 1 && name[0] == 47 ==> next is Some && next->0.flavor == Flavor::Gnu
            &&& name == seq![47u8, 47] ==> (next is Some <==> p.pos + 60 + size <= data.len())
            &&& name == seq![47u8, 47] && next is Some ==> next->0.table == size
            &&& name.len() >= 2 && name[0] == 47 && name != seq![47u8, 47] ==> (next is Some
                <==> index is Some && index->0 <= p.table)
        }),
{
    let name = header_name(data, p.pos);
    if name.len() == 2 && name[0] == 47 && name[1] == 47 {
        assert(name =~= seq![47u8, 47]);
    }
    if name == seq![47u8, 47] {
        assert(name[0] == 47 && name[1] == 47);
    }
}

/// A long name of a BSD archive stands before the contents, and must be there in
/// full.
pub proof fn law_bsd_names(data: Seq<u8>, p: Place, size: nat, len: nat)
    requires
        0 <= p.pos,
        p.pos + 60 <= data.len(),
        p.flavor != Flavor::Gnu,
        field_value(data.subrange(p.pos + 48, p.pos + 58)) == Some(size),
        field_value(data.subrange(p.pos + 3, p.pos + 16)) == Some(len),
        is_bsd_name(header_name(data, p.pos)),
        header_name(data, p.pos).last() != 47,
    ensures
        ({
            let next = next_place(data, p);
            &&& next is Some <==> len <= size && p.pos + 60 + len <= data.len()
            &&& next is Some ==> next->0.flavor == Flavor::Bsd && next->0.pos >= p.pos + 60 + size
                && next->0.pos <= p.pos + 60 + size + 1
        }),
{
}

/// An archive is cut at its first header that cannot be read, and nowhere else.
pub proof fn law_cut_at_the_first_odd_header(data: Seq<u8>, p: Place)
    requires
        0 <= p.pos <= data.len(),
    ensures
        p.pos + 60 > data.len() ==> readable_end(data, p) == data.len(),
        p.pos + 60 <= data.len() && next_place(data, p) is None ==> readable_end(data, p) == p.pos,
        p.pos + 60 <= data.len() ==> (next_place(data, p) matches Some(q) ==> readable_end(data, p)
            == if q.pos <= data.len() {
            readable_end(data, q)
        } else {
            data.len() as int
        }),
        readable_from(data, p) <==> readable_end(data, p) == data.len(),
    decreases data.len() - p.pos,
{
    if p.pos + 60 <= data.len() {
        match next_place(data, p) {
            Some(q) => {
                if q.pos <= data.len() {
                    law_cut_at_the_first_odd_header(data, q);
                }
            },
            None => {},
        }
    }
}

/// The size that an extended header gives is that of its first record for it, if
/// the records before it can be read.
pub proof fn law_size_in_an_extended_header(
    records: Seq<Option<(Seq<u8>, Seq<u8>)>>,
    i: int,
    k: int,
)
    requires
        0 <= i <= k <= records.len(),
        forall|j: int|
            i <= j < k ==> (#[trigger] records[j]) is Some && member_name(records[j]) != seq![
                115u8,
                105,
                122,
                101,
            ],
    ensures
        k == records.len() ==> pax_size(records, i) is None,
        k < records.len() && records[k] is None ==> pax_size(records, i) is None,
        k < records.len() && records[k] is Some && member_name(records[k]) == seq![
            115u8,
            105,
            122,
            101,
        ] && valid_utf8(member_bytes(records[k])) ==> pax_size(records, i) == number_of(
            decode_utf8(member_bytes(records[k])),
        ),
    decreases k - i,
{
    if i < k {
        assert(records[i] is Some);
        law_size_in_an_extended_header(records, i + 1, k);
    }
}

/// A tar archive ends at an empty block, and where no whole header is left.
pub proof fn law_end_of_a_tar_archive(data: Seq<u8>, p: int, pending: Option<Seq<u8>>)
    requires
        0 <= p <= data.len(),
        p + 512 > data.len() || forall|i: int| p <= i < p + 512 ==> #[trigger] data[i] == 0,
    ensures
        tar_step(data, p, pending) is End,
        tar_end(data, p, pending) == data.len(),
{
}

/// Where more bytes may come, an error does not decide yet; where all bytes are
/// there, it does. Without a control file there is none, either way.
pub proof fn law_errors_decide_at_the_end(plain: Seq<u8>)
    requires
        readable_tar(plain),
    ensures
        control_place(tar_members_of(plain), 0) is Malformed ==> control_within(plain, true)
            == Some(ControlText::Malformed),
        control_place(tar_members_of(plain), 0) is Absent ==> control_within(plain, true) == Some(
            ControlText::Absent,
        ),
        plain.len() % 512 != 0 && control_place(tar_members_of(plain), 0) is Malformed
            ==> control_within(plain, false) is None,
        plain.len() % 512 == 0 && control_place(tar_members_of(plain.push(0)), 0) is Malformed
            ==> control_within(plain, false) is None,
        plain.len() % 512 == 0 && control_place(tar_members_of(plain.push(0)), 0) is Absent
            ==> control_within(plain, false) == Some(ControlText::Absent),
{
    assert(plain.take(plain.len() as int) =~= plain);
}

/// A member that cannot be read, or whose name is no text, makes the archive
/// malformed if no control archive comes before it.
pub proof fn law_odd_member(data: &[u8], r: Result<String, NalaError>, i: int)
    requires
        call_ensures(read_archive, (data,), r),
        readable_end(data@, archive_start()) == data@.len(),
        0 <= i < ar_members_of(data@).len(),
        forall|j: int| 0 <= j < i ==> is_passed_over(#[trigger] ar_members_of(data@)[j]),
        ar_members_of(data@)[i] is None || !valid_utf8(member_name(ar_members_of(data@)[i])),
    ensures
        r is Err,
        r->Err_0.message@ == "The archive is malformed"@,
{
    let members = ar_members_of(data@);
    assert(data@.take(data@.len() as int) =~= data@);
    let found = controls_in(members);
    assert forall|j: int| 0 <= j < i implies (#[trigger] found[j]) is Absent by {
        assert(is_passed_over(members[j]));
    }
    assert(found[i] == member_control(members[i]));
    lemma_first_found(found, i);
}

} // verus!

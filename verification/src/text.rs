//! Text as sequences of characters: searching, splitting, joining and
//! printing numbers. Every function here is stated over the view of a string,
//! a `Seq<char>`.
use vstd::prelude::*;

verus! {

/// A character has Unicode's `White_Space` property.
pub open spec fn white_space(c: char) -> bool {
    ||| '\u{9}' <= c <= '\u{d}'
    ||| c == ' '
    ||| c == '\u{85}'
    ||| c == '\u{a0}'
    ||| c == '\u{1680}'
    ||| '\u{2000}' <= c <= '\u{200a}'
    ||| c == '\u{2028}'
    ||| c == '\u{2029}'
    ||| c == '\u{202f}'
    ||| c == '\u{205f}'
    ||| c == '\u{3000}'
}

/// The lower-case form of a text, as `str::to_lowercase` computes it.
pub uninterp spec fn lowercase(s: Seq<char>) -> Seq<char>;

/// The upper-case form of a text, as `str::to_uppercase` computes it.
pub uninterp spec fn uppercase(s: Seq<char>) -> Seq<char>;

/// Whether a character has Unicode's `White_Space` property.
pub fn is_white(c: char) -> (r: bool)
    ensures
        r == white_space(c),
{
    ('\u{9}' <= c && c <= '\u{d}') || c == ' ' || c == '\u{85}' || c == '\u{a0}' || c == '\u{1680}'
        || ('\u{2000}' <= c && c <= '\u{200a}') || c == '\u{2028}' || c == '\u{2029}' || c
        == '\u{202f}' || c == '\u{205f}' || c == '\u{3000}'
}

/// `str::to_lowercase` of std: its result depends on the text alone.
#[verifier::external_body]
pub(crate) fn to_lower(s: &str) -> (r: String)
    ensures
        r@ == lowercase(s@),
{
    s.to_lowercase()
}

/// `str::to_uppercase` of std: its result depends on the text alone.
#[verifier::external_body]
pub(crate) fn to_upper(s: &str) -> (r: String)
    ensures
        r@ == uppercase(s@),
{
    s.to_uppercase()
}

/// `String::push` of std: appends one character.
pub assume_specification[ std::string::String::push ](s: &mut std::string::String, c: char)
    ensures
        final(s)@ == old(s)@.push(c),
;

/// The texts of a sequence of strings.
pub open spec fn texts(v: Seq<String>) -> Seq<Seq<char>> {
    Seq::new(v.len(), |i: int| v[i]@)
}

/// The text of an optional string.
pub open spec fn text_opt(o: Option<String>) -> Option<Seq<char>> {
    match o {
        Some(s) => Some(s@),
        None => None,
    }
}

/// `pat` stands in `s` at position `i`.
pub open spec fn occurs_at(s: Seq<char>, pat: Seq<char>, i: int) -> bool {
    0 <= i && i + pat.len() <= s.len() && s.subrange(i, i + pat.len()) == pat
}

/// `pat` stands somewhere in `s`.
pub open spec fn has_text(s: Seq<char>, pat: Seq<char>) -> bool {
    exists|i: int| occurs_at(s, pat, i)
}

/// `pat` stands in `s` at `i` and at no earlier position.
pub open spec fn first_at(s: Seq<char>, pat: Seq<char>, i: int) -> bool {
    occurs_at(s, pat, i) && forall|j: int| 0 <= j < i ==> !occurs_at(s, pat, j)
}

/// The first position at which `pat` stands in `s`.
pub open spec fn find_text(s: Seq<char>, pat: Seq<char>) -> Option<int> {
    if exists|i: int| first_at(s, pat, i) {
        Some(choose|i: int| first_at(s, pat, i))
    } else {
        None
    }
}

/// `s` begins with `pat`.
pub open spec fn has_prefix(s: Seq<char>, pat: Seq<char>) -> bool {
    occurs_at(s, pat, 0)
}

/// `s` ends with `pat`.
pub open spec fn has_suffix(s: Seq<char>, pat: Seq<char>) -> bool {
    occurs_at(s, pat, s.len() - pat.len())
}

/// The pieces of `s` between the places where `sep` stands, read from left to
/// right without overlap.
pub open spec fn split_on(s: Seq<char>, sep: Seq<char>) -> Seq<Seq<char>>
    decreases s.len(),
{
    match find_text(s, sep) {
        Some(i) => if sep.len() > 0 && 0 <= i && i + sep.len() <= s.len() {
            seq![s.take(i)] + split_on(s.skip(i + sep.len()), sep)
        } else {
            seq![s]
        },
        None => seq![s],
    }
}

/// The pieces of `s` that `sep` ends: those of `split_on`, without a last one
/// that is empty.
pub open spec fn split_ended(s: Seq<char>, sep: Seq<char>) -> Seq<Seq<char>> {
    let pieces = split_on(s, sep);
    if pieces.last().len() == 0 {
        pieces.drop_last()
    } else {
        pieces
    }
}

/// The texts of `parts`, one after the other, with `sep` between each two.
pub open spec fn joined(parts: Seq<Seq<char>>, sep: Seq<char>) -> Seq<char>
    decreases parts.len(),
{
    if parts.len() == 0 {
        Seq::empty()
    } else if parts.len() == 1 {
        parts[0]
    } else {
        joined(parts.drop_last(), sep) + sep + parts.last()
    }
}

/// `s` with each `from` replaced by `to`.
pub open spec fn replaced(s: Seq<char>, from: Seq<char>, to: Seq<char>) -> Seq<char> {
    joined(split_on(s, from), to)
}

/// `s` with the first `from` replaced by `to`.
pub open spec fn replaced_first(s: Seq<char>, from: Seq<char>, to: Seq<char>) -> Seq<char> {
    match find_text(s, from) {
        Some(i) => s.take(i) + to + s.skip(i + from.len()),
        None => s,
    }
}

/// The line without a carriage return at its end.
pub open spec fn without_cr(s: Seq<char>) -> Seq<char> {
    if s.len() > 0 && s.last() == '\r' {
        s.drop_last()
    } else {
        s
    }
}

/// The lines of a text. A line ends at `\n` or `\r\n`; the last line may lack
/// its end.
pub open spec fn lines_of(s: Seq<char>) -> Seq<Seq<char>>
    decreases s.len(),
{
    if s.len() == 0 {
        Seq::empty()
    } else {
        match find_text(s, seq!['\n']) {
            Some(i) => if 0 <= i < s.len() {
                seq![without_cr(s.take(i))] + lines_of(s.skip(i + 1))
            } else {
                seq![s]
            },
            None => seq![s],
        }
    }
}

/// How many characters stand before the first white space.
pub open spec fn word_len(s: Seq<char>) -> int
    decreases s.len(),
{
    if s.len() == 0 || white_space(s[0]) {
        0
    } else {
        1 + word_len(s.skip(1))
    }
}

/// The longest runs of characters that are not white space.
pub open spec fn words_of(s: Seq<char>) -> Seq<Seq<char>>
    decreases s.len(),
{
    if s.len() == 0 {
        Seq::empty()
    } else if white_space(s[0]) {
        words_of(s.skip(1))
    } else if 0 < word_len(s) <= s.len() {
        seq![s.take(word_len(s))] + words_of(s.skip(word_len(s)))
    } else {
        Seq::empty()
    }
}

/// `s` without the white space at its end.
pub open spec fn trimmed_end(s: Seq<char>) -> Seq<char>
    decreases s.len(),
{
    if s.len() > 0 && white_space(s.last()) {
        trimmed_end(s.drop_last())
    } else {
        s
    }
}

/// `s` without the white space at its start.
pub open spec fn trimmed_start(s: Seq<char>) -> Seq<char>
    decreases s.len(),
{
    if s.len() > 0 && white_space(s[0]) {
        trimmed_start(s.skip(1))
    } else {
        s
    }
}

/// The order of strings: character by character, a prefix before what it
/// begins.
pub open spec fn text_le(a: Seq<char>, b: Seq<char>) -> bool
    decreases a.len(),
{
    if a.len() == 0 {
        true
    } else if b.len() == 0 {
        false
    } else if a[0] != b[0] {
        a[0] < b[0]
    } else {
        text_le(a.skip(1), b.skip(1))
    }
}

/// The character of a digit below sixteen.
pub open spec fn digit_char(d: int) -> char {
    if d < 10 {
        (48 + d) as char
    } else {
        (87 + d) as char
    }
}

/// A number in decimal, without leading zeros.
pub open spec fn decimal(n: nat) -> Seq<char>
    decreases n,
{
    if n < 10 {
        seq![digit_char(n as int)]
    } else {
        decimal(n / 10).push(digit_char((n % 10) as int))
    }
}

/// Bytes in lower-case hexadecimal, two digits for each.
pub open spec fn hex_of(bytes: Seq<u8>) -> Seq<char>
    decreases bytes.len(),
{
    if bytes.len() == 0 {
        Seq::empty()
    } else {
        hex_of(bytes.drop_last()).push(digit_char((bytes.last() / 16) as int)).push(
            digit_char((bytes.last() % 16) as int),
        )
    }
}

/// The path of `name` inside `dir`: an absolute `name` stands for itself, and
/// a slash is put between the two unless `dir` is empty or ends with one.
pub open spec fn path_in(dir: Seq<char>, name: Seq<char>) -> Seq<char> {
    if name.len() > 0 && name[0] == '/' {
        name
    } else if dir.len() == 0 || dir.last() == '/' {
        dir + name
    } else {
        dir.push('/') + name
    }
}

/// A position is the first of at most one text.
pub proof fn lemma_first_at_unique(s: Seq<char>, pat: Seq<char>, i: int, j: int)
    requires
        first_at(s, pat, i),
        first_at(s, pat, j),
    ensures
        i == j,
{
    if i < j {
        assert(occurs_at(s, pat, i));
    } else if j < i {
        assert(occurs_at(s, pat, j));
    }
}

/// A position that is the first one is the one that `find_text` gives.
pub proof fn lemma_find_text(s: Seq<char>, pat: Seq<char>, i: int)
    requires
        first_at(s, pat, i),
    ensures
        find_text(s, pat) == Some(i),
{
    let c = choose|k: int| first_at(s, pat, k);
    lemma_first_at_unique(s, pat, i, c);
}

proof fn lemma_first_exists(s: Seq<char>, pat: Seq<char>, k: int)
    requires
        occurs_at(s, pat, k),
    ensures
        exists|i: int| first_at(s, pat, i),
    decreases k,
{
    if exists|j: int| 0 <= j < k && occurs_at(s, pat, j) {
        let j = choose|j: int| 0 <= j < k && occurs_at(s, pat, j);
        lemma_first_exists(s, pat, j);
    } else {
        assert(first_at(s, pat, k));
    }
}

/// What is found is the first place, and nothing is found only where there is
/// none.
pub proof fn lemma_found(s: Seq<char>, pat: Seq<char>)
    ensures
        match find_text(s, pat) {
            Some(i) => first_at(s, pat, i),
            None => forall|k: int| !#[trigger] occurs_at(s, pat, k),
        },
{
    if find_text(s, pat) is None {
        assert forall|k: int| !#[trigger] occurs_at(s, pat, k) by {
            if occurs_at(s, pat, k) {
                lemma_first_exists(s, pat, k);
            }
        }
    }
}

proof fn lemma_occurs_skip(s: Seq<char>, pat: Seq<char>, k: int, i: int)
    requires
        0 <= k <= s.len(),
        0 <= i,
    ensures
        occurs_at(s.skip(k), pat, i) == occurs_at(s, pat, i + k),
{
    if i + k + pat.len() <= s.len() {
        assert(s.skip(k).subrange(i, i + pat.len()) =~= s.subrange(i + k, i + k + pat.len()));
    }
}

/// The characters of a string.
pub fn chars_of(s: &str) -> (r: Vec<char>)
    ensures
        r@ == s@,
{
    let mut r: Vec<char> = Vec::new();
    for c in it: s.chars()
        invariant
            it.seq() == s@,
            r@ == s@.take(it.index() as int),
    {
        r.push(c);
        assert(s@.take(it.index() as int).push(c) =~= s@.take(it.index() + 1));
    }
    assert(s@.take(s@.len() as int) =~= s@);
    r
}

/// Puts a string at the end of a list.
pub fn push_text(v: &mut Vec<String>, s: String)
    ensures
        final(v)@ == old(v)@.push(s),
        texts(final(v)@) == texts(old(v)@).push(s@),
{
    v.push(s);
    assert(texts(v@) =~= texts(old(v)@).push(s@));
}

/// The text of an optional string, or the default.
pub open spec fn text_or_else(o: Option<String>, default: Seq<char>) -> Seq<char> {
    match o {
        Some(s) => s@,
        None => default,
    }
}

/// The optional string, or the default.
pub fn str_or<'a>(o: &'a Option<String>, default: &'a str) -> (r: &'a str)
    ensures
        r@ == text_or_else(*o, default@),
{
    match o {
        Some(s) => s.as_str(),
        None => default,
    }
}

/// The string of the characters from `from` up to `to`.
pub fn text_of(v: &Vec<char>, from: usize, to: usize) -> (r: String)
    requires
        from <= to <= v@.len(),
    ensures
        r@ == v@.subrange(from as int, to as int),
{
    let mut r = String::new();
    let mut i: usize = from;
    while i < to
        invariant
            from <= i <= to <= v@.len(),
            r@ == v@.subrange(from as int, i as int),
        decreases to - i,
    {
        r.push(v[i]);
        assert(v@.subrange(from as int, i as int).push(v@[i as int]) =~= v@.subrange(
            from as int,
            i + 1,
        ));
        i = i + 1;
    }
    r
}

/// Whether two vectors hold the same characters.
fn same_chars(a: &Vec<char>, b: &Vec<char>) -> (r: bool)
    ensures
        r == (a@ == b@),
{
    if a.len() != b.len() {
        return false;
    }
    let mut i: usize = 0;
    while i < a.len()
        invariant
            i <= a@.len(),
            a@.len() == b@.len(),
            forall|j: int| 0 <= j < i ==> a@[j] == b@[j],
        decreases a@.len() - i,
    {
        if a[i] != b[i] {
            return false;
        }
        i = i + 1;
    }
    assert(a@ =~= b@);
    true
}

/// Whether two strings hold the same text.
pub fn str_eq(a: &str, b: &str) -> (r: bool)
    ensures
        r == (a@ == b@),
{
    same_chars(&chars_of(a), &chars_of(b))
}

/// Whether `pat` stands in `s` at `at`.
fn matches_at(s: &Vec<char>, pat: &Vec<char>, at: usize) -> (r: bool)
    ensures
        r == occurs_at(s@, pat@, at as int),
{
    if at > s.len() || pat.len() > s.len() - at {
        return false;
    }
    let n: usize = s.len();
    let mut k: usize = 0;
    while k < pat.len()
        invariant
            k <= pat@.len(),
            n == s@.len(),
            at + pat@.len() <= n,
            forall|j: int| 0 <= j < k ==> s@[at + j] == pat@[j],
        decreases pat@.len() - k,
    {
        if s[at + k] != pat[k] {
            proof {
                let sub = s@.subrange(at as int, at + pat@.len());
                assert(sub[k as int] == s@[at + k]);
            }
            return false;
        }
        k = k + 1;
    }
    assert(s@.subrange(at as int, at + pat@.len()) =~= pat@);
    true
}

/// The first position from `from` on at which `pat` stands.
fn find_from(s: &Vec<char>, pat: &Vec<char>, from: usize) -> (r: Option<usize>)
    requires
        from <= s@.len(),
    ensures
        match r {
            Some(i) => from <= i && occurs_at(s@, pat@, i as int) && find_text(
                s@.skip(from as int),
                pat@,
            ) == Some(i - from),
            None => find_text(s@.skip(from as int), pat@) is None && forall|i: int|
                from <= i ==> !occurs_at(s@, pat@, i),
        },
{
    let ghost rest = s@.skip(from as int);
    let mut i: usize = from;
    loop
        invariant
            from <= i <= s@.len(),
            rest == s@.skip(from as int),
            from <= s@.len(),
            forall|j: int| from <= j < i ==> !occurs_at(s@, pat@, j),
        decreases s@.len() - i,
    {
        if matches_at(s, pat, i) {
            proof {
                lemma_occurs_skip(s@, pat@, from as int, i - from);
                assert forall|j: int| 0 <= j < i - from implies !occurs_at(rest, pat@, j) by {
                    lemma_occurs_skip(s@, pat@, from as int, j);
                }
                lemma_find_text(rest, pat@, i - from);
            }
            return Some(i);
        }
        if i == s.len() {
            proof {
                assert forall|j: int| from <= j implies !occurs_at(s@, pat@, j) by {}
                assert forall|j: int| !first_at(rest, pat@, j) by {
                    if occurs_at(rest, pat@, j) {
                        lemma_occurs_skip(s@, pat@, from as int, j);
                    }
                }
            }
            return None;
        }
        i = i + 1;
    }
}

/// The first position at which `pat` stands in `s`, in characters.
pub fn find(s: &str, pat: &str) -> (r: Option<usize>)
    ensures
        match r {
            Some(i) => find_text(s@, pat@) == Some(i as int) && first_at(s@, pat@, i as int),
            None => find_text(s@, pat@) is None && !has_text(s@, pat@),
        },
{
    let chars = chars_of(s);
    let p = chars_of(pat);
    assert(s@.skip(0) =~= s@);
    let r = find_from(&chars, &p, 0);
    proof {
        match r {
            Some(i) => {
                assert(exists|k: int| first_at(s@, pat@, k));
            },
            None => {},
        }
    }
    r
}

/// Whether `pat` stands somewhere in `s`.
pub fn contains(s: &str, pat: &str) -> (r: bool)
    ensures
        r == has_text(s@, pat@),
{
    match find(s, pat) {
        Some(i) => {
            assert(occurs_at(s@, pat@, i as int));
            true
        },
        None => false,
    }
}

/// Whether `s` begins with `pat`.
pub fn starts_with(s: &str, pat: &str) -> (r: bool)
    ensures
        r == has_prefix(s@, pat@),
{
    matches_at(&chars_of(s), &chars_of(pat), 0)
}

/// Whether `s` ends with `pat`.
pub fn ends_with(s: &str, pat: &str) -> (r: bool)
    ensures
        r == has_suffix(s@, pat@),
{
    let chars = chars_of(s);
    let p = chars_of(pat);
    if p.len() > chars.len() {
        return false;
    }
    matches_at(&chars, &p, chars.len() - p.len())
}

/// What follows `pat` at the start of `s`.
pub fn strip_prefix(s: &str, pat: &str) -> (r: Option<String>)
    ensures
        text_opt(r) == if has_prefix(s@, pat@) {
            Some(s@.skip(pat@.len() as int))
        } else {
            None
        },
{
    let chars = chars_of(s);
    let p = chars_of(pat);
    if matches_at(&chars, &p, 0) {
        Some(text_of(&chars, p.len(), chars.len()))
    } else {
        None
    }
}

/// What precedes `pat` at the end of `s`.
pub fn strip_suffix(s: &str, pat: &str) -> (r: Option<String>)
    ensures
        text_opt(r) == if has_suffix(s@, pat@) {
            Some(s@.take(s@.len() - pat@.len()))
        } else {
            None
        },
{
    let chars = chars_of(s);
    let p = chars_of(pat);
    if p.len() <= chars.len() && matches_at(&chars, &p, chars.len() - p.len()) {
        Some(text_of(&chars, 0, chars.len() - p.len()))
    } else {
        None
    }
}

/// What stands before and after the first `sep`.
pub fn split_once(s: &str, sep: &str) -> (r: Option<(String, String)>)
    ensures
        match r {
            Some((a, b)) => has_text(s@, sep@) && first_at(s@, sep@, a@.len() as int) && s@ == a@
                + sep@ + b@,
            None => !has_text(s@, sep@),
        },
{
    let chars = chars_of(s);
    let n = find(s, sep);
    match n {
        Some(i) => {
            let p = chars_of(sep);
            let n: usize = chars.len();
            let a = text_of(&chars, 0, i);
            let b = text_of(&chars, i + p.len(), n);
            assert(occurs_at(s@, sep@, i as int));
            assert(s@ =~= s@.subrange(0, i as int) + s@.subrange(i as int, i + sep@.len())
                + s@.subrange(i + sep@.len(), s@.len() as int));
            Some((a, b))
        },
        None => None,
    }
}

/// The pieces of `s` between the places where `sep` stands.
pub fn split(s: &str, sep: &str) -> (r: Vec<String>)
    ensures
        texts(r@) == split_on(s@, sep@),
        r@.len() > 0,
{
    let chars = chars_of(s);
    let p = chars_of(sep);
    let mut r: Vec<String> = Vec::new();
    let mut start: usize = 0;
    assert(s@.skip(0) =~= s@);
    assert(texts(r@) + split_on(s@, sep@) =~= split_on(s@, sep@));
    if p.len() == 0 {
        r.push(text_of(&chars, 0, chars.len()));
        assert(s@.subrange(0, s@.len() as int) =~= s@);
        assert(texts(r@) =~= seq![s@]);
        return r;
    }
    let n: usize = chars.len();
    loop
        invariant
            start <= chars@.len(),
            n == chars@.len(),
            chars@ == s@,
            p@ == sep@,
            p@.len() > 0,
            texts(r@) + split_on(s@.skip(start as int), sep@) == split_on(s@, sep@),
        decreases chars@.len() - start,
    {
        let ghost rest = s@.skip(start as int);
        match find_from(&chars, &p, start) {
            Some(i) => {
                let ghost before = texts(r@);
                let piece = text_of(&chars, start, i);
                assert(piece@ =~= rest.take(i - start));
                r.push(piece);
                assert(texts(r@) =~= before.push(piece@));
                assert(rest.skip(i - start + sep@.len()) =~= s@.skip(i + sep@.len()));
                assert(split_on(rest, sep@) == seq![piece@] + split_on(
                    s@.skip(i + sep@.len()),
                    sep@,
                ));
                assert(before + (seq![piece@] + split_on(s@.skip(i + sep@.len()), sep@)) =~= texts(
                    r@,
                ) + split_on(s@.skip(i + sep@.len()), sep@));
                start = i + p.len();
            },
            None => {
                let ghost before = texts(r@);
                let piece = text_of(&chars, start, chars.len());
                assert(piece@ =~= rest);
                r.push(piece);
                assert(texts(r@) =~= before + seq![rest]);
                return r;
            },
        }
    }
}

/// The pieces of `s` that `sep` ends.
pub fn split_terminator(s: &str, sep: &str) -> (r: Vec<String>)
    ensures
        texts(r@) == split_ended(s@, sep@),
{
    let mut r = split(s, sep);
    let ghost all = texts(r@);
    if r[r.len() - 1].as_str().is_empty() {
        let ghost before = r@;
        let _last = r.pop();
        assert(texts(r@) =~= all.drop_last());
    }
    r
}

/// The texts one after the other, with `sep` between each two.
pub fn join(parts: &Vec<String>, sep: &str) -> (r: String)
    ensures
        r@ == joined(texts(parts@), sep@),
{
    let mut r = String::new();
    let mut i: usize = 0;
    let ghost all = texts(parts@);
    assert(all.take(0) =~= Seq::empty());
    while i < parts.len()
        invariant
            i <= parts@.len(),
            all == texts(parts@),
            r@ == joined(all.take(i as int), sep@),
        decreases parts@.len() - i,
    {
        if i > 0 {
            r.append(sep);
        }
        r.append(parts[i].as_str());
        proof {
            let next = all.take(i + 1);
            assert(next.drop_last() =~= all.take(i as int));
            assert(next.last() == parts@[i as int]@);
            if i == 0 {
                assert(r@ =~= parts@[0]@);
            }
        }
        i = i + 1;
    }
    assert(all.take(parts@.len() as int) =~= all);
    r
}

/// `s` with each `from` replaced by `to`.
pub fn replace(s: &str, from: &str, to: &str) -> (r: String)
    ensures
        r@ == replaced(s@, from@, to@),
{
    join(&split(s, from), to)
}

/// `s` with the first `from` replaced by `to`.
pub fn replace_first(s: &str, from: &str, to: &str) -> (r: String)
    ensures
        r@ == replaced_first(s@, from@, to@),
{
    match find(s, from) {
        Some(i) => {
            let chars = chars_of(s);
            let p = chars_of(from);
            let n: usize = chars.len();
            let mut r = text_of(&chars, 0, i);
            r.append(to);
            let tail = text_of(&chars, i + p.len(), n);
            r.append(tail.as_str());
            assert(r@ =~= s@.take(i as int) + to@ + s@.skip(i + from@.len()));
            r
        },
        None => s.to_owned(),
    }
}

/// The lines of a text.
pub fn lines(s: &str) -> (r: Vec<String>)
    ensures
        texts(r@) == lines_of(s@),
{
    let chars = chars_of(s);
    let mut newline: Vec<char> = Vec::new();
    newline.push('\n');
    assert(newline@ =~= seq!['\n']);
    let mut r: Vec<String> = Vec::new();
    let mut start: usize = 0;
    assert(s@.skip(0) =~= s@);
    assert(texts(r@) + lines_of(s@) =~= lines_of(s@));
    while start < chars.len()
        invariant
            start <= chars@.len(),
            chars@ == s@,
            newline@ == seq!['\n'],
            texts(r@) + lines_of(s@.skip(start as int)) == lines_of(s@),
        decreases chars@.len() - start,
    {
        let ghost rest = s@.skip(start as int);
        let ghost before = texts(r@);
        match find_from(&chars, &newline, start) {
            Some(i) => {
                let end: usize = if i > start && chars[i - 1] == '\r' {
                    i - 1
                } else {
                    i
                };
                let line = text_of(&chars, start, end);
                assert(line@ =~= without_cr(rest.take(i - start)));
                r.push(line);
                assert(texts(r@) =~= before.push(line@));
                assert(rest.skip(i - start + 1) =~= s@.skip(i + 1));
                assert(lines_of(rest) == seq![line@] + lines_of(s@.skip(i + 1)));
                assert(before + (seq![line@] + lines_of(s@.skip(i + 1))) =~= texts(r@) + lines_of(
                    s@.skip(i + 1),
                ));
                start = i + 1;
            },
            None => {
                let line = text_of(&chars, start, chars.len());
                assert(line@ =~= rest);
                r.push(line);
                assert(texts(r@) =~= before + seq![rest]);
                return r;
            },
        }
    }
    assert(s@.skip(start as int) =~= Seq::empty());
    assert(texts(r@) + lines_of(s@.skip(start as int)) =~= texts(r@));
    r
}

proof fn lemma_word_len(s: Seq<char>, n: int)
    requires
        0 <= n <= s.len(),
        forall|j: int| 0 <= j < n ==> !white_space(s[j]),
        n == s.len() || white_space(s[n]),
    ensures
        word_len(s) == n,
    decreases n,
{
    if n > 0 {
        assert forall|j: int| 0 <= j < n - 1 implies !white_space(s.skip(1)[j]) by {
            assert(s.skip(1)[j] == s[j + 1]);
        }
        lemma_word_len(s.skip(1), n - 1);
    }
}

/// The longest runs of characters that are not white space.
pub fn split_whitespace(s: &str) -> (r: Vec<String>)
    ensures
        texts(r@) == words_of(s@),
{
    let chars = chars_of(s);
    let mut r: Vec<String> = Vec::new();
    let mut start: usize = 0;
    assert(s@.skip(0) =~= s@);
    assert(texts(r@) + words_of(s@) =~= words_of(s@));
    while start < chars.len()
        invariant
            start <= chars@.len(),
            chars@ == s@,
            texts(r@) + words_of(s@.skip(start as int)) == words_of(s@),
        decreases chars@.len() - start,
    {
        let ghost rest = s@.skip(start as int);
        if is_white(chars[start]) {
            assert(rest.skip(1) =~= s@.skip(start + 1));
            start = start + 1;
            continue;
        }
        let mut end: usize = start + 1;
        while end < chars.len() && !is_white(chars[end])
            invariant
                start < end <= chars@.len(),
                forall|j: int| start <= j < end ==> !white_space(chars@[j]),
            decreases chars@.len() - end,
        {
            end = end + 1;
        }
        let ghost before = texts(r@);
        let word = text_of(&chars, start, end);
        proof {
            assert forall|j: int| 0 <= j < end - start implies !white_space(rest[j]) by {
                assert(rest[j] == s@[start + j]);
            }
            lemma_word_len(rest, end - start);
            assert(word@ =~= rest.take(end - start));
            assert(rest.skip(end - start) =~= s@.skip(end as int));
        }
        r.push(word);
        assert(texts(r@) =~= before.push(word@));
        assert(before + (seq![word@] + words_of(s@.skip(end as int))) =~= texts(r@) + words_of(
            s@.skip(end as int),
        ));
        start = end;
    }
    assert(s@.skip(start as int) =~= Seq::empty());
    assert(texts(r@) + words_of(s@.skip(start as int)) =~= texts(r@));
    r
}

/// `s` without the white space at its end.
pub fn trim_end(s: &str) -> (r: String)
    ensures
        r@ == trimmed_end(s@),
{
    let chars = chars_of(s);
    let mut end: usize = chars.len();
    assert(s@.take(s@.len() as int) =~= s@);
    while end > 0 && is_white(chars[end - 1])
        invariant
            end <= chars@.len(),
            chars@ == s@,
            trimmed_end(s@.take(end as int)) == trimmed_end(s@),
        decreases end,
    {
        assert(s@.take(end as int).drop_last() =~= s@.take(end - 1));
        end = end - 1;
    }
    let r = text_of(&chars, 0, end);
    assert(r@ =~= s@.take(end as int));
    r
}

/// `s` without the white space at its start and its end.
pub fn trim(s: &str) -> (r: String)
    ensures
        r@ == trimmed_start(trimmed_end(s@)),
{
    let t = trim_end(s);
    let chars = chars_of(t.as_str());
    let mut start: usize = 0;
    assert(t@.skip(0) =~= t@);
    while start < chars.len() && is_white(chars[start])
        invariant
            start <= chars@.len(),
            chars@ == t@,
            trimmed_start(t@.skip(start as int)) == trimmed_start(t@),
        decreases chars@.len() - start,
    {
        assert(t@.skip(start as int).skip(1) =~= t@.skip(start + 1));
        start = start + 1;
    }
    let r = text_of(&chars, start, chars.len());
    assert(r@ =~= t@.skip(start as int));
    r
}

/// Whether `a` comes before `b` or equals it.
pub fn str_le(a: &str, b: &str) -> (r: bool)
    ensures
        r == text_le(a@, b@),
{
    let x = chars_of(a);
    let y = chars_of(b);
    let mut i: usize = 0;
    assert(a@.skip(0) =~= a@ && b@.skip(0) =~= b@);
    while i < x.len() && i < y.len() && x[i] == y[i]
        invariant
            i <= x@.len(),
            i <= y@.len(),
            x@ == a@,
            y@ == b@,
            text_le(a@.skip(i as int), b@.skip(i as int)) == text_le(a@, b@),
        decreases x@.len() - i,
    {
        assert(a@.skip(i as int).skip(1) =~= a@.skip(i + 1));
        assert(b@.skip(i as int).skip(1) =~= b@.skip(i + 1));
        i = i + 1;
    }
    if i == x.len() {
        true
    } else if i == y.len() {
        false
    } else {
        x[i] < y[i]
    }
}

fn digit(d: u8) -> (c: char)
    requires
        d < 16,
    ensures
        c == digit_char(d as int),
{
    if d < 10 {
        (48 + d) as char
    } else {
        (87 + d) as char
    }
}

/// A number in decimal.
pub fn decimal_of(n: u128) -> (r: String)
    ensures
        r@ == decimal(n as nat),
    decreases n,
{
    if n < 10 {
        let mut r = String::new();
        r.push(digit(n as u8));
        assert(r@ =~= decimal(n as nat));
        r
    } else {
        let mut r = decimal_of(n / 10);
        r.push(digit((n % 10) as u8));
        r
    }
}

/// A number in decimal, with its sign where it is negative.
pub open spec fn signed_decimal(n: int) -> Seq<char> {
    if n < 0 {
        seq!['-'] + decimal((-n) as nat)
    } else {
        decimal(n as nat)
    }
}

/// A number in decimal, with its sign where it is negative.
pub fn decimal_i32(n: i32) -> (r: String)
    ensures
        r@ == signed_decimal(n as int),
{
    if n < 0 {
        let mut r = String::new();
        r.push('-');
        r.append(decimal_of((-(n as i64)) as u128).as_str());
        assert(r@ =~= seq!['-'] + decimal((-n) as nat));
        r
    } else {
        decimal_of(n as u128)
    }
}

/// The length of a hexadecimal text is twice that of its bytes.
pub proof fn lemma_hex_len(bytes: Seq<u8>)
    ensures
        hex_of(bytes).len() == 2 * bytes.len(),
    decreases bytes.len(),
{
    if bytes.len() > 0 {
        lemma_hex_len(bytes.drop_last());
    }
}

/// Bytes that differ have hexadecimal texts that differ.
pub proof fn lemma_hex_injective(a: Seq<u8>, b: Seq<u8>)
    requires
        hex_of(a) == hex_of(b),
    ensures
        a == b,
    decreases a.len(),
{
    lemma_hex_len(a);
    lemma_hex_len(b);
    if a.len() > 0 {
        let x = hex_of(a);
        let y = hex_of(b);
        let n = x.len();
        assert(x[n - 1] == digit_char((a.last() % 16) as int));
        assert(y[n - 1] == digit_char((b.last() % 16) as int));
        assert(x[n - 2] == digit_char((a.last() / 16) as int));
        assert(y[n - 2] == digit_char((b.last() / 16) as int));
        assert(a.last() == b.last());
        assert(x.take(n - 2) =~= hex_of(a.drop_last()));
        assert(y.take(n - 2) =~= hex_of(b.drop_last()));
        lemma_hex_injective(a.drop_last(), b.drop_last());
        assert(a =~= a.drop_last().push(a.last()));
        assert(b =~= b.drop_last().push(b.last()));
    } else {
        assert(a =~= b);
    }
}

/// The bytes in lower-case hexadecimal.
pub fn hex_text(bytes: &[u8]) -> (r: String)
    ensures
        r@ == hex_of(bytes@),
{
    let mut r = String::new();
    let mut i: usize = 0;
    assert(bytes@.take(0) =~= Seq::empty());
    while i < bytes.len()
        invariant
            i <= bytes@.len(),
            r@ == hex_of(bytes@.take(i as int)),
        decreases bytes@.len() - i,
    {
        let b: u8 = bytes[i];
        r.push(digit(b / 16));
        r.push(digit(b % 16));
        assert(bytes@.take(i + 1).drop_last() =~= bytes@.take(i as int));
        i = i + 1;
    }
    assert(bytes@.take(bytes@.len() as int) =~= bytes@);
    r
}

/// `true` or `false`.
pub open spec fn bool_text(b: bool) -> Seq<char> {
    if b {
        "true"@
    } else {
        "false"@
    }
}

/// The path of `name` inside `dir`.
pub fn join_path(dir: &str, name: &str) -> (r: String)
    ensures
        r@ == path_in(dir@, name@),
{
    let d = chars_of(dir);
    let n = chars_of(name);
    if n.len() > 0 && n[0] == '/' {
        return name.to_owned();
    }
    let mut r = dir.to_owned();
    if d.len() > 0 && d[d.len() - 1] != '/' {
        r.push('/');
    }
    r.append(name);
    r
}

/// A part of a path that names something: not empty, and not a dot.
pub open spec fn is_component(part: Seq<char>) -> bool {
    part.len() > 0 && part != "."@
}

/// The last of the parts that name something.
pub open spec fn last_component(parts: Seq<Seq<char>>) -> Option<Seq<char>>
    decreases parts.len(),
{
    if parts.len() == 0 {
        None
    } else if is_component(parts.last()) {
        Some(parts.last())
    } else {
        last_component(parts.drop_last())
    }
}

/// The name of the file that a path leads to: its last component, unless that
/// leads up.
pub open spec fn file_name_of(path: Seq<char>) -> Option<Seq<char>> {
    match last_component(split_on(path, "/"@)) {
        Some(name) => if name == ".."@ {
            None
        } else {
            Some(name)
        },
        None => None,
    }
}

/// The name of the file that a path leads to.
pub fn file_name(path: &str) -> (r: Option<String>)
    ensures
        text_opt(r) == file_name_of(path@),
{
    let parts = split(path, "/");
    let ghost all = texts(parts@);
    let mut i: usize = parts.len();
    assert(all.take(all.len() as int) =~= all);
    while i > 0
        invariant
            i <= parts@.len(),
            all == texts(parts@),
            all == split_on(path@, "/"@),
            last_component(all.take(i as int)) == last_component(all),
        decreases i,
    {
        let part = &parts[i - 1];
        assert(all.take(i as int).last() == part@);
        if !part.as_str().is_empty() && !str_eq(part.as_str(), ".") {
            if str_eq(part.as_str(), "..") {
                return None;
            }
            return Some(part.clone());
        }
        assert(all.take(i as int).drop_last() =~= all.take(i - 1));
        i = i - 1;
    }
    None
}

/// The texts, with one more that is put last unless it is among them.
pub open spec fn with_text(v: Seq<Seq<char>>, s: Seq<char>) -> Seq<Seq<char>> {
    if v.contains(s) {
        v
    } else {
        v.push(s)
    }
}

/// Whether a text is among others.
pub fn contains_text(v: &Vec<String>, s: &str) -> (r: bool)
    ensures
        r == texts(v@).contains(s@),
{
    let mut i: usize = 0;
    while i < v.len()
        invariant
            i <= v@.len(),
            forall|k: int| 0 <= k < i ==> (#[trigger] texts(v@)[k]) != s@,
        decreases v@.len() - i,
    {
        if str_eq(v[i].as_str(), s) {
            assert(texts(v@)[i as int] == s@);
            return true;
        }
        i = i + 1;
    }
    false
}

/// Puts a text last unless it is there.
pub fn add_text(v: &mut Vec<String>, s: String)
    ensures
        texts(final(v)@) == with_text(texts(old(v)@), s@),
        texts(old(v)@).no_duplicates() ==> texts(final(v)@).no_duplicates(),
{
    if !contains_text(v, s.as_str()) {
        push_text(v, s);
    }
    proof {
        law_each_once(texts(old(v)@), s@);
    }
}

/// Adding a text to a list in which none occurs twice leaves it so, and the
/// list then holds the text and all that it held before.
pub proof fn law_each_once(v: Seq<Seq<char>>, s: Seq<char>)
    ensures
        v.no_duplicates() ==> with_text(v, s).no_duplicates(),
        with_text(v, s).contains(s),
        forall|t: Seq<char>| v.contains(t) ==> #[trigger] with_text(v, s).contains(t),
{
    if !v.contains(s) {
        let longer = v.push(s);
        assert(longer[v.len() as int] == s);
        assert forall|t: Seq<char>| v.contains(t) implies #[trigger] longer.contains(t) by {
            let i = choose|i: int| 0 <= i < v.len() && v[i] == t;
            assert(longer[i] == t);
        }
    }
}

/// The value of decimal digits.
pub open spec fn digits_value(s: Seq<char>) -> Option<nat>
    decreases s.len(),
{
    if s.len() == 0 {
        Some(0)
    } else if '0' <= s.last() <= '9' {
        match digits_value(s.drop_last()) {
            Some(n) => Some((n * 10 + (s.last() as int - 48)) as nat),
            None => None,
        }
    } else {
        None
    }
}

/// The number that a text stands for: decimal digits, with or without a plus
/// sign, that stay below 2^64.
pub open spec fn number_of(s: Seq<char>) -> Option<nat> {
    let digits = if s.len() > 0 && s[0] == '+' {
        s.skip(1)
    } else {
        s
    };
    match digits_value(digits) {
        Some(n) => if digits.len() > 0 && n <= u64::MAX {
            Some(n)
        } else {
            None
        },
        None => None,
    }
}

proof fn lemma_digits_prefix(s: Seq<char>, i: int)
    requires
        0 <= i <= s.len(),
    ensures
        digits_value(s.take(i)) is None ==> digits_value(s) is None,
        digits_value(s.take(i)) is Some && digits_value(s) is Some ==> digits_value(s.take(i))->0
            <= digits_value(s)->0,
    decreases s.len() - i,
{
    if i == s.len() {
        assert(s.take(i) =~= s);
    } else {
        lemma_digits_prefix(s, i + 1);
        assert(s.take(i + 1).drop_last() =~= s.take(i));
        assert(s.take(i + 1).last() == s[i]);
    }
}

/// The number that a text stands for.
pub fn parse_u64(s: &str) -> (r: Option<u64>)
    ensures
        match r {
            Some(n) => number_of(s@) == Some(n as nat),
            None => number_of(s@) is None,
        },
{
    let chars = chars_of(s);
    let start: usize = if chars.len() > 0 && chars[0] == '+' {
        1
    } else {
        0
    };
    let ghost digits = s@.skip(start as int);
    assert(s@.skip(0) =~= s@);
    if start == chars.len() {
        return None;
    }
    let mut n: u64 = 0;
    let mut i: usize = start;
    assert(digits.take(0) =~= Seq::empty());
    while i < chars.len()
        invariant
            start <= i <= chars@.len(),
            start <= 1,
            chars@ == s@,
            digits == s@.skip(start as int),
            digits == if s@.len() > 0 && s@[0] == '+' {
                s@.skip(1)
            } else {
                s@
            },
            digits_value(digits.take(i - start)) == Some(n as nat),
        decreases chars@.len() - i,
    {
        let c = chars[i];
        assert(digits.take(i - start + 1).drop_last() =~= digits.take(i - start));
        assert(digits.take(i - start + 1).last() == c);
        proof {
            lemma_digits_prefix(digits, i - start + 1);
        }
        if c < '0' || c > '9' {
            return None;
        }
        let d: u64 = (c as u32 - 48) as u64;
        if n > (u64::MAX - d) / 10 {
            assert(n * 10 + d > u64::MAX);
            return None;
        }
        n = n * 10 + d;
        i = i + 1;
    }
    assert(digits.take(i - start) =~= digits);
    Some(n)
}

/// A path as `std::path::Path` prints it for debugging: in quotes, with
/// special characters escaped.
pub uninterp spec fn quoted(path: Seq<char>) -> Seq<char>;

/// `Debug` of `std::path::Path`: its text depends on the path alone.
#[verifier::external_body]
pub(crate) fn quote(path: &str) -> (r: String)
    ensures
        r@ == quoted(path@),
{
    format!("{:?}", std::path::Path::new(path))
}

/// Of two texts one comes before the other or equals it.
pub proof fn lemma_text_le_total(a: Seq<char>, b: Seq<char>)
    ensures
        text_le(a, b) || text_le(b, a),
    decreases a.len(),
{
    if a.len() > 0 && b.len() > 0 && a[0] == b[0] {
        lemma_text_le_total(a.skip(1), b.skip(1));
    }
}

/// Texts that come before each other are equal.
pub proof fn lemma_text_le_antisymmetric(a: Seq<char>, b: Seq<char>)
    requires
        text_le(a, b),
        text_le(b, a),
    ensures
        a == b,
    decreases a.len(),
{
    if a.len() > 0 && b.len() > 0 {
        lemma_text_le_antisymmetric(a.skip(1), b.skip(1));
        assert(a =~= seq![a[0]] + a.skip(1));
        assert(b =~= seq![b[0]] + b.skip(1));
    } else {
        assert(a =~= b);
    }
}

/// The order of texts is transitive.
pub proof fn lemma_text_le_transitive(a: Seq<char>, b: Seq<char>, c: Seq<char>)
    requires
        text_le(a, b),
        text_le(b, c),
    ensures
        text_le(a, c),
    decreases a.len(),
{
    if a.len() > 0 && b.len() > 0 && c.len() > 0 && a[0] == b[0] && b[0] == c[0] {
        lemma_text_le_transitive(a.skip(1), b.skip(1), c.skip(1));
    }
}

/// The texts come in order, each once.
pub open spec fn strictly_sorted(v: Seq<Seq<char>>) -> bool {
    forall|i: int, j: int|
        0 <= i < j < v.len() ==> text_le(#[trigger] v[i], #[trigger] v[j]) && v[i] != v[j]
}

/// The two hold the same texts, in whatever order and however often.
pub open spec fn same_texts(a: Seq<Seq<char>>, b: Seq<Seq<char>>) -> bool {
    forall|s: Seq<char>| #[trigger] a.contains(s) <==> b.contains(s)
}

proof fn lemma_insert_sorted(v: Seq<Seq<char>>, s: Seq<char>, at: int)
    requires
        strictly_sorted(v),
        0 <= at <= v.len(),
        forall|i: int| 0 <= i < at ==> text_le(#[trigger] v[i], s) && v[i] != s,
        at < v.len() ==> text_le(s, v[at]) && s != v[at],
    ensures
        strictly_sorted(v.insert(at, s)),
        forall|t: Seq<char>| #[trigger] v.insert(at, s).contains(t) <==> v.contains(t) || t == s,
{
    let w = v.insert(at, s);
    assert forall|i: int, j: int| 0 <= i < j < w.len() implies text_le(#[trigger] w[i], #[trigger] w[j])
        && w[i] != w[j] by {
        if j == at {
            assert(w[i] == v[i]);
        } else if i == at {
            assert(w[j] == v[j - 1]);
            if j - 1 > at {
                assert(text_le(v[at], v[j - 1]));
                lemma_text_le_transitive(s, v[at], v[j - 1]);
                if s == v[j - 1] {
                    lemma_text_le_antisymmetric(s, v[at]);
                }
            }
        } else if i < at && j > at {
            assert(w[i] == v[i] && w[j] == v[j - 1]);
        } else if i > at {
            assert(w[i] == v[i - 1] && w[j] == v[j - 1]);
        } else {
            assert(w[i] == v[i] && w[j] == v[j]);
        }
    }
    assert forall|t: Seq<char>| #[trigger] w.contains(t) <==> v.contains(t) || t == s by {
        if w.contains(t) {
            let i = choose|i: int| 0 <= i < w.len() && w[i] == t;
            if i < at {
                assert(v[i] == t);
            } else if i > at {
                assert(v[i - 1] == t);
            }
        }
        if v.contains(t) {
            let i = choose|i: int| 0 <= i < v.len() && v[i] == t;
            if i < at {
                assert(w[i] == t);
            } else {
                assert(w[i + 1] == t);
            }
        }
        assert(w[at] == s);
    }
}

/// The texts in order, each once.
pub fn sort_dedup(v: &Vec<String>) -> (r: Vec<String>)
    ensures
        strictly_sorted(texts(r@)),
        same_texts(texts(r@), texts(v@)),
{
    let mut r: Vec<String> = Vec::new();
    let ghost all = texts(v@);
    let mut i: usize = 0;
    assert(texts(r@) =~= all.take(0));
    while i < v.len()
        invariant
            i <= v@.len(),
            all == texts(v@),
            strictly_sorted(texts(r@)),
            same_texts(texts(r@), all.take(i as int)),
        decreases v@.len() - i,
    {
        let ghost sorted = texts(r@);
        let ghost s = v@[i as int]@;
        let mut at: usize = 0;
        let n: usize = r.len();
        while at < n && str_le(r[at].as_str(), v[i].as_str()) && !str_eq(
            r[at].as_str(),
            v[i].as_str(),
        )
            invariant
                i < v@.len(),
                at <= n,
                n == r@.len(),
                sorted == texts(r@),
                s == v@[i as int]@,
                forall|k: int| 0 <= k < at ==> text_le(#[trigger] sorted[k], s) && sorted[k] != s,
            decreases n - at,
        {
            at = at + 1;
        }
        proof {
            if at < n {
                lemma_text_le_total(sorted[at as int], s);
            }
        }
        let present = at < r.len() && str_eq(r[at].as_str(), v[i].as_str());
        if !present {
            proof {
                lemma_insert_sorted(sorted, s, at as int);
            }
            r.insert(at, v[i].clone());
            assert(texts(r@) =~= sorted.insert(at as int, s));
        }
        proof {
            let before = all.take(i as int);
            let after = all.take(i + 1);
            assert(after =~= before.push(s));
            assert forall|t: Seq<char>| #[trigger] texts(r@).contains(t) <==> after.contains(t) by {
                assert(sorted.contains(t) <==> before.contains(t));
                if present {
                    assert(sorted[at as int] == s);
                }
                if after.contains(t) {
                    let k = choose|k: int| 0 <= k < after.len() && after[k] == t;
                    if k < before.len() {
                        assert(before[k] == t);
                    }
                }
                if before.contains(t) {
                    let k = choose|k: int| 0 <= k < before.len() && before[k] == t;
                    assert(after[k] == t);
                }
                assert(after[before.len() as int] == s);
            }
        }
        i = i + 1;
    }
    assert(all.take(i as int) =~= all);
    r
}

proof fn lemma_joined_front(x: Seq<char>, parts: Seq<Seq<char>>, sep: Seq<char>)
    requires
        parts.len() > 0,
    ensures
        joined(seq![x] + parts, sep) == x + sep + joined(parts, sep),
    decreases parts.len(),
{
    let all = seq![x] + parts;
    assert(all.last() == parts.last());
    if parts.len() == 1 {
        assert(all.drop_last() =~= seq![x]);
        assert(joined(seq![x], sep) == x);
    } else {
        lemma_joined_front(x, parts.drop_last(), sep);
        assert(all.drop_last() =~= seq![x] + parts.drop_last());
        assert(x + sep + joined(parts.drop_last(), sep) + sep + parts.last() =~= x + sep + (joined(
            parts.drop_last(),
            sep,
        ) + sep + parts.last()));
    }
}

/// The parts of a text, joined again, are the text, and no part holds the
/// separator.
pub proof fn law_split_and_join(s: Seq<char>, sep: Seq<char>)
    requires
        sep.len() > 0,
    ensures
        split_on(s, sep).len() > 0,
        joined(split_on(s, sep), sep) == s,
        forall|k: int|
            0 <= k < split_on(s, sep).len() ==> !has_text(#[trigger] split_on(s, sep)[k], sep),
    decreases s.len(),
{
    lemma_found(s, sep);
    match find_text(s, sep) {
        Some(i) => {
            let rest = s.skip(i + sep.len());
            let head = s.take(i);
            law_split_and_join(rest, sep);
            lemma_joined_front(head, split_on(rest, sep), sep);
            assert(s =~= head + sep + rest) by {
                assert(s.subrange(i, i + sep.len()) == sep);
                assert(s =~= head + s.subrange(i, i + sep.len()) + rest);
            }
            assert forall|j: int| !occurs_at(head, sep, j) by {
                if occurs_at(head, sep, j) {
                    assert(head.subrange(j, j + sep.len()) =~= s.subrange(j, j + sep.len()));
                    assert(occurs_at(s, sep, j));
                }
            }
            let all = split_on(s, sep);
            assert(all == seq![head] + split_on(rest, sep));
            assert forall|k: int| 0 <= k < all.len() implies !has_text(#[trigger] all[k], sep) by {
                if k > 0 {
                    assert(all[k] == split_on(rest, sep)[k - 1]);
                }
            }
        },
        None => {
            assert(split_on(s, sep) == seq![s]);
            assert(joined(seq![s], sep) == s);
        },
    }
}

proof fn lemma_mark_at(s: Seq<char>, sep: Seq<char>, j: int)
    requires
        sep.len() == 1,
        occurs_at(s, sep, j),
    ensures
        s[j] == sep[0],
{
    assert(s.subrange(j, j + 1)[0] == s[j]);
}

/// What stands before the first separator is the first part, and what stands
/// after it gives the others. A text without the separator is its only part.
pub proof fn law_split_at_the_first(a: Seq<char>, b: Seq<char>, sep: Seq<char>)
    requires
        sep.len() == 1,
        !a.contains(sep[0]),
    ensures
        split_on(a, sep) == seq![a],
        split_on(a + sep + b, sep) == seq![a] + split_on(b, sep),
{
    let s = a + sep + b;
    assert forall|j: int| !occurs_at(a, sep, j) by {
        if occurs_at(a, sep, j) {
            lemma_mark_at(a, sep, j);
            assert(a.contains(a[j]));
        }
    }
    lemma_found(a, sep);
    assert(occurs_at(s, sep, a.len() as int)) by {
        assert(s.subrange(a.len() as int, 1 + a.len() as int) =~= sep);
    }
    assert forall|j: int| 0 <= j < a.len() implies !occurs_at(s, sep, j) by {
        if occurs_at(s, sep, j) {
            lemma_mark_at(s, sep, j);
            assert(s[j] == a[j]);
            assert(a.contains(a[j]));
        }
    }
    lemma_find_text(s, sep, a.len() as int);
    assert(s.take(a.len() as int) =~= a);
    assert(s.skip(1 + a.len() as int) =~= b);
}

/// Replacing a text leaves alone what does not hold it, and replaces each place
/// where it stands.
pub proof fn law_replaced(a: Seq<char>, b: Seq<char>, from: Seq<char>, to: Seq<char>)
    requires
        from.len() > 0,
    ensures
        !has_text(a, from) ==> replaced(a, from, to) == a,
        first_at(a + from + b, from, a.len() as int) ==> replaced(a + from + b, from, to) == a + to
            + replaced(b, from, to),
        replaced(a, from, from) == a,
{
    lemma_found(a, from);
    if !has_text(a, from) {
        assert(split_on(a, from) == seq![a]);
        assert(joined(seq![a], to) == a);
    }
    law_split_and_join(a, from);
    law_split_and_join(b, from);
    let s = a + from + b;
    if first_at(s, from, a.len() as int) {
        lemma_find_text(s, from, a.len() as int);
        assert(s.take(a.len() as int) =~= a);
        assert(s.skip(a.len() as int + from.len() as int) =~= b);
        assert(split_on(s, from) == seq![a] + split_on(b, from));
        lemma_joined_front(a, split_on(b, from), to);
    }
}

/// A line ends at its newline, with or without a carriage return, and what is
/// left gives the other lines. An empty text has none.
pub proof fn law_lines(a: Seq<char>, b: Seq<char>)
    requires
        !a.contains('\n'),
    ensures
        lines_of(Seq::empty()) == Seq::<Seq<char>>::empty(),
        a.len() > 0 ==> lines_of(a) == seq![a],
        a.len() > 0 && a.last() == '\r' ==> lines_of(a + seq!['\n'] + b) == seq![a.drop_last()]
            + lines_of(b),
        a.len() == 0 || a.last() != '\r' ==> lines_of(a + seq!['\n'] + b) == seq![a] + lines_of(b),
{
    let sep = seq!['\n'];
    let s = a + sep + b;
    assert forall|j: int| !occurs_at(a, sep, j) by {
        if occurs_at(a, sep, j) {
            lemma_mark_at(a, sep, j);
            assert(a.contains(a[j]));
        }
    }
    lemma_found(a, sep);
    assert(occurs_at(s, sep, a.len() as int)) by {
        assert(s.subrange(a.len() as int, 1 + a.len() as int) =~= sep);
    }
    assert forall|j: int| 0 <= j < a.len() implies !occurs_at(s, sep, j) by {
        if occurs_at(s, sep, j) {
            lemma_mark_at(s, sep, j);
            assert(s[j] == a[j]);
            assert(a.contains(a[j]));
        }
    }
    lemma_find_text(s, sep, a.len() as int);
    assert(s.take(a.len() as int) =~= a);
    assert(s.skip(1 + a.len() as int) =~= b);
}

proof fn lemma_word_ends(w: Seq<char>, rest: Seq<char>)
    requires
        forall|i: int| 0 <= i < w.len() ==> !white_space(#[trigger] w[i]),
        rest.len() == 0 || white_space(rest[0]),
    ensures
        word_len(w + rest) == w.len(),
    decreases w.len(),
{
    let s = w + rest;
    if w.len() == 0 {
        assert(s =~= rest);
    } else {
        assert(s[0] == w[0]);
        assert(s.skip(1) =~= w.skip(1) + rest);
        assert forall|i: int| 0 <= i < w.skip(1).len() implies !white_space(
            #[trigger] w.skip(1)[i],
        ) by {
            assert(w.skip(1)[i] == w[i + 1]);
        }
        lemma_word_ends(w.skip(1), rest);
    }
}

/// White space separates words and belongs to none.
pub proof fn law_words(w: Seq<char>, rest: Seq<char>, c: char)
    requires
        white_space(c),
        w.len() > 0,
        forall|i: int| 0 <= i < w.len() ==> !white_space(#[trigger] w[i]),
    ensures
        words_of(Seq::empty()) == Seq::<Seq<char>>::empty(),
        words_of(w) == seq![w],
        words_of(seq![c] + rest) == words_of(rest),
        words_of(w + seq![c] + rest) == seq![w] + words_of(rest),
{
    let none: Seq<char> = Seq::empty();
    assert(w + none =~= w);
    lemma_word_ends(w, none);
    assert(w.take(w.len() as int) =~= w);
    assert(w.skip(w.len() as int) =~= none);
    assert(!white_space(w[0]));
    assert(words_of(w) == seq![w] + words_of(none));
    assert(seq![w] + words_of(none) =~= seq![w]);
    let blank = seq![c] + rest;
    assert(blank[0] == c);
    assert(blank.skip(1) =~= rest);
    let s = w + seq![c] + rest;
    assert(s =~= w + blank);
    lemma_word_ends(w, blank);
    assert(s[0] == w[0]);
    assert(s.take(w.len() as int) =~= w);
    assert(s.skip(w.len() as int) =~= blank);
}

/// Trimming takes away the white space at an end, all of it and nothing else.
pub proof fn law_trimmed(s: Seq<char>)
    ensures
        ({
            let t = trimmed_end(s);
            &&& t.len() <= s.len()
            &&& t == s.take(t.len() as int)
            &&& forall|i: int| t.len() <= i < s.len() ==> white_space(#[trigger] s[i])
            &&& t.len() > 0 ==> !white_space(t.last())
        }),
        ({
            let t = trimmed_start(s);
            let n = s.len() - t.len();
            &&& t.len() <= s.len()
            &&& t == s.skip(n)
            &&& forall|i: int| 0 <= i < n ==> white_space(#[trigger] s[i])
            &&& t.len() > 0 ==> !white_space(t[0])
        }),
    decreases s.len(),
{
    assert(s.take(s.len() as int) =~= s);
    assert(s.skip(0) =~= s);
    if s.len() > 0 {
        if white_space(s.last()) {
            let before = s.drop_last();
            law_trimmed(before);
            let t = trimmed_end(before);
            assert(t =~= s.take(t.len() as int));
            assert forall|i: int| t.len() <= i < s.len() implies white_space(#[trigger] s[i]) by {
                if i < before.len() {
                    assert(before[i] == s[i]);
                }
            }
        }
        if white_space(s[0]) {
            let rest = s.skip(1);
            law_trimmed(rest);
            let t = trimmed_start(rest);
            let n = s.len() - t.len();
            assert(t =~= s.skip(n));
            assert forall|i: int| 0 <= i < n implies white_space(#[trigger] s[i]) by {
                if i > 0 {
                    assert(rest[i - 1] == s[i]);
                }
            }
        }
    }
}

/// A number in decimal is made of digits, and has its value.
pub proof fn lemma_decimal(n: nat)
    ensures
        decimal(n).len() > 0,
        forall|i: int| 0 <= i < decimal(n).len() ==> '0' <= #[trigger] decimal(n)[i] <= '9',
        digits_value(decimal(n)) == Some(n),
    decreases n,
{
    let d = digit_char((n % 10) as int);
    assert(d as int == 48 + n % 10);
    if n < 10 {
        let s = seq![d];
        assert(s.drop_last() =~= Seq::<char>::empty());
        assert(digits_value(Seq::<char>::empty()) == Some(0nat));
        assert(s.last() == d);
        assert(decimal(n) == s);
    } else {
        lemma_decimal(n / 10);
        let before = decimal(n / 10);
        let s = before.push(d);
        assert(s.drop_last() =~= before);
        assert(s.last() == d);
        assert(decimal(n) == s);
        assert forall|i: int| 0 <= i < s.len() implies '0' <= #[trigger] s[i] <= '9' by {
            if i < before.len() {
                assert(s[i] == before[i]);
            }
        }
    }
}

/// A number is read back from its decimal digits, with or without a plus sign.
pub proof fn law_number_is_read_back(n: nat)
    requires
        n <= u64::MAX,
    ensures
        number_of(decimal(n)) == Some(n),
        number_of(seq!['+'] + decimal(n)) == Some(n),
{
    lemma_decimal(n);
    let s = decimal(n);
    assert('0' <= s[0] <= '9');
    assert((seq!['+'] + s).skip(1) =~= s);
}

/// Each byte becomes two hexadecimal digits, the high one first.
pub proof fn law_hex_digits(bytes: Seq<u8>, i: int)
    requires
        0 <= i < bytes.len(),
    ensures
        hex_of(bytes).len() == 2 * bytes.len(),
        ({
            let high = bytes[i] / 16;
            let low = bytes[i] % 16;
            &&& hex_of(bytes)[2 * i] == if high < 10 {
                ('0' as int + high) as char
            } else {
                ('a' as int + high - 10) as char
            }
            &&& hex_of(bytes)[2 * i + 1] == if low < 10 {
                ('0' as int + low) as char
            } else {
                ('a' as int + low - 10) as char
            }
        }),
    decreases bytes.len(),
{
    lemma_hex_len(bytes);
    lemma_hex_len(bytes.drop_last());
    if i < bytes.len() - 1 {
        law_hex_digits(bytes.drop_last(), i);
    }
}

/// A name without a slash before it goes into the directory, with one slash
/// between the two; one with a slash stands for itself.
pub proof fn law_path_in(dir: Seq<char>, name: Seq<char>)
    requires
        dir.len() > 0,
        name.len() > 0,
    ensures
        name[0] == '/' ==> path_in(dir, name) == name,
        name[0] != '/' && dir.last() != '/' ==> path_in(dir, name) == dir + seq!['/'] + name,
        name[0] != '/' && dir.last() == '/' ==> path_in(dir, name) == dir + name,
{
    assert(dir.push('/') =~= dir + seq!['/']);
}

/// The last part of a path is its file name.
#[verifier::spinoff_prover]
#[verifier::rlimit(60)]
pub proof fn law_file_name(dir: Seq<char>, name: Seq<char>)
    requires
        name.len() > 0,
        !name.contains('/'),
        name != "."@,
        name != ".."@,
    ensures
        file_name_of(name) == Some(name),
        file_name_of(dir + seq!['/'] + name) == Some(name),
{
    reveal_strlit("/");
    let sep = "/"@;
    assert(sep =~= seq!['/']);
    law_split_at_the_first(name, Seq::empty(), sep);
    lemma_split_last(dir, name, sep);
    assert(is_component(name));
    let parts = split_on(dir + sep + name, sep);
    assert(parts.last() == name);
    assert(last_component(parts) == Some(name));
    assert(split_on(name, sep).last() == name);
}

/// A slash at the end of a path does not count.
#[verifier::spinoff_prover]
#[verifier::rlimit(60)]
pub proof fn law_slash_at_the_end(path: Seq<char>)
    ensures
        file_name_of(path + seq!['/']) == file_name_of(path),
{
    reveal_strlit("/");
    let sep = "/"@;
    let none: Seq<char> = Seq::empty();
    assert(sep =~= seq!['/']);
    lemma_split_last(path, none, sep);
    law_split_at_the_first(none, none, sep);
    assert(path + sep + none =~= path + seq!['/']);
    let parts = split_on(path + sep, sep);
    assert(parts == split_on(path, sep) + seq![none]);
    assert(parts.last() == none);
    assert(parts.drop_last() =~= split_on(path, sep));
    assert(!is_component(none));
    assert(last_component(parts) == last_component(split_on(path, sep)));
}

/// A path that leads up has no file name.
#[verifier::spinoff_prover]
#[verifier::rlimit(60)]
pub proof fn law_path_that_leads_up(dir: Seq<char>)
    ensures
        file_name_of(dir + seq!['/'] + ".."@) is None,
{
    reveal_strlit("/");
    reveal_strlit("..");
    reveal_strlit(".");
    let sep = "/"@;
    assert(sep =~= seq!['/']);
    law_split_at_the_first(".."@, Seq::empty(), sep);
    lemma_split_last(dir, ".."@, sep);
    let parts = split_on(dir + sep + ".."@, sep);
    assert(parts.last() == ".."@);
    assert(is_component(".."@));
    assert(last_component(parts) == Some(".."@));
}

/// The parts of two texts with a separator between them.
pub proof fn lemma_split_last(a: Seq<char>, b: Seq<char>, sep: Seq<char>)
    requires
        sep.len() == 1,
    ensures
        split_on(a + sep + b, sep) == split_on(a, sep) + split_on(b, sep),
        split_on(a, sep).len() > 0,
    decreases a.len(),
{
    if a.contains(sep[0]) {
        let k = choose|k: int| 0 <= k < a.len() && a[k] == sep[0];
        lemma_found(a, sep);
        assert(occurs_at(a, sep, k)) by {
            assert(a.subrange(k, k + 1) =~= sep);
        }
        let i = find_text(a, sep)->0;
        let head = a.take(i);
        let rest = a.skip(i + 1);
        lemma_mark_at(a, sep, i);
        assert(!head.contains(sep[0])) by {
            if head.contains(sep[0]) {
                let j = choose|j: int| 0 <= j < head.len() && head[j] == sep[0];
                assert(a.subrange(j, j + 1) =~= sep);
                assert(occurs_at(a, sep, j));
            }
        }
        lemma_split_last(rest, b, sep);
        assert(a =~= head + sep + rest);
        law_split_at_the_first(head, rest, sep);
        law_split_at_the_first(head, rest + sep + b, sep);
        assert(a + sep + b =~= head + sep + (rest + sep + b));
        assert(seq![head] + split_on(rest, sep) + split_on(b, sep) =~= seq![head] + (split_on(
            rest,
            sep,
        ) + split_on(b, sep)));
    } else {
        law_split_at_the_first(a, b, sep);
    }
}

/// Texts are ordered by their first difference, and a text comes before those
/// that begin with it.
pub proof fn law_text_order(a: Seq<char>, x: char, b: Seq<char>, y: char, c: Seq<char>)
    requires
        x < y,
    ensures
        text_le(a, a + b),
        b.len() > 0 ==> !text_le(a + b, a),
        text_le(a + seq![x] + b, a + seq![y] + c),
        !text_le(a + seq![y] + c, a + seq![x] + b),
    decreases a.len(),
{
    let s = a + seq![x] + b;
    let t = a + seq![y] + c;
    let longer = a + b;
    if a.len() > 0 {
        law_text_order(a.skip(1), x, b, y, c);
        assert(s.skip(1) =~= a.skip(1) + seq![x] + b);
        assert(t.skip(1) =~= a.skip(1) + seq![y] + c);
        assert(longer.skip(1) =~= a.skip(1) + b);
        assert(s[0] == a[0] && t[0] == a[0] && longer[0] == a[0]);
    } else {
        assert(s[0] == x && t[0] == y);
        assert(longer =~= b);
    }
}

/// A list with a text added holds that text and what it held before, and
/// nothing else, in the order in which they came.
pub proof fn law_added_text(v: Seq<Seq<char>>, s: Seq<char>)
    ensures
        v.contains(s) ==> with_text(v, s) == v,
        !v.contains(s) ==> with_text(v, s) == v.push(s),
{
}

/// What is cut off a text is what it begins or ends with.
pub proof fn law_stripped(
    s: &str,
    pat: &str,
    front: Option<String>,
    back: Option<String>,
    rest: Seq<char>,
)
    requires
        call_ensures(strip_prefix, (s, pat), front),
        call_ensures(strip_suffix, (s, pat), back),
    ensures
        text_opt(front) == Some(rest) <==> s@ == pat@ + rest,
        text_opt(back) == Some(rest) <==> s@ == rest + pat@,
{
    if s@ == pat@ + rest {
        assert(s@.subrange(0, pat@.len() as int) =~= pat@);
        assert(s@.skip(pat@.len() as int) =~= rest);
    }
    if has_prefix(s@, pat@) {
        assert(s@ =~= s@.subrange(0, pat@.len() as int) + s@.skip(pat@.len() as int));
    }
    if s@ == rest + pat@ {
        assert(s@.subrange(rest.len() as int, rest.len() as int + pat@.len() as int) =~= pat@);
        assert(s@.take(rest.len() as int) =~= rest);
    }
    if has_suffix(s@, pat@) {
        let n = s@.len() - pat@.len();
        assert(s@ =~= s@.take(n) + s@.subrange(n, n + pat@.len()));
    }
}

} // verus!

//! Regular expressions and shell globs, compiled once and then matched
//! without regard to case.
use vstd::prelude::*;
use crate::error::NalaError;

verus! {

/// The regular expression of the regex crate.
#[verifier::external_type_specification]
#[verifier::external_body]
pub struct ExRegex(regex::Regex);

/// The glob of the globset crate.
#[verifier::external_type_specification]
#[verifier::external_body]
pub struct ExGlob(globset::Glob);

/// The compiled glob of the globset crate.
#[verifier::external_type_specification]
#[verifier::external_body]
pub struct ExGlobMatcher(globset::GlobMatcher);

/// What `regex::RegexBuilder::build` says against a pattern that it cannot
/// compile without regard to case; `None` for a pattern that it compiles.
pub uninterp spec fn regex_complaint(pattern: Seq<char>) -> Option<Seq<char>>;

/// The leftmost match that `regex::Regex::find` gives for a pattern, compiled
/// without regard to case, in a text.
pub uninterp spec fn regex_match(pattern: Seq<char>, text: Seq<char>) -> Option<Seq<char>>;

/// What the first group holds in the leftmost match that
/// `regex::Regex::captures` gives for a pattern, compiled without regard to
/// case, in a text. `None` where nothing matches, or the group takes no part.
pub uninterp spec fn regex_group(pattern: Seq<char>, text: Seq<char>) -> Option<Seq<char>>;

/// What is wrong with a glob that `globset::GlobBuilder::build` cannot build
/// without regard to case; `None` for a glob that it builds.
pub uninterp spec fn glob_fault(glob: Seq<char>) -> Option<Seq<char>>;

/// The regular expression that `globset::Glob::regex` gives for a glob that is
/// built without regard to case.
pub uninterp spec fn glob_expression(glob: Seq<char>) -> Seq<char>;

/// What `regex::bytes::RegexBuilder::build` says against an expression in which
/// a dot stands for line ends too; `None` for one that it compiles.
pub uninterp spec fn bytes_complaint(expression: Seq<char>) -> Option<Seq<char>>;

/// Whether `globset::GlobMatcher::is_match` accepts a text for a glob that is
/// compiled without regard to case, on the Unix systems that this program is
/// for.
pub uninterp spec fn glob_match(glob: Seq<char>, text: Seq<char>) -> bool;

/// What a character of a glob belongs to.
#[derive(Debug, Clone, Copy, PartialEq, Eq, Structural)]
pub enum GlobState {
    Text,
    /// Behind a backslash.
    Escaped,
    /// Behind the bracket that opens a class.
    Opened,
    /// Behind the mark that negates a class.
    Negated,
    /// In a class, behind its first character.
    Class,
}

/// What follows a character belongs to. The first character of a class never
/// closes it.
pub open spec fn state_after(state: GlobState, c: char) -> GlobState {
    match state {
        GlobState::Text => if c == '\\' {
            GlobState::Escaped
        } else if c == '[' {
            GlobState::Opened
        } else {
            GlobState::Text
        },
        GlobState::Escaped => GlobState::Text,
        GlobState::Opened => if c == '!' || c == '^' {
            GlobState::Negated
        } else {
            GlobState::Class
        },
        GlobState::Negated => GlobState::Class,
        GlobState::Class => if c == ']' {
            GlobState::Text
        } else {
            GlobState::Class
        },
    }
}

/// What the character behind a text belongs to.
pub open spec fn glob_state(s: Seq<char>) -> GlobState
    decreases s.len(),
{
    if s.len() == 0 {
        GlobState::Text
    } else {
        state_after(glob_state(s.drop_last()), s.last())
    }
}

/// How many braces are open behind a text. Those that are escaped or in a class
/// do not count.
pub open spec fn open_braces(s: Seq<char>) -> nat
    decreases s.len(),
{
    if s.len() == 0 {
        0
    } else {
        let before = open_braces(s.drop_last());
        if glob_state(s.drop_last()) != GlobState::Text {
            before
        } else if s.last() == '{' {
            before + 1
        } else if s.last() == '}' && before > 0 {
            (before - 1) as nat
        } else {
            before
        }
    }
}

/// How deep the braces of a glob are nested.
pub open spec fn brace_depth(s: Seq<char>) -> nat
    decreases s.len(),
{
    if s.len() == 0 {
        0
    } else if open_braces(s) > brace_depth(s.drop_last()) {
        open_braces(s)
    } else {
        brace_depth(s.drop_last())
    }
}

/// How deep the braces of a glob may be nested where they hold something.
pub const DEEPEST: usize = 500;

/// A glob with its outermost braces alone. What can be wrong with a glob does not
/// depend on the braces within them.
pub open spec fn outermost(s: Seq<char>) -> Seq<char>
    decreases s.len(),
{
    if s.len() == 0 {
        Seq::empty()
    } else {
        let before = s.drop_last();
        let open = open_braces(before);
        let inner = glob_state(before) == GlobState::Text && (s.last() == '{' && open >= 1
            || s.last() == '}' && open >= 2);
        if inner {
            outermost(before)
        } else {
            outermost(before).push(s.last())
        }
    }
}

/// A character that braces alternatives, or separates them.
pub open spec fn is_brace_mark(c: char) -> bool {
    c == '{' || c == '}' || c == ','
}

/// Where the brace stands that a closing brace at the end closes, if nothing but
/// commas and empty pairs of braces comes between the two. Each character comes
/// with whether it is neither escaped nor in a class.
pub open spec fn hollow_start(s: Seq<(char, bool)>) -> Option<int>
    decreases s.len(),
{
    if s.len() == 0 {
        None
    } else if s.last() == (',', true) {
        hollow_start(s.drop_last())
    } else if s.last() == ('{', true) {
        Some(s.len() - 1)
    } else if s.last() == ('}', true) && s.len() >= 2 && s[s.len() - 2] == ('{', true) {
        hollow_start(s.take(s.len() - 2))
    } else {
        None
    }
}

/// The characters of a glob in which braces that hold nothing but commas and
/// braces are empty pairs. Each comes with whether it is a mark of alternatives
/// that is neither escaped nor in a class.
pub open spec fn without_hollow(s: Seq<char>) -> Seq<(char, bool)>
    decreases s.len(),
{
    if s.len() == 0 {
        Seq::empty()
    } else {
        let before = without_hollow(s.drop_last());
        let marked = glob_state(s.drop_last()) == GlobState::Text && is_brace_mark(s.last());
        match hollow_start(before) {
            Some(start) if marked && s.last() == '}' => before.take(start + 1).push(('}', true)),
            _ => before.push((s.last(), marked)),
        }
    }
}

/// The glob that is compiled for a glob. Braces that hold nothing but commas and
/// braces accept the empty text, as an empty pair does, and are made one where
/// the braces are nested deeply.
pub open spec fn compact(glob: Seq<char>) -> Seq<char> {
    if brace_depth(glob) <= DEEPEST {
        glob
    } else {
        without_hollow(glob).map_values(|m: (char, bool)| m.0)
    }
}

/// What is said about a glob with a fault.
pub open spec fn fault_message(glob: Seq<char>, fault: Seq<char>) -> Seq<char> {
    "error parsing glob '"@ + glob + "': "@ + fault
}

/// What is said against a glob: what is wrong with it, else that its braces are
/// nested too deeply, else what is said against the expression that it stands
/// for. `None` for a glob that compiles.
pub open spec fn glob_error(glob: Seq<char>) -> Option<Seq<char>> {
    let fault = if brace_depth(glob) <= DEEPEST {
        glob_fault(glob)
    } else {
        glob_fault(outermost(glob))
    };
    match fault {
        Some(fault) => Some(fault_message(glob, fault)),
        None => if brace_depth(compact(glob)) > DEEPEST {
            Some("The braces of the glob are nested too deeply"@)
        } else {
            match glob_fault(compact(glob)) {
                Some(fault) => Some(fault_message(glob, fault)),
                None => bytes_complaint(glob_expression(compact(glob))),
            }
        },
    }
}

/// Whether a glob that compiles accepts a text.
pub open spec fn glob_accepts(glob: Seq<char>, text: Seq<char>) -> bool {
    glob_match(compact(glob), text)
}

fn next_state(state: GlobState, c: char) -> (r: GlobState)
    ensures
        r == state_after(state, c),
{
    match state {
        GlobState::Text => if c == '\\' {
            GlobState::Escaped
        } else if c == '[' {
            GlobState::Opened
        } else {
            GlobState::Text
        },
        GlobState::Escaped => GlobState::Text,
        GlobState::Opened => if c == '!' || c == '^' {
            GlobState::Negated
        } else {
            GlobState::Class
        },
        GlobState::Negated => GlobState::Class,
        GlobState::Class => if c == ']' {
            GlobState::Text
        } else {
            GlobState::Class
        },
    }
}

/// How deep the braces of a glob are nested.
pub fn depth_of(glob: &str) -> (r: usize)
    ensures
        r == brace_depth(glob@),
{
    let chars = crate::text::chars_of(glob);
    let mut state = GlobState::Text;
    let mut open: usize = 0;
    let mut deepest: usize = 0;
    let mut i: usize = 0;
    assert(glob@.take(0) =~= Seq::empty());
    while i < chars.len()
        invariant
            i <= chars@.len(),
            chars@ == glob@,
            state == glob_state(glob@.take(i as int)),
            open == open_braces(glob@.take(i as int)),
            deepest == brace_depth(glob@.take(i as int)),
            open <= i,
        decreases chars@.len() - i,
    {
        let c: char = chars[i];
        assert(glob@.take(i + 1).drop_last() =~= glob@.take(i as int));
        let text = match state {
            GlobState::Text => true,
            _ => false,
        };
        if text && c == '{' {
            open = open + 1;
        } else if text && c == '}' && open > 0 {
            open = open - 1;
        }
        state = next_state(state, c);
        if open > deepest {
            deepest = open;
        }
        i = i + 1;
    }
    assert(glob@.take(i as int) =~= glob@);
    deepest
}

/// A regular expression with its source. Values come from `compile_regex`
/// alone, so the two belong together.
#[derive(Debug)]
pub struct Pattern {
    regex: regex::Regex,
    source: String,
}

impl View for Pattern {
    type V = Seq<char>;

    /// The source of the expression.
    closed spec fn view(&self) -> Seq<char> {
        self.source@
    }
}

/// A glob of the globset crate with its source. Values come from `build_glob`
/// alone, so the two belong together.
#[derive(Debug)]
pub struct BuiltGlob {
    glob: globset::Glob,
    source: String,
}

impl View for BuiltGlob {
    type V = Seq<char>;

    /// The source of the glob.
    closed spec fn view(&self) -> Seq<char> {
        self.source@
    }
}

/// A compiled glob of the globset crate with its source. Values come from
/// `compile_glob` alone, so the two belong together.
#[derive(Debug)]
pub struct CompiledGlob {
    matcher: globset::GlobMatcher,
    source: String,
}

impl View for CompiledGlob {
    type V = Seq<char>;

    /// The source of the glob.
    closed spec fn view(&self) -> Seq<char> {
        self.source@
    }
}

/// A glob that can be matched.
#[derive(Debug)]
pub struct GlobPattern {
    compiled: CompiledGlob,
    source: String,
}

impl View for GlobPattern {
    type V = Seq<char>;

    /// The source of the glob.
    closed spec fn view(&self) -> Seq<char> {
        self.source@
    }
}

impl GlobPattern {
    /// What was compiled is what stands for the source.
    #[verifier::type_invariant]
    spec fn is_compact(self) -> bool {
        self.compiled@ == compact(self.source@)
    }
}

/// `regex::RegexBuilder::build` with `case_insensitive`: a pattern compiles,
/// or the error's text is what the builder says against that pattern.
#[verifier::external_body]
fn compile_regex(pattern: &str) -> (r: Result<Pattern, String>)
    ensures
        match r {
            Ok(p) => regex_complaint(pattern@) is None && p@ == pattern@,
            Err(e) => regex_complaint(pattern@) == Some(e@),
        },
{
    match regex::RegexBuilder::new(pattern).case_insensitive(true).build() {
        Ok(regex) => Ok(Pattern { regex, source: pattern.to_string() }),
        Err(e) => Err(e.to_string()),
    }
}

/// `regex::Regex::find`: the text of the leftmost match.
#[verifier::external_body]
fn find_regex(p: &Pattern, text: &str) -> (r: Option<String>)
    ensures
        crate::text::text_opt(r) == regex_match(p@, text@),
{
    p.regex.find(text).map(|m| m.as_str().to_string())
}

/// `regex::Regex::captures` and `regex::Captures::get` for group one: the text
/// of that group in the leftmost match.
#[verifier::external_body]
fn capture_regex(p: &Pattern, text: &str) -> (r: Option<String>)
    ensures
        crate::text::text_opt(r) == regex_group(p@, text@),
{
    p.regex.captures(text).and_then(|c| c.get(1).map(|m| m.as_str().to_string()))
}

/// `globset::GlobBuilder::build` with `case_insensitive`: a glob is built, or
/// the text of `globset::Error::kind` is what is wrong with that glob. `build`
/// calls itself for each brace in a brace, so globs that are nested deeply are
/// left out.
#[verifier::external_body]
fn build_glob(glob: &str) -> (r: Result<BuiltGlob, String>)
    requires
        brace_depth(glob@) <= DEEPEST,
    ensures
        match r {
            Ok(g) => glob_fault(glob@) is None && g@ == glob@,
            Err(e) => glob_fault(glob@) == Some(e@),
        },
{
    match globset::GlobBuilder::new(glob).case_insensitive(true).build() {
        Ok(built) => Ok(BuiltGlob { glob: built, source: glob.to_string() }),
        Err(e) => Err(e.kind().to_string()),
    }
}

/// `globset::Glob::regex`: the expression that a glob stands for.
#[verifier::external_body]
fn expression_of(g: &BuiltGlob) -> (r: String)
    ensures
        r@ == glob_expression(g@),
{
    g.glob.regex().to_string()
}

/// `regex::bytes::RegexBuilder::build` with `dot_matches_new_line`: what the
/// builder says against an expression that it cannot compile.
#[verifier::external_body]
fn complain(expression: &str) -> (r: Option<String>)
    ensures
        crate::text::text_opt(r) == bytes_complaint(expression@),
{
    regex::bytes::RegexBuilder::new(expression)
        .dot_matches_new_line(true)
        .build()
        .err()
        .map(|e| e.to_string())
}

/// `globset::Glob::compile_matcher`: the glob compiled. It panics where the
/// expression of the glob nests too deeply or outgrows a limit.
/// `regex::bytes::RegexBuilder::build` refuses the same expressions with an
/// error, so globs with such an expression are left out.
#[verifier::external_body]
fn compile_glob(g: BuiltGlob) -> (r: CompiledGlob)
    requires
        bytes_complaint(glob_expression(g@)) is None,
    ensures
        r@ == g@,
{
    CompiledGlob { matcher: g.glob.compile_matcher(), source: g.source }
}

/// `globset::GlobMatcher::is_match`: whether the glob accepts the text.
#[verifier::external_body]
fn match_glob(g: &CompiledGlob, text: &str) -> (r: bool)
    ensures
        r == glob_match(g@, text@),
{
    g.matcher.is_match(text)
}

/// A glob with its outermost braces alone is not nested.
proof fn lemma_outermost(s: Seq<char>)
    ensures
        glob_state(outermost(s)) == glob_state(s),
        open_braces(outermost(s)) == if open_braces(s) == 0 {
            0nat
        } else {
            1nat
        },
        brace_depth(outermost(s)) <= 1,
    decreases s.len(),
{
    if s.len() > 0 {
        let before = s.drop_last();
        lemma_outermost(before);
        let longer = outermost(before).push(s.last());
        assert(longer.drop_last() =~= outermost(before));
        assert(longer.last() == s.last());
    }
}

fn outermost_of(glob: &str) -> (r: String)
    ensures
        r@ == outermost(glob@),
{
    let chars = crate::text::chars_of(glob);
    let mut state = GlobState::Text;
    let mut open: usize = 0;
    let mut kept: Vec<char> = Vec::new();
    let mut i: usize = 0;
    assert(glob@.take(0) =~= Seq::empty());
    assert(kept@ =~= Seq::empty());
    while i < chars.len()
        invariant
            i <= chars@.len(),
            chars@ == glob@,
            state == glob_state(glob@.take(i as int)),
            open == open_braces(glob@.take(i as int)),
            kept@ == outermost(glob@.take(i as int)),
            open <= i,
        decreases chars@.len() - i,
    {
        let c: char = chars[i];
        assert(glob@.take(i + 1).drop_last() =~= glob@.take(i as int));
        let text = match state {
            GlobState::Text => true,
            _ => false,
        };
        if !(text && (c == '{' && open >= 1 || c == '}' && open >= 2)) {
            kept.push(c);
        }
        if text && c == '{' {
            open = open + 1;
        } else if text && c == '}' && open > 0 {
            open = open - 1;
        }
        state = next_state(state, c);
        i = i + 1;
    }
    assert(glob@.take(i as int) =~= glob@);
    let end: usize = kept.len();
    assert(kept@.subrange(0, end as int) =~= kept@);
    crate::text::text_of(&kept, 0, end)
}

fn find_hollow(marks: &Vec<(char, bool)>) -> (r: Option<usize>)
    ensures
        match r {
            Some(start) => hollow_start(marks@) == Some(start as int) && start < marks@.len(),
            None => hollow_start(marks@) is None,
        },
{
    let mut n: usize = marks.len();
    assert(marks@.take(n as int) =~= marks@);
    while n > 0
        invariant
            n <= marks@.len(),
            hollow_start(marks@.take(n as int)) == hollow_start(marks@),
        decreases n,
    {
        let ghost front = marks@.take(n as int);
        let (c, marked) = marks[n - 1];
        assert(front.last() == marks@[n - 1]);
        assert(front.drop_last() =~= marks@.take(n - 1));
        if !marked {
            return None;
        }
        if c == '{' {
            return Some(n - 1);
        }
        if c == ',' {
            n = n - 1;
        } else if c == '}' && n >= 2 {
            let (d, marked_too) = marks[n - 2];
            assert(front[n - 2] == marks@[n - 2]);
            assert(front.take(n - 2) =~= marks@.take(n - 2));
            if d != '{' || !marked_too {
                return None;
            }
            n = n - 2;
        } else {
            return None;
        }
    }
    None
}

fn compact_of(glob: &str) -> (r: String)
    ensures
        r@ == without_hollow(glob@).map_values(|m: (char, bool)| m.0),
{
    let chars = crate::text::chars_of(glob);
    let mut state = GlobState::Text;
    let mut marks: Vec<(char, bool)> = Vec::new();
    let mut i: usize = 0;
    assert(glob@.take(0) =~= Seq::empty());
    assert(marks@ =~= Seq::empty());
    while i < chars.len()
        invariant
            i <= chars@.len(),
            chars@ == glob@,
            state == glob_state(glob@.take(i as int)),
            marks@ == without_hollow(glob@.take(i as int)),
        decreases chars@.len() - i,
    {
        let c: char = chars[i];
        assert(glob@.take(i + 1).drop_last() =~= glob@.take(i as int));
        assert(glob@.take(i + 1).last() == c);
        let text = match state {
            GlobState::Text => true,
            _ => false,
        };
        let marked = text && (c == '{' || c == '}' || c == ',');
        let start = if marked && c == '}' {
            find_hollow(&marks)
        } else {
            None
        };
        match start {
            Some(start) => {
                let all: usize = marks.len();
                assert(start < all);
                marks.truncate(start + 1);
                assert(marks@ =~= without_hollow(glob@.take(i as int)).take(start + 1));
                marks.push((c, true));
            },
            None => {
                marks.push((c, marked));
            },
        }
        state = next_state(state, c);
        i = i + 1;
    }
    assert(glob@.take(i as int) =~= glob@);
    let mut kept: Vec<char> = Vec::new();
    let mut k: usize = 0;
    while k < marks.len()
        invariant
            k <= marks@.len(),
            kept@ =~= marks@.take(k as int).map_values(|m: (char, bool)| m.0),
        decreases marks@.len() - k,
    {
        kept.push(marks[k].0);
        k = k + 1;
    }
    assert(marks@.take(k as int) =~= marks@);
    let end: usize = kept.len();
    assert(kept@.subrange(0, end as int) =~= kept@);
    crate::text::text_of(&kept, 0, end)
}

fn fault_of(glob: &str, fault: String) -> (r: NalaError)
    ensures
        r.message@ == fault_message(glob@, fault@),
{
    let mut message = "error parsing glob '".to_string();
    message.append(glob);
    message.append("': ");
    message.append(fault.as_str());
    NalaError::from_string(message)
}

impl Pattern {
    /// Compiles a pattern. Upper and lower case are not told apart.
    pub fn new(pattern: &str) -> (r: Result<Pattern, NalaError>)
        ensures
            match r {
                Ok(p) => regex_complaint(pattern@) is None && p@ == pattern@,
                Err(e) => regex_complaint(pattern@) == Some(e.message@),
            },
    {
        match compile_regex(pattern) {
            Ok(p) => Ok(p),
            Err(e) => Err(NalaError::from_string(e)),
        }
    }

    /// The text of the leftmost match.
    pub fn find(&self, text: &str) -> (r: Option<String>)
        ensures
            crate::text::text_opt(r) == regex_match(self@, text@),
    {
        find_regex(self, text)
    }

    /// The text of the first group in the leftmost match.
    pub fn capture(&self, text: &str) -> (r: Option<String>)
        ensures
            crate::text::text_opt(r) == regex_group(self@, text@),
    {
        capture_regex(self, text)
    }

    /// Whether the pattern matches somewhere in the text.
    pub fn is_match(&self, text: &str) -> (r: bool)
        ensures
            r == (regex_match(self@, text@) is Some),
    {
        find_regex(self, text).is_some()
    }
}

impl GlobPattern {
    /// Compiles a glob. Upper and lower case are not told apart.
    pub fn new(glob: &str) -> (r: Result<GlobPattern, NalaError>)
        ensures
            match r {
                Ok(g) => glob_error(glob@) is None && g@ == glob@,
                Err(e) => glob_error(glob@) == Some(e.message@),
            },
    {
        let short = if depth_of(glob) <= DEEPEST {
            glob.to_string()
        } else {
            proof {
                lemma_outermost(glob@);
            }
            if let Err(fault) = build_glob(outermost_of(glob).as_str()) {
                return Err(fault_of(glob, fault));
            }
            compact_of(glob)
        };
        if depth_of(short.as_str()) > DEEPEST {
            return Err(NalaError::new("The braces of the glob are nested too deeply"));
        }
        let built = match build_glob(short.as_str()) {
            Ok(built) => built,
            Err(fault) => {
                return Err(fault_of(glob, fault));
            },
        };
        match complain(expression_of(&built).as_str()) {
            Some(e) => Err(NalaError::from_string(e)),
            None => Ok(GlobPattern { compiled: compile_glob(built), source: glob.to_string() }),
        }
    }

    /// Whether the glob accepts the whole text.
    pub fn is_match(&self, text: &str) -> (r: bool)
        ensures
            r == glob_accepts(self@, text@),
    {
        proof {
            use_type_invariant(self);
        }
        match_glob(&self.compiled, text)
    }
}

/// A glob whose braces are not nested deeply is compiled as it stands: exactly if
/// nothing is wrong with it and nothing is said against its expression.
pub proof fn law_ordinary_glob(
    glob: &str,
    r: Result<GlobPattern, NalaError>,
    text: &str,
    accepts: bool,
)
    requires
        brace_depth(glob@) <= 500,
        call_ensures(GlobPattern::new, (glob,), r),
        r is Ok ==> call_ensures(GlobPattern::is_match, (&r->Ok_0, text), accepts),
    ensures
        r is Ok <==> glob_fault(glob@) is None && bytes_complaint(glob_expression(glob@)) is None,
        r is Ok ==> accepts == glob_match(glob@, text@),
        r is Err && glob_fault(glob@) is Some ==> r->Err_0.message@ == "error parsing glob '"@
            + glob@ + "': "@ + glob_fault(glob@)->0,
{
}

/// The depth of a glob is the largest number of braces that are open at once.
pub proof fn law_depth(s: Seq<char>)
    ensures
        forall|i: int| 0 <= i <= s.len() ==> open_braces(#[trigger] s.take(i)) <= brace_depth(s),
        exists|i: int| 0 <= i <= s.len() && open_braces(#[trigger] s.take(i)) == brace_depth(s),
    decreases s.len(),
{
    assert(s.take(s.len() as int) =~= s);
    if s.len() == 0 {
        assert(open_braces(s.take(0)) == brace_depth(s));
    } else {
        let front = s.drop_last();
        law_depth(front);
        assert forall|i: int| 0 <= i <= s.len() implies open_braces(#[trigger] s.take(i))
            <= brace_depth(s) by {
            if i < s.len() {
                assert(front.take(i) =~= s.take(i));
            }
        }
        if open_braces(s) > brace_depth(front) {
            assert(open_braces(s.take(s.len() as int)) == brace_depth(s));
        } else {
            let i = choose|i: int|
                0 <= i <= front.len() && open_braces(#[trigger] front.take(i)) == brace_depth(
                    front,
                );
            assert(front.take(i) =~= s.take(i));
            assert(open_braces(s.take(i)) == brace_depth(s));
        }
    }
}

/// The characters that are no marks of alternatives.
pub open spec fn plain_chars(marks: Seq<(char, bool)>) -> Seq<char>
    decreases marks.len(),
{
    if marks.len() == 0 {
        Seq::empty()
    } else if marks.last().1 {
        plain_chars(marks.drop_last())
    } else {
        plain_chars(marks.drop_last()).push(marks.last().0)
    }
}

proof fn lemma_hollow_is_plain(marks: Seq<(char, bool)>)
    ensures
        hollow_start(marks) matches Some(start) ==> 0 <= start < marks.len() && plain_chars(marks)
            == plain_chars(marks.take(start + 1)) && marks[start] == ('{', true),
    decreases marks.len(),
{
    let n = marks.len() as int;
    if n > 0 {
        let front = marks.drop_last();
        if marks.last() == (',', true) {
            lemma_hollow_is_plain(front);
            if hollow_start(front) is Some {
                let start = hollow_start(front)->0;
                assert(front.take(start + 1) =~= marks.take(start + 1));
                assert(front[start] == marks[start]);
            }
        } else if marks.last() == ('{', true) {
            assert(marks.take(n) =~= marks);
        } else if marks.last() == ('}', true) && n >= 2 && marks[n - 2] == ('{', true) {
            let rest = marks.take(n - 2);
            assert(front.drop_last() =~= rest);
            assert(front.last() == marks[n - 2]);
            assert(plain_chars(front) == plain_chars(rest));
            assert(plain_chars(marks) == plain_chars(front));
            lemma_hollow_is_plain(rest);
            if hollow_start(rest) is Some {
                let start = hollow_start(rest)->0;
                assert(rest.take(start + 1) =~= marks.take(start + 1));
                assert(rest[start] == marks[start]);
            }
        }
    }
}

/// The characters of a glob that are escaped, in a class or no marks of
/// alternatives.
pub open spec fn literal_chars(s: Seq<char>) -> Seq<char>
    decreases s.len(),
{
    if s.len() == 0 {
        Seq::empty()
    } else if glob_state(s.drop_last()) == GlobState::Text && (s.last() == '{' || s.last() == '}'
        || s.last() == ',') {
        literal_chars(s.drop_last())
    } else {
        literal_chars(s.drop_last()).push(s.last())
    }
}

/// Making hollow braces empty loses nothing but marks of alternatives.
pub proof fn law_compaction_keeps_the_text(s: Seq<char>)
    ensures
        plain_chars(without_hollow(s)) == literal_chars(s),
    decreases s.len(),
{
    if s.len() > 0 {
        law_compaction_keeps_the_text(s.drop_last());
        let before = without_hollow(s.drop_last());
        let marked = glob_state(s.drop_last()) == GlobState::Text && is_brace_mark(s.last());
        lemma_hollow_is_plain(before);
        let pushed = before.push((s.last(), marked));
        assert(pushed.drop_last() =~= before);
        match hollow_start(before) {
            Some(start) if marked && s.last() == '}' => {
                let short = before.take(start + 1).push(('}', true));
                assert(short.drop_last() =~= before.take(start + 1));
            },
            _ => {},
        }
    }
}

/// A pair of braces that holds nothing but empty pairs and commas becomes an empty
/// pair.
pub proof fn law_hollow_braces_become_empty(s: Seq<char>)
    requires
        s.len() > 0,
        glob_state(s.drop_last()) == GlobState::Text,
        s.last() == '}',
        hollow_start(without_hollow(s.drop_last())) is Some,
    ensures
        ({
            let after = without_hollow(s);
            &&& after.len() >= 2
            &&& after.last() == ('}', true)
            &&& after[after.len() - 2] == ('{', true)
        }),
{
    lemma_hollow_is_plain(without_hollow(s.drop_last()));
}

/// A brace behind a backslash or in a class does not count, and a class goes on
/// until a bracket behind its first character closes it.
pub proof fn law_hidden_braces(s: Seq<char>, c: char)
    requires
        glob_state(s) == GlobState::Text,
    ensures
        open_braces(s.push('{')) == open_braces(s) + 1,
        open_braces(s.push('\\').push(c)) == open_braces(s),
        glob_state(s.push('\\').push(c)) == GlobState::Text,
        open_braces(s.push('[').push(c)) == open_braces(s),
        glob_state(s.push('[').push(c)) != GlobState::Text,
        c != '!' && c != '^' ==> glob_state(s.push('[').push(c).push(']')) == GlobState::Text,
        glob_state(s.push('[').push('!').push(c).push(']')) == GlobState::Text,
        c != '\\' && c != '[' ==> glob_state(s.push(c)) == GlobState::Text,
{
    let escaped = s.push('\\');
    let opened = s.push('[');
    let negated = opened.push('!');
    assert(s.push('{').drop_last() =~= s);
    assert(s.push(c).drop_last() =~= s);
    assert(escaped.drop_last() =~= s);
    assert(escaped.push(c).drop_last() =~= escaped);
    assert(opened.drop_last() =~= s);
    assert(opened.push(c).drop_last() =~= opened);
    assert(opened.push(c).push(']').drop_last() =~= opened.push(c));
    assert(negated.drop_last() =~= opened);
    assert(negated.push(c).drop_last() =~= negated);
    assert(negated.push(c).push(']').drop_last() =~= negated.push(c));
    assert(glob_state(escaped) == GlobState::Escaped);
    assert(open_braces(escaped) == open_braces(s));
    assert(glob_state(opened) == GlobState::Opened);
    assert(open_braces(opened) == open_braces(s));
    assert(glob_state(negated) == GlobState::Negated);
    assert(glob_state(negated.push(c)) == GlobState::Class);
}

/// Commas and empty pairs of braces do not fill the braces around them, and any
/// other character does.
pub proof fn law_what_fills_braces(marks: Seq<(char, bool)>, c: char)
    ensures
        hollow_start(marks.push(('{', true))) == Some(marks.len() as int),
        hollow_start(marks.push((',', true))) == hollow_start(marks),
        hollow_start(marks.push(('{', true)).push(('}', true))) == hollow_start(marks),
        hollow_start(marks.push((c, false))) is None,
{
    let open = marks.push(('{', true));
    let pair = open.push(('}', true));
    assert(open.drop_last() =~= marks);
    assert(marks.push((',', true)).drop_last() =~= marks);
    assert(pair.take(pair.len() - 2) =~= marks);
    assert(pair[pair.len() - 2] == ('{', true));
}

} // verus!

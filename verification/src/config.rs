//! The configuration: flags, values, themes and the paths that apt knows.
use std::collections::HashMap;
use vstd::hash_map::StringHashMap;
use vstd::prelude::*;
use crate::cli::Commands;
use crate::tui::progress::UnitStr;

verus! {

broadcast use vstd::std_specs::hash::group_hash_axioms;

/// A file or directory that the program works with.
#[derive(Debug, Clone, Copy, PartialEq, Eq, Structural)]
pub enum Paths {
    /// The directory that holds packages, `/var/cache/apt/archives/`.
    Archive,
    /// The directory that holds package lists, `/var/lib/apt/lists/`.
    Lists,
    /// The main source list, `/etc/apt/sources.list`.
    SourceList,
    /// The directory of source parts, `/etc/apt/sources.list.d/`.
    SourceParts,
    /// The sources file that the fetch command generates.
    NalaSources,
}

impl Paths {
    /// The key of the path in apt's configuration, or the path itself where
    /// apt has no key for it.
    pub open spec fn key(self) -> Seq<char> {
        match self {
            Paths::Archive => "Dir::Cache::Archives"@,
            Paths::Lists => "Dir::State::Lists"@,
            Paths::SourceList => "Dir::Etc::sourcelist"@,
            Paths::SourceParts => "Dir::Etc::sourceparts"@,
            Paths::NalaSources => "/etc/apt/sources.list.d/nala-sources.list"@,
        }
    }

    /// Where the path leads when the configuration is silent.
    pub open spec fn fallback(self) -> Seq<char> {
        match self {
            Paths::Archive => "/var/cache/apt/archives/"@,
            Paths::Lists => "/var/lib/apt/lists/"@,
            Paths::SourceList => "/etc/apt/sources.list"@,
            Paths::SourceParts => "/etc/apt/sources.list.d/"@,
            Paths::NalaSources => "/etc/apt/sources.list.d/nala-sources.list"@,
        }
    }

    /// The key of the path.
    pub fn path(&self) -> (r: &'static str)
        ensures
            r@ == self.key(),
    {
        match self {
            Paths::Archive => "Dir::Cache::Archives",
            Paths::Lists => "Dir::State::Lists",
            Paths::SourceList => "Dir::Etc::sourcelist",
            Paths::SourceParts => "Dir::Etc::sourceparts",
            Paths::NalaSources => "/etc/apt/sources.list.d/nala-sources.list",
        }
    }

    /// Where the path leads by default.
    pub fn default_path(&self) -> (r: &'static str)
        ensures
            r@ == self.fallback(),
    {
        match self {
            Paths::Archive => "/var/cache/apt/archives/",
            Paths::Lists => "/var/lib/apt/lists/",
            Paths::SourceList => "/etc/apt/sources.list",
            Paths::SourceParts => "/etc/apt/sources.list.d/",
            Paths::NalaSources => "/etc/apt/sources.list.d/nala-sources.list",
        }
    }
}

/// When to do something.
#[derive(Debug, Clone, Copy, PartialEq, Eq, Structural)]
pub enum Switch {
    Always,
    Never,
    Auto,
}

impl Default for Switch {
    fn default() -> (r: Switch)
        ensures
            r == Switch::Auto,
    {
        Switch::Auto
    }
}

/// A value of the configuration file.
#[derive(Debug)]
pub enum OptType {
    Bool(bool),
    Int(u8),
    Int64(u64),
    Switch(Switch),
    UnitStr(UnitStr),
    String(String),
    VecString(Vec<String>),
}

/// What a piece of output is for. Each theme has a style of its own.
#[derive(Debug, Clone, Copy, PartialEq, Eq, Structural)]
pub enum Theme {
    Primary,
    Secondary,
    Regular,
    Highlight,
    ProgressFilled,
    ProgressUnfilled,
    Notice,
    Warning,
    Error,
}

impl Theme {
    /// The place of the theme among all of them.
    pub open spec fn number(self) -> u8 {
        match self {
            Theme::Primary => 0,
            Theme::Secondary => 1,
            Theme::Regular => 2,
            Theme::Highlight => 3,
            Theme::ProgressFilled => 4,
            Theme::ProgressUnfilled => 5,
            Theme::Notice => 6,
            Theme::Warning => 7,
            Theme::Error => 8,
        }
    }

    fn index(&self) -> (r: u8)
        ensures
            r == self.number(),
    {
        match self {
            Theme::Primary => 0,
            Theme::Secondary => 1,
            Theme::Regular => 2,
            Theme::Highlight => 3,
            Theme::ProgressFilled => 4,
            Theme::ProgressUnfilled => 5,
            Theme::Notice => 6,
            Theme::Warning => 7,
            Theme::Error => 8,
        }
    }
}

/// A style, as the escape sequence that turns it on.
#[derive(Debug, PartialEq, Eq)]
pub struct Style {
    pub prefix: String,
}

impl Clone for Style {
    fn clone(&self) -> (r: Self)
        ensures
            r == *self,
    {
        Style { prefix: self.prefix.clone() }
    }
}

/// A style for each theme.
#[derive(Debug)]
pub struct StyleSheet {
    pub primary: Style,
    pub secondary: Style,
    pub regular: Style,
    pub highlight: Style,
    pub progress_filled: Style,
    pub progress_unfilled: Style,
    pub notice: Style,
    pub warning: Style,
    pub error: Style,
}

impl StyleSheet {
    /// The style of a theme.
    pub open spec fn of(self, theme: Theme) -> Style {
        match theme {
            Theme::Primary => self.primary,
            Theme::Secondary => self.secondary,
            Theme::Regular => self.regular,
            Theme::Highlight => self.highlight,
            Theme::ProgressFilled => self.progress_filled,
            Theme::ProgressUnfilled => self.progress_unfilled,
            Theme::Notice => self.notice,
            Theme::Warning => self.warning,
            Theme::Error => self.error,
        }
    }

    /// The style of a theme.
    pub fn default_style(&self, theme: Theme) -> (r: Style)
        ensures
            r == self.of(theme),
    {
        match theme {
            Theme::Primary => self.primary.clone(),
            Theme::Secondary => self.secondary.clone(),
            Theme::Regular => self.regular.clone(),
            Theme::Highlight => self.highlight.clone(),
            Theme::ProgressFilled => self.progress_filled.clone(),
            Theme::ProgressUnfilled => self.progress_unfilled.clone(),
            Theme::Notice => self.notice.clone(),
            Theme::Warning => self.warning.clone(),
            Theme::Error => self.error.clone(),
        }
    }
}

/// What the program reads of apt's configuration.
pub struct AptConfig {
    pub files: StringHashMap<String>,
    pub dirs: StringHashMap<String>,
    pub bools: StringHashMap<bool>,
    pub ints: StringHashMap<i32>,
    pub vectors: StringHashMap<Vec<String>>,
    /// The architectures of the system, its own first.
    pub architectures: Vec<String>,
}

/// The text under a key, or the default.
pub open spec fn text_or(m: Map<Seq<char>, String>, key: Seq<char>, default: Seq<char>) -> Seq<
    char,
> {
    if m.dom().contains(key) {
        m[key]@
    } else {
        default
    }
}

/// The value under a key, or the default.
pub open spec fn value_or<V>(m: Map<Seq<char>, V>, key: Seq<char>, default: V) -> V {
    if m.dom().contains(key) {
        m[key]
    } else {
        default
    }
}

impl AptConfig {
    /// A configuration that sets nothing.
    pub fn new(architectures: Vec<String>) -> (r: Self)
        ensures
            r.files@ == Map::<Seq<char>, String>::empty(),
            r.dirs@ == Map::<Seq<char>, String>::empty(),
            r.bools@ == Map::<Seq<char>, bool>::empty(),
            r.ints@ == Map::<Seq<char>, i32>::empty(),
            r.vectors@ == Map::<Seq<char>, Vec<String>>::empty(),
            r.architectures == architectures,
    {
        AptConfig {
            files: StringHashMap::new(),
            dirs: StringHashMap::new(),
            bools: StringHashMap::new(),
            ints: StringHashMap::new(),
            vectors: StringHashMap::new(),
            architectures,
        }
    }

    /// Records the file that a key leads to.
    pub fn set_file(&mut self, key: String, value: String)
        ensures
            final(self).files@ == old(self).files@.insert(key@, value),
            final(self).dirs@ == old(self).dirs@,
            final(self).bools@ == old(self).bools@,
            final(self).ints@ == old(self).ints@,
            final(self).vectors@ == old(self).vectors@,
            final(self).architectures == old(self).architectures,
    {
        self.files.insert(key, value);
    }

    /// Records the directory that a key leads to.
    pub fn set_dir(&mut self, key: String, value: String)
        ensures
            final(self).dirs@ == old(self).dirs@.insert(key@, value),
            final(self).files@ == old(self).files@,
            final(self).bools@ == old(self).bools@,
            final(self).ints@ == old(self).ints@,
            final(self).vectors@ == old(self).vectors@,
            final(self).architectures == old(self).architectures,
    {
        self.dirs.insert(key, value);
    }

    /// Records a flag.
    pub fn set_bool(&mut self, key: String, value: bool)
        ensures
            final(self).bools@ == old(self).bools@.insert(key@, value),
            final(self).files@ == old(self).files@,
            final(self).dirs@ == old(self).dirs@,
            final(self).ints@ == old(self).ints@,
            final(self).vectors@ == old(self).vectors@,
            final(self).architectures == old(self).architectures,
    {
        self.bools.insert(key, value);
    }

    /// Records a number.
    pub fn set_int(&mut self, key: String, value: i32)
        ensures
            final(self).ints@ == old(self).ints@.insert(key@, value),
            final(self).files@ == old(self).files@,
            final(self).dirs@ == old(self).dirs@,
            final(self).bools@ == old(self).bools@,
            final(self).vectors@ == old(self).vectors@,
            final(self).architectures == old(self).architectures,
    {
        self.ints.insert(key, value);
    }

    /// Records a list.
    pub fn set_vector(&mut self, key: String, value: Vec<String>)
        ensures
            final(self).vectors@ == old(self).vectors@.insert(key@, value),
            final(self).files@ == old(self).files@,
            final(self).dirs@ == old(self).dirs@,
            final(self).bools@ == old(self).bools@,
            final(self).ints@ == old(self).ints@,
            final(self).architectures == old(self).architectures,
    {
        self.vectors.insert(key, value);
    }

    /// The file that a key leads to.
    pub fn file(&self, key: &str, default: &str) -> (r: String)
        ensures
            r@ == text_or(self.files@, key@, default@),
    {
        match self.files.get(key) {
            Some(s) => s.clone(),
            None => default.to_owned(),
        }
    }

    /// The directory that a key leads to.
    pub fn dir(&self, key: &str, default: &str) -> (r: String)
        ensures
            r@ == text_or(self.dirs@, key@, default@),
    {
        match self.dirs.get(key) {
            Some(s) => s.clone(),
            None => default.to_owned(),
        }
    }

    /// The flag under a key.
    pub fn bool(&self, key: &str, default: bool) -> (r: bool)
        ensures
            r == value_or(self.bools@, key@, default),
    {
        match self.bools.get(key) {
            Some(b) => *b,
            None => default,
        }
    }

    /// The number under a key.
    pub fn number(&self, key: &str, default: i32) -> (r: i32)
        ensures
            r == value_or(self.ints@, key@, default),
    {
        match self.ints.get(key) {
            Some(n) => *n,
            None => default,
        }
    }

    /// The list under a key, empty where there is none.
    pub fn find_vector(&self, key: &str) -> (r: Vec<String>)
        ensures
            r@ == if self.vectors@.dom().contains(key@) {
                self.vectors@[key@]@
            } else {
                Seq::empty()
            },
    {
        match self.vectors.get(key) {
            Some(v) => {
                let r = v.clone();
                assert(r@ =~= v@);
                r
            },
            None => Vec::new(),
        }
    }
}

/// The configuration file, read but not yet applied.
#[derive(Debug)]
pub struct ConfigFile {
    pub flags: Vec<(String, bool)>,
    pub values: Vec<(String, Vec<String>)>,
    pub styles: Vec<(Theme, Style)>,
}

/// An argument of the command line.
#[derive(Debug)]
pub struct CliArg {
    pub key: String,
    /// The argument was given, not defaulted.
    pub given: bool,
    /// Its value, where it is a flag.
    pub flag: Option<bool>,
    /// Its values, where it takes strings.
    pub values: Option<Vec<String>>,
}

/// The configuration.
pub struct Config {
    pub nala_map: StringHashMap<bool>,
    pub vec_map: StringHashMap<Vec<String>>,
    pub theme: HashMap<u8, Style>,
    pub can_color: Switch,
    pub apt: AptConfig,
    pub auto: Option<u8>,
    /// The command that is being run.
    pub command: String,
}

/// The flags after the entries have been put in, one after the other.
pub open spec fn with_flags(m: Map<Seq<char>, bool>, entries: Seq<(String, bool)>) -> Map<
    Seq<char>,
    bool,
>
    decreases entries.len(),
{
    if entries.len() == 0 {
        m
    } else {
        with_flags(m, entries.drop_last()).insert(entries.last().0@, entries.last().1)
    }
}

/// The values after the entries have been put in, one after the other.
pub open spec fn with_values(
    m: Map<Seq<char>, Vec<String>>,
    entries: Seq<(String, Vec<String>)>,
) -> Map<Seq<char>, Vec<String>>
    decreases entries.len(),
{
    if entries.len() == 0 {
        m
    } else {
        with_values(m, entries.drop_last()).insert(entries.last().0@, entries.last().1)
    }
}

/// The styles after the entries have been put in, one after the other.
pub open spec fn with_styles(m: Map<u8, Style>, entries: Seq<(Theme, Style)>) -> Map<u8, Style>
    decreases entries.len(),
{
    if entries.len() == 0 {
        m
    } else {
        with_styles(m, entries.drop_last()).insert(entries.last().0.number(), entries.last().1)
    }
}

/// An argument sets a flag: it was given and has a truth value.
pub open spec fn sets_flag(arg: CliArg) -> bool {
    arg.given && arg.flag is Some
}

/// An argument sets a list: it was given, has no truth value and has strings.
pub open spec fn sets_values(arg: CliArg) -> bool {
    arg.given && arg.flag is None && arg.values is Some
}

/// The flags after the arguments have been read, one after the other.
pub open spec fn flags_after(m: Map<Seq<char>, bool>, args: Seq<CliArg>) -> Map<Seq<char>, bool>
    decreases args.len(),
{
    if args.len() == 0 {
        m
    } else {
        let before = flags_after(m, args.drop_last());
        if sets_flag(args.last()) {
            before.insert(args.last().key@, args.last().flag->0)
        } else {
            before
        }
    }
}

/// The values after the arguments have been read, one after the other.
pub open spec fn values_after(m: Map<Seq<char>, Vec<String>>, args: Seq<CliArg>) -> Map<
    Seq<char>,
    Vec<String>,
>
    decreases args.len(),
{
    if args.len() == 0 {
        m
    } else {
        let before = values_after(m, args.drop_last());
        if sets_values(args.last()) {
            before.insert(args.last().key@, args.last().values->0)
        } else {
            before
        }
    }
}

/// A text in the style of a theme. It stays plain where colour is off or the
/// theme has no style.
pub open spec fn colored(config: Config, theme: Theme, s: Seq<char>) -> Seq<char> {
    if config.can_color != Switch::Never && config.theme@.dom().contains(theme.number()) {
        config.theme@[theme.number()].prefix@ + s + "\x1b[0m"@
    } else {
        s
    }
}

/// A version in parentheses, in the styles for it.
pub open spec fn colored_ver(config: Config, s: Seq<char>) -> Seq<char> {
    colored(config, Theme::Highlight, "("@) + colored(config, Theme::Secondary, s) + colored(
        config,
        Theme::Highlight,
        ")"@,
    )
}

/// The word that opens a message on the error stream.
pub open spec fn stderr_header(theme: Theme) -> Seq<char> {
    match theme {
        Theme::Error => "Error:"@,
        Theme::Warning => "Warning:"@,
        _ => "Notice:"@,
    }
}

/// A flag of the configuration.
pub open spec fn flag(config: Config, key: Seq<char>, default: bool) -> bool {
    value_or(config.nala_map@, key, default)
}

/// The theme with a number.
pub open spec fn theme_of(n: u8) -> Theme {
    if n == 0 {
        Theme::Primary
    } else if n == 1 {
        Theme::Secondary
    } else if n == 2 {
        Theme::Regular
    } else if n == 3 {
        Theme::Highlight
    } else if n == 4 {
        Theme::ProgressFilled
    } else if n == 5 {
        Theme::ProgressUnfilled
    } else if n == 6 {
        Theme::Notice
    } else if n == 7 {
        Theme::Warning
    } else {
        Theme::Error
    }
}

/// The styles, with those of the sheet for the themes numbered below `n` that
/// had none.
pub open spec fn completed_to(m: Map<u8, Style>, sheet: StyleSheet, n: int) -> Map<u8, Style> {
    Map::new(
        |k: u8| m.dom().contains(k) || k < n,
        |k: u8|
            if m.dom().contains(k) {
                m[k]
            } else {
                sheet.of(theme_of(k))
            },
    )
}

/// The styles, with those of the sheet for the themes that had none.
pub open spec fn completed(m: Map<u8, Style>, sheet: StyleSheet) -> Map<u8, Style> {
    completed_to(m, sheet, 9)
}

fn theme_numbered(n: u8) -> (r: Theme)
    requires
        n < 9,
    ensures
        r == theme_of(n),
        r.number() == n,
{
    if n == 0 {
        Theme::Primary
    } else if n == 1 {
        Theme::Secondary
    } else if n == 2 {
        Theme::Regular
    } else if n == 3 {
        Theme::Highlight
    } else if n == 4 {
        Theme::ProgressFilled
    } else if n == 5 {
        Theme::ProgressUnfilled
    } else if n == 6 {
        Theme::Notice
    } else if n == 7 {
        Theme::Warning
    } else {
        Theme::Error
    }
}

impl Config {
    /// The configuration of a file, completed with the default styles.
    pub fn new(file: ConfigFile, apt: AptConfig, sheet: &StyleSheet) -> (r: Config)
        ensures
            r.nala_map@ == with_flags(Map::empty(), file.flags@),
            r.vec_map@ == with_values(Map::empty(), file.values@),
            r.theme@ == completed(with_styles(Map::empty(), file.styles@), *sheet),
            r.can_color == Switch::Auto,
            r.apt == apt,
            r.auto is None,
            r.command@ == Seq::<char>::empty(),
    {
        let mut nala_map: StringHashMap<bool> = StringHashMap::new();
        let mut flags = file.flags;
        let mut i: usize = 0;
        assert(flags@.take(0) =~= Seq::empty());
        while i < flags.len()
            invariant
                i <= flags@.len(),
                nala_map@ == with_flags(Map::empty(), flags@.take(i as int)),
            decreases flags@.len() - i,
        {
            nala_map.insert(flags[i].0.clone(), flags[i].1);
            assert(flags@.take(i + 1).drop_last() =~= flags@.take(i as int));
            i = i + 1;
        }
        assert(flags@.take(flags@.len() as int) =~= flags@);
        let mut vec_map: StringHashMap<Vec<String>> = StringHashMap::new();
        let ghost all_values = file.values@;
        assert(all_values.take(0) =~= Seq::empty());
        for entry in it: file.values
            invariant
                it.seq() == all_values,
                vec_map@ == with_values(Map::empty(), all_values.take(it.index() as int)),
        {
            assert(all_values.take(it.index() + 1).drop_last() =~= all_values.take(
                it.index() as int,
            ));
            let (key, values) = entry;
            vec_map.insert(key, values);
        }
        assert(all_values.take(all_values.len() as int) =~= all_values);
        let mut theme: HashMap<u8, Style> = HashMap::new();
        let styles = file.styles;
        let mut j: usize = 0;
        assert(styles@.take(0) =~= Seq::empty());
        while j < styles.len()
            invariant
                j <= styles@.len(),
                theme@ == with_styles(Map::empty(), styles@.take(j as int)),
            decreases styles@.len() - j,
        {
            theme.insert(styles[j].0.index(), styles[j].1.clone());
            assert(styles@.take(j + 1).drop_last() =~= styles@.take(j as int));
            j = j + 1;
        }
        assert(styles@.take(styles@.len() as int) =~= styles@);
        let mut r = Config {
            nala_map,
            vec_map,
            theme,
            can_color: Switch::Auto,
            apt,
            auto: None,
            command: String::new(),
        };
        r.set_default_theme(sheet);
        r
    }

    /// The configuration when there is no file.
    pub fn with_defaults(apt: AptConfig, sheet: &StyleSheet) -> (r: Config)
        ensures
            r.nala_map@ == Map::<Seq<char>, bool>::empty(),
            r.vec_map@ == Map::<Seq<char>, Vec<String>>::empty(),
            r.theme@ == completed(Map::empty(), *sheet),
            r.can_color == Switch::Auto,
            r.apt == apt,
            r.auto is None,
            r.command@ == "Command Not Given Yet"@,
    {
        let mut r = Config {
            nala_map: StringHashMap::new(),
            vec_map: StringHashMap::new(),
            theme: HashMap::new(),
            can_color: Switch::Auto,
            apt,
            auto: None,
            command: "Command Not Given Yet".to_owned(),
        };
        r.set_default_theme(sheet);
        r
    }

    /// Gives each theme that has no style the one of the sheet.
    pub fn set_default_theme(&mut self, sheet: &StyleSheet)
        ensures
            final(self).theme@ == completed(old(self).theme@, *sheet),
            final(self).nala_map == old(self).nala_map,
            final(self).vec_map == old(self).vec_map,
            final(self).can_color == old(self).can_color,
            final(self).apt == old(self).apt,
            final(self).auto == old(self).auto,
            final(self).command == old(self).command,
    {
        let ghost before = self.theme@;
        let mut n: u8 = 0;
        assert(completed_to(before, *sheet, 0) =~= before);
        while n < 9
            invariant
                n <= 9,
                before == old(self).theme@,
                self.theme@ == completed_to(before, *sheet, n as int),
                self.nala_map == old(self).nala_map,
                self.vec_map == old(self).vec_map,
                self.can_color == old(self).can_color,
                self.apt == old(self).apt,
                self.auto == old(self).auto,
                self.command == old(self).command,
            decreases 9 - n,
        {
            let theme = theme_numbered(n);
            if !self.theme.contains_key(&n) {
                self.theme.insert(n, sheet.default_style(theme));
            }
            assert(self.theme@ =~= completed_to(before, *sheet, n + 1));
            n = n + 1;
        }
    }

    /// The style of a theme, where it has one.
    pub fn rat_style(&self, theme: Theme) -> (r: Option<&Style>)
        ensures
            r == if self.theme@.dom().contains(theme.number()) {
                Some(&self.theme@[theme.number()])
            } else {
                None
            },
    {
        self.theme.get(&theme.index())
    }

    /// A text in the style of a theme.
    pub fn color(&self, theme: Theme, string: &str) -> (r: String)
        ensures
            r@ == colored(*self, theme, string@),
    {
        if self.can_color != Switch::Never {
            if let Some(style) = self.theme.get(&theme.index()) {
                let mut r = style.prefix.clone();
                r.append(string);
                r.append("\x1b[0m");
                return r;
            }
        }
        string.to_owned()
    }

    /// A text in the highlight style.
    pub fn highlight(&self, string: &str) -> (r: String)
        ensures
            r@ == colored(*self, Theme::Highlight, string@),
    {
        self.color(Theme::Highlight, string)
    }

    /// A version in parentheses, in the styles for it.
    pub fn color_ver(&self, string: &str) -> (r: String)
        ensures
            r@ == colored_ver(*self, string@),
    {
        let mut r = self.highlight("(");
        r.append(self.color(Theme::Secondary, string).as_str());
        r.append(self.highlight(")").as_str());
        r
    }

    /// The line that tells the user of an error, a warning or a notice.
    pub fn stderr(&self, theme: Theme, string: &str) -> (r: String)
        requires
            theme == Theme::Error || theme == Theme::Warning || theme == Theme::Notice,
        ensures
            r@ == colored(*self, theme, stderr_header(theme)) + " "@ + string@,
    {
        let header = match theme {
            Theme::Error => "Error:",
            Theme::Warning => "Warning:",
            _ => "Notice:",
        };
        let mut r = self.color(theme, header);
        r.append(" ");
        r.append(string);
        r
    }

    /// Takes over what was given on the command line.
    pub fn load_args(&mut self, args: Vec<CliArg>, commands: &Option<Commands>)
        ensures
            final(self).nala_map@ == flags_after(old(self).nala_map@, args@),
            final(self).vec_map@ == values_after(old(self).vec_map@, args@),
            final(self).auto == match *commands {
                Some(Commands::Fetch(opts)) => opts.auto,
                _ => old(self).auto,
            },
            final(self).theme == old(self).theme,
            final(self).can_color == old(self).can_color,
            final(self).apt == old(self).apt,
            final(self).command == old(self).command,
    {
        if let Some(Commands::Fetch(opts)) = commands {
            self.auto = opts.auto;
        }
        let ghost all = args@;
        let ghost auto = self.auto;
        assert(all.take(0) =~= Seq::empty());
        for arg in it: args
            invariant
                it.seq() == all,
                self.nala_map@ == flags_after(old(self).nala_map@, all.take(it.index() as int)),
                self.vec_map@ == values_after(old(self).vec_map@, all.take(it.index() as int)),
                self.auto == auto,
                self.theme == old(self).theme,
                self.can_color == old(self).can_color,
                self.apt == old(self).apt,
                self.command == old(self).command,
        {
            assert(all.take(it.index() + 1).drop_last() =~= all.take(it.index() as int));
            if arg.given {
                match arg.flag {
                    Some(value) => {
                        self.nala_map.insert(arg.key, value);
                    },
                    None => {
                        if let Some(values) = arg.values {
                            self.vec_map.insert(arg.key, values);
                        }
                    },
                }
            }
        }
        assert(all.take(all.len() as int) =~= all);
    }

    /// A flag of the configuration.
    pub fn get_bool(&self, key: &str, default: bool) -> (r: bool)
        ensures
            r == flag(*self, key@, default),
    {
        match self.nala_map.get(key) {
            Some(b) => *b,
            None => default,
        }
    }

    /// A flag that can be switched off: its opposite, under the key with `no_`
    /// before it, takes precedence.
    pub fn get_no_bool(&self, key: &str, default: bool) -> (r: bool)
        ensures
            r == (!flag(*self, "no_"@ + key@, false) && flag(*self, key@, default)),
    {
        let mut opposite = "no_".to_owned();
        opposite.append(key);
        !self.get_bool(opposite.as_str(), false) && self.get_bool(key, default)
    }

    /// The first of the values under a key.
    pub fn get_str(&self, key: &str) -> (r: Option<&str>)
        ensures
            match r {
                Some(s) => self.vec_map@.dom().contains(key@) && self.vec_map@[key@]@.len() > 0
                    && s@ == self.vec_map@[key@]@[0]@,
                None => !self.vec_map@.dom().contains(key@) || self.vec_map@[key@]@.len() == 0,
            },
    {
        match self.vec_map.get(key) {
            Some(v) => if v.len() > 0 {
                Some(v[0].as_str())
            } else {
                None
            },
            None => None,
        }
    }

    /// The file that a path leads to.
    pub fn get_file(&self, file: &Paths) -> (r: String)
        ensures
            r@ == if *file == Paths::NalaSources {
                file.key()
            } else {
                text_or(self.apt.files@, file.key(), file.fallback())
            },
    {
        match file {
            Paths::NalaSources => file.path().to_owned(),
            _ => self.apt.file(file.path(), file.default_path()),
        }
    }

    /// The directory that a path leads to.
    pub fn get_path(&self, dir: &Paths) -> (r: String)
        ensures
            r@ == path_of(*self, *dir),
    {
        match dir {
            Paths::NalaSources => dir.path().to_owned(),
            _ => self.apt.dir(dir.path(), dir.default_path()),
        }
    }

    /// The package names that were passed as arguments.
    pub fn pkg_names(&self) -> (r: Option<&Vec<String>>)
        ensures
            r == if self.vec_map@.dom().contains("pkg_names"@) {
                Some(&self.vec_map@["pkg_names"@])
            } else {
                None
            },
    {
        self.vec_map.get("pkg_names")
    }

    /// The countries that were passed as arguments.
    pub fn countries(&self) -> (r: Option<&Vec<String>>)
        ensures
            r == if self.vec_map@.dom().contains("countries"@) {
                Some(&self.vec_map@["countries"@])
            } else {
                None
            },
    {
        self.vec_map.get("countries")
    }

    /// Whether debug is enabled.
    pub fn debug(&self) -> (r: bool)
        ensures
            r == flag(*self, "debug"@, false),
    {
        self.get_bool("debug", false)
    }

    /// Whether verbose or debug is enabled.
    pub fn verbose(&self) -> (r: bool)
        ensures
            r == is_verbose(*self),
    {
        self.get_bool("verbose", false) || self.debug()
    }
}

/// Verbose or debug is enabled.
pub open spec fn is_verbose(config: Config) -> bool {
    flag(config, "verbose"@, false) || flag(config, "debug"@, false)
}

/// The directory that a path leads to.
pub open spec fn path_of(config: Config, dir: Paths) -> Seq<char> {
    if dir == Paths::NalaSources {
        dir.key()
    } else {
        text_or(config.apt.dirs@, dir.key(), dir.fallback())
    }
}

/// Once completed, every theme has a style: its own where it had one, that of
/// the sheet where it had none.
pub proof fn law_every_theme_has_a_style(m: Map<u8, Style>, sheet: StyleSheet, theme: Theme)
    ensures
        completed(m, sheet).dom().contains(theme.number()),
        m.dom().contains(theme.number()) ==> completed(m, sheet)[theme.number()]
            == m[theme.number()],
        !m.dom().contains(theme.number()) ==> completed(m, sheet)[theme.number()] == sheet.of(
            theme,
        ),
{
    assert(theme_of(theme.number()) == theme);
}

/// Completing a second time, with whatever sheet, changes nothing.
pub proof fn law_completing_is_idempotent(m: Map<u8, Style>, first: StyleSheet, second: StyleSheet)
    ensures
        completed(completed(m, first), second) == completed(m, first),
{
    assert(completed(completed(m, first), second) =~= completed(m, first));
}

/// A setting that the command line does not mention stays as it was.
pub proof fn law_unmentioned_flag_stays(m: Map<Seq<char>, bool>, args: Seq<CliArg>, key: Seq<char>)
    requires
        forall|i: int| 0 <= i < args.len() && sets_flag(#[trigger] args[i]) ==> args[i].key@ != key,
    ensures
        flags_after(m, args).dom().contains(key) == m.dom().contains(key),
        m.dom().contains(key) ==> flags_after(m, args)[key] == m[key],
    decreases args.len(),
{
    if args.len() > 0 {
        assert forall|i: int| 0 <= i < args.drop_last().len() && sets_flag(
            #[trigger] args.drop_last()[i],
        ) implies args.drop_last()[i].key@ != key by {
            assert(args.drop_last()[i] == args[i]);
        }
        law_unmentioned_flag_stays(m, args.drop_last(), key);
    }
}

/// The command line overrides the configuration file: the last argument that
/// sets a flag decides it.
pub proof fn law_last_flag_wins(m: Map<Seq<char>, bool>, args: Seq<CliArg>, n: int)
    requires
        0 <= n < args.len(),
        sets_flag(args[n]),
        forall|i: int|
            n < i < args.len() && sets_flag(#[trigger] args[i]) ==> args[i].key@ != args[n].key@,
    ensures
        flags_after(m, args).dom().contains(args[n].key@),
        flags_after(m, args)[args[n].key@] == args[n].flag->0,
    decreases args.len(),
{
    if n < args.len() - 1 {
        let shorter = args.drop_last();
        assert(shorter[n] == args[n]);
        assert forall|i: int| n < i < shorter.len() && sets_flag(
            #[trigger] shorter[i],
        ) implies shorter[i].key@ != shorter[n].key@ by {
            assert(shorter[i] == args[i]);
        }
        law_last_flag_wins(m, shorter, n);
    }
}

/// A flag has the value that was set, or else its default.
pub proof fn law_flag(config: &Config, key: &str, default: bool, r: bool)
    requires
        call_ensures(Config::get_bool, (config, key, default), r),
    ensures
        config.nala_map@.dom().contains(key@) ==> r == config.nala_map@[key@],
        !config.nala_map@.dom().contains(key@) ==> r == default,
        r == flag(*config, key@, default),
{
}

/// A flag that has an opposite is off where the opposite is on, and else what it
/// is by itself.
pub proof fn law_opposite_flag(config: &Config, key: &str, default: bool, r: bool)
    requires
        call_ensures(Config::get_no_bool, (config, key, default), r),
    ensures
        ({
            let no = "no_"@ + key@;
            let opposed = config.nala_map@.dom().contains(no) && config.nala_map@[no];
            &&& opposed ==> !r
            &&& !opposed && config.nala_map@.dom().contains(key@) ==> r == config.nala_map@[key@]
            &&& !opposed && !config.nala_map@.dom().contains(key@) ==> r == default
        }),
{
}

proof fn lemma_flags(m: Map<Seq<char>, bool>, entries: Seq<(String, bool)>, key: Seq<char>, n: int)
    requires
        n >= -1,
        forall|i: int| n < i < entries.len() ==> (#[trigger] entries[i]).0@ != key,
        0 <= n ==> n < entries.len() && entries[n].0@ == key,
    ensures
        0 <= n ==> with_flags(m, entries).dom().contains(key) && with_flags(m, entries)[key]
            == entries[n].1,
        n < 0 ==> with_flags(m, entries).dom().contains(key) == m.dom().contains(key) && (
        m.dom().contains(key) ==> with_flags(m, entries)[key] == m[key]),
    decreases entries.len(),
{
    if entries.len() > 0 {
        let front = entries.drop_last();
        assert(entries.last() == entries[entries.len() - 1]);
        if n < entries.len() - 1 {
            assert forall|i: int| n < i < front.len() implies (#[trigger] front[i]).0@ != key by {
                assert(front[i] == entries[i]);
            }
            if 0 <= n {
                assert(front[n] == entries[n]);
            }
            lemma_flags(m, front, key, n);
        }
    }
}

proof fn lemma_values(
    m: Map<Seq<char>, Vec<String>>,
    entries: Seq<(String, Vec<String>)>,
    key: Seq<char>,
    n: int,
)
    requires
        n >= -1,
        forall|i: int| n < i < entries.len() ==> (#[trigger] entries[i]).0@ != key,
        0 <= n ==> n < entries.len() && entries[n].0@ == key,
    ensures
        0 <= n ==> with_values(m, entries).dom().contains(key) && with_values(m, entries)[key]
            == entries[n].1,
        n < 0 ==> with_values(m, entries).dom().contains(key) == m.dom().contains(key) && (
        m.dom().contains(key) ==> with_values(m, entries)[key] == m[key]),
    decreases entries.len(),
{
    if entries.len() > 0 {
        let front = entries.drop_last();
        assert(entries.last() == entries[entries.len() - 1]);
        if n < entries.len() - 1 {
            assert forall|i: int| n < i < front.len() implies (#[trigger] front[i]).0@ != key by {
                assert(front[i] == entries[i]);
            }
            if 0 <= n {
                assert(front[n] == entries[n]);
            }
            lemma_values(m, front, key, n);
        }
    }
}

proof fn lemma_styles(m: Map<u8, Style>, entries: Seq<(Theme, Style)>, theme: Theme, n: int)
    requires
        n >= -1,
        forall|i: int| n < i < entries.len() ==> (#[trigger] entries[i]).0 != theme,
        0 <= n ==> n < entries.len() && entries[n].0 == theme,
    ensures
        0 <= n ==> with_styles(m, entries).dom().contains(theme.number()) && with_styles(
            m,
            entries,
        )[theme.number()] == entries[n].1,
        n < 0 ==> with_styles(m, entries).dom().contains(theme.number()) == m.dom().contains(
            theme.number(),
        ),
    decreases entries.len(),
{
    if entries.len() > 0 {
        let front = entries.drop_last();
        assert(entries.last() == entries[entries.len() - 1]);
        if n < entries.len() - 1 {
            assert forall|i: int| n < i < front.len() implies (#[trigger] front[i]).0 != theme by {
                assert(front[i] == entries[i]);
            }
            if 0 <= n {
                assert(front[n] == entries[n]);
            }
            lemma_styles(m, front, theme, n);
            assert(entries[entries.len() - 1].0 != theme);
            lemma_numbers_differ(entries.last().0, theme);
        }
    }
}

proof fn lemma_numbers_differ(a: Theme, b: Theme)
    ensures
        a.number() == b.number() <==> a == b,
{
}

/// What the file says is in the configuration: of each flag, value and style the
/// last entry. Flags and values that the file does not name are not set, and a
/// style that it does not name is the default one.
pub proof fn law_file_is_read(
    file: ConfigFile,
    apt: AptConfig,
    sheet: &StyleSheet,
    r: Config,
    key: Seq<char>,
    theme: Theme,
    n: int,
)
    requires
        call_ensures(Config::new, (file, apt, sheet), r),
    ensures
        0 <= n < file.flags@.len() && file.flags@[n].0@ == key && (forall|i: int|
            n < i < file.flags@.len() ==> (#[trigger] file.flags@[i]).0@ != key)
            ==> r.nala_map@.dom().contains(key) && r.nala_map@[key] == file.flags@[n].1,
        (forall|i: int| 0 <= i < file.flags@.len() ==> (#[trigger] file.flags@[i]).0@ != key)
            ==> !r.nala_map@.dom().contains(key),
        0 <= n < file.values@.len() && file.values@[n].0@ == key && (forall|i: int|
            n < i < file.values@.len() ==> (#[trigger] file.values@[i]).0@ != key)
            ==> r.vec_map@.dom().contains(key) && r.vec_map@[key] == file.values@[n].1,
        (forall|i: int| 0 <= i < file.values@.len() ==> (#[trigger] file.values@[i]).0@ != key)
            ==> !r.vec_map@.dom().contains(key),
        r.theme@.dom().contains(theme.number()),
        0 <= n < file.styles@.len() && file.styles@[n].0 == theme && (forall|i: int|
            n < i < file.styles@.len() ==> (#[trigger] file.styles@[i]).0 != theme)
            ==> r.theme@[theme.number()] == file.styles@[n].1,
        (forall|i: int| 0 <= i < file.styles@.len() ==> (#[trigger] file.styles@[i]).0 != theme)
            ==> r.theme@[theme.number()] == sheet.of(theme),
        r.apt == apt,
{
    if 0 <= n < file.flags@.len() && file.flags@[n].0@ == key && (forall|i: int|
        n < i < file.flags@.len() ==> (#[trigger] file.flags@[i]).0@ != key) {
        lemma_flags(Map::empty(), file.flags@, key, n);
    }
    if forall|i: int| 0 <= i < file.flags@.len() ==> (#[trigger] file.flags@[i]).0@ != key {
        lemma_flags(Map::empty(), file.flags@, key, -1);
    }
    if 0 <= n < file.values@.len() && file.values@[n].0@ == key && (forall|i: int|
        n < i < file.values@.len() ==> (#[trigger] file.values@[i]).0@ != key) {
        lemma_values(Map::empty(), file.values@, key, n);
    }
    if forall|i: int| 0 <= i < file.values@.len() ==> (#[trigger] file.values@[i]).0@ != key {
        lemma_values(Map::empty(), file.values@, key, -1);
    }
    let styles = with_styles(Map::empty(), file.styles@);
    law_every_theme_has_a_style(styles, *sheet, theme);
    if 0 <= n < file.styles@.len() && file.styles@[n].0 == theme && (forall|i: int|
        n < i < file.styles@.len() ==> (#[trigger] file.styles@[i]).0 != theme) {
        lemma_styles(Map::empty(), file.styles@, theme, n);
    }
    if forall|i: int| 0 <= i < file.styles@.len() ==> (#[trigger] file.styles@[i]).0 != theme {
        lemma_styles(Map::empty(), file.styles@, theme, -1);
    }
}

/// A sheet has a style of its own for each theme.
pub proof fn law_style_of_each_theme(sheet: &StyleSheet, theme: Theme, r: Style)
    requires
        call_ensures(StyleSheet::default_style, (sheet, theme), r),
    ensures
        theme == Theme::Primary ==> r == sheet.primary,
        theme == Theme::Secondary ==> r == sheet.secondary,
        theme == Theme::Regular ==> r == sheet.regular,
        theme == Theme::Highlight ==> r == sheet.highlight,
        theme == Theme::ProgressFilled ==> r == sheet.progress_filled,
        theme == Theme::ProgressUnfilled ==> r == sheet.progress_unfilled,
        theme == Theme::Notice ==> r == sheet.notice,
        theme == Theme::Warning ==> r == sheet.warning,
        theme == Theme::Error ==> r == sheet.error,
{
}

proof fn lemma_arg_flags(m: Map<Seq<char>, bool>, args: Seq<CliArg>, key: Seq<char>, n: int)
    requires
        n >= -1,
        forall|i: int|
            n < i < args.len() && (#[trigger] args[i]).given && args[i].flag is Some
                ==> args[i].key@ != key,
        0 <= n ==> n < args.len() && args[n].given && args[n].flag is Some && args[n].key@ == key,
    ensures
        0 <= n ==> flags_after(m, args).dom().contains(key) && flags_after(m, args)[key]
            == args[n].flag->0,
        n < 0 ==> flags_after(m, args).dom().contains(key) == m.dom().contains(key) && (
        m.dom().contains(key) ==> flags_after(m, args)[key] == m[key]),
    decreases args.len(),
{
    if args.len() > 0 {
        let front = args.drop_last();
        assert(args.last() == args[args.len() - 1]);
        if n < args.len() - 1 {
            assert forall|i: int|
                n < i < front.len() && (#[trigger] front[i]).given
                    && front[i].flag is Some implies front[i].key@ != key by {
                assert(front[i] == args[i]);
            }
            if 0 <= n {
                assert(front[n] == args[n]);
            }
            lemma_arg_flags(m, front, key, n);
        }
    }
}

proof fn lemma_arg_values(
    m: Map<Seq<char>, Vec<String>>,
    args: Seq<CliArg>,
    key: Seq<char>,
    n: int,
)
    requires
        n >= -1,
        forall|i: int|
            n < i < args.len() && (#[trigger] args[i]).given && args[i].flag is None
                && args[i].values is Some ==> args[i].key@ != key,
        0 <= n ==> n < args.len() && args[n].given && args[n].flag is None
            && args[n].values is Some && args[n].key@ == key,
    ensures
        0 <= n ==> values_after(m, args).dom().contains(key) && values_after(m, args)[key]
            == args[n].values->0,
        n < 0 ==> values_after(m, args).dom().contains(key) == m.dom().contains(key) && (
        m.dom().contains(key) ==> values_after(m, args)[key] == m[key]),
    decreases args.len(),
{
    if args.len() > 0 {
        let front = args.drop_last();
        assert(args.last() == args[args.len() - 1]);
        if n < args.len() - 1 {
            assert forall|i: int|
                n < i < front.len() && (#[trigger] front[i]).given && front[i].flag is None
                    && front[i].values is Some implies front[i].key@ != key by {
                assert(front[i] == args[i]);
            }
            if 0 <= n {
                assert(front[n] == args[n]);
            }
            lemma_arg_values(m, front, key, n);
        }
    }
}

/// An argument that was given counts before what the file says, the last of those
/// with its name. One that was not given changes nothing.
pub proof fn law_arguments_count_before_the_file(
    config: &mut Config,
    args: Vec<CliArg>,
    commands: &Option<Commands>,
    r: (),
    key: Seq<char>,
    n: int,
)
    requires
        call_ensures(Config::load_args, (config, args, commands), r),
    ensures
        0 <= n < args@.len() && args@[n].given && args@[n].flag is Some && args@[n].key@ == key && (
        forall|i: int|
            n < i < args@.len() && (#[trigger] args@[i]).given && args@[i].flag is Some
                ==> args@[i].key@ != key) ==> final(config).nala_map@.dom().contains(key) && final(
            config).nala_map@[key] == args@[n].flag->0,
        (forall|i: int|
            0 <= i < args@.len() && (#[trigger] args@[i]).given && args@[i].flag is Some
                ==> args@[i].key@ != key) ==> final(config).nala_map@.dom().contains(key) == old(
            config).nala_map@.dom().contains(key) && (old(config).nala_map@.dom().contains(key)
            ==> final(config).nala_map@[key] == old(config).nala_map@[key]),
        0 <= n < args@.len() && args@[n].given && args@[n].flag is None && args@[n].values is Some
            && args@[n].key@ == key && (forall|i: int|
            n < i < args@.len() && (#[trigger] args@[i]).given && args@[i].flag is None
                && args@[i].values is Some ==> args@[i].key@ != key) ==> final(
            config).vec_map@.dom().contains(key) && final(config).vec_map@[key]
            == args@[n].values->0,
        (forall|i: int|
            0 <= i < args@.len() && (#[trigger] args@[i]).given && args@[i].flag is None
                && args@[i].values is Some ==> args@[i].key@ != key) ==> final(
            config).vec_map@.dom().contains(key) == old(config).vec_map@.dom().contains(key) && (
        old(config).vec_map@.dom().contains(key) ==> final(config).vec_map@[key] == old(
            config).vec_map@[key]),
        *commands matches Some(Commands::Fetch(opts)) ==> final(config).auto == opts.auto,
        !(*commands matches Some(Commands::Fetch(_))) ==> final(config).auto == old(config).auto,
{
    let flags = old(config).nala_map@;
    let values = old(config).vec_map@;
    if 0 <= n < args@.len() && args@[n].given && args@[n].flag is Some && args@[n].key@ == key && (
    forall|i: int|
        n < i < args@.len() && (#[trigger] args@[i]).given && args@[i].flag is Some
            ==> args@[i].key@ != key) {
        lemma_arg_flags(flags, args@, key, n);
    }
    if forall|i: int|
        0 <= i < args@.len() && (#[trigger] args@[i]).given && args@[i].flag is Some
            ==> args@[i].key@ != key {
        lemma_arg_flags(flags, args@, key, -1);
    }
    if 0 <= n < args@.len() && args@[n].given && args@[n].flag is None && args@[n].values is Some
        && args@[n].key@ == key && (forall|i: int|
        n < i < args@.len() && (#[trigger] args@[i]).given && args@[i].flag is None
            && args@[i].values is Some ==> args@[i].key@ != key) {
        lemma_arg_values(values, args@, key, n);
    }
    if forall|i: int|
        0 <= i < args@.len() && (#[trigger] args@[i]).given && args@[i].flag is None
            && args@[i].values is Some ==> args@[i].key@ != key {
        lemma_arg_values(values, args@, key, -1);
    }
}

/// A text is in colour exactly if colour is not ruled out and the theme has a
/// style: the style before it, and the sequence that ends it behind it.
pub proof fn law_colour(config: &Config, theme: Theme, string: &str, r: String)
    requires
        call_ensures(Config::color, (config, theme, string), r),
    ensures
        config.can_color == Switch::Never || !config.theme@.dom().contains(theme.number()) ==> r@
            == string@,
        config.can_color != Switch::Never && config.theme@.dom().contains(theme.number()) ==> r@
            == config.theme@[theme.number()].prefix@ + string@ + "\x1b[0m"@,
{
}

/// A version stands in brackets, and a message on the error stream behind its
/// heading.
pub proof fn law_decorated(config: &Config, theme: Theme, string: &str, ver: String, line: String)
    requires
        theme == Theme::Error || theme == Theme::Warning || theme == Theme::Notice,
        call_ensures(Config::color_ver, (config, string), ver),
        call_ensures(Config::stderr, (config, theme, string), line),
        config.can_color == Switch::Never,
    ensures
        ver@ == "("@ + string@ + ")"@,
        theme == Theme::Error ==> line@ == "Error:"@ + " "@ + string@,
        theme == Theme::Warning ==> line@ == "Warning:"@ + " "@ + string@,
        theme == Theme::Notice ==> line@ == "Notice:"@ + " "@ + string@,
{
}

/// A path is what apt says, or else the usual one. The file of sources that is
/// written here is always the same.
pub proof fn law_paths(config: &Config, place: &Paths, dir: String, file: String)
    requires
        call_ensures(Config::get_path, (config, place), dir),
        call_ensures(Config::get_file, (config, place), file),
    ensures
        *place == Paths::NalaSources ==> dir@ == "/etc/apt/sources.list.d/nala-sources.list"@
            && file@ == "/etc/apt/sources.list.d/nala-sources.list"@,
        *place == Paths::Archive ==> dir@ == text_or(
            config.apt.dirs@,
            "Dir::Cache::Archives"@,
            "/var/cache/apt/archives/"@,
        ),
        *place == Paths::Lists ==> dir@ == text_or(
            config.apt.dirs@,
            "Dir::State::Lists"@,
            "/var/lib/apt/lists/"@,
        ),
        *place == Paths::SourceParts ==> dir@ == text_or(
            config.apt.dirs@,
            "Dir::Etc::sourceparts"@,
            "/etc/apt/sources.list.d/"@,
        ),
        *place == Paths::SourceList ==> file@ == text_or(
            config.apt.files@,
            "Dir::Etc::sourcelist"@,
            "/etc/apt/sources.list"@,
        ),
{
}

/// A setting of apt has the value that was set, or else the default.
pub proof fn law_settings_of_apt(
    apt: &AptConfig,
    key: &str,
    default: &str,
    number: i32,
    off: bool,
    file: String,
    dir: String,
    n: i32,
    b: bool,
    v: Vec<String>,
)
    requires
        call_ensures(AptConfig::file, (apt, key, default), file),
        call_ensures(AptConfig::dir, (apt, key, default), dir),
        call_ensures(AptConfig::number, (apt, key, number), n),
        call_ensures(AptConfig::bool, (apt, key, off), b),
        call_ensures(AptConfig::find_vector, (apt, key), v),
    ensures
        apt.files@.dom().contains(key@) ==> file@ == apt.files@[key@]@,
        !apt.files@.dom().contains(key@) ==> file@ == default@,
        apt.dirs@.dom().contains(key@) ==> dir@ == apt.dirs@[key@]@,
        !apt.dirs@.dom().contains(key@) ==> dir@ == default@,
        apt.ints@.dom().contains(key@) ==> n == apt.ints@[key@],
        !apt.ints@.dom().contains(key@) ==> n == number,
        apt.bools@.dom().contains(key@) ==> b == apt.bools@[key@],
        !apt.bools@.dom().contains(key@) ==> b == off,
        apt.vectors@.dom().contains(key@) ==> v@ == apt.vectors@[key@]@,
        !apt.vectors@.dom().contains(key@) ==> v@.len() == 0,
{
}

/// A value is the first of those that were given.
pub proof fn law_first_value(config: &Config, key: &str, r: Option<&str>)
    requires
        call_ensures(Config::get_str, (config, key), r),
    ensures
        r is Some <==> config.vec_map@.dom().contains(key@) && config.vec_map@[key@]@.len() > 0,
        r is Some ==> r->0@ == config.vec_map@[key@]@[0]@,
{
}

/// The names and the countries are those that were given, and who asks for what
/// helps to solve issues gets all that is said.
pub proof fn law_given_lists(
    config: &Config,
    names: Option<&Vec<String>>,
    countries: Option<&Vec<String>>,
    debug: bool,
    verbose: bool,
)
    requires
        call_ensures(Config::pkg_names, (config,), names),
        call_ensures(Config::countries, (config,), countries),
        call_ensures(Config::debug, (config,), debug),
        call_ensures(Config::verbose, (config,), verbose),
    ensures
        names is Some <==> config.vec_map@.dom().contains("pkg_names"@),
        names is Some ==> *names->0 == config.vec_map@["pkg_names"@],
        countries is Some <==> config.vec_map@.dom().contains("countries"@),
        countries is Some ==> *countries->0 == config.vec_map@["countries"@],
        debug == flag(*config, "debug"@, false),
        debug ==> verbose,
        flag(*config, "verbose"@, false) ==> verbose,
        verbose ==> debug || flag(*config, "verbose"@, false),
{
}

} // verus!

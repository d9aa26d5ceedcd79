//! The command line: what is to be done, and where the settings are.
use vstd::prelude::*;
use crate::app::clash_api::configs::LogLevel;
use crate::app::clash_api::path;
use crate::net;
use crate::net::IpAddr;
use crate::text;

verus! {

/// The file of settings by default.
pub const CONFIG_JSON: &'static str = "config.json";

/// The file of settings that is looked for next.
pub const CONFIG_YAML: &'static str = "config.yaml";

/// What is to be done.
pub enum Command {
    /// Compile a set of rules; the arguments follow the word.
    Ruleset(Vec<String>),
    Inspect(Vec<String>),
    TestRule(Vec<String>),
    Convert(Vec<String>),
    /// Look whether a file of settings is sound.
    Check(String),
    /// Run; the arguments of that follow.
    Run(Vec<String>),
}

/// The characters of strings.
pub open spec fn words(v: Seq<String>) -> Seq<Seq<char>> {
    v.map_values(|s: String| s@)
}

/// Whether a command is what the arguments ask for; the first argument is the
/// program itself.
pub open spec fn asks_for(args: Seq<Seq<char>>, c: Command) -> bool {
    if args.len() < 2 {
        c matches Command::Run(v) && words(v@) == Seq::<Seq<char>>::empty()
    } else {
        let rest = args.skip(2);
        if args[1] == "ruleset"@ {
            c matches Command::Ruleset(v) && words(v@) == rest
        } else if args[1] == "inspect"@ {
            c matches Command::Inspect(v) && words(v@) == rest
        } else if args[1] == "test-rule"@ {
            c matches Command::TestRule(v) && words(v@) == rest
        } else if args[1] == "convert"@ {
            c matches Command::Convert(v) && words(v@) == rest
        } else if args[1] == "check"@ {
            c matches Command::Check(p) && p@ == (if rest.len() > 0 {
                rest[0]
            } else {
                CONFIG_JSON@
            })
        } else if args[1] == "run"@ {
            c matches Command::Run(v) && words(v@) == rest
        } else {
            c matches Command::Run(v) && words(v@) == args.skip(1)
        }
    }
}

fn copy_from(args: &[String], from: usize) -> (r: Vec<String>)
    requires
        from <= args@.len(),
    ensures
        words(r@) == words(args@).skip(from as int),
{
    let mut r: Vec<String> = Vec::new();
    let mut i: usize = from;
    while i < args.len()
        invariant
            from <= i <= args@.len(),
            r@.len() == i - from,
            forall|k: int| 0 <= k < r@.len() ==> (#[trigger] r@[k])@ == args@[from + k]@,
        decreases args@.len() - i,
    {
        r.push(args[i].as_str().to_owned());
        i = i + 1;
    }
    assert(words(r@) =~= words(args@).skip(from as int));
    r
}

/// What the arguments ask for.
pub fn parse_command(args: &[String]) -> (r: Command)
    ensures
        asks_for(words(args@), r),
{
    let n: usize = args.len();
    let ghost w = words(args@);
    if n < 2 {
        let none: Vec<String> = Vec::new();
        assert(words(none@) =~= Seq::<Seq<char>>::empty());
        return Command::Run(none);
    }
    let word: &str = args[1].as_str();
    assert(word@ == w[1]);
    if text::same_text(word, "ruleset") {
        Command::Ruleset(copy_from(args, 2))
    } else if text::same_text(word, "inspect") {
        Command::Inspect(copy_from(args, 2))
    } else if text::same_text(word, "test-rule") {
        Command::TestRule(copy_from(args, 2))
    } else if text::same_text(word, "convert") {
        Command::Convert(copy_from(args, 2))
    } else if text::same_text(word, "check") {
        if n > 2 {
            assert(w.skip(2)[0] == args@[2]@);
            Command::Check(args[2].as_str().to_owned())
        } else {
            Command::Check(CONFIG_JSON.to_owned())
        }
    } else if text::same_text(word, "run") {
        Command::Run(copy_from(args, 2))
    } else {
        Command::Run(copy_from(args, 1))
    }
}

// Flags

/// Why there is no output.
#[derive(Clone, Copy, Debug, PartialEq, Eq, Structural)]
pub enum FlagError {
    /// Nothing follows the flag.
    NoArgument,
    /// The flag is missing.
    Missing,
}

impl FlagError {
    /// The message.
    pub fn message(self) -> (r: &'static str)
        ensures
            r@ == (match self {
                FlagError::NoArgument => "'-o' requires an argument"@,
                FlagError::Missing => "missing required flag: -o <output.rrs>"@,
            }),
    {
        match self {
            FlagError::NoArgument => "'-o' requires an argument",
            FlagError::Missing => "missing required flag: -o <output.rrs>",
        }
    }
}

/// The output that the arguments from `i` on name, behind a flag or an equals
/// sign; the first flag counts.
pub open spec fn output_in(args: Seq<Seq<char>>, i: int) -> Result<Seq<char>, FlagError>
    decreases args.len() - i,
{
    if i < 0 || i >= args.len() {
        Err(FlagError::Missing)
    } else if args[i] == "-o"@ {
        if i + 1 < args.len() {
            Ok(args[i + 1])
        } else {
            Err(FlagError::NoArgument)
        }
    } else if text::has_prefix(args[i], "-o="@) {
        Ok(args[i].skip("-o="@.len() as int))
    } else {
        output_in(args, i + 1)
    }
}

/// The output that the arguments name.
pub fn parse_output_flag(args: &[String]) -> (r: Result<String, FlagError>)
    ensures
        match r {
            Ok(o) => output_in(words(args@), 0) == Ok::<Seq<char>, FlagError>(o@),
            Err(e) => output_in(words(args@), 0) == Err::<Seq<char>, FlagError>(e),
        },
{
    let ghost w = words(args@);
    let n: usize = args.len();
    let mut i: usize = 0;
    while i < n
        invariant
            n == args@.len(),
            i <= n,
            w == words(args@),
            output_in(w, 0) == output_in(w, i as int),
        decreases n - i,
    {
        let a: &str = args[i].as_str();
        assert(a@ == w[i as int]);
        if text::same_text(a, "-o") {
            if i + 1 < n {
                assert(w[i + 1] == args@[i + 1]@);
                return Ok(args[i + 1].as_str().to_owned());
            }
            return Err(FlagError::NoArgument);
        }
        let chars: Vec<char> = text::chars_of(a);
        if let Some(v) = text::strip_prefix(chars.as_slice(), "-o=") {
            return Ok(text::string_of(v));
        }
        i = i + 1;
    }
    Err(FlagError::Missing)
}

/// What compiling takes.
pub struct CompileJob {
    pub input: String,
    pub output: String,
    /// Whether the input is a list of filters, whatever it looks like.
    pub filters: bool,
}

/// Whether a flag says that the input is a list of filters.
pub open spec fn forces_filters(args: Seq<Seq<char>>) -> bool {
    exists|i: int|
        0 <= i < args.len() - 1 && #[trigger] args[i] == "-t"@ && args[i + 1] == "adguard"@
}

fn filters_forced(args: &[String]) -> (r: bool)
    ensures
        r == forces_filters(words(args@)),
{
    let ghost w = words(args@);
    let n: usize = args.len();
    let mut i: usize = 0;
    while i < n
        invariant
            n == args@.len(),
            i <= n,
            w == words(args@),
            forall|k: int|
                0 <= k < i && k < n - 1 ==> !(#[trigger] w[k] == "-t"@ && w[k + 1] == "adguard"@),
        decreases n - i,
    {
        assert(w[i as int] == args@[i as int]@);
        if n - i > 1 && text::same_text(args[i].as_str(), "-t") {
            assert(w[i + 1] == args@[i + 1]@);
            if text::same_text(args[i + 1].as_str(), "adguard") {
                return true;
            }
        }
        i = i + 1;
    }
    false
}

/// What the arguments of compiling come to.
pub enum CompileStep {
    /// There are too few.
    Usage,
    Failed(FlagError),
    Compile(CompileJob),
}

/// What the arguments behind the word come to.
pub fn compile_job(args: &[String]) -> (r: CompileStep)
    ensures
        if args@.len() < 3 {
            r is Usage
        } else {
            match output_in(words(args@).skip(1), 0) {
                Ok(o) => r matches CompileStep::Compile(j) && j.input@ == args@[0]@ && j.output@
                    == o && j.filters == forces_filters(words(args@).skip(1)),
                Err(e) => r == CompileStep::Failed(e),
            }
        },
{
    let n: usize = args.len();
    if n < 3 {
        return CompileStep::Usage;
    }
    let rest: &[String] = vstd::slice::slice_subrange(args, 1, n);
    assert(words(rest@) =~= words(args@).skip(1));
    match parse_output_flag(rest) {
        Ok(output) => CompileStep::Compile(
            CompileJob {
                input: args[0].as_str().to_owned(),
                output,
                filters: filters_forced(rest),
            },
        ),
        Err(e) => CompileStep::Failed(e),
    }
}

/// Whether a source of rules is JSON: by its name, or by how it begins.
pub fn is_json_source(input: &str, source: &str) -> (r: bool)
    ensures
        r == (text::has_suffix(input@, ".json"@) || (text::trimmed_start(source@).len() > 0
            && text::trimmed_start(source@)[0] == '{')),
{
    let name: Vec<char> = text::chars_of(input);
    if text::ends_with(name.as_slice(), ".json") {
        return true;
    }
    let chars: Vec<char> = text::chars_of(source);
    let t: &[char] = text::trim_start(chars.as_slice());
    t.len() > 0 && t[0] == '{'
}

/// What is looked up in a set of rules.
pub enum MatchQuery {
    Port(u16),
    Ip(IpAddr),
    Domain(String),
}

/// What a text asks to look up: a port, an address, or else a name.
pub fn parse_match_target(s: &str) -> (r: MatchQuery)
    ensures
        match text::unsigned_value(s@, 65535) {
            Some(p) => r == MatchQuery::Port(p as u16),
            None => match net::ip_value(s@) {
                Some(ip) => r == MatchQuery::Ip(ip),
                None => r matches MatchQuery::Domain(d) && d@ == s@,
            },
        },
{
    let chars: Vec<char> = text::chars_of(s);
    if let Some(p) = text::parse_unsigned(chars.as_slice(), 65535) {
        return MatchQuery::Port(p as u16);
    }
    match net::parse_ip(s) {
        Some(ip) => MatchQuery::Ip(ip),
        None => MatchQuery::Domain(s.to_owned()),
    }
}

/// What a set of rules holds.
#[derive(Clone, Copy, Debug, PartialEq, Eq, Structural)]
pub struct RuleCounts {
    pub domains: u64,
    pub domain_suffixes: u64,
    pub domain_keywords: u64,
    pub domain_regexes: u64,
    pub ipv4_cidrs: u64,
    pub ipv6_cidrs: u64,
    pub ports: u64,
}

impl RuleCounts {
    /// All of it.
    pub open spec fn total(self) -> int {
        self.domains + self.domain_suffixes + self.domain_keywords + self.domain_regexes
            + self.ipv4_cidrs + self.ipv6_cidrs + self.ports
    }
}

/// A line of a report.
pub open spec fn line(label: Seq<char>, n: int) -> Seq<char> {
    label + text::decimal(n as nat) + seq!['\n']
}

/// The report on a file.
pub open spec fn report(path: Seq<char>, c: RuleCounts) -> Seq<char> {
    "file:            "@ + path + seq!['\n'] + line("domains:         "@, c.domains as int) + line(
        "domain-suffixes: "@,
        c.domain_suffixes as int,
    ) + line("domain-keywords: "@, c.domain_keywords as int) + line(
        "domain-regexes:  "@,
        c.domain_regexes as int,
    ) + line("ipv4-cidrs:      "@, c.ipv4_cidrs as int) + line(
        "ipv6-cidrs:      "@,
        c.ipv6_cidrs as int,
    ) + line("ports:           "@, c.ports as int) + line("total:           "@, c.total())
}

fn push_line(out: &mut Vec<char>, label: &str, n: u64)
    ensures
        final(out)@ == old(out)@ + line(label@, n as int),
{
    let ghost before = out@;
    text::push_text(out, label);
    let digits: Vec<char> = text::decimal_chars(n);
    text::push_chars(out, digits.as_slice());
    out.push('\n');
    assert(out@ =~= before + line(label@, n as int));
}

/// The report on a file.
pub fn inspect_report(path: &str, c: RuleCounts) -> (r: String)
    requires
        c.total() <= u64::MAX,
    ensures
        r@ == report(path@, c),
{
    let mut t: Vec<char> = text::chars_of("file:            ");
    text::push_text(&mut t, path);
    t.push('\n');
    assert(t@ =~= "file:            "@ + path@ + seq!['\n']);
    push_line(&mut t, "domains:         ", c.domains);
    push_line(&mut t, "domain-suffixes: ", c.domain_suffixes);
    push_line(&mut t, "domain-keywords: ", c.domain_keywords);
    push_line(&mut t, "domain-regexes:  ", c.domain_regexes);
    push_line(&mut t, "ipv4-cidrs:      ", c.ipv4_cidrs);
    push_line(&mut t, "ipv6-cidrs:      ", c.ipv6_cidrs);
    push_line(&mut t, "ports:           ", c.ports);
    let total: u64 = c.domains + c.domain_suffixes + c.domain_keywords + c.domain_regexes
        + c.ipv4_cidrs + c.ipv6_cidrs + c.ports;
    push_line(&mut t, "total:           ", total);
    text::string_of(t.as_slice())
}

/// What is printed of a lookup, and the code that the program ends with.
pub fn match_report(query: &str, hit: bool) -> (r: (String, u8))
    ensures
        r.0@ == (if hit {
            "MATCH    "@
        } else {
            "NO MATCH "@
        }) + query@,
        r.1 == (if hit {
            0u8
        } else {
            1u8
        }),
{
    let mut t: Vec<char> = text::chars_of(
        if hit {
            "MATCH    "
        } else {
            "NO MATCH "
        },
    );
    text::push_text(&mut t, query);
    (
        text::string_of(t.as_slice()),
        if hit {
            0
        } else {
            1
        },
    )
}

// Running

/// The options of running.
pub struct RunOptions {
    pub config: Option<String>,
    pub dir: Option<String>,
    pub log: Option<String>,
}

/// What the options come to.
pub enum RunStep {
    Run(RunOptions),
    Help,
    Version,
    /// A flag has no directory behind it.
    NoDirectory,
    Unknown(String),
}

/// The options so far, by their characters.
#[verifier::ext_equal]
pub ghost struct RunView {
    pub config: Option<Seq<char>>,
    pub dir: Option<Seq<char>>,
    pub log: Option<Seq<char>>,
    /// The directories that were named so far.
    pub dirs: Seq<Seq<char>>,
}

/// What the options come to, by their characters.
pub ghost enum RunEnd {
    Run,
    Help,
    Version,
    NoDirectory,
    Unknown(Seq<char>),
}

/// The argument at `i`, if there is one.
pub open spec fn arg_at(args: Seq<Seq<char>>, i: int) -> Option<Seq<char>> {
    if 0 <= i < args.len() {
        Some(args[i])
    } else {
        None
    }
}

/// What the arguments from `i` on come to. A later flag replaces an earlier one.
pub open spec fn run_from(args: Seq<Seq<char>>, i: int, v: RunView) -> (RunView, RunEnd)
    decreases args.len() + 1 - i,
{
    if i < 0 || i >= args.len() {
        (v, RunEnd::Run)
    } else {
        let a = args[i];
        if a == "--config"@ || a == "-c"@ || a == "-C"@ {
            run_from(args, i + 2, RunView { config: arg_at(args, i + 1), ..v })
        } else if a == "--dir"@ || a == "-d"@ || a == "-D"@ {
            match arg_at(args, i + 1) {
                Some(d) => run_from(
                    args,
                    i + 2,
                    RunView { dir: Some(d), dirs: v.dirs.push(d), ..v },
                ),
                None => (v, RunEnd::NoDirectory),
            }
        } else if a == "--log"@ || a == "-l"@ {
            run_from(args, i + 2, RunView { log: arg_at(args, i + 1), ..v })
        } else if a == "--help"@ || a == "-h"@ {
            (v, RunEnd::Help)
        } else if a == "--version"@ || a == "-v"@ {
            (v, RunEnd::Version)
        } else {
            (v, RunEnd::Unknown(a))
        }
    }
}

/// No options.
pub open spec fn no_options() -> RunView {
    RunView { config: None, dir: None, log: None, dirs: Seq::empty() }
}

/// The characters of an optional string.
pub open spec fn opt_view(s: Option<String>) -> Option<Seq<char>> {
    match s {
        Some(t) => Some(t@),
        None => None,
    }
}

/// Whether a step is what options come to.
pub open spec fn is_step(v: RunView, e: RunEnd, s: RunStep) -> bool {
    match e {
        RunEnd::Run => s matches RunStep::Run(o) && opt_view(o.config) == v.config && opt_view(
            o.dir,
        ) == v.dir && opt_view(o.log) == v.log,
        RunEnd::Help => s is Help,
        RunEnd::Version => s is Version,
        RunEnd::NoDirectory => s is NoDirectory,
        RunEnd::Unknown(a) => s matches RunStep::Unknown(x) && x@ == a,
    }
}

fn copy_at(args: &[String], i: usize) -> (r: Option<String>)
    ensures
        opt_view(r) == arg_at(words(args@), i as int),
{
    if i < args.len() {
        Some(args[i].as_str().to_owned())
    } else {
        None
    }
}

/// What the options come to, and the directories that they name. Each of these
/// has to be one, in this order, before the step counts.
pub fn parse_run_options(args: &[String]) -> (r: (RunStep, Vec<String>))
    ensures
        ({
            let (v, e) = run_from(words(args@), 0, no_options());
            is_step(v, e, r.0) && words(r.1@) == v.dirs
        }),
{
    let ghost w = words(args@);
    let n: usize = args.len();
    let mut config: Option<String> = None;
    let mut dir: Option<String> = None;
    let mut log: Option<String> = None;
    let mut dirs: Vec<String> = Vec::new();
    let mut i: usize = 0;
    assert(words(dirs@) =~= Seq::<Seq<char>>::empty());
    while i < n
        invariant
            n == args@.len(),
            w == words(args@),
            run_from(w, 0, no_options()) == run_from(
                w,
                i as int,
                RunView {
                    config: opt_view(config),
                    dir: opt_view(dir),
                    log: opt_view(log),
                    dirs: words(dirs@),
                },
            ),
        decreases n - i,
    {
        let a: &str = args[i].as_str();
        assert(a@ == w[i as int]);
        let next: usize = i + 1;
        if text::same_text(a, "--config") || text::same_text(a, "-c") || text::same_text(a, "-C") {
            config = copy_at(args, next);
        } else if text::same_text(a, "--dir") || text::same_text(a, "-d") || text::same_text(
            a,
            "-D",
        ) {
            if next >= n {
                return (RunStep::NoDirectory, dirs);
            }
            let ghost before = words(dirs@);
            dirs.push(args[next].as_str().to_owned());
            assert(words(dirs@) =~= before.push(w[next as int]));
            dir = copy_at(args, next);
        } else if text::same_text(a, "--log") || text::same_text(a, "-l") {
            log = copy_at(args, next);
        } else if text::same_text(a, "--help") || text::same_text(a, "-h") {
            return (RunStep::Help, dirs);
        } else if text::same_text(a, "--version") || text::same_text(a, "-v") {
            return (RunStep::Version, dirs);
        } else {
            return (RunStep::Unknown(a.to_owned()), dirs);
        }
        if next >= n {
            i = n;
            assert(run_from(
                w,
                next + 1,
                RunView {
                    config: opt_view(config),
                    dir: opt_view(dir),
                    log: opt_view(log),
                    dirs: words(dirs@),
                },
            ) == run_from(
                w,
                n as int,
                RunView {
                    config: opt_view(config),
                    dir: opt_view(dir),
                    log: opt_view(log),
                    dirs: words(dirs@),
                },
            ));
        } else {
            i = next + 1;
        }
    }
    (RunStep::Run(RunOptions { config, dir, log }), dirs)
}

// Settings

/// Whether a component of a path counts: a single dot does only at the start.
pub open spec fn counts(parts: Seq<Seq<char>>, i: int) -> bool {
    parts[i].len() > 0 && (parts[i] != "."@ || i == 0)
}

/// The last of the first `n` components that counts, or -1.
pub open spec fn last_counting(parts: Seq<Seq<char>>, n: int) -> int
    decreases n,
{
    if n <= 0 {
        -1
    } else if counts(parts, n - 1) {
        n - 1
    } else {
        last_counting(parts, n - 1)
    }
}

/// The directory that holds what a path leads to; the root and the empty path
/// have none.
pub open spec fn parent(p: Seq<char>) -> Option<Seq<char>> {
    let parts = text::parts(p, '/');
    let last = last_counting(parts, parts.len() as int);
    let before = last_counting(parts, last);
    if last < 0 {
        None
    } else if before >= 0 {
        Some(text::joined(parts.take(before + 1), '/'))
    } else if p.len() > 0 && p[0] == '/' {
        Some(seq!['/'])
    } else {
        Some(Seq::empty())
    }
}

fn find_counting(all: &Vec<Vec<char>>, n: usize) -> (r: Option<usize>)
    requires
        n <= all@.len(),
    ensures
        ({
            let p = all@.map_values(|v: Vec<char>| v@);
            match r {
                Some(i) => i < n && i == last_counting(p, n as int),
                None => last_counting(p, n as int) == -1,
            }
        }),
{
    let ghost p = all@.map_values(|v: Vec<char>| v@);
    let dot: Vec<char> = text::chars_of(".");
    let mut k: usize = n;
    while k > 0
        invariant
            k <= n <= all@.len(),
            p == all@.map_values(|v: Vec<char>| v@),
            dot@ == "."@,
            last_counting(p, n as int) == last_counting(p, k as int),
        decreases k,
    {
        assert(p[k - 1] == all@[k - 1]@);
        let c: &[char] = all[k - 1].as_slice();
        if c.len() > 0 && (k == 1 || !text::same_chars(c, dot.as_slice())) {
            return Some(k - 1);
        }
        k = k - 1;
    }
    None
}

/// The directory that holds what a path leads to.
pub fn parent_dir(p: &str) -> (r: Option<String>)
    ensures
        opt_view(r) == parent(p@),
{
    let chars: Vec<char> = text::chars_of(p);
    let all: Vec<Vec<char>> = text::split(chars.as_slice(), '/');
    let ghost parts = text::parts(p@, '/');
    assert(parts.len() == all@.len());
    let last: usize = match find_counting(&all, all.len()) {
        Some(i) => i,
        None => {
            return None;
        },
    };
    match find_counting(&all, last) {
        Some(b) => {
            let mut kept: Vec<Vec<char>> = Vec::new();
            let n: usize = all.len();
            let mut i: usize = 0;
            while i <= b
                invariant
                    i <= b + 1,
                    b < n == all@.len(),
                    kept@.len() == i,
                    forall|k: int| 0 <= k < i ==> (#[trigger] kept@[k])@ == all@[k]@,
                decreases b + 1 - i,
            {
                kept.push(vstd::slice::slice_to_vec(all[i].as_slice()));
                i = i + 1;
            }
            assert(kept@.map_values(|v: Vec<char>| v@) =~= parts.take(b + 1)) by {
                assert forall|k: int| 0 <= k < b + 1 implies parts[k] == #[trigger] kept@[k]@ by {
                    assert(all@.map_values(|v: Vec<char>| v@)[k] == all@[k]@);
                }
            }
            Some(text::string_of(text::join(&kept, '/').as_slice()))
        },
        None => {
            if chars.len() > 0 && chars[0] == '/' {
                let mut root: Vec<char> = Vec::new();
                root.push('/');
                assert(root@ =~= seq!['/']);
                Some(text::string_of(root.as_slice()))
            } else {
                Some(String::new())
            }
        },
    }
}

/// A path below a directory; a path that begins at the root stands for itself.
pub open spec fn resolved(dir: Seq<char>, p: Seq<char>) -> Seq<char> {
    if p.len() > 0 && p[0] == '/' {
        p
    } else {
        path::pushed(dir, p)
    }
}

fn resolve(dir: &str, p: &str) -> (r: String)
    ensures
        r@ == resolved(dir@, p@),
{
    let tail: Vec<char> = text::chars_of(p);
    if tail.len() > 0 && tail[0] == '/' {
        return p.to_owned();
    }
    let mut t: Vec<char> = text::chars_of(dir);
    let n: usize = t.len();
    if n > 0 && t[n - 1] != '/' {
        t.push('/');
    }
    text::push_chars(&mut t, tail.as_slice());
    assert(t@ =~= resolved(dir@, p@));
    text::string_of(t.as_slice())
}

/// Where the settings are, and the directory that paths in them start from.
pub enum ConfigPlace {
    At { config: String, base: String },
    /// A directory is to be searched.
    Search(String),
}

/// Where the settings are, by the file and the directory that were given. The
/// program's own directory is `cwd`.
pub fn resolve_config_and_base(config: Option<String>, dir: Option<String>, cwd: &str) -> (r:
    ConfigPlace)
    ensures
        match (config, dir) {
            (None, Some(d)) => r matches ConfigPlace::Search(x) && x@ == d@,
            (Some(c), None) => r matches ConfigPlace::At { config: x, base } && x@ == c@ && base@
                == (match parent(c@) {
                Some(p) => p,
                None => "."@,
            }),
            (Some(c), Some(d)) => r matches ConfigPlace::At { config: x, base } && x@ == resolved(
                d@,
                c@,
            ) && base@ == d@,
            (None, None) => r matches ConfigPlace::At { config: x, base } && x@ == resolved(
                cwd@,
                CONFIG_JSON@,
            ) && base@ == cwd@,
        },
{
    match (config, dir) {
        (None, Some(d)) => ConfigPlace::Search(d),
        (Some(c), None) => {
            let base: String = match parent_dir(c.as_str()) {
                Some(p) => p,
                None => ".".to_owned(),
            };
            ConfigPlace::At { config: c, base }
        },
        (Some(c), Some(d)) => ConfigPlace::At { config: resolve(d.as_str(), c.as_str()), base: d },
        (None, None) => ConfigPlace::At {
            config: resolve(cwd, CONFIG_JSON),
            base: cwd.to_owned(),
        },
    }
}

/// Whether a file may hold settings, by its extension.
pub open spec fn is_config_name(name: Seq<char>) -> bool {
    path::extension(name) matches Some(e) && (e == "json"@ || e == "yaml"@ || e == "yml"@)
}

/// How settings are written.
#[derive(Clone, Copy, Debug, PartialEq, Eq, Structural)]
pub enum ConfigFormat {
    Json,
    Yaml,
}

/// How the settings in a file are written, by its extension.
pub fn config_format(file: &str) -> (r: Option<ConfigFormat>)
    ensures
        r is Some <==> is_config_name(file@),
        r is Some ==> (r == Some(ConfigFormat::Json) <==> path::extension(file@) == Some("json"@)),
{
    match path::extension_of(file) {
        Some(e) => if text::same_text(e.as_str(), "json") {
            Some(ConfigFormat::Json)
        } else if text::same_text(e.as_str(), "yaml") || text::same_text(e.as_str(), "yml") {
            Some(ConfigFormat::Yaml)
        } else {
            None
        },
        None => None,
    }
}

/// The number of files among the first `n` that may hold settings.
pub open spec fn config_count(names: Seq<Seq<char>>, n: int) -> nat
    decreases n,
{
    if n <= 0 {
        0
    } else {
        config_count(names, n - 1) + (if is_config_name(names[n - 1]) {
            1nat
        } else {
            0
        })
    }
}

/// Why a directory does not tell where the settings are.
#[derive(Clone, Copy, Debug, PartialEq, Eq, Structural)]
pub enum SearchError {
    Nothing,
    Several,
}

impl SearchError {
    /// The message.
    pub fn message(self, dir: &str) -> (r: String)
        ensures
            r@ == (match self {
                SearchError::Nothing => "no JSON config file found in '"@ + dir@ + "'"@,
                SearchError::Several => "multiple JSON files found in '"@ + dir@
                    + "' and no config.json;              please specify the file explicitly with -c"@,
            }),
    {
        let (before, after): (&str, &str) = match self {
            SearchError::Nothing => ("no JSON config file found in '", "'"),
            SearchError::Several => (
                "multiple JSON files found in '",
                "' and no config.json;              please specify the file explicitly with -c",
            ),
        };
        let mut t: Vec<char> = text::chars_of(before);
        text::push_text(&mut t, dir);
        text::push_text(&mut t, after);
        text::string_of(t.as_slice())
    }
}

fn name_among(names: &Vec<String>, name: &str) -> (r: bool)
    ensures
        r == words(names@).contains(name@),
{
    let mut i: usize = 0;
    while i < names.len()
        invariant
            i <= names@.len(),
            forall|k: int| 0 <= k < i ==> words(names@)[k] != name@,
        decreases names@.len() - i,
    {
        if text::same_text(names[i].as_str(), name) {
            assert(words(names@)[i as int] == name@);
            return true;
        }
        i = i + 1;
    }
    false
}

/// The file of settings among the files of a directory: the one with the usual
/// name, or the only one that may be it.
pub fn find_config_in_dir(names: &Vec<String>) -> (r: Result<String, SearchError>)
    ensures
        ({
            let w = words(names@);
            let n = config_count(w, w.len() as int);
            if w.contains(CONFIG_JSON@) {
                r matches Ok(x) && x@ == CONFIG_JSON@
            } else if w.contains(CONFIG_YAML@) {
                r matches Ok(x) && x@ == CONFIG_YAML@
            } else if n == 1 {
                r matches Ok(x) && w.contains(x@) && is_config_name(x@)
            } else if n == 0 {
                r == Err::<String, SearchError>(SearchError::Nothing)
            } else {
                r == Err::<String, SearchError>(SearchError::Several)
            }
        }),
{
    if name_among(names, CONFIG_JSON) {
        return Ok(CONFIG_JSON.to_owned());
    }
    if name_among(names, CONFIG_YAML) {
        return Ok(CONFIG_YAML.to_owned());
    }
    let ghost w = words(names@);
    let mut found: Option<usize> = None;
    let mut several: bool = false;
    let mut i: usize = 0;
    while i < names.len()
        invariant
            i <= names@.len(),
            w == words(names@),
            match found {
                None => config_count(w, i as int) == 0 && !several,
                Some(k) => k < i && is_config_name(w[k as int]) && if several {
                    config_count(w, i as int) > 1
                } else {
                    config_count(w, i as int) == 1
                },
            },
        decreases names@.len() - i,
    {
        assert(w[i as int] == names@[i as int]@);
        if config_format(names[i].as_str()).is_some() {
            match found {
                None => {
                    found = Some(i);
                },
                Some(_) => {
                    several = true;
                },
            }
        }
        i = i + 1;
    }
    if several {
        return Err(SearchError::Several);
    }
    match found {
        Some(k) => {
            assert(w[k as int] == names@[k as int]@);
            Ok(names[k].as_str().to_owned())
        },
        None => Err(SearchError::Nothing),
    }
}

// Logging

/// How much a message matters.
#[derive(Clone, Copy, Debug, PartialEq, Eq, Structural)]
pub enum EventLevel {
    Error,
    Warn,
    Info,
    Debug,
    Trace,
}

impl EventLevel {
    /// The place among the levels; what matters most comes first.
    pub open spec fn rank(self) -> int {
        match self {
            EventLevel::Error => 0,
            EventLevel::Warn => 1,
            EventLevel::Info => 2,
            EventLevel::Debug => 3,
            EventLevel::Trace => 4,
        }
    }

    /// Whether a message of this level is printed, where those up to `max` are.
    pub fn is_enabled(self, max: EventLevel) -> (r: bool)
        ensures
            r == (self.rank() <= max.rank()),
    {
        match self {
            EventLevel::Error => true,
            EventLevel::Warn => !matches!(max, EventLevel::Error),
            EventLevel::Info => !matches!(max, EventLevel::Error | EventLevel::Warn),
            EventLevel::Debug => matches!(max, EventLevel::Debug | EventLevel::Trace),
            EventLevel::Trace => matches!(max, EventLevel::Trace),
        }
    }

    /// The name under which those who follow the log get a message.
    pub fn broadcast_name(self) -> (r: &'static str)
        ensures
            r@ == (match self {
                EventLevel::Error => "error"@,
                EventLevel::Warn => "warning"@,
                EventLevel::Info => "info"@,
                EventLevel::Debug => "debug"@,
                EventLevel::Trace => "debug"@,
            }),
    {
        match self {
            EventLevel::Error => "error",
            EventLevel::Warn => "warning",
            EventLevel::Info => "info",
            EventLevel::Debug => "debug",
            EventLevel::Trace => "debug",
        }
    }
}

/// The name of a level in the settings.
pub open spec fn setting_name(l: LogLevel) -> Seq<char> {
    match l {
        LogLevel::Trace => "trace"@,
        LogLevel::Debug => "debug"@,
        LogLevel::Info => "info"@,
        LogLevel::Warn => "warn"@,
        LogLevel::Error => "error"@,
        LogLevel::Off => "off"@,
    }
}

/// The last level that a name lets print, if any; an unknown name stands for the
/// usual one.
pub open spec fn verbosity_of(name: Seq<char>) -> Option<EventLevel> {
    if name == "trace"@ {
        Some(EventLevel::Trace)
    } else if name == "debug"@ {
        Some(EventLevel::Debug)
    } else if name == "warn"@ {
        Some(EventLevel::Warn)
    } else if name == "error"@ {
        Some(EventLevel::Error)
    } else if name == "off"@ {
        None
    } else {
        Some(EventLevel::Info)
    }
}

/// The last level that is printed, if any: what the command line asks for, or else
/// the settings.
pub fn verbosity(log: Option<&str>, level: LogLevel) -> (r: Option<EventLevel>)
    ensures
        r == verbosity_of(
            match log {
                Some(l) => l@,
                None => setting_name(level),
            },
        ),
{
    let name: &str = match log {
        Some(l) => l,
        None => match level {
            LogLevel::Trace => "trace",
            LogLevel::Debug => "debug",
            LogLevel::Info => "info",
            LogLevel::Warn => "warn",
            LogLevel::Error => "error",
            LogLevel::Off => "off",
        },
    };
    if text::same_text(name, "trace") {
        Some(EventLevel::Trace)
    } else if text::same_text(name, "debug") {
        Some(EventLevel::Debug)
    } else if text::same_text(name, "warn") {
        Some(EventLevel::Warn)
    } else if text::same_text(name, "error") {
        Some(EventLevel::Error)
    } else if text::same_text(name, "off") {
        None
    } else {
        Some(EventLevel::Info)
    }
}

/// The number of files that the process is to be allowed to open, if it is to
/// be raised.
pub fn nofile_target(current: u64, max: u64) -> (r: Option<u64>)
    ensures
        ({
            let t = if max < 1048576 {
                max
            } else {
                1048576
            };
            r == (if current < t {
                Some(t)
            } else {
                None
            })
        }),
{
    let t: u64 = if max < 1048576 {
        max
    } else {
        1048576
    };
    if current < t {
        Some(t)
    } else {
        None
    }
}

/// The flags differ.
proof fn lemma_flags()
    ensures
        "--config"@ != "-c"@,
        "--config"@ != "-C"@,
        "--config"@ != "--dir"@,
        "--config"@ != "-d"@,
        "--config"@ != "-D"@,
        "--config"@ != "--log"@,
        "--config"@ != "-l"@,
        "--config"@ != "--help"@,
        "--config"@ != "-h"@,
        "--config"@ != "--version"@,
        "--config"@ != "-v"@,
        "-c"@ != "-C"@,
        "-c"@ != "--dir"@,
        "-c"@ != "-d"@,
        "-c"@ != "-D"@,
        "-c"@ != "--log"@,
        "-c"@ != "-l"@,
        "-c"@ != "--help"@,
        "-c"@ != "-h"@,
        "-c"@ != "--version"@,
        "-c"@ != "-v"@,
        "-C"@ != "--dir"@,
        "-C"@ != "-d"@,
        "-C"@ != "-D"@,
        "-C"@ != "--log"@,
        "-C"@ != "-l"@,
        "-C"@ != "--help"@,
        "-C"@ != "-h"@,
        "-C"@ != "--version"@,
        "-C"@ != "-v"@,
        "--dir"@ != "-d"@,
        "--dir"@ != "-D"@,
        "--dir"@ != "--log"@,
        "--dir"@ != "-l"@,
        "--dir"@ != "--help"@,
        "--dir"@ != "-h"@,
        "--dir"@ != "--version"@,
        "--dir"@ != "-v"@,
        "-d"@ != "-D"@,
        "-d"@ != "--log"@,
        "-d"@ != "-l"@,
        "-d"@ != "--help"@,
        "-d"@ != "-h"@,
        "-d"@ != "--version"@,
        "-d"@ != "-v"@,
        "-D"@ != "--log"@,
        "-D"@ != "-l"@,
        "-D"@ != "--help"@,
        "-D"@ != "-h"@,
        "-D"@ != "--version"@,
        "-D"@ != "-v"@,
        "--log"@ != "-l"@,
        "--log"@ != "--help"@,
        "--log"@ != "-h"@,
        "--log"@ != "--version"@,
        "--log"@ != "-v"@,
        "-l"@ != "--help"@,
        "-l"@ != "-h"@,
        "-l"@ != "--version"@,
        "-l"@ != "-v"@,
        "--help"@ != "-h"@,
        "--help"@ != "--version"@,
        "--help"@ != "-v"@,
        "-h"@ != "--version"@,
        "-h"@ != "-v"@,
        "--version"@ != "-v"@,
{
    reveal_strlit("--config");
    assert("--config"@.len() == 8);
    reveal_strlit("-c");
    assert("-c"@.len() == 2);
    reveal_strlit("-C");
    assert("-C"@.len() == 2);
    reveal_strlit("--dir");
    assert("--dir"@.len() == 5);
    reveal_strlit("-d");
    assert("-d"@.len() == 2);
    reveal_strlit("-D");
    assert("-D"@.len() == 2);
    reveal_strlit("--log");
    assert("--log"@.len() == 5);
    reveal_strlit("-l");
    assert("-l"@.len() == 2);
    reveal_strlit("--help");
    assert("--help"@.len() == 6);
    reveal_strlit("-h");
    assert("-h"@.len() == 2);
    reveal_strlit("--version");
    assert("--version"@.len() == 9);
    reveal_strlit("-v");
    assert("-v"@.len() == 2);
    assert("-c"@[1] == 'c' && "-C"@[1] == 'C');
    assert("-c"@[1] == 'c' && "-d"@[1] == 'd');
    assert("-c"@[1] == 'c' && "-D"@[1] == 'D');
    assert("-c"@[1] == 'c' && "-l"@[1] == 'l');
    assert("-c"@[1] == 'c' && "-h"@[1] == 'h');
    assert("-c"@[1] == 'c' && "-v"@[1] == 'v');
    assert("-C"@[1] == 'C' && "-d"@[1] == 'd');
    assert("-C"@[1] == 'C' && "-D"@[1] == 'D');
    assert("-C"@[1] == 'C' && "-l"@[1] == 'l');
    assert("-C"@[1] == 'C' && "-h"@[1] == 'h');
    assert("-C"@[1] == 'C' && "-v"@[1] == 'v');
    assert("--dir"@[2] == 'd' && "--log"@[2] == 'l');
    assert("-d"@[1] == 'd' && "-D"@[1] == 'D');
    assert("-d"@[1] == 'd' && "-l"@[1] == 'l');
    assert("-d"@[1] == 'd' && "-h"@[1] == 'h');
    assert("-d"@[1] == 'd' && "-v"@[1] == 'v');
    assert("-D"@[1] == 'D' && "-l"@[1] == 'l');
    assert("-D"@[1] == 'D' && "-h"@[1] == 'h');
    assert("-D"@[1] == 'D' && "-v"@[1] == 'v');
    assert("-l"@[1] == 'l' && "-h"@[1] == 'h');
    assert("-l"@[1] == 'l' && "-v"@[1] == 'v');
    assert("-h"@[1] == 'h' && "-v"@[1] == 'v');
}

/// The words of commands differ.
proof fn lemma_commands()
    ensures
        "ruleset"@ != "inspect"@,
        "ruleset"@ != "test-rule"@,
        "ruleset"@ != "convert"@,
        "ruleset"@ != "check"@,
        "ruleset"@ != "run"@,
        "inspect"@ != "test-rule"@,
        "inspect"@ != "convert"@,
        "inspect"@ != "check"@,
        "inspect"@ != "run"@,
        "test-rule"@ != "convert"@,
        "test-rule"@ != "check"@,
        "test-rule"@ != "run"@,
        "convert"@ != "check"@,
        "convert"@ != "run"@,
        "check"@ != "run"@,
{
    reveal_strlit("ruleset");
    assert("ruleset"@.len() == 7);
    reveal_strlit("inspect");
    assert("inspect"@.len() == 7);
    reveal_strlit("test-rule");
    assert("test-rule"@.len() == 9);
    reveal_strlit("convert");
    assert("convert"@.len() == 7);
    reveal_strlit("check");
    assert("check"@.len() == 5);
    reveal_strlit("run");
    assert("run"@.len() == 3);
    assert("ruleset"@[0] == 'r' && "inspect"@[0] == 'i');
    assert("ruleset"@[0] == 'r' && "convert"@[0] == 'c');
    assert("inspect"@[0] == 'i' && "convert"@[0] == 'c');
}

/// What the first word asks for, with whatever follows it. Without a word, and
/// with a word that is no command, the program runs, and then everything counts
/// as an option.
pub proof fn law_words_of_commands(program: Seq<char>, word: Seq<char>, rest: Seq<Seq<char>>, c: Command)
    requires
        asks_for(seq![program, word] + rest, c),
    ensures
        word == "ruleset"@ ==> (c matches Command::Ruleset(v) && words(v@) == rest),
        word == "inspect"@ ==> (c matches Command::Inspect(v) && words(v@) == rest),
        word == "test-rule"@ ==> (c matches Command::TestRule(v) && words(v@) == rest),
        word == "convert"@ ==> (c matches Command::Convert(v) && words(v@) == rest),
        word == "check"@ && rest.len() > 0 ==> (c matches Command::Check(p) && p@ == rest[0]),
        word == "check"@ && rest.len() == 0 ==> (c matches Command::Check(p) && p@
            == "config.json"@),
        word == "run"@ ==> (c matches Command::Run(v) && words(v@) == rest),
        word != "ruleset"@ && word != "inspect"@ && word != "test-rule"@ && word != "convert"@
            && word != "check"@ && word != "run"@ ==> (c matches Command::Run(v) && words(v@)
            == seq![word] + rest),
{
    lemma_commands();
    let args = seq![program, word] + rest;
    assert(args.skip(2) =~= rest);
    assert(args.skip(1) =~= seq![word] + rest);
}

/// An option that is given, with its value.
pub ghost enum Given {
    Config(Seq<char>),
    Dir(Seq<char>),
    Log(Seq<char>),
}

/// Whether a word is a flag of an option, and the next one its value.
pub open spec fn gives(flag: Seq<char>, value: Seq<char>, o: Given) -> bool {
    match o {
        Given::Config(v) => value == v && (flag == "--config"@ || flag == "-c"@ || flag == "-C"@),
        Given::Dir(v) => value == v && (flag == "--dir"@ || flag == "-d"@ || flag == "-D"@),
        Given::Log(v) => value == v && (flag == "--log"@ || flag == "-l"@),
    }
}

/// What options come to: of each kind the last one counts, and all directories
/// are noted.
pub open spec fn taken(os: Seq<Given>) -> RunView
    decreases os.len(),
{
    if os.len() == 0 {
        RunView { config: None, dir: None, log: None, dirs: Seq::empty() }
    } else {
        let v = taken(os.drop_last());
        match os.last() {
            Given::Config(c) => RunView { config: Some(c), ..v },
            Given::Dir(d) => RunView { dir: Some(d), dirs: v.dirs.push(d), ..v },
            Given::Log(l) => RunView { log: Some(l), ..v },
        }
    }
}

proof fn lemma_taken(args: Seq<Seq<char>>, os: Seq<Given>, k: int)
    requires
        0 <= k <= os.len(),
        args.len() >= 2 * os.len(),
        forall|i: int|
            0 <= i < os.len() ==> gives(args[2 * i], args[2 * i + 1], #[trigger] os[i]),
    ensures
        run_from(args, 0, no_options()) == run_from(args, 2 * k, taken(os.take(k))),
    decreases k,
{
    if k == 0 {
        assert(os.take(0) =~= Seq::<Given>::empty());
        assert(no_options().dirs =~= Seq::<Seq<char>>::empty());
    } else {
        lemma_taken(args, os, k - 1);
        lemma_flags();
        assert(os.take(k).drop_last() =~= os.take(k - 1));
        assert(os.take(k).last() == os[k - 1]);
        assert(gives(args[2 * (k - 1)], args[2 * (k - 1) + 1], os[k - 1]));
        assert(arg_at(args, 2 * (k - 1) + 1) == Some(args[2 * (k - 1) + 1]));
    }
}

/// Options are taken in whatever order they come, by their long and their short
/// flags. Behind them, a question for help or for the version ends the reading;
/// a flag for a directory without one, and any other word, is an error.
pub proof fn law_options_are_taken(args: Seq<Seq<char>>, os: Seq<Given>)
    requires
        args.len() >= 2 * os.len(),
        forall|i: int|
            0 <= i < os.len() ==> gives(args[2 * i], args[2 * i + 1], #[trigger] os[i]),
    ensures
        ({
            let n = (2 * os.len()) as int;
            let (v, e) = run_from(args, 0, no_options());
            let next = args[n];
            &&& args.len() == n ==> v == taken(os) && e is Run
            &&& args.len() > n && (next == "--help"@ || next == "-h"@) ==> e is Help
            &&& args.len() > n && (next == "--version"@ || next == "-v"@) ==> e is Version
            &&& args.len() == n + 1 && (next == "--dir"@ || next == "-d"@ || next == "-D"@) ==> e
                is NoDirectory
            &&& args.len() > n && next != "--config"@ && next != "-c"@ && next != "-C"@ && next
                != "--dir"@ && next != "-d"@ && next != "-D"@ && next != "--log"@ && next != "-l"@
                && next != "--help"@ && next != "-h"@ && next != "--version"@ && next != "-v"@ ==> e
                == RunEnd::Unknown(next)
            &&& v.dirs == taken(os).dirs || args.len() > n
        }),
{
    lemma_flags();
    lemma_taken(args, os, os.len() as int);
    assert(os.take(os.len() as int) =~= os);
}

proof fn lemma_output(args: Seq<Seq<char>>, i: int, k: int)
    requires
        0 <= i <= k <= args.len(),
        forall|j: int|
            i <= j < k ==> #[trigger] args[j] != "-o"@ && !text::has_prefix(args[j], "-o="@),
    ensures
        output_in(args, i) == output_in(args, k),
    decreases k - i,
{
    if i < k {
        assert(args[i] != "-o"@ && !text::has_prefix(args[i], "-o="@));
        lemma_output(args, i + 1, k);
    }
}

/// The output is what follows the first `-o`, or stands behind `-o=`, whatever
/// other arguments there are.
pub proof fn law_output_is_found(args: Seq<Seq<char>>, k: int, out: Seq<char>)
    requires
        0 <= k <= args.len(),
        forall|j: int|
            0 <= j < k ==> #[trigger] args[j] != "-o"@ && !text::has_prefix(args[j], "-o="@),
    ensures
        k == args.len() ==> output_in(args, 0) == Err::<Seq<char>, FlagError>(FlagError::Missing),
        k + 1 < args.len() && args[k] == "-o"@ && args[k + 1] == out ==> output_in(args, 0) == Ok::<
            Seq<char>,
            FlagError,
        >(out),
        k + 1 == args.len() && args[k] == "-o"@ ==> output_in(args, 0) == Err::<
            Seq<char>,
            FlagError,
        >(FlagError::NoArgument),
        k < args.len() && args[k] == "-o="@ + out ==> output_in(args, 0) == Ok::<
            Seq<char>,
            FlagError,
        >(out),
{
    lemma_output(args, 0, k);
    reveal_strlit("-o");
    reveal_strlit("-o=");
    let s = "-o="@ + out;
    assert("-o"@.len() == 2 && s.len() >= 3);
    assert(s.take(3) =~= "-o="@);
    assert(s.skip(3) =~= out);
}

/// The directory of a file is the path without its last component.
pub proof fn law_directory_of_a_file(cs: Seq<Seq<char>>, file: Seq<char>)
    requires
        cs.len() > 0,
        forall|i: int| 0 <= i < cs.len() ==> !(#[trigger] cs[i]).contains('/'),
        !file.contains('/'),
        file.len() > 0,
        file != "."@,
        cs.last().len() > 0,
        cs.last() != "."@,
    ensures
        parent(text::joined(cs.push(file), '/')) == Some(text::joined(cs, '/')),
        parent(file) == Some(Seq::<char>::empty()),
{
    let all = cs.push(file);
    let n = cs.len() as int;
    assert forall|i: int| 0 <= i < all.len() implies !(#[trigger] all[i]).contains('/') by {
        if i < n {
            assert(all[i] == cs[i]);
        }
    }
    text::law_parts_of_joined(all, '/');
    assert(all[n] == file && all[n - 1] == cs.last());
    assert(counts(all, n) && counts(all, n - 1));
    assert(all.take(n) =~= cs);
    let one = seq![file];
    text::law_parts_of_joined(one, '/');
    assert(text::joined(one, '/') == file);
    assert(counts(one, 0));
    assert(last_counting(one, 0) == -1);
    assert(file[0] != '/') by {
        assert(file.contains(file[0]));
    }
}

proof fn lemma_config_count(names: Seq<Seq<char>>, n: int)
    requires
        0 <= n <= names.len(),
    ensures
        config_count(names, n) == 0 <==> forall|i: int|
            0 <= i < n ==> !is_config_name(#[trigger] names[i]),
        config_count(names, n) >= 2 <==> exists|i: int, j: int|
            0 <= i < j < n && is_config_name(#[trigger] names[i]) && is_config_name(
                #[trigger] names[j],
            ),
    decreases n,
{
    if n > 0 {
        lemma_config_count(names, n - 1);
        if config_count(names, n) >= 2 && config_count(names, n - 1) < 2 {
            assert(config_count(names, n - 1) == 1);
            assert(is_config_name(names[n - 1]));
            let i = choose|i: int| 0 <= i < n - 1 && is_config_name(#[trigger] names[i]);
            assert(is_config_name(names[i]) && is_config_name(names[n - 1]));
        }
        if exists|i: int, j: int|
            0 <= i < j < n && is_config_name(#[trigger] names[i]) && is_config_name(
                #[trigger] names[j],
            ) {
            let (i, j) = choose|i: int, j: int|
                0 <= i < j < n && is_config_name(#[trigger] names[i]) && is_config_name(
                    #[trigger] names[j],
                );
            if j == n - 1 {
                assert(is_config_name(names[i]));
                assert(config_count(names, n - 1) > 0);
            }
        }
    }
}

/// The number of files that may hold settings is zero if there is none, and more
/// than one exactly if there are two.
pub proof fn law_files_of_settings_are_counted(names: Seq<Seq<char>>)
    ensures
        config_count(names, names.len() as int) == 0 <==> forall|i: int|
            0 <= i < names.len() ==> !is_config_name(#[trigger] names[i]),
        config_count(names, names.len() as int) >= 2 <==> exists|i: int, j: int|
            0 <= i < j < names.len() && is_config_name(#[trigger] names[i]) && is_config_name(
                #[trigger] names[j],
            ),
{
    lemma_config_count(names, names.len() as int);
}

} // verus!

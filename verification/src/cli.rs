//! What the words of a command line ask for.

use crate::config;
use crate::order::TextMap;
use crate::text;
use vstd::prelude::*;

verus! {

// ── Arguments of a run ──

/// What a run is asked for: the topic, the policy and whether the shell is off.
pub type GRun = (Seq<char>, Option<Seq<char>>, bool);

/// What the words from the `i`-th on ask a run for: options stand anywhere, and
/// all other words make up the topic.
pub open spec fn run_from(
    args: Seq<Seq<char>>,
    i: int,
    topic: Seq<Seq<char>>,
    policy: Option<Seq<char>>,
    restrict: bool,
) -> Result<GRun, Seq<char>>
    decreases args.len() - i,
{
    if i < 0 || i >= args.len() {
        Ok((text::join_spec(topic, " "@), policy, restrict))
    } else if args[i] == "--policy"@ {
        if i + 1 >= args.len() {
            Err("--policy requires a .eval file path"@)
        } else {
            run_from(args, i + 2, topic, Some(args[i + 1]), restrict)
        }
    } else if args[i] == "--restrict-shell"@ {
        run_from(args, i + 1, topic, policy, true)
    } else {
        run_from(args, i + 1, topic.push(args[i]), policy, restrict)
    }
}

/// A result as a value.
pub open spec fn run_result(r: Result<(String, Option<String>, bool), String>) -> Result<
    GRun,
    Seq<char>,
> {
    match r {
        Ok((t, p, s)) => Ok((t@, text::opt_view(p), s)),
        Err(e) => Err(e@),
    }
}

/// What the words ask a run for, or what is wrong with them.
pub fn split_run_args(args: &Vec<String>) -> (r: Result<(String, Option<String>, bool), String>)
    ensures
        run_result(r) == run_from(text::views(args@), 0, Seq::empty(), None, false),
{
    let ghost av = text::views(args@);
    let n: usize = args.len();
    let mut topic: Vec<String> = Vec::new();
    let mut policy: Option<String> = None;
    let mut restrict = false;
    let mut i: usize = 0;
    assert(text::views(topic@) =~= Seq::<Seq<char>>::empty());
    let ghost all = run_from(av, 0, Seq::empty(), None, false);
    while i < n
        invariant
            i <= n,
            n == args@.len(),
            av == text::views(args@),
            all == run_from(av, 0, Seq::empty(), None, false),
            all == run_from(
                av,
                i as int,
                text::views(topic@),
                text::opt_view(policy),
                restrict,
            ),
        decreases n - i,
    {
        assert(av[i as int] == args@[i as int]@);
        if text::same(args[i].as_str(), "--policy") {
            if i >= n - 1 {
                return Err("--policy requires a .eval file path".to_owned());
            }
            assert(av[i + 1] == args@[i + 1]@);
            policy = Some(args[i + 1].clone());
            i += 2;
        } else if text::same(args[i].as_str(), "--restrict-shell") {
            restrict = true;
            i += 1;
        } else {
            let ghost before = topic@;
            topic.push(args[i].clone());
            assert(text::views(topic@) =~= text::views(before).push(av[i as int]));
            i += 1;
        }
    }
    Ok((text::join(topic.as_slice(), " "), policy, restrict))
}

// ── Arguments of a promotion ──

/// What a promotion is asked for: the days, the number of candidates, whether it
/// is a trial, and how many numbers were given.
pub type GPromote = (int, int, bool, int);

/// What the first `n` words ask a promotion for: the first number is the days,
/// the second the number of candidates.
pub open spec fn promote_until(args: Seq<Seq<char>>, n: int) -> GPromote
    decreases n,
{
    if n <= 0 {
        (7, 40, false, 0)
    } else {
        let p = promote_until(args, n - 1);
        let a = args[n - 1];
        if a == "--dry"@ {
            (p.0, p.1, true, p.3)
        } else if p.3 == 0 {
            match text::unsigned_spec(a, u32::MAX as nat) {
                Some(d) => (d as int, p.1, p.2, 1),
                None => p,
            }
        } else if p.3 == 1 {
            match text::unsigned_spec(a, usize::MAX as nat) {
                Some(t) => (p.0, t as int, p.2, 2),
                None => p,
            }
        } else {
            p
        }
    }
}

/// What the words ask a promotion for.
pub fn parse_promote_args(args: &Vec<String>) -> (r: (u32, usize, bool))
    ensures
        ({
            let p = promote_until(text::views(args@), args@.len() as int);
            r.0 == p.0 && r.1 == p.1 && r.2 == p.2
        }),
{
    let ghost av = text::views(args@);
    let mut days: u32 = 7;
    let mut top: usize = 40;
    let mut dry = false;
    let mut given: u8 = 0;
    let mut i: usize = 0;
    while i < args.len()
        invariant
            i <= args@.len(),
            av == text::views(args@),
            given <= 2,
            promote_until(av, i as int) == (days as int, top as int, dry, given as int),
        decreases args@.len() - i,
    {
        assert(av[i as int] == args@[i as int]@);
        if text::same(args[i].as_str(), "--dry") {
            dry = true;
        } else if given == 0 {
            match text::parse_unsigned(args[i].as_str(), u32::MAX as u64) {
                Some(d) => {
                    days = d as u32;
                    given = 1;
                },
                None => {},
            }
        } else if given == 1 {
            match text::parse_unsigned(args[i].as_str(), usize::MAX as u64) {
                Some(t) => {
                    top = t as usize;
                    given = 2;
                },
                None => {},
            }
        }
        i += 1;
    }
    (days, top, dry)
}

// ── Topics ──

/// The topic in front of the parameters; one is chosen where there is none.
pub open spec fn topic_of(input: Seq<char>) -> Seq<char> {
    let t = text::trimmed(text::split_str_spec(input, "--"@)[0]);
    if t.len() == 0 {
        "AI"@
    } else {
        t
    }
}

/// The parameters that the parts from the second up to the `n`-th give.
pub open spec fn params_of(parts: Seq<Seq<char>>, n: int) -> Map<Seq<char>, Seq<char>>
    decreases n,
{
    if n <= 1 {
        Map::empty()
    } else {
        match text::split_once_spec(parts[n - 1], '=') {
            Some((k, v)) if text::trimmed(k).len() > 0 => params_of(parts, n - 1).insert(
                text::trimmed(k),
                text::trimmed(v),
            ),
            _ => params_of(parts, n - 1),
        }
    }
}

/// The topic and the parameters behind it.
pub fn parse_topic_params(input: &str) -> (r: (String, TextMap<String>))
    ensures
        r.0@ == topic_of(input@),
        r.1.wf(),
        config::entries_view(r.1) == params_of(
            text::split_str_spec(input@, "--"@),
            text::split_str_spec(input@, "--"@).len() as int,
        ),
{
    proof {
        reveal_strlit("--");
    }
    let parts = text::split_str(input, "--");
    let ghost pv = text::views(parts@);
    assert(pv.len() == parts@.len());
    assert(pv.len() >= 1);
    assert(pv[0] == parts@[0]@);
    let t = text::trim(parts[0].as_str());
    let topic = if t.as_str().is_empty() {
        "AI".to_owned()
    } else {
        t
    };
    let mut params: TextMap<String> = TextMap::new();
    let mut i: usize = 1;
    assert(config::entries_view(params) =~= Map::<Seq<char>, Seq<char>>::empty());
    while i < parts.len()
        invariant
            1 <= i <= parts@.len(),
            pv == text::views(parts@),
            params.wf(),
            config::entries_view(params) == params_of(pv, i as int),
        decreases parts@.len() - i,
    {
        assert(pv[i as int] == parts@[i as int]@);
        match text::split_once(parts[i].as_str(), '=') {
            Some((k, v)) => {
                let kt = text::trim(k.as_str());
                let vt = text::trim(v.as_str());
                if !kt.as_str().is_empty() {
                    let ghost before = config::entries_view(params);
                    let ghost ke = kt@;
                    let ghost ve = vt@;
                    params.insert(kt, vt);
                    assert(config::entries_view(params) =~= before.insert(ke, ve));
                }
            },
            None => {},
        }
        i += 1;
    }
    (topic, params)
}

// ── Commands ──

/// What a command line asks for.
#[derive(Debug, PartialEq)]
pub enum Command {
    /// Nothing that is known.
    Usage,
    /// Check this file.
    Check(String),
    /// Run this file with these words.
    Run(String, Vec<String>),
    /// Show the graph of this file.
    Graph(String),
    /// Show the structure of this file.
    Parse(String),
    /// Import these files and directories.
    Import(Vec<String>),
    /// Search for procs.
    Search(String),
    /// Search for procs by relevance.
    Fts(String),
    /// Put a composition of this name and description together from tags.
    Compose(String, String, Vec<String>),
    /// Show what the store holds.
    DbStats,
    /// Show procs that are alike, with those of this file.
    Discover(Option<String>),
    /// Look for patterns in this directory.
    Learn(String),
    /// See whether all is well.
    Doctor,
    /// Run this command and keep it under this tag.
    Wrap(String, String),
    /// Show repeated commands of so many days.
    Harvest(u32),
    /// Grow constructs from so many days, and keep so many.
    Grow(u32, usize),
    /// Show constructs.
    Scaffold(String),
    /// Promote repeated commands, with these words.
    Promote(Vec<String>),
    /// Clear the mark of a degraded run.
    DegradedClear(String),
    /// Show the degraded runs.
    Degraded,
    /// Save a version of this file with a description.
    VersionSave(String, String),
    /// Show the versions of this file.
    VersionLog(String),
    /// Compare two versions of this file.
    VersionDiff(String, String, String),
    /// Show the patches.
    PatchList,
    /// Clear the patches of a pipeline.
    PatchClear(String),
    /// Patch a field of an implementation.
    PatchSet(String, String, String, String, String),
    /// Register a script.
    ScriptAttach(String),
    /// Forget a script.
    ScriptDetach(String),
    /// Show the scripts.
    ScriptList,
    /// Show the card of a script.
    ScriptShow(String),
    /// Call a script with these arguments.
    ScriptCall(String, String),
    /// Show the trees of sessions, with these words.
    Tree(Vec<String>),
}

/// What a command line asks for, as values.
pub enum GCommand {
    Usage,
    Check(Seq<char>),
    Run(Seq<char>, Seq<Seq<char>>),
    Graph(Seq<char>),
    Parse(Seq<char>),
    Import(Seq<Seq<char>>),
    Search(Seq<char>),
    Fts(Seq<char>),
    Compose(Seq<char>, Seq<char>, Seq<Seq<char>>),
    DbStats,
    Discover(Option<Seq<char>>),
    Learn(Seq<char>),
    Doctor,
    Wrap(Seq<char>, Seq<char>),
    Harvest(int),
    Grow(int, int),
    Scaffold(Seq<char>),
    Promote(Seq<Seq<char>>),
    DegradedClear(Seq<char>),
    Degraded,
    VersionSave(Seq<char>, Seq<char>),
    VersionLog(Seq<char>),
    VersionDiff(Seq<char>, Seq<char>, Seq<char>),
    PatchList,
    PatchClear(Seq<char>),
    PatchSet(Seq<char>, Seq<char>, Seq<char>, Seq<char>, Seq<char>),
    ScriptAttach(Seq<char>),
    ScriptDetach(Seq<char>),
    ScriptList,
    ScriptShow(Seq<char>),
    ScriptCall(Seq<char>, Seq<char>),
    Tree(Seq<Seq<char>>),
}

impl Command {
    pub open spec fn view(&self) -> GCommand {
        match self {
            Command::Usage => GCommand::Usage,
            Command::Check(a) => GCommand::Check(a@),
            Command::Run(a, b) => GCommand::Run(a@, text::views(b@)),
            Command::Graph(a) => GCommand::Graph(a@),
            Command::Parse(a) => GCommand::Parse(a@),
            Command::Import(a) => GCommand::Import(text::views(a@)),
            Command::Search(a) => GCommand::Search(a@),
            Command::Fts(a) => GCommand::Fts(a@),
            Command::Compose(a, b, c) => GCommand::Compose(a@, b@, text::views(c@)),
            Command::DbStats => GCommand::DbStats,
            Command::Discover(a) => GCommand::Discover(text::opt_view(*a)),
            Command::Learn(a) => GCommand::Learn(a@),
            Command::Doctor => GCommand::Doctor,
            Command::Wrap(a, b) => GCommand::Wrap(a@, b@),
            Command::Harvest(a) => GCommand::Harvest(*a as int),
            Command::Grow(a, b) => GCommand::Grow(*a as int, *b as int),
            Command::Scaffold(a) => GCommand::Scaffold(a@),
            Command::Promote(a) => GCommand::Promote(text::views(a@)),
            Command::DegradedClear(a) => GCommand::DegradedClear(a@),
            Command::Degraded => GCommand::Degraded,
            Command::VersionSave(a, b) => GCommand::VersionSave(a@, b@),
            Command::VersionLog(a) => GCommand::VersionLog(a@),
            Command::VersionDiff(a, b, c) => GCommand::VersionDiff(a@, b@, c@),
            Command::PatchList => GCommand::PatchList,
            Command::PatchClear(a) => GCommand::PatchClear(a@),
            Command::PatchSet(a, b, c, d, e) => GCommand::PatchSet(a@, b@, c@, d@, e@),
            Command::ScriptAttach(a) => GCommand::ScriptAttach(a@),
            Command::ScriptDetach(a) => GCommand::ScriptDetach(a@),
            Command::ScriptList => GCommand::ScriptList,
            Command::ScriptShow(a) => GCommand::ScriptShow(a@),
            Command::ScriptCall(a, b) => GCommand::ScriptCall(a@, b@),
            Command::Tree(a) => GCommand::Tree(text::views(a@)),
        }
    }
}

/// The number that a word gives, or another where there is no such word.
pub open spec fn number_at(args: Seq<Seq<char>>, i: int, max: nat, other: int) -> int {
    if i < args.len() {
        match text::unsigned_spec(args[i], max) {
            Some(n) => n as int,
            None => other,
        }
    } else {
        other
    }
}

/// What a command line asks for: the first word is the program, the second the
/// command, and a command with too few words is not known.
pub open spec fn command_of(args: Seq<Seq<char>>) -> GCommand {
    let n = args.len();
    if n < 2 {
        GCommand::Usage
    } else {
        let c = args[1];
        if c == "check"@ && n >= 3 {
            GCommand::Check(args[2])
        } else if c == "run"@ && n >= 3 {
            GCommand::Run(args[2], args.skip(3))
        } else if c == "graph"@ && n >= 3 {
            GCommand::Graph(args[2])
        } else if c == "parse"@ && n >= 3 {
            GCommand::Parse(args[2])
        } else if c == "import"@ && n >= 3 {
            GCommand::Import(args.skip(2))
        } else if c == "search"@ && n >= 3 {
            GCommand::Search(args[2])
        } else if c == "fts"@ && n >= 3 {
            GCommand::Fts(args[2])
        } else if c == "compose"@ && n >= 5 {
            GCommand::Compose(args[2], args[3], args.skip(4))
        } else if c == "db-stats"@ {
            GCommand::DbStats
        } else if c == "discover"@ && n >= 3 {
            GCommand::Discover(Some(args[2]))
        } else if c == "discover"@ {
            GCommand::Discover(None)
        } else if c == "learn"@ && n >= 3 {
            GCommand::Learn(args[2])
        } else if c == "learn"@ {
            GCommand::Learn(Seq::empty())
        } else if c == "doctor"@ {
            GCommand::Doctor
        } else if c == "wrap"@ && n >= 5 {
            GCommand::Wrap(args[2], text::join_spec(args.skip(4), " "@))
        } else if c == "harvest"@ {
            GCommand::Harvest(number_at(args, 2, u32::MAX as nat, 7))
        } else if c == "grow"@ {
            GCommand::Grow(number_at(args, 2, u32::MAX as nat, 60), number_at(args, 3, usize::MAX as nat, 25))
        } else if c == "scaffold"@ {
            GCommand::Scaffold(text::join_spec(args.skip(2), " "@))
        } else if c == "promote"@ {
            GCommand::Promote(args.skip(2))
        } else if c == "degraded"@ && n >= 4 && args[2] == "clear"@ {
            GCommand::DegradedClear(args[3])
        } else if c == "degraded"@ {
            GCommand::Degraded
        } else if c == "version"@ && n >= 5 && args[2] == "save"@ {
            GCommand::VersionSave(args[3], args[4])
        } else if c == "version"@ && n >= 4 && args[2] == "log"@ {
            GCommand::VersionLog(args[3])
        } else if c == "version"@ && n >= 6 && args[2] == "diff"@ {
            GCommand::VersionDiff(args[3], args[4], args[5])
        } else if c == "patch"@ && n >= 3 && args[2] == "list"@ {
            GCommand::PatchList
        } else if c == "patch"@ && n >= 4 && args[2] == "clear"@ {
            GCommand::PatchClear(args[3])
        } else if c == "patch"@ && n >= 7 {
            GCommand::PatchSet(args[2], args[3], args[4], args[5], args[6])
        } else if c == "script"@ && n >= 4 && args[2] == "attach"@ {
            GCommand::ScriptAttach(args[3])
        } else if c == "script"@ && n >= 4 && args[2] == "detach"@ {
            GCommand::ScriptDetach(args[3])
        } else if c == "script"@ && n >= 3 && args[2] == "list"@ {
            GCommand::ScriptList
        } else if c == "script"@ && n >= 4 && args[2] == "show"@ {
            GCommand::ScriptShow(args[3])
        } else if c == "script"@ && n >= 5 && args[2] == "call"@ {
            GCommand::ScriptCall(args[3], args[4])
        } else if c == "tree"@ {
            GCommand::Tree(args.skip(2))
        } else {
            GCommand::Usage
        }
    }
}

/// The words from the `from`-th on.
fn tail(args: &Vec<String>, from: usize) -> (r: Vec<String>)
    requires
        from <= args@.len(),
    ensures
        text::views(r@) == text::views(args@).skip(from as int),
{
    let ghost av = text::views(args@);
    let mut out: Vec<String> = Vec::new();
    let mut i: usize = from;
    assert(text::views(out@) =~= av.subrange(from as int, from as int));
    while i < args.len()
        invariant
            from <= i <= args@.len(),
            av == text::views(args@),
            text::views(out@) == av.subrange(from as int, i as int),
        decreases args@.len() - i,
    {
        let ghost before = out@;
        out.push(args[i].clone());
        assert(text::views(out@) =~= text::views(before).push(av[i as int]));
        assert(av.subrange(from as int, i + 1) =~= av.subrange(from as int, i as int).push(
            av[i as int],
        ));
        i += 1;
    }
    assert(av.len() == args@.len());
    assert(av.subrange(from as int, av.len() as int) =~= av.skip(from as int));
    out
}

/// Whether the `i`-th word is this one.
fn is_word(args: &Vec<String>, i: usize, w: &str) -> (r: bool)
    requires
        i < args@.len(),
    ensures
        r == (text::views(args@)[i as int] == w@),
{
    text::same(args[i].as_str(), w)
}

/// The `i`-th word.
fn word(args: &Vec<String>, i: usize) -> (r: String)
    requires
        i < args@.len(),
    ensures
        r@ == text::views(args@)[i as int],
{
    args[i].clone()
}

/// No word.
fn nothing() -> (r: String)
    ensures
        r@ == Seq::<char>::empty(),
{
    let e = String::new();
    assert(e@ =~= Seq::<char>::empty());
    e
}

/// The number that a word gives, or another where there is no such word.
fn number(args: &Vec<String>, i: usize, max: u64, other: u64) -> (r: u64)
    requires
        other <= max,
    ensures
        r == number_at(text::views(args@), i as int, max as nat, other as int),
        r <= max,
{
    assert(text::views(args@).len() == args@.len());
    if i < args.len() {
        assert(text::views(args@)[i as int] == args@[i as int]@);
        match text::parse_unsigned(args[i].as_str(), max) {
            Some(n) => n,
            None => other,
        }
    } else {
        other
    }
}

/// What a command line asks for.
pub fn dispatch(args: &Vec<String>) -> (r: Command)
    ensures
        r@ == command_of(text::views(args@)),
{
    let ghost av = text::views(args@);
    let n: usize = args.len();
    assert(av.len() == n);
    if n < 2 {
        return Command::Usage;
    }
    if is_word(args, 1, "check") && n >= 3 {
        Command::Check(word(args, 2))
    } else if is_word(args, 1, "run") && n >= 3 {
        Command::Run(word(args, 2), tail(args, 3))
    } else if is_word(args, 1, "graph") && n >= 3 {
        Command::Graph(word(args, 2))
    } else if is_word(args, 1, "parse") && n >= 3 {
        Command::Parse(word(args, 2))
    } else if is_word(args, 1, "import") && n >= 3 {
        Command::Import(tail(args, 2))
    } else if is_word(args, 1, "search") && n >= 3 {
        Command::Search(word(args, 2))
    } else if is_word(args, 1, "fts") && n >= 3 {
        Command::Fts(word(args, 2))
    } else if is_word(args, 1, "compose") && n >= 5 {
        Command::Compose(word(args, 2), word(args, 3), tail(args, 4))
    } else if is_word(args, 1, "db-stats") {
        Command::DbStats
    } else if is_word(args, 1, "discover") && n >= 3 {
        Command::Discover(Some(word(args, 2)))
    } else if is_word(args, 1, "discover") {
        Command::Discover(None)
    } else if is_word(args, 1, "learn") && n >= 3 {
        Command::Learn(word(args, 2))
    } else if is_word(args, 1, "learn") {
        Command::Learn(nothing())
    } else if is_word(args, 1, "doctor") {
        Command::Doctor
    } else if is_word(args, 1, "wrap") && n >= 5 {
        Command::Wrap(word(args, 2), text::join(tail(args, 4).as_slice(), " "))
    } else if is_word(args, 1, "harvest") {
        Command::Harvest(number(args, 2, u32::MAX as u64, 7) as u32)
    } else if is_word(args, 1, "grow") {
        Command::Grow(number(args, 2, u32::MAX as u64, 60) as u32, number(args, 3, usize::MAX as u64, 25) as usize)
    } else if is_word(args, 1, "scaffold") {
        Command::Scaffold(text::join(tail(args, 2).as_slice(), " "))
    } else if is_word(args, 1, "promote") {
        Command::Promote(tail(args, 2))
    } else if is_word(args, 1, "degraded") && n >= 4 && is_word(args, 2, "clear") {
        Command::DegradedClear(word(args, 3))
    } else if is_word(args, 1, "degraded") {
        Command::Degraded
    } else if is_word(args, 1, "version") && n >= 5 && is_word(args, 2, "save") {
        Command::VersionSave(word(args, 3), word(args, 4))
    } else if is_word(args, 1, "version") && n >= 4 && is_word(args, 2, "log") {
        Command::VersionLog(word(args, 3))
    } else if is_word(args, 1, "version") && n >= 6 && is_word(args, 2, "diff") {
        Command::VersionDiff(word(args, 3), word(args, 4), word(args, 5))
    } else if is_word(args, 1, "patch") && n >= 3 && is_word(args, 2, "list") {
        Command::PatchList
    } else if is_word(args, 1, "patch") && n >= 4 && is_word(args, 2, "clear") {
        Command::PatchClear(word(args, 3))
    } else if is_word(args, 1, "patch") && n >= 7 {
        Command::PatchSet(word(args, 2), word(args, 3), word(args, 4), word(args, 5), word(args, 6))
    } else if is_word(args, 1, "script") && n >= 4 && is_word(args, 2, "attach") {
        Command::ScriptAttach(word(args, 3))
    } else if is_word(args, 1, "script") && n >= 4 && is_word(args, 2, "detach") {
        Command::ScriptDetach(word(args, 3))
    } else if is_word(args, 1, "script") && n >= 3 && is_word(args, 2, "list") {
        Command::ScriptList
    } else if is_word(args, 1, "script") && n >= 4 && is_word(args, 2, "show") {
        Command::ScriptShow(word(args, 3))
    } else if is_word(args, 1, "script") && n >= 5 && is_word(args, 2, "call") {
        Command::ScriptCall(word(args, 3), word(args, 4))
    } else if is_word(args, 1, "tree") {
        Command::Tree(tail(args, 2))
    } else {
        Command::Usage
    }
}

/// A command that is not known, and one that lacks words, asks for nothing.
pub proof fn law_unknown_commands_do_nothing(args: Seq<Seq<char>>)
    requires
        args.len() < 2 || (args.len() == 2 && (args[1] == "run"@ || args[1] == "check"@ || args[1]
            == "graph"@ || args[1] == "parse"@)),
    ensures
        command_of(args) == GCommand::Usage,
{
    reveal_strlit("run");
    reveal_strlit("check");
    reveal_strlit("graph");
    reveal_strlit("parse");
    reveal_strlit("db-stats");
    reveal_strlit("discover");
    reveal_strlit("learn");
    reveal_strlit("doctor");
    reveal_strlit("harvest");
    reveal_strlit("grow");
    reveal_strlit("scaffold");
    reveal_strlit("promote");
    reveal_strlit("degraded");
    reveal_strlit("tree");
    if args.len() == 2 {
        let c = args[1];
        assert(c.len() == 3 || c.len() == 5);
        assert(c[0] == 'r' || c[0] == 'c' || c[0] == 'g' || c[0] == 'p');
        assert("learn"@[0] == 'l');
    }
}

} // verus!

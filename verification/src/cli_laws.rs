//! What every command line asks for.

use crate::cli;
use crate::cli::GCommand;
use crate::text;
use crate::text_laws;
use vstd::prelude::*;

verus! {

// ── Commands ──

/// The words of the commands differ from each other.
proof fn lemma_commands(c: Seq<char>)
    ensures
        c == "check"@ ==> c != "run"@ && c != "graph"@ && c != "parse"@ && c != "import"@ && c != "search"@ && c != "fts"@ && c != "compose"@ && c != "db-stats"@ && c != "discover"@ && c != "learn"@ && c != "doctor"@ && c != "wrap"@ && c != "harvest"@ && c != "grow"@ && c != "scaffold"@ && c != "promote"@ && c != "degraded"@ && c != "version"@ && c != "patch"@ && c != "script"@ && c != "tree"@,
        c == "run"@ ==> c != "check"@ && c != "graph"@ && c != "parse"@ && c != "import"@ && c != "search"@ && c != "fts"@ && c != "compose"@ && c != "db-stats"@ && c != "discover"@ && c != "learn"@ && c != "doctor"@ && c != "wrap"@ && c != "harvest"@ && c != "grow"@ && c != "scaffold"@ && c != "promote"@ && c != "degraded"@ && c != "version"@ && c != "patch"@ && c != "script"@ && c != "tree"@,
        c == "graph"@ ==> c != "check"@ && c != "run"@ && c != "parse"@ && c != "import"@ && c != "search"@ && c != "fts"@ && c != "compose"@ && c != "db-stats"@ && c != "discover"@ && c != "learn"@ && c != "doctor"@ && c != "wrap"@ && c != "harvest"@ && c != "grow"@ && c != "scaffold"@ && c != "promote"@ && c != "degraded"@ && c != "version"@ && c != "patch"@ && c != "script"@ && c != "tree"@,
        c == "parse"@ ==> c != "check"@ && c != "run"@ && c != "graph"@ && c != "import"@ && c != "search"@ && c != "fts"@ && c != "compose"@ && c != "db-stats"@ && c != "discover"@ && c != "learn"@ && c != "doctor"@ && c != "wrap"@ && c != "harvest"@ && c != "grow"@ && c != "scaffold"@ && c != "promote"@ && c != "degraded"@ && c != "version"@ && c != "patch"@ && c != "script"@ && c != "tree"@,
        c == "import"@ ==> c != "check"@ && c != "run"@ && c != "graph"@ && c != "parse"@ && c != "search"@ && c != "fts"@ && c != "compose"@ && c != "db-stats"@ && c != "discover"@ && c != "learn"@ && c != "doctor"@ && c != "wrap"@ && c != "harvest"@ && c != "grow"@ && c != "scaffold"@ && c != "promote"@ && c != "degraded"@ && c != "version"@ && c != "patch"@ && c != "script"@ && c != "tree"@,
        c == "search"@ ==> c != "check"@ && c != "run"@ && c != "graph"@ && c != "parse"@ && c != "import"@ && c != "fts"@ && c != "compose"@ && c != "db-stats"@ && c != "discover"@ && c != "learn"@ && c != "doctor"@ && c != "wrap"@ && c != "harvest"@ && c != "grow"@ && c != "scaffold"@ && c != "promote"@ && c != "degraded"@ && c != "version"@ && c != "patch"@ && c != "script"@ && c != "tree"@,
        c == "fts"@ ==> c != "check"@ && c != "run"@ && c != "graph"@ && c != "parse"@ && c != "import"@ && c != "search"@ && c != "compose"@ && c != "db-stats"@ && c != "discover"@ && c != "learn"@ && c != "doctor"@ && c != "wrap"@ && c != "harvest"@ && c != "grow"@ && c != "scaffold"@ && c != "promote"@ && c != "degraded"@ && c != "version"@ && c != "patch"@ && c != "script"@ && c != "tree"@,
        c == "compose"@ ==> c != "check"@ && c != "run"@ && c != "graph"@ && c != "parse"@ && c != "import"@ && c != "search"@ && c != "fts"@ && c != "db-stats"@ && c != "discover"@ && c != "learn"@ && c != "doctor"@ && c != "wrap"@ && c != "harvest"@ && c != "grow"@ && c != "scaffold"@ && c != "promote"@ && c != "degraded"@ && c != "version"@ && c != "patch"@ && c != "script"@ && c != "tree"@,
        c == "db-stats"@ ==> c != "check"@ && c != "run"@ && c != "graph"@ && c != "parse"@ && c != "import"@ && c != "search"@ && c != "fts"@ && c != "compose"@ && c != "discover"@ && c != "learn"@ && c != "doctor"@ && c != "wrap"@ && c != "harvest"@ && c != "grow"@ && c != "scaffold"@ && c != "promote"@ && c != "degraded"@ && c != "version"@ && c != "patch"@ && c != "script"@ && c != "tree"@,
        c == "discover"@ ==> c != "check"@ && c != "run"@ && c != "graph"@ && c != "parse"@ && c != "import"@ && c != "search"@ && c != "fts"@ && c != "compose"@ && c != "db-stats"@ && c != "learn"@ && c != "doctor"@ && c != "wrap"@ && c != "harvest"@ && c != "grow"@ && c != "scaffold"@ && c != "promote"@ && c != "degraded"@ && c != "version"@ && c != "patch"@ && c != "script"@ && c != "tree"@,
        c == "learn"@ ==> c != "check"@ && c != "run"@ && c != "graph"@ && c != "parse"@ && c != "import"@ && c != "search"@ && c != "fts"@ && c != "compose"@ && c != "db-stats"@ && c != "discover"@ && c != "doctor"@ && c != "wrap"@ && c != "harvest"@ && c != "grow"@ && c != "scaffold"@ && c != "promote"@ && c != "degraded"@ && c != "version"@ && c != "patch"@ && c != "script"@ && c != "tree"@,
        c == "doctor"@ ==> c != "check"@ && c != "run"@ && c != "graph"@ && c != "parse"@ && c != "import"@ && c != "search"@ && c != "fts"@ && c != "compose"@ && c != "db-stats"@ && c != "discover"@ && c != "learn"@ && c != "wrap"@ && c != "harvest"@ && c != "grow"@ && c != "scaffold"@ && c != "promote"@ && c != "degraded"@ && c != "version"@ && c != "patch"@ && c != "script"@ && c != "tree"@,
        c == "wrap"@ ==> c != "check"@ && c != "run"@ && c != "graph"@ && c != "parse"@ && c != "import"@ && c != "search"@ && c != "fts"@ && c != "compose"@ && c != "db-stats"@ && c != "discover"@ && c != "learn"@ && c != "doctor"@ && c != "harvest"@ && c != "grow"@ && c != "scaffold"@ && c != "promote"@ && c != "degraded"@ && c != "version"@ && c != "patch"@ && c != "script"@ && c != "tree"@,
        c == "harvest"@ ==> c != "check"@ && c != "run"@ && c != "graph"@ && c != "parse"@ && c != "import"@ && c != "search"@ && c != "fts"@ && c != "compose"@ && c != "db-stats"@ && c != "discover"@ && c != "learn"@ && c != "doctor"@ && c != "wrap"@ && c != "grow"@ && c != "scaffold"@ && c != "promote"@ && c != "degraded"@ && c != "version"@ && c != "patch"@ && c != "script"@ && c != "tree"@,
        c == "grow"@ ==> c != "check"@ && c != "run"@ && c != "graph"@ && c != "parse"@ && c != "import"@ && c != "search"@ && c != "fts"@ && c != "compose"@ && c != "db-stats"@ && c != "discover"@ && c != "learn"@ && c != "doctor"@ && c != "wrap"@ && c != "harvest"@ && c != "scaffold"@ && c != "promote"@ && c != "degraded"@ && c != "version"@ && c != "patch"@ && c != "script"@ && c != "tree"@,
        c == "scaffold"@ ==> c != "check"@ && c != "run"@ && c != "graph"@ && c != "parse"@ && c != "import"@ && c != "search"@ && c != "fts"@ && c != "compose"@ && c != "db-stats"@ && c != "discover"@ && c != "learn"@ && c != "doctor"@ && c != "wrap"@ && c != "harvest"@ && c != "grow"@ && c != "promote"@ && c != "degraded"@ && c != "version"@ && c != "patch"@ && c != "script"@ && c != "tree"@,
        c == "promote"@ ==> c != "check"@ && c != "run"@ && c != "graph"@ && c != "parse"@ && c != "import"@ && c != "search"@ && c != "fts"@ && c != "compose"@ && c != "db-stats"@ && c != "discover"@ && c != "learn"@ && c != "doctor"@ && c != "wrap"@ && c != "harvest"@ && c != "grow"@ && c != "scaffold"@ && c != "degraded"@ && c != "version"@ && c != "patch"@ && c != "script"@ && c != "tree"@,
        c == "degraded"@ ==> c != "check"@ && c != "run"@ && c != "graph"@ && c != "parse"@ && c != "import"@ && c != "search"@ && c != "fts"@ && c != "compose"@ && c != "db-stats"@ && c != "discover"@ && c != "learn"@ && c != "doctor"@ && c != "wrap"@ && c != "harvest"@ && c != "grow"@ && c != "scaffold"@ && c != "promote"@ && c != "version"@ && c != "patch"@ && c != "script"@ && c != "tree"@,
        c == "version"@ ==> c != "check"@ && c != "run"@ && c != "graph"@ && c != "parse"@ && c != "import"@ && c != "search"@ && c != "fts"@ && c != "compose"@ && c != "db-stats"@ && c != "discover"@ && c != "learn"@ && c != "doctor"@ && c != "wrap"@ && c != "harvest"@ && c != "grow"@ && c != "scaffold"@ && c != "promote"@ && c != "degraded"@ && c != "patch"@ && c != "script"@ && c != "tree"@,
        c == "patch"@ ==> c != "check"@ && c != "run"@ && c != "graph"@ && c != "parse"@ && c != "import"@ && c != "search"@ && c != "fts"@ && c != "compose"@ && c != "db-stats"@ && c != "discover"@ && c != "learn"@ && c != "doctor"@ && c != "wrap"@ && c != "harvest"@ && c != "grow"@ && c != "scaffold"@ && c != "promote"@ && c != "degraded"@ && c != "version"@ && c != "script"@ && c != "tree"@,
        c == "script"@ ==> c != "check"@ && c != "run"@ && c != "graph"@ && c != "parse"@ && c != "import"@ && c != "search"@ && c != "fts"@ && c != "compose"@ && c != "db-stats"@ && c != "discover"@ && c != "learn"@ && c != "doctor"@ && c != "wrap"@ && c != "harvest"@ && c != "grow"@ && c != "scaffold"@ && c != "promote"@ && c != "degraded"@ && c != "version"@ && c != "patch"@ && c != "tree"@,
        c == "tree"@ ==> c != "check"@ && c != "run"@ && c != "graph"@ && c != "parse"@ && c != "import"@ && c != "search"@ && c != "fts"@ && c != "compose"@ && c != "db-stats"@ && c != "discover"@ && c != "learn"@ && c != "doctor"@ && c != "wrap"@ && c != "harvest"@ && c != "grow"@ && c != "scaffold"@ && c != "promote"@ && c != "degraded"@ && c != "version"@ && c != "patch"@ && c != "script"@,
{
    reveal_strlit("check");
    reveal_strlit("run");
    reveal_strlit("graph");
    reveal_strlit("parse");
    reveal_strlit("import");
    reveal_strlit("search");
    reveal_strlit("fts");
    reveal_strlit("compose");
    reveal_strlit("db-stats");
    reveal_strlit("discover");
    reveal_strlit("learn");
    reveal_strlit("doctor");
    reveal_strlit("wrap");
    reveal_strlit("harvest");
    reveal_strlit("grow");
    reveal_strlit("scaffold");
    reveal_strlit("promote");
    reveal_strlit("degraded");
    reveal_strlit("version");
    reveal_strlit("patch");
    reveal_strlit("script");
    reveal_strlit("tree");
    if c == "check"@ {
        assert(c.len() == 5 && c[0] == 'c' && c[1] == 'h' && c[2] == 'e');
    }
    if c == "run"@ {
        assert(c.len() == 3 && c[0] == 'r' && c[1] == 'u' && c[2] == 'n');
    }
    if c == "graph"@ {
        assert(c.len() == 5 && c[0] == 'g' && c[1] == 'r' && c[2] == 'a');
    }
    if c == "parse"@ {
        assert(c.len() == 5 && c[0] == 'p' && c[1] == 'a' && c[2] == 'r');
    }
    if c == "import"@ {
        assert(c.len() == 6 && c[0] == 'i' && c[1] == 'm' && c[2] == 'p');
    }
    if c == "search"@ {
        assert(c.len() == 6 && c[0] == 's' && c[1] == 'e' && c[2] == 'a');
    }
    if c == "fts"@ {
        assert(c.len() == 3 && c[0] == 'f' && c[1] == 't' && c[2] == 's');
    }
    if c == "compose"@ {
        assert(c.len() == 7 && c[0] == 'c' && c[1] == 'o' && c[2] == 'm');
    }
    if c == "db-stats"@ {
        assert(c.len() == 8 && c[0] == 'd' && c[1] == 'b' && c[2] == '-');
    }
    if c == "discover"@ {
        assert(c.len() == 8 && c[0] == 'd' && c[1] == 'i' && c[2] == 's');
    }
    if c == "learn"@ {
        assert(c.len() == 5 && c[0] == 'l' && c[1] == 'e' && c[2] == 'a');
    }
    if c == "doctor"@ {
        assert(c.len() == 6 && c[0] == 'd' && c[1] == 'o' && c[2] == 'c');
    }
    if c == "wrap"@ {
        assert(c.len() == 4 && c[0] == 'w' && c[1] == 'r' && c[2] == 'a');
    }
    if c == "harvest"@ {
        assert(c.len() == 7 && c[0] == 'h' && c[1] == 'a' && c[2] == 'r');
    }
    if c == "grow"@ {
        assert(c.len() == 4 && c[0] == 'g' && c[1] == 'r' && c[2] == 'o');
    }
    if c == "scaffold"@ {
        assert(c.len() == 8 && c[0] == 's' && c[1] == 'c' && c[2] == 'a');
    }
    if c == "promote"@ {
        assert(c.len() == 7 && c[0] == 'p' && c[1] == 'r' && c[2] == 'o');
    }
    if c == "degraded"@ {
        assert(c.len() == 8 && c[0] == 'd' && c[1] == 'e' && c[2] == 'g');
    }
    if c == "version"@ {
        assert(c.len() == 7 && c[0] == 'v' && c[1] == 'e' && c[2] == 'r');
    }
    if c == "patch"@ {
        assert(c.len() == 5 && c[0] == 'p' && c[1] == 'a' && c[2] == 't');
    }
    if c == "script"@ {
        assert(c.len() == 6 && c[0] == 's' && c[1] == 'c' && c[2] == 'r');
    }
    if c == "tree"@ {
        assert(c.len() == 4 && c[0] == 't' && c[1] == 'r' && c[2] == 'e');
    }
}

/// The words behind the commands differ from each other.
proof fn lemma_words(c: Seq<char>)
    ensures
        c == "clear"@ ==> c != "save"@ && c != "log"@ && c != "diff"@ && c != "list"@ && c != "attach"@ && c != "detach"@ && c != "show"@ && c != "call"@,
        c == "save"@ ==> c != "clear"@ && c != "log"@ && c != "diff"@ && c != "list"@ && c != "attach"@ && c != "detach"@ && c != "show"@ && c != "call"@,
        c == "log"@ ==> c != "clear"@ && c != "save"@ && c != "diff"@ && c != "list"@ && c != "attach"@ && c != "detach"@ && c != "show"@ && c != "call"@,
        c == "diff"@ ==> c != "clear"@ && c != "save"@ && c != "log"@ && c != "list"@ && c != "attach"@ && c != "detach"@ && c != "show"@ && c != "call"@,
        c == "list"@ ==> c != "clear"@ && c != "save"@ && c != "log"@ && c != "diff"@ && c != "attach"@ && c != "detach"@ && c != "show"@ && c != "call"@,
        c == "attach"@ ==> c != "clear"@ && c != "save"@ && c != "log"@ && c != "diff"@ && c != "list"@ && c != "detach"@ && c != "show"@ && c != "call"@,
        c == "detach"@ ==> c != "clear"@ && c != "save"@ && c != "log"@ && c != "diff"@ && c != "list"@ && c != "attach"@ && c != "show"@ && c != "call"@,
        c == "show"@ ==> c != "clear"@ && c != "save"@ && c != "log"@ && c != "diff"@ && c != "list"@ && c != "attach"@ && c != "detach"@ && c != "call"@,
        c == "call"@ ==> c != "clear"@ && c != "save"@ && c != "log"@ && c != "diff"@ && c != "list"@ && c != "attach"@ && c != "detach"@ && c != "show"@,
{
    reveal_strlit("clear");
    reveal_strlit("save");
    reveal_strlit("log");
    reveal_strlit("diff");
    reveal_strlit("list");
    reveal_strlit("attach");
    reveal_strlit("detach");
    reveal_strlit("show");
    reveal_strlit("call");
    if c == "clear"@ {
        assert(c.len() == 5 && c[0] == 'c' && c[1] == 'l' && c[2] == 'e');
    }
    if c == "save"@ {
        assert(c.len() == 4 && c[0] == 's' && c[1] == 'a' && c[2] == 'v');
    }
    if c == "log"@ {
        assert(c.len() == 3 && c[0] == 'l' && c[1] == 'o' && c[2] == 'g');
    }
    if c == "diff"@ {
        assert(c.len() == 4 && c[0] == 'd' && c[1] == 'i' && c[2] == 'f');
    }
    if c == "list"@ {
        assert(c.len() == 4 && c[0] == 'l' && c[1] == 'i' && c[2] == 's');
    }
    if c == "attach"@ {
        assert(c.len() == 6 && c[0] == 'a' && c[1] == 't' && c[2] == 't');
    }
    if c == "detach"@ {
        assert(c.len() == 6 && c[0] == 'd' && c[1] == 'e' && c[2] == 't');
    }
    if c == "show"@ {
        assert(c.len() == 4 && c[0] == 's' && c[1] == 'h' && c[2] == 'o');
    }
    if c == "call"@ {
        assert(c.len() == 4 && c[0] == 'c' && c[1] == 'a' && c[2] == 'l');
    }
}

/// A command on a file needs the file and gets it.
pub proof fn law_files_are_asked_for(args: Seq<Seq<char>>)
    requires
        args.len() >= 3,
    ensures
        args[1] == "check"@ ==> cli::command_of(args) == GCommand::Check(args[2]),
        args[1] == "graph"@ ==> cli::command_of(args) == GCommand::Graph(args[2]),
        args[1] == "parse"@ ==> cli::command_of(args) == GCommand::Parse(args[2]),
        args[1] == "search"@ ==> cli::command_of(args) == GCommand::Search(args[2]),
        args[1] == "fts"@ ==> cli::command_of(args) == GCommand::Fts(args[2]),
        args[1] == "discover"@ ==> cli::command_of(args) == GCommand::Discover(Some(args[2])),
        args[1] == "learn"@ ==> cli::command_of(args) == GCommand::Learn(args[2]),
{
    lemma_commands(args[1]);
}

/// A command that takes all words behind it gets them in order.
pub proof fn law_words_are_handed_on(prog: Seq<char>, c: Seq<char>, rest: Seq<Seq<char>>)
    ensures
        c == "import"@ && rest.len() > 0 ==> cli::command_of(seq![prog, c] + rest)
            == GCommand::Import(rest),
        c == "promote"@ ==> cli::command_of(seq![prog, c] + rest) == GCommand::Promote(rest),
        c == "tree"@ ==> cli::command_of(seq![prog, c] + rest) == GCommand::Tree(rest),
        c == "scaffold"@ ==> cli::command_of(seq![prog, c] + rest) == GCommand::Scaffold(
            text::join_spec(rest, " "@),
        ),
        c == "run"@ && rest.len() > 0 ==> cli::command_of(seq![prog, c] + rest) == GCommand::Run(
            rest[0],
            rest.skip(1),
        ),
        c == "compose"@ && rest.len() > 2 ==> cli::command_of(seq![prog, c] + rest)
            == GCommand::Compose(rest[0], rest[1], rest.skip(2)),
        c == "wrap"@ && rest.len() > 2 ==> cli::command_of(seq![prog, c] + rest) == GCommand::Wrap(
            rest[0],
            text::join_spec(rest.skip(2), " "@),
        ),
{
    lemma_commands(c);
    let args = seq![prog, c] + rest;
    assert(args[1] == c);
    assert(args.skip(2) =~= rest);
    if rest.len() > 0 {
        assert(args[2] == rest[0]);
        assert(args.skip(3) =~= rest.skip(1));
    }
    if rest.len() > 2 {
        assert(args[3] == rest[1]);
        assert(args.skip(4) =~= rest.skip(2));
    }
}

/// A command that needs nothing more is known without more.
pub proof fn law_lone_commands_are_known(args: Seq<Seq<char>>)
    requires
        args.len() >= 2,
    ensures
        args[1] == "db-stats"@ ==> cli::command_of(args) == GCommand::DbStats,
        args[1] == "doctor"@ ==> cli::command_of(args) == GCommand::Doctor,
        args[1] == "discover"@ && args.len() == 2 ==> cli::command_of(args) == GCommand::Discover(
            None,
        ),
        args[1] == "learn"@ && args.len() == 2 ==> cli::command_of(args) == GCommand::Learn(
            Seq::empty(),
        ),
        args[1] == "degraded"@ && args.len() <= 3 ==> cli::command_of(args) == GCommand::Degraded,
{
    lemma_commands(args[1]);
}

/// The days and the number that a command is given are taken where they are
/// numbers; a week, two months and twenty-five stand where they are not.
pub proof fn law_numbers_have_a_default(args: Seq<Seq<char>>, d: nat, k: nat)
    requires
        args.len() >= 2,
        d <= u32::MAX,
        k <= usize::MAX,
    ensures
        args[1] == "harvest"@ && args.len() == 2 ==> cli::command_of(args) == GCommand::Harvest(7),
        args[1] == "harvest"@ && args.len() > 2 && args[2] == text::dec(d) ==> cli::command_of(args)
            == GCommand::Harvest(d as int),
        args[1] == "grow"@ && args.len() == 2 ==> cli::command_of(args) == GCommand::Grow(60, 25),
        args[1] == "grow"@ && args.len() == 3 && args[2] == text::dec(d) ==> cli::command_of(args)
            == GCommand::Grow(d as int, 25),
        args[1] == "grow"@ && args.len() > 3 && args[2] == text::dec(d) && args[3] == text::dec(k)
            ==> cli::command_of(args) == GCommand::Grow(d as int, k as int),
{
    lemma_commands(args[1]);
    text_laws::law_numbers_are_read(d, u32::MAX as nat, Seq::empty());
    text_laws::law_numbers_are_read(k, usize::MAX as nat, Seq::empty());
}

/// A command with a second word needs what that word works on.
pub proof fn law_second_words_are_known(args: Seq<Seq<char>>)
    requires
        args.len() >= 4,
    ensures
        args[1] == "degraded"@ && args[2] == "clear"@ ==> cli::command_of(args)
            == GCommand::DegradedClear(args[3]),
        args[1] == "degraded"@ && args[2] != "clear"@ ==> cli::command_of(args)
            == GCommand::Degraded,
        args[1] == "version"@ && args[2] == "log"@ ==> cli::command_of(args)
            == GCommand::VersionLog(args[3]),
        args[1] == "version"@ && args[2] == "save"@ && args.len() >= 5 ==> cli::command_of(args)
            == GCommand::VersionSave(args[3], args[4]),
        args[1] == "version"@ && args[2] == "diff"@ && args.len() >= 6 ==> cli::command_of(args)
            == GCommand::VersionDiff(args[3], args[4], args[5]),
        args[1] == "patch"@ && args[2] == "list"@ ==> cli::command_of(args) == GCommand::PatchList,
        args[1] == "patch"@ && args[2] == "clear"@ ==> cli::command_of(args)
            == GCommand::PatchClear(args[3]),
        args[1] == "patch"@ && args[2] != "clear"@ && args[2] != "list"@ && args.len() >= 7
            ==> cli::command_of(args) == GCommand::PatchSet(
            args[2],
            args[3],
            args[4],
            args[5],
            args[6],
        ),
        args[1] == "script"@ && args[2] == "attach"@ ==> cli::command_of(args)
            == GCommand::ScriptAttach(args[3]),
        args[1] == "script"@ && args[2] == "detach"@ ==> cli::command_of(args)
            == GCommand::ScriptDetach(args[3]),
        args[1] == "script"@ && args[2] == "list"@ ==> cli::command_of(args)
            == GCommand::ScriptList,
        args[1] == "script"@ && args[2] == "show"@ ==> cli::command_of(args)
            == GCommand::ScriptShow(args[3]),
        args[1] == "script"@ && args[2] == "call"@ && args.len() >= 5 ==> cli::command_of(args)
            == GCommand::ScriptCall(args[3], args[4]),
{
    lemma_commands(args[1]);
    lemma_words(args[2]);
}

/// Whether a word is a command.
pub open spec fn known(c: Seq<char>) -> bool {
    ||| c == "check"@
    ||| c == "run"@
    ||| c == "graph"@
    ||| c == "parse"@
    ||| c == "import"@
    ||| c == "search"@
    ||| c == "fts"@
    ||| c == "compose"@
    ||| c == "db-stats"@
    ||| c == "discover"@
    ||| c == "learn"@
    ||| c == "doctor"@
    ||| c == "wrap"@
    ||| c == "harvest"@
    ||| c == "grow"@
    ||| c == "scaffold"@
    ||| c == "promote"@
    ||| c == "degraded"@
    ||| c == "version"@
    ||| c == "patch"@
    ||| c == "script"@
    ||| c == "tree"@
}

/// A command line without a known command asks for nothing.
pub proof fn law_only_commands_are_known(args: Seq<Seq<char>>)
    requires
        args.len() < 2 || !known(args[1]),
    ensures
        cli::command_of(args) == GCommand::Usage,
{
}

// ── A run ──

/// A word that is no option.
pub open spec fn topical(w: Seq<char>) -> bool {
    w != "--policy"@ && w != "--restrict-shell"@
}

/// Options stand anywhere: with the word that one takes it changes the policy or
/// the restriction and leaves the rest as it is, and every other word adds to the
/// topic.
pub proof fn law_options_stand_anywhere(
    args: Seq<Seq<char>>,
    i: int,
    topic: Seq<Seq<char>>,
    policy: Option<Seq<char>>,
    restrict: bool,
)
    requires
        0 <= i < args.len(),
    ensures
        topical(args[i]) ==> cli::run_from(args, i, topic, policy, restrict) == cli::run_from(
            args,
            i + 1,
            topic.push(args[i]),
            policy,
            restrict,
        ),
        args[i] == "--restrict-shell"@ ==> cli::run_from(args, i, topic, policy, restrict)
            == cli::run_from(args, i + 1, topic, policy, true),
        args[i] == "--policy"@ && i + 1 < args.len() ==> cli::run_from(
            args,
            i,
            topic,
            policy,
            restrict,
        ) == cli::run_from(args, i + 2, topic, Some(args[i + 1]), restrict),
        args[i] == "--policy"@ && i + 1 == args.len() ==> cli::run_from(
            args,
            i,
            topic,
            policy,
            restrict,
        ) is Err,
{
    reveal_strlit("--policy");
    reveal_strlit("--restrict-shell");
}

/// Without options the words are the topic, in order, with nothing else.
pub proof fn law_plain_words_are_the_topic(args: Seq<Seq<char>>)
    requires
        forall|i: int| 0 <= i < args.len() ==> topical(#[trigger] args[i]),
    ensures
        cli::run_from(args, 0, Seq::empty(), None, false) == Ok::<_, Seq<char>>(
            (text::join_spec(args, " "@), None::<Seq<char>>, false),
        ),
{
    lemma_topic(args, 0);
    assert(args.take(0) =~= Seq::empty());
}

proof fn lemma_topic(args: Seq<Seq<char>>, i: int)
    requires
        0 <= i <= args.len(),
        forall|k: int| 0 <= k < args.len() ==> topical(#[trigger] args[k]),
    ensures
        cli::run_from(args, i, args.take(i), None, false) == Ok::<_, Seq<char>>(
            (text::join_spec(args, " "@), None::<Seq<char>>, false),
        ),
    decreases args.len() - i,
{
    if i < args.len() {
        assert(topical(args[i]));
        assert(args.take(i).push(args[i]) =~= args.take(i + 1));
        lemma_topic(args, i + 1);
    } else {
        assert(args.take(i) =~= args);
    }
}

/// A policy is taken wherever it stands among words of the topic.
pub proof fn law_the_policy_is_taken(a: Seq<Seq<char>>, p: Seq<char>, b: Seq<Seq<char>>)
    requires
        forall|i: int| 0 <= i < a.len() ==> topical(#[trigger] a[i]),
        forall|i: int| 0 <= i < b.len() ==> topical(#[trigger] b[i]),
    ensures
        cli::run_from(a + seq!["--policy"@, p] + b, 0, Seq::empty(), None, false) == Ok::<
            _,
            Seq<char>,
        >((text::join_spec(a + b, " "@), Some(p), false)),
        cli::run_from(a + seq!["--restrict-shell"@] + b, 0, Seq::empty(), None, false) == Ok::<
            _,
            Seq<char>,
        >((text::join_spec(a + b, " "@), None::<Seq<char>>, true)),
{
    let n = a.len() as int;
    let s = a + seq!["--policy"@, p] + b;
    let t = a + seq!["--restrict-shell"@] + b;
    assert forall|i: int| 0 <= i < n implies s[i] == a[i] && t[i] == a[i] by {
    }
    lemma_words_pass(s, a, 0, Seq::empty(), None, false);
    lemma_words_pass(t, a, 0, Seq::empty(), None, false);
    assert(Seq::<Seq<char>>::empty() + a =~= a);
    assert(s[n] == "--policy"@ && s[n + 1] == p);
    assert(t[n] == "--restrict-shell"@);
    law_options_stand_anywhere(s, n, a, None, false);
    law_options_stand_anywhere(t, n, a, None, false);
    lemma_words_pass(s, b, n + 2, a, Some(p), false);
    lemma_words_pass(t, b, n + 1, a, None, true);
}

proof fn lemma_words_pass(
    args: Seq<Seq<char>>,
    ws: Seq<Seq<char>>,
    i: int,
    topic: Seq<Seq<char>>,
    policy: Option<Seq<char>>,
    restrict: bool,
)
    requires
        0 <= i,
        i + ws.len() <= args.len(),
        forall|k: int| 0 <= k < ws.len() ==> topical(#[trigger] ws[k]),
        forall|k: int| 0 <= k < ws.len() ==> args[i + k] == #[trigger] ws[k],
    ensures
        cli::run_from(args, i, topic, policy, restrict) == cli::run_from(
            args,
            i + ws.len(),
            topic + ws,
            policy,
            restrict,
        ),
    decreases ws.len(),
{
    if ws.len() > 0 {
        assert(args[i + 0] == ws[0]);
        assert(topical(ws[0]));
        let rest = ws.skip(1);
        assert forall|k: int| 0 <= k < rest.len() implies topical(#[trigger] rest[k]) && args[i + 1
            + k] == rest[k] by {
            assert(rest[k] == ws[k + 1]);
            assert(args[i + (k + 1)] == ws[k + 1]);
        }
        lemma_words_pass(args, rest, i + 1, topic.push(ws[0]), policy, restrict);
        assert(topic.push(ws[0]) + rest =~= topic + ws);
    } else {
        assert(topic + ws =~= topic);
    }
}

// ── Promotions ──

/// A promotion looks at a week and forty candidates unless it is told otherwise:
/// the first number is the days, the second the candidates, and the option counts
/// wherever it stands.
pub proof fn law_promotions_are_told(d: nat, k: nat)
    requires
        d <= u32::MAX,
        k <= usize::MAX,
    ensures
        cli::promote_until(Seq::empty(), 0) == (7int, 40int, false, 0int),
        cli::promote_until(seq![text::dec(d)], 1) == (d as int, 40int, false, 1int),
        cli::promote_until(seq![text::dec(d), text::dec(k)], 2) == (d as int, k as int, false, 2int),
{
    reveal_with_fuel(cli::promote_until, 3);
    reveal_strlit("--dry");
    text_laws::law_numbers_are_read(d, u32::MAX as nat, Seq::empty());
    text_laws::law_numbers_are_read(k, usize::MAX as nat, Seq::empty());
    text_laws::law_decimals_read_back(d);
    text_laws::law_decimals_read_back(k);
    let a = seq![text::dec(d)];
    let b = seq![text::dec(d), text::dec(k)];
    assert(text::is_digit(text::dec(d)[0]) && text::is_digit(text::dec(k)[0]));
    assert(a[0] == text::dec(d) && b[0] == text::dec(d) && b[1] == text::dec(k));
    assert("--dry"@[0] == '-');
}

/// The option of a promotion only adds that nothing is kept, wherever it stands.
pub proof fn law_dry_promotions_are_the_same(args: Seq<Seq<char>>, n: int)
    requires
        0 < n <= args.len(),
        args[n - 1] == "--dry"@,
    ensures
        cli::promote_until(args, n).2,
        cli::promote_until(args, n).0 == cli::promote_until(args, n - 1).0,
        cli::promote_until(args, n).1 == cli::promote_until(args, n - 1).1,
{
}

// ── Topics ──

/// The topic stands in front of the parameters, without the white space around it,
/// and is chosen where there is none.
pub proof fn law_the_topic_stands_first(t: Seq<char>, rest: Seq<char>)
    requires
        t.len() > 0,
        !text::is_space(t[0]),
        !text::is_space(t.last()),
        !text::has(t, "--"@),
        t.last() != '-',
    ensures
        cli::topic_of(t) == t,
        cli::topic_of(t + "--"@ + rest) == t,
        cli::topic_of("--"@ + rest) == "AI"@,
{
    reveal_strlit("--");
    let e = Seq::<char>::empty();
    let m = "--"@;
    text_laws::law_trimming_takes_the_ends(e, t, e);
    assert(e + t + e =~= t);
    text::lemma_find_from(t, m, 0);
    match text::find_str_spec(t, m) {
        Some(k) => {
            assert(text::occurs_at(t, m, k));
        },
        None => {},
    }
    assert(text::split_str_spec(t, m)[0] == t);
    let s = t + m + rest;
    lemma_first_mark(t, rest);
    assert(s.take(t.len() as int) =~= t);
    let z = m + rest;
    assert(e + m + rest =~= z);
    lemma_first_mark(e, rest);
    assert(z.take(0) =~= e);
    text_laws::law_trimming_takes_the_ends(e, e, e);
    assert(e + e + e =~= e);
}

proof fn lemma_first_mark(t: Seq<char>, rest: Seq<char>)
    requires
        !text::has(t, "--"@),
        t.len() > 0 ==> t.last() != '-',
    ensures
        text::find_str_spec(t + "--"@ + rest, "--"@) == Some(t.len() as int),
{
    reveal_strlit("--");
    let m = "--"@;
    let s = t + m + rest;
    let n = t.len() as int;
    assert(text::occurs_at(s, m, n)) by {
        assert(s.subrange(n, n + 2) =~= m);
    }
    text::lemma_find_from(s, m, 0);
    match text::find_str_spec(s, m) {
        Some(k) => {
            if k < n {
                assert(text::occurs_at(s, m, k));
                assert(s.subrange(k, k + 2)[0] == '-' && s.subrange(k, k + 2)[1] == '-');
                if k + 2 <= n {
                    assert(t.subrange(k, k + 2) =~= m);
                    assert(text::occurs_at(t, m, k));
                } else {
                    assert(s[k] == t[k]);
                }
            }
        },
        None => {},
    }
}

/// The parameters are the parts with a name before their equals sign, and the last
/// of a name counts.
pub proof fn law_the_last_parameter_counts(
    parts: Seq<Seq<char>>,
    n: int,
    k: Seq<char>,
    v: Seq<char>,
    x: Seq<char>,
)
    requires
        1 < n <= parts.len(),
        parts[n - 1] == k + seq!['='] + v,
        forall|i: int| 0 <= i < k.len() ==> #[trigger] k[i] != '=',
        text::trimmed(k).len() > 0,
    ensures
        cli::params_of(parts, n).dom().contains(text::trimmed(k)),
        cli::params_of(parts, n)[text::trimmed(k)] == text::trimmed(v),
        x != text::trimmed(k) ==> (cli::params_of(parts, n).dom().contains(x) <==> cli::params_of(
            parts,
            n - 1,
        ).dom().contains(x)) && (cli::params_of(parts, n - 1).dom().contains(x) ==> cli::params_of(
            parts,
            n,
        )[x] == cli::params_of(parts, n - 1)[x]),
{
    text_laws::law_cut_at_the_first(k, '=', v);
}

/// A part without an equals sign gives no parameter, and neither does what stands
/// in front of the first mark.
pub proof fn law_bare_parts_give_nothing(parts: Seq<Seq<char>>, n: int)
    requires
        1 < n <= parts.len(),
        forall|i: int| 0 <= i < parts[n - 1].len() ==> #[trigger] parts[n - 1][i] != '=',
    ensures
        cli::params_of(parts, n) == cli::params_of(parts, n - 1),
        cli::params_of(parts, 1).dom() == Set::<Seq<char>>::empty(),
{
    text::lemma_find_char_none(parts[n - 1], '=', 0);
    assert(cli::params_of(parts, 1).dom() =~= Set::<Seq<char>>::empty());
}

} // verus!

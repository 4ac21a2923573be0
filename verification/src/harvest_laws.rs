//! What is taken from the record of sessions: which commands it holds, how they are
//! counted, and what is found out about the surroundings.

use crate::harvest;
use crate::harvest::{GSeen, GUse, Probes, StateProbe};
use crate::jvalue::GJv;
use crate::text;
use crate::text_laws;
use vstd::prelude::*;

verus! {

// ── Short texts ──

/// A text that is too long keeps its beginning and gets dots.
pub proof fn law_long_texts_get_dots(s: Seq<char>, n: nat)
    ensures
        s.len() <= n ==> harvest::shortened(s, n) == s,
        s.len() > n ==> harvest::shortened(s, n).len() == n + 3 && harvest::shortened(s, n).take(
            n as int,
        ) == s.take(n as int) && harvest::shortened(s, n).skip(n as int) == seq!['.', '.', '.'],
{
    reveal_strlit("...");
    if s.len() > n {
        assert(harvest::shortened(s, n).take(n as int) =~= s.take(n as int));
        assert(harvest::shortened(s, n).skip(n as int) =~= seq!['.', '.', '.']);
    }
}

/// An ending comes off as often as it is there, and nothing else does.
pub proof fn law_endings_come_off(s: Seq<char>, p: Seq<char>)
    requires
        p.len() > 0,
    ensures
        harvest::without_endings(s + p, p) == harvest::without_endings(s, p),
        !p.is_suffix_of(s) ==> harvest::without_endings(s, p) == s,
{
    let t = s + p;
    assert(t.subrange(t.len() - p.len(), t.len() as int) =~= p);
    assert(p.is_suffix_of(t));
    assert(t.take(t.len() - p.len()) =~= s);
}

/// The marks of degraded runs are the files with that ending, in order, without
/// it.
pub proof fn law_marks_are_files_with_the_ending(files: Seq<Seq<char>>)
    ensures
        harvest::marks(files, files.len() as int) == files.filter(
            |f: Seq<char>| ".flag"@.is_suffix_of(f),
        ).map_values(|f: Seq<char>| harvest::without_endings(f, ".flag"@)),
{
    lemma_marks(files, files.len() as int);
    assert(files.take(files.len() as int) =~= files);
}

proof fn lemma_marks(files: Seq<Seq<char>>, n: int)
    requires
        0 <= n <= files.len(),
    ensures
        harvest::marks(files, n) == files.take(n).filter(
            |f: Seq<char>| ".flag"@.is_suffix_of(f),
        ).map_values(|f: Seq<char>| harvest::without_endings(f, ".flag"@)),
    decreases n,
{
    let keep = |f: Seq<char>| ".flag"@.is_suffix_of(f);
    let bare = |f: Seq<char>| harvest::without_endings(f, ".flag"@);
    if n > 0 {
        lemma_marks(files, n - 1);
        let t = files.take(n - 1);
        assert(files.take(n) =~= t.push(files[n - 1]));
        t.lemma_filter_push(files[n - 1], keep);
        if keep(files[n - 1]) {
            assert(t.filter(keep).push(files[n - 1]).map_values(bare) =~= t.filter(
                keep,
            ).map_values(bare).push(bare(files[n - 1])));
        }
    } else {
        reveal(Seq::filter);
        assert(files.take(0) =~= Seq::empty());
        assert(files.take(0).filter(keep).map_values(bare) =~= Seq::empty());
    }
}

// ── Surroundings ──

/// All is in order exactly where the lasting environment is there, the store can be
/// written, there are recent messages, and no run is marked as degraded.
pub proof fn law_all_is_in_order(p: Probes)
    ensures
        (forall|i: int|
            0 <= i < harvest::checks_of(p).len() ==> (#[trigger] harvest::checks_of(p)[i]).1) <==> (
        p.lunar_ok && p.db_ok && (p.state matches StateProbe::Recent(n) && n > 0) && p.flags@.len()
            == 0),
        harvest::checks_of(p).len() == (if p.tmp_lunar && !p.lunar_ok {
            5int
        } else {
            4
        }),
{
    let cs = harvest::checks_of(p);
    let flags = text::views(p.flags@);
    assert(flags.len() == p.flags@.len());
    assert(cs[0].1 == p.lunar_ok);
    let k: int = if p.tmp_lunar && !p.lunar_ok {
        1
    } else {
        0
    };
    assert(cs[k + 1].1 == p.db_ok);
    assert(cs[k + 2] == harvest::state_check(p.state));
    assert(cs[k + 3].1 == (flags.len() == 0));
    if p.lunar_ok && p.db_ok && (p.state matches StateProbe::Recent(n) && n > 0) && p.flags@.len()
        == 0 {
        assert forall|i: int| 0 <= i < cs.len() implies (#[trigger] cs[i]).1 by {
            if i == 0 {
            } else if i == 1 {
                assert(cs[1].1 == p.db_ok);
            } else if i == 2 {
                assert(cs[2] == harvest::state_check(p.state));
            }
        }
    }
}

// ── Commands ──

proof fn lemma_string_end(s: Seq<char>, i: int, k: int)
    requires
        0 <= i <= k < s.len(),
        forall|j: int| i <= j < k ==> #[trigger] s[j] != '"' && s[j] != '\\',
        s[k] == '"',
    ensures
        harvest::string_end_from(s, i, false) == Some(k),
    decreases k - i,
{
    if i < k {
        assert(s[i] != '"');
        lemma_string_end(s, i + 1, k);
    }
}

proof fn lemma_string_skip(s: Seq<char>, i: int, k: int)
    requires
        0 <= i <= k <= s.len(),
        forall|j: int| i <= j < k ==> #[trigger] s[j] != '"' && s[j] != '\\',
    ensures
        harvest::string_end_from(s, i, false) == harvest::string_end_from(s, k, false),
    decreases k - i,
{
    if i < k {
        assert(s[i] != '"');
        lemma_string_skip(s, i + 1, k);
    }
}

/// A string ends at its first quote, but not at one behind a backslash.
pub proof fn law_strings_end_at_a_bare_quote(a: Seq<char>, c: char, b: Seq<char>, rest: Seq<char>)
    requires
        forall|j: int| 0 <= j < a.len() ==> #[trigger] a[j] != '"' && a[j] != '\\',
        forall|j: int| 0 <= j < b.len() ==> #[trigger] b[j] != '"' && b[j] != '\\',
    ensures
        harvest::string_end_from(a + seq!['"'] + rest, 0, false) == Some(a.len() as int),
        harvest::string_end_from(a + seq!['\\', c] + b + seq!['"'] + rest, 0, false) == Some(
            a.len() + b.len() + 2int,
        ),
{
    let s = a + seq!['"'] + rest;
    let n = a.len() as int;
    assert forall|j: int| 0 <= j < n implies #[trigger] s[j] != '"' && s[j] != '\\' by {
        assert(s[j] == a[j]);
    }
    assert(s[n] == '"');
    lemma_string_end(s, 0, n);
    let t = a + seq!['\\', c] + b + seq!['"'] + rest;
    let k = n + 2 + b.len();
    assert forall|j: int| 0 <= j < n implies #[trigger] t[j] != '"' && t[j] != '\\' by {
        assert(t[j] == a[j]);
    }
    lemma_string_skip(t, 0, n);
    assert(t[n] == '\\');
    reveal_with_fuel(harvest::string_end_from, 3);
    assert forall|j: int| n + 2 <= j < k implies #[trigger] t[j] != '"' && t[j] != '\\' by {
        assert(t[j] == b[j - n - 2]);
    }
    assert(t[k] == '"');
    lemma_string_end(t, n + 2, k);
}

/// A command stands between the quotes behind the word and its colon, and those
/// behind it follow; where the word does not stand, there is none.
pub proof fn law_commands_stand_behind_the_word(
    a: Seq<char>,
    b: Seq<char>,
    gap: Seq<char>,
    c: Seq<char>,
    rest: Seq<char>,
)
    requires
        text::find_str_spec(
            a + "command"@ + b + seq![':'] + gap + seq!['"'] + c + seq!['"'] + rest,
            "command"@,
        ) == Some(a.len() as int),
        forall|j: int| 0 <= j < b.len() ==> #[trigger] b[j] != ':',
        text::blank(gap),
        forall|j: int| 0 <= j < c.len() ==> #[trigger] c[j] != '"' && c[j] != '\\',
    ensures
        harvest::rough_commands(
            a + "command"@ + b + seq![':'] + gap + seq!['"'] + c + seq!['"'] + rest,
        ) == seq![c] + harvest::rough_commands(seq!['"'] + rest),
{
    reveal_strlit("command");
    reveal_strlit("\\\"");
    let s = a + "command"@ + b + seq![':'] + gap + seq!['"'] + c + seq!['"'] + rest;
    let n = a.len() as int;
    let q = seq!['"'] + c + seq!['"'] + rest;
    let after = s.skip(n + 7);
    assert(after =~= b + seq![':'] + gap + q);
    assert forall|j: int| 0 <= j < b.len() implies after[j] != ':' by {
        assert(after[j] == b[j]);
    }
    assert(after[b.len() as int] == ':');
    text::lemma_find_char_is(after, ':', 0, b.len() as int);
    let tail = after.skip(b.len() as int + 1);
    assert(tail =~= gap + q);
    lemma_gap(gap, q);
    let val = text::trim_start_spec(tail);
    assert(val == q);
    assert(val[0] == '"');
    if "\\\""@.is_prefix_of(val) {
        assert(val.subrange(0, 2)[0] == "\\\""@[0]);
    }
    let plain = val.skip(1);
    assert(plain =~= c + seq!['"'] + rest);
    law_strings_end_at_a_bare_quote(c, ' ', Seq::empty(), rest);
    assert(plain.take(c.len() as int) =~= c);
    assert(plain.skip(c.len() as int) =~= seq!['"'] + rest);
}

proof fn lemma_gap(gap: Seq<char>, q: Seq<char>)
    requires
        text::blank(gap),
        q.len() > 0,
        !text::is_space(q[0]),
    ensures
        text::trim_start_spec(gap + q) == q,
    decreases gap.len(),
{
    if gap.len() > 0 {
        let t = gap + q;
        assert(t[0] == gap[0]);
        assert(text::is_space(gap[0]));
        assert(t.skip(1) =~= gap.skip(1) + q);
        assert forall|i: int| 0 <= i < gap.skip(1).len() implies text::is_space(
            gap.skip(1)[i],
        ) by {
            assert(gap.skip(1)[i] == gap[i + 1]);
            assert(text::is_space(gap[i + 1]));
        }
        lemma_gap(gap.skip(1), q);
    } else {
        assert(gap + q =~= q);
    }
}

/// A text without the word holds no command.
pub proof fn law_without_the_word_there_is_no_command(s: Seq<char>)
    requires
        !text::has(s, "command"@),
    ensures
        harvest::rough_commands(s) == Seq::<Seq<char>>::empty(),
{
    text::lemma_find_from(s, "command"@, 0);
    match text::find_str_spec(s, "command"@) {
        Some(k) => {
            assert(text::occurs_at(s, "command"@, k));
        },
        None => {},
    }
}

/// The commands of a function are those of its arguments, in order: a field of any
/// other name, or that is no text, gives none.
pub proof fn law_arguments_give_commands(
    fields: Seq<(Seq<char>, GJv)>,
    f: (Seq<char>, GJv),
)
    ensures
        ({
            let n = fields.len() as int;
            let before = harvest::function_commands(fields, n);
            let now = harvest::function_commands(fields.push(f), n + 1);
            &&& f.0 == "arguments"@ && f.1 is S ==> now == before + harvest::argument_commands(
                f.1->S_0,
            )
            &&& f.0 != "arguments"@ || !(f.1 is S) ==> now == before
            &&& harvest::function_commands(Seq::empty(), 0) == Seq::<Seq<char>>::empty()
        }),
        ({
            let n = fields.len() as int;
            let before = harvest::named_texts(fields, "command"@, n);
            let now = harvest::named_texts(fields.push(f), "command"@, n + 1);
            &&& f.0 == "command"@ && f.1 is S ==> now == before.push(f.1->S_0)
            &&& f.0 != "command"@ || !(f.1 is S) ==> now == before
        }),
        ({
            let n = fields.len() as int;
            let before = harvest::call_commands(fields, n);
            let now = harvest::call_commands(fields.push(f), n + 1);
            &&& f.0 == "function"@ && f.1 is O ==> now == before + harvest::function_commands(
                f.1->O_0,
                f.1->O_0.len() as int,
            )
            &&& f.0 != "function"@ || !(f.1 is O) ==> now == before
        }),
{
    let n = fields.len() as int;
    lemma_fields(fields.push(f), fields, n);
}

proof fn lemma_fields(a: Seq<(Seq<char>, GJv)>, b: Seq<(Seq<char>, GJv)>, n: int)
    requires
        0 <= n <= a.len(),
        n <= b.len(),
        forall|i: int| 0 <= i < n ==> #[trigger] a[i] == b[i],
    ensures
        harvest::function_commands(a, n) == harvest::function_commands(b, n),
        harvest::named_texts(a, "command"@, n) == harvest::named_texts(b, "command"@, n),
        harvest::call_commands(a, n) == harvest::call_commands(b, n),
    decreases n,
{
    if n > 0 {
        assert(a[n - 1] == b[n - 1]);
        lemma_fields(a, b, n - 1);
    }
}

// ── How commands are counted ──

/// A command of one line is counted as it is; of a longer one the first line is,
/// with a mark that more follows.
pub proof fn law_first_lines_are_counted(l: Seq<char>, rest: Seq<char>)
    requires
        l.len() > 0,
        forall|i: int| 0 <= i < l.len() ==> #[trigger] l[i] != '\n',
        !text::is_space(l[0]),
        !text::is_space(l.last()),
        l.last() != '…',
        l.last() != '\r',
        rest.len() > 0,
    ensures
        l.last() != '\\' ==> harvest::first_line(l) == l,
        l.last() == '\\' ==> harvest::first_line(l) == l.push('…'),
        harvest::first_line(l + seq!['\n'] + rest) == l.push('…'),
{
    let e = Seq::<char>::empty();
    text_laws::law_lines_end_at_line_feeds(l, rest);
    text_laws::law_trimming_takes_the_ends(e, l, e);
    assert(e + l + e =~= l);
    let s = l + seq!['\n'] + rest;
    let ls = text::lines_spec(s);
    assert(ls[0] == l);
    lemma_some_line(rest);
    assert(ls.len() > 1);
}

proof fn lemma_some_line(s: Seq<char>)
    requires
        s.len() > 0,
    ensures
        text::lines_spec(s).len() > 0,
{
}

/// What is counted of a command is its first line up to a comment, with the
/// lasting environment in place of the temporary one.
pub proof fn law_comments_and_places_do_not_count(cmd: Seq<char>)
    ensures
        ({
            let l = harvest::first_line(text::trimmed(cmd));
            &&& !text::has(l, " # "@) ==> harvest::normal(cmd) == text::replace_spec(
                l,
                "/tmp/lunar-env"@,
                "~/.local/share/ductile/envs/lunar-env"@,
            )
            &&& forall|k: int|
                #[trigger] text::occurs_at(l, " # "@, k) && (forall|j: int|
                    0 <= j < k ==> !#[trigger] text::occurs_at(l, " # "@, j)) ==> harvest::normal(
                    cmd,
                ) == text::replace_spec(
                    l.take(k),
                    "/tmp/lunar-env"@,
                    "~/.local/share/ductile/envs/lunar-env"@,
                )
        }),
{
    reveal_strlit(" # ");
    let l = harvest::first_line(text::trimmed(cmd));
    let m = " # "@;
    text::lemma_find_from(l, m, 0);
    match text::find_str_spec(l, m) {
        Some(i) => {
            assert(text::occurs_at(l, m, i));
            assert(text::split_str_spec(l, m)[0] == l.take(i));
            assert forall|k: int|
                #[trigger] text::occurs_at(l, m, k) && (forall|j: int|
                    0 <= j < k ==> !#[trigger] text::occurs_at(l, m, j)) implies harvest::normal(
                cmd,
            ) == text::replace_spec(
                l.take(k),
                "/tmp/lunar-env"@,
                "~/.local/share/ductile/envs/lunar-env"@,
            ) by {
                if i < k {
                    assert(!text::occurs_at(l, m, i));
                }
                assert(i == k);
            }
        },
        None => {
            assert(text::split_str_spec(l, m)[0] == l);
        },
    }
}

/// Every command is counted, in the form it is counted in, with the time of its
/// row.
pub proof fn law_every_command_is_seen(cmds: Seq<Seq<char>>, at: int, n: int)
    requires
        0 <= n <= cmds.len(),
    ensures
        harvest::seen_in(cmds, at, n) == Seq::new(
            n as nat,
            |i: int| (harvest::normal(cmds[i]), at),
        ),
    decreases n,
{
    if n > 0 {
        law_every_command_is_seen(cmds, at, n - 1);
        assert(harvest::seen_in(cmds, at, n) =~= Seq::new(
            n as nat,
            |i: int| (harvest::normal(cmds[i]), at),
        ));
    } else {
        assert(harvest::seen_in(cmds, at, n) =~= Seq::new(
            0,
            |i: int| (harvest::normal(cmds[i]), at),
        ));
    }
}

/// A command came as often as it is there, and last at the latest of its times.
pub proof fn law_commands_are_counted(all: Seq<GSeen>, x: Seq<char>, n: int)
    requires
        0 <= n <= all.len(),
    ensures
        harvest::times(all, x, n) == all.take(n).filter(|g: GSeen| g.0 == x).len(),
        harvest::latest(all, x, n) >= 0,
        forall|i: int|
            0 <= i < n && (#[trigger] all[i]).0 == x ==> harvest::latest(all, x, n) >= all[i].1,
        harvest::latest(all, x, n) > 0 ==> exists|i: int|
            0 <= i < n && (#[trigger] all[i]).0 == x && all[i].1 == harvest::latest(all, x, n),
    decreases n,
{
    let own = |g: GSeen| g.0 == x;
    if n > 0 {
        law_commands_are_counted(all, x, n - 1);
        assert(all.take(n) =~= all.take(n - 1).push(all[n - 1]));
        all.take(n - 1).lemma_filter_push(all[n - 1], own);
        assert(all[n - 1] == all[n - 1]);
    } else {
        reveal(Seq::filter);
        assert(all.take(0) =~= Seq::empty());
    }
}

/// A command of at least six bytes counts as used in its session, as it is without
/// white space around it; a shorter one does not.
pub proof fn law_short_commands_do_not_count(cmds: Seq<Seq<char>>, session: Seq<char>)
    ensures
        harvest::uses_in(cmds, session, cmds.len() as int) == cmds.map_values(
            |c: Seq<char>| text::trimmed(c),
        ).filter(|c: Seq<char>| vstd::utf8::encode_utf8(c).len() >= 6).map_values(
            |c: Seq<char>| (c, session),
        ),
{
    lemma_uses(cmds, session, cmds.len() as int);
    assert(cmds.take(cmds.len() as int) =~= cmds);
}

proof fn lemma_uses(cmds: Seq<Seq<char>>, session: Seq<char>, n: int)
    requires
        0 <= n <= cmds.len(),
    ensures
        harvest::uses_in(cmds, session, n) == cmds.take(n).map_values(
            |c: Seq<char>| text::trimmed(c),
        ).filter(|c: Seq<char>| vstd::utf8::encode_utf8(c).len() >= 6).map_values(
            |c: Seq<char>| (c, session),
        ),
    decreases n,
{
    let trim = |c: Seq<char>| text::trimmed(c);
    let long = |c: Seq<char>| vstd::utf8::encode_utf8(c).len() >= 6;
    let pair = |c: Seq<char>| (c, session);
    if n > 0 {
        lemma_uses(cmds, session, n - 1);
        let t = cmds.take(n - 1).map_values(trim);
        let x = text::trimmed(cmds[n - 1]);
        assert(cmds.take(n).map_values(trim) =~= t.push(x));
        t.lemma_filter_push(x, long);
        if long(x) {
            assert(t.filter(long).push(x).map_values(pair) =~= t.filter(long).map_values(pair).push(
                pair(x),
            ));
        }
    } else {
        reveal(Seq::filter);
        assert(cmds.take(0).map_values(trim) =~= Seq::empty());
        assert(Seq::<Seq<char>>::empty().filter(long).map_values(pair) =~= Seq::empty());
    }
}

/// A command is called as often as it is used, and in the sessions in which it is.
pub proof fn law_calls_and_sessions_are_counted(
    all: Seq<GUse>,
    x: Seq<char>,
    n: int,
    s: Seq<char>,
)
    requires
        0 <= n <= all.len(),
    ensures
        harvest::calls_of(all, x, n) == all.take(n).filter(|u: GUse| u.0 == x).len(),
        harvest::sessions_of(all, x, n).contains(s) <==> exists|i: int|
            0 <= i < n && #[trigger] all[i] == (x, s),
    decreases n,
{
    let own = |u: GUse| u.0 == x;
    if n > 0 {
        law_calls_and_sessions_are_counted(all, x, n - 1, s);
        assert(all.take(n) =~= all.take(n - 1).push(all[n - 1]));
        all.take(n - 1).lemma_filter_push(all[n - 1], own);
        assert(all[n - 1] == (all[n - 1].0, all[n - 1].1));
    } else {
        reveal(Seq::filter);
        assert(all.take(0) =~= Seq::empty());
    }
}

} // verus!

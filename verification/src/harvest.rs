//! Harvest: which commands come again and again, and whether the surroundings
//! are in order.

use crate::jvalue;
use crate::jvalue::{GJv, Jv};
use crate::order;
use crate::order::{TextMap, TextSet};
use crate::text;
use crate::time;
use vstd::prelude::*;

verus! {

// ── Small texts ──

/// A text cut to `n` characters, with dots where something was cut.
pub open spec fn shortened(s: Seq<char>, n: nat) -> Seq<char> {
    if s.len() <= n {
        s
    } else {
        s.take(n as int) + "..."@
    }
}

/// A text cut to `n` characters, with dots where something was cut.
pub fn trunc_str(s: &str, n: usize) -> (r: String)
    ensures
        r@ == shortened(s@, n as nat),
{
    let chars = text::chars_of(s);
    if chars.len() <= n {
        s.to_owned()
    } else {
        let mut out = text::string_of_range(chars.as_slice(), 0, n);
        assert(out@ =~= s@.take(n as int));
        out.append("...");
        out
    }
}

/// What is said of a command that was put on record.
pub fn wrap_note(tag: &str, cmd: &str) -> (r: String)
    ensures
        r@ == "recorded #"@ + tag@ + " → "@ + shortened(cmd@, 60),
{
    let mut s = "recorded #".to_owned();
    s.append(tag);
    s.append(" → ");
    s.append(trunc_str(cmd, 60).as_str());
    s
}

/// The file that marks a degraded run.
pub fn flag_file(name: &str) -> (r: String)
    ensures
        r@ == text::replace_spec(name@, "/"@, "_"@) + ".flag"@,
{
    proof {
        reveal_strlit("/");
    }
    let mut s = text::replace(name, "/", "_");
    s.append(".flag");
    s
}

/// A text without the endings `p` that it has.
pub open spec fn without_endings(s: Seq<char>, p: Seq<char>) -> Seq<char>
    decreases s.len(),
{
    if p.len() > 0 && p.is_suffix_of(s) {
        without_endings(s.take(s.len() - p.len()), p)
    } else {
        s
    }
}

/// The names of the marks among the first `n` files.
pub open spec fn marks(files: Seq<Seq<char>>, n: int) -> Seq<Seq<char>>
    decreases n,
{
    if n <= 0 {
        Seq::empty()
    } else if ".flag"@.is_suffix_of(files[n - 1]) {
        marks(files, n - 1).push(without_endings(files[n - 1], ".flag"@))
    } else {
        marks(files, n - 1)
    }
}

/// A text without the endings `p` that it has.
fn drop_endings(s: &str, p: &str) -> (r: String)
    requires
        p@.len() > 0,
    ensures
        r@ == without_endings(s@, p@),
    decreases s@.len(),
{
    if text::ends_with(s, p) {
        let a = text::chars_of(s);
        let b = text::chars_of(p);
        let t = text::string_of_range(a.as_slice(), 0, a.len() - b.len());
        assert(t@ =~= s@.take(s@.len() - p@.len()));
        drop_endings(t.as_str(), p)
    } else {
        s.to_owned()
    }
}

/// The degraded runs that the files of a directory mark, in order.
pub fn list_degraded(files: &Vec<String>) -> (r: Vec<String>)
    ensures
        text::views(r@) == order::sorted(marks(text::views(files@), files@.len() as int)),
{
    let ghost fv = text::views(files@);
    let mut out: Vec<String> = Vec::new();
    let mut i: usize = 0;
    proof {
        reveal_strlit(".flag");
    }
    assert(text::views(out@) =~= Seq::<Seq<char>>::empty());
    while i < files.len()
        invariant
            i <= files@.len(),
            fv == text::views(files@),
            ".flag"@.len() > 0,
            text::views(out@) == marks(fv, i as int),
        decreases files@.len() - i,
    {
        assert(fv[i as int] == files@[i as int]@);
        if text::ends_with(files[i].as_str(), ".flag") {
            let t = drop_endings(files[i].as_str(), ".flag");
            let ghost tv = t@;
            let ghost before = out@;
            out.push(t);
            assert(text::views(out@) =~= text::views(before).push(tv));
        }
        i += 1;
    }
    order::sort(&out)
}

// ── The state of things ──

/// What was found out about the store of sessions.
#[derive(Debug)]
pub enum StateProbe {
    /// It is not at this place.
    Missing(String),
    /// It cannot be opened, for this reason.
    Unopened(String),
    /// So many messages are recent; a negative number where they cannot be read.
    Recent(i64),
}

/// What was found out about the surroundings.
#[derive(Debug)]
pub struct Probes {
    /// Where the lasting environment should be, and whether it is there.
    pub lunar: String,
    pub lunar_ok: bool,
    /// Whether one stands in the temporary directory.
    pub tmp_lunar: bool,
    /// The store, and whether it can be written.
    pub db: String,
    pub db_ok: bool,
    pub state: StateProbe,
    /// The degraded runs that are marked.
    pub flags: Vec<String>,
}

/// What was checked: the name, whether it is in order, and details.
#[derive(Debug)]
pub struct DoctorReport {
    pub checks: Vec<(String, bool, String)>,
}

/// A check as values.
pub type GCheck = (Seq<char>, bool, Seq<char>);

/// Checks as values.
pub open spec fn check_views(v: Seq<(String, bool, String)>) -> Seq<GCheck> {
    v.map_values(|c: (String, bool, String)| (c.0@, c.1, c.2@))
}

impl DoctorReport {
    /// Whether everything is in order.
    pub fn all_ok(&self) -> (r: bool)
        ensures
            r == (forall|i: int| 0 <= i < self.checks@.len() ==> (#[trigger] self.checks@[i]).1),
    {
        let mut i: usize = 0;
        while i < self.checks.len()
            invariant
                i <= self.checks@.len(),
                forall|k: int| 0 <= k < i ==> (#[trigger] self.checks@[k]).1,
            decreases self.checks@.len() - i,
        {
            if !self.checks[i].1 {
                assert(!self.checks@[i as int].1);
                return false;
            }
            i += 1;
        }
        true
    }
}

/// The check of the store of sessions.
pub open spec fn state_check(p: StateProbe) -> GCheck {
    let name = "hermes state.db health"@;
    match p {
        StateProbe::Missing(path) => (name, false, "MISSING at "@ + path@),
        StateProbe::Unopened(e) => (name, false, "cannot open: "@ + e@),
        StateProbe::Recent(n) => if n > 0 {
            (name, true, "readable, "@ + text::signed_dec(n as int) + " msgs in last 7d"@)
        } else if n == 0 {
            (
                name,
                false,
                "opens but 0 recent messages (last 7d) — perception layer blind? recovered/reset?"@,
            )
        } else {
            (
                name,
                false,
                "messages table unreadable — corrupted? check *.corrupt.bak / recover"@,
            )
        },
    }
}

/// What follows from what was found out.
pub open spec fn checks_of(p: Probes) -> Seq<GCheck> {
    let lunar: GCheck = (
        "lunar-env persistent"@,
        p.lunar_ok,
        if p.lunar_ok {
            p.lunar@
        } else {
            "MISSING: cp -r /tmp/lunar-env ~/.local/share/ductile/envs/ or rebuild via uv"@
        },
    );
    let moved: Seq<GCheck> = if p.tmp_lunar && !p.lunar_ok {
        seq![
            (
                "migrate /tmp/lunar-env"@,
                false,
                "run: cp -r /tmp/lunar-env ~/.local/share/ductile/envs/"@,
            ),
        ]
    } else {
        Seq::empty()
    };
    let flags = text::views(p.flags@);
    seq![lunar] + moved + seq![
        ("ductile.db writable"@, p.db_ok, p.db@),
        state_check(p.state),
        (
            "degraded flags"@,
            flags.len() == 0,
            if flags.len() == 0 {
                "none"@
            } else {
                "OUTSTANDING: "@ + text::dec(flags.len()) + " — fix and clear: "@
                    + text::join_spec(flags, ", "@)
            },
        ),
    ]
}

/// The check of the store of sessions.
fn check_state(p: &StateProbe) -> (r: (String, bool, String))
    ensures
        (r.0@, r.1, r.2@) == state_check(*p),
{
    let name = "hermes state.db health".to_owned();
    match p {
        StateProbe::Missing(path) => {
            let mut m = "MISSING at ".to_owned();
            m.append(path.as_str());
            (name, false, m)
        },
        StateProbe::Unopened(e) => {
            let mut m = "cannot open: ".to_owned();
            m.append(e.as_str());
            (name, false, m)
        },
        StateProbe::Recent(n) => {
            if *n > 0 {
                let mut m = "readable, ".to_owned();
                m.append(text::signed_decimal(*n).as_str());
                m.append(" msgs in last 7d");
                (name, true, m)
            } else if *n == 0 {
                (
                    name,
                    false,
                    "opens but 0 recent messages (last 7d) — perception layer blind? recovered/reset?".to_owned(),
                )
            } else {
                (
                    name,
                    false,
                    "messages table unreadable — corrupted? check *.corrupt.bak / recover".to_owned(),
                )
            }
        },
    }
}

/// What follows from what was found out.
pub fn doctor(p: &Probes) -> (r: DoctorReport)
    ensures
        check_views(r.checks@) == checks_of(*p),
{
    let ghost flags = text::views(p.flags@);
    let mut checks: Vec<(String, bool, String)> = Vec::new();
    checks.push(
        (
            "lunar-env persistent".to_owned(),
            p.lunar_ok,
            if p.lunar_ok {
                p.lunar.clone()
            } else {
                "MISSING: cp -r /tmp/lunar-env ~/.local/share/ductile/envs/ or rebuild via uv".to_owned()
            },
        ),
    );
    if p.tmp_lunar && !p.lunar_ok {
        checks.push(
            (
                "migrate /tmp/lunar-env".to_owned(),
                false,
                "run: cp -r /tmp/lunar-env ~/.local/share/ductile/envs/".to_owned(),
            ),
        );
    }
    checks.push(("ductile.db writable".to_owned(), p.db_ok, p.db.clone()));
    checks.push(check_state(&p.state));
    let n: usize = p.flags.len();
    assert(n == flags.len());
    let detail = if n == 0 {
        "none".to_owned()
    } else {
        let mut m = "OUTSTANDING: ".to_owned();
        m.append(text::decimal(n as u128).as_str());
        m.append(" — fix and clear: ");
        m.append(text::join(p.flags.as_slice(), ", ").as_str());
        m
    };
    checks.push(("degraded flags".to_owned(), n == 0, detail));
    assert(check_views(checks@) =~= checks_of(*p));
    DoctorReport { checks }
}

// ── Commands in the calls of tools ──

/// Where the string ends that goes on at the `i`-th character.
pub open spec fn string_end_from(s: Seq<char>, i: int, escaped: bool) -> Option<int>
    decreases s.len() - i,
{
    if i < 0 || i >= s.len() {
        None
    } else if escaped {
        string_end_from(s, i + 1, false)
    } else if s[i] == '\\' {
        string_end_from(s, i + 1, true)
    } else if s[i] == '"' {
        Some(i)
    } else {
        string_end_from(s, i + 1, false)
    }
}

/// The place of the quote that ends a string, in characters; one behind a
/// backslash does not.
pub fn find_json_string_end(s: &str) -> (r: Option<usize>)
    ensures
        text::opt_int(r) == string_end_from(s@, 0, false),
        match r {
            Some(i) => i < s@.len() && s@[i as int] == '"',
            None => true,
        },
{
    let chars = text::chars_of(s);
    let mut escaped = false;
    let mut i: usize = 0;
    while i < chars.len()
        invariant
            i <= chars@.len(),
            chars@ == s@,
            string_end_from(s@, 0, false) == string_end_from(s@, i as int, escaped),
        decreases chars@.len() - i,
    {
        if escaped {
            escaped = false;
        } else if chars[i] == '\\' {
            escaped = true;
        } else if chars[i] == '"' {
            return Some(i);
        }
        i += 1;
    }
    None
}

/// A doubly escaped command as it was meant.
pub open spec fn unescaped(s: Seq<char>) -> Seq<char> {
    text::replace_spec(text::replace_spec(s, "\\\\"@, "\\"@), "\\\""@, "\""@)
}

/// The commands that stand behind the word `command` and a colon, in quotes or
/// in escaped quotes.
pub open spec fn rough_commands(s: Seq<char>) -> Seq<Seq<char>>
    decreases s.len(),
{
    match text::find_str_spec(s, "command"@) {
        Some(i) if 0 <= i && i + 7 <= s.len() => {
            let after = s.skip(i + 7);
            match text::find_char_spec(after, ':') {
                None => Seq::empty(),
                Some(c) => {
                    let val = text::trim_start_spec(after.skip(c + 1));
                    let inner = val.skip(2);
                    let end = if "\\\""@.is_prefix_of(val) {
                        text::find_str_spec(inner, "\\\""@)
                    } else {
                        None
                    };
                    match end {
                        Some(e) if 0 <= e && e + 2 <= inner.len() && inner.len() <= after.len() =>
                        seq![unescaped(inner.take(e))] + rough_commands(inner.skip(e + 2)),
                        _ => {
                            let plain = val.skip(1);
                            let stop = if val.len() > 0 && val[0] == '"' {
                                string_end_from(plain, 0, false)
                            } else {
                                None
                            };
                            match stop {
                                Some(e) if 0 <= e <= plain.len() && plain.len() < after.len() =>
                                seq![plain.take(e)] + rough_commands(plain.skip(e)),
                                _ => rough_commands(after),
                            }
                        },
                    }
                },
            }
        },
        _ => Seq::empty(),
    }
}

/// The commands that stand behind the word `command` and a colon.
pub fn extract_commands(tool_calls: &str) -> (r: Vec<String>)
    ensures
        text::views(r@) == rough_commands(tool_calls@),
{
    let mut out: Vec<String> = Vec::new();
    let mut rest = tool_calls.to_owned();
    let mut more = true;
    proof {
        reveal_strlit("command");
        reveal_strlit("\\\"");
        reveal_strlit("\\\\");
        assert(text::views(out@) + rough_commands(rest@) =~= rough_commands(tool_calls@));
    }
    while more
        invariant
            "command"@.len() == 7,
            "\\\""@.len() == 2,
            "\\\\"@.len() == 2,
            more ==> text::views(out@) + rough_commands(rest@) == rough_commands(tool_calls@),
            !more ==> text::views(out@) == rough_commands(tool_calls@),
        decreases rest@.len() + (if more {
            1int
        } else {
            0int
        }),
    {
        let ghost s = rest@;
        let ghost before = text::views(out@);
        proof {
            text::lemma_find_from(s, "command"@, 0);
            assert(before + Seq::<Seq<char>>::empty() =~= before);
        }
        match text::find_str(rest.as_str(), "command") {
            None => {
                more = false;
            },
            Some(i) => {
                let chars = text::chars_of(rest.as_str());
                let n: usize = chars.len();
                let after = text::string_of_range(chars.as_slice(), i + 7, n);
                assert(after@ =~= s.skip(i + 7));
                match text::split_once(after.as_str(), ':') {
                    None => {
                        more = false;
                    },
                    Some((_, tail)) => {
                        proof {
                            text::lemma_find_char_from(after@, ':', 0);
                            text::lemma_trim_start(tail@);
                        }
                        let val = text::trim_start(tail.as_str());
                        let vc = text::chars_of(val.as_str());
                        let vn: usize = vc.len();
                        assert(vn < after@.len());
                        let mut taken = false;
                        if text::starts_with(val.as_str(), "\\\"") {
                            let inner = text::string_of_range(vc.as_slice(), 2, vn);
                            assert(inner@ =~= val@.skip(2));
                            proof {
                                text::lemma_find_from(inner@, "\\\""@, 0);
                            }
                            match text::find_str(inner.as_str(), "\\\"") {
                                Some(e) => {
                                    let ic = text::chars_of(inner.as_str());
                                    let raw = text::string_of_range(ic.as_slice(), 0, e);
                                    assert(raw@ =~= inner@.take(e as int));
                                    let once = text::replace(raw.as_str(), "\\\\", "\\");
                                    let cmd = text::replace(once.as_str(), "\\\"", "\"");
                                    let ghost cv = cmd@;
                                    out.push(cmd);
                                    assert(text::views(out@) =~= before.push(cv));
                                    rest = text::string_of_range(ic.as_slice(), e + 2, ic.len());
                                    assert(rest@ =~= inner@.skip(e + 2));
                                    assert(before + (seq![cv] + rough_commands(rest@))
                                        =~= text::views(out@) + rough_commands(rest@));
                                    taken = true;
                                },
                                None => {},
                            }
                        }
                        if !taken && vn > 0 && vc[0] == '"' {
                            let plain = text::string_of_range(vc.as_slice(), 1, vn);
                            assert(plain@ =~= val@.skip(1));
                            match find_json_string_end(plain.as_str()) {
                                Some(e) => {
                                    let pc = text::chars_of(plain.as_str());
                                    let cmd = text::string_of_range(pc.as_slice(), 0, e);
                                    assert(cmd@ =~= plain@.take(e as int));
                                    let ghost cv = cmd@;
                                    out.push(cmd);
                                    assert(text::views(out@) =~= before.push(cv));
                                    rest = text::string_of_range(pc.as_slice(), e, pc.len());
                                    assert(rest@ =~= plain@.skip(e as int));
                                    assert(before + (seq![cv] + rough_commands(rest@))
                                        =~= text::views(out@) + rough_commands(rest@));
                                    taken = true;
                                },
                                None => {},
                            }
                        }
                        if !taken {
                            rest = after;
                        }
                    },
                }
            },
        }
    }
    out
}

/// The texts of the first `n` fields with this name.
pub open spec fn named_texts(fields: Seq<(Seq<char>, GJv)>, name: Seq<char>, n: int) -> Seq<
    Seq<char>,
>
    decreases n,
{
    if n <= 0 {
        Seq::empty()
    } else {
        match fields[n - 1].1 {
            GJv::S(t) if fields[n - 1].0 == name => named_texts(fields, name, n - 1).push(t),
            _ => named_texts(fields, name, n - 1),
        }
    }
}

/// The commands of arguments that are an object.
pub open spec fn argument_commands(args: Seq<char>) -> Seq<Seq<char>> {
    match jvalue::value_at(args, 0) {
        Some((GJv::O(fields), _)) => named_texts(fields, "command"@, fields.len() as int),
        _ => Seq::empty(),
    }
}

/// The commands of the arguments among the first `n` fields of a function.
pub open spec fn function_commands(fields: Seq<(Seq<char>, GJv)>, n: int) -> Seq<Seq<char>>
    decreases n,
{
    if n <= 0 {
        Seq::empty()
    } else {
        match fields[n - 1].1 {
            GJv::S(args) if fields[n - 1].0 == "arguments"@ => function_commands(fields, n - 1)
                + argument_commands(args),
            _ => function_commands(fields, n - 1),
        }
    }
}

/// The commands of the functions among the first `n` fields of a call.
pub open spec fn call_commands(fields: Seq<(Seq<char>, GJv)>, n: int) -> Seq<Seq<char>>
    decreases n,
{
    if n <= 0 {
        Seq::empty()
    } else {
        match fields[n - 1].1 {
            GJv::O(f) if fields[n - 1].0 == "function"@ => call_commands(fields, n - 1)
                + function_commands(f, f.len() as int),
            _ => call_commands(fields, n - 1),
        }
    }
}

/// The commands of the first `n` calls.
pub open spec fn list_commands(calls: Seq<GJv>, n: int) -> Seq<Seq<char>>
    decreases n,
{
    if n <= 0 {
        Seq::empty()
    } else {
        match calls[n - 1] {
            GJv::O(fields) => list_commands(calls, n - 1) + call_commands(
                fields,
                fields.len() as int,
            ),
            _ => list_commands(calls, n - 1),
        }
    }
}

/// The commands of calls that are a list; otherwise, or where the list has none,
/// those that a rough search finds.
pub open spec fn exact_commands(s: Seq<char>) -> Seq<Seq<char>> {
    match jvalue::value_at(s, 0) {
        Some((GJv::A(calls), _)) => if list_commands(calls, calls.len() as int).len() > 0 {
            list_commands(calls, calls.len() as int)
        } else {
            rough_commands(s)
        },
        _ => rough_commands(s),
    }
}

/// Adds the texts at the end.
fn push_texts(out: &mut Vec<String>, more: Vec<String>)
    ensures
        text::views(final(out)@) == text::views(old(out)@) + text::views(more@),
{
    let ghost start = text::views(out@);
    let ghost mv = text::views(more@);
    let mut i: usize = 0;
    assert(start + mv.take(0) =~= start);
    while i < more.len()
        invariant
            i <= more@.len(),
            mv == text::views(more@),
            text::views(out@) == start + mv.take(i as int),
        decreases more@.len() - i,
    {
        let ghost before = out@;
        out.push(more[i].clone());
        assert(text::views(out@) =~= text::views(before).push(mv[i as int]));
        assert(mv.take(i + 1) =~= mv.take(i as int).push(mv[i as int]));
        assert(start + mv.take(i + 1) =~= (start + mv.take(i as int)).push(mv[i as int]));
        i += 1;
    }
    assert(mv.take(mv.len() as int) =~= mv);
}

/// The commands of arguments that are an object.
fn from_arguments(args: &str) -> (r: Vec<String>)
    ensures
        text::views(r@) == argument_commands(args@),
{
    let mut out: Vec<String> = Vec::new();
    let mut at: usize = 0;
    assert(text::views(out@) =~= Seq::<Seq<char>>::empty());
    match jvalue::jparse(args, &mut at) {
        Some(Jv::O(fields)) => {
            proof {
                jvalue::lemma_object(fields);
            }
            let ghost fv = jvalue::field_views(fields@);
            let mut i: usize = 0;
            while i < fields.len()
                invariant
                    i <= fields@.len(),
                    fv == jvalue::field_views(fields@),
                    text::views(out@) == named_texts(fv, "command"@, i as int),
                decreases fields@.len() - i,
            {
                assert(fv[i as int] == (fields@[i as int].0@, fields@[i as int].1@));
                if text::same(fields[i].0.as_str(), "command") {
                    match &fields[i].1 {
                        Jv::S(c) => {
                            let ghost before = out@;
                            out.push(c.clone());
                            assert(text::views(out@) =~= text::views(before).push(c@));
                        },
                        _ => {},
                    }
                }
                i += 1;
            }
        },
        _ => {},
    }
    out
}

/// The commands of the arguments among the fields of a function.
fn from_function(fields: &Vec<(String, Jv)>) -> (r: Vec<String>)
    ensures
        text::views(r@) == function_commands(
            jvalue::field_views(fields@),
            fields@.len() as int,
        ),
{
    let ghost fv = jvalue::field_views(fields@);
    let mut out: Vec<String> = Vec::new();
    let mut i: usize = 0;
    assert(text::views(out@) =~= Seq::<Seq<char>>::empty());
    while i < fields.len()
        invariant
            i <= fields@.len(),
            fv == jvalue::field_views(fields@),
            text::views(out@) == function_commands(fv, i as int),
        decreases fields@.len() - i,
    {
        assert(fv[i as int] == (fields@[i as int].0@, fields@[i as int].1@));
        if text::same(fields[i].0.as_str(), "arguments") {
            match &fields[i].1 {
                Jv::S(args) => {
                    let more = from_arguments(args.as_str());
                    push_texts(&mut out, more);
                },
                _ => {},
            }
        }
        i += 1;
    }
    out
}

/// The commands of the functions among the fields of a call.
fn from_call(fields: &Vec<(String, Jv)>) -> (r: Vec<String>)
    ensures
        text::views(r@) == call_commands(jvalue::field_views(fields@), fields@.len() as int),
{
    let ghost fv = jvalue::field_views(fields@);
    let mut out: Vec<String> = Vec::new();
    let mut i: usize = 0;
    assert(text::views(out@) =~= Seq::<Seq<char>>::empty());
    while i < fields.len()
        invariant
            i <= fields@.len(),
            fv == jvalue::field_views(fields@),
            text::views(out@) == call_commands(fv, i as int),
        decreases fields@.len() - i,
    {
        assert(fv[i as int] == (fields@[i as int].0@, fields@[i as int].1@));
        if text::same(fields[i].0.as_str(), "function") {
            match &fields[i].1 {
                Jv::O(f) => {
                    proof {
                        jvalue::lemma_object(*f);
                        assert(jvalue::field_views(f@).len() == f@.len());
                    }
                    let more = from_function(f);
                    push_texts(&mut out, more);
                },
                _ => {},
            }
        }
        i += 1;
    }
    out
}

/// The commands of calls that are a list; otherwise, or where the list has none,
/// those that a rough search finds.
pub fn extract_commands_exact(tool_calls: &str) -> (r: Vec<String>)
    ensures
        text::views(r@) == exact_commands(tool_calls@),
{
    let mut at: usize = 0;
    match jvalue::jparse(tool_calls, &mut at) {
        Some(Jv::A(calls)) => {
            proof {
                jvalue::lemma_list(calls);
            }
            let ghost cv = jvalue::item_views(calls@);
            let mut out: Vec<String> = Vec::new();
            let mut i: usize = 0;
            assert(text::views(out@) =~= Seq::<Seq<char>>::empty());
            while i < calls.len()
                invariant
                    i <= calls@.len(),
                    cv == jvalue::item_views(calls@),
                    text::views(out@) == list_commands(cv, i as int),
                decreases calls@.len() - i,
            {
                assert(cv[i as int] == calls@[i as int]@);
                match &calls[i] {
                    Jv::O(fields) => {
                        proof {
                            jvalue::lemma_object(*fields);
                            assert(jvalue::field_views(fields@).len() == fields@.len());
                        }
                        let more = from_call(fields);
                        push_texts(&mut out, more);
                    },
                    _ => {},
                }
                i += 1;
            }
            assert(cv.len() == calls@.len());
            assert(text::views(out@).len() == out@.len());
            if out.len() > 0 {
                return out;
            }
        },
        _ => {},
    }
    extract_commands(tool_calls)
}

// ── Commands that come again ──

/// The first line of a command, with dots where more follows.
pub open spec fn first_line(c: Seq<char>) -> Seq<char> {
    let lines = text::lines_spec(c);
    let line = if lines.len() > 0 {
        text::trimmed(lines[0])
    } else {
        Seq::empty()
    };
    if (lines.len() > 1 || (c.len() > 0 && c.last() == '\\')) && !(line.len() > 0 && line.last()
        == '…') {
        line.push('…')
    } else {
        line
    }
}

/// A command as it is counted: its first line without a comment, and with the
/// lasting environment in place of the temporary one.
pub open spec fn normal(cmd: Seq<char>) -> Seq<char> {
    text::replace_spec(
        text::split_str_spec(first_line(text::trimmed(cmd)), " # "@)[0],
        "/tmp/lunar-env"@,
        "~/.local/share/ductile/envs/lunar-env"@,
    )
}

/// A command as it is counted.
pub fn normalize(cmd: &str) -> (r: String)
    ensures
        r@ == normal(cmd@),
{
    let c = text::trim(cmd);
    let lines = text::lines(c.as_str());
    let ghost lv = text::views(lines@);
    assert(lv.len() == lines@.len());
    let mut line = if lines.len() > 0 {
        assert(lv[0] == lines@[0]@);
        text::trim(lines[0].as_str())
    } else {
        let e = String::new();
        assert(e@ =~= Seq::<char>::empty());
        e
    };
    let cc = text::chars_of(c.as_str());
    let lc = text::chars_of(line.as_str());
    if (lines.len() > 1 || (cc.len() > 0 && cc[cc.len() - 1] == '\\')) && !(lc.len() > 0 && lc[
    lc.len() - 1] == '…') {
        line.push('…');
    }
    assert(line@ == first_line(c@));
    proof {
        reveal_strlit(" # ");
        reveal_strlit("/tmp/lunar-env");
    }
    let parts = text::split_str(line.as_str(), " # ");
    let ghost pv = text::views(parts@);
    assert(pv.len() == parts@.len());
    assert(pv.len() >= 1);
    assert(pv[0] == parts@[0]@);
    text::replace(
        parts[0].as_str(),
        "/tmp/lunar-env",
        "~/.local/share/ductile/envs/lunar-env",
    )
}

/// A command that came at this time.
pub type GSeen = (Seq<char>, int);

/// The commands with the time of their row, of the first `n`.
pub open spec fn seen_in(cmds: Seq<Seq<char>>, at: int, n: int) -> Seq<GSeen>
    decreases n,
{
    if n <= 0 {
        Seq::empty()
    } else {
        seen_in(cmds, at, n - 1).push((normal(cmds[n - 1]), at))
    }
}

/// Rows as values.
pub open spec fn row_views(rows: Seq<(String, i64)>) -> Seq<(Seq<char>, int)> {
    rows.map_values(|p: (String, i64)| (p.0@, p.1 as int))
}

/// The commands of the first `n` rows, as they are counted.
pub open spec fn seen(rows: Seq<(Seq<char>, int)>, n: int) -> Seq<GSeen>
    decreases n,
{
    if n <= 0 {
        Seq::empty()
    } else {
        let cmds = rough_commands(rows[n - 1].0);
        seen(rows, n - 1) + seen_in(cmds, rows[n - 1].1, cmds.len() as int)
    }
}

/// How often a command is among the first `n`.
pub open spec fn times(all: Seq<GSeen>, x: Seq<char>, n: int) -> int
    decreases n,
{
    if n <= 0 {
        0
    } else if all[n - 1].0 == x {
        times(all, x, n - 1) + 1
    } else {
        times(all, x, n - 1)
    }
}

/// When a command last came among the first `n`; never before the start of time.
pub open spec fn latest(all: Seq<GSeen>, x: Seq<char>, n: int) -> int
    decreases n,
{
    if n <= 0 {
        0
    } else if all[n - 1].0 == x && all[n - 1].1 > latest(all, x, n - 1) {
        all[n - 1].1
    } else {
        latest(all, x, n - 1)
    }
}

/// A command that came more than once.
#[derive(Debug)]
pub struct HarvestHit {
    pub count: usize,
    pub cmd: String,
    pub last_seen: String,
}

/// Whether a text shows a time; a question mark where it is out of range.
pub open spec fn shows_stamp(s: Seq<char>, secs: int) -> bool {
    if secs <= i64::MAX - 28_800 {
        time::shows(s, secs + 28_800, " "@, false)
    } else {
        s == "?"@
    }
}

/// Whether a hit tells how often its command came and when it last did.
pub open spec fn true_hit(all: Seq<GSeen>, h: HarvestHit) -> bool {
    let n = all.len() as int;
    h.count == times(all, h.cmd@, n) && h.count >= 2 && shows_stamp(
        h.last_seen@,
        latest(all, h.cmd@, n),
    )
}

/// Whether one hit goes before another: it came more often, or as often and its
/// command goes before the other's.
pub open spec fn goes_before(a: HarvestHit, b: HarvestHit) -> bool {
    a.count > b.count || (a.count == b.count && order::text_lt(a.cmd@, b.cmd@))
}

/// Whether the hits stand in order.
pub open spec fn ranked(hits: Seq<HarvestHit>) -> bool {
    forall|i: int, j: int|
        0 <= i < j < hits.len() ==> goes_before(#[trigger] hits[i], #[trigger] hits[j])
}

/// Whether a command has a hit.
pub open spec fn has_hit(hits: Seq<HarvestHit>, x: Seq<char>) -> bool {
    exists|i: int| 0 <= i < hits.len() && (#[trigger] hits[i]).cmd@ == x
}

/// The text of a time.
fn stamp(secs: i64) -> (r: String)
    requires
        secs >= 0,
    ensures
        shows_stamp(r@, secs as int),
{
    if secs <= i64::MAX - 28_800 {
        time::fmt_ts_cst(secs, " ", false)
    } else {
        "?".to_owned()
    }
}

proof fn lemma_times_bounds(all: Seq<GSeen>, x: Seq<char>, n: int)
    requires
        0 <= n <= all.len(),
    ensures
        0 <= times(all, x, n) <= n,
        latest(all, x, n) >= 0,
    decreases n,
{
    if n > 0 {
        lemma_times_bounds(all, x, n - 1);
    }
}

/// The counted commands as values.
spec fn seen_views(v: Seq<(String, i64)>) -> Seq<GSeen> {
    v.map_values(|p: (String, i64)| (p.0@, p.1 as int))
}

/// The commands of the rows, as they are counted.
fn collect(rows: &Vec<(String, i64)>) -> (r: Vec<(String, i64)>)
    ensures
        seen_views(r@) == seen(row_views(rows@), rows@.len() as int),
{
    let ghost rv = row_views(rows@);
    let mut out: Vec<(String, i64)> = Vec::new();
    let mut i: usize = 0;
    assert(seen_views(out@) =~= Seq::<GSeen>::empty());
    while i < rows.len()
        invariant
            i <= rows@.len(),
            rv == row_views(rows@),
            seen_views(out@) == seen(rv, i as int),
        decreases rows@.len() - i,
    {
        assert(rv[i as int] == (rows@[i as int].0@, rows@[i as int].1 as int));
        let cmds = extract_commands(rows[i].0.as_str());
        let at: i64 = rows[i].1;
        let ghost cv = text::views(cmds@);
        let ghost start = seen_views(out@);
        let mut j: usize = 0;
        assert(start + seen_in(cv, at as int, 0) =~= start);
        while j < cmds.len()
            invariant
                j <= cmds@.len(),
                cv == text::views(cmds@),
                seen_views(out@) == start + seen_in(cv, at as int, j as int),
            decreases cmds@.len() - j,
        {
            assert(cv[j as int] == cmds@[j as int]@);
            let c = normalize(cmds[j].as_str());
            let ghost p = (c@, at as int);
            let ghost before = seen_views(out@);
            out.push((c, at));
            assert(seen_views(out@) =~= before.push(p));
            assert(before.push(p) =~= start + seen_in(cv, at as int, j as int).push(p));
            j += 1;
        }
        assert(cv.len() == cmds@.len());
        i += 1;
    }
    out
}

/// How often each command came and when it last did.
fn count(items: &Vec<(String, i64)>) -> (r: TextMap<(usize, i64)>)
    ensures
        r.wf(),
        forall|x: Seq<char>|
            #![trigger r@.dom().contains(x)]
            r@.dom().contains(x) <==> times(seen_views(items@), x, items@.len() as int) > 0,
        forall|x: Seq<char>| #[trigger]
            r@.dom().contains(x) ==> r@[x].0 == times(
                seen_views(items@),
                x,
                items@.len() as int,
            ) && r@[x].1 == latest(seen_views(items@), x, items@.len() as int),
{
    let ghost all = seen_views(items@);
    let mut m: TextMap<(usize, i64)> = TextMap::new();
    let mut i: usize = 0;
    while i < items.len()
        invariant
            i <= items@.len(),
            all == seen_views(items@),
            m.wf(),
            forall|x: Seq<char>|
                #![trigger m@.dom().contains(x)]
                m@.dom().contains(x) <==> times(all, x, i as int) > 0,
            forall|x: Seq<char>| #[trigger]
                m@.dom().contains(x) ==> m@[x].0 == times(all, x, i as int) && m@[x].1 == latest(
                    all,
                    x,
                    i as int,
                ),
        decreases items@.len() - i,
    {
        let key = items[i].0.clone();
        let at: i64 = items[i].1;
        let ghost before = m@;
        assert(all[i as int] == (key@, at as int));
        let ghost kv = key@;
        proof {
            lemma_times_bounds(all, kv, i as int);
        }
        let (c, t): (usize, i64) = match m.get(key.as_str()) {
            Some(p) => (p.0, p.1),
            None => {
                proof {
                    assert(times(all, kv, i as int) == 0);
                    lemma_never(all, kv, i as int);
                }
                (0, 0)
            },
        };
        assert(c == times(all, kv, i as int));
        assert(t == latest(all, kv, i as int));
        let later: i64 = if at > t {
            at
        } else {
            t
        };
        m.insert(key, (c + 1, later));
        proof {
            assert forall|x: Seq<char>| #![trigger m@.dom().contains(x)]
                m@.dom().contains(x) <==> times(all, x, i + 1) > 0 by {
                lemma_times_bounds(all, x, i as int);
                assert(before.dom().contains(x) <==> times(all, x, i as int) > 0);
            }
        }
        i += 1;
    }
    m
}

proof fn lemma_never(all: Seq<GSeen>, x: Seq<char>, n: int)
    requires
        0 <= n <= all.len(),
        times(all, x, n) == 0,
    ensures
        latest(all, x, n) == 0,
    decreases n,
{
    if n > 0 {
        lemma_times_bounds(all, x, n - 1);
        lemma_never(all, x, n - 1);
    }
}

/// The commands that came more than once, the most frequent first: each tells
/// how often it came and when it last did.
pub fn harvest(rows: &Vec<(String, i64)>) -> (r: Vec<HarvestHit>)
    ensures
        ranked(r@),
        forall|i: int|
            0 <= i < r@.len() ==> true_hit(
                seen(row_views(rows@), rows@.len() as int),
                #[trigger] r@[i],
            ),
        forall|x: Seq<char>|
            times(
                seen(row_views(rows@), rows@.len() as int),
                x,
                seen(row_views(rows@), rows@.len() as int).len() as int,
            ) >= 2 ==> #[trigger] has_hit(r@, x),
{
    let ghost all = seen(row_views(rows@), rows@.len() as int);
    let items = collect(rows);
    let m = count(&items);
    let ghost keys = m.keys();
    assert(items@.len() == all.len());
    let mut hits: Vec<HarvestHit> = Vec::new();
    let mut i: usize = 0;
    while i < m.len()
        invariant
            i <= keys.len(),
            keys == m.keys(),
            m.wf(),
            forall|x: Seq<char>| #[trigger]
                m@.dom().contains(x) ==> m@[x].0 == times(all, x, all.len() as int) && m@[x].1
                    == latest(all, x, all.len() as int),
            ranked(hits@),
            forall|k: int| 0 <= k < hits@.len() ==> true_hit(all, #[trigger] hits@[k]),
            forall|k: int|
                0 <= k < hits@.len() ==> exists|j: int|
                    0 <= j < i && keys[j] == (#[trigger] hits@[k]).cmd@,
            forall|j: int|
                #![trigger keys[j]]
                0 <= j < i && m@[keys[j]].0 >= 2 ==> has_hit(hits@, keys[j]),
        decreases keys.len() - i,
    {
        let key = m.key_at(i);
        let c: usize = m.value_at(i).0;
        let t: i64 = m.value_at(i).1;
        proof {
            m.lemma_entry(i as int);
            lemma_times_bounds(all, key@, all.len() as int);
        }
        if c >= 2 {
            let ghost before = hits@;
            let mut p: usize = 0;
            while p < hits.len() && hits[p].count >= c
                invariant
                    p <= hits@.len(),
                    hits@ == before,
                    forall|k: int| 0 <= k < p ==> (#[trigger] before[k]).count >= c,
                decreases hits@.len() - p,
            {
                p += 1;
            }
            let h = HarvestHit { count: c, cmd: key.clone(), last_seen: stamp(t) };
            let ghost hv = h;
            assert(true_hit(all, h));
            hits.insert(p, h);
            proof {
                let after = hits@;
                assert(after =~= before.insert(p as int, hv));
                assert forall|a: int, b: int| 0 <= a < b < after.len() implies goes_before(
                    #[trigger] after[a],
                    #[trigger] after[b],
                ) by {
                    let x = if a < p {
                        a
                    } else {
                        a - 1
                    };
                    let y = if b < p {
                        b
                    } else {
                        b - 1
                    };
                    if a == p {
                        assert(after[b] == before[y]);
                        if p < before.len() {
                            assert(before[p as int].count < c);
                            if y > p {
                                assert(goes_before(before[p as int], before[y]));
                            }
                        }
                    } else if b == p {
                        assert(after[a] == before[x]);
                        let j = choose|j: int| 0 <= j < i && keys[j] == before[x].cmd@;
                        assert(order::text_lt(keys[j], keys[i as int]));
                    } else {
                        assert(after[a] == before[x] && after[b] == before[y]);
                        assert(goes_before(before[x], before[y]));
                    }
                }
                assert forall|k: int| 0 <= k < after.len() implies true_hit(
                    all,
                    #[trigger] after[k],
                ) && exists|j: int| 0 <= j < i + 1 && keys[j] == after[k].cmd@ by {
                    if k == p {
                        assert(keys[i as int] == after[k].cmd@);
                    } else {
                        let x = if k < p {
                            k
                        } else {
                            k - 1
                        };
                        assert(after[k] == before[x]);
                        let j = choose|j: int| 0 <= j < i && keys[j] == before[x].cmd@;
                        assert(keys[j] == after[k].cmd@);
                    }
                }
                assert forall|j: int| #![trigger keys[j]] 0 <= j < i + 1 && m@[keys[j]].0
                    >= 2 implies has_hit(after, keys[j]) by {
                    if j == i {
                        assert(after[p as int].cmd@ == keys[j]);
                    } else {
                        assert(has_hit(before, keys[j]));
                        let k = choose|k: int|
                            0 <= k < before.len() && (#[trigger] before[k]).cmd@ == keys[j];
                        let z = if k < p {
                            k
                        } else {
                            k + 1
                        };
                        assert(after[z] == before[k]);
                    }
                }
            }
        }
        i += 1;
    }
    proof {
        assert forall|x: Seq<char>| times(all, x, all.len() as int) >= 2 implies #[trigger] has_hit(
            hits@,
            x,
        ) by {
            assert(m@.dom().contains(x));
            assert(keys.contains(x));
            let j = choose|j: int| 0 <= j < keys.len() && keys[j] == x;
            assert(m@[keys[j]].0 >= 2);
        }
    }
    hits
}

// ── Commands over sessions ──

/// How often a command came, and in how many sessions.
#[derive(Debug)]
pub struct CmdCount {
    pub calls: usize,
    pub sessions: usize,
}

/// A command and its session.
pub type GUse = (Seq<char>, Seq<char>);

/// The commands of at least six bytes among the first `n`, with their session.
pub open spec fn uses_in(cmds: Seq<Seq<char>>, session: Seq<char>, n: int) -> Seq<GUse>
    decreases n,
{
    if n <= 0 {
        Seq::empty()
    } else if vstd::utf8::encode_utf8(text::trimmed(cmds[n - 1])).len() >= 6 {
        uses_in(cmds, session, n - 1).push((text::trimmed(cmds[n - 1]), session))
    } else {
        uses_in(cmds, session, n - 1)
    }
}

/// The commands of the first `n` rows with their sessions.
pub open spec fn uses(rows: Seq<(Seq<char>, Seq<char>)>, n: int) -> Seq<GUse>
    decreases n,
{
    if n <= 0 {
        Seq::empty()
    } else {
        let cmds = exact_commands(rows[n - 1].0);
        uses(rows, n - 1) + uses_in(cmds, rows[n - 1].1, cmds.len() as int)
    }
}

/// How often a command is among the first `n` uses.
pub open spec fn calls_of(all: Seq<GUse>, x: Seq<char>, n: int) -> int
    decreases n,
{
    if n <= 0 {
        0
    } else if all[n - 1].0 == x {
        calls_of(all, x, n - 1) + 1
    } else {
        calls_of(all, x, n - 1)
    }
}

/// The sessions in which a command is among the first `n` uses.
pub open spec fn sessions_of(all: Seq<GUse>, x: Seq<char>, n: int) -> Set<Seq<char>>
    decreases n,
{
    if n <= 0 {
        Set::empty()
    } else if all[n - 1].0 == x {
        sessions_of(all, x, n - 1).insert(all[n - 1].1)
    } else {
        sessions_of(all, x, n - 1)
    }
}

/// Pairs as values.
pub open spec fn use_views(v: Seq<(String, String)>) -> Seq<GUse> {
    v.map_values(|p: (String, String)| (p.0@, p.1@))
}

proof fn lemma_calls_bounds(all: Seq<GUse>, x: Seq<char>, n: int)
    requires
        0 <= n <= all.len(),
    ensures
        0 <= calls_of(all, x, n) <= n,
        calls_of(all, x, n) == 0 ==> sessions_of(all, x, n) == Set::<Seq<char>>::empty(),
    decreases n,
{
    if n > 0 {
        lemma_calls_bounds(all, x, n - 1);
    }
}

/// The commands of the rows with their sessions.
fn collect_uses(rows: &Vec<(String, String)>) -> (r: Vec<(String, String)>)
    ensures
        use_views(r@) == uses(use_views(rows@), rows@.len() as int),
{
    let ghost rv = use_views(rows@);
    let mut out: Vec<(String, String)> = Vec::new();
    let mut i: usize = 0;
    assert(use_views(out@) =~= Seq::<GUse>::empty());
    while i < rows.len()
        invariant
            i <= rows@.len(),
            rv == use_views(rows@),
            use_views(out@) == uses(rv, i as int),
        decreases rows@.len() - i,
    {
        assert(rv[i as int] == (rows@[i as int].0@, rows@[i as int].1@));
        let cmds = extract_commands_exact(rows[i].0.as_str());
        let ghost cv = text::views(cmds@);
        let ghost session = rows@[i as int].1@;
        let ghost start = use_views(out@);
        let mut j: usize = 0;
        assert(start + uses_in(cv, session, 0) =~= start);
        while j < cmds.len()
            invariant
                i < rows@.len(),
                session == rows@[i as int].1@,
                j <= cmds@.len(),
                cv == text::views(cmds@),
                use_views(out@) == start + uses_in(cv, session, j as int),
            decreases cmds@.len() - j,
        {
            assert(cv[j as int] == cmds@[j as int]@);
            let c = text::trim(cmds[j].as_str());
            if c.as_str().as_bytes().len() >= 6 {
                let ghost p = (c@, session);
                let ghost before = use_views(out@);
                out.push((c, rows[i].1.clone()));
                assert(use_views(out@) =~= before.push(p));
                assert(before.push(p) =~= start + uses_in(cv, session, j as int).push(p));
            }
            j += 1;
        }
        assert(cv.len() == cmds@.len());
        i += 1;
    }
    out
}

/// How often each command came, and in how many sessions: a command that comes
/// again in the same session is no sign of use beyond it.
pub fn harvest_full_counts(rows: &Vec<(String, String)>) -> (r: TextMap<CmdCount>)
    ensures
        r.wf(),
        ({
            let all = uses(use_views(rows@), rows@.len() as int);
            let n = all.len() as int;
            &&& forall|x: Seq<char>|
                #![trigger r@.dom().contains(x)]
                r@.dom().contains(x) <==> calls_of(all, x, n) > 0
            &&& forall|x: Seq<char>| #[trigger]
                r@.dom().contains(x) ==> r@[x].calls == calls_of(all, x, n) && r@[x].sessions
                    == sessions_of(all, x, n).len()
        }),
{
    let ghost all = uses(use_views(rows@), rows@.len() as int);
    let items = collect_uses(rows);
    assert(items@.len() == all.len());
    let mut m: TextMap<(usize, TextSet)> = TextMap::new();
    let mut i: usize = 0;
    while i < items.len()
        invariant
            i <= items@.len(),
            all == use_views(items@),
            m.wf(),
            forall|x: Seq<char>|
                #![trigger m@.dom().contains(x)]
                m@.dom().contains(x) <==> calls_of(all, x, i as int) > 0,
            forall|x: Seq<char>| #[trigger]
                m@.dom().contains(x) ==> m@[x].0 == calls_of(all, x, i as int) && m@[x].1.wf()
                    && m@[x].1@ == sessions_of(all, x, i as int),
        decreases items@.len() - i,
    {
        let key = items[i].0.clone();
        let session = items[i].1.clone();
        let ghost kv = key@;
        let ghost sv = session@;
        let ghost before = m@;
        assert(all[i as int] == (kv, sv));
        proof {
            lemma_calls_bounds(all, kv, i as int);
        }
        if m.contains_key(key.as_str()) {
            let (c, mut set) = m.replace(key.as_str(), (0, TextSet::new()));
            let ghost set0 = set@;
            let _ = set.insert(session);
            assert(set@ =~= set0.insert(sv));
            let _ = m.replace(key.as_str(), (c + 1, set));
            assert(m@ =~= before.insert(kv, (((c + 1) as usize), set)));
        } else {
            let mut set = TextSet::new();
            let _ = set.insert(session);
            assert(set@ =~= Set::<Seq<char>>::empty().insert(sv));
            m.insert(key, (1, set));
        }
        proof {
            assert forall|x: Seq<char>| #![trigger m@.dom().contains(x)]
                m@.dom().contains(x) <==> calls_of(all, x, i + 1) > 0 by {
                lemma_calls_bounds(all, x, i as int);
                assert(before.dom().contains(x) <==> calls_of(all, x, i as int) > 0);
            }
        }
        i += 1;
    }
    let ghost keys = m.keys();
    let mut out: TextMap<CmdCount> = TextMap::new();
    let mut k: usize = 0;
    while k < m.len()
        invariant
            k <= keys.len(),
            keys == m.keys(),
            m.wf(),
            out.wf(),
            forall|x: Seq<char>| #[trigger]
                m@.dom().contains(x) ==> m@[x].0 == calls_of(all, x, all.len() as int)
                    && m@[x].1.wf() && m@[x].1@ == sessions_of(all, x, all.len() as int),
            forall|x: Seq<char>|
                #![trigger out@.dom().contains(x)]
                out@.dom().contains(x) <==> exists|j: int| 0 <= j < k && keys[j] == x,
            forall|x: Seq<char>| #[trigger]
                out@.dom().contains(x) ==> out@[x].calls == calls_of(all, x, all.len() as int)
                    && out@[x].sessions == sessions_of(all, x, all.len() as int).len(),
        decreases keys.len() - k,
    {
        let ghost before = out@;
        proof {
            m.lemma_entry(k as int);
        }
        let key = m.key_at(k).clone();
        let v = m.value_at(k);
        let n: usize = v.1.len();
        proof {
            lemma_set_len(v.1);
        }
        out.insert(key, CmdCount { calls: v.0, sessions: n });
        proof {
            let kv = keys[k as int];
            assert forall|x: Seq<char>| #![trigger out@.dom().contains(x)]
                out@.dom().contains(x) <==> exists|j: int| 0 <= j < k + 1 && keys[j] == x by {
                if exists|j: int| 0 <= j < k + 1 && keys[j] == x {
                    let j = choose|j: int| 0 <= j < k + 1 && keys[j] == x;
                    if j < k {
                        assert(before.dom().contains(x));
                    }
                }
                if before.dom().contains(x) {
                    let j = choose|j: int| 0 <= j < k && keys[j] == x;
                    assert(keys[j] == x);
                }
                assert(keys[k as int] == kv);
            }
        }
        k += 1;
    }
    proof {
        assert forall|x: Seq<char>| #![trigger out@.dom().contains(x)]
            out@.dom().contains(x) <==> calls_of(all, x, all.len() as int) > 0 by {
            if exists|j: int| 0 <= j < keys.len() && keys[j] == x {
                let j = choose|j: int| 0 <= j < keys.len() && keys[j] == x;
                m.lemma_entry(j);
            }
            if m@.dom().contains(x) {
                assert(keys.contains(x));
                let j = choose|j: int| 0 <= j < keys.len() && keys[j] == x;
                assert(keys[j] == x);
            }
        }
    }
    out
}

/// A set has as many members as its list.
proof fn lemma_set_len(s: TextSet)
    requires
        s.wf(),
    ensures
        s@.len() == s.seq().len(),
{
    order::lemma_ascending_distinct(s.seq());
    s.seq().unique_seq_to_set();
    assert(s@ =~= s.seq().to_set());
}

/// A command comes at least as often as there are sessions that hold it.
pub proof fn law_sessions_are_fewer(all: Seq<GUse>, x: Seq<char>, n: int)
    requires
        0 <= n <= all.len(),
    ensures
        sessions_of(all, x, n).finite(),
        sessions_of(all, x, n).len() <= calls_of(all, x, n),
    decreases n,
{
    if n > 0 {
        law_sessions_are_fewer(all, x, n - 1);
    }
}

} // verus!

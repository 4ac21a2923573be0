//! Scripts: the header that describes one, and the body that calls one.

use crate::config;
use crate::order::TextMap;
use crate::script_card;
use crate::script_card::{Concurrency, GCard, ScriptCard};
use crate::text;
use vstd::prelude::*;

verus! {

/// The program that runs scripts of a language, or what is wrong with it.
pub open spec fn interpreter(lang: Seq<char>) -> Result<Seq<char>, Seq<char>> {
    let t = text::trimmed(lang);
    if t == "python"@ || t == "python3"@ {
        Ok("python3"@)
    } else if t == "sh"@ || t == "bash"@ {
        Ok("bash"@)
    } else if t == "powershell"@ || t == "pwsh"@ {
        Ok("pwsh"@)
    } else if t == "node"@ || t == "js"@ {
        Ok("node"@)
    } else {
        Err("unknown lang '"@ + t + "' (known: python/sh/bash/powershell/node)"@)
    }
}

/// The program that runs scripts of a language, or what is wrong with it.
pub fn lang_interpreter(lang: &str) -> (r: Result<&'static str, String>)
    ensures
        match r {
            Ok(p) => interpreter(lang@) == Ok::<Seq<char>, Seq<char>>(p@),
            Err(e) => interpreter(lang@) == Err::<Seq<char>, Seq<char>>(e@),
        },
{
    let t = text::trim(lang);
    let s = t.as_str();
    if text::same(s, "python") || text::same(s, "python3") {
        Ok("python3")
    } else if text::same(s, "sh") || text::same(s, "bash") {
        Ok("bash")
    } else if text::same(s, "powershell") || text::same(s, "pwsh") {
        Ok("pwsh")
    } else if text::same(s, "node") || text::same(s, "js") {
        Ok("node")
    } else {
        let mut m = "unknown lang '".to_owned();
        m.append(s);
        m.append("' (known: python/sh/bash/powershell/node)");
        Err(m)
    }
}

/// Whether two equal calls of a script may become one.
pub open spec fn fusible(c: GCard) -> bool {
    c.pure && c.idempotent && c.concurrency == Concurrency::Safe
}

/// Whether two equal calls of a script may become one: only where it is declared
/// pure, idempotent and safe beside anything.
pub fn cse_safe(card: &ScriptCard) -> (r: bool)
    ensures
        r == fusible(card@),
{
    card.pure && card.idempotent && card.concurrency == Concurrency::Safe
}

// ── The header ──

/// The entries of a header, and whether there is one.
pub struct GHeader {
    pub started: bool,
    pub entries: Seq<(Seq<char>, Seq<char>)>,
}

/// The entries of a header in their order, and whether there is one.
#[derive(Debug)]
pub struct Header {
    pub started: bool,
    pub entries: Vec<(String, String)>,
}

/// Pairs as values.
pub open spec fn pair_views(v: Seq<(String, String)>) -> Seq<(Seq<char>, Seq<char>)> {
    v.map_values(|p: (String, String)| (p.0@, p.1@))
}

impl Header {
    pub open spec fn view(&self) -> GHeader {
        GHeader { started: self.started, entries: pair_views(self.entries@) }
    }
}

/// What a comment line says.
pub open spec fn comment_body(line: Seq<char>) -> Seq<char> {
    text::trimmed(text::front_spec(line, "#"@))
}

/// The entry of a comment, if it has one.
pub open spec fn comment_entry(body: Seq<char>) -> Seq<(Seq<char>, Seq<char>)> {
    match text::split_once_spec(body, ':') {
        Some((k, v)) => seq![(text::trimmed(k), text::trimmed(v))],
        None => Seq::empty(),
    }
}

/// The header that the lines from the `i`-th on complete: it starts at the
/// comment `ductile: v1` and ends at the first line that is no comment.
pub open spec fn header_from(lines: Seq<Seq<char>>, i: int, h: GHeader) -> Result<
    GHeader,
    Seq<char>,
>
    decreases lines.len() - i,
{
    if i >= lines.len() {
        Ok(h)
    } else {
        let line = text::trimmed(lines[i]);
        if line.len() == 0 {
            if h.started {
                Ok(h)
            } else {
                header_from(lines, i + 1, h)
            }
        } else if line[0] != '#' {
            Ok(h)
        } else {
            match text::after_prefix(comment_body(line), "ductile:"@) {
                Some(rest) => if text::trimmed(rest) == "v1"@ {
                    header_from(lines, i + 1, (GHeader { started: true, entries: h.entries }))
                } else {
                    Err(
                        "unsupported contract version '"@ + text::trimmed(rest)
                            + "' (want: ductile: v1)"@,
                    )
                },
                None => header_from(
                    lines,
                    i + 1,
                    (GHeader {
                        started: h.started,
                        entries: if h.started {
                            h.entries + comment_entry(comment_body(line))
                        } else {
                            h.entries
                        },
                    }),
                ),
            }
        }
    }
}

/// The header of a script.
pub open spec fn header_of(source: Seq<char>) -> Result<GHeader, Seq<char>> {
    header_from(
        text::lines_spec(source),
        0,
        (GHeader { started: false, entries: Seq::empty() }),
    )
}

/// The header of a script, or what is wrong with its version.
pub fn read_header(source: &str) -> (r: Result<Header, String>)
    ensures
        match r {
            Ok(h) => header_of(source@) == Ok::<GHeader, Seq<char>>(h@),
            Err(e) => header_of(source@) == Err::<GHeader, Seq<char>>(e@),
        },
{
    let lines = text::lines(source);
    let ghost lv = text::views(lines@);
    let mut h = Header { started: false, entries: Vec::new() };
    let mut i: usize = 0;
    assert(pair_views(h.entries@) =~= Seq::<(Seq<char>, Seq<char>)>::empty());
    while i < lines.len()
        invariant
            i <= lines@.len(),
            lv == text::views(lines@),
            lv == text::lines_spec(source@),
            header_of(source@) == header_from(lv, i as int, h@),
        decreases lines@.len() - i,
    {
        let line = text::trim(lines[i].as_str());
        assert(line@ == text::trimmed(lv[i as int]));
        if line.as_str().is_empty() {
            if h.started {
                return Ok(h);
            }
        } else if !text::starts_with_char(line.as_str(), '#') {
            return Ok(h);
        } else {
            let body = text::trim(text::trim_front(line.as_str(), "#").as_str());
            match text::strip_prefix(body.as_str(), "ductile:") {
                Some(rest) => {
                    let version = text::trim(rest.as_str());
                    if text::same(version.as_str(), "v1") {
                        h.started = true;
                    } else {
                        let mut m = "unsupported contract version '".to_owned();
                        m.append(version.as_str());
                        m.append("' (want: ductile: v1)");
                        return Err(m);
                    }
                },
                None => {
                    if h.started {
                        let ghost before = h@.entries;
                        match text::split_once(body.as_str(), ':') {
                            Some((k, v)) => {
                                h.entries.push(
                                    (text::trim(k.as_str()), text::trim(v.as_str())),
                                );
                            },
                            None => {},
                        }
                        assert(h@.entries =~= before + comment_entry(body@));
                    }
                },
            }
        }
        i += 1;
    }
    Ok(h)
}

/// The entries with their keys in small letters, as a map: the last one of a key
/// counts, and one without a key or a value does not.
pub open spec fn entry_map(entries: Seq<(Seq<char>, Seq<char>)>, n: int) -> Map<
    Seq<char>,
    Seq<char>,
>
    decreases n,
{
    if n <= 0 {
        Map::empty()
    } else {
        let (k, v) = entries[n - 1];
        if k.len() > 0 && v.len() > 0 {
            entry_map(entries, n - 1).insert(k, v)
        } else {
            entry_map(entries, n - 1)
        }
    }
}

/// The entries with their keys in small letters.
pub open spec fn lower_keys(entries: Seq<(Seq<char>, Seq<char>)>) -> Seq<(Seq<char>, Seq<char>)> {
    entries.map_values(|p: (Seq<char>, Seq<char>)| (text::lower(p.0), p.1))
}

/// The entries with their keys in small letters.
fn with_lower_keys(entries: &Vec<(String, String)>) -> (r: Vec<(String, String)>)
    ensures
        pair_views(r@) == lower_keys(pair_views(entries@)),
{
    let ghost all = lower_keys(pair_views(entries@));
    let mut out: Vec<(String, String)> = Vec::new();
    let mut i: usize = 0;
    assert(pair_views(out@) =~= all.take(0));
    while i < entries.len()
        invariant
            i <= entries@.len(),
            all == lower_keys(pair_views(entries@)),
            all.len() == entries@.len(),
            pair_views(out@) == all.take(i as int),
        decreases entries@.len() - i,
    {
        let ghost before = out@;
        let k = text::lowercase(entries[i].0.as_str());
        let v = entries[i].1.clone();
        assert(all[i as int] == (k@, v@));
        let ghost kv = (k@, v@);
        out.push((k, v));
        assert(pair_views(out@) =~= pair_views(before).push(kv));
        assert(all.take(i + 1) =~= all.take(i as int).push(all[i as int]));
        i += 1;
    }
    assert(all.take(all.len() as int) =~= all);
    out
}

// ── The card ──

/// The keys that every header has.
pub open spec fn required_keys() -> Seq<Seq<char>> {
    seq![
        "name"@,
        "desc"@,
        "lang"@,
        "output"@,
        "pure"@,
        "idempotent"@,
        "concurrency"@,
        "effects"@,
    ]
}

/// Which of the first `n` names are no keys.
pub open spec fn missing(kv: Map<Seq<char>, Seq<char>>, names: Seq<Seq<char>>, n: int) -> Seq<
    Seq<char>,
>
    decreases n,
{
    if n <= 0 {
        Seq::empty()
    } else if kv.dom().contains(names[n - 1]) {
        missing(kv, names, n - 1)
    } else {
        missing(kv, names, n - 1).push(names[n - 1])
    }
}

/// Whether a character can stand in the name of a script.
pub open spec fn name_char(c: char) -> bool {
    text::alnum(c) || c == '_' || c == '-'
}

/// Whether all characters of a text can stand in the name of a script.
pub open spec fn name_chars(s: Seq<char>) -> bool {
    forall|i: int| 0 <= i < s.len() ==> name_char(#[trigger] s[i])
}

/// A truth value, or what is wrong with it.
pub open spec fn flag(path: Seq<char>, k: Seq<char>, v: Seq<char>) -> Result<bool, Seq<char>> {
    if v == "true"@ {
        Ok(true)
    } else if v == "false"@ {
        Ok(false)
    } else {
        Err(path + ": "@ + k + " must be true/false, got '"@ + v + "'"@)
    }
}

/// Whether a text gives the four coordinates, each from one to four.
pub open spec fn coordinates(s: Seq<char>) -> bool {
    &&& s.len() == 19
    &&& s.subrange(0, 2) == "F("@
    &&& '1' <= s[2] <= '4'
    &&& s.subrange(3, 7) == ")-O("@
    &&& '1' <= s[7] <= '4'
    &&& s.subrange(8, 12) == ")-P("@
    &&& '1' <= s[12] <= '4'
    &&& s.subrange(13, 17) == ")-T("@
    &&& '1' <= s[17] <= '4'
    &&& s[18] == ')'
}

/// The keys of the notes on the coordinates.
pub open spec fn note_keys() -> Seq<Seq<char>> {
    seq!["mcsm_note_f"@, "mcsm_note_o"@, "mcsm_note_p"@, "mcsm_note_t"@]
}

/// The coordinates and the notes on them, which go together, or what is wrong.
pub open spec fn annotation(kv: Map<Seq<char>, Seq<char>>, path: Seq<char>) -> Result<
    (Seq<char>, Seq<char>),
    Seq<char>,
> {
    if !kv.dom().contains("mcsm"@) {
        Ok((Seq::empty(), Seq::empty()))
    } else if !coordinates(kv["mcsm"@]) {
        Err(
            path + ": mcsm must be F(f)-O(o)-P(p)-T(t) with each of 1-4, got '"@ + kv["mcsm"@]
                + "'"@,
        )
    } else if missing(kv, note_keys(), 4).len() > 0 {
        Err(
            path + ": mcsm needs a note on each dimension, missing: "@ + text::join_spec(
                missing(kv, note_keys(), 4),
                ", "@,
            ),
        )
    } else {
        Ok(
            (
                kv["mcsm"@],
                "F: "@ + kv["mcsm_note_f"@] + "\nO: "@ + kv["mcsm_note_o"@] + "\nP: "@
                    + kv["mcsm_note_p"@] + "\nT: "@ + kv["mcsm_note_t"@],
            ),
        )
    }
}

/// The value of a key, or nothing.
pub open spec fn optional(kv: Map<Seq<char>, Seq<char>>, k: Seq<char>) -> Seq<char> {
    config::value_or_empty(kv, k)
}

/// The number that a key has, or another.
pub open spec fn number_or(
    kv: Map<Seq<char>, Seq<char>>,
    k: Seq<char>,
    max: nat,
    other: int,
) -> int {
    match text::unsigned_spec(config::value_or_empty(kv, k), max) {
        Some(n) => n as int,
        None => other,
    }
}

/// The card that a header makes up, or the first thing that is wrong.
pub open spec fn card_of(started: bool, kv: Map<Seq<char>, Seq<char>>, path: Seq<char>) -> Result<
    GCard,
    Seq<char>,
> {
    if !started {
        Err(path + ": no contract header — first comment line must be `# ductile: v1`"@)
    } else if missing(kv, required_keys(), 8).len() > 0 {
        Err(
            path + ": contract header missing required keys: "@ + text::join_spec(
                missing(kv, required_keys(), 8),
                ", "@,
            ),
        )
    } else {
        match interpreter(kv["lang"@]) {
            Err(e) => Err(e),
            Ok(_) => match script_card::concurrency_of(kv["concurrency"@]) {
                Err(e) => Err(e),
                Ok(concurrency) => if !name_chars(kv["name"@]) || kv["name"@].len() == 0 {
                    Err(
                        path + ": invalid script name '"@ + kv["name"@]
                            + "' (alphanumeric/_/- only)"@,
                    )
                } else {
                    match flag(path, "pure"@, kv["pure"@]) {
                        Err(e) => Err(e),
                        Ok(pure) => match flag(path, "idempotent"@, kv["idempotent"@]) {
                            Err(e) => Err(e),
                            Ok(idempotent) => match annotation(kv, path) {
                                Err(e) => Err(e),
                                Ok((mcsm, mcsm_note)) => Ok(
                                    (GCard {
                                        name: kv["name"@],
                                        path: path,
                                        lang: kv["lang"@],
                                        desc: kv["desc"@],
                                        params: optional(kv, "params"@),
                                        output: kv["output"@],
                                        pure: pure,
                                        idempotent: idempotent,
                                        concurrency: concurrency,
                                        effects: kv["effects"@],
                                        timeout_secs: number_or(
                                            kv,
                                            "timeout"@,
                                            u64::MAX as nat,
                                            300,
                                        ),
                                        retries: number_or(
                                            kv,
                                            "retries"@,
                                            usize::MAX as nat,
                                            0,
                                        ),
                                        mcsm: mcsm,
                                        mcsm_note: mcsm_note,
                                    }),
                                ),
                            },
                        },
                    }
                },
            },
        }
    }
}

/// A result as a value.
pub open spec fn card_result(r: Result<ScriptCard, String>) -> Result<GCard, Seq<char>> {
    match r {
        Ok(c) => Ok(c@),
        Err(e) => Err(e@),
    }
}

/// Which of the names are no keys.
fn find_missing(kv: &TextMap<String>, names: &Vec<&'static str>, Ghost(nv): Ghost<Seq<Seq<char>>>) -> (r: Vec<
    String,
>)
    requires
        kv.wf(),
        nv.len() == names@.len(),
        forall|i: int| 0 <= i < nv.len() ==> #[trigger] names@[i]@ == nv[i],
    ensures
        text::views(r@) == missing(config::entries_view(*kv), nv, nv.len() as int),
{
    let ghost ev = config::entries_view(*kv);
    let mut out: Vec<String> = Vec::new();
    let mut i: usize = 0;
    assert(text::views(out@) =~= Seq::<Seq<char>>::empty());
    assert(ev.dom() =~= kv@.dom());
    while i < names.len()
        invariant
            i <= names@.len(),
            nv.len() == names@.len(),
            kv.wf(),
            ev.dom() == kv@.dom(),
            forall|j: int| 0 <= j < nv.len() ==> #[trigger] names@[j]@ == nv[j],
            text::views(out@) == missing(ev, nv, i as int),
        decreases names@.len() - i,
    {
        assert(names@[i as int]@ == nv[i as int]);
        if !kv.contains_key(names[i]) {
            let ghost before = out@;
            out.push(names[i].to_owned());
            assert(text::views(out@) =~= text::views(before).push(nv[i as int]));
        }
        i += 1;
    }
    out
}

proof fn lemma_none_missing(kv: Map<Seq<char>, Seq<char>>, names: Seq<Seq<char>>, n: int)
    requires
        0 <= n <= names.len(),
        missing(kv, names, n).len() == 0,
    ensures
        forall|i: int| 0 <= i < n ==> kv.dom().contains(#[trigger] names[i]),
    decreases n,
{
    if n > 0 {
        lemma_none_missing(kv, names, n - 1);
    }
}

/// The value of a key, or nothing.
fn get_or_empty(kv: &TextMap<String>, k: &str) -> (r: String)
    requires
        kv.wf(),
    ensures
        r@ == config::value_or_empty(config::entries_view(*kv), k@),
{
    match kv.get(k) {
        Some(v) => v.clone(),
        None => {
            let e = String::new();
            assert(e@ =~= Seq::<char>::empty());
            e
        },
    }
}

/// Whether all characters of a text can stand in the name of a script.
fn has_name_chars(s: &str) -> (r: bool)
    ensures
        r == name_chars(s@),
{
    let chars = text::chars_of(s);
    let mut i: usize = 0;
    while i < chars.len()
        invariant
            i <= chars@.len(),
            chars@ == s@,
            forall|k: int| 0 <= k < i ==> name_char(#[trigger] s@[k]),
        decreases chars@.len() - i,
    {
        let c = chars[i];
        if !(text::is_alphanumeric(c) || c == '_' || c == '-') {
            assert(!name_char(s@[i as int]));
            return false;
        }
        i += 1;
    }
    true
}

/// A truth value, or what is wrong with it.
fn parse_flag(path: &str, k: &str, v: &str) -> (r: Result<bool, String>)
    ensures
        match r {
            Ok(b) => flag(path@, k@, v@) == Ok::<bool, Seq<char>>(b),
            Err(e) => flag(path@, k@, v@) == Err::<bool, Seq<char>>(e@),
        },
{
    if text::same(v, "true") {
        Ok(true)
    } else if text::same(v, "false") {
        Ok(false)
    } else {
        let mut m = path.to_owned();
        m.append(": ");
        m.append(k);
        m.append(" must be true/false, got '");
        m.append(v);
        m.append("'");
        Err(m)
    }
}

/// Whether a text gives the four coordinates, each from one to four.
pub fn parse_mcsm(s: &str) -> (r: bool)
    ensures
        r == coordinates(s@),
{
    let c = text::chars_of(s);
    proof {
        reveal_strlit("F(");
        reveal_strlit(")-O(");
        reveal_strlit(")-P(");
        reveal_strlit(")-T(");
    }
    if c.len() != 19 {
        return false;
    }
    let r = c[0] == 'F' && c[1] == '(' && '1' <= c[2] && c[2] <= '4' && c[3] == ')' && c[4] == '-'
        && c[5] == 'O' && c[6] == '(' && '1' <= c[7] && c[7] <= '4' && c[8] == ')' && c[9] == '-'
        && c[10] == 'P' && c[11] == '(' && '1' <= c[12] && c[12] <= '4' && c[13] == ')' && c[14]
        == '-' && c[15] == 'T' && c[16] == '(' && '1' <= c[17] && c[17] <= '4' && c[18] == ')';
    proof {
        if r {
            assert(s@.subrange(0, 2) =~= "F("@);
            assert(s@.subrange(3, 7) =~= ")-O("@);
            assert(s@.subrange(8, 12) =~= ")-P("@);
            assert(s@.subrange(13, 17) =~= ")-T("@);
        }
        if coordinates(s@) {
            assert(s@.subrange(0, 2)[0] == 'F' && s@.subrange(0, 2)[1] == '(');
            assert(s@.subrange(3, 7)[0] == ')' && s@.subrange(3, 7)[1] == '-' && s@.subrange(
                3,
                7,
            )[2] == 'O' && s@.subrange(3, 7)[3] == '(');
            assert(s@.subrange(8, 12)[0] == ')' && s@.subrange(8, 12)[1] == '-' && s@.subrange(
                8,
                12,
            )[2] == 'P' && s@.subrange(8, 12)[3] == '(');
            assert(s@.subrange(13, 17)[0] == ')' && s@.subrange(13, 17)[1] == '-' && s@.subrange(
                13,
                17,
            )[2] == 'T' && s@.subrange(13, 17)[3] == '(');
        }
    }
    r
}

/// The coordinates and the notes on them, or what is wrong.
fn parse_annotation(kv: &TextMap<String>, path: &str) -> (r: Result<(String, String), String>)
    requires
        kv.wf(),
    ensures
        match r {
            Ok((a, b)) => annotation(config::entries_view(*kv), path@) == Ok::<
                (Seq<char>, Seq<char>),
                Seq<char>,
            >((a@, b@)),
            Err(e) => annotation(config::entries_view(*kv), path@) == Err::<
                (Seq<char>, Seq<char>),
                Seq<char>,
            >(e@),
        },
{
    let ghost ev = config::entries_view(*kv);
    if !kv.contains_key("mcsm") {
        let a = String::new();
        let b = String::new();
        assert(a@ =~= Seq::<char>::empty());
        assert(b@ =~= Seq::<char>::empty());
        return Ok((a, b));
    }
    let mcsm = get_or_empty(kv, "mcsm");
    if !parse_mcsm(mcsm.as_str()) {
        let mut m = path.to_owned();
        m.append(": mcsm must be F(f)-O(o)-P(p)-T(t) with each of 1-4, got '");
        m.append(mcsm.as_str());
        m.append("'");
        return Err(m);
    }
    let names: Vec<&'static str> = vec!["mcsm_note_f", "mcsm_note_o", "mcsm_note_p", "mcsm_note_t"];
    let gone = find_missing(kv, &names, Ghost(note_keys()));
    assert(gone@.len() == missing(ev, note_keys(), 4).len());
    if gone.len() > 0 {
        let mut m = path.to_owned();
        m.append(": mcsm needs a note on each dimension, missing: ");
        m.append(text::join(gone.as_slice(), ", ").as_str());
        return Err(m);
    }
    proof {
        lemma_none_missing(ev, note_keys(), 4);
        assert(ev.dom().contains(note_keys()[0]));
        assert(ev.dom().contains(note_keys()[1]));
        assert(ev.dom().contains(note_keys()[2]));
        assert(ev.dom().contains(note_keys()[3]));
    }
    let mut note = "F: ".to_owned();
    note.append(get_or_empty(kv, "mcsm_note_f").as_str());
    note.append("\nO: ");
    note.append(get_or_empty(kv, "mcsm_note_o").as_str());
    note.append("\nP: ");
    note.append(get_or_empty(kv, "mcsm_note_p").as_str());
    note.append("\nT: ");
    note.append(get_or_empty(kv, "mcsm_note_t").as_str());
    Ok((mcsm, note))
}

/// The card that the entries of a header make up, or the first thing that is
/// wrong.
pub fn card_from(started: bool, kv: &TextMap<String>, path: &str) -> (r: Result<ScriptCard, String>)
    requires
        kv.wf(),
    ensures
        card_result(r) == card_of(started, config::entries_view(*kv), path@),
{
    let ghost ev = config::entries_view(*kv);
    if !started {
        let mut m = path.to_owned();
        m.append(": no contract header — first comment line must be `# ductile: v1`");
        return Err(m);
    }
    let names: Vec<&'static str> = vec![
        "name",
        "desc",
        "lang",
        "output",
        "pure",
        "idempotent",
        "concurrency",
        "effects",
    ];
    let gone = find_missing(kv, &names, Ghost(required_keys()));
    assert(gone@.len() == missing(ev, required_keys(), 8).len());
    if gone.len() > 0 {
        let mut m = path.to_owned();
        m.append(": contract header missing required keys: ");
        m.append(text::join(gone.as_slice(), ", ").as_str());
        return Err(m);
    }
    proof {
        lemma_none_missing(ev, required_keys(), 8);
        let k = required_keys();
        assert(ev.dom().contains(k[0]) && ev.dom().contains(k[1]) && ev.dom().contains(k[2]));
        assert(ev.dom().contains(k[3]) && ev.dom().contains(k[4]) && ev.dom().contains(k[5]));
        assert(ev.dom().contains(k[6]) && ev.dom().contains(k[7]));
    }
    let lang = get_or_empty(kv, "lang");
    match lang_interpreter(lang.as_str()) {
        Ok(_) => {},
        Err(e) => {
            return Err(e);
        },
    }
    let concurrency = match Concurrency::parse(get_or_empty(kv, "concurrency").as_str()) {
        Ok(c) => c,
        Err(e) => {
            return Err(e);
        },
    };
    let name = get_or_empty(kv, "name");
    if !has_name_chars(name.as_str()) || name.as_str().is_empty() {
        let mut m = path.to_owned();
        m.append(": invalid script name '");
        m.append(name.as_str());
        m.append("' (alphanumeric/_/- only)");
        return Err(m);
    }
    let pure = match parse_flag(path, "pure", get_or_empty(kv, "pure").as_str()) {
        Ok(b) => b,
        Err(e) => {
            return Err(e);
        },
    };
    let idempotent = match parse_flag(path, "idempotent", get_or_empty(kv, "idempotent").as_str()) {
        Ok(b) => b,
        Err(e) => {
            return Err(e);
        },
    };
    let (mcsm, mcsm_note) = match parse_annotation(kv, path) {
        Ok(p) => p,
        Err(e) => {
            return Err(e);
        },
    };
    let timeout_secs: u64 = match text::parse_unsigned(
        get_or_empty(kv, "timeout").as_str(),
        u64::MAX,
    ) {
        Some(n) => n,
        None => 300,
    };
    let retries: usize = match text::parse_unsigned(
        get_or_empty(kv, "retries").as_str(),
        usize::MAX as u64,
    ) {
        Some(n) => n as usize,
        None => 0,
    };
    Ok(
        ScriptCard {
            name,
            path: path.to_owned(),
            lang,
            desc: get_or_empty(kv, "desc"),
            params: get_or_empty(kv, "params"),
            output: get_or_empty(kv, "output"),
            pure,
            idempotent,
            concurrency,
            effects: get_or_empty(kv, "effects"),
            timeout_secs,
            retries,
            mcsm,
            mcsm_note,
        },
    )
}

/// The card of a script, or the first thing that is wrong with its header.
pub open spec fn contract_of(source: Seq<char>, path: Seq<char>) -> Result<GCard, Seq<char>> {
    match header_of(source) {
        Err(e) => Err(e),
        Ok(h) => {
            let entries = lower_keys(h.entries);
            card_of(h.started, entry_map(entries, entries.len() as int), path)
        },
    }
}

/// The card of a script, or the first thing that is wrong with its header.
pub fn parse_contract(source: &str, path: &str) -> (r: Result<ScriptCard, String>)
    ensures
        card_result(r) == contract_of(source@, path@),
{
    let h = match read_header(source) {
        Ok(h) => h,
        Err(e) => {
            return Err(e);
        },
    };
    let entries = with_lower_keys(&h.entries);
    let ghost all = pair_views(entries@);
    let mut kv: TextMap<String> = TextMap::new();
    let mut i: usize = 0;
    assert(config::entries_view(kv) =~= Map::<Seq<char>, Seq<char>>::empty());
    while i < entries.len()
        invariant
            i <= entries@.len(),
            all == pair_views(entries@),
            kv.wf(),
            config::entries_view(kv) == entry_map(all, i as int),
        decreases entries@.len() - i,
    {
        let ghost before = config::entries_view(kv);
        let k = entries[i].0.clone();
        let v = entries[i].1.clone();
        assert(all[i as int] == (k@, v@));
        if !k.as_str().is_empty() && !v.as_str().is_empty() {
            let ghost ke = k@;
            let ghost ve = v@;
            kv.insert(k, v);
            assert(config::entries_view(kv) =~= before.insert(ke, ve));
        }
        i += 1;
    }
    card_from(h.started, &kv, path)
}

/// A card is only made from a header with all required keys, a language that can
/// be run and a name that can be called; coordinates come with their notes.
pub proof fn law_cards_are_whole(started: bool, kv: Map<Seq<char>, Seq<char>>, path: Seq<char>)
    requires
        card_of(started, kv, path) is Ok,
    ensures
        started,
        forall|i: int| 0 <= i < 8 ==> kv.dom().contains(#[trigger] required_keys()[i]),
        interpreter(card_of(started, kv, path)->Ok_0.lang) is Ok,
        name_chars(card_of(started, kv, path)->Ok_0.name),
        card_of(started, kv, path)->Ok_0.name.len() > 0,
        card_of(started, kv, path)->Ok_0.mcsm.len() > 0 ==> card_of(
            started,
            kv,
            path,
        )->Ok_0.mcsm_note.len() > 0,
        card_of(started, kv, path)->Ok_0.mcsm_note.len() > 0 ==> coordinates(
            card_of(started, kv, path)->Ok_0.mcsm,
        ),
{
    lemma_none_missing(kv, required_keys(), 8);
    reveal_strlit("F: ");
}

// ── Calls ──

/// The tokens of a call, and the quote that is still open.
pub struct GTokens {
    pub tokens: Seq<Seq<char>>,
    pub quote: Option<char>,
}

/// The tokens that the characters from the `i`-th on complete: they stand
/// between commas, and a comma between quotes separates nothing.
pub open spec fn tokens_from(
    s: Seq<char>,
    i: int,
    tokens: Seq<Seq<char>>,
    cur: Seq<char>,
    quote: Option<char>,
) -> GTokens
    decreases s.len() - i,
{
    if i < 0 || i >= s.len() {
        GTokens { tokens: tokens.push(text::trimmed(cur)), quote: quote }
    } else {
        match quote {
            Some(q) => if s[i] == q {
                tokens_from(s, i + 1, tokens, cur, None)
            } else {
                tokens_from(s, i + 1, tokens, cur.push(s[i]), quote)
            },
            None => if s[i] == '\'' || s[i] == '"' {
                tokens_from(s, i + 1, tokens, cur, Some(s[i]))
            } else if s[i] == ',' {
                tokens_from(s, i + 1, tokens.push(text::trimmed(cur)), Seq::empty(), None)
            } else {
                tokens_from(s, i + 1, tokens, cur.push(s[i]), None)
            },
        }
    }
}

/// The tokens with something in them, of the first `n`.
pub open spec fn full_tokens(tokens: Seq<Seq<char>>, n: int) -> Seq<Seq<char>>
    decreases n,
{
    if n <= 0 {
        Seq::empty()
    } else if tokens[n - 1].len() > 0 {
        full_tokens(tokens, n - 1).push(tokens[n - 1])
    } else {
        full_tokens(tokens, n - 1)
    }
}

/// The arguments that the tokens from the second up to the `n`-th give, or what
/// is wrong with the first that gives none.
pub open spec fn call_args(tokens: Seq<Seq<char>>, n: int) -> Result<
    Seq<(Seq<char>, Seq<char>)>,
    Seq<char>,
>
    decreases n,
{
    if n <= 1 {
        Ok(Seq::empty())
    } else {
        match call_args(tokens, n - 1) {
            Err(e) => Err(e),
            Ok(args) => match text::split_once_spec(tokens[n - 1], '=') {
                Some((k, v)) => Ok(args.push((text::trimmed(k), text::trimmed(v)))),
                None => Err(
                    "script arg '"@ + tokens[n - 1]
                        + "' is not k=v — script(name, key=value, ...)"@,
                ),
            },
        }
    }
}

/// The name and the arguments of a call.
pub type GCall = (Seq<char>, Seq<(Seq<char>, Seq<char>)>);

/// What the text between the brackets calls, or what is wrong with it.
pub open spec fn call_of_inner(inner: Seq<char>) -> Result<GCall, Seq<char>> {
    let t = tokens_from(inner, 0, Seq::empty(), Seq::empty(), None);
    let tokens = full_tokens(t.tokens, t.tokens.len() as int);
    if t.quote is Some {
        Err("script body has unbalanced quotes"@)
    } else if tokens.len() == 0 {
        Err("script() requires a script name"@)
    } else if !name_chars(tokens[0]) {
        Err("invalid script name '"@ + tokens[0] + "' in body"@)
    } else {
        match call_args(tokens, tokens.len() as int) {
            Ok(args) => Ok((tokens[0], args)),
            Err(e) => Err(e),
        }
    }
}

/// The script that a body calls and the arguments, or what is wrong with it.
pub open spec fn call_of(body: Seq<char>) -> Result<GCall, Seq<char>> {
    match text::find_char_spec(body, '(') {
        None => Err("script body missing '('"@),
        Some(open) => match text::rfind_char_spec(body, ')') {
            None => Err("script body missing closing ')'"@),
            Some(close) => if close < open {
                Err("script body parens unbalanced"@)
            } else {
                call_of_inner(body.subrange(open + 1, close))
            },
        },
    }
}

/// A result as a value.
pub open spec fn call_result(r: Result<(String, Vec<(String, String)>), String>) -> Result<
    GCall,
    Seq<char>,
> {
    match r {
        Ok((n, a)) => Ok((n@, pair_views(a@))),
        Err(e) => Err(e@),
    }
}

/// The tokens of the text between the brackets.
fn tokenize(inner: &str) -> (r: (Vec<String>, bool))
    ensures
        ({
            let t = tokens_from(inner@, 0, Seq::empty(), Seq::empty(), None);
            text::views(r.0@) == t.tokens && r.1 == (t.quote is Some)
        }),
{
    let chars = text::chars_of(inner);
    let mut tokens: Vec<String> = Vec::new();
    let mut cur = String::new();
    let mut quote: Option<char> = None;
    let mut i: usize = 0;
    assert(text::views(tokens@) =~= Seq::<Seq<char>>::empty());
    assert(cur@ =~= Seq::<char>::empty());
    let ghost all = tokens_from(inner@, 0, Seq::empty(), Seq::empty(), None);
    while i < chars.len()
        invariant
            i <= chars@.len(),
            chars@ == inner@,
            all == tokens_from(inner@, i as int, text::views(tokens@), cur@, quote),
        decreases chars@.len() - i,
    {
        let c = chars[i];
        match quote {
            Some(q) => {
                if c == q {
                    quote = None;
                } else {
                    cur.push(c);
                }
            },
            None => {
                if c == '\'' || c == '"' {
                    quote = Some(c);
                } else if c == ',' {
                    let t = text::trim(cur.as_str());
                    let ghost tv = t@;
                    let ghost before = tokens@;
                    tokens.push(t);
                    assert(text::views(tokens@) =~= text::views(before).push(tv));
                    cur = String::new();
                    assert(cur@ =~= Seq::<char>::empty());
                } else {
                    cur.push(c);
                }
            },
        }
        i += 1;
    }
    let t = text::trim(cur.as_str());
    let ghost tv = t@;
    let ghost before = tokens@;
    tokens.push(t);
    assert(text::views(tokens@) =~= text::views(before).push(tv));
    (tokens, quote.is_some())
}

/// The tokens with something in them.
fn drop_empty(tokens: &Vec<String>) -> (r: Vec<String>)
    ensures
        text::views(r@) == full_tokens(text::views(tokens@), tokens@.len() as int),
{
    let ghost tv = text::views(tokens@);
    let mut out: Vec<String> = Vec::new();
    let mut i: usize = 0;
    assert(text::views(out@) =~= Seq::<Seq<char>>::empty());
    while i < tokens.len()
        invariant
            i <= tokens@.len(),
            tv == text::views(tokens@),
            text::views(out@) == full_tokens(tv, i as int),
        decreases tokens@.len() - i,
    {
        assert(tv[i as int] == tokens@[i as int]@);
        if !tokens[i].as_str().is_empty() {
            let ghost before = out@;
            out.push(tokens[i].clone());
            assert(text::views(out@) =~= text::views(before).push(tv[i as int]));
        }
        i += 1;
    }
    out
}

proof fn lemma_args_err(tokens: Seq<Seq<char>>, n: int, m: int)
    requires
        n <= m,
        call_args(tokens, n) is Err,
    ensures
        call_args(tokens, m) == call_args(tokens, n),
    decreases m - n,
{
    if n < m {
        lemma_args_err(tokens, n, m - 1);
    }
}

/// The script that a body calls and the arguments, or what is wrong with it.
pub fn parse_script_body(body: &str) -> (r: Result<(String, Vec<(String, String)>), String>)
    ensures
        call_result(r) == call_of(body@),
{
    let open = match text::find_char(body, '(') {
        Some(i) => i,
        None => {
            return Err("script body missing '('".to_owned());
        },
    };
    let close = match text::rfind_char(body, ')') {
        Some(i) => i,
        None => {
            return Err("script body missing closing ')'".to_owned());
        },
    };
    if close < open {
        return Err("script body parens unbalanced".to_owned());
    }
    proof {
        text::lemma_find_char_from(body@, '(', 0);
        text::lemma_rfind_char(body@, ')', body@.len() as int);
        assert(open != close);
    }
    let inner = text::slice(body, open + 1, close);
    let (all, unbalanced) = tokenize(inner.as_str());
    if unbalanced {
        return Err("script body has unbalanced quotes".to_owned());
    }
    let tokens = drop_empty(&all);
    let ghost tv = text::views(tokens@);
    if tokens.len() == 0 {
        assert(tv.len() == 0);
        return Err("script() requires a script name".to_owned());
    }
    assert(tv[0] == tokens@[0]@);
    if !has_name_chars(tokens[0].as_str()) {
        let mut m = "invalid script name '".to_owned();
        m.append(tokens[0].as_str());
        m.append("' in body");
        return Err(m);
    }
    let mut args: Vec<(String, String)> = Vec::new();
    let mut i: usize = 1;
    assert(pair_views(args@) =~= Seq::<(Seq<char>, Seq<char>)>::empty());
    while i < tokens.len()
        invariant
            1 <= i <= tokens@.len(),
            tv == text::views(tokens@),
            call_args(tv, i as int) == Ok::<Seq<(Seq<char>, Seq<char>)>, Seq<char>>(
                pair_views(args@),
            ),
            name_chars(tv[0]),
            call_of(body@) == (match call_args(tv, tv.len() as int) {
                Ok(a) => Ok::<GCall, Seq<char>>((tv[0], a)),
                Err(e) => Err::<GCall, Seq<char>>(e),
            }),
        decreases tokens@.len() - i,
    {
        assert(tv[i as int] == tokens@[i as int]@);
        match text::split_once(tokens[i].as_str(), '=') {
            Some((k, v)) => {
                let ghost before = args@;
                let kt = text::trim(k.as_str());
                let vt = text::trim(v.as_str());
                let ghost p = (kt@, vt@);
                args.push((kt, vt));
                assert(pair_views(args@) =~= pair_views(before).push(p));
            },
            None => {
                let mut m = "script arg '".to_owned();
                m.append(tokens[i].as_str());
                m.append("' is not k=v — script(name, key=value, ...)");
                proof {
                    lemma_args_err(tv, i + 1, tv.len() as int);
                }
                return Err(m);
            },
        }
        i += 1;
    }
    Ok((tokens[0].clone(), args))
}

/// The body that calls a script with these arguments.
pub open spec fn call_body(name: Seq<char>, kv: Seq<char>) -> Seq<char> {
    if text::blank(kv) {
        "script("@ + name + ")"@
    } else {
        "script("@ + name + ", "@ + kv + ")"@
    }
}

/// The body that calls a script with these arguments.
pub fn build_script_call_body(name: &str, kv: &str) -> (r: String)
    ensures
        r@ == call_body(name@, kv@),
{
    let mut s = "script(".to_owned();
    s.append(name);
    if !text::is_blank(kv) {
        s.append(", ");
        s.append(kv);
    }
    s.append(")");
    s
}

proof fn lemma_plain_tokens(s: Seq<char>, i: int, cur: Seq<char>)
    requires
        0 <= i <= s.len(),
        forall|k: int| 0 <= k < s.len() ==> s[k] != '\'' && s[k] != '"' && s[k] != ',',
        cur == s.take(i),
    ensures
        tokens_from(s, i, Seq::empty(), cur, None) == (GTokens {
            tokens: seq![text::trimmed(s)],
            quote: None,
        }),
    decreases s.len() - i,
{
    if i < s.len() {
        assert(s.take(i).push(s[i]) =~= s.take(i + 1));
        lemma_plain_tokens(s, i + 1, cur.push(s[i]));
    } else {
        assert(s.take(i) =~= s);
        assert(Seq::<Seq<char>>::empty().push(text::trimmed(s)) =~= seq![text::trimmed(s)]);
    }
}

/// The body that calls a script without arguments is read as that call.
pub proof fn law_calls_read_back(name: Seq<char>, kv: Seq<char>)
    requires
        name.len() > 0,
        text::trimmed(name) == name,
        forall|k: int|
            0 <= k < name.len() ==> name[k] != '\'' && name[k] != '"' && name[k] != ',',
        text::blank(kv),
    ensures
        name_chars(name) ==> call_of(call_body(name, kv)) == Ok::<GCall, Seq<char>>(
            (name, Seq::empty()),
        ),
{
    let body = call_body(name, kv);
    reveal_strlit("script(");
    reveal_strlit(")");
    assert(body.len() == 7 + name.len() + 1);
    assert(body[6] == '(');
    assert(forall|j: int| 0 <= j < 6 ==> body[j] != '(');
    text::lemma_find_char_is(body, '(', 0, 6);
    assert(body.last() == ')');
    assert(text::rfind_char_spec(body, ')') == Some(body.len() - 1));
    assert(body.subrange(7, body.len() - 1) =~= name);
    assert(name.take(0) =~= Seq::<char>::empty());
    lemma_plain_tokens(name, 0, Seq::empty());
    let t = seq![name];
    reveal_with_fuel(full_tokens, 2);
    assert(full_tokens(t, 1) =~= seq![name]);
}

} // verus!
